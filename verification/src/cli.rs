//! The options of a run.

use vstd::prelude::*;

verus! {

/// The quality of the encoding where none is given.
pub const DEFAULT_JPEG_QUALITY: u8 = 95;

/// What one run of the compressor is asked to do.
#[derive(Debug)]
pub struct Options {
    /// The path of the image to read.
    pub input_path: String,
    /// The number of clusters, and so of colors in the result.
    pub clusters: u32,
    /// The directory that the result is written to.
    pub output_dir: String,
    /// The quality of the encoding, from 0 to 100.
    pub jpeg_quality: u8,
}

} // verus!
