//! Where the result of a run is written.

use crate::text::{append_decimal, decimal};
use std::path::Path;
use std::path::PathBuf;
use vstd::prelude::*;
use vstd::string::*;

verus! {

/// `std::path::PathBuf`, an owned path of the platform. What it holds is
/// opaque to the proofs.
#[verifier::external_type_specification]
#[verifier::external_body]
pub struct ExPathBuf(PathBuf);

/// Calls `Path::file_stem` on the path that `path` spells: the last
/// component without its extension, if there is one. Which part of the text
/// that is depends on the platform's separators, so nothing is claimed of it.
#[verifier::external_body]
fn file_stem(path: &str) -> (stem: Option<String>) {
    let stem = Path::new(path).file_stem()?;
    Some(stem.to_str()?.to_string())
}

/// Calls `Path::join`: the path `file_name` inside `directory`. How the two
/// are put together depends on the platform, so nothing is claimed.
#[verifier::external_body]
fn join(directory: &str, file_name: &str) -> (path: PathBuf) {
    Path::new(directory).join(file_name)
}

/// The name of the file that holds the result for an input with the given
/// stem, compressed to `clusters` colors and encoded at `quality`.
pub open spec fn file_name(stem: Seq<char>, clusters: u32, quality: u8) -> Seq<char> {
    stem + "_k"@ + decimal(clusters as nat) + "_q"@ + decimal(quality as nat) + ".jpg"@
}

/// The name of the output file: the stem, the number of clusters after
/// `_k`, the quality after `_q`, and the extension `.jpg`.
pub fn output_file_name(stem: &str, clusters: u32, quality: u8) -> (name: String)
    ensures
        name@ == file_name(stem@, clusters, quality),
{
    let mut name = String::from_str(stem);
    name.append("_k");
    append_decimal(&mut name, clusters as u128);
    name.append("_q");
    append_decimal(&mut name, quality as u128);
    name.append(".jpg");
    name
}

/// The stem that names the output: that of the input, and `image` where
/// the input has none.
pub open spec fn stem_or_default(stem: Option<Seq<char>>) -> Seq<char> {
    match stem {
        Some(text) => text,
        None => "image"@,
    }
}

/// The name of the output file for an input whose stem is `stem`, or which
/// has no stem: `output_file_name` of the stem, and of `image` without one.
pub fn name_for_stem(stem: Option<String>, clusters: u32, quality: u8) -> (name: String)
    ensures
        name@ == file_name(
            stem_or_default(
                match stem {
                    Some(text) => Some(text@),
                    None => None,
                },
            ),
            clusters,
            quality,
        ),
{
    match stem {
        Some(text) => output_file_name(text.as_str(), clusters, quality),
        None => output_file_name("image", clusters, quality),
    }
}

/// The path of the output file inside `output_dir`: what `Path::join` makes
/// of the directory and of `name_for_stem` of the input's stem.
pub fn make_output_path(input: &str, output_dir: &str, clusters: u32, quality: u8) -> (path:
    PathBuf) {
    let name = name_for_stem(file_stem(input), clusters, quality);
    join(output_dir, name.as_str())
}

} // verus!
