//! Between a grid of pixels and the matrix of samples that is clustered.

use crate::ieee;
use crate::matrix::Matrix;
use vstd::prelude::*;
use vstd::string::*;

verus! {

/// Why a grid and a matrix do not fit each other.
#[derive(Debug, Clone, Copy, PartialEq, Eq, Structural)]
pub enum ShapeError {
    /// The grid has no pixels.
    EmptyImage,
    /// The matrix does not have three columns.
    ColumnCount,
    /// The matrix does not have one row for each pixel.
    RowCount,
}

impl ShapeError {
    /// The text that describes the error.
    pub open spec fn text(self) -> Seq<char> {
        match self {
            ShapeError::EmptyImage => "image dimensions must be positive"@,
            ShapeError::ColumnCount => "samples must have 3 columns"@,
            ShapeError::RowCount => "row count mismatch"@,
        }
    }

    /// The text that describes the error.
    pub fn message(&self) -> (s: String)
        ensures
            s@ == self.text(),
    {
        match self {
            ShapeError::EmptyImage => String::from_str("image dimensions must be positive"),
            ShapeError::ColumnCount => String::from_str("samples must have 3 columns"),
            ShapeError::RowCount => String::from_str("row count mismatch"),
        }
    }
}

/// The number of pixels of a grid fits 64 bits, and three channels for each
/// fit 128 bits.
proof fn lemma_pixels_fit(width: u32, height: u32)
    ensures
        0 <= width * height <= 0xffff_fffe_0000_0001,
{
    assert(0 <= width * height <= 0xffff_ffff * 0xffff_ffff) by (nonlinear_arith)
        requires
            0 <= width <= 0xffff_ffff,
            0 <= height <= 0xffff_ffff,
    ;
}

/// A grid of pixels with three channels each, stored row after row, the
/// channels of a pixel side by side.
#[derive(Debug)]
pub struct PixelGrid {
    width: u32,
    height: u32,
    data: Vec<u8>,
}

impl PixelGrid {
    /// Whether the storage holds three channels for each pixel. Every grid
    /// that this module hands out is well formed.
    pub closed spec fn wf(&self) -> bool {
        self.data@.len() == self.width * self.height * 3
    }

    /// The number of pixels in a row.
    pub closed spec fn width(&self) -> u32 {
        self.width
    }

    /// The number of rows.
    pub closed spec fn height(&self) -> u32 {
        self.height
    }

    /// The channels of all pixels, in the order of the storage.
    pub closed spec fn raw(&self) -> Seq<u8> {
        self.data@
    }

    /// The three channels of pixel `i`, counted row after row.
    pub open spec fn pixel(&self, i: int) -> Seq<u8> {
        self.raw().subrange(3 * i, 3 * i + 3)
    }

    /// The number of channels in a well-formed grid.
    pub proof fn lemma_raw_len(&self)
        requires
            self.wf(),
        ensures
            self.raw().len() == self.width() * self.height() * 3,
            self.width() * self.height() * 3 <= usize::MAX,
    {
        assert(self.data.len() <= usize::MAX);
    }

    /// The grid of the given width and height over `data`, or `None` where
    /// `data` does not hold three channels for each pixel.
    pub fn from_raw(width: u32, height: u32, data: Vec<u8>) -> (r: Option<PixelGrid>)
        ensures
            r is Some <==> data@.len() == width * height * 3,
            r matches Some(grid) ==> {
                &&& grid.wf()
                &&& grid.width() == width
                &&& grid.height() == height
                &&& grid.raw() == data@
            },
    {
        proof {
            lemma_pixels_fit(width, height);
        }
        let pixels: u64 = (width as u64) * (height as u64);
        let len: usize = data.len();
        if (len as u128) == (pixels as u128) * 3 {
            Some(PixelGrid { width, height, data })
        } else {
            None
        }
    }

    /// The number of pixels in a row.
    pub fn get_width(&self) -> (w: u32)
        ensures
            w == self.width(),
    {
        self.width
    }

    /// The number of rows.
    pub fn get_height(&self) -> (h: u32)
        ensures
            h == self.height(),
    {
        self.height
    }

    /// The channels of all pixels, in the order of the storage.
    pub fn into_raw(self) -> (data: Vec<u8>)
        ensures
            data@ == self.raw(),
    {
        self.data
    }
}

/// The channel values that the numbers of a row are narrowed to.
pub open spec fn narrowed(row: Seq<u32>) -> Seq<u8> {
    row.map_values(|bits: u32| ieee::channel_of(bits) as u8)
}

/// Whether `samples` holds the pixels of `grid`: one row for each pixel, in
/// the order of the storage, and in its three columns the numbers that the
/// pixel's channels hold.
pub open spec fn is_samples_of(samples: &Matrix, grid: &PixelGrid) -> bool {
    &&& samples.wf()
    &&& samples.rows() == grid.width() * grid.height()
    &&& samples.cols() == 3
    &&& forall|i: int, c: int|
        0 <= i < samples.rows() && 0 <= c < 3 ==> ieee::is_whole(
            #[trigger] samples.at(i, c),
            grid.raw()[3 * i + c] as int,
        )
}

/// Whether `grid` shows `samples`: it has the given width and height, and
/// each channel of each pixel is the number of the sample's column,
/// narrowed.
pub open spec fn is_image_of(grid: &PixelGrid, samples: &Matrix, width: u32, height: u32) -> bool {
    &&& grid.wf()
    &&& grid.width() == width
    &&& grid.height() == height
    &&& grid.raw().len() == 3 * samples.rows()
    &&& forall|i: int, c: int|
        0 <= i < samples.rows() && 0 <= c < 3 ==> #[trigger] grid.raw()[3 * i + c]
            == ieee::channel_of(samples.at(i, c))
}

/// The matrix of samples of a grid: one row for each pixel, the channel
/// values widened without rescaling. Fails where the grid has no pixels.
pub fn image_to_samples(grid: &PixelGrid) -> (r: Result<Matrix, ShapeError>)
    requires
        grid.wf(),
    ensures
        grid.width() == 0 || grid.height() == 0 ==> r == Err::<Matrix, ShapeError>(
            ShapeError::EmptyImage,
        ),
        grid.width() > 0 && grid.height() > 0 ==> r is Ok && is_samples_of(&r->Ok_0, grid),
{
    if grid.width == 0 || grid.height == 0 {
        return Err(ShapeError::EmptyImage);
    }
    let len: usize = grid.data.len();
    let rows: usize = len / 3;
    proof {
        grid.lemma_raw_len();
        assert(rows == grid.width * grid.height) by (nonlinear_arith)
            requires
                len == grid.width * grid.height * 3,
                rows == len / 3,
        ;
    }
    let mut samples = Matrix::zeros(rows, 3);
    let mut i: usize = 0;
    while i < rows
        invariant
            i <= rows,
            rows * 3 == len,
            len == grid.data@.len(),
            samples.wf(),
            samples.rows() == rows,
            samples.cols() == 3,
            forall|p: int, c: int|
                0 <= p < i && 0 <= c < 3 ==> ieee::is_whole(
                    #[trigger] samples.at(p, c),
                    grid.data@[3 * p + c] as int,
                ),
        decreases rows - i,
    {
        let mut c: usize = 0;
        while c < 3
            invariant
                c <= 3,
                i < rows,
                rows * 3 == len,
                len == grid.data@.len(),
                samples.wf(),
                samples.rows() == rows,
                samples.cols() == 3,
                forall|p: int, q: int|
                    0 <= p < i && 0 <= q < 3 ==> ieee::is_whole(
                        #[trigger] samples.at(p, q),
                        grid.data@[3 * p + q] as int,
                    ),
                forall|q: int|
                    0 <= q < c ==> ieee::is_whole(
                        #[trigger] samples.at(i as int, q),
                        grid.data@[3 * i + q] as int,
                    ),
            decreases 3 - c,
        {
            let value: u8 = grid.data[3 * i + c];
            samples.set(i, c, ieee::from_channel(value));
            c += 1;
        }
        i += 1;
    }
    Ok(samples)
}

/// The grid that shows the samples: each number clamped to the range of a
/// channel and narrowed. Fails where the matrix does not have three
/// columns, and where it does not have one row for each pixel.
pub fn samples_to_image(samples: &Matrix, width: u32, height: u32) -> (r: Result<
    PixelGrid,
    ShapeError,
>)
    requires
        samples.wf(),
    ensures
        samples.cols() != 3 ==> r == Err::<PixelGrid, ShapeError>(ShapeError::ColumnCount),
        samples.cols() == 3 && samples.rows() != width * height ==> r == Err::<
            PixelGrid,
            ShapeError,
        >(ShapeError::RowCount),
        samples.cols() == 3 && samples.rows() == width * height ==> r is Ok && is_image_of(
            &r->Ok_0,
            samples,
            width,
            height,
        ),
{
    if samples.ncols() != 3 {
        return Err(ShapeError::ColumnCount);
    }
    let rows: usize = samples.nrows();
    proof {
        lemma_pixels_fit(width, height);
    }
    let pixels: u64 = (width as u64) * (height as u64);
    if (rows as u128) != (pixels as u128) {
        return Err(ShapeError::RowCount);
    }
    proof {
        samples.lemma_size_fits();
    }
    let mut data: Vec<u8> = Vec::new();
    let mut i: usize = 0;
    while i < rows
        invariant
            i <= rows,
            rows == samples.rows(),
            samples.wf(),
            samples.cols() == 3,
            rows * 3 <= usize::MAX,
            data@.len() == 3 * i,
            forall|p: int, c: int|
                0 <= p < i && 0 <= c < 3 ==> #[trigger] data@[3 * p + c] == ieee::channel_of(
                    samples.at(p, c),
                ),
        decreases rows - i,
    {
        let mut c: usize = 0;
        while c < 3
            invariant
                c <= 3,
                i < rows,
                rows == samples.rows(),
                samples.wf(),
                samples.cols() == 3,
                rows * 3 <= usize::MAX,
                data@.len() == 3 * i + c,
                forall|p: int, q: int|
                    0 <= p < i && 0 <= q < 3 ==> #[trigger] data@[3 * p + q] == ieee::channel_of(
                        samples.at(p, q),
                    ),
                forall|q: int|
                    0 <= q < c ==> #[trigger] data@[3 * i + q] == ieee::channel_of(
                        samples.at(i as int, q),
                    ),
            decreases 3 - c,
        {
            data.push(ieee::to_channel(samples.get(i, c)));
            c += 1;
        }
        i += 1;
    }
    let grid = PixelGrid { width, height, data };
    assert(grid.wf()) by (nonlinear_arith)
        requires
            grid.data@.len() == 3 * rows,
            rows == width * height,
            grid.width == width,
            grid.height == height,
            grid.wf() <==> grid.data@.len() == grid.width * grid.height * 3,
    ;
    Ok(grid)
}

/// The samples of a grid show the grid: widening the channels and
/// narrowing them again changes nothing.
pub proof fn lemma_round_trip(grid: &PixelGrid, samples: &Matrix, shown: &PixelGrid)
    requires
        grid.wf(),
        is_samples_of(samples, grid),
        is_image_of(shown, samples, grid.width(), grid.height()),
    ensures
        shown.width() == grid.width(),
        shown.height() == grid.height(),
        shown.raw() == grid.raw(),
{
    grid.lemma_raw_len();
    assert(grid.raw().len() == 3 * samples.rows()) by (nonlinear_arith)
        requires
            grid.raw().len() == grid.width() * grid.height() * 3,
            samples.rows() == grid.width() * grid.height(),
    ;
    assert forall|k: int| 0 <= k < grid.raw().len() implies shown.raw()[k] == grid.raw()[k] by {
        let i = k / 3;
        let c = k % 3;
        assert(k == 3 * i + c);
        assert(ieee::is_whole(samples.at(i, c), grid.raw()[3 * i + c] as int));
        ieee::lemma_channel_of_whole(samples.at(i, c), grid.raw()[3 * i + c] as int);
        assert(shown.raw()[3 * i + c] == ieee::channel_of(samples.at(i, c)));
    }
    assert(shown.raw() =~= grid.raw());
}

} // verus!
