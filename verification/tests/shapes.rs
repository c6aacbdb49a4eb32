use imgc::matrix::Matrix;
use imgc::preprocessing::{image_to_samples, samples_to_image, PixelGrid, ShapeError};

fn counting(rows: usize, cols: usize) -> Matrix {
    let data: Vec<u32> = (0..(rows * cols) as u32).collect();
    Matrix::from_vec(rows, cols, data).unwrap()
}

fn patterns(values: &[f32]) -> Vec<u32> {
    values.iter().map(|v| v.to_bits()).collect()
}

#[test]
fn a_matrix_is_made_from_its_rows_in_order() {
    let m = counting(2, 3);
    assert_eq!(m.nrows(), 2);
    assert_eq!(m.ncols(), 3);
    assert_eq!(m.get(0, 0), 0);
    assert_eq!(m.get(0, 2), 2);
    assert_eq!(m.get(1, 0), 3);
    assert_eq!(m.get(1, 2), 5);
    assert_eq!(m.into_vec(), vec![0, 1, 2, 3, 4, 5]);
}

#[test]
fn a_matrix_needs_as_many_entries_as_its_shape_says() {
    assert!(Matrix::from_vec(2, 3, vec![0; 5]).is_none());
    assert!(Matrix::from_vec(2, 3, vec![0; 7]).is_none());
    assert!(Matrix::from_vec(0, 3, vec![]).is_some());
    assert!(Matrix::from_vec(3, 0, vec![]).is_some());
    assert!(Matrix::from_vec(usize::MAX, 2, vec![0; 4]).is_none());
    assert!(Matrix::from_vec(usize::MAX, usize::MAX, vec![0; 1]).is_none());
}

#[test]
fn a_zero_matrix_holds_positive_zero() {
    let m = Matrix::zeros(3, 2);
    assert_eq!(m.nrows(), 3);
    assert_eq!(m.ncols(), 2);
    assert_eq!(m.into_vec(), vec![0u32; 6]);
}

#[test]
fn setting_an_entry_leaves_the_others() {
    let mut m = counting(3, 3);
    m.set(1, 2, 77);
    assert_eq!(m.into_vec(), vec![0, 1, 2, 3, 4, 77, 6, 7, 8]);
}

#[test]
fn copying_a_row_leaves_the_others() {
    let mut m = counting(3, 2);
    let source = Matrix::from_vec(2, 2, vec![10, 11, 12, 13]).unwrap();
    m.copy_row(1, &source, 1);
    assert_eq!(m.into_vec(), vec![0, 1, 12, 13, 4, 5]);
}

#[test]
fn gathering_picks_rows_by_index() {
    let m = counting(3, 2);
    let picked = m.gather(&vec![2, 0, 2, 1]);
    assert_eq!(picked.nrows(), 4);
    assert_eq!(picked.ncols(), 2);
    assert_eq!(picked.into_vec(), vec![4, 5, 0, 1, 4, 5, 2, 3]);
    let none = m.gather(&vec![]);
    assert_eq!(none.nrows(), 0);
    assert_eq!(none.ncols(), 2);
}

#[test]
fn a_grid_needs_three_channels_for_each_pixel() {
    assert!(PixelGrid::from_raw(2, 2, vec![0; 12]).is_some());
    assert!(PixelGrid::from_raw(2, 2, vec![0; 11]).is_none());
    assert!(PixelGrid::from_raw(2, 2, vec![0; 4]).is_none());
    assert!(PixelGrid::from_raw(0, 5, vec![]).is_some());
    assert!(PixelGrid::from_raw(u32::MAX, u32::MAX, vec![0; 3]).is_none());
    let grid = PixelGrid::from_raw(3, 1, vec![1, 2, 3, 4, 5, 6, 7, 8, 9]).unwrap();
    assert_eq!(grid.get_width(), 3);
    assert_eq!(grid.get_height(), 1);
    assert_eq!(grid.into_raw(), vec![1, 2, 3, 4, 5, 6, 7, 8, 9]);
}

#[test]
fn samples_are_the_pixels_widened() {
    let grid = PixelGrid::from_raw(2, 2, vec![0, 1, 2, 10, 20, 30, 255, 254, 253, 7, 8, 9]).unwrap();
    let samples = image_to_samples(&grid).unwrap();
    assert_eq!(samples.nrows(), 4);
    assert_eq!(samples.ncols(), 3);
    assert_eq!(
        samples.into_vec(),
        patterns(&[0.0, 1.0, 2.0, 10.0, 20.0, 30.0, 255.0, 254.0, 253.0, 7.0, 8.0, 9.0])
    );
}

#[test]
fn a_grid_without_pixels_has_no_samples() {
    let grid = PixelGrid::from_raw(0, 4, vec![]).unwrap();
    assert_eq!(image_to_samples(&grid).err(), Some(ShapeError::EmptyImage));
    let grid = PixelGrid::from_raw(4, 0, vec![]).unwrap();
    assert_eq!(image_to_samples(&grid).err(), Some(ShapeError::EmptyImage));
}

#[test]
fn a_grid_shows_the_samples_clamped_and_narrowed() {
    let samples = Matrix::from_vec(
        2,
        3,
        patterns(&[-5.0, 300.0, 127.9, 0.4, 254.99, f32::NAN]),
    )
    .unwrap();
    let grid = samples_to_image(&samples, 2, 1).unwrap();
    assert_eq!(grid.get_width(), 2);
    assert_eq!(grid.get_height(), 1);
    assert_eq!(grid.into_raw(), vec![0, 255, 127, 0, 254, 0]);
}

#[test]
fn samples_of_the_wrong_shape_show_no_grid() {
    let four = Matrix::from_vec(2, 4, vec![0; 8]).unwrap();
    assert_eq!(samples_to_image(&four, 2, 1).err(), Some(ShapeError::ColumnCount));
    assert_eq!(samples_to_image(&four, 3, 3).err(), Some(ShapeError::ColumnCount));
    let three = Matrix::from_vec(2, 3, vec![0; 6]).unwrap();
    assert_eq!(samples_to_image(&three, 3, 1).err(), Some(ShapeError::RowCount));
    assert_eq!(samples_to_image(&three, 1, 1).err(), Some(ShapeError::RowCount));
    assert_eq!(samples_to_image(&three, 0x1_0000, 0x1_0000).err(), Some(ShapeError::RowCount));
    assert_eq!(samples_to_image(&three, 0x8000_0001, 2).err(), Some(ShapeError::RowCount));
    assert!(samples_to_image(&three, 1, 2).is_ok());
    let none = Matrix::from_vec(0, 3, vec![]).unwrap();
    assert!(samples_to_image(&none, 0, 9).is_ok());
}

#[test]
fn shape_errors_have_their_texts() {
    assert_eq!(ShapeError::EmptyImage.message(), "image dimensions must be positive");
    assert_eq!(ShapeError::ColumnCount.message(), "samples must have 3 columns");
    assert_eq!(ShapeError::RowCount.message(), "row count mismatch");
}

#[test]
fn the_samples_of_a_grid_show_the_grid() {
    let mut data: Vec<u8> = Vec::new();
    for i in 0..(16 * 16 * 3) {
        data.push((i % 256) as u8);
    }
    let grid = PixelGrid::from_raw(16, 16, data.clone()).unwrap();
    let samples = image_to_samples(&grid).unwrap();
    let shown = samples_to_image(&samples, 16, 16).unwrap();
    assert_eq!(shown.get_width(), 16);
    assert_eq!(shown.get_height(), 16);
    assert_eq!(shown.into_raw(), data);
}
