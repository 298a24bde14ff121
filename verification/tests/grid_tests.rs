use sort_visualizer::grid::{grid_layout, resolve_grid};
use sort_visualizer::options::{validate_counts, KeyMode, OptionError};

const IMG_W: usize = 1920;
const IMG_H: usize = 1080;

#[test]
fn cell_size_derives_grid_from_image_dims() {
    assert_eq!(resolve_grid(Some(128), None, None, IMG_W, IMG_H), (15, 8));
    assert_eq!(resolve_grid(Some(40), None, None, IMG_W, IMG_H), (48, 27));
    assert_eq!(resolve_grid(Some(64), None, None, IMG_W, IMG_H), (30, 16));
}

#[test]
fn cell_size_clamps_to_at_least_one() {
    // Cell larger than the image: fall back to a 1 x 1 grid.
    assert_eq!(resolve_grid(Some(5000), None, None, IMG_W, IMG_H), (1, 1));
}

#[test]
fn cols_rows_defaults() {
    // Unspecified dimensions fall back to 20.
    assert_eq!(resolve_grid(None, None, None, IMG_W, IMG_H), (20, 20));
    assert_eq!(resolve_grid(None, Some(10), None, IMG_W, IMG_H), (10, 20));
    assert_eq!(resolve_grid(None, None, Some(8), IMG_W, IMG_H), (20, 8));
    assert_eq!(resolve_grid(None, Some(10), Some(8), IMG_W, IMG_H), (10, 8));
}

#[test]
fn grid_layout_clamps_to_image() {
    assert_eq!(grid_layout(500, 500, 10, 10), (10, 10, 1, 1));
    assert_eq!(grid_layout(2, 1, 8, 4), (2, 1, 4, 4));
    assert_eq!(grid_layout(0, 0, 8, 4), (1, 1, 8, 4));
    assert_eq!(grid_layout(3, 3, 0, 0), (1, 1, 1, 1));
}

#[test]
fn grid_layout_crop_wastes_less_than_a_cell() {
    let (cols, rows, cw, ch) = grid_layout(7, 5, 100, 64);
    assert_eq!((cols, rows, cw, ch), (7, 5, 14, 12));
    assert!(cw * cols <= 100 && 100 < cw * cols + cols);
    assert!(ch * rows <= 64 && 64 < ch * rows + rows);
}

#[test]
fn count_options_are_checked_in_order() {
    assert_eq!(validate_counts(None, None, None, None), Ok(()));
    assert_eq!(validate_counts(Some(3), Some(4), Some(5), Some(6)), Ok(()));
    assert_eq!(validate_counts(Some(0), Some(0), None, None), Err(OptionError::ZeroCols));
    assert_eq!(validate_counts(Some(1), Some(0), Some(0), None), Err(OptionError::ZeroRows));
    assert_eq!(validate_counts(None, None, Some(0), Some(0)), Err(OptionError::ZeroCell));
    assert_eq!(validate_counts(None, None, None, Some(0)), Err(OptionError::ZeroSpeed));
    assert_eq!(OptionError::ZeroCols.message(), "--cols must be >= 1");
    assert_eq!(OptionError::ZeroSpeed.message(), "--speed must be >= 1");
}

#[test]
fn key_mode_names() {
    assert_eq!(KeyMode::Index.name(), "original position");
    assert_eq!(KeyMode::Luma.name(), "luminance");
    assert_eq!(KeyMode::Index.code(), 0);
    assert_eq!(KeyMode::Luma.code(), 1);
}
