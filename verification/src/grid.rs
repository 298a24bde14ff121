//! Integer layout of the cell grid over an image.
//!
//! Each grid cell is addressed by its cell id (`id = row * cols + col`,
//! i.e. the original index before shuffling).

use vstd::prelude::*;

verus! {

/// Grid size used when neither `--cols`/`--rows` nor `--cell` is given.
pub const DEFAULT_CELLS: usize = 20;

pub open spec fn clamp_count(requested: nat, available: nat) -> nat {
    if requested > available {
        if available >= 1 { available } else { 1 }
    } else if requested >= 1 {
        requested
    } else {
        1
    }
}

/// Clamping keeps a count that fits, cuts a larger one down to what is
/// available, lifts zero to one, and never exceeds either the request or
/// what is available (when either is at least one).
pub proof fn lemma_clamp_count(requested: nat, available: nat)
    ensures
        1 <= requested <= available ==> clamp_count(requested, available) == requested,
        requested > available >= 1 ==> clamp_count(requested, available) == available,
        requested == 0 ==> clamp_count(requested, available) == 1,
        clamp_count(requested, available) >= 1,
        available >= 1 ==> clamp_count(requested, available) <= available,
        requested >= 1 ==> clamp_count(requested, available) <= requested,
{
}

/// Layout of a `cols x rows` grid over an `img_w x img_h` image.
///
/// Returns `(cols, rows, cell_w, cell_h)`: the grid dimensions clamped to
/// `1..=image size`, and the source pixel size of one cell. The image is
/// cropped to `cell_w * cols` by `cell_h * rows`, so every cell covers
/// exactly `cell_w x cell_h` source pixels.
pub fn grid_layout(cols: usize, rows: usize, img_w: usize, img_h: usize) -> (r: (usize, usize, usize, usize))
    ensures
        r.0 == clamp_count(cols as nat, img_w as nat),
        r.1 == clamp_count(rows as nat, img_h as nat),
        // A requested count that fits the image is kept; only larger ones
        // are cut down to the image size.
        1 <= cols <= img_w ==> r.0 == cols,
        1 <= rows <= img_h ==> r.1 == rows,
        cols > img_w >= 1 ==> r.0 == img_w,
        rows > img_h >= 1 ==> r.1 == img_h,
        r.2 == if img_w / r.0 >= 1 { img_w / r.0 } else { 1 },
        r.3 == if img_h / r.1 >= 1 { img_h / r.1 } else { 1 },
        r.0 >= 1 && r.1 >= 1 && r.2 >= 1 && r.3 >= 1,
        // The crop fits inside the image and wastes less than one cell.
        img_w >= 1 ==> r.2 * r.0 <= img_w < r.2 * r.0 + r.0,
        img_h >= 1 ==> r.3 * r.1 <= img_h < r.3 * r.1 + r.1,
{
    let c = if cols < img_w { cols } else { img_w };
    let c = if c > 1 { c } else { 1 };
    let r = if rows < img_h { rows } else { img_h };
    let r = if r > 1 { r } else { 1 };
    let cw = img_w / c;
    let cw = if cw > 1 { cw } else { 1 };
    let ch = img_h / r;
    let ch = if ch > 1 { ch } else { 1 };
    proof {
        lemma_crop_fits(img_w as int, c as int);
        lemma_crop_fits(img_h as int, r as int);
    }
    (c, r, cw, ch)
}

proof fn lemma_crop_fits(size: int, count: int)
    requires
        1 <= count,
        size >= 1 ==> count <= size,
    ensures
        size >= 1 ==> size / count >= 1,
        size >= 1 ==> (size / count) * count <= size < (size / count) * count + count,
{
    if size >= 1 {
        assert((size / count) * count <= size < (size / count) * count + count) by (nonlinear_arith)
            requires
                1 <= count,
                size >= 1,
        ;
        assert(size / count >= 1) by (nonlinear_arith)
            requires
                1 <= count <= size,
        ;
    }
}

/// The requested grid dimensions.
///
/// When a cell edge `cell` is given, each cell spans `cell` source pixels, so
/// the grid is `img_w / cell` by `img_h / cell` (at least one each).
/// Otherwise `cols`/`rows` are used directly, falling back to 20 when
/// unspecified.
pub fn resolve_grid(cell: Option<usize>, cols: Option<usize>, rows: Option<usize>, img_w: usize, img_h: usize) -> (r: (usize, usize))
    requires
        cell != Some(0usize),
    ensures
        match cell {
            Some(c) => r == (
                if img_w / c >= 1 { img_w / c } else { 1 },
                if img_h / c >= 1 { img_h / c } else { 1 },
            ),
            None => r == (
                match cols { Some(x) => x, None => DEFAULT_CELLS },
                match rows { Some(x) => x, None => DEFAULT_CELLS },
            ),
        },
{
    match cell {
        Some(c) => {
            let w = img_w / c;
            let h = img_h / c;
            (if w >= 1 { w } else { 1 }, if h >= 1 { h } else { 1 })
        },
        None => (
            match cols { Some(x) => x, None => DEFAULT_CELLS },
            match rows { Some(x) => x, None => DEFAULT_CELLS },
        ),
    }
}

} // verus!
