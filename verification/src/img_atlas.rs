//! Sprite-atlas packing: uniform grids, tight row packing, atlas sizing and
//! stitching.

use vstd::prelude::*;

use crate::canvas::{in_rect, Canvas, Rgba};
use crate::img_resize::{Align, ScaleMode};
use crate::options::Compression;
use crate::packing::{
    content_height, content_width, law_height_order_unique, order_by_height_desc, rects_overlap,
    row_count, tallest_first, tight_atlas_size, tight_fits, tight_layout, tight_position,
};
use crate::permutation::is_permutation;

verus! {

// ---------- sizes ----------

/// `s` is the smallest integer whose square is at least `n`: `ceil(sqrt(n))`.
pub open spec fn is_ceil_sqrt(s: nat, n: nat) -> bool {
    &&& s * s >= n
    &&& s == 0 || (s - 1) * (s - 1) < n
}

/// `ceil(sqrt(n))`. For every `u32` value the square root rounded up in
/// `f64` is this integer: a perfect square has an exact root, and any other
/// `n` below 2^32 has a root at least 2^-17 away from every integer, far
/// beyond the rounding error.
pub fn ceil_sqrt(n: u32) -> (s: u32)
    ensures
        is_ceil_sqrt(s as nat, n as nat),
        s <= 65536,
{
    let mut s: u64 = 0;
    while s * s < n as u64
        invariant
            s <= 65536,
            s * s <= 65536 * 65536,
            s == 0 || (s - 1) * (s - 1) < n,
        decreases 65536 - s,
    {
        proof {
            assert(s < 65536) by (nonlinear_arith)
                requires
                    s * s < n,
                    n <= u32::MAX,
            ;
            assert((s + 1) * (s + 1) <= 65536 * 65536) by (nonlinear_arith)
                requires
                    s < 65536,
            ;
        }
        s = s + 1;
    }
    s as u32
}

/// Grid shape for `n` cells: a fixed column count with at least as many rows
/// as the cells need, or the smallest square that holds them.
pub open spec fn grid_spec(n: u32, frames: Option<(u32, u32)>) -> (u32, u32) {
    match frames {
        Some((fc, fr)) => {
            let needed = ((n + fc - 1) / fc as int) as u32;
            (fc, if needed > fr { needed } else { fr })
        },
        None => {
            let side = choose|s: u32| is_ceil_sqrt(s as nat, n as nat);
            (side, side)
        },
    }
}

pub proof fn lemma_ceil_sqrt_unique(s: nat, t: nat, n: nat)
    requires
        is_ceil_sqrt(s, n),
        is_ceil_sqrt(t, n),
    ensures
        s == t,
{
    if s < t {
        assert((t - 1) * (t - 1) >= s * s) by (nonlinear_arith)
            requires
                s < t,
        ;
    } else if t < s {
        assert((s - 1) * (s - 1) >= t * t) by (nonlinear_arith)
            requires
                t < s,
        ;
    }
}

/// `g` has `fc` columns and the fewest rows, at least `fr`, that hold `n`
/// cells.
pub open spec fn fixed_columns_grid(g: (u32, u32), n: u32, fc: u32, fr: u32) -> bool {
    &&& g.0 == fc
    &&& g.1 >= fr
    &&& fc * g.1 >= n
    &&& (g.1 == fr || fc * (g.1 - 1) < n)
}

/// With a fixed column count the grid has the fewest rows, at least the
/// given ones, that hold every cell.
pub proof fn law_grid_fixed_columns(n: u32, fc: u32, fr: u32)
    requires
        fc > 0,
        n + fc <= u32::MAX,
    ensures
        fixed_columns_grid(grid_spec(n, Some((fc, fr))), n, fc, fr),
{
    let needed = (n + fc - 1) / fc as int;
    assert(fc * needed >= n && (needed == 0 || fc * (needed - 1) < n)) by (nonlinear_arith)
        requires
            needed == (n + fc - 1) / fc as int,
            fc > 0,
            n >= 0,
    ;
    let rows = grid_spec(n, Some((fc, fr))).1;
    assert(fc * rows >= fc * needed) by (nonlinear_arith)
        requires
            rows >= needed,
            fc > 0,
    ;
}

/// Grid shape for `n` cells (see [`grid_spec`]).
pub fn compute_grid(n: u32, frames: Option<(u32, u32)>) -> (g: (u32, u32))
    requires
        frames matches Some((fc, _)) ==> fc > 0 && n + fc <= u32::MAX,
    ensures
        g == grid_spec(n, frames),
        frames is None ==> is_ceil_sqrt(g.0 as nat, n as nat) && g.0 == g.1,
        n > 0 && frames is None ==> g.0 > 0,
        frames matches Some((fc, fr)) ==> fixed_columns_grid(g, n, fc, fr),
{
    proof {
        if let Some((fc, fr)) = frames {
            law_grid_fixed_columns(n, fc, fr);
        }
    }
    match frames {
        Some((fc, fr)) => {
            let needed_rows = (n + fc - 1) / fc;
            let rows = if needed_rows > fr { needed_rows } else { fr };
            (fc, rows)
        },
        None => {
            let side = ceil_sqrt(n);
            proof {
                let c = choose|s: u32| is_ceil_sqrt(s as nat, n as nat);
                assert(is_ceil_sqrt(side as nat, n as nat));
                lemma_ceil_sqrt_unique(c as nat, side as nat, n as nat);
                if n > 0 && side == 0 {
                    assert((side as nat) * (side as nat) == 0) by (nonlinear_arith)
                        requires
                            side == 0,
                    ;
                }
            }
            (side, side)
        },
    }
}

/// `dim` rounded up to a multiple of 512.
pub open spec fn round_up_512(dim: int) -> int {
    ((dim + 511) / 512) * 512
}

/// Rounds a dimension up to the nearest multiple of 512, as a square atlas.
pub fn round_to_512_square(dim: u32) -> (r: (u32, u32))
    requires
        dim + 511 <= u32::MAX,
    ensures
        r.0 == round_up_512(dim as int),
        r.1 == r.0,
{
    let rounded = ((dim + 511) / 512) * 512;
    (rounded, rounded)
}

/// The uncropped size of a uniform grid: a leading gap plus `cols x rows`
/// cells of `cell_w x cell_h` (each cell includes its trailing gap).
pub open spec fn grid_raw_size(cols: u32, rows: u32, cell_w: u32, cell_h: u32, spacing: (u32, u32)) -> (int, int) {
    (spacing.0 + cols * cell_w, spacing.1 + rows * cell_h)
}

pub open spec fn atlas_dims_spec(cols: u32, rows: u32, cell_w: u32, cell_h: u32, spacing: (u32, u32), forced: Option<(u32, u32)>) -> (u32, u32) {
    match forced {
        Some(size) => size,
        None => {
            let (rw, rh) = grid_raw_size(cols, rows, cell_w, cell_h, spacing);
            let m = if rw > rh { rw } else { rh };
            (round_up_512(m) as u32, round_up_512(m) as u32)
        },
    }
}

/// The arithmetic of [`compute_atlas_dims`] stays within `u32`.
pub open spec fn atlas_dims_fit(cols: u32, rows: u32, cell_w: u32, cell_h: u32, spacing: (u32, u32), forced: Option<(u32, u32)>) -> bool {
    forced is None ==> {
        let (rw, rh) = grid_raw_size(cols, rows, cell_w, cell_h, spacing);
        &&& cols * cell_w <= u32::MAX
        &&& rows * cell_h <= u32::MAX
        &&& rw + 511 <= u32::MAX
        &&& rh + 511 <= u32::MAX
    }
}

/// `r` is the least square atlas with sides a multiple of 512 that holds a
/// leading gap plus `cols x rows` cells of `cell_w x cell_h` on both axes.
pub open spec fn atlas_holds_grid(r: (u32, u32), cols: u32, rows: u32, cell_w: u32, cell_h: u32, spacing: (u32, u32)) -> bool {
    let need_w = spacing.0 + cols * cell_w;
    let need_h = spacing.1 + rows * cell_h;
    &&& r.0 == r.1
    &&& r.0 % 512 == 0
    &&& r.0 >= need_w
    &&& r.1 >= need_h
    &&& (r.0 - 512 < need_w || r.0 - 512 < need_h)
}

/// An auto-sized uniform-grid atlas holds the whole grid: it is square, its
/// side a multiple of 512, at least the grid's width and its height, and
/// the least such side.
pub proof fn law_grid_atlas_holds_grid(cols: u32, rows: u32, cell_w: u32, cell_h: u32, spacing: (u32, u32))
    requires
        atlas_dims_fit(cols, rows, cell_w, cell_h, spacing, None),
    ensures
        atlas_holds_grid(atlas_dims_spec(cols, rows, cell_w, cell_h, spacing, None), cols, rows, cell_w, cell_h, spacing),
{
    let (rw, rh) = grid_raw_size(cols, rows, cell_w, cell_h, spacing);
    let m = if rw > rh { rw } else { rh };
    assert(rw >= 0 && rh >= 0) by (nonlinear_arith)
        requires
            rw == spacing.0 + cols * cell_w,
            rh == spacing.1 + rows * cell_h,
    ;
    law_round_up_512(m);
}

/// Atlas size for uniform-cell mode: `forced` when given, otherwise the
/// grid's larger side rounded up to a multiple of 512, square.
pub fn compute_atlas_dims(cols: u32, rows: u32, cell_w: u32, cell_h: u32, spacing: (u32, u32), forced: Option<(u32, u32)>) -> (r: (u32, u32))
    requires
        atlas_dims_fit(cols, rows, cell_w, cell_h, spacing, forced),
    ensures
        r == atlas_dims_spec(cols, rows, cell_w, cell_h, spacing, forced),
        forced matches Some(size) ==> r == size,
        forced is None ==> atlas_holds_grid(r, cols, rows, cell_w, cell_h, spacing),
{
    proof {
        if forced is None {
            law_grid_atlas_holds_grid(cols, rows, cell_w, cell_h, spacing);
        }
    }
    if let Some(size) = forced {
        return size;
    }
    let raw_w = spacing.0 + cols * cell_w;
    let raw_h = spacing.1 + rows * cell_h;
    let max_dim = if raw_w > raw_h { raw_w } else { raw_h };
    let rounded = ((max_dim + 511) / 512) * 512;
    (rounded, rounded)
}


// ---------- stitching ----------

/// A loaded (and in uniform mode already resized) image ready to be placed.
pub struct ImageItem {
    pub name: String,
    pub image: Canvas,
}

pub open spec fn transparent() -> Rgba {
    Rgba { r: 0, g: 0, b: 0, a: 0 }
}

/// The pixel at `(x, y)` after the first `k` placements: placement `j` puts
/// `items[order[j]]` with its top-left corner at `pos[j]`, later ones over
/// earlier ones, on a transparent background.
pub open spec fn stitched_pixel(items: Seq<ImageItem>, order: Seq<usize>, pos: Seq<(u32, u32)>, k: int, x: int, y: int) -> Rgba
    decreases k,
{
    if k <= 0 {
        transparent()
    } else {
        let img = items[order[k - 1] as int].image;
        let p = pos[k - 1];
        if in_rect(x, y, p.0 as int, p.1 as int, img.w() as int, img.h() as int) {
            img.pixel(x - p.0, y - p.1)
        } else {
            stitched_pixel(items, order, pos, k - 1, x, y)
        }
    }
}

/// The canvas that stitching gives: `w x h`, each pixel as [`stitched_pixel`]
/// says after all `k` placements.
pub open spec fn is_stitched(c: &Canvas, items: Seq<ImageItem>, order: Seq<usize>, pos: Seq<(u32, u32)>, k: int, w: u32, h: u32) -> bool {
    &&& c.w() == w
    &&& c.h() == h
    &&& forall|x: int, y: int|
        0 <= x < w && 0 <= y < h ==> #[trigger] c.pixel(x, y) == stitched_pixel(items, order, pos, k, x, y)
}

/// Placements whose corner lies outside the atlas; they are skipped.
pub open spec fn outside(pos: Seq<(u32, u32)>, j: int, w: u32, h: u32) -> bool {
    pos[j].0 >= w || pos[j].1 >= h
}

/// The item indices of the first `k` placements that are skipped, in order.
pub open spec fn skipped_spec(order: Seq<usize>, pos: Seq<(u32, u32)>, k: int, w: u32, h: u32) -> Seq<usize>
    decreases k,
{
    if k <= 0 {
        seq![]
    } else {
        let s = skipped_spec(order, pos, k - 1, w, h);
        if outside(pos, k - 1, w, h) {
            s.push(order[k - 1])
        } else {
            s
        }
    }
}

/// Stitches `items[order[j]]` at `positions[j]` onto a transparent
/// `atlas_w x atlas_h` canvas, later placements over earlier ones, each
/// clipped to the canvas. Returns the canvas and, in placement order, the
/// item indices whose corner falls outside it (skipped, with a warning).
pub fn stitch_at_positions(items: &Vec<ImageItem>, order: &Vec<usize>, positions: &Vec<(u32, u32)>, atlas_w: u32, atlas_h: u32) -> (r: (Canvas, Vec<usize>))
    requires
        order.len() == positions.len(),
        forall|j: int| 0 <= j < order.len() ==> #[trigger] order@[j] < items.len(),
        atlas_w as int * atlas_h as int * 4 <= isize::MAX,
    ensures
        is_stitched(&r.0, items@, order@, positions@, order.len() as int, atlas_w, atlas_h),
        r.1@ == skipped_spec(order@, positions@, order.len() as int, atlas_w, atlas_h),
{
    let mut canvas = Canvas::from_pixel(atlas_w, atlas_h, Rgba { r: 0, g: 0, b: 0, a: 0 });
    let mut skipped: Vec<usize> = Vec::new();
    let mut k: usize = 0;
    while k < order.len()
        invariant
            order.len() == positions.len(),
            forall|j: int| 0 <= j < order.len() ==> #[trigger] order@[j] < items.len(),
            k <= order.len(),
            is_stitched(&canvas, items@, order@, positions@, k as int, atlas_w, atlas_h),
            skipped@ == skipped_spec(order@, positions@, k as int, atlas_w, atlas_h),
        decreases order.len() - k,
    {
        let (x, y) = positions[k];
        let idx = order[k];
        if x >= atlas_w || y >= atlas_h {
            skipped.push(idx);
        } else {
            canvas.paste(&items[idx].image, x, y);
        }
        k = k + 1;
    }
    (canvas, skipped)
}


// ---------- uniform grid ----------

/// `a - b`, or 0 when `b` is larger.
pub open spec fn sat_sub(a: u32, b: u32) -> int {
    if a >= b { a - b } else { 0 }
}

/// The corner of grid cell `i` (row-major over `cols` columns) for an image
/// of `img` size: the leading gap, whole cells before it, and the image
/// centred inside the `item` area of its cell.
pub open spec fn grid_position(i: int, cols: u32, cell: (u32, u32), spacing: (u32, u32), item: (u32, u32), img: (u32, u32)) -> (int, int) {
    (
        spacing.0 + (i % cols as int) * cell.0 + sat_sub(item.0, img.0) / 2,
        spacing.1 + (i / cols as int) * cell.1 + sat_sub(item.1, img.1) / 2,
    )
}

pub open spec fn grid_position_of(items: Seq<ImageItem>, i: int, cols: u32, cell: (u32, u32), spacing: (u32, u32), item: (u32, u32)) -> (int, int) {
    grid_position(i, cols, cell, spacing, item, (items[i].image.w(), items[i].image.h()))
}

/// Every grid corner fits in `u32`.
pub open spec fn grid_positions_fit(items: Seq<ImageItem>, cols: u32, cell: (u32, u32), spacing: (u32, u32), item: (u32, u32)) -> bool {
    forall|i: int| 0 <= i < items.len() ==> {
        let p = #[trigger] grid_position_of(items, i, cols, cell, spacing, item);
        p.0 <= u32::MAX && p.1 <= u32::MAX
    }
}

/// Corners of the uniform-grid cells for each item, in item order.
pub fn grid_positions(items: &Vec<ImageItem>, cols: u32, cell: (u32, u32), spacing: (u32, u32), item: (u32, u32)) -> (r: Vec<(u32, u32)>)
    requires
        cols > 0,
        items.len() <= u32::MAX,
        grid_positions_fit(items@, cols, cell, spacing, item),
    ensures
        r.len() == items.len(),
        forall|i: int| 0 <= i < r.len() ==> #[trigger] r@[i] == {
            let p = grid_position_of(items@, i, cols, cell, spacing, item);
            (p.0 as u32, p.1 as u32)
        },
{
    let mut out: Vec<(u32, u32)> = Vec::new();
    let mut i: usize = 0;
    while i < items.len()
        invariant
            cols > 0,
            items.len() <= u32::MAX,
            grid_positions_fit(items@, cols, cell, spacing, item),
            i <= items.len(),
            out.len() == i,
            forall|j: int| 0 <= j < i ==> #[trigger] out@[j] == {
                let p = grid_position_of(items@, j, cols, cell, spacing, item);
                (p.0 as u32, p.1 as u32)
            },
        decreases items.len() - i,
    {
        let iu = i as u32;
        let col = iu % cols;
        let row = iu / cols;
        let (img_w, img_h) = items[i].image.dimensions();
        let ghost p = grid_position_of(items@, i as int, cols, cell, spacing, item);
        assert(p.0 <= u32::MAX && p.1 <= u32::MAX);
        let off_x = if item.0 >= img_w { item.0 - img_w } else { 0 };
        let off_y = if item.1 >= img_h { item.1 - img_h } else { 0 };
        proof {
            assert(col as int * cell.0 as int >= 0) by (nonlinear_arith)
                requires
                    col >= 0,
                    cell.0 >= 0,
            ;
            assert(row as int * cell.1 as int >= 0) by (nonlinear_arith)
                requires
                    row >= 0,
                    cell.1 >= 0,
            ;
        }
        let x = spacing.0 + col * cell.0 + off_x / 2;
        let y = spacing.1 + row * cell.1 + off_y / 2;
        out.push((x, y));
        i = i + 1;
    }
    out
}


// ---------- atlas generation ----------

/// Configuration for atlas generation.
pub struct AtlasConfig {
    pub input: String,
    pub output: String,
    pub filter: String,
    pub do_resize: bool,
    pub resize_size: (u32, u32),
    pub resize_aspect: ScaleMode,
    pub resize_align: Align,
    pub spacing: (u32, u32),
    pub frames: Option<(u32, u32)>,
    pub atlas_size: Option<(u32, u32)>,
    pub compression: Compression,
}

/// Inputs on which the packing arithmetic cannot be carried out.
#[derive(Clone, Copy, Debug, PartialEq, Eq, Structural)]
pub enum AtlasError {
    /// A grid of zero columns (a division by zero).
    ZeroColumns,
    /// A size or position that leaves `u32`.
    Overflow,
    /// An atlas whose pixel buffer would exceed `isize::MAX` bytes.
    TooLarge,
}

/// A stitched atlas and how it was laid out.
pub struct AtlasImage {
    pub image: Canvas,
    /// Indices of items skipped because their corner fell outside the atlas.
    pub skipped: Vec<usize>,
    /// Placement order: `order[k]` is the item placed `k`-th.
    pub order: Vec<usize>,
    /// Corner of the `k`-th placed item.
    pub positions: Vec<(u32, u32)>,
    pub cols: u32,
    pub rows: u32,
    /// Size of the packed content (tight packing); the atlas size (uniform
    /// grid).
    pub content: (u32, u32),
}

/// `0, 1, .., n - 1`: the items in their input order.
pub open spec fn identity(n: nat) -> Seq<usize> {
    Seq::new(n, |i: int| i as usize)
}

/// An RGBA buffer of `w x h` pixels fits in a `Vec` (at most `isize::MAX`
/// bytes); `ImageBuffer::from_pixel` panics on a larger one.
pub open spec fn buffer_fits(w: u32, h: u32) -> bool {
    w as int * h as int * 4 <= isize::MAX
}

/// Which error, if any, the uniform-grid arithmetic runs into, checked in
/// the order the computation meets them.
pub open spec fn grid_error(items: Seq<ImageItem>, config: AtlasConfig) -> Option<AtlasError> {
    let n = items.len();
    let item = config.resize_size;
    let sp = config.spacing;
    if item.0 + sp.0 > u32::MAX || item.1 + sp.1 > u32::MAX {
        Some(AtlasError::Overflow)
    } else if config.frames matches Some((fc, _)) && (n + fc > u32::MAX || n + fc == 0) {
        Some(AtlasError::Overflow)
    } else if config.frames matches Some((fc, _)) && fc == 0 {
        Some(AtlasError::ZeroColumns)
    } else {
        let cell = ((item.0 + sp.0) as u32, (item.1 + sp.1) as u32);
        let (cols, rows) = grid_spec(n as u32, config.frames);
        if !atlas_dims_fit(cols, rows, cell.0, cell.1, sp, config.atlas_size) {
            Some(AtlasError::Overflow)
        } else if n > 0 && !grid_positions_fit(items, cols, cell, sp, item) {
            Some(AtlasError::Overflow)
        } else {
            let (aw, ah) = atlas_dims_spec(cols, rows, cell.0, cell.1, sp, config.atlas_size);
            if !buffer_fits(aw, ah) {
                Some(AtlasError::TooLarge)
            } else {
                None
            }
        }
    }
}

/// What uniform-grid packing gives for `items` (see [`run_atlas_with_resize`]).
pub open spec fn grid_atlas_outcome(items: Seq<ImageItem>, config: AtlasConfig, r: Result<AtlasImage, AtlasError>) -> bool {
    match grid_error(items, config) {
        Some(e) => r == Err::<AtlasImage, AtlasError>(e),
        None => r matches Ok(a) && {
            let n = items.len();
            let item = config.resize_size;
            let sp = config.spacing;
            let cell = ((item.0 + sp.0) as u32, (item.1 + sp.1) as u32);
            let (cols, rows) = grid_spec(n as u32, config.frames);
            let (aw, ah) = atlas_dims_spec(cols, rows, cell.0, cell.1, sp, config.atlas_size);
            &&& a.cols == cols
            &&& a.rows == rows
            &&& a.order@ == identity(n)
            &&& a.positions@.len() == n
            &&& forall|i: int| 0 <= i < n ==> #[trigger] a.positions@[i] == {
                let p = grid_position_of(items, i, cols, cell, sp, item);
                (p.0 as u32, p.1 as u32)
            }
            &&& is_stitched(&a.image, items, a.order@, a.positions@, n as int, aw, ah)
            &&& a.skipped@ == skipped_spec(a.order@, a.positions@, n as int, aw, ah)
        },
    }
}

/// Uniform-grid atlas of items already resized to `config.resize_size`:
/// item `i` goes to cell `i` (row-major), each cell `resize_size` plus the
/// spacing, after a leading gap; the atlas is `atlas_size` or the grid's
/// larger side rounded up to a multiple of 512, square.
pub fn run_atlas_with_resize(items: &Vec<ImageItem>, config: &AtlasConfig) -> (r: Result<AtlasImage, AtlasError>)
    requires
        items.len() <= u32::MAX,
    ensures
        grid_atlas_outcome(items@, *config, r),
{
    let n = items.len() as u32;
    let item = config.resize_size;
    let sp = config.spacing;
    if item.0 as u64 + sp.0 as u64 > u32::MAX as u64 || item.1 as u64 + sp.1 as u64 > u32::MAX as u64 {
        return Err(AtlasError::Overflow);
    }
    let cell = (item.0 + sp.0, item.1 + sp.1);
    if let Some((fc, _)) = config.frames {
        if n as u64 + fc as u64 > u32::MAX as u64 || n as u64 + fc as u64 == 0 {
            return Err(AtlasError::Overflow);
        }
        if fc == 0 {
            return Err(AtlasError::ZeroColumns);
        }
    }
    let (cols, rows) = compute_grid(n, config.frames);
    // the grid size arithmetic, when the atlas size is computed
    proof {
        lemma_u32_product(cols, cell.0);
        lemma_u32_product(rows, cell.1);
    }
    if config.atlas_size.is_none() {
        let raw_w = sp.0 as u64 + cols as u64 * cell.0 as u64;
        let raw_h = sp.1 as u64 + rows as u64 * cell.1 as u64;
        if cols as u64 * cell.0 as u64 > u32::MAX as u64 || rows as u64 * cell.1 as u64 > u32::MAX as u64
            || raw_w + 511 > u32::MAX as u64 || raw_h + 511 > u32::MAX as u64 {
            return Err(AtlasError::Overflow);
        }
    }
    let (atlas_w, atlas_h) = compute_atlas_dims(cols, rows, cell.0, cell.1, sp, config.atlas_size);
    let positions = if n > 0 {
        if !positions_fit(items, cols, cell, sp, item) {
            return Err(AtlasError::Overflow);
        }
        grid_positions(items, cols, cell, sp, item)
    } else {
        Vec::new()
    };
    proof {
        lemma_u32_product(atlas_w, atlas_h);
    }
    if atlas_w as u64 * atlas_h as u64 > (isize::MAX as u64) / 4 {
        return Err(AtlasError::TooLarge);
    }
    let mut order: Vec<usize> = Vec::new();
    let mut i: usize = 0;
    while i < items.len()
        invariant
            i <= items.len(),
            order@ == identity(i as nat),
        decreases items.len() - i,
    {
        order.push(i);
        assert(order@ =~= identity(i as nat + 1));
        i = i + 1;
    }
    let (image, skipped) = stitch_at_positions(items, &order, &positions, atlas_w, atlas_h);
    Ok(AtlasImage { image, skipped, order, positions, cols, rows, content: (atlas_w, atlas_h) })
}

proof fn lemma_u32_product(a: u32, b: u32)
    ensures
        a as int * b as int <= 0xffff_fffe_0000_0001,
        a as int * b as int >= 0,
{
    assert(a as int * b as int <= 0xffff_ffff * 0xffff_ffff) by (nonlinear_arith)
        requires
            a <= 0xffff_ffff,
            b <= 0xffff_ffff,
    ;
    assert(a as int * b as int >= 0) by (nonlinear_arith)
        requires
            a >= 0,
            b >= 0,
    ;
}

/// Whether every grid corner fits in `u32`.
fn positions_fit(items: &Vec<ImageItem>, cols: u32, cell: (u32, u32), sp: (u32, u32), item: (u32, u32)) -> (r: bool)
    requires
        cols > 0,
        items.len() <= u32::MAX,
    ensures
        r == grid_positions_fit(items@, cols, cell, sp, item),
{
    let mut i: usize = 0;
    while i < items.len()
        invariant
            cols > 0,
            items.len() <= u32::MAX,
            i <= items.len(),
            forall|j: int| 0 <= j < i ==> {
                let p = #[trigger] grid_position_of(items@, j, cols, cell, sp, item);
                p.0 <= u32::MAX && p.1 <= u32::MAX
            },
        decreases items.len() - i,
    {
        let iu = i as u32;
        let col = iu % cols;
        let row = iu / cols;
        let (img_w, img_h) = items[i].image.dimensions();
        let off_x = if item.0 >= img_w { item.0 - img_w } else { 0 };
        let off_y = if item.1 >= img_h { item.1 - img_h } else { 0 };
        proof {
            lemma_u32_product(col, cell.0);
            lemma_u32_product(row, cell.1);
        }
        let x = sp.0 as u64 + col as u64 * cell.0 as u64 + (off_x / 2) as u64;
        let y = sp.1 as u64 + row as u64 * cell.1 as u64 + (off_y / 2) as u64;
        if x > u32::MAX as u64 || y > u32::MAX as u64 {
            assert(!({
                let p = grid_position_of(items@, i as int, cols, cell, sp, item);
                p.0 <= u32::MAX && p.1 <= u32::MAX
            }));
            return false;
        }
        i = i + 1;
    }
    true
}


// ---------- tight packing ----------

pub open spec fn item_heights(items: Seq<ImageItem>) -> Seq<u32> {
    Seq::new(items.len(), |i: int| items[i].image.h())
}

/// The `(width, height)` of the items, in the given order.
pub open spec fn sizes_in_order(items: Seq<ImageItem>, order: Seq<usize>) -> Seq<(u32, u32)> {
    order.map_values(|k: usize| (items[k as int].image.w(), items[k as int].image.h()))
}

/// Column count of tight packing: the fixed one, or `ceil(sqrt(n))`.
pub open spec fn tight_cols(n: u32, frames: Option<(u32, u32)>) -> u32 {
    match frames {
        Some((fc, _)) => fc,
        None => choose|s: u32| is_ceil_sqrt(s as nat, n as nat),
    }
}

/// `order` is the placement order of tight packing: tallest first, ties in
/// input order.
pub open spec fn is_tight_order(items: Seq<ImageItem>, order: Seq<usize>) -> bool {
    is_permutation(order, items.len()) && tallest_first(item_heights(items), order)
}

/// The placement order of tight packing. There is exactly one such order
/// (see `law_height_order_unique`), so this names it.
pub open spec fn tight_order(items: Seq<ImageItem>) -> Seq<usize> {
    choose|o: Seq<usize>| is_tight_order(items, o)
}

/// What tight packing gives for `items` (see [`run_atlas_tight`]): the
/// errors in the order the computation meets them, else the atlas.
pub open spec fn tight_atlas_outcome(items: Seq<ImageItem>, config: AtlasConfig, r: Result<AtlasImage, AtlasError>) -> bool {
    let n = items.len();
    let cols = tight_cols(n as u32, config.frames);
    let order = tight_order(items);
    let ss = sizes_in_order(items, order);
    let (aw, ah) = tight_atlas_size(ss, cols as int, config.atlas_size);
    if cols == 0 {
        r == Err::<AtlasImage, AtlasError>(AtlasError::ZeroColumns)
    } else if !tight_fits(ss, cols as int, config.atlas_size) {
        r == Err::<AtlasImage, AtlasError>(AtlasError::Overflow)
    } else if !buffer_fits(aw as u32, ah as u32) {
        r == Err::<AtlasImage, AtlasError>(AtlasError::TooLarge)
    } else {
        r matches Ok(a) && {
            &&& is_tight_order(items, a.order@)
            &&& a.order@ == order
            &&& a.cols == cols
            &&& a.rows == row_count(n as int, cols as int)
            &&& a.content == (content_width(ss, cols as int) as u32, content_height(ss, cols as int) as u32)
            &&& a.positions@.len() == n
            &&& forall|k: int| 0 <= k < n ==> #[trigger] a.positions@[k] == {
                let p = tight_position(ss, cols as int, k);
                (p.0 as u32, p.1 as u32)
            }
            &&& is_stitched(&a.image, items, a.order@, a.positions@, n as int, aw as u32, ah as u32)
            &&& a.skipped@ == skipped_spec(a.order@, a.positions@, n as int, aw as u32, ah as u32)
        }
    }
}

/// Tight-packing atlas: items sorted by height (tallest first, stable), in
/// rows of `cols` (the fixed frame columns, or `ceil(sqrt(n))`), each row
/// as tall as its tallest item, items left to right and centred vertically
/// in their row; the atlas is `atlas_size` or the larger content side
/// rounded up to a multiple of 512, square.
pub fn run_atlas_tight(items: &Vec<ImageItem>, config: &AtlasConfig) -> (r: Result<AtlasImage, AtlasError>)
    requires
        items.len() <= u32::MAX,
    ensures
        tight_atlas_outcome(items@, *config, r),
{
    let n = items.len();
    let mut heights: Vec<u32> = Vec::new();
    let mut i: usize = 0;
    while i < n
        invariant
            n == items.len(),
            i <= n,
            heights@ == item_heights(items@).take(i as int),
        decreases n - i,
    {
        heights.push(items[i].image.height());
        assert(heights@ =~= item_heights(items@).take(i + 1));
        i = i + 1;
    }
    assert(heights@ =~= item_heights(items@));
    let order = order_by_height_desc(&heights);
    proof {
        assert(is_tight_order(items@, order@));
        let o = tight_order(items@);
        law_height_order_unique(item_heights(items@), o, order@);
        assert(tight_order(items@) == order@);
    }
    let cols = match config.frames {
        Some((fc, _)) => fc,
        None => {
            let side = ceil_sqrt(n as u32);
            proof {
                let c = choose|s: u32| is_ceil_sqrt(s as nat, n as nat);
                lemma_ceil_sqrt_unique(c as nat, side as nat, n as nat);
            }
            side
        },
    };
    if cols == 0 {
        return Err(AtlasError::ZeroColumns);
    }
    let mut sizes: Vec<(u32, u32)> = Vec::new();
    let mut k: usize = 0;
    while k < n
        invariant
            n == items.len(),
            order@.len() == n,
            forall|j: int| 0 <= j < n ==> #[trigger] order@[j] < n,
            k <= n,
            sizes@ == sizes_in_order(items@, order@).take(k as int),
        decreases n - k,
    {
        let idx = order[k];
        let (w, h) = items[idx].image.dimensions();
        sizes.push((w, h));
        assert(sizes@ =~= sizes_in_order(items@, order@).take(k + 1));
        k = k + 1;
    }
    assert(sizes@ =~= sizes_in_order(items@, order@));
    let lay = match tight_layout(&sizes, cols, config.atlas_size) {
        Some(l) => l,
        None => {
            return Err(AtlasError::Overflow);
        },
    };
    proof {
        lemma_u32_product(lay.atlas_w, lay.atlas_h);
    }
    if lay.atlas_w as u64 * lay.atlas_h as u64 > (isize::MAX as u64) / 4 {
        return Err(AtlasError::TooLarge);
    }
    let (image, skipped) = stitch_at_positions(items, &order, &lay.positions, lay.atlas_w, lay.atlas_h);
    proof {
        crate::packing::lemma_row_count_le(n as int, cols as int);
    }
    let rows = lay.rows as u32;
    Ok(AtlasImage { image, skipped, order, positions: lay.positions, cols, rows, content: (lay.content_w, lay.content_h) })
}


/// Packs the items into one atlas: uniform grid when `config.do_resize`
/// (the items must already be resized to `config.resize_size`), tight
/// packing otherwise.
pub fn run_atlas(items: &Vec<ImageItem>, config: &AtlasConfig) -> (r: Result<AtlasImage, AtlasError>)
    requires
        items.len() <= u32::MAX,
    ensures
        config.do_resize ==> grid_atlas_outcome(items@, *config, r),
        !config.do_resize ==> tight_atlas_outcome(items@, *config, r),
{
    if config.do_resize {
        run_atlas_with_resize(items, config)
    } else {
        run_atlas_tight(items, config)
    }
}

/// Whether the atlas is saved as JPEG: only for the extensions `jpg` and
/// `jpeg` as written (every other output is PNG).
pub fn atlas_output_is_jpeg(ext: Option<&str>) -> (r: bool)
    ensures
        r == (ext matches Some(e) && (e@ == "jpg"@ || e@ == "jpeg"@)),
{
    match ext {
        Some(e) => crate::text::str_eq(e, "jpg") || crate::text::str_eq(e, "jpeg"),
        None => false,
    }
}


// ---------- laws ----------

/// Auto-sized atlas sides are multiples of 512, at least the content side
/// and less than 512 above it.
pub proof fn law_round_up_512(dim: int)
    requires
        dim >= 0,
    ensures
        round_up_512(dim) % 512 == 0,
        dim <= round_up_512(dim) < dim + 512,
{
    let q = (dim + 511) / 512;
    assert(round_up_512(dim) == q * 512);
    assert((q * 512) % 512 == 0) by (nonlinear_arith);
    assert(dim <= q * 512 < dim + 512) by (nonlinear_arith)
        requires
            q == (dim + 511) / 512,
            dim >= 0,
    ;
}

/// The grid always has a cell for every item.
pub proof fn law_grid_holds_all(n: u32, frames: Option<(u32, u32)>)
    requires
        frames matches Some((fc, _)) ==> fc > 0 && n + fc <= u32::MAX,
    ensures
        grid_spec(n, frames).0 * grid_spec(n, frames).1 >= n,
{
    match frames {
        Some((fc, fr)) => {
            let needed = (n + fc - 1) / fc as int;
            let rows = grid_spec(n, frames).1;
            assert(rows >= needed);
            assert(fc * needed >= n) by (nonlinear_arith)
                requires
                    needed == (n + fc - 1) / fc as int,
                    fc > 0,
            ;
            assert(fc * rows >= fc * needed) by (nonlinear_arith)
                requires
                    rows >= needed,
                    fc > 0,
            ;
        },
        None => {
            let side = ceil_sqrt_witness(n);
            let c = choose|s: u32| is_ceil_sqrt(s as nat, n as nat);
            lemma_ceil_sqrt_unique(c as nat, side as nat, n as nat);
        },
    }
}

proof fn ceil_sqrt_witness(n: u32) -> (s: u32)
    ensures
        is_ceil_sqrt(s as nat, n as nat),
{
    // the least s whose square reaches n exists below 65537
    let bound: nat = 65536;
    assert(bound * bound >= n) by (nonlinear_arith)
        requires
            bound == 65536,
            n <= u32::MAX,
    ;
    least_square_at_least(n as nat, bound) as u32
}

proof fn least_square_at_least(n: nat, b: nat) -> (s: nat)
    requires
        b * b >= n,
        b <= 65536,
    ensures
        is_ceil_sqrt(s, n),
        s <= b,
    decreases b,
{
    if b == 0 || (b - 1) * (b - 1) < n {
        b
    } else {
        least_square_at_least(n, (b - 1) as nat)
    }
}

/// Images no larger than the cell's item area land in different, disjoint
/// places for different cells of the uniform grid.
pub proof fn law_grid_cells_disjoint(i: int, j: int, cols: u32, cell: (u32, u32), spacing: (u32, u32), item: (u32, u32), a: (u32, u32), b: (u32, u32))
    requires
        cols > 0,
        0 <= i,
        0 <= j,
        i != j,
        cell.0 == item.0 + spacing.0,
        cell.1 == item.1 + spacing.1,
        a.0 <= item.0 && a.1 <= item.1,
        b.0 <= item.0 && b.1 <= item.1,
    ensures
        ({
            let p = grid_position(i, cols, cell, spacing, item, a);
            let q = grid_position(j, cols, cell, spacing, item, b);
            !rects_overlap(p.0, p.1, a.0 as int, a.1 as int, q.0, q.1, b.0 as int, b.1 as int)
        }),
{
    let c = cols as int;
    vstd::arithmetic::div_mod::lemma_fundamental_div_mod(i, c);
    vstd::arithmetic::div_mod::lemma_fundamental_div_mod(j, c);
    let (ci, ri) = (i % c, i / c);
    let (cj, rj) = (j % c, j / c);
    // the image sits inside the item area of its cell
    assert(sat_sub(item.0, a.0) / 2 + a.0 <= item.0);
    assert(sat_sub(item.1, a.1) / 2 + a.1 <= item.1);
    assert(sat_sub(item.0, b.0) / 2 + b.0 <= item.0);
    assert(sat_sub(item.1, b.1) / 2 + b.1 <= item.1);
    if ci != cj {
        if ci < cj {
            assert(ci * cell.0 + cell.0 <= cj * cell.0) by (nonlinear_arith)
                requires
                    ci < cj,
                    cell.0 >= 0,
            ;
        } else {
            assert(cj * cell.0 + cell.0 <= ci * cell.0) by (nonlinear_arith)
                requires
                    cj < ci,
                    cell.0 >= 0,
            ;
        }
    } else {
        assert(ri != rj);
        if ri < rj {
            assert(ri * cell.1 + cell.1 <= rj * cell.1) by (nonlinear_arith)
                requires
                    ri < rj,
                    cell.1 >= 0,
            ;
        } else {
            assert(rj * cell.1 + cell.1 <= ri * cell.1) by (nonlinear_arith)
                requires
                    rj < ri,
                    cell.1 >= 0,
            ;
        }
    }
}

/// The uniform grid is row-major: item `i = r * cols + c` goes to column
/// `c` and row `r`, its cell starting after the leading gap and `c` (`r`)
/// whole cells, and the image is centred in the cell's item area (the two
/// margins differing by at most one), or flush with it when larger.
pub proof fn law_grid_row_major(i: int, r: int, c: int, cols: u32, cell: (u32, u32), spacing: (u32, u32), item: (u32, u32), img: (u32, u32))
    requires
        cols > 0,
        0 <= c < cols,
        r >= 0,
        i == r * cols + c,
    ensures
        ({
            let p = grid_position(i, cols, cell, spacing, item, img);
            let mx = p.0 - spacing.0 - c * cell.0;
            let my = p.1 - spacing.1 - r * cell.1;
            &&& img.0 <= item.0 ==> 0 <= mx <= item.0 - img.0 - mx <= mx + 1
            &&& img.0 > item.0 ==> mx == 0
            &&& img.1 <= item.1 ==> 0 <= my <= item.1 - img.1 - my <= my + 1
            &&& img.1 > item.1 ==> my == 0
        }),
{
    vstd::arithmetic::div_mod::lemma_fundamental_div_mod_converse(i, cols as int, r, c);
}

/// A pixel that no placement covers stays transparent.
pub proof fn law_stitch_uncovered_transparent(items: Seq<ImageItem>, order: Seq<usize>, pos: Seq<(u32, u32)>, k: int, x: int, y: int)
    requires
        forall|j: int| 0 <= j < k ==> !in_rect(x, y, pos[j].0 as int, pos[j].1 as int,
            #[trigger] items[order[j] as int].image.w() as int, items[order[j] as int].image.h() as int),
    ensures
        stitched_pixel(items, order, pos, k, x, y) == transparent(),
    decreases k,
{
    if k > 0 {
        law_stitch_uncovered_transparent(items, order, pos, k - 1, x, y);
    }
}

/// A pixel that placement `j` covers and no later placement covers shows
/// placement `j`'s image.
pub proof fn law_stitch_last_cover_wins(items: Seq<ImageItem>, order: Seq<usize>, pos: Seq<(u32, u32)>, k: int, j: int, x: int, y: int)
    requires
        0 <= j < k,
        in_rect(x, y, pos[j].0 as int, pos[j].1 as int, items[order[j] as int].image.w() as int, items[order[j] as int].image.h() as int),
        forall|t: int| j < t < k ==> !in_rect(x, y, pos[t].0 as int, pos[t].1 as int,
            #[trigger] items[order[t] as int].image.w() as int, items[order[t] as int].image.h() as int),
    ensures
        stitched_pixel(items, order, pos, k, x, y) == items[order[j] as int].image.pixel(x - pos[j].0, y - pos[j].1),
    decreases k,
{
    if k - 1 > j {
        law_stitch_last_cover_wins(items, order, pos, k - 1, j, x, y);
    }
}

} // verus!
