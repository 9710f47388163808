//! Tight row packing of images of different sizes: rows of a fixed number of
//! images, each row as tall as its tallest image, images centred vertically
//! in their row.

use vstd::prelude::*;
use vstd::arithmetic::div_mod::{lemma_fundamental_div_mod, lemma_fundamental_div_mod_converse};

use crate::permutation::{is_permutation, lemma_sorted_permutation_unique};

verus! {

// ---------- row arithmetic ----------

/// Sum of the widths of `sizes[a..b]`.
pub open spec fn sum_widths(sizes: Seq<(u32, u32)>, a: int, b: int) -> int
    decreases b - a,
{
    if b <= a {
        0
    } else {
        sum_widths(sizes, a, b - 1) + sizes[b - 1].0
    }
}

/// Largest height among `sizes[a..b]` (0 for an empty range).
pub open spec fn max_height(sizes: Seq<(u32, u32)>, a: int, b: int) -> int
    decreases b - a,
{
    if b <= a {
        0
    } else {
        let m = max_height(sizes, a, b - 1);
        if sizes[b - 1].1 > m { sizes[b - 1].1 as int } else { m }
    }
}

/// Number of rows of `cols` images that `n` images fill (the last one may
/// be short).
pub open spec fn row_count(n: int, cols: int) -> int {
    n / cols + if n % cols > 0 { 1int } else { 0int }
}

/// First image index of row `r`.
pub open spec fn row_lo(r: int, cols: int) -> int {
    r * cols
}

/// One past the last image index of row `r`.
pub open spec fn row_hi(r: int, cols: int, n: int) -> int {
    if n - r * cols < cols { n } else { r * cols + cols }
}

pub open spec fn row_height(sizes: Seq<(u32, u32)>, cols: int, r: int) -> int {
    max_height(sizes, row_lo(r, cols), row_hi(r, cols, sizes.len() as int))
}

pub open spec fn row_width(sizes: Seq<(u32, u32)>, cols: int, r: int) -> int {
    sum_widths(sizes, row_lo(r, cols), row_hi(r, cols, sizes.len() as int))
}

/// Total height of rows `0..r`: the top of row `r`.
pub open spec fn rows_height(sizes: Seq<(u32, u32)>, cols: int, r: int) -> int
    decreases r,
{
    if r <= 0 {
        0
    } else {
        rows_height(sizes, cols, r - 1) + row_height(sizes, cols, r - 1)
    }
}

/// Widest of rows `0..r` (0 for no rows).
pub open spec fn rows_max_width(sizes: Seq<(u32, u32)>, cols: int, r: int) -> int
    decreases r,
{
    if r <= 0 {
        0
    } else {
        let m = rows_max_width(sizes, cols, r - 1);
        let w = row_width(sizes, cols, r - 1);
        if w > m { w } else { m }
    }
}

/// Width of the packed content: the widest row, or 1 when there is none.
pub open spec fn content_width(sizes: Seq<(u32, u32)>, cols: int) -> int {
    if sizes.len() == 0 { 1 } else { rows_max_width(sizes, cols, row_count(sizes.len() as int, cols)) }
}

/// Height of the packed content: all rows stacked.
pub open spec fn content_height(sizes: Seq<(u32, u32)>, cols: int) -> int {
    rows_height(sizes, cols, row_count(sizes.len() as int, cols))
}

/// Corner of image `k`: after the images before it in its row, and centred
/// vertically in its row.
pub open spec fn tight_position(sizes: Seq<(u32, u32)>, cols: int, k: int) -> (int, int) {
    let r = k / cols;
    (
        sum_widths(sizes, row_lo(r, cols), k),
        rows_height(sizes, cols, r) + (row_height(sizes, cols, r) - sizes[k].1) / 2,
    )
}

/// The arithmetic of tight packing stays within `u32`: every row width,
/// the stacked height and, when the atlas size is computed, the rounding
/// of the larger content side.
pub open spec fn tight_fits(sizes: Seq<(u32, u32)>, cols: int, forced: Option<(u32, u32)>) -> bool {
    &&& forall|r: int| 0 <= r < row_count(sizes.len() as int, cols) ==> #[trigger] row_width(sizes, cols, r) <= u32::MAX
    &&& content_height(sizes, cols) <= u32::MAX
    &&& forced is None ==> content_width(sizes, cols) + 511 <= u32::MAX && content_height(sizes, cols) + 511 <= u32::MAX
}

// ---------- lemmas ----------

proof fn lemma_sum_widths_mono(sizes: Seq<(u32, u32)>, a: int, b: int, c: int)
    requires
        a <= b <= c,
    ensures
        0 <= sum_widths(sizes, a, b) <= sum_widths(sizes, a, c),
    decreases c - b,
{
    if b < c {
        lemma_sum_widths_mono(sizes, a, b, c - 1);
    } else {
        lemma_sum_widths_nonneg(sizes, a, b);
    }
}

proof fn lemma_sum_widths_nonneg(sizes: Seq<(u32, u32)>, a: int, b: int)
    ensures
        0 <= sum_widths(sizes, a, b),
    decreases b - a,
{
    if b > a {
        lemma_sum_widths_nonneg(sizes, a, b - 1);
    }
}

proof fn lemma_max_height_bound(sizes: Seq<(u32, u32)>, a: int, b: int, k: int)
    requires
        a <= k < b,
    ensures
        sizes[k].1 <= max_height(sizes, a, b),
        0 <= max_height(sizes, a, b) <= u32::MAX,
    decreases b - a,
{
    if k < b - 1 {
        lemma_max_height_bound(sizes, a, b - 1, k);
    } else {
        lemma_max_height_range(sizes, a, b - 1);
    }
}

proof fn lemma_max_height_range(sizes: Seq<(u32, u32)>, a: int, b: int)
    ensures
        0 <= max_height(sizes, a, b) <= u32::MAX,
    decreases b - a,
{
    if b > a {
        lemma_max_height_range(sizes, a, b - 1);
    }
}

proof fn lemma_rows_height_mono(sizes: Seq<(u32, u32)>, cols: int, r: int, s: int)
    requires
        0 <= r <= s,
    ensures
        0 <= rows_height(sizes, cols, r) <= rows_height(sizes, cols, s),
        r < s ==> rows_height(sizes, cols, r) + row_height(sizes, cols, r) <= rows_height(sizes, cols, s),
    decreases s - r,
{
    if r < s {
        lemma_rows_height_mono(sizes, cols, r, s - 1);
        lemma_max_height_range(sizes, row_lo(s - 1, cols), row_hi(s - 1, cols, sizes.len() as int));
        if r < s - 1 {
            lemma_max_height_range(sizes, row_lo(r, cols), row_hi(r, cols, sizes.len() as int));
        }
    } else {
        lemma_rows_height_nonneg(sizes, cols, r);
    }
}

proof fn lemma_rows_height_nonneg(sizes: Seq<(u32, u32)>, cols: int, r: int)
    ensures
        0 <= rows_height(sizes, cols, r),
    decreases r,
{
    if r > 0 {
        lemma_rows_height_nonneg(sizes, cols, r - 1);
        lemma_max_height_range(sizes, row_lo(r - 1, cols), row_hi(r - 1, cols, sizes.len() as int));
    }
}

proof fn lemma_rows_max_width_bound(sizes: Seq<(u32, u32)>, cols: int, r: int, q: int)
    requires
        0 <= q < r,
    ensures
        row_width(sizes, cols, q) <= rows_max_width(sizes, cols, r),
    decreases r,
{
    if q < r - 1 {
        lemma_rows_max_width_bound(sizes, cols, r - 1, q);
    }
}

/// Row `r` of a non-final index range starts inside the images.
proof fn lemma_row_bounds(n: int, cols: int, r: int)
    requires
        cols > 0,
        n >= 0,
        0 <= r < row_count(n, cols),
    ensures
        0 <= r * cols < n,
        r * cols < row_hi(r, cols, n) <= n,
        row_hi(r, cols, n) == (r + 1) * cols || (row_hi(r, cols, n) == n && r == row_count(n, cols) - 1),
        r == row_count(n, cols) - 1 ==> row_hi(r, cols, n) == n,
        r < row_count(n, cols) - 1 ==> row_hi(r, cols, n) == (r + 1) * cols,
{
    lemma_fundamental_div_mod(n, cols);
    assert(0 <= n % cols < cols);
    if r < n / cols {
        assert(r * cols + cols <= (n / cols) * cols) by (nonlinear_arith)
            requires
                r < n / cols,
                cols > 0,
        ;
    } else {
        assert(r == n / cols);
        assert(n % cols > 0);
    }
    assert(0 <= r * cols) by (nonlinear_arith)
        requires
            r >= 0,
            cols > 0,
    ;
    assert((r + 1) * cols == r * cols + cols) by (nonlinear_arith);
    if row_hi(r, cols, n) == n && n != r * cols + cols {
        if r < n / cols {
            assert(false);
        }
    }
    if r == row_count(n, cols) - 1 {
        if n % cols > 0 {
            assert(r == n / cols);
            assert(n - r * cols == n % cols) by (nonlinear_arith)
                requires
                    n == cols * (n / cols) + n % cols,
                    r == n / cols,
            ;
        } else {
            assert(r == n / cols - 1);
            assert(n - r * cols == cols) by (nonlinear_arith)
                requires
                    n == cols * (n / cols) + n % cols,
                    n % cols == 0,
                    r == n / cols - 1,
            ;
        }
    }
}

/// There are never more rows than images.
pub proof fn lemma_row_count_le(n: int, cols: int)
    requires
        n >= 0,
        cols > 0,
    ensures
        0 <= row_count(n, cols) <= n,
{
    lemma_fundamental_div_mod(n, cols);
    assert(0 <= n % cols < cols);
    assert(0 <= n / cols) by (nonlinear_arith)
        requires
            n >= 0,
            cols > 0,
            n == cols * (n / cols) + n % cols,
            n % cols < cols,
    ;
    if n % cols > 0 {
        assert(n / cols + 1 <= n) by (nonlinear_arith)
            requires
                n == cols * (n / cols) + n % cols,
                n % cols >= 1,
                cols >= 1,
                n / cols >= 0,
        ;
    } else {
        assert(n / cols <= n) by (nonlinear_arith)
            requires
                n == cols * (n / cols) + n % cols,
                cols >= 1,
                n / cols >= 0,
                n % cols >= 0,
        ;
    }
}

/// An index inside row `r` belongs to row `r`.
proof fn lemma_row_of(k: int, cols: int, r: int)
    requires
        cols > 0,
        r >= 0,
        r * cols <= k < r * cols + cols,
    ensures
        k / cols == r,
{
    lemma_fundamental_div_mod_converse(k, cols, r, k - r * cols);
}


// ---------- ordering by height ----------

/// `r` orders the heights from tallest to shortest, equal heights in input
/// order (what a stable sort by descending height gives).
pub open spec fn tallest_first(heights: Seq<u32>, r: Seq<usize>) -> bool {
    forall|i: int, j: int|
        #![trigger r[i], r[j]]
        0 <= i < j < r.len() ==> heights[r[i] as int] > heights[r[j] as int] || (heights[r[i] as int]
            == heights[r[j] as int] && r[i] < r[j])
}

/// The order of a stable sort by descending height: `r[k]` is the index of
/// the `k`-th image.
pub fn order_by_height_desc(heights: &Vec<u32>) -> (r: Vec<usize>)
    ensures
        is_permutation(r@, heights@.len()),
        tallest_first(heights@, r@),
{
    let mut out: Vec<usize> = Vec::new();
    let mut k: usize = 0;
    while k < heights.len()
        invariant
            k <= heights.len(),
            is_permutation(out@, k as nat),
            tallest_first(heights@, out@),
        decreases heights.len() - k,
    {
        let mut j = out.len();
        while j > 0 && heights[out[j - 1]] < heights[k]
            invariant
                k < heights.len(),
                j <= out.len(),
                out.len() == k,
                is_permutation(out@, k as nat),
                forall|t: int| j <= t < out.len() ==> heights@[out@[t] as int] < heights@[k as int],
            decreases j,
        {
            j = j - 1;
        }
        let ghost before = out@;
        out.insert(j, k);
        proof {
            let after = out@;
            assert(after == before.insert(j as int, k));
            assert forall|a: int, b: int| #![trigger after[a], after[b]] 0 <= a < b < after.len() implies heights@[after[a] as int]
                > heights@[after[b] as int] || (heights@[after[a] as int] == heights@[after[b] as int] && after[a] < after[b]) by {
                if b == j {
                    assert(after[a] == before[a]);
                    if a < j - 1 {
                        assert(heights@[before[a] as int] >= heights@[before[j - 1] as int]);
                    }
                } else if a == j {
                    assert(after[b] == before[b - 1]);
                } else {
                    let a0 = if a < j { a } else { a - 1 };
                    let b0 = if b < j { b } else { b - 1 };
                    assert(after[a] == before[a0]);
                    assert(after[b] == before[b0]);
                }
            }
            assert forall|a: int, b: int| 0 <= a < b < after.len() implies after[a] != after[b] by {
                if a != j && b != j {
                    let a0 = if a < j { a } else { a - 1 };
                    let b0 = if b < j { b } else { b - 1 };
                    assert(after[a] == before[a0]);
                    assert(after[b] == before[b0]);
                } else if a == j {
                    assert(after[b] == before[b - 1]);
                } else {
                    assert(after[a] == before[a]);
                }
            }
            assert forall|a: int| 0 <= a < after.len() implies #[trigger] after[a] < k + 1 by {
                if a < j {
                    assert(after[a] == before[a]);
                } else if a > j {
                    assert(after[a] == before[a - 1]);
                }
            }
        }
        k = k + 1;
    }
    out
}

// ---------- the packing ----------

/// Where tight packing puts each image, and the atlas it needs.
pub struct TightLayout {
    /// Corner of each image, in the order the sizes were given.
    pub positions: Vec<(u32, u32)>,
    pub rows: usize,
    pub content_w: u32,
    pub content_h: u32,
    pub atlas_w: u32,
    pub atlas_h: u32,
}

/// The atlas size: `forced` when given, otherwise the larger content side
/// rounded up to a multiple of 512, square.
pub open spec fn tight_atlas_size(sizes: Seq<(u32, u32)>, cols: int, forced: Option<(u32, u32)>) -> (int, int) {
    match forced {
        Some(s) => (s.0 as int, s.1 as int),
        None => {
            let cw = content_width(sizes, cols);
            let ch = content_height(sizes, cols);
            let m = if cw > ch { cw } else { ch };
            (((m + 511) / 512) * 512, ((m + 511) / 512) * 512)
        },
    }
}

proof fn lemma_rows_max_width_nonneg(sizes: Seq<(u32, u32)>, cols: int, r: int)
    ensures
        0 <= rows_max_width(sizes, cols, r),
    decreases r,
{
    if r > 0 {
        lemma_rows_max_width_nonneg(sizes, cols, r - 1);
    }
}

proof fn lemma_content_nonneg(sizes: Seq<(u32, u32)>, cols: int)
    ensures
        0 <= content_width(sizes, cols),
        0 <= content_height(sizes, cols),
{
    lemma_rows_max_width_nonneg(sizes, cols, row_count(sizes.len() as int, cols));
    lemma_rows_height_nonneg(sizes, cols, row_count(sizes.len() as int, cols));
}

/// An auto-sized tight atlas holds the packed content: it is square, its
/// side a multiple of 512, at least the content's width and its height, and
/// the least such side.
pub proof fn law_tight_atlas_holds_content(sizes: Seq<(u32, u32)>, cols: int)
    requires
        cols > 0,
    ensures
        ({
            let (aw, ah) = tight_atlas_size(sizes, cols, None);
            let cw = content_width(sizes, cols);
            let ch = content_height(sizes, cols);
            &&& aw == ah
            &&& aw % 512 == 0
            &&& aw >= cw
            &&& ah >= ch
            &&& (aw - 512 < cw || aw - 512 < ch)
        }),
{
    let cw = content_width(sizes, cols);
    let ch = content_height(sizes, cols);
    lemma_content_nonneg(sizes, cols);
    let m = if cw > ch { cw } else { ch };
    let q = (m + 511) / 512;
    assert((q * 512) % 512 == 0) by (nonlinear_arith);
    assert(m <= q * 512 < m + 512) by (nonlinear_arith)
        requires
            q == (m + 511) / 512,
            m >= 0,
    ;
}

fn min_cols(n: usize, lo: usize, cols: usize) -> (hi: usize)
    requires
        lo <= n,
    ensures
        hi == row_hi_exec_spec(n as int, lo as int, cols as int),
{
    if n - lo < cols { n } else { lo + cols }
}

pub open spec fn row_hi_exec_spec(n: int, lo: int, cols: int) -> int {
    if n - lo < cols { n } else { lo + cols }
}

/// Packs images of the given `(width, height)` sizes, in the given order,
/// into rows of `cols`; `None` when the packing arithmetic would leave `u32`.
pub fn tight_layout(sizes: &Vec<(u32, u32)>, cols: u32, forced: Option<(u32, u32)>) -> (r: Option<TightLayout>)
    requires
        cols > 0,
    ensures
        r is None <==> !tight_fits(sizes@, cols as int, forced),
        r matches Some(t) ==> {
            &&& t.rows == row_count(sizes@.len() as int, cols as int)
            &&& t.content_w == content_width(sizes@, cols as int)
            &&& t.content_h == content_height(sizes@, cols as int)
            &&& (t.atlas_w as int, t.atlas_h as int) == tight_atlas_size(sizes@, cols as int, forced)
            &&& (forced matches Some(f) ==> (t.atlas_w, t.atlas_h) == f)
            &&& (forced is None ==> {
                &&& t.atlas_w == t.atlas_h
                &&& t.atlas_w % 512 == 0
                &&& t.atlas_w >= t.content_w
                &&& t.atlas_h >= t.content_h
                &&& (t.atlas_w - 512 < t.content_w || t.atlas_w - 512 < t.content_h)
            })
            &&& t.positions@.len() == sizes@.len()
            &&& forall|k: int| 0 <= k < sizes@.len() ==> {
                let p = #[trigger] tight_position(sizes@, cols as int, k);
                t.positions@[k] == (p.0 as u32, p.1 as u32)
            }
        },
{
    let ghost ss = sizes@;
    proof {
        law_tight_atlas_holds_content(ss, cols as int);
    }
    let n = sizes.len();
    let c = cols as usize;
    let ghost ci = cols as int;
    proof {
        lemma_fundamental_div_mod(n as int, c as int);
        if n % c > 0 {
            assert(n / c < usize::MAX) by (nonlinear_arith)
                requires
                    n == c * (n / c) + n % c,
                    n % c > 0,
                    c >= 1,
                    n <= usize::MAX,
            ;
        }
    }
    let nrows = n / c + if n % c > 0 { 1 } else { 0 };
    assert(nrows == row_count(n as int, ci));
    // pass 1: the height and width of every row
    let mut heights: Vec<u32> = Vec::new();
    let mut widths: Vec<u32> = Vec::new();
    let mut acc_h: u64 = 0;
    let mut max_w: u64 = 0;
    let mut r: usize = 0;
    while r < nrows
        invariant
            ss == sizes@,
            n == ss.len(),
            c == cols,
            ci == cols,
            cols > 0,
            nrows == row_count(n as int, ci),
            r <= nrows,
            heights@.len() == r,
            widths@.len() == r,
            forall|t: int| 0 <= t < r ==> #[trigger] heights@[t] == row_height(ss, ci, t),
            forall|t: int| 0 <= t < r ==> #[trigger] widths@[t] == row_width(ss, ci, t),
            forall|t: int| 0 <= t < r ==> #[trigger] row_width(ss, ci, t) <= u32::MAX,
            acc_h == rows_height(ss, ci, r as int),
            acc_h <= u32::MAX,
            max_w == rows_max_width(ss, ci, r as int),
            max_w <= u32::MAX,
        decreases nrows - r,
    {
        proof {
            lemma_row_bounds(n as int, ci, r as int);
        }
        let lo = r * c;
        let hi = min_cols(n, lo, c);
        assert(hi == row_hi(r as int, ci, n as int));
        let mut sw: u64 = 0;
        let mut mh: u32 = 0;
        let mut k = lo;
        while k < hi
            invariant
                ss == sizes@,
                n == ss.len(),
                lo <= k <= hi <= n,
                sw == sum_widths(ss, lo as int, k as int),
                sw <= u32::MAX,
                mh == max_height(ss, lo as int, k as int),
                hi == row_hi(r as int, ci, n as int),
                lo == r as int * ci,
                r < nrows,
                nrows == row_count(n as int, ci),
                ci == cols,
            decreases hi - k,
        {
            let (w, h) = sizes[k];
            if h > mh {
                mh = h;
            }
            sw = sw + w as u64;
            k = k + 1;
            if sw > u32::MAX as u64 {
                proof {
                    lemma_sum_widths_mono(ss, lo as int, k as int, hi as int);
                    assert(row_width(ss, ci, r as int) > u32::MAX);
                }
                return None;
            }
        }
        proof {
            lemma_max_height_range(ss, lo as int, hi as int);
            lemma_rows_height_mono(ss, ci, r as int + 1, nrows as int);
        }
        if acc_h + mh as u64 > u32::MAX as u64 {
            return None;
        }
        heights.push(mh);
        widths.push(sw as u32);
        acc_h = acc_h + mh as u64;
        if sw > max_w {
            max_w = sw;
        }
        r = r + 1;
    }
    let content_h = acc_h as u32;
    let content_w: u32 = if n == 0 { 1 } else { max_w as u32 };
    let (atlas_w, atlas_h) = match forced {
        Some(size) => size,
        None => {
            if content_w as u64 + 511 > u32::MAX as u64 || content_h as u64 + 511 > u32::MAX as u64 {
                return None;
            }
            let m = if content_w > content_h { content_w } else { content_h };
            let rounded = ((m + 511) / 512) * 512;
            (rounded, rounded)
        },
    };
    // pass 2: the corners
    proof {
        if nrows == 0 {
            assert(n == c * (n / c) + n % c);
            assert(n / c == 0 && n % c == 0);
            assert(c * (n / c) == 0) by (nonlinear_arith)
                requires
                    n / c == 0,
            ;
            assert(n == 0);
        }
    }
    let mut positions: Vec<(u32, u32)> = Vec::new();
    let mut y: u32 = 0;
    let mut r: usize = 0;
    while r < nrows
        invariant
            ss == sizes@,
            n == ss.len(),
            c == cols,
            ci == cols,
            cols > 0,
            nrows == row_count(n as int, ci),
            r <= nrows,
            heights@.len() == nrows,
            widths@.len() == nrows,
            forall|t: int| 0 <= t < nrows ==> #[trigger] heights@[t] == row_height(ss, ci, t),
            forall|t: int| 0 <= t < nrows ==> #[trigger] widths@[t] == row_width(ss, ci, t),
            forall|t: int| 0 <= t < nrows ==> #[trigger] row_width(ss, ci, t) <= u32::MAX,
            content_height(ss, ci) <= u32::MAX,
            y == rows_height(ss, ci, r as int),
            r < nrows ==> positions@.len() == r as int * ci,
            r == nrows ==> positions@.len() == n,
            forall|k: int| 0 <= k < positions@.len() ==> {
                let p = #[trigger] tight_position(ss, ci, k);
                positions@[k] == (p.0 as u32, p.1 as u32)
            },
        decreases nrows - r,
    {
        proof {
            lemma_row_bounds(n as int, ci, r as int);
            lemma_rows_height_mono(ss, ci, r as int, nrows as int);
            lemma_rows_height_mono(ss, ci, r as int + 1, nrows as int);
        }
        let lo = r * c;
        let hi = min_cols(n, lo, c);
        let rh = heights[r];
        let mut x: u32 = 0;
        let mut k = lo;
        while k < hi
            invariant
                ss == sizes@,
                n == ss.len(),
                ci == cols,
                cols > 0,
                lo == r * ci,
                hi == row_hi(r as int, ci, n as int),
                lo <= k <= hi <= n,
                rh == row_height(ss, ci, r as int),
                row_width(ss, ci, r as int) <= u32::MAX,
                y == rows_height(ss, ci, r as int),
                y + rh <= u32::MAX,
                x == sum_widths(ss, lo as int, k as int),
                positions@.len() == k,
                forall|j: int| 0 <= j < positions@.len() ==> {
                    let p = #[trigger] tight_position(ss, ci, j);
                    positions@[j] == (p.0 as u32, p.1 as u32)
                },
            decreases hi - k,
        {
            let (w, h) = sizes[k];
            proof {
                lemma_max_height_bound(ss, lo as int, hi as int, k as int);
                lemma_row_of(k as int, ci, r as int);
                lemma_sum_widths_mono(ss, lo as int, k as int + 1, hi as int);
            }
            positions.push((x, y + (rh - h) / 2));
            x = x + w;
            k = k + 1;
        }
        y = y + rh;
        r = r + 1;
    }
    Some(TightLayout { positions, rows: nrows, content_w, content_h, atlas_w, atlas_h })
}


// ---------- laws of the packing ----------

/// The rectangles `[x1, x1 + w1) x [y1, y1 + h1)` and `[x2, x2 + w2) x
/// [y2, y2 + h2)` share a point.
pub open spec fn rects_overlap(x1: int, y1: int, w1: int, h1: int, x2: int, y2: int, w2: int, h2: int) -> bool {
    x1 < x2 + w2 && x2 < x1 + w1 && y1 < y2 + h2 && y2 < y1 + h1
}

proof fn lemma_row_of_index(n: int, cols: int, k: int)
    requires
        cols > 0,
        0 <= k < n,
    ensures
        0 <= k / cols < row_count(n, cols),
        row_lo(k / cols, cols) <= k < row_hi(k / cols, cols, n),
{
    lemma_fundamental_div_mod(k, cols);
    lemma_fundamental_div_mod(n, cols);
    let r = k / cols;
    assert(0 <= r) by (nonlinear_arith)
        requires
            k >= 0,
            cols > 0,
            k == cols * (k / cols) + k % cols,
            k % cols < cols,
            r == k / cols,
    ;
    assert(r <= n / cols) by (nonlinear_arith)
        requires
            k < n,
            cols > 0,
            k == cols * r + k % cols,
            n == cols * (n / cols) + n % cols,
            0 <= k % cols < cols,
            0 <= n % cols < cols,
    ;
    if r == n / cols {
        assert(n % cols > k % cols) by (nonlinear_arith)
            requires
                k < n,
                k == cols * r + k % cols,
                n == cols * r + n % cols,
        ;
    }
    assert(r * cols == cols * r) by (nonlinear_arith);
    assert(k < r * cols + cols);
}

/// Every image of tight packing lies inside the packed content area.
pub proof fn law_tight_within_content(sizes: Seq<(u32, u32)>, cols: int, k: int)
    requires
        cols > 0,
        0 <= k < sizes.len(),
    ensures
        ({
            let p = tight_position(sizes, cols, k);
            &&& 0 <= p.0 && p.0 + sizes[k].0 <= content_width(sizes, cols)
            &&& 0 <= p.1 && p.1 + sizes[k].1 <= content_height(sizes, cols)
        }),
{
    let n = sizes.len() as int;
    let r = k / cols;
    lemma_row_of_index(n, cols, k);
    let lo = row_lo(r, cols);
    let hi = row_hi(r, cols, n);
    lemma_sum_widths_mono(sizes, lo, k, k + 1);
    lemma_sum_widths_mono(sizes, lo, k + 1, hi);
    lemma_rows_max_width_bound(sizes, cols, row_count(n, cols), r);
    lemma_max_height_bound(sizes, lo, hi, k);
    lemma_rows_height_mono(sizes, cols, r, row_count(n, cols));
}

/// Tight rows are filled left to right from the left edge, each image
/// starting where the one before it in the row ends, and each image is
/// centred vertically in its row (the two margins differing by at most
/// one).
pub proof fn law_tight_row_layout(sizes: Seq<(u32, u32)>, cols: int, k: int)
    requires
        cols > 0,
        0 <= k < sizes.len(),
    ensures
        ({
            let p = tight_position(sizes, cols, k);
            let r = k / cols;
            let t = p.1 - rows_height(sizes, cols, r);
            let b = row_height(sizes, cols, r) - sizes[k].1 - t;
            &&& k % cols == 0 ==> p.0 == 0
            &&& k % cols != 0 ==> (k - 1) / cols == r && p.0 == tight_position(sizes, cols, k - 1).0 + sizes[k - 1].0
            &&& 0 <= t <= b <= t + 1
        }),
{
    let n = sizes.len() as int;
    let r = k / cols;
    vstd::arithmetic::div_mod::lemma_fundamental_div_mod(k, cols);
    lemma_row_of_index(n, cols, k);
    let lo = row_lo(r, cols);
    let hi = row_hi(r, cols, n);
    lemma_max_height_bound(sizes, lo, hi, k);
    if k % cols == 0 {
        assert(lo == k);
    } else {
        vstd::arithmetic::div_mod::lemma_fundamental_div_mod_converse(k - 1, cols, r, k % cols - 1);
        assert(lo < k);
    }
}

/// No two images of tight packing overlap.
pub proof fn law_tight_disjoint(sizes: Seq<(u32, u32)>, cols: int, j: int, k: int)
    requires
        cols > 0,
        0 <= j < sizes.len(),
        0 <= k < sizes.len(),
        j != k,
    ensures
        ({
            let p = tight_position(sizes, cols, j);
            let q = tight_position(sizes, cols, k);
            !rects_overlap(p.0, p.1, sizes[j].0 as int, sizes[j].1 as int, q.0, q.1, sizes[k].0 as int, sizes[k].1 as int)
        }),
{
    if j < k {
        lemma_tight_ordered(sizes, cols, j, k);
    } else {
        lemma_tight_ordered(sizes, cols, k, j);
    }
}

proof fn lemma_tight_ordered(sizes: Seq<(u32, u32)>, cols: int, j: int, k: int)
    requires
        cols > 0,
        0 <= j < k < sizes.len(),
    ensures
        ({
            let p = tight_position(sizes, cols, j);
            let q = tight_position(sizes, cols, k);
            p.0 + sizes[j].0 <= q.0 || p.1 + sizes[j].1 <= q.1
        }),
{
    let n = sizes.len() as int;
    lemma_row_of_index(n, cols, j);
    lemma_row_of_index(n, cols, k);
    let rj = j / cols;
    let rk = k / cols;
    assert(rj <= rk) by (nonlinear_arith)
        requires
            j < k,
            cols > 0,
            rj == j / cols,
            rk == k / cols,
    {
        vstd::arithmetic::div_mod::lemma_div_is_ordered(j, k, cols);
    }
    if rj == rk {
        lemma_sum_widths_mono(sizes, row_lo(rj, cols), j, j + 1);
        lemma_sum_widths_mono(sizes, row_lo(rj, cols), j + 1, k);
    } else {
        let lo = row_lo(rj, cols);
        let hi = row_hi(rj, cols, n);
        lemma_max_height_bound(sizes, lo, hi, j);
        lemma_rows_height_mono(sizes, cols, rj, rk);
        lemma_max_height_range(sizes, row_lo(rk, cols), row_hi(rk, cols, n));
        lemma_max_height_bound(sizes, row_lo(rk, cols), row_hi(rk, cols, n), k);
    }
}

/// A stable sort by descending height has one outcome: any two orders that
/// list every image once, tallest first with equal heights in input order,
/// are the same, so the contract of [`order_by_height_desc`] pins its result.
pub proof fn law_height_order_unique(heights: Seq<u32>, r: Seq<usize>, s: Seq<usize>)
    requires
        is_permutation(r, heights.len()),
        tallest_first(heights, r),
        is_permutation(s, heights.len()),
        tallest_first(heights, s),
    ensures
        r == s,
{
    let before = |a: usize, b: usize|
        heights[a as int] > heights[b as int] || (heights[a as int] == heights[b as int] && a < b);
    lemma_sorted_permutation_unique(r, s, heights.len(), before);
}

} // verus!
