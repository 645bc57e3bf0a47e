//! The collage composer: classifies album art by color, orders it by
//! shifted hue, chooses a near-square grid matching a target aspect
//! ratio, and rasterizes the tiles in anti-diagonal order.

use vstd::prelude::*;
use vstd::math::abs;
use vstd::multiset::Multiset;
use crate::color_analysis::Hue;
use crate::color_analysis::black_count;
use crate::color_analysis::desat_count;
use crate::color_analysis::total_px;
use crate::color_analysis::white_count;
use crate::color_analysis::calculate_black_percentage;
use crate::color_analysis::calculate_dominant_hue;
use crate::color_analysis::calculate_desaturation_percentage;
use crate::color_analysis::calculate_white_percentage;
use crate::color_analysis::count_visible_pixels;
use crate::color_analysis::visible_count;
use crate::raster::Raster;
use crate::raster::RasterView;

verus! {

/// The color class of one image, derived from its pixel statistics.
#[derive(Clone, Copy, PartialEq, Eq, Structural, Debug)]
pub enum ColorBucket {
    Colored,
    White,
    Desaturated,
    Black,
}

/// Classification of an image over its visible (non-zero-alpha)
/// pixels, in priority order: black when more than 60% of them are
/// near-black, else white when more than 60% are near-white, else
/// desaturated when more than 60% are low-saturation, else colored.
/// White outranks desaturated when both thresholds are met.
pub open spec fn classify(v: RasterView) -> ColorBucket {
    let t = total_px(v);
    let vis = visible_count(v, t);
    if 5 * black_count(v, t) > 3 * vis {
        ColorBucket::Black
    } else if 5 * white_count(v, t) > 3 * vis {
        ColorBucket::White
    } else if 5 * desat_count(v, t) > 3 * vis {
        ColorBucket::Desaturated
    } else {
        ColorBucket::Colored
    }
}

/// Sorts an image into its color bucket. The 60% thresholds are tested
/// exactly, as `5 * count > 3 * visible`.
pub fn classify_image(img: &Raster) -> (bucket: ColorBucket)
    requires
        img.wf(),
    ensures
        bucket == classify(img@),
{
    let vis = count_visible_pixels(img);
    let black = calculate_black_percentage(img);
    let white = calculate_white_percentage(img);
    let desat = calculate_desaturation_percentage(img);
    if 5 * black > 3 * vis {
        ColorBucket::Black
    } else if 5 * white > 3 * vis {
        ColorBucket::White
    } else if 5 * desat > 3 * vis {
        ColorBucket::Desaturated
    } else {
        ColorBucket::Colored
    }
}

/// Numerator of an image's display hue after the user's shift:
/// `(hue + shift) mod 360`, as a fraction over the image's weight
/// denominator. An image with no colored weight has hue 0.
pub open spec fn display_hue_num(h: Hue, shift: int) -> int {
    if h.den == 0 {
        shift % 360
    } else {
        (h.num + (shift % 360) * h.den) % (360 * h.den)
    }
}

/// Denominator of an image's display hue.
pub open spec fn display_hue_den(h: Hue) -> int {
    if h.den == 0 {
        1
    } else {
        h.den as int
    }
}

/// Applies the user's hue shift, returning the display hue as an exact
/// fraction with a positive denominator.
pub fn shifted_hue(h: &Hue, shift: u32) -> (r: Hue)
    requires
        h.wf(),
    ensures
        r.num == display_hue_num(*h, shift as int),
        r.den == display_hue_den(*h),
        r.wf(),
        1 <= r.den,
        r.num < 360 * r.den,
{
    let s: u64 = (shift % 360) as u64;
    if h.den == 0 {
        Hue { num: s, den: 1 }
    } else {
        proof {
            lemma_mul_bound(s as int, h.den as int, 359, 0xFF_0000_0000u64 as int);
        }
        let m: u64 = 360 * h.den;
        Hue { num: (h.num + s * h.den) % m, den: h.den }
    }
}

/// A display hue is at most another: compared exactly by
/// cross-multiplication.
pub open spec fn hue_le(a: Hue, b: Hue) -> bool {
    a.num * b.den <= b.num * a.den
}

/// Compares two display hues.
pub fn hue_le_exec(a: &Hue, b: &Hue) -> (r: bool)
    requires
        a.wf(),
        b.wf(),
        1 <= a.den,
        1 <= b.den,
    ensures
        r == hue_le(*a, *b),
{
    proof {
        assert((a.num as int) * (b.den as int) <= 0xFFFF_FFFF_FFFF_FFFFu64 * 0xFFFF_FFFF_FFFF_FFFFu64
            && (b.num as int) * (a.den as int) <= 0xFFFF_FFFF_FFFF_FFFFu64
            * 0xFFFF_FFFF_FFFF_FFFFu64 && 0 <= (a.num as int) * (b.den as int) && 0 <= (
        b.num as int) * (a.den as int)) by (nonlinear_arith)
            requires
                a.num <= 0xFFFF_FFFF_FFFF_FFFFu64,
                b.num <= 0xFFFF_FFFF_FFFF_FFFFu64,
                a.den <= 0xFFFF_FFFF_FFFF_FFFFu64,
                b.den <= 0xFFFF_FFFF_FFFF_FFFFu64,
                0 <= a.num,
                0 <= b.num,
                0 <= a.den,
                0 <= b.den,
        ;
    }
    (a.num as u128) * (b.den as u128) <= (b.num as u128) * (a.den as u128)
}

/// Columns needed for `n` images in `rows` rows: the ceiling of
/// `n / rows`.
pub open spec fn grid_cols(n: int, rows: int) -> int {
    (n + rows - 1) / rows
}

/// Numerator of the distance between the grid's aspect ratio
/// `cols/rows` and the target's `w/h`, over the denominator `rows * h`.
pub open spec fn aspect_diff_num(n: int, w: int, h: int, rows: int) -> int {
    abs(grid_cols(n, rows) * h - w * rows) as int
}

/// The grid with `r1` rows matches the target aspect strictly better
/// than the one with `r2` rows. The shared factor `h` of both
/// denominators cancels.
pub open spec fn diff_lt(n: int, w: int, h: int, r1: int, r2: int) -> bool {
    aspect_diff_num(n, w, h, r1) * r2 < aspect_diff_num(n, w, h, r2) * r1
}

/// `best` is the row count the scan selects: no candidate beats it, and
/// it strictly beats every smaller candidate (the scan keeps the first
/// minimum).
pub open spec fn is_best_rows(n: int, w: int, h: int, best: int) -> bool {
    &&& 1 <= best <= n
    &&& forall|r: int| 1 <= r <= n ==> !diff_lt(n, w, h, r, best)
    &&& forall|r: int| 1 <= r < best ==> diff_lt(n, w, h, best, r)
}

/// Bounds a product of non-negative factors by the product of their
/// bounds.
proof fn lemma_mul_bound(x: int, y: int, bx: int, by: int)
    requires
        0 <= x <= bx,
        0 <= y <= by,
    ensures
        0 <= x * y <= bx * by,
{
    assert(0 <= x * y <= bx * by) by (nonlinear_arith)
        requires
            0 <= x <= bx,
            0 <= y <= by,
    ;
}

/// Strict aspect comparison composes across a non-strict one: if `r1`
/// beats `b` and `r2` does not beat `b`, then `r1` beats `r2`.
proof fn lemma_diff_lt_trans(n: int, w: int, h: int, r1: int, b: int, r2: int)
    requires
        1 <= r1,
        1 <= b,
        1 <= r2,
        diff_lt(n, w, h, r1, b),
        !diff_lt(n, w, h, r2, b),
    ensures
        diff_lt(n, w, h, r1, r2),
{
    let n1 = aspect_diff_num(n, w, h, r1);
    let nb = aspect_diff_num(n, w, h, b);
    let n2 = aspect_diff_num(n, w, h, r2);
    assert(n1 * r2 < n2 * r1) by (nonlinear_arith)
        requires
            n1 * b < nb * r1,
            nb * r2 <= n2 * b,
            1 <= r1,
            1 <= b,
            1 <= r2,
            0 <= n1,
            0 <= nb,
            0 <= n2,
    ;
}

/// Chooses the grid: scanning `rows` upward from 1, the first row count
/// whose aspect ratio `cols/rows` (with `cols = ceil(n/rows)`) is
/// closest to `w/h`. Returns `(rows, cols)`.
pub fn compute_grid(n: u32, w: u32, h: u32) -> (rc: (u32, u32))
    requires
        1 <= n,
        1 <= h,
    ensures
        is_best_rows(n as int, w as int, h as int, rc.0 as int),
        rc.1 as int == grid_cols(n as int, rc.0 as int),
        1 <= rc.1 <= n,
{
    let ghost gn = n as int;
    let ghost gw = w as int;
    let ghost gh = h as int;
    let mut best: u32 = 1;
    let mut best_num: u64 = {
        let cols1: u64 = n as u64;  // ceil(n / 1)
        proof {
            lemma_mul_bound(cols1 as int, h as int, 0xFFFF_FFFF, 0xFFFF_FFFF);
        }
        let a: u64 = cols1 * (h as u64);
        let b: u64 = (w as u64);  // w * 1
        if a >= b {
            a - b
        } else {
            b - a
        }
    };
    let mut r: u64 = 2;
    proof {
        assert(grid_cols(gn, 1) == gn);
        assert(best_num == aspect_diff_num(gn, gw, gh, 1));
    }
    while r <= n as u64
        invariant
            2 <= r <= n as u64 + 1,
            1 <= best < r,
            n >= 1,
            h >= 1,
            gn == n as int && gw == w as int && gh == h as int,
            best_num == aspect_diff_num(gn, gw, gh, best as int),
            forall|q: int| 1 <= q < r ==> !diff_lt(gn, gw, gh, q, best as int),
            forall|q: int| 1 <= q < best ==> diff_lt(gn, gw, gh, best as int, q),
        decreases n as u64 + 1 - r,
    {
        let cols: u64 = ((n as u64) + r - 1) / r;
        proof {
            assert(cols == grid_cols(gn, r as int));
            assert(grid_cols(gn, r as int) <= gn) by (nonlinear_arith)
                requires
                    1 <= gn,
                    2 <= r,
                    grid_cols(gn, r as int) == (gn + r - 1) / (r as int),
            ;
            assert(0 <= grid_cols(gn, r as int)) by (nonlinear_arith)
                requires
                    1 <= gn,
                    2 <= r,
                    grid_cols(gn, r as int) == (gn + r - 1) / (r as int),
            ;
        }
        proof {
            lemma_mul_bound(cols as int, h as int, 0xFFFF_FFFF, 0xFFFF_FFFF);
            lemma_mul_bound(w as int, r as int, 0xFFFF_FFFF, 0xFFFF_FFFF);
        }
        let a: u64 = cols * (h as u64);
        let b: u64 = (w as u64) * r;
        let num: u64 = if a >= b {
            a - b
        } else {
            b - a
        };
        proof {
            assert(num == aspect_diff_num(gn, gw, gh, r as int));
        }
        proof {
            lemma_mul_bound(num as int, best as int, 0xFFFF_FFFF_FFFF_FFFFu64 as int, 0xFFFF_FFFF);
            lemma_mul_bound(best_num as int, r as int, 0xFFFF_FFFF_FFFF_FFFFu64 as int, 0xFFFF_FFFF);
        }
        let lt: bool = (num as u128) * (best as u128) < (best_num as u128) * (r as u128);
        proof {
            assert(lt == diff_lt(gn, gw, gh, r as int, best as int));
        }
        if lt {
            proof {
                assert forall|q: int| 1 <= q < r implies !diff_lt(gn, gw, gh, q, r as int)
                    && diff_lt(gn, gw, gh, r as int, q) by {
                    lemma_diff_lt_trans(gn, gw, gh, r as int, best as int, q);
                }
                assert(!diff_lt(gn, gw, gh, r as int, r as int));
            }
            best = r as u32;
            best_num = num;
            proof {
                assert(best as int == r as int);
            }
        } else {
            proof {
                assert(!diff_lt(gn, gw, gh, r as int, best as int));
            }
        }
        r = r + 1;
    }
    let cols: u64 = ((n as u64) + (best as u64) - 1) / (best as u64);
    proof {
        assert(cols == grid_cols(gn, best as int));
        assert(1 <= grid_cols(gn, best as int) <= gn) by (nonlinear_arith)
            requires
                1 <= gn,
                1 <= best,
                grid_cols(gn, best as int) == (gn + best - 1) / (best as int),
        ;
    }
    (best, cols as u32)
}

/// Cell `p` comes before cell `q` in the anti-diagonal sweep: on an
/// earlier diagonal, or on the same diagonal with a smaller row.
/// Cells are `(col, row)` pairs.
pub open spec fn diag_before(p: (u32, u32), q: (u32, u32)) -> bool {
    ||| p.0 + p.1 < q.0 + q.1
    ||| (p.0 + p.1 == q.0 + q.1 && p.1 < q.1)
}

/// Number of cells of one row that lie on diagonals below `s`:
/// `clamp(s - row, 0, cols)`.
pub open spec fn row_cells_below(s: int, row: int, cols: int) -> int {
    if s - row <= 0 {
        0
    } else if s - row >= cols {
        cols
    } else {
        s - row
    }
}

/// Number of grid cells on diagonals below `s`, summed over the first
/// `rows` rows.
pub open spec fn cells_below(rows: int, cols: int, s: int) -> int
    decreases rows,
{
    if rows <= 0 {
        0
    } else {
        cells_below(rows - 1, cols, s) + row_cells_below(s, rows - 1, cols)
    }
}

/// Number of rows among the first `rr` whose cell on diagonal `s`
/// exists, i.e. `0 <= s - row < cols`.
pub open spec fn rows_on_diag(rr: int, s: int, cols: int) -> int
    decreases rr,
{
    if rr <= 0 {
        0
    } else {
        rows_on_diag(rr - 1, s, cols) + if 0 <= s - (rr - 1) < cols {
            1int
        } else {
            0int
        }
    }
}

/// Moving the bound from `s` to `s + 1` adds exactly the cells on
/// diagonal `s`.
proof fn lemma_cells_below_step(rows: int, cols: int, s: int)
    requires
        0 <= rows,
        0 <= cols,
    ensures
        cells_below(rows, cols, s + 1) == cells_below(rows, cols, s) + rows_on_diag(rows, s, cols),
    decreases rows,
{
    if rows > 0 {
        lemma_cells_below_step(rows - 1, cols, s);
        assert(cells_below(rows, cols, s + 1) == cells_below(rows - 1, cols, s + 1)
            + row_cells_below(s + 1, rows - 1, cols));
        assert(cells_below(rows, cols, s) == cells_below(rows - 1, cols, s) + row_cells_below(
            s,
            rows - 1,
            cols,
        ));
        assert(rows_on_diag(rows, s, cols) == rows_on_diag(rows - 1, s, cols) + if 0 <= s - (rows
            - 1) < cols {
            1int
        } else {
            0int
        });
        assert(row_cells_below(s + 1, rows - 1, cols) == row_cells_below(s, rows - 1, cols) + if 0
            <= s - (rows - 1) < cols {
            1int
        } else {
            0int
        });
    }
}

/// No cell lies below diagonal 0.
proof fn lemma_cells_below_zero(rows: int, cols: int)
    requires
        0 <= rows,
    ensures
        cells_below(rows, cols, 0) == 0,
    decreases rows,
{
    if rows > 0 {
        lemma_cells_below_zero(rows - 1, cols);
    }
}

/// Once `s` reaches the last diagonal, every cell lies below it.
proof fn lemma_cells_below_full(rows: int, cols: int, s: int)
    requires
        0 <= rows,
        1 <= cols,
        s >= rows - 1 + cols,
    ensures
        cells_below(rows, cols, s) == rows * cols,
    decreases rows,
{
    if rows > 0 {
        lemma_cells_below_full(rows - 1, cols, s);
        assert(cells_below(rows, cols, s) == cells_below(rows - 1, cols, s) + row_cells_below(
            s,
            rows - 1,
            cols,
        ));
        assert(row_cells_below(s, rows - 1, cols) == cols);
        assert(rows * cols == (rows - 1) * cols + cols) by (nonlinear_arith);
    } else {
        assert(rows * cols == 0) by (nonlinear_arith)
            requires
                rows == 0,
        ;
    }
}

/// Enumerates all grid cells in anti-diagonal fill order: for each
/// diagonal `s` from 0 upward, the cells `(s - row, row)` with the row
/// ascending. Every cell appears exactly once, in strictly increasing
/// sweep order.
pub fn diagonal_positions(rows: u32, cols: u32) -> (ps: Vec<(u32, u32)>)
    requires
        1 <= rows,
        1 <= cols,
    ensures
        ps@.len() == (rows as int) * (cols as int),
        forall|i: int|
            0 <= i < ps@.len() ==> (#[trigger] ps@[i]).0 < cols && ps@[i].1 < rows,
        forall|i: int, j: int| 0 <= i < j < ps@.len() ==> diag_before(ps@[i], ps@[j]),
{
    let ghost grows = rows as int;
    let ghost gcols = cols as int;
    let mut ps: Vec<(u32, u32)> = Vec::new();
    let smax: u64 = rows as u64 + cols as u64 - 1;
    let mut s: u64 = 0;
    proof {
        lemma_cells_below_zero(grows, gcols);
    }
    while s < smax
        invariant
            s <= smax,
            smax == rows as int + cols as int - 1,
            grows == rows as int,
            gcols == cols as int,
            1 <= rows,
            1 <= cols,
            ps@.len() == cells_below(grows, gcols, s as int),
            forall|i: int|
                0 <= i < ps@.len() ==> (#[trigger] ps@[i]).0 < cols && ps@[i].1 < rows,
            forall|i: int, j: int| 0 <= i < j < ps@.len() ==> diag_before(ps@[i], ps@[j]),
            forall|i: int| 0 <= i < ps@.len() ==> (#[trigger] ps@[i]).0 + ps@[i].1 < s,
        decreases smax - s,
    {
        let mut row: u32 = 0;
        while row < rows
            invariant
                row <= rows,
                s < smax,
                smax == rows as int + cols as int - 1,
                grows == rows as int,
                gcols == cols as int,
                1 <= rows,
                1 <= cols,
                ps@.len() == cells_below(grows, gcols, s as int) + rows_on_diag(
                    row as int,
                    s as int,
                    gcols,
                ),
                forall|i: int|
                    0 <= i < ps@.len() ==> (#[trigger] ps@[i]).0 < cols && ps@[i].1 < rows,
                forall|i: int, j: int| 0 <= i < j < ps@.len() ==> diag_before(ps@[i], ps@[j]),
                forall|i: int|
                    0 <= i < ps@.len() ==> (#[trigger] ps@[i]).0 + ps@[i].1 < s || (ps@[i].0
                        + ps@[i].1 == s && ps@[i].1 < row),
            decreases rows - row,
        {
            if s >= row as u64 {
                let col: u64 = s - row as u64;
                if col < cols as u64 {
                    ps.push((col as u32, row));
                }
            }
            proof {
                assert(rows_on_diag(row + 1, s as int, gcols) == rows_on_diag(
                    row as int,
                    s as int,
                    gcols,
                ) + if 0 <= s - row < gcols {
                    1int
                } else {
                    0int
                });
            }
            row = row + 1;
        }
        proof {
            lemma_cells_below_step(grows, gcols, s as int);
        }
        s = s + 1;
    }
    proof {
        lemma_cells_below_full(grows, gcols, smax as int);
    }
    ps
}

/// The image views of a raster list.
pub open spec fn views_of(s: Seq<Raster>) -> Seq<RasterView> {
    s.map_values(|r: Raster| r@)
}

/// The image views of a paired list, forgetting the hues.
pub open spec fn imgs_of(s: Seq<(Raster, Hue)>) -> Seq<RasterView> {
    s.map_values(|p: (Raster, Hue)| p.0@)
}

/// Every display hue in the list is well-formed with a positive
/// denominator.
pub open spec fn hues_wf(s: Seq<(Raster, Hue)>) -> bool {
    forall|k: int| 0 <= k < s.len() ==> (#[trigger] s[k]).1.wf() && 1 <= s[k].1.den
}

/// The list is ordered by ascending display hue.
pub open spec fn sorted_by_hue(s: Seq<(Raster, Hue)>) -> bool {
    forall|i: int, j: int| 0 <= i < j < s.len() ==> hue_le(#[trigger] s[i].1, #[trigger] s[j].1)
}

/// The hue order is transitive.
proof fn lemma_hue_le_trans(a: Hue, b: Hue, c: Hue)
    requires
        1 <= a.den,
        1 <= b.den,
        1 <= c.den,
        hue_le(a, b),
        hue_le(b, c),
    ensures
        hue_le(a, c),
{
    assert((a.num as int) * (c.den as int) <= (c.num as int) * (a.den as int))
        by (nonlinear_arith)
        requires
            (a.num as int) * (b.den as int) <= (b.num as int) * (a.den as int),
            (b.num as int) * (c.den as int) <= (c.num as int) * (b.den as int),
            1 <= a.den,
            1 <= b.den,
            1 <= c.den,
            0 <= a.num,
            0 <= b.num,
            0 <= c.num,
    ;
}

/// Inserting an element anywhere adds exactly that element to the
/// sequence's multiset.
proof fn lemma_insert_to_multiset<A>(s: Seq<A>, pos: int, x: A)
    requires
        0 <= pos <= s.len(),
    ensures
        s.insert(pos, x).to_multiset() == s.to_multiset().insert(x),
{
    broadcast use vstd::seq_lib::group_to_multiset_ensures;

    let front = s.take(pos);
    let back = s.subrange(pos, s.len() as int);
    assert(s.insert(pos, x) =~= front + (seq![x] + back));
    vstd::seq_lib::lemma_multiset_commutative(front, seq![x] + back);
    vstd::seq_lib::lemma_multiset_commutative(seq![x], back);
    assert(s =~= front + back);
    vstd::seq_lib::lemma_multiset_commutative(front, back);
    assert(seq![x].to_multiset() =~= Multiset::empty().insert(x));
    assert(s.insert(pos, x).to_multiset() =~= s.to_multiset().insert(x));
}

/// Removing the last element takes exactly that element out of the
/// sequence's multiset.
proof fn lemma_drop_last_to_multiset<A>(s: Seq<A>)
    requires
        s.len() > 0,
    ensures
        s.to_multiset() == s.subrange(0, s.len() - 1).to_multiset().insert(s[s.len() - 1]),
{
    broadcast use vstd::seq_lib::group_to_multiset_ensures;

    assert(s =~= s.subrange(0, s.len() - 1).push(s[s.len() - 1]));
    assert(s.subrange(0, s.len() - 1).push(s[s.len() - 1]).to_multiset() =~= s.subrange(
        0,
        s.len() - 1,
    ).to_multiset().insert(s[s.len() - 1]));
}

/// Sorts images by their display hue, ascending; equal hues keep no
/// particular order. The result is a permutation of the input with each
/// image still paired with its own hue.
pub fn sort_by_display_hue(items: Vec<(Raster, Hue)>) -> (r: Vec<(Raster, Hue)>)
    requires
        hues_wf(items@),
    ensures
        sorted_by_hue(r@),
        r@.to_multiset() == items@.to_multiset(),
        imgs_of(r@).to_multiset() == imgs_of(items@).to_multiset(),
        r@.len() == items@.len(),
        hues_wf(r@),
{
    let ghost orig = items@;
    let mut items = items;
    let mut out: Vec<(Raster, Hue)> = Vec::new();
    proof {
        broadcast use vstd::seq_lib::group_to_multiset_ensures;

        assert(out@.to_multiset() =~= Multiset::empty());
        assert(imgs_of(out@).to_multiset() =~= Multiset::empty());
    }
    loop
        invariant
            hues_wf(items@),
            hues_wf(out@),
            sorted_by_hue(out@),
            out@.to_multiset().add(items@.to_multiset()) == orig.to_multiset(),
            imgs_of(out@).to_multiset().add(imgs_of(items@).to_multiset()) == imgs_of(
                orig,
            ).to_multiset(),
            out@.len() + items@.len() == orig.len(),
        ensures
            items@.len() == 0,
            hues_wf(out@),
            sorted_by_hue(out@),
            out@.to_multiset().add(items@.to_multiset()) == orig.to_multiset(),
            imgs_of(out@).to_multiset().add(imgs_of(items@).to_multiset()) == imgs_of(
                orig,
            ).to_multiset(),
            out@.len() == orig.len(),
        decreases items@.len(),
    {
        let ghost items_before = items@;
        let item = match items.pop() {
            Some(item) => item,
            None => {
                break ;
            },
        };
        proof {
            lemma_drop_last_to_multiset(items_before);
            assert(imgs_of(items_before) =~= imgs_of(items@).push(item.0@));
            lemma_drop_last_to_multiset(imgs_of(items_before));
            assert(imgs_of(items_before).subrange(0, imgs_of(items_before).len() - 1)
                =~= imgs_of(items@));
        }
        // Find the first position whose hue is strictly greater.
        let mut p: usize = 0;
        while p < out.len()
            invariant_except_break
                p <= out@.len(),
                hues_wf(out@),
                item.1.wf() && 1 <= item.1.den,
                forall|k: int| 0 <= k < p ==> hue_le(#[trigger] out@[k].1, item.1),
            ensures
                p <= out@.len(),
                forall|k: int| 0 <= k < p ==> hue_le(#[trigger] out@[k].1, item.1),
                p < out@.len() ==> !hue_le(out@[p as int].1, item.1),
            decreases out@.len() - p,
        {
            if !hue_le_exec(&out[p].1, &item.1) {
                break ;
            }
            p = p + 1;
        }
        let ghost out_before = out@;
        proof {
            lemma_insert_to_multiset(out_before, p as int, item);
            lemma_insert_to_multiset(imgs_of(out_before), p as int, item.0@);
            broadcast use vstd::seq_lib::group_to_multiset_ensures;

            out_before.insert_ensures(p as int, item);
            imgs_of(out_before).insert_ensures(p as int, item.0@);
        }
        out.insert(p, item);
        proof {
            assert(imgs_of(out@) =~= imgs_of(out_before).insert(p as int, item.0@));
        }
        proof {
            assert forall|i: int, j: int| 0 <= i < j < out@.len() implies hue_le(
                #[trigger] out@[i].1,
                #[trigger] out@[j].1,
            ) by {
                if j < p {
                    assert(out@[i] == out_before[i] && out@[j] == out_before[j]);
                } else if i < p && j == p {
                    assert(out@[i] == out_before[i] && out@[j] == item);
                } else if i < p && j > p {
                    assert(out@[i] == out_before[i] && out@[j] == out_before[j - 1]);
                } else if i == p && j > p {
                    assert(out@[i] == item && out@[j] == out_before[j - 1]);
                    if p < out_before.len() {
                        assert(!hue_le(out_before[p as int].1, item.1));
                        assert(hue_le(item.1, out_before[p as int].1));
                        if j - 1 > p {
                            lemma_hue_le_trans(
                                item.1,
                                out_before[p as int].1,
                                out_before[j - 1].1,
                            );
                        }
                    }
                } else {
                    assert(out@[i] == out_before[i - 1] && out@[j] == out_before[j - 1]);
                }
            }
            assert(out@.to_multiset().add(items@.to_multiset()) =~= orig.to_multiset());
            assert(imgs_of(out@).to_multiset().add(imgs_of(items@).to_multiset()) =~= imgs_of(
                orig,
            ).to_multiset());
        }
    }
    out
}

/// One channel of a pixel, by index 0 to 3.
pub open spec fn channel(p: (u8, u8, u8, u8), c: int) -> u8 {
    if c == 0 {
        p.0
    } else if c == 1 {
        p.1
    } else if c == 2 {
        p.2
    } else {
        p.3
    }
}

/// The raster a nearest-neighbor resize produces: each target pixel
/// takes the source pixel at the proportionally scaled coordinates.
pub open spec fn resize_view(src: RasterView, w: nat, h: nat) -> RasterView {
    RasterView {
        width: w,
        height: h,
        pixels: Seq::new(
            4 * (w * h),
            |i: int|
                {
                    let p = i / 4;
                    let c = i % 4;
                    let x = p % (w as int);
                    let y = p / (w as int);
                    let sx = x * src.width / (w as int);
                    let sy = y * src.height / (h as int);
                    channel(src.pixel_at(sx, sy), c)
                },
        ),
    }
}

/// Scaled source coordinates stay inside the source.
proof fn lemma_scale_in_bounds(x: int, w: int, sw: int)
    requires
        0 <= x < w,
        1 <= sw,
    ensures
        0 <= x * sw / w < sw,
{
    assert(0 <= x * sw / w < sw) by (nonlinear_arith)
        requires
            0 <= x < w,
            1 <= sw,
    ;
}

/// Resizes an image to exactly `w x h` pixels with the nearest-neighbor
/// filter.
pub fn resize_nearest(img: &Raster, w: u32, h: u32) -> (r: Raster)
    requires
        img.wf(),
        1 <= img@.width,
        1 <= img@.height,
        1 <= w,
        1 <= h,
        (w as int) * (h as int) < 0x1_0000_0000,
        4 * ((w as int) * (h as int)) <= usize::MAX,
    ensures
        r.wf(),
        r@ == resize_view(img@, w as nat, h as nat),
{
    let ghost target = resize_view(img@, w as nat, h as nat);
    let mut pixels: Vec<u8> = Vec::new();
    let mut y: u32 = 0;
    while y < h
        invariant
            y <= h,
            img.wf(),
            1 <= img@.width,
            1 <= img@.height,
            1 <= w,
            1 <= h,
            (w as int) * (h as int) < 0x1_0000_0000,
            4 * ((w as int) * (h as int)) <= usize::MAX,
            target == resize_view(img@, w as nat, h as nat),
            pixels@.len() == 4 * ((y as int) * (w as int)),
            forall|i: int| 0 <= i < pixels@.len() ==> pixels@[i] == target.pixels[i],
        decreases h - y,
    {
        proof {
            lemma_mul_bound(y as int, w as int, (h as int) - 1, w as int);
        }
        let mut x: u32 = 0;
        while x < w
            invariant
                x <= w,
                y < h,
                img.wf(),
                1 <= img@.width,
                1 <= img@.height,
                1 <= w,
                1 <= h,
                (w as int) * (h as int) < 0x1_0000_0000,
                4 * ((w as int) * (h as int)) <= usize::MAX,
                target == resize_view(img@, w as nat, h as nat),
                pixels@.len() == 4 * ((y as int) * (w as int) + (x as int)),
                forall|i: int| 0 <= i < pixels@.len() ==> pixels@[i] == target.pixels[i],
            decreases w - x,
        {
            proof {
                lemma_scale_in_bounds(x as int, w as int, img@.width as int);
                lemma_scale_in_bounds(y as int, h as int, img@.height as int);
                lemma_mul_bound(x as int, img@.width as int, 0xFFFF_FFFF, 0xFFFF_FFFF);
                lemma_mul_bound(y as int, img@.height as int, 0xFFFF_FFFF, 0xFFFF_FFFF);
            }
            let sx: u32 = (((x as u64) * (img.width() as u64)) / (w as u64)) as u32;
            let sy: u32 = (((y as u64) * (img.height() as u64)) / (h as u64)) as u32;
            let p = img.pixel(sx, sy);
            let ghost k = (y as int) * (w as int) + (x as int);
            proof {
                lemma_mul_bound(y as int, w as int, (h as int) - 1, w as int);
                assert(k < (w as int) * (h as int)) by (nonlinear_arith)
                    requires
                        k == (y as int) * (w as int) + (x as int),
                        0 <= x < w,
                        0 <= y < h,
                ;
                assert forall|c: int| 0 <= c < 4 implies target.pixels[4 * k + c] == channel(
                    p,
                    c,
                ) by {
                    assert((4 * k + c) / 4 == k && (4 * k + c) % 4 == c);
                    assert(k % (w as int) == x as int && k / (w as int) == y as int)
                        by (nonlinear_arith)
                        requires
                            k == (y as int) * (w as int) + (x as int),
                            0 <= x < w,
                            0 <= y,
                    ;
                }
            }
            let ghost oldlen = pixels@.len();
            pixels.push(p.0);
            pixels.push(p.1);
            pixels.push(p.2);
            pixels.push(p.3);
            proof {
                assert(oldlen == 4 * k);
                assert(pixels@[4 * k] == p.0 && pixels@[4 * k + 1] == p.1 && pixels@[4 * k + 2]
                    == p.2 && pixels@[4 * k + 3] == p.3);
                assert forall|i: int| 0 <= i < pixels@.len() implies pixels@[i]
                    == target.pixels[i] by {
                    if i < oldlen {
                    } else {
                        let c = i - 4 * k;
                        assert(0 <= c < 4);
                        assert(pixels@[4 * k + c] == channel(p, c));
                        assert(target.pixels[4 * k + c] == channel(p, c));
                    }
                }
            }
            x = x + 1;
        }
        proof {
            assert(4 * ((y as int) * (w as int) + (w as int)) == 4 * (((y as int) + 1) * (
            w as int))) by (nonlinear_arith);
        }
        y = y + 1;
    }
    let r = Raster { width: w, height: h, pixels };
    proof {
        assert((h as int) * (w as int) == (w as int) * (h as int)) by (nonlinear_arith);
        assert(r@.pixels =~= target.pixels);
        assert(r@ =~= target);
    }
    r
}

/// Source-over blending of one color channel with straight alpha: the
/// source weighs `sa`, the destination weighs `da * (255 - sa) / 255`,
/// and the result is their weighted average, rounded to nearest. With
/// no weight at all the destination color is kept. In particular a
/// pixel drawn over a fully transparent canvas keeps its own color.
pub open spec fn blend_channel(s: int, d: int, sa: int, da: int) -> int {
    let ws = sa * 255;
    let wd = da * (255 - sa);
    if ws + wd == 0 {
        d
    } else {
        (s * ws + d * wd + (ws + wd) / 2) / (ws + wd)
    }
}

/// Source-over blending of the alpha channel:
/// `sa + da * (255 - sa) / 255`, rounded to nearest.
pub open spec fn blend_alpha(sa: int, da: int) -> int {
    sa + (da * (255 - sa) + 127) / 255
}

/// Source-over blending of one pixel: the tile pixel `s` over the
/// canvas pixel `d`.
pub open spec fn blend_px(s: (u8, u8, u8, u8), d: (u8, u8, u8, u8)) -> (u8, u8, u8, u8) {
    let sa = s.3 as int;
    let da = d.3 as int;
    (
        blend_channel(s.0 as int, d.0 as int, sa, da) as u8,
        blend_channel(s.1 as int, d.1 as int, sa, da) as u8,
        blend_channel(s.2 as int, d.2 as int, sa, da) as u8,
        blend_alpha(sa, da) as u8,
    )
}

/// Blended channels stay within a byte.
proof fn lemma_blend_bounds(s: int, d: int, sa: int, da: int)
    requires
        0 <= s <= 255,
        0 <= d <= 255,
        0 <= sa <= 255,
        0 <= da <= 255,
    ensures
        0 <= blend_channel(s, d, sa, da) <= 255,
        0 <= blend_alpha(sa, da) <= 255,
{
    let ws = sa * 255;
    let wd = da * (255 - sa);
    assert(0 <= ws <= 255 * 255) by (nonlinear_arith)
        requires
            0 <= sa <= 255,
            ws == sa * 255,
    ;
    assert(0 <= wd <= 255 * 255) by (nonlinear_arith)
        requires
            0 <= da <= 255,
            0 <= sa <= 255,
            wd == da * (255 - sa),
    ;
    if ws + wd != 0 {
        assert(0 <= s * ws + d * wd + (ws + wd) / 2 <= 255 * (ws + wd) + (ws + wd) / 2)
            by (nonlinear_arith)
            requires
                0 <= s <= 255,
                0 <= d <= 255,
                0 <= ws,
                0 <= wd,
                0 < ws + wd,
        ;
        assert(0 <= blend_channel(s, d, sa, da) <= 255) by (nonlinear_arith)
            requires
                blend_channel(s, d, sa, da) == (s * ws + d * wd + (ws + wd) / 2) / (ws + wd),
                0 <= s * ws + d * wd + (ws + wd) / 2 <= 255 * (ws + wd) + (ws + wd) / 2,
                0 < ws + wd,
        ;
    }
    assert(wd + 127 <= 255 * (255 - sa) + 127) by (nonlinear_arith)
        requires
            0 <= da <= 255,
            0 <= sa <= 255,
            wd == da * (255 - sa),
    ;
    assert((255 * (255 - sa) + 127) / 255 == 255 - sa) by (nonlinear_arith)
        requires
            0 <= sa <= 255,
    ;
    assert((wd + 127) / 255 <= (255 * (255 - sa) + 127) / 255) by (nonlinear_arith)
        requires
            0 <= wd + 127 <= 255 * (255 - sa) + 127,
    ;
}

/// Whether byte `i` of the canvas belongs to a pixel inside the pasted
/// tile rectangle.
pub open spec fn covered(canvas: RasterView, tile: RasterView, ox: int, oy: int, i: int) -> bool {
    let p = i / 4;
    let x = p % (canvas.width as int);
    let y = p / (canvas.width as int);
    ox <= x < ox + tile.width && oy <= y < oy + tile.height
}

/// The raster after drawing `tile` over `canvas` with its top-left
/// corner at `(ox, oy)`: pixels under the tile are blended source-over,
/// all others keep their value.
pub open spec fn overlay_view(canvas: RasterView, tile: RasterView, ox: int, oy: int) -> RasterView {
    RasterView {
        width: canvas.width,
        height: canvas.height,
        pixels: Seq::new(
            canvas.pixels.len(),
            |i: int|
                {
                    let p = i / 4;
                    let c = i % 4;
                    let x = p % (canvas.width as int);
                    let y = p / (canvas.width as int);
                    if ox <= x < ox + tile.width && oy <= y < oy + tile.height {
                        channel(
                            blend_px(tile.pixel_at(x - ox, y - oy), canvas.pixel_at(x, y)),
                            c,
                        )
                    } else {
                        canvas.pixels[i]
                    }
                },
        ),
    }
}

/// Byte `i` of the canvas lies in the part of the tile rectangle the
/// sweep has already written: an earlier tile row, or the current tile
/// row `ty` left of `tx`.
pub open spec fn swept(
    canvas: RasterView,
    tile: RasterView,
    ox: int,
    oy: int,
    i: int,
    tx: int,
    ty: int,
) -> bool {
    let p = i / 4;
    let x = p % (canvas.width as int);
    let y = p / (canvas.width as int);
    covered(canvas, tile, ox, oy, i) && (y - oy < ty || (y - oy == ty && x - ox < tx))
}

/// Draws `tile` onto `canvas` at `(ox, oy)` with source-over blending.
pub fn overlay(canvas: &mut Raster, tile: &Raster, ox: u32, oy: u32)
    requires
        old(canvas).wf(),
        tile.wf(),
        ox + tile@.width <= old(canvas)@.width,
        oy + tile@.height <= old(canvas)@.height,
    ensures
        final(canvas).wf(),
        final(canvas)@ == overlay_view(old(canvas)@, tile@, ox as int, oy as int),
{
    let ghost base = old(canvas)@;
    let ghost target = overlay_view(old(canvas)@, tile@, ox as int, oy as int);
    let tw: u32 = tile.width();
    let th: u32 = tile.height();
    let mut ty: u32 = 0;
    while ty < th
        invariant
            ty <= th,
            canvas.wf(),
            tile.wf(),
            tw == tile@.width,
            th == tile@.height,
            ox + tw <= base.width,
            oy + th <= base.height,
            base == old(canvas)@,
            target == overlay_view(base, tile@, ox as int, oy as int),
            canvas@.width == base.width,
            canvas@.height == base.height,
            canvas@.pixels.len() == base.pixels.len(),
            forall|i: int|
                0 <= i < canvas@.pixels.len() ==> canvas@.pixels[i] == if swept(
                    base,
                    tile@,
                    ox as int,
                    oy as int,
                    i,
                    0,
                    ty as int,
                ) {
                    target.pixels[i]
                } else {
                    base.pixels[i]
                },
        decreases th - ty,
    {
        let mut tx: u32 = 0;
        while tx < tw
            invariant
                tx <= tw,
                ty < th,
                canvas.wf(),
                tile.wf(),
                tw == tile@.width,
                th == tile@.height,
                ox + tw <= base.width,
                oy + th <= base.height,
                base == old(canvas)@,
                target == overlay_view(base, tile@, ox as int, oy as int),
                canvas@.width == base.width,
                canvas@.height == base.height,
                canvas@.pixels.len() == base.pixels.len(),
                forall|i: int|
                    0 <= i < canvas@.pixels.len() ==> canvas@.pixels[i] == if swept(
                        base,
                        tile@,
                        ox as int,
                        oy as int,
                        i,
                        tx as int,
                        ty as int,
                    ) {
                        target.pixels[i]
                    } else {
                        base.pixels[i]
                    },
            decreases tw - tx,
        {
            let cx: u32 = ox + tx;
            let cy: u32 = oy + ty;
            let ghost k = (cy as int) * (base.width as int) + (cx as int);
            proof {
                crate::raster::lemma_pixel_index_in_bounds(base, cx as int, cy as int);
                assert(k % (base.width as int) == cx as int && k / (base.width as int)
                    == cy as int) by (nonlinear_arith)
                    requires
                        k == (cy as int) * (base.width as int) + (cx as int),
                        0 <= cx < base.width,
                        0 <= cy,
                ;
                // The four bytes of this pixel are not yet swept, so the
                // canvas still holds the base values there.
                assert((4 * k) / 4 == k && (4 * k) % 4 == 0);
                assert((4 * k + 1) / 4 == k && (4 * k + 1) % 4 == 1);
                assert((4 * k + 2) / 4 == k && (4 * k + 2) % 4 == 2);
                assert((4 * k + 3) / 4 == k && (4 * k + 3) % 4 == 3);
                assert(!swept(base, tile@, ox as int, oy as int, 4 * k, tx as int, ty as int));
                assert(!swept(base, tile@, ox as int, oy as int, 4 * k + 1, tx as int, ty as int));
                assert(!swept(base, tile@, ox as int, oy as int, 4 * k + 2, tx as int, ty as int));
                assert(!swept(base, tile@, ox as int, oy as int, 4 * k + 3, tx as int, ty as int));
                assert(canvas@.pixels[4 * k] == base.pixels[4 * k]);
                assert(canvas@.pixels[4 * k + 1] == base.pixels[4 * k + 1]);
                assert(canvas@.pixels[4 * k + 2] == base.pixels[4 * k + 2]);
                assert(canvas@.pixels[4 * k + 3] == base.pixels[4 * k + 3]);
                assert(canvas@.pixel_at(cx as int, cy as int) == base.pixel_at(
                    cx as int,
                    cy as int,
                ));
            }
            let s = tile.pixel(tx, ty);
            let d = canvas.pixel(cx, cy);
            let sa: u32 = s.3 as u32;
            let da: u32 = d.3 as u32;
            proof {
                lemma_blend_bounds(s.0 as int, d.0 as int, sa as int, da as int);
                lemma_blend_bounds(s.1 as int, d.1 as int, sa as int, da as int);
                lemma_blend_bounds(s.2 as int, d.2 as int, sa as int, da as int);
                lemma_mul_bound(da as int, 255 - sa as int, 255, 255);
            }
            let ws: u32 = sa * 255;
            let wd: u32 = da * (255 - sa);
            let wsum: u32 = ws + wd;
            let mut nr: u8 = d.0;
            let mut ng: u8 = d.1;
            let mut nb: u8 = d.2;
            if wsum > 0 {
                proof {
                    lemma_mul_bound(s.0 as int, ws as int, 255, 65025);
                    lemma_mul_bound(s.1 as int, ws as int, 255, 65025);
                    lemma_mul_bound(s.2 as int, ws as int, 255, 65025);
                    lemma_mul_bound(d.0 as int, wd as int, 255, 65025);
                    lemma_mul_bound(d.1 as int, wd as int, 255, 65025);
                    lemma_mul_bound(d.2 as int, wd as int, 255, 65025);
                }
                let r32: u32 = ((s.0 as u32) * ws + (d.0 as u32) * wd + wsum / 2) / wsum;
                let g32: u32 = ((s.1 as u32) * ws + (d.1 as u32) * wd + wsum / 2) / wsum;
                let b32: u32 = ((s.2 as u32) * ws + (d.2 as u32) * wd + wsum / 2) / wsum;
                proof {
                    assert(r32 == blend_channel(s.0 as int, d.0 as int, sa as int, da as int));
                    assert(g32 == blend_channel(s.1 as int, d.1 as int, sa as int, da as int));
                    assert(b32 == blend_channel(s.2 as int, d.2 as int, sa as int, da as int));
                }
                nr = r32 as u8;
                ng = g32 as u8;
                nb = b32 as u8;
            }
            let na32: u32 = sa + (wd + 127) / 255;
            proof {
                assert(na32 == blend_alpha(sa as int, da as int));
            }
            let na: u8 = na32 as u8;
            let ghost px = blend_px(s, d);
            proof {
                assert(px == (nr, ng, nb, na));
            }
            let ghost before = canvas@.pixels;
            canvas.set_pixel(cx, cy, (nr, ng, nb, na));
            proof {
                assert forall|i: int| 0 <= i < canvas@.pixels.len() implies canvas@.pixels[i]
                    == if swept(base, tile@, ox as int, oy as int, i, tx + 1, ty as int) {
                    target.pixels[i]
                } else {
                    base.pixels[i]
                } by {
                    let p = i / 4;
                    let c = i % 4;
                    if 4 * k <= i < 4 * k + 4 {
                        assert(i == 4 * k + c && p == k);
                        assert(canvas@.pixels[i] == channel(px, c));
                        assert(covered(base, tile@, ox as int, oy as int, i));
                        assert(target.pixels[i] == channel(
                            blend_px(
                                tile@.pixel_at(cx - ox, cy - oy),
                                base.pixel_at(cx as int, cy as int),
                            ),
                            c,
                        ));
                        assert(tile@.pixel_at(cx - ox, cy - oy) == s);
                        assert(swept(base, tile@, ox as int, oy as int, i, tx + 1, ty as int));
                    } else {
                        assert(canvas@.pixels[i] == before[i]);
                        assert(p != k);
                        let wdt = base.width as int;
                        vstd::arithmetic::div_mod::lemma_fundamental_div_mod(p, wdt);
                        let x = p % wdt;
                        let y = p / wdt;
                        if x == ox + tx && y == oy + ty {
                            assert(p == k) by (nonlinear_arith)
                                requires
                                    p == wdt * y + x,
                                    k == (oy as int + ty as int) * wdt + (ox as int + tx as int),
                                    x == ox + tx,
                                    y == oy + ty,
                            ;
                        }
                        assert(swept(base, tile@, ox as int, oy as int, i, tx + 1, ty as int)
                            == swept(base, tile@, ox as int, oy as int, i, tx as int,
                            ty as int));
                    }
                }
            }
            tx = tx + 1;
        }
        proof {
            assert forall|i: int| 0 <= i < canvas@.pixels.len() implies (swept(base, tile@,
                ox as int, oy as int, i, 0, ty + 1) == swept(base, tile@, ox as int, oy as int,
                i, tw as int, ty as int)) by {}
        }
        ty = ty + 1;
    }
    proof {
        assert forall|i: int| 0 <= i < canvas@.pixels.len() implies canvas@.pixels[i]
            == target.pixels[i] by {
            if covered(base, tile@, ox as int, oy as int, i) {
                assert(swept(base, tile@, ox as int, oy as int, i, 0, th as int));
            } else {
                assert(target.pixels[i] == base.pixels[i]);
            }
        }
        assert(canvas@.pixels =~= target.pixels);
        assert(canvas@ =~= target);
    }
}

/// The colored images of a list, in order.
pub open spec fn colored_of(s: Seq<RasterView>) -> Seq<RasterView> {
    s.filter(|v: RasterView| classify(v) == ColorBucket::Colored)
}

/// The near-white images of a list, in order.
pub open spec fn white_of(s: Seq<RasterView>) -> Seq<RasterView> {
    s.filter(|v: RasterView| classify(v) == ColorBucket::White)
}

/// The desaturated images of a list, in order.
pub open spec fn desat_of(s: Seq<RasterView>) -> Seq<RasterView> {
    s.filter(|v: RasterView| classify(v) == ColorBucket::Desaturated)
}

/// The near-black images of a list, in order.
pub open spec fn black_of(s: Seq<RasterView>) -> Seq<RasterView> {
    s.filter(|v: RasterView| classify(v) == ColorBucket::Black)
}

/// An image's average hue, as the exact fraction numerator.
pub open spec fn raster_hue_num(v: RasterView) -> int {
    crate::color_analysis::hue_num_sum(v, total_px(v))
}

/// An image's average hue, as the exact fraction denominator.
pub open spec fn raster_hue_den(v: RasterView) -> int {
    crate::color_analysis::hue_den_sum(v, total_px(v))
}

/// Numerator of an image's display hue after the shift.
pub open spec fn vdisp_num(v: RasterView, shift: int) -> int {
    if raster_hue_den(v) == 0 {
        shift % 360
    } else {
        (raster_hue_num(v) + (shift % 360) * raster_hue_den(v)) % (360 * raster_hue_den(v))
    }
}

/// Denominator of an image's display hue.
pub open spec fn vdisp_den(v: RasterView) -> int {
    if raster_hue_den(v) == 0 {
        1
    } else {
        raster_hue_den(v)
    }
}

/// Display-hue order on images, compared exactly by
/// cross-multiplication.
pub open spec fn view_hue_le(a: RasterView, b: RasterView, shift: int) -> bool {
    vdisp_num(a, shift) * vdisp_den(b) <= vdisp_num(b, shift) * vdisp_den(a)
}

/// The image list ascends by display hue.
pub open spec fn views_sorted_by_hue(s: Seq<RasterView>, shift: int) -> bool {
    forall|i: int, j: int|
        0 <= i < j < s.len() ==> view_hue_le(#[trigger] s[i], #[trigger] s[j], shift)
}

/// `arranged` is a valid collage order for `imgs`: the colored images
/// sorted by shifted hue (ties in any order), then the white, the
/// desaturated and the black ones, each group in input order.
pub open spec fn is_arranged(imgs: Seq<RasterView>, arranged: Seq<RasterView>, shift: int) -> bool {
    exists|cs: Seq<RasterView>|
        {
            &&& cs.to_multiset() == colored_of(imgs).to_multiset()
            &&& views_sorted_by_hue(cs, shift)
            &&& arranged == cs + white_of(imgs) + desat_of(imgs) + black_of(imgs)
        }
}

/// `ps` enumerates an entire `rows x cols` grid in anti-diagonal fill
/// order.
pub open spec fn positions_ok(ps: Seq<(u32, u32)>, rows: int, cols: int) -> bool {
    &&& ps.len() == rows * cols
    &&& forall|i: int| 0 <= i < ps.len() ==> (#[trigger] ps[i]).0 < cols && ps[i].1 < rows
    &&& forall|i: int, j: int| 0 <= i < j < ps.len() ==> diag_before(ps[i], ps[j])
}

/// A fully transparent canvas.
pub open spec fn blank_view(w: nat, h: nat) -> RasterView {
    RasterView { width: w, height: h, pixels: Seq::new(4 * (w * h), |i: int| 0u8) }
}

/// The canvas after drawing the first `k` arranged images: each is
/// resized to `tile x tile` and drawn at its grid cell, in order.
pub open spec fn render(
    arranged: Seq<RasterView>,
    ps: Seq<(u32, u32)>,
    k: int,
    canvas: RasterView,
    tile: nat,
) -> RasterView
    decreases k,
{
    if k <= 0 {
        canvas
    } else {
        overlay_view(
            render(arranged, ps, k - 1, canvas, tile),
            resize_view(arranged[k - 1], tile, tile),
            ps[k - 1].0 * tile,
            ps[k - 1].1 * tile,
        )
    }
}

/// The four buckets partition the image list.
proof fn lemma_bucket_partition(s: Seq<RasterView>)
    ensures
        colored_of(s).len() + white_of(s).len() + desat_of(s).len() + black_of(s).len() == s.len(),
    decreases s.len(),
{
    reveal(Seq::filter);
    if s.len() > 0 {
        lemma_bucket_partition(s.drop_last());
    }
}

/// Growing a prefix by one image keeps each bucket's order: the image
/// joins the end of its own bucket and no other.
proof fn lemma_bucket_step(s: Seq<RasterView>, i: int)
    requires
        0 <= i < s.len(),
    ensures
        colored_of(s.take(i + 1)) == if classify(s[i]) == ColorBucket::Colored {
            colored_of(s.take(i)).push(s[i])
        } else {
            colored_of(s.take(i))
        },
        white_of(s.take(i + 1)) == if classify(s[i]) == ColorBucket::White {
            white_of(s.take(i)).push(s[i])
        } else {
            white_of(s.take(i))
        },
        desat_of(s.take(i + 1)) == if classify(s[i]) == ColorBucket::Desaturated {
            desat_of(s.take(i)).push(s[i])
        } else {
            desat_of(s.take(i))
        },
        black_of(s.take(i + 1)) == if classify(s[i]) == ColorBucket::Black {
            black_of(s.take(i)).push(s[i])
        } else {
            black_of(s.take(i))
        },
{
    reveal(Seq::filter);
    assert(s.take(i + 1).drop_last() =~= s.take(i));
    assert(s.take(i + 1).last() == s[i]);
    assert(s.take(i + 1).len() == i + 1);
}

/// Every element of a sequence occurs in any sequence with the same
/// multiset.
proof fn lemma_multiset_elements<A>(s1: Seq<A>, s2: Seq<A>)
    requires
        s1.to_multiset() == s2.to_multiset(),
    ensures
        forall|k: int| 0 <= k < s2.len() ==> s1.contains(#[trigger] s2[k]),
{
    broadcast use vstd::seq_lib::group_to_multiset_ensures;

    assert forall|k: int| 0 <= k < s2.len() implies s1.contains(#[trigger] s2[k]) by {
        assert(s2.to_multiset().count(s2[k]) > 0);
    }
}

/// On a canvas with no pixels, rendering draws nothing.
proof fn lemma_render_empty(
    arranged: Seq<RasterView>,
    ps: Seq<(u32, u32)>,
    k: int,
    canvas: RasterView,
    tile: nat,
)
    requires
        canvas.pixels.len() == 0,
    ensures
        render(arranged, ps, k, canvas, tile) == canvas,
    decreases k,
{
    if k > 0 {
        lemma_render_empty(arranged, ps, k - 1, canvas, tile);
        let t = resize_view(arranged[k - 1], tile, tile);
        let ov = overlay_view(canvas, t, ps[k - 1].0 * tile, ps[k - 1].1 * tile);
        assert(ov.pixels =~= canvas.pixels);
        assert(ov == canvas);
    }
}

/// A full anti-diagonal grid holds at least as many cells as images.
proof fn lemma_grid_capacity(n: int, rows: int, cols: int)
    requires
        1 <= rows,
        cols == grid_cols(n, rows),
        0 <= n,
    ensures
        rows * cols >= n,
{
    vstd::arithmetic::div_mod::lemma_fundamental_div_mod(n + rows - 1, rows);
    assert(rows * cols >= n) by (nonlinear_arith)
        requires
            n + rows - 1 == rows * cols + (n + rows - 1) % rows,
            0 <= (n + rows - 1) % rows < rows,
            1 <= rows,
    ;
}

/// Composes a collage: classifies the images, sorts the colored ones by
/// shifted hue, orders the buckets colored, white, desaturated, black,
/// lays them out on the best-aspect grid in anti-diagonal order, and
/// rasterizes the tiles. Fails exactly when there is no image at all.
pub fn create_collage(images: Vec<Raster>, width: u32, height: u32, color_shift: u32) -> (r:
    Option<Raster>)
    requires
        forall|k: int|
            0 <= k < images@.len() ==> (#[trigger] images@[k]).wf() && 1 <= images@[k]@.width && 1
                <= images@[k]@.height,
        images@.len() <= 0xFFFF_FFFF,
        1 <= width,
        1 <= height,
        (width as int) * (height as int) < 0x1_0000_0000,
        4 * ((width as int) * (height as int)) <= usize::MAX,
    ensures
        r is Some <==> images@.len() > 0,
        r matches Some(c) ==> c.wf() && exists|
            rows: int,
            cols: int,
            arranged: Seq<RasterView>,
            ps: Seq<(u32, u32)>,
        |
            #![trigger positions_ok(ps, rows, cols), is_arranged(views_of(images@), arranged, color_shift as int)]
            {
                let n = views_of(images@).len() as int;
                let tile = vstd::math::min((width as int) / cols, (height as int) / rows);
                &&& is_best_rows(n, width as int, height as int, rows)
                &&& cols == grid_cols(n, rows)
                &&& positions_ok(ps, rows, cols)
                &&& is_arranged(views_of(images@), arranged, color_shift as int)
                &&& arranged.len() == n
                &&& c@ == render(
                    arranged,
                    ps,
                    n,
                    blank_view((tile * cols) as nat, (tile * rows) as nat),
                    tile as nat,
                )
            },
{
    let n: usize = images.len();
    if n == 0 {
        return None;
    }
    let ghost all = views_of(images@);
    proof {
        assert(all.len() == images@.len());
    }
    // Classify each image into its bucket, keeping input order; colored
    // images are paired with their shifted display hue.
    let mut rest = images;
    let mut colored: Vec<(Raster, Hue)> = Vec::new();
    let mut white: Vec<Raster> = Vec::new();
    let mut desat: Vec<Raster> = Vec::new();
    let mut black: Vec<Raster> = Vec::new();
    let mut i: usize = 0;
    proof {
        assert(all.take(0) =~= Seq::<RasterView>::empty());
        assert(views_of(rest@) =~= all);
    }
    while rest.len() > 0
        invariant
            i + rest@.len() == n,
            n == all.len(),
            views_of(rest@) =~= all.subrange(i as int, n as int),
            forall|k: int|
                0 <= k < all.len() ==> (#[trigger] all[k]).wf() && 1 <= all[k].width && 1
                    <= all[k].height,
            forall|k: int|
                0 <= k < rest@.len() ==> (#[trigger] rest@[k]).wf() && 1 <= rest@[k]@.width && 1
                    <= rest@[k]@.height,
            imgs_of(colored@) == colored_of(all.take(i as int)),
            views_of(white@) == white_of(all.take(i as int)),
            views_of(desat@) == desat_of(all.take(i as int)),
            views_of(black@) == black_of(all.take(i as int)),
            hues_wf(colored@),
            forall|k: int|
                0 <= k < colored@.len() ==> ((#[trigger] colored@[k]).1.num as int == vdisp_num(
                    colored@[k].0@,
                    color_shift as int,
                ) && colored@[k].1.den as int == vdisp_den(colored@[k].0@)),
            forall|k: int|
                0 <= k < white@.len() ==> (#[trigger] white@[k]).wf() && 1 <= white@[k]@.width && 1
                    <= white@[k]@.height,
            forall|k: int|
                0 <= k < desat@.len() ==> (#[trigger] desat@[k]).wf() && 1 <= desat@[k]@.width && 1
                    <= desat@[k]@.height,
            forall|k: int|
                0 <= k < black@.len() ==> (#[trigger] black@[k]).wf() && 1 <= black@[k]@.width && 1
                    <= black@[k]@.height,
            forall|k: int|
                0 <= k < colored@.len() ==> (#[trigger] colored@[k]).0.wf() && 1
                    <= colored@[k].0@.width && 1 <= colored@[k].0@.height,
        decreases rest@.len(),
    {
        let ghost rest_before = rest@;
        let img = rest.remove(0);
        proof {
            assert(rest@ =~= rest_before.subrange(1, rest_before.len() as int));
            assert(views_of(rest_before)[0] == all.subrange(i as int, n as int)[0]);
            assert(img@ == all[i as int]);
            assert forall|k2: int| 0 <= k2 < rest@.len() implies views_of(rest@)[k2]
                == all.subrange(i + 1, n as int)[k2] by {
                assert(views_of(rest_before)[k2 + 1] == all.subrange(i as int, n as int)[k2 + 1]);
                assert(rest@[k2] == rest_before[k2 + 1]);
            }
            assert(views_of(rest@) =~= all.subrange(i + 1, n as int));
            lemma_bucket_step(all, i as int);
        }
        let bucket = classify_image(&img);
        match bucket {
            ColorBucket::Colored => {
                let h = calculate_dominant_hue(&img);
                let dh = shifted_hue(&h, color_shift);
                let ghost cv = colored@;
                colored.push((img, dh));
                proof {
                    assert(imgs_of(colored@) =~= imgs_of(cv).push(all[i as int]));
                }
            },
            ColorBucket::White => {
                let ghost wv = white@;
                white.push(img);
                proof {
                    assert(views_of(white@) =~= views_of(wv).push(all[i as int]));
                }
            },
            ColorBucket::Desaturated => {
                let ghost dv = desat@;
                desat.push(img);
                proof {
                    assert(views_of(desat@) =~= views_of(dv).push(all[i as int]));
                }
            },
            ColorBucket::Black => {
                let ghost bv = black@;
                black.push(img);
                proof {
                    assert(views_of(black@) =~= views_of(bv).push(all[i as int]));
                }
            },
        }
        i = i + 1;
    }
    proof {
        assert(all.take(n as int) =~= all);
    }
    // Sort the colored bucket by display hue.
    let ghost colored_before = colored@;
    let sorted = sort_by_display_hue(colored);
    let ghost cs = imgs_of(sorted@);
    proof {
        lemma_multiset_elements(colored_before, sorted@);
        assert forall|a: int, b: int| 0 <= a < b < cs.len() implies view_hue_le(
            #[trigger] cs[a],
            #[trigger] cs[b],
            color_shift as int,
        ) by {
            let pa = sorted@[a];
            let pb = sorted@[b];
            assert(hue_le(pa.1, pb.1));
            let ja = choose|j: int| 0 <= j < colored_before.len() && colored_before[j] == pa;
            let jb = choose|j: int| 0 <= j < colored_before.len() && colored_before[j] == pb;
        }
        assert forall|k: int| 0 <= k < sorted@.len() implies ((#[trigger] sorted@[k]).0.wf() && 1
            <= sorted@[k].0@.width && 1 <= sorted@[k].0@.height) by {
            let j = choose|j: int|
                0 <= j < colored_before.len() && colored_before[j] == sorted@[k];
        }
    }
    // Lay the buckets out in collage order.
    let mut final_images: Vec<Raster> = Vec::new();
    let mut sorted = sorted;
    let ghost sorted_views = imgs_of(sorted@);
    let total: usize = sorted.len();
    let mut j: usize = 0;
    proof {
        assert(views_of(final_images@) =~= sorted_views.take(0));
    }
    while sorted.len() > 0
        invariant
            total == sorted_views.len(),
            j + sorted@.len() == sorted_views.len(),
            imgs_of(sorted@) =~= sorted_views.subrange(j as int, sorted_views.len() as int),
            views_of(final_images@) == sorted_views.take(j as int),
            forall|k: int|
                0 <= k < sorted@.len() ==> ((#[trigger] sorted@[k]).0.wf() && 1
                    <= sorted@[k].0@.width && 1 <= sorted@[k].0@.height),
            forall|k: int|
                0 <= k < final_images@.len() ==> ((#[trigger] final_images@[k]).wf() && 1
                    <= final_images@[k]@.width && 1 <= final_images@[k]@.height),
        decreases sorted@.len(),
    {
        let ghost sb = sorted@;
        let pair = sorted.remove(0);
        let ghost fv = final_images@;
        final_images.push(pair.0);
        proof {
            assert(sorted@ =~= sb.subrange(1, sb.len() as int));
            assert(imgs_of(sb)[0] == sorted_views.subrange(j as int, sorted_views.len() as int)[0]);
            assert(pair.0@ == sorted_views[j as int]);
            assert forall|k2: int| 0 <= k2 < sorted@.len() implies imgs_of(sorted@)[k2]
                == sorted_views.subrange(j + 1, sorted_views.len() as int)[k2] by {
                assert(imgs_of(sb)[k2 + 1] == sorted_views.subrange(
                    j as int,
                    sorted_views.len() as int,
                )[k2 + 1]);
                assert(sorted@[k2] == sb[k2 + 1]);
            }
            assert(imgs_of(sorted@) =~= sorted_views.subrange(j + 1, sorted_views.len() as int));
            assert(views_of(final_images@) =~= views_of(fv).push(pair.0@));
            assert(views_of(final_images@) =~= sorted_views.take(j + 1));
        }
        j = j + 1;
    }
    proof {
        assert(sorted_views.take(sorted_views.len() as int) =~= sorted_views);
    }
    let ghost wviews = views_of(white@);
    let ghost dviews = views_of(desat@);
    let ghost bviews = views_of(black@);
    let mut white = white;
    let mut desat = desat;
    let mut black = black;
    final_images.append(&mut white);
    final_images.append(&mut desat);
    final_images.append(&mut black);
    let ghost arranged = views_of(final_images@);
    proof {
        assert(arranged =~= cs + wviews + dviews + bviews);
        vstd::seq_lib::lemma_multiset_commutative(colored_before, sorted@);
        assert(arranged.len() == cs.len() + wviews.len() + dviews.len() + bviews.len());
        lemma_bucket_partition(all);
        assert(cs.len() == colored_of(all).len()) by {
            broadcast use vstd::seq_lib::group_to_multiset_ensures;

            assert(cs.to_multiset() == colored_of(all).to_multiset());
        }
        assert(arranged.len() == all.len());
        assert(is_arranged(all, arranged, color_shift as int)) by {
            assert({
                &&& cs.to_multiset() == colored_of(all).to_multiset()
                &&& views_sorted_by_hue(cs, color_shift as int)
                &&& arranged == cs + white_of(all) + desat_of(all) + black_of(all)
            });
        }
    }
    // Choose the grid and rasterize.
    let (rows, cols) = compute_grid(n as u32, width, height);
    let wc: u32 = width / cols;
    let hr: u32 = height / rows;
    let tile: u32 = if wc < hr {
        wc
    } else {
        hr
    };
    proof {
        lemma_grid_capacity(n as int, rows as int, cols as int);
        vstd::arithmetic::div_mod::lemma_fundamental_div_mod(width as int, cols as int);
        assert((width as int) / (cols as int) * (cols as int) <= width as int)
            by (nonlinear_arith)
            requires
                width as int == (cols as int) * ((width as int) / (cols as int)) + (
                width as int) % (cols as int),
                0 <= (width as int) % (cols as int),
        ;
        assert(tile as int * cols as int <= width as int) by (nonlinear_arith)
            requires
                tile <= (width as int) / (cols as int),
                1 <= cols,
                (width as int) / (cols as int) * (cols as int) <= width as int,
                0 <= tile,
        ;
        vstd::arithmetic::div_mod::lemma_fundamental_div_mod(height as int, rows as int);
        assert((height as int) / (rows as int) * (rows as int) <= height as int)
            by (nonlinear_arith)
            requires
                height as int == (rows as int) * ((height as int) / (rows as int)) + (
                height as int) % (rows as int),
                0 <= (height as int) % (rows as int),
        ;
        assert(tile as int * rows as int <= height as int) by (nonlinear_arith)
            requires
                tile <= (height as int) / (rows as int),
                1 <= rows,
                (height as int) / (rows as int) * (rows as int) <= height as int,
                0 <= tile,
        ;
        lemma_mul_bound(
            tile as int * cols as int,
            tile as int * rows as int,
            width as int,
            height as int,
        );
    }
    let cw: u32 = tile * cols;
    let ch: u32 = tile * rows;
    let mut canvas = match Raster::blank(cw, ch) {
        Some(c) => c,
        None => {
            proof {
                assert(false);
            }
            return None;
        },
    };
    let positions = diagonal_positions(rows, cols);
    let ghost base = canvas@;
    proof {
        assert(base.pixels =~= blank_view(
            ((tile * cols) as int) as nat,
            ((tile * rows) as int) as nat,
        ).pixels);
        assert(base == blank_view(((tile * cols) as int) as nat, ((tile * rows) as int) as nat));
        assert(n <= positions@.len());
        lemma_mul_bound(tile as int, tile as int, width as int, height as int);
    }
    if tile == 0 {
        proof {
            assert(cw as int == 0 && ch as int == 0) by (nonlinear_arith)
                requires
                    cw as int == tile as int * cols as int,
                    ch as int == tile as int * rows as int,
                    tile == 0,
            ;
            assert(base.pixels.len() == 0);
            lemma_render_empty(arranged, positions@, n as int, base, tile as nat);
            assert(canvas@ == render(arranged, positions@, n as int, base, tile as nat));
            lemma_collage_witness(
                views_of(images@),
                canvas@,
                rows as int,
                cols as int,
                arranged,
                positions@,
                width as int,
                height as int,
                color_shift as int,
                tile as int,
            );
        }
        return Some(canvas);
    }
    let mut k: usize = 0;
    while k < n
        invariant
            k <= n,
            n == arranged.len(),
            n <= positions@.len(),
            1 <= tile,
            canvas.wf(),
            canvas@.width == cw,
            canvas@.height == ch,
            cw == tile * cols,
            ch == tile * rows,
            1 <= rows,
            1 <= cols,
            (tile as int) * (tile as int) < 0x1_0000_0000,
            4 * ((tile as int) * (tile as int)) <= usize::MAX,
            canvas@ == render(arranged, positions@, k as int, base, tile as nat),
            arranged == views_of(final_images@),
            forall|k2: int|
                0 <= k2 < final_images@.len() ==> ((#[trigger] final_images@[k2]).wf() && 1
                    <= final_images@[k2]@.width && 1 <= final_images@[k2]@.height),
            forall|i2: int|
                0 <= i2 < positions@.len() ==> (#[trigger] positions@[i2]).0 < cols
                    && positions@[i2].1 < rows,
        decreases n - k,
    {
        let (pc, pr) = positions[k];
        let tile_img = resize_nearest(&final_images[k], tile, tile);
        proof {
            assert((pc as int + 1) * tile as int <= cols as int * tile as int)
                by (nonlinear_arith)
                requires
                    pc as int + 1 <= cols as int,
                    0 <= tile,
            ;
            assert((pr as int + 1) * tile as int <= rows as int * tile as int)
                by (nonlinear_arith)
                requires
                    pr as int + 1 <= rows as int,
                    0 <= tile,
            ;
            assert(cols as int * tile as int == tile as int * cols as int) by (nonlinear_arith);
            assert(rows as int * tile as int == tile as int * rows as int) by (nonlinear_arith);
            assert((pc as int + 1) * tile as int == pc as int * tile as int + tile as int)
                by (nonlinear_arith);
            assert((pr as int + 1) * tile as int == pr as int * tile as int + tile as int)
                by (nonlinear_arith);
        }
        let ox: u32 = pc * tile;
        let oy: u32 = pr * tile;
        overlay(&mut canvas, &tile_img, ox, oy);
        proof {
            assert(arranged[k as int] == final_images@[k as int]@);
            assert(canvas@ == render(arranged, positions@, k + 1, base, tile as nat));
        }
        k = k + 1;
    }
    proof {
        lemma_collage_witness(
            views_of(images@),
            canvas@,
            rows as int,
            cols as int,
            arranged,
            positions@,
            width as int,
            height as int,
            color_shift as int,
            tile as int,
        );
    }
    Some(canvas)
}

/// Packages the collage postcondition: from the established facts about
/// one concrete grid, arrangement and position list, conclude that such
/// a choice exists.
proof fn lemma_collage_witness(
    imgs: Seq<RasterView>,
    c: RasterView,
    rows: int,
    cols: int,
    arranged: Seq<RasterView>,
    ps: Seq<(u32, u32)>,
    width: int,
    height: int,
    shift: int,
    tile: int,
)
    requires
        is_best_rows(imgs.len() as int, width, height, rows),
        cols == grid_cols(imgs.len() as int, rows),
        positions_ok(ps, rows, cols),
        is_arranged(imgs, arranged, shift),
        arranged.len() == imgs.len(),
        tile == vstd::math::min(width / cols, height / rows),
        c == render(
            arranged,
            ps,
            imgs.len() as int,
            blank_view((tile * cols) as nat, (tile * rows) as nat),
            tile as nat,
        ),
    ensures
        exists|rows_: int, cols_: int, arranged_: Seq<RasterView>, ps_: Seq<(u32, u32)>|
            #![trigger positions_ok(ps_, rows_, cols_), is_arranged(imgs, arranged_, shift)]
            {
                let n = imgs.len() as int;
                let tile_ = vstd::math::min(width / cols_, height / rows_);
                &&& is_best_rows(n, width, height, rows_)
                &&& cols_ == grid_cols(n, rows_)
                &&& positions_ok(ps_, rows_, cols_)
                &&& is_arranged(imgs, arranged_, shift)
                &&& arranged_.len() == n
                &&& c == render(
                    arranged_,
                    ps_,
                    n,
                    blank_view((tile_ * cols_) as nat, (tile_ * rows_) as nat),
                    tile_ as nat,
                )
            },
{
    let n = imgs.len() as int;
    let tile_ = vstd::math::min(width / cols, height / rows);
    assert({
        &&& is_best_rows(n, width, height, rows)
        &&& cols == grid_cols(n, rows)
        &&& positions_ok(ps, rows, cols)
        &&& is_arranged(imgs, arranged, shift)
        &&& arranged.len() == n
        &&& c == render(
            arranged,
            ps,
            n,
            blank_view((tile_ * cols) as nat, (tile_ * rows) as nat),
            tile_ as nat,
        )
    });
}

} // verus!
