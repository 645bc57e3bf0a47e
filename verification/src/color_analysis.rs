//! Per-image color statistics: how many pixels are black, white or
//! desaturated, and the saturation-and-value-weighted average hue.
//!
//! All ratios are kept exact. A pixel's hue contribution `hue * weight`
//! and its weight `saturation * value` are, after clearing the common
//! denominator, integers: `weight = (max-min)/255` and `hue * (max-min)`
//! is one of the branch formulas below. The average hue is therefore a
//! rational number carried as a numerator/denominator pair.

use vstd::prelude::*;
use crate::raster::Raster;
use crate::raster::RasterView;

verus! {

/// The largest of a pixel's three channels.
pub open spec fn max3(r: int, g: int, b: int) -> int {
    if r >= g && r >= b {
        r
    } else if g >= b {
        g
    } else {
        b
    }
}

/// The smallest of a pixel's three channels.
pub open spec fn min3(r: int, g: int, b: int) -> int {
    if r <= g && r <= b {
        r
    } else if g <= b {
        g
    } else {
        b
    }
}

/// The pixel at flat index `i` of a raster.
pub open spec fn pixel_i(v: RasterView, i: int) -> (u8, u8, u8, u8) {
    (v.pixels[4 * i], v.pixels[4 * i + 1], v.pixels[4 * i + 2], v.pixels[4 * i + 3])
}

/// A visible pixel with all channels below 30: near-black.
pub open spec fn px_black(p: (u8, u8, u8, u8)) -> bool {
    p.3 > 0 && p.0 < 30 && p.1 < 30 && p.2 < 30
}

/// A visible pixel with all channels above 225: near-white.
pub open spec fn px_white(p: (u8, u8, u8, u8)) -> bool {
    p.3 > 0 && p.0 > 225 && p.1 > 225 && p.2 > 225
}

/// A visible pixel whose saturation `(max-min)/max` is below 1/5 (a
/// fully black pixel counts as saturation zero).
pub open spec fn px_desat(p: (u8, u8, u8, u8)) -> bool {
    let mx = max3(p.0 as int, p.1 as int, p.2 as int);
    let mn = min3(p.0 as int, p.1 as int, p.2 as int);
    p.3 > 0 && (mx == 0 || 5 * (mx - mn) < mx)
}

/// A pixel that counts at all: its alpha is non-zero.
pub open spec fn px_visible(p: (u8, u8, u8, u8)) -> bool {
    p.3 > 0
}

/// Number of visible (non-zero-alpha) pixels among the first `k`.
pub open spec fn visible_count(v: RasterView, k: int) -> int
    decreases k,
{
    if k <= 0 {
        0
    } else {
        visible_count(v, k - 1) + if px_visible(pixel_i(v, k - 1)) {
            1int
        } else {
            0int
        }
    }
}

/// Number of near-black pixels among the first `k`.
pub open spec fn black_count(v: RasterView, k: int) -> int
    decreases k,
{
    if k <= 0 {
        0
    } else {
        black_count(v, k - 1) + if px_black(pixel_i(v, k - 1)) {
            1int
        } else {
            0int
        }
    }
}

/// Number of near-white pixels among the first `k`.
pub open spec fn white_count(v: RasterView, k: int) -> int
    decreases k,
{
    if k <= 0 {
        0
    } else {
        white_count(v, k - 1) + if px_white(pixel_i(v, k - 1)) {
            1int
        } else {
            0int
        }
    }
}

/// Number of desaturated pixels among the first `k`.
pub open spec fn desat_count(v: RasterView, k: int) -> int
    decreases k,
{
    if k <= 0 {
        0
    } else {
        desat_count(v, k - 1) + if px_desat(pixel_i(v, k - 1)) {
            1int
        } else {
            0int
        }
    }
}

/// The raster's pixel count.
pub open spec fn total_px(v: RasterView) -> int {
    (v.width * v.height) as int
}

/// Each count lies between 0 and `k`.
proof fn lemma_counts_bounded(v: RasterView, k: int)
    requires
        0 <= k,
    ensures
        0 <= black_count(v, k) <= k,
        0 <= white_count(v, k) <= k,
        0 <= desat_count(v, k) <= k,
        0 <= visible_count(v, k) <= k,
    decreases k,
{
    if k > 0 {
        lemma_counts_bounded(v, k - 1);
    }
}

/// Counts the visible pixels: those with non-zero alpha. The color
/// percentages are fractions of this population.
pub fn count_visible_pixels(img: &Raster) -> (c: u64)
    requires
        img.wf(),
    ensures
        c == visible_count(img@, total_px(img@)),
        0 <= c <= total_px(img@),
{
    let n: usize = img.pixels.len();
    let count: usize = n / 4;
    let mut c: u64 = 0;
    let mut i: usize = 0;
    while i < count
        invariant
            i <= count,
            count == total_px(img@),
            n == img.pixels@.len(),
            n == 4 * (total_px(img@)),
            img.wf(),
            c == visible_count(img@, i as int),
            c <= i,
        decreases count - i,
    {
        let j: usize = 4 * i;
        let a = img.pixels[j + 3];
        if a > 0 {
            c = c + 1;
        }
        proof {
            assert(visible_count(img@, i + 1) == visible_count(img@, i as int) + if px_visible(
                pixel_i(img@, i as int),
            ) {
                1int
            } else {
                0int
            });
        }
        i = i + 1;
    }
    proof {
        lemma_counts_bounded(img@, total_px(img@));
    }
    c
}

/// Counts the visible near-black pixels. The black percentage of the
/// image is this count over its visible-pixel count.
pub fn calculate_black_percentage(img: &Raster) -> (c: u64)
    requires
        img.wf(),
    ensures
        c == black_count(img@, total_px(img@)),
        0 <= c <= total_px(img@),
{
    let n: usize = img.pixels.len();
    let count: usize = n / 4;
    let mut c: u64 = 0;
    let mut i: usize = 0;
    proof {
        lemma_counts_bounded(img@, total_px(img@));
    }
    while i < count
        invariant
            i <= count,
            count == total_px(img@),
            n == img.pixels@.len(),
            n == 4 * (total_px(img@)),
            img.wf(),
            c == black_count(img@, i as int),
            c <= i,
        decreases count - i,
    {
        let j: usize = 4 * i;
        let (r, g, b, a) = (img.pixels[j], img.pixels[j + 1], img.pixels[j + 2], img.pixels[j + 3]);
        if a > 0 && r < 30 && g < 30 && b < 30 {
            c = c + 1;
        }
        proof {
            assert(black_count(img@, i + 1) == black_count(img@, i as int) + if px_black(
                pixel_i(img@, i as int),
            ) {
                1int
            } else {
                0int
            });
        }
        i = i + 1;
    }
    c
}

/// Counts the visible near-white pixels. The white percentage of the
/// image is this count over its visible-pixel count.
pub fn calculate_white_percentage(img: &Raster) -> (c: u64)
    requires
        img.wf(),
    ensures
        c == white_count(img@, total_px(img@)),
        0 <= c <= total_px(img@),
{
    let n: usize = img.pixels.len();
    let count: usize = n / 4;
    let mut c: u64 = 0;
    let mut i: usize = 0;
    while i < count
        invariant
            i <= count,
            count == total_px(img@),
            n == img.pixels@.len(),
            n == 4 * (total_px(img@)),
            img.wf(),
            c == white_count(img@, i as int),
            c <= i,
        decreases count - i,
    {
        let j: usize = 4 * i;
        let (r, g, b, a) = (img.pixels[j], img.pixels[j + 1], img.pixels[j + 2], img.pixels[j + 3]);
        if a > 0 && r > 225 && g > 225 && b > 225 {
            c = c + 1;
        }
        proof {
            assert(white_count(img@, i + 1) == white_count(img@, i as int) + if px_white(
                pixel_i(img@, i as int),
            ) {
                1int
            } else {
                0int
            });
        }
        i = i + 1;
    }
    proof {
        lemma_counts_bounded(img@, total_px(img@));
    }
    c
}

/// Counts the visible pixels with saturation below 1/5. The
/// desaturation percentage of the image is this count over the image's
/// visible-pixel count.
pub fn calculate_desaturation_percentage(img: &Raster) -> (c: u64)
    requires
        img.wf(),
    ensures
        c == desat_count(img@, total_px(img@)),
        0 <= c <= total_px(img@),
{
    let n: usize = img.pixels.len();
    let count: usize = n / 4;
    let mut c: u64 = 0;
    let mut i: usize = 0;
    while i < count
        invariant
            i <= count,
            count == total_px(img@),
            n == img.pixels@.len(),
            n == 4 * (total_px(img@)),
            img.wf(),
            c == desat_count(img@, i as int),
            c <= i,
        decreases count - i,
    {
        let j: usize = 4 * i;
        let (r, g, b, a) = (img.pixels[j], img.pixels[j + 1], img.pixels[j + 2], img.pixels[j + 3]);
        if a > 0 {
            let mx = if r >= g && r >= b {
                r
            } else if g >= b {
                g
            } else {
                b
            };
            let mn = if r <= g && r <= b {
                r
            } else if g <= b {
                g
            } else {
                b
            };
            if mx == 0 || 5 * ((mx - mn) as u32) < mx as u32 {
                c = c + 1;
            }
        }
        proof {
            assert(desat_count(img@, i + 1) == desat_count(img@, i as int) + if px_desat(
                pixel_i(img@, i as int),
            ) {
                1int
            } else {
                0int
            });
        }
        i = i + 1;
    }
    proof {
        lemma_counts_bounded(img@, total_px(img@));
    }
    c
}

/// A pixel's hue contribution with the denominator cleared:
/// `hue * (max-min)`, an integer between 0 and `360 * (max-min)`.
/// Invisible pixels and gray pixels (where `max == min`) contribute
/// nothing.
pub open spec fn hue_num_px(p: (u8, u8, u8, u8)) -> int {
    let r = p.0 as int;
    let g = p.1 as int;
    let b = p.2 as int;
    let mx = max3(r, g, b);
    let mn = min3(r, g, b);
    let d = mx - mn;
    if p.3 == 0 || d == 0 {
        0
    } else if mx == r {
        if g >= b {
            60 * (g - b)
        } else {
            360 * d - 60 * (b - g)
        }
    } else if mx == g {
        120 * d + 60 * (b - r)
    } else {
        240 * d + 60 * (r - g)
    }
}

/// A pixel's weight with the denominator cleared:
/// `saturation * value * 255 == max - min` for visible pixels.
pub open spec fn hue_den_px(p: (u8, u8, u8, u8)) -> int {
    if p.3 == 0 {
        0
    } else {
        max3(p.0 as int, p.1 as int, p.2 as int) - min3(p.0 as int, p.1 as int, p.2 as int)
    }
}

/// Sum of hue contributions over the first `k` pixels.
pub open spec fn hue_num_sum(v: RasterView, k: int) -> int
    decreases k,
{
    if k <= 0 {
        0
    } else {
        hue_num_sum(v, k - 1) + hue_num_px(pixel_i(v, k - 1))
    }
}

/// Sum of weights over the first `k` pixels.
pub open spec fn hue_den_sum(v: RasterView, k: int) -> int
    decreases k,
{
    if k <= 0 {
        0
    } else {
        hue_den_sum(v, k - 1) + hue_den_px(pixel_i(v, k - 1))
    }
}

/// Per-pixel bounds: the weight is at most 255 and the contribution at
/// most 360 times the weight.
proof fn lemma_hue_px_bounds(p: (u8, u8, u8, u8))
    ensures
        0 <= hue_den_px(p) <= 255,
        0 <= hue_num_px(p) <= 360 * hue_den_px(p),
{
}

/// Summed bounds: the denominator grows by at most 255 per pixel and
/// the numerator stays within 360 times the denominator.
proof fn lemma_hue_sum_bounds(v: RasterView, k: int)
    requires
        0 <= k,
    ensures
        0 <= hue_den_sum(v, k) <= 255 * k,
        0 <= hue_num_sum(v, k) <= 360 * hue_den_sum(v, k),
    decreases k,
{
    if k > 0 {
        lemma_hue_sum_bounds(v, k - 1);
        lemma_hue_px_bounds(pixel_i(v, k - 1));
    }
}

/// An average hue as an exact rational: `num / den` degrees, with
/// `den == 0` standing for an image with no colored weight at all,
/// whose hue counts as 0.
pub struct Hue {
    pub num: u64,
    pub den: u64,
}

impl Hue {
    /// The fraction denotes a value in `[0, 360]` and stays small
    /// enough for cross-multiplied comparisons in 128 bits.
    pub open spec fn wf(&self) -> bool {
        &&& self.num <= 360 * self.den
        &&& self.den <= 0xFF_0000_0000u64  // 255 * 2^32
    }
}

/// Computes the saturation-and-value-weighted average hue of an image
/// as an exact rational: the sum of per-pixel `hue * weight` over the
/// sum of weights.
pub fn calculate_dominant_hue(img: &Raster) -> (h: Hue)
    requires
        img.wf(),
    ensures
        h.num == hue_num_sum(img@, total_px(img@)),
        h.den == hue_den_sum(img@, total_px(img@)),
        h.wf(),
{
    let n: usize = img.pixels.len();
    let count: usize = n / 4;
    let mut num: u64 = 0;
    let mut den: u64 = 0;
    let mut i: usize = 0;
    proof {
        lemma_hue_sum_bounds(img@, total_px(img@));
    }
    while i < count
        invariant
            i <= count,
            count == total_px(img@),
            count < 0x1_0000_0000,
            n == img.pixels@.len(),
            n == 4 * (total_px(img@)),
            img.wf(),
            num == hue_num_sum(img@, i as int),
            den == hue_den_sum(img@, i as int),
            den <= 255 * i,
            num <= 360 * den,
        decreases count - i,
    {
        let j: usize = 4 * i;
        let (r, g, b, a) = (img.pixels[j], img.pixels[j + 1], img.pixels[j + 2], img.pixels[j + 3]);
        proof {
            lemma_hue_px_bounds(pixel_i(img@, i as int));
            lemma_hue_sum_bounds(img@, i + 1);
            assert(hue_num_sum(img@, i + 1) == hue_num_sum(img@, i as int) + hue_num_px(
                pixel_i(img@, i as int),
            ));
            assert(hue_den_sum(img@, i + 1) == hue_den_sum(img@, i as int) + hue_den_px(
                pixel_i(img@, i as int),
            ));
        }
        if a > 0 {
            let rc: u32 = r as u32;
            let gc: u32 = g as u32;
            let bc: u32 = b as u32;
            let mx: u32 = if rc >= gc && rc >= bc {
                rc
            } else if gc >= bc {
                gc
            } else {
                bc
            };
            let mn: u32 = if rc <= gc && rc <= bc {
                rc
            } else if gc <= bc {
                gc
            } else {
                bc
            };
            let d: u32 = mx - mn;
            if d > 0 {
                let piece: u32 = if mx == rc {
                    if gc >= bc {
                        60 * (gc - bc)
                    } else {
                        360 * d - 60 * (bc - gc)
                    }
                } else if mx == gc {
                    if bc >= rc {
                        120 * d + 60 * (bc - rc)
                    } else {
                        120 * d - 60 * (rc - bc)
                    }
                } else {
                    if rc >= gc {
                        240 * d + 60 * (rc - gc)
                    } else {
                        240 * d - 60 * (gc - rc)
                    }
                };
                num = num + piece as u64;
                den = den + d as u64;
            }
        }
        i = i + 1;
    }
    Hue { num, den }
}

} // verus!
