//! A decoded RGBA raster as plain values: dimensions and a flat pixel
//! buffer, four bytes per pixel in row-major order.

use vstd::prelude::*;
use vstd::pervasive::VecAdditionalExecFns;

verus! {

/// Mathematical value of a raster.
pub struct RasterView {
    pub width: nat,
    pub height: nat,
    pub pixels: Seq<u8>,
}

impl RasterView {
    /// The buffer holds exactly four bytes per pixel, and the pixel
    /// count stays below 2^32 so that pixel statistics fit machine
    /// words.
    pub open spec fn wf(&self) -> bool {
        &&& self.pixels.len() == 4 * (self.width * self.height)
        &&& self.width * self.height < 0x1_0000_0000
    }

    /// The four channels of the pixel at `(x, y)`: red, green, blue,
    /// alpha.
    pub open spec fn pixel_at(&self, x: int, y: int) -> (u8, u8, u8, u8) {
        let i = 4 * (y * self.width + x);
        (self.pixels[i], self.pixels[i + 1], self.pixels[i + 2], self.pixels[i + 3])
    }
}

/// A decoded image held as plain bytes.
pub struct Raster {
    pub width: u32,
    pub height: u32,
    pub pixels: Vec<u8>,
}

impl View for Raster {
    type V = RasterView;

    open spec fn view(&self) -> RasterView {
        RasterView { width: self.width as nat, height: self.height as nat, pixels: self.pixels@ }
    }
}

impl Raster {
    /// Well-formedness of the underlying value.
    pub open spec fn wf(&self) -> bool {
        self@.wf()
    }

    /// Wraps a pixel buffer, accepting it only when it matches the
    /// dimensions and the pixel count is supported.
    pub fn new(width: u32, height: u32, pixels: Vec<u8>) -> (r: Option<Raster>)
        ensures
            r is Some <==> pixels@.len() == 4 * ((width as int) * (height as int)) && (width as int)
                * (height as int) < 0x1_0000_0000,
            r matches Some(img) ==> img@ == (RasterView {
                width: width as nat,
                height: height as nat,
                pixels: pixels@,
            }) && img.wf(),
    {
        proof {
            lemma_u32_mul_fits_u64(width, height);
        }
        let px: u64 = (width as u64) * (height as u64);
        if px < 0x1_0000_0000u64 && (pixels.len() as u64) == 4u64 * px {
            Some(Raster { width, height, pixels })
        } else {
            None
        }
    }

    /// A fully transparent raster of the given size, if a buffer that
    /// large can exist on this machine.
    pub fn blank(width: u32, height: u32) -> (r: Option<Raster>)
        ensures
            r is Some <==> (width as int) * (height as int) < 0x1_0000_0000 && 4 * ((width as int)
                * (height as int)) <= usize::MAX,
            r matches Some(img) ==> {
                &&& img.wf()
                &&& img@.width == width as nat
                &&& img@.height == height as nat
                &&& forall|i: int| 0 <= i < img@.pixels.len() ==> img@.pixels[i] == 0u8
            },
    {
        proof {
            lemma_u32_mul_fits_u64(width, height);
        }
        let px: u64 = (width as u64) * (height as u64);
        if !(px < 0x1_0000_0000u64 && 4u64 * px <= usize::MAX as u64) {
            return None;
        }
        let n: usize = (4u64 * px) as usize;
        let mut pixels: Vec<u8> = Vec::new();
        let mut i: usize = 0;
        while i < n
            invariant
                i <= n,
                pixels@.len() == i,
                forall|j: int| 0 <= j < i ==> pixels@[j] == 0u8,
            decreases n - i,
        {
            pixels.push(0u8);
            i = i + 1;
        }
        Some(Raster { width, height, pixels })
    }

    /// The raster's width in pixels.
    pub fn width(&self) -> (w: u32)
        ensures
            w as nat == self@.width,
    {
        self.width
    }

    /// The raster's height in pixels.
    pub fn height(&self) -> (h: u32)
        ensures
            h as nat == self@.height,
    {
        self.height
    }

    /// Reads the pixel at `(x, y)`.
    pub fn pixel(&self, x: u32, y: u32) -> (p: (u8, u8, u8, u8))
        requires
            self.wf(),
            x < self@.width,
            y < self@.height,
        ensures
            p == self@.pixel_at(x as int, y as int),
    {
        proof {
            lemma_pixel_index_in_bounds(self@, x as int, y as int);
        }
        let n: usize = self.pixels.len();
        let i: usize = (4u64 * ((y as u64) * (self.width as u64) + (x as u64))) as usize;
        assert(i + 3 < n);
        (self.pixels[i], self.pixels[i + 1], self.pixels[i + 2], self.pixels[i + 3])
    }

    /// Overwrites the pixel at `(x, y)`.
    pub fn set_pixel(&mut self, x: u32, y: u32, p: (u8, u8, u8, u8))
        requires
            old(self).wf(),
            x < old(self)@.width,
            y < old(self)@.height,
        ensures
            final(self).wf(),
            final(self)@.width == old(self)@.width,
            final(self)@.height == old(self)@.height,
            final(self)@.pixels == old(self)@.pixels.update(
                4 * ((y as int) * old(self)@.width + (x as int)),
                p.0,
            ).update(4 * ((y as int) * old(self)@.width + (x as int)) + 1, p.1).update(
                4 * ((y as int) * old(self)@.width + (x as int)) + 2,
                p.2,
            ).update(4 * ((y as int) * old(self)@.width + (x as int)) + 3, p.3),
            final(self)@.pixel_at(x as int, y as int) == p,
    {
        proof {
            lemma_pixel_index_in_bounds(self@, x as int, y as int);
        }
        let n: usize = self.pixels.len();
        let i: usize = (4u64 * ((y as u64) * (self.width as u64) + (x as u64))) as usize;
        assert(i + 3 < n);
        self.pixels.set(i, p.0);
        self.pixels.set(i + 1, p.1);
        self.pixels.set(i + 2, p.2);
        self.pixels.set(i + 3, p.3);
    }
}

/// The product of two 32-bit dimensions fits in a 64-bit word.
proof fn lemma_u32_mul_fits_u64(w: u32, h: u32)
    ensures
        (w as int) * (h as int) <= 0xFFFF_FFFFu64 * 0xFFFF_FFFFu64,
        0 <= (w as int) * (h as int),
{
    assert((w as int) * (h as int) <= 0xFFFF_FFFFu64 * 0xFFFF_FFFFu64 && 0 <= (w as int) * (
    h as int)) by (nonlinear_arith)
        requires
            0 <= w <= 0xFFFF_FFFFu32,
            0 <= h <= 0xFFFF_FFFFu32,
    ;
}

/// The byte range of pixel `(x, y)` lies inside the buffer.
pub proof fn lemma_pixel_index_in_bounds(v: RasterView, x: int, y: int)
    requires
        v.wf(),
        0 <= x < v.width,
        0 <= y < v.height,
    ensures
        0 <= 4 * (y * v.width + x),
        4 * (y * v.width + x) + 3 < v.pixels.len(),
        y * v.width + x < v.width * v.height,
{
    assert(y * v.width + x < v.width * v.height) by (nonlinear_arith)
        requires
            0 <= x < v.width,
            0 <= y < v.height,
    ;
    assert(4 * (y * v.width + x) + 3 < 4 * (v.width * v.height)) by (nonlinear_arith)
        requires
            y * v.width + x < v.width * v.height,
            0 <= y * v.width + x,
    ;
    assert(0 <= y * v.width + x) by (nonlinear_arith)
        requires
            0 <= x,
            0 <= y,
            0 <= v.width,
    ;
}

} // verus!
