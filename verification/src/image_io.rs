//! Decoding downloaded album art and encoding the finished collage,
//! through the `image` crate. Only the codec calls themselves are
//! trusted; every size check and every use of the pixels is verified
//! code over [`Raster`].

use vstd::prelude::*;
use crate::raster::Raster;
use crate::raster::RasterView;

verus! {

/// What decoding the given bytes to an RGBA raster yields: `None` where
/// they decode to no image, else the image's width, height and pixel
/// buffer. The result depends on the bytes alone.
pub uninterp spec fn decoded_image(bytes: Seq<u8>) -> Option<(u32, u32, Seq<u8>)>;

/// What PNG-encoding an RGBA raster of the given size yields: `None`
/// where the encoder reports an error. The result depends on the
/// arguments alone.
pub uninterp spec fn png_encoding(width: nat, height: nat, pixels: Seq<u8>) -> Option<Seq<u8>>;

/// Relies on image::load_from_memory and DynamicImage::to_rgba8: the
/// bytes decode to an image or not by their content alone, and the RGBA
/// conversion yields exactly four bytes per pixel.
#[verifier::external_body]
fn decode_rgba(bytes: &[u8]) -> (r: Option<(u32, u32, Vec<u8>)>)
    ensures
        match r {
            Some(t) => decoded_image(bytes@) == Some((t.0, t.1, t.2@)) && t.2@.len() == 4 * ((
            t.0 as int) * (t.1 as int)),
            None => decoded_image(bytes@) is None,
        },
{
    match image::load_from_memory(bytes) {
        Ok(img) => {
            let rgba = img.to_rgba8();
            let (w, h) = (rgba.width(), rgba.height());
            Some((w, h, rgba.into_raw()))
        },
        Err(_) => None,
    }
}

/// Relies on RgbaImage::from_raw and DynamicImage::write_to: encodes the
/// raster into an in-memory PNG buffer.
#[verifier::external_body]
fn encode_rgba_png(img: &Raster) -> (r: Option<Vec<u8>>)
    requires
        img.wf(),
    ensures
        match r {
            Some(b) => png_encoding(img@.width, img@.height, img@.pixels) == Some(b@),
            None => png_encoding(img@.width, img@.height, img@.pixels) is None,
        },
{
    match image::RgbaImage::from_raw(img.width, img.height, img.pixels.clone()) {
        Some(buf) => {
            let mut cur = std::io::Cursor::new(Vec::new());
            match image::DynamicImage::ImageRgba8(buf).write_to(&mut cur, image::ImageFormat::Png) {
                Ok(()) => Some(cur.into_inner()),
                Err(_) => None,
            }
        },
        None => None,
    }
}

/// Decodes downloaded image bytes into a raster. Bytes that decode to
/// no image are reported as `None` and skipped by the caller, as are
/// degenerate rasters without pixels and rasters of 2^32 pixels or
/// more.
pub fn decode_raster(bytes: &[u8]) -> (r: Option<Raster>)
    ensures
        decoded_image(bytes@) is None ==> r is None,
        decoded_image(bytes@) matches Some(t) ==> if 1 <= t.0 && 1 <= t.1 && (t.0 as int) * (
        t.1 as int) < 0x1_0000_0000 {
            r matches Some(img) && img.wf() && img@ == (RasterView {
                width: t.0 as nat,
                height: t.1 as nat,
                pixels: t.2,
            })
        } else {
            r is None
        },
{
    match decode_rgba(bytes) {
        Some((w, h, pixels)) => {
            if w == 0 || h == 0 {
                return None;
            }
            Raster::new(w, h, pixels)
        },
        None => None,
    }
}

/// Encodes a finished collage as PNG bytes, ready to be offered as a
/// download.
pub fn encode_collage_png(img: &Raster) -> (r: Option<Vec<u8>>)
    requires
        img.wf(),
    ensures
        match r {
            Some(b) => png_encoding(img@.width, img@.height, img@.pixels) == Some(b@),
            None => png_encoding(img@.width, img@.height, img@.pixels) is None,
        },
{
    encode_rgba_png(img)
}

} // verus!
