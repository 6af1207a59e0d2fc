//! Image finalization: the framebuffer flattened to raw RGBA bytes, and an
//! optional nearest-neighbor resize to a fixed target resolution through the
//! image codec. Persisting the bytes to disk is the caller's concern.

use vstd::prelude::*;

use crate::raster::Framebuffer;

verus! {

/// The byte at offset `k` of a packed RGBA pixel: 0 is red, 3 is alpha.
pub open spec fn pixel_byte(p: u32, k: int) -> u8 {
    if k == 0 {
        (p >> 24) as u8
    } else if k == 1 {
        (p >> 16) as u8
    } else if k == 2 {
        (p >> 8) as u8
    } else {
        p as u8
    }
}

/// A pixel sequence flattened to raw bytes, four per pixel, red first.
pub open spec fn rgba_bytes(pix: Seq<u32>) -> Seq<u8> {
    Seq::new(pix.len() * 4, |i: int| pixel_byte(pix[i / 4], i % 4))
}

impl Framebuffer {
    /// Flattens the grid to raw RGBA bytes, row-major, four bytes per pixel.
    pub fn to_rgba_bytes(&self) -> (r: Vec<u8>)
        ensures
            r@ == rgba_bytes(self.pixels@),
    {
        let mut out: Vec<u8> = Vec::new();
        let mut i: usize = 0;
        while i < self.pixels.len()
            invariant
                0 <= i <= self.pixels@.len(),
                out@.len() == 4 * i,
                forall|j: int|
                    0 <= j < 4 * i ==> out@[j] == pixel_byte(self.pixels@[j / 4], j % 4),
            decreases self.pixels@.len() - i,
        {
            let p = self.pixels[i];
            out.push((p >> 24) as u8);
            out.push((p >> 16) as u8);
            out.push((p >> 8) as u8);
            out.push(p as u8);
            proof {
                assert forall|j: int| 4 * i <= j < 4 * (i + 1) implies out@[j] == pixel_byte(
                    self.pixels@[j / 4],
                    j % 4,
                ) by {
                    assert(j / 4 == i as int && j % 4 == j - 4 * (i as int)) by (nonlinear_arith)
                        requires
                            4 * (i as int) <= j < 4 * ((i as int) + 1),
                    {}
                }
            }
            i = i + 1;
        }
        proof {
            assert(out@ =~= rgba_bytes(self.pixels@));
        }
        out
    }
}

/// What the image codec's nearest-neighbor resampling makes of a raw RGBA
/// buffer of the given dimensions.
pub uninterp spec fn resized_of(pixels: Seq<u8>, w: int, h: int, tw: int, th: int) -> Seq<u8>;

/// Relies on image::RgbaImage::from_raw, which accepts every buffer of
/// exactly `4 * w * h` bytes, and on image::imageops::resize with the nearest
/// filter together with ImageBuffer::into_raw: a resampling of the buffer to
/// `4 * tw * th` bytes whose result depends on the arguments alone. The
/// resampling allocates an intermediate `w` by `th` image and the final `tw`
/// by `th` one; the bounds on those sizes keep it from rejecting either.
#[verifier::external_body]
fn resize_rgba_nearest(bytes: &Vec<u8>, w: u32, h: u32, tw: u32, th: u32) -> (r: Option<Vec<u8>>)
    requires
        1 <= w,
        1 <= h,
        1 <= tw,
        1 <= th,
        bytes@.len() == 4 * (w as int) * (h as int),
        4 * (w as int) * (th as int) <= usize::MAX as int,
        4 * (tw as int) * (th as int) <= usize::MAX as int,
    ensures
        r is Some,
        r matches Some(v) ==> v@ == resized_of(
            bytes@,
            w as int,
            h as int,
            tw as int,
            th as int,
        ) && v@.len() == 4 * (tw as int) * (th as int),
{
    match image::RgbaImage::from_raw(w, h, bytes.clone()) {
        Some(img) => Some(
            image::imageops::resize(&img, tw, th, image::imageops::FilterType::Nearest).into_raw(),
        ),
        None => None,
    }
}

/// Prepares the framebuffer for persistence: its raw RGBA bytes, resampled to
/// the fixed target resolution under the nearest-neighbor policy. The codec
/// accepts every well-formed framebuffer, so an image always comes back.
pub fn finalize_resized(fb: &Framebuffer, target_w: u32, target_h: u32) -> (r: Option<Vec<u8>>)
    requires
        fb.wf(),
        1 <= fb.width,
        1 <= fb.height,
        1 <= target_w,
        1 <= target_h,
        4 * (fb.width as int) * (target_h as int) <= usize::MAX as int,
        4 * (target_w as int) * (target_h as int) <= usize::MAX as int,
    ensures
        r is Some,
        r matches Some(v) ==> v@ == resized_of(
            rgba_bytes(fb.pixels@),
            fb.width as int,
            fb.height as int,
            target_w as int,
            target_h as int,
        ) && v@.len() == 4 * (target_w as int) * (target_h as int),
{
    let bytes = fb.to_rgba_bytes();
    proof {
        assert(((fb.width as int) * (fb.height as int)) * 4 == 4 * (fb.width as int) * (
        fb.height as int)) by (nonlinear_arith);
        assert(bytes@.len() == 4 * (fb.width as int) * (fb.height as int));
    }
    resize_rgba_nearest(&bytes, fb.width, fb.height, target_w, target_h)
}

} // verus!
