//! Binarisation against per-pixel thresholds: a fixed threshold, or one drawn
//! at random for every pixel (noise dithering).

use vstd::prelude::*;
use crate::color::{Color, luma, color_luma};
use crate::raster::Image;
use rand::rngs::StdRng;

verus! {

#[verifier::external_type_specification]
#[verifier::external_body]
pub struct ExStdRng(StdRng);

/// Relies on `rand::Rng::gen::<u8>` on a `StdRng`: it draws one byte from the
/// generator and advances it. Nothing is assumed of the value.
#[verifier::external_body]
fn draw_threshold(rng: &mut StdRng) -> (t: u8) {
    rand::Rng::gen::<u8>(rng)
}

/// `high` when the brightness of `c` exceeds the threshold `t`, else `low`.
pub open spec fn binarize(c: Color, t: int, low: Color, high: Color) -> Color {
    if luma(c) > t {
        high
    } else {
        low
    }
}

/// Each pixel binarised against the threshold at the same index.
pub open spec fn binarize_all(pixels: Seq<Color>, thresholds: Seq<u8>, low: Color, high: Color) -> Seq<Color> {
    Seq::new(pixels.len(), |i: int| binarize(pixels[i], thresholds[i] as int, low, high))
}

/// Binarisation of `img` against one threshold per pixel, given in raster
/// order.
pub fn dither_with_thresholds(img: &Image, thresholds: &[u8], low: Color, high: Color) -> (out: Image)
    requires
        img.wf(),
        thresholds@.len() == img.pixels@.len(),
    ensures
        out.width == img.width,
        out.height == img.height,
        out.pixels@ == binarize_all(img.pixels@, thresholds@, low, high),
{
    let n = img.pixels.len();
    let mut pixels: Vec<Color> = Vec::with_capacity(n);
    let mut i: usize = 0;
    while i < n
        invariant
            n == img.pixels@.len(),
            thresholds@.len() == n,
            i <= n,
            pixels@ == binarize_all(img.pixels@, thresholds@, low, high).take(i as int),
        decreases n - i,
    {
        let l = color_luma(img.pixels[i]);
        pixels.push(
            if l > thresholds[i] {
                high
            } else {
                low
            },
        );
        assert(binarize_all(img.pixels@, thresholds@, low, high).take(i + 1) =~= binarize_all(
            img.pixels@,
            thresholds@,
            low,
            high,
        ).take(i as int).push(pixels@[i as int]));
        i = i + 1;
    }
    assert(binarize_all(img.pixels@, thresholds@, low, high).take(n as int) =~= binarize_all(
        img.pixels@,
        thresholds@,
        low,
        high,
    ));
    Image { width: img.width, height: img.height, pixels }
}

/// Threshold rendering: `high` for pixels brighter than 127, `low` for the
/// others.
pub fn threshold_dither(img: &Image, low: Color, high: Color) -> (out: Image)
    requires
        img.wf(),
    ensures
        out.width == img.width,
        out.height == img.height,
        out.pixels@.len() == img.pixels@.len(),
        forall|i: int|
            0 <= i < out.pixels@.len() ==> #[trigger] out.pixels@[i] == binarize(
                img.pixels@[i],
                127,
                low,
                high,
            ),
{
    let n = img.pixels.len();
    let thresholds: Vec<u8> = vec![127u8; n];
    let out = dither_with_thresholds(img, thresholds.as_slice(), low, high);
    assert forall|i: int| 0 <= i < out.pixels@.len() implies #[trigger] out.pixels@[i] == binarize(
        img.pixels@[i],
        127,
        low,
        high,
    ) by {
        assert(thresholds@[i] == 127u8);
    }
    out
}

/// Noise dithering: every pixel is binarised against its own threshold drawn
/// from `rng`, in raster order. The same generator state gives the same image.
pub fn random_dither(img: &Image, low: Color, high: Color, rng: &mut StdRng) -> (out: Image)
    requires
        img.wf(),
    ensures
        out.width == img.width,
        out.height == img.height,
        exists|thresholds: Seq<u8>|
            thresholds.len() == img.pixels@.len() && out.pixels@ == #[trigger] binarize_all(
                img.pixels@,
                thresholds,
                low,
                high,
            ),
{
    let n = img.pixels.len();
    let mut thresholds: Vec<u8> = Vec::with_capacity(n);
    let mut i: usize = 0;
    while i < n
        invariant
            i <= n,
            thresholds@.len() == i,
        decreases n - i,
    {
        let t = draw_threshold(rng);
        thresholds.push(t);
        i = i + 1;
    }
    let out = dither_with_thresholds(img, thresholds.as_slice(), low, high);
    assert(out.pixels@ == binarize_all(img.pixels@, thresholds@, low, high));
    out
}

} // verus!
