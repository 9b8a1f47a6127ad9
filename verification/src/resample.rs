//! Lanczos3 resampling by the image crate, and what holds of it.
//!
//! The crate computes its filter weights with `f32::sin`, whose precision
//! std leaves to the platform, so resampled pixels are not a function of the
//! arguments that this library could name. What is stated is what holds on
//! every machine:
//!
//! - a buffer of exactly the requested size;
//! - an exact copy of the source when the size does not change;
//! - all zeros when the source has no pixels (the crate hands back a fresh
//!   buffer);
//! - locality: each channel of each output pixel is a weighted sum of that
//!   channel over the source pixels within the filter's reach, with weights
//!   normalised to sum to one, clamped and rounded to nearest. So where every
//!   source pixel in reach holds the value `v` in a channel, the output holds
//!   `v` there. This is stated for sizes where the `f32` arithmetic is known
//!   to stay within half a code value: every side at most 2^20 pixels, and no
//!   side shrunk more than 256 times.
use vstd::prelude::*;

verus! {

/// Channel `k` of pixel `(x, y)` in an image `width` pixels wide with `ch`
/// channels per pixel, stored row by row.
pub open spec fn px(s: Seq<u8>, ch: int, width: int, x: int, y: int, k: int) -> u8 {
    s[ch * (y * width + x) + k]
}

/// Source line `r` can weigh in output line `y` when `sn` lines are
/// resampled to `n`: the line lies within three filter widths of the centre
/// of `y` mapped back to the source (a filter width is one source line, or
/// `sn / n` lines when shrinking), with two lines of slack either side. In
/// units of `1 / (2n)` source lines.
pub open spec fn in_reach(r: int, y: int, sn: int, n: int) -> bool {
    let m = if sn > n { sn } else { n };
    &&& (2 * y + 1) * sn - (6 * m + 4 * n) <= 2 * n * r
    &&& 2 * n * r <= (2 * y + 1) * sn + (6 * m + 4 * n)
}

/// Every source pixel within reach of output pixel `(x, y)` holds `v` in
/// channel `k`.
pub open spec fn reach_holds(
    src: Seq<u8>,
    ch: int,
    sw: int,
    sh: int,
    w: int,
    h: int,
    x: int,
    y: int,
    k: int,
    v: u8,
) -> bool {
    forall|c: int, r: int|
        0 <= c < sw && 0 <= r < sh && in_reach(c, x, sw, w) && in_reach(r, y, sh, h) ==> #[trigger] px(
            src,
            ch,
            sw,
            c,
            r,
            k,
        ) == v
}

/// Sizes for which locality is stated: no side empty or above 2^20 pixels,
/// and no side shrunk more than 256 times.
pub open spec fn resample_bounded(sw: u32, sh: u32, w: u32, h: u32) -> bool {
    &&& 1 <= sw <= 0x10_0000 && 1 <= sh <= 0x10_0000
    &&& 1 <= w <= 0x10_0000 && 1 <= h <= 0x10_0000
    &&& sw <= 256 * w && sh <= 256 * h
}

/// `out` (`w` by `h`) is local to `src` (`sw` by `sh`): a channel value that
/// every source pixel in reach of an output pixel shares is that output
/// pixel's value.
pub open spec fn keeps_local(src: Seq<u8>, out: Seq<u8>, ch: int, sw: int, sh: int, w: int, h: int) -> bool {
    forall|x: int, y: int, k: int, v: u8|
        0 <= x < w && 0 <= y < h && 0 <= k < ch && #[trigger] reach_holds(src, ch, sw, sh, w, h, x, y, k, v)
            ==> px(out, ch, w, x, y, k) == v
}

/// Channel `k` holds `v` in every pixel of a `width` by `height` image.
pub open spec fn uniform_channel(s: Seq<u8>, ch: int, width: int, height: int, k: int, v: u8) -> bool {
    forall|x: int, y: int| 0 <= x < width && 0 <= y < height ==> #[trigger] px(s, ch, width, x, y, k) == v
}

/// Resamples an RGB8 image of `sw` by `sh` pixels to `w` by `h` with
/// `image::imageops::resize` and the Lanczos3 filter. Trusted, from the
/// crate's source:
/// - the result holds `w * h` pixels (`ImageBuffer::new(w, h)`);
/// - for equal sizes it is a copy of the source (`buffer_like`, `copy_from`);
/// - for a source with no pixels it is a fresh, zeroed buffer;
/// - within the sizes of `resample_bounded`, it is local to the source: the
///   vertical then horizontal passes take, per channel, a sum over the taps
///   `left..right` around each mapped centre with weights divided by their
///   sum, then clamp and round to nearest, and all those taps lie in reach.
/// Other resampled values are left unsaid. The sizes required keep the
/// crate's allocations in range: an `sw` by `h` RGBA `f32` image on the way,
/// and the result.
#[verifier::external_body]
pub(crate) fn resize_rgb8(src: &Vec<u8>, sw: u32, sh: u32, w: u32, h: u32) -> (out: Vec<u8>)
    requires
        src.len() == 3 * sw * sh,
        16 * sw * h <= isize::MAX,
        3 * w * h <= isize::MAX,
    ensures
        out@.len() == 3 * w * h,
        sw == w && sh == h ==> out@ == src@,
        sw == 0 || sh == 0 ==> forall|i: int| 0 <= i < out@.len() ==> out@[i] == 0u8,
        resample_bounded(sw, sh, w, h) ==> keeps_local(src@, out@, 3, sw as int, sh as int, w as int, h as int),
{
    let img = image::RgbImage::from_raw(sw, sh, src.clone()).unwrap();
    image::imageops::resize(&img, w, h, image::imageops::FilterType::Lanczos3).into_raw()
}

/// Resamples an RGBA8 image of `sw` by `sh` pixels to `w` by `h` with
/// `image::imageops::resize` and the Lanczos3 filter. Trusted as for
/// `resize_rgb8`: the length, the copy for equal sizes, zeros for a source
/// with no pixels, and locality within `resample_bounded`; other resampled
/// values are left unsaid.
#[verifier::external_body]
pub(crate) fn resize_rgba8(src: &Vec<u8>, sw: u32, sh: u32, w: u32, h: u32) -> (out: Vec<u8>)
    requires
        src.len() == 4 * sw * sh,
        16 * sw * h <= isize::MAX,
        4 * w * h <= isize::MAX,
    ensures
        out@.len() == 4 * w * h,
        sw == w && sh == h ==> out@ == src@,
        sw == 0 || sh == 0 ==> forall|i: int| 0 <= i < out@.len() ==> out@[i] == 0u8,
        resample_bounded(sw, sh, w, h) ==> keeps_local(src@, out@, 4, sw as int, sh as int, w as int, h as int),
{
    let img = image::RgbaImage::from_raw(sw, sh, src.clone()).unwrap();
    image::imageops::resize(&img, w, h, image::imageops::FilterType::Lanczos3).into_raw()
}

/// Resampling keeps colours: a channel that holds `v` everywhere in the
/// source holds `v` everywhere in a local resampling of it.
pub proof fn lemma_uniform_channel_kept(
    src: Seq<u8>,
    out: Seq<u8>,
    ch: int,
    sw: int,
    sh: int,
    w: int,
    h: int,
    k: int,
    v: u8,
)
    requires
        keeps_local(src, out, ch, sw, sh, w, h),
        0 <= k < ch,
        uniform_channel(src, ch, sw, sh, k, v),
    ensures
        uniform_channel(out, ch, w, h, k, v),
{
    assert forall|x: int, y: int| 0 <= x < w && 0 <= y < h implies #[trigger] px(out, ch, w, x, y, k) == v by {
        assert(reach_holds(src, ch, sw, sh, w, h, x, y, k, v));
    }
}

/// Resampling keeps positions: when every source line from `r0` down holds
/// `v` in channel `k`, so does every output line whose reach starts at or
/// below `r0`. Turning or flipping the image breaks this.
pub proof fn lemma_lower_lines_kept(
    src: Seq<u8>,
    out: Seq<u8>,
    ch: int,
    sw: int,
    sh: int,
    w: int,
    h: int,
    k: int,
    v: u8,
    r0: int,
    y: int,
)
    requires
        keeps_local(src, out, ch, sw, sh, w, h),
        0 <= k < ch,
        h >= 1,
        forall|c: int, r: int| 0 <= c < sw && r0 <= r < sh ==> #[trigger] px(src, ch, sw, c, r, k) == v,
        0 <= y < h,
        2 * h * r0 + 6 * (if sh > h { sh } else { h }) + 4 * h <= (2 * y + 1) * sh,
    ensures
        forall|x: int| 0 <= x < w ==> #[trigger] px(out, ch, w, x, y, k) == v,
{
    assert forall|x: int| 0 <= x < w implies #[trigger] px(out, ch, w, x, y, k) == v by {
        assert forall|c: int, r: int|
            0 <= c < sw && 0 <= r < sh && in_reach(c, x, sw, w) && in_reach(r, y, sh, h) implies #[trigger] px(
                src,
                ch,
                sw,
                c,
                r,
                k,
            ) == v by {
            assert(r0 <= r) by (nonlinear_arith)
                requires
                    h >= 1,
                    2 * h * r0 <= 2 * h * r,
            ;
        }
        assert(reach_holds(src, ch, sw, sh, w, h, x, y, k, v));
    }
}

} // verus!
