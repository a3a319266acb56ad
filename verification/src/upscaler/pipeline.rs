//! The last stage of upscaling: bring the model's output to the exact size
//! the user asked for and re-attach transparency.
//!
//! RGB channels go through the AI model at its native scale. The
//! super-resolved image is then resampled (Lanczos) to the exact target size
//! — unless it already has that size, in which case the AI result is used
//! verbatim. An alpha channel, if present, is resampled separately from the
//! source and re-attached, so transparency is preserved without forcing the
//! model to handle 4 channels.
use vstd::prelude::*;
use vstd::arithmetic::div_mod::lemma_fundamental_div_mod_converse;

use crate::upscaler::tiling::{lemma_index, rgb_bytes, RasterView, Rgb, RgbRaster};

verus! {

/// Every sample of `s` is `c`.
pub open spec fn all_equal(s: Seq<u8>, c: u8) -> bool {
    forall|i: int| 0 <= i < s.len() ==> s[i] == c
}

/// Every pixel of `px` is `p`.
pub open spec fn all_pixels(px: Seq<Rgb>, p: Rgb) -> bool {
    forall|k: int| 0 <= k < px.len() ==> px[k] == p
}

/// Interleaved `R, G, B` bytes all of whose pixels are `p`.
pub open spec fn uniform_rgb(bytes: Seq<u8>, p: Rgb) -> bool {
    forall|i: int| 0 <= i < bytes.len() ==> bytes[i] == p.0[i % 3]
}

/// A resize from `w` by `h` to `tw` by `th` that keeps a constant plane
/// constant: a non-empty input, neither side shrunk more than 64 times.
pub open spec fn mild_resize(w: nat, h: nat, tw: nat, th: nat) -> bool {
    &&& w > 0
    &&& h > 0
    &&& tw * 64 >= w
    &&& th * 64 >= h
}

/// Sizes small enough that the resize's `f32` sample positions are exact to
/// well within a pixel: every side at most 65536.
pub open spec fn modest_sizes(w: nat, h: nat, tw: nat, th: nat) -> bool {
    &&& w <= 65536
    &&& h <= 65536
    &&& tw <= 65536
    &&& th <= 65536
}

/// Source index `i` of an axis of `n` samples is within reach of output index
/// `o` of an axis of `m` samples: the centre of `o`, mapped onto the source
/// axis, lies less than `3 * max(1, n / m) + 2` source samples from `i` (the
/// Lanczos3 window of the resize, with a margin).
pub open spec fn in_reach(i: int, n: nat, o: int, m: nat) -> bool {
    let big: int = if n > m { n as int } else { m as int };
    let d: int = 2 * i * m - (2 * o + 1) * n;
    -(6 * big + 4 * m) < d && d < 6 * big + 4 * m
}

/// Sample `(i, j)` of a `w`-wide single-channel plane.
pub open spec fn luma_at(raw: Seq<u8>, w: nat, i: int, j: int) -> u8 {
    raw[j * w + i]
}

/// Every sample of the `w` by `h` plane `raw` within reach of output pixel
/// `(x, y)` of a `tw` by `th` resize is `c`.
pub open spec fn luma_window_is(raw: Seq<u8>, w: nat, h: nat, tw: nat, th: nat, x: int, y: int, c: u8) -> bool {
    forall|i: int, j: int|
        0 <= i < w && 0 <= j < h && in_reach(i, w, x, tw) && in_reach(j, h, y, th) ==> #[trigger] luma_at(
            raw,
            w,
            i,
            j,
        ) == c
}

/// Pixel `(i, j)` of `w`-wide interleaved `R, G, B` bytes is `p`.
pub open spec fn pixel_bytes_are(raw: Seq<u8>, w: nat, i: int, j: int, p: Rgb) -> bool {
    &&& raw[3 * (j * w + i)] == p.0[0]
    &&& raw[3 * (j * w + i) + 1] == p.0[1]
    &&& raw[3 * (j * w + i) + 2] == p.0[2]
}

/// Every pixel of the `w` by `h` RGB bytes `raw` within reach of output pixel
/// `(x, y)` of a `tw` by `th` resize is `p`.
pub open spec fn rgb_window_is(raw: Seq<u8>, w: nat, h: nat, tw: nat, th: nat, x: int, y: int, p: Rgb) -> bool {
    forall|i: int, j: int|
        0 <= i < w && 0 <= j < h && in_reach(i, w, x, tw) && in_reach(j, h, y, th) ==> #[trigger] pixel_bytes_are(
            raw,
            w,
            i,
            j,
            p,
        )
}

/// Every pixel of raster `v` within reach of output pixel `(x, y)` of a
/// `tw` by `th` resize is `p`.
pub open spec fn raster_window_is(v: RasterView, tw: nat, th: nat, x: int, y: int, p: Rgb) -> bool {
    forall|i: int, j: int|
        0 <= i < v.width && 0 <= j < v.height && in_reach(i, v.width, x, tw) && in_reach(j, v.height, y, th)
            ==> #[trigger] v.at(i, j) == p
}

/// Calls `image::imageops::resize` with the Lanczos3 filter on an RGB8
/// image, and returns the resized samples with the resized image's width and
/// height. The resampled values come from `f32` arithmetic with the
/// platform's `sin` (whose precision std leaves open), so they are not named;
/// what its source shows for every outcome is stated: the result is `tw` by
/// `th`, an empty input gives all zeros, a request for the input's own size
/// gives a copy of the input, and, under a [`mild_resize`], a colour is kept
/// where the resize reads only that colour: throughout the image, and (with
/// [`modest_sizes`]) at each output pixel whose source window, per
/// [`in_reach`], holds only that colour.
///
/// Why: each channel is resampled on its own in two passes (rows, then
/// columns). An output sample of a pass reads only the input samples `i` with
/// `floor(c - 3s) <= i < ceil(c + 3s)`, `c` being the sample's centre mapped
/// onto the input axis and `s = max(1, n / m)`; with sides at most 65536 the
/// `f32` positions are exact to far less than the margin [`in_reach`] leaves.
/// The weights of those samples are divided by their own sum, which is
/// positive because the window's positive central lobe, which always holds
/// the nearest sample, outweighs its negative lobes; so they sum to one. The
/// last pass clamps to `0..=255` and rounds to nearest. With no side shrunk
/// more than 64 times, a pass reads at most `6 * 64 + 2` samples, and on
/// equal samples the `f32` rounding error stays far below one half, so the
/// common value comes back.
#[verifier::external_body]
fn resize_rgb8(raw: &Vec<u8>, w: u32, h: u32, tw: u32, th: u32) -> (r: (Vec<u8>, u32, u32))
    requires
        raw@.len() == 3 * (w * h),
        (w as nat) * (th as nat) * 16 <= isize::MAX,
        3 * ((tw as nat) * (th as nat)) <= isize::MAX,
    ensures
        r.1 == tw,
        r.2 == th,
        r.0@.len() == 3 * (r.1 * r.2),
        (w == 0 || h == 0) ==> r.0@ == Seq::new(r.0@.len(), |i: int| 0u8),
        (w > 0 && h > 0 && tw == w && th == h) ==> r.0@ == raw@,
        forall|p: Rgb|
            mild_resize(w as nat, h as nat, tw as nat, th as nat) && #[trigger] uniform_rgb(raw@, p)
                ==> uniform_rgb(r.0@, p),
        forall|x: int, y: int, p: Rgb|
            mild_resize(w as nat, h as nat, tw as nat, th as nat) && modest_sizes(
                w as nat,
                h as nat,
                tw as nat,
                th as nat,
            ) && 0 <= x < tw && 0 <= y < th && #[trigger] rgb_window_is(
                raw@,
                w as nat,
                h as nat,
                tw as nat,
                th as nat,
                x,
                y,
                p,
            ) ==> pixel_bytes_are(r.0@, tw as nat, x, y, p),
{
    let img = image::RgbImage::from_raw(w, h, raw.clone()).unwrap();
    let out = image::imageops::resize(&img, tw, th, image::imageops::FilterType::Lanczos3);
    let (ow, oh) = out.dimensions();
    (out.into_raw(), ow, oh)
}

/// Calls `image::imageops::resize` (Lanczos3) on a single-channel 8-bit
/// image, returning the samples with the resized width and height; what is
/// stated is as for RGB8 (see `resize_rgb8`, same source): the size, zeros
/// from an empty input, a copy at the input's own size, and, under a
/// [`mild_resize`], a value kept wherever the resize reads only that value:
/// throughout the plane, and (with [`modest_sizes`]) at each output sample
/// whose source window, per [`in_reach`], holds only that value.
#[verifier::external_body]
fn resize_luma8(raw: &Vec<u8>, w: u32, h: u32, tw: u32, th: u32) -> (r: (Vec<u8>, u32, u32))
    requires
        raw@.len() == w * h,
        (w as nat) * (th as nat) * 16 <= isize::MAX,
        (tw as nat) * (th as nat) <= isize::MAX,
    ensures
        r.1 == tw,
        r.2 == th,
        r.0@.len() == r.1 * r.2,
        (w == 0 || h == 0) ==> r.0@ == Seq::new(r.0@.len(), |i: int| 0u8),
        (w > 0 && h > 0 && tw == w && th == h) ==> r.0@ == raw@,
        forall|c: u8|
            mild_resize(w as nat, h as nat, tw as nat, th as nat) && #[trigger] all_equal(raw@, c)
                ==> all_equal(r.0@, c),
        forall|x: int, y: int, c: u8|
            mild_resize(w as nat, h as nat, tw as nat, th as nat) && modest_sizes(
                w as nat,
                h as nat,
                tw as nat,
                th as nat,
            ) && 0 <= x < tw && 0 <= y < th && #[trigger] luma_window_is(
                raw@,
                w as nat,
                h as nat,
                tw as nat,
                th as nat,
                x,
                y,
                c,
            ) ==> r.0@[y * tw + x] == c,
{
    let img = image::GrayImage::from_raw(w, h, raw.clone()).unwrap();
    let out = image::imageops::resize(&img, tw, th, image::imageops::FilterType::Lanczos3);
    let (ow, oh) = out.dimensions();
    (out.into_raw(), ow, oh)
}

/// The bytes of a raster of one colour are that colour throughout.
pub proof fn lemma_uniform_bytes(px: Seq<Rgb>, p: Rgb)
    requires
        all_pixels(px, p),
    ensures
        uniform_rgb(rgb_bytes(px), p),
{
    assert forall|i: int| 0 <= i < rgb_bytes(px).len() implies #[trigger] rgb_bytes(px)[i] == p.0[i % 3] by {
        assert(0 <= i / 3 < px.len());
        assert(px[i / 3] == p);
    }
}

/// Interleave RGB bytes with one alpha byte per pixel into RGBA bytes.
pub open spec fn rgba_bytes(rgb: Seq<u8>, alpha: Seq<u8>) -> Seq<u8> {
    Seq::new(
        4 * alpha.len(),
        |i: int|
            if i % 4 == 3 {
                alpha[i / 4]
            } else {
                rgb[3 * (i / 4) + i % 4]
            },
    )
}

/// A finished image: `width` by `height` pixels of interleaved 8-bit
/// samples, RGBA when `has_alpha`, else RGB.
pub struct FinishedImage {
    pub width: u32,
    pub height: u32,
    pub has_alpha: bool,
    pub bytes: Vec<u8>,
}

/// Memory limits for bringing a `sw` by `sh` model output and a `src_w` by
/// `src_h` alpha plane to `tw` by `th`.
pub open spec fn resample_fits(sw: nat, src_w: nat, tw: nat, th: nat) -> bool {
    &&& sw * th * 16 <= isize::MAX
    &&& src_w * th * 16 <= isize::MAX
    &&& 4 * (tw * th) <= isize::MAX
}

/// The finished image from RGB bytes already at `width` by `height` and,
/// when the source had transparency, an alpha plane of the same size: RGB as
/// is, or RGBA with the alpha attached to each pixel.
pub fn attach_alpha(rgb: Vec<u8>, alpha: Option<&Vec<u8>>, width: u32, height: u32) -> (r: FinishedImage)
    requires
        rgb@.len() == 3 * (width * height),
        alpha matches Some(a) ==> a@.len() == width * height,
        4 * (width * height) <= isize::MAX,
    ensures
        r.width == width,
        r.height == height,
        r.has_alpha == alpha is Some,
        r.bytes@ == match alpha {
            None => rgb@,
            Some(a) => rgba_bytes(rgb@, a@),
        },
{
    match alpha {
        None => FinishedImage { width, height, has_alpha: false, bytes: rgb },
        Some(a) => FinishedImage { width, height, has_alpha: true, bytes: interleave_rgba(&rgb, a) },
    }
}

/// Bring the super-resolved RGB image `sr` to exactly `target_w` by
/// `target_h`, and, when the source had an alpha channel (`alpha`, one byte
/// per pixel of the `src_w` by `src_h` source), resample that channel to the
/// same size and attach it. When `sr` already has the target size it is used
/// verbatim; when the target is the source's size, the alpha channel passes
/// through unchanged. Under a [`mild_resize`] (neither side shrunk more than
/// 64 times) a model output of one colour keeps that colour, and a fully
/// opaque (or any constant) alpha channel stays so.
pub fn resample_to_target(
    sr: &RgbRaster,
    alpha: Option<&Vec<u8>>,
    src_w: u32,
    src_h: u32,
    target_w: u32,
    target_h: u32,
) -> (r: FinishedImage)
    requires
        alpha matches Some(a) ==> a@.len() == src_w * src_h,
        resample_fits(sr@.width, src_w as nat, target_w as nat, target_h as nat),
    ensures
        r.width == target_w,
        r.height == target_h,
        r.has_alpha == alpha is Some,
        exists|rgb: Seq<u8>, a2: Seq<u8>|
            #[trigger] resampled(rgb, a2, sr@, alpha, src_w, src_h, target_w, target_h) && r.bytes@
                == match alpha {
                None => rgb,
                Some(a) => rgba_bytes(rgb, a2),
            },
{
    proof {
        sr.lemma_wf();
    }
    let sw = sr.width();
    let sh = sr.height();
    let raw = sr.to_bytes();
    let (rgb, rw, rh) = if sw == target_w && sh == target_h {
        proof {
            lemma_copy_keeps_windows(sr@, target_w as nat, target_h as nat);
        }
        (raw, sw, sh)
    } else {
        let res = resize_rgb8(&raw, sw, sh, target_w, target_h);
        proof {
            lemma_resize_keeps_windows(sr@, raw@, res.0@, target_w, target_h);
        }
        res
    };
    proof {
        assert forall|p: Rgb|
            mild_resize(sr@.width, sr@.height, target_w as nat, target_h as nat) && #[trigger] all_pixels(
                sr@.pixels,
                p,
            ) implies uniform_rgb(rgb@, p) by {
            lemma_uniform_bytes(sr@.pixels, p);
        }
    }
    match alpha {
        None => {
            let r = attach_alpha(rgb, None, rw, rh);
            proof {
                assert(resampled(r.bytes@, Seq::empty(), sr@, alpha, src_w, src_h, target_w, target_h));
            }
            r
        },
        Some(a) => {
            let (alpha_up, aw, ah) = resize_luma8(a, src_w, src_h, rw, rh);
            let ghost rgb_view = rgb@;
            let r = attach_alpha(rgb, Some(&alpha_up), aw, ah);
            proof {
                assert(resampled(rgb_view, alpha_up@, sr@, alpha, src_w, src_h, target_w, target_h));
            }
            r
        },
    }
}

/// `rgb` is the model output `sr` brought to `tw` by `th` (verbatim when it
/// already has that size), and, with an alpha plane `alpha` of the `sw` by
/// `sh` source, `a2` is that plane brought to the same size (unchanged when
/// the size is kept); under a [`mild_resize`], one colour or one alpha value
/// throughout is kept.
pub open spec fn resampled(
    rgb: Seq<u8>,
    a2: Seq<u8>,
    sr: RasterView,
    alpha: Option<&Vec<u8>>,
    sw: u32,
    sh: u32,
    tw: u32,
    th: u32,
) -> bool {
    &&& rgb.len() == 3 * (tw * th)
    &&& (sr.width == tw && sr.height == th ==> rgb == rgb_bytes(sr.pixels))
    &&& forall|p: Rgb|
        mild_resize(sr.width, sr.height, tw as nat, th as nat) && #[trigger] all_pixels(sr.pixels, p)
            ==> uniform_rgb(rgb, p)
    &&& keeps_rgb_windows(rgb, sr, tw as nat, th as nat)
    &&& (alpha matches Some(a) ==> {
        &&& a2.len() == tw * th
        &&& (sw > 0 && sh > 0 && tw == sw && th == sh ==> a2 == a@)
        &&& forall|c: u8|
            mild_resize(sw as nat, sh as nat, tw as nat, th as nat) && #[trigger] all_equal(a@, c)
                ==> all_equal(a2, c)
        &&& keeps_luma_windows(a2, a@, sw as nat, sh as nat, tw as nat, th as nat)
    })
}

/// Interleave RGB bytes with one alpha byte per pixel.
fn interleave_rgba(rgb: &Vec<u8>, alpha: &Vec<u8>) -> (r: Vec<u8>)
    requires
        rgb@.len() == 3 * alpha@.len(),
        4 * alpha@.len() <= isize::MAX,
    ensures
        r@ == rgba_bytes(rgb@, alpha@),
{
    let n = alpha.len();
    let mut out: Vec<u8> = Vec::new();
    let mut k: usize = 0;
    while k < n
        invariant
            n == alpha@.len(),
            rgb@.len() == 3 * n,
            4 * n <= isize::MAX,
            k <= n,
            out@.len() == 4 * k,
            forall|i: int| 0 <= i < out@.len() ==> out@[i] == rgba_bytes(rgb@, alpha@)[i],
        decreases n - k,
    {
        proof {
            lemma_fundamental_div_mod_converse(4 * k, 4, k as int, 0);
            lemma_fundamental_div_mod_converse(4 * k + 1, 4, k as int, 1);
            lemma_fundamental_div_mod_converse(4 * k + 2, 4, k as int, 2);
            lemma_fundamental_div_mod_converse(4 * k + 3, 4, k as int, 3);
        }
        out.push(rgb[3 * k]);
        out.push(rgb[3 * k + 1]);
        out.push(rgb[3 * k + 2]);
        out.push(alpha[k]);
        k = k + 1;
    }
    proof {
        assert(out@ =~= rgba_bytes(rgb@, alpha@));
    }
    out
}

/// `rgb`, the `tw` by `th` result of resizing raster `sr`, holds colour `p`
/// at every output pixel whose source window holds only `p` (for resizes
/// that are [`mild_resize`] and [`modest_sizes`]).
pub open spec fn keeps_rgb_windows(rgb: Seq<u8>, sr: RasterView, tw: nat, th: nat) -> bool {
    forall|x: int, y: int, p: Rgb|
        mild_resize(sr.width, sr.height, tw, th) && modest_sizes(sr.width, sr.height, tw, th) && 0 <= x < tw
            && 0 <= y < th && #[trigger] raster_window_is(sr, tw, th, x, y, p) ==> pixel_bytes_are(
            rgb,
            tw,
            x,
            y,
            p,
        )
}

/// `a2`, the `tw` by `th` result of resizing the `w` by `h` plane `a`, holds
/// value `c` at every output sample whose source window holds only `c` (for
/// resizes that are [`mild_resize`] and [`modest_sizes`]).
pub open spec fn keeps_luma_windows(a2: Seq<u8>, a: Seq<u8>, w: nat, h: nat, tw: nat, th: nat) -> bool {
    forall|x: int, y: int, c: u8|
        mild_resize(w, h, tw, th) && modest_sizes(w, h, tw, th) && 0 <= x < tw && 0 <= y < th
            && #[trigger] luma_window_is(a, w, h, tw, th, x, y, c) ==> a2[y * tw + x] == c
}

/// The bytes of pixel `(i, j)` of a `w` by `h` raster are that pixel.
proof fn lemma_rgb_bytes_pixel(px: Seq<Rgb>, w: nat, h: nat, i: int, j: int)
    requires
        px.len() == w * h,
        0 <= i < w,
        0 <= j < h,
    ensures
        pixel_bytes_are(rgb_bytes(px), w, i, j, px[j * w + i]),
{
    lemma_index(w as int, h as int, i, j);
    let k = j * w + i;
    lemma_fundamental_div_mod_converse(3 * k, 3, k, 0);
    lemma_fundamental_div_mod_converse(3 * k + 1, 3, k, 1);
    lemma_fundamental_div_mod_converse(3 * k + 2, 3, k, 2);
}

/// An output pixel's own source pixel is within its reach when the size is
/// kept.
proof fn lemma_own_pixel_in_reach(x: int, n: nat)
    requires
        0 <= x < n,
    ensures
        in_reach(x, n, x, n),
{
    assert(2 * x * n - (2 * x + 1) * n == -(n as int)) by (nonlinear_arith);
}

/// Without resizing, the bytes of `sr` keep every window.
proof fn lemma_copy_keeps_windows(sr: RasterView, tw: nat, th: nat)
    requires
        sr.wf(),
        sr.width == tw,
        sr.height == th,
    ensures
        keeps_rgb_windows(rgb_bytes(sr.pixels), sr, tw, th),
{
    assert forall|x: int, y: int, p: Rgb|
        mild_resize(sr.width, sr.height, tw, th) && modest_sizes(sr.width, sr.height, tw, th) && 0 <= x < tw
            && 0 <= y < th && #[trigger] raster_window_is(sr, tw, th, x, y, p) implies pixel_bytes_are(
        rgb_bytes(sr.pixels),
        tw,
        x,
        y,
        p,
    ) by {
        lemma_own_pixel_in_reach(x, tw);
        lemma_own_pixel_in_reach(y, th);
        assert(sr.at(x, y) == p);
        lemma_rgb_bytes_pixel(sr.pixels, tw, th, x, y);
    }
}

/// Resizing the bytes of `sr` keeps every window, as the resize states for
/// bytes.
proof fn lemma_resize_keeps_windows(sr: RasterView, raw: Seq<u8>, out: Seq<u8>, tw: u32, th: u32)
    requires
        sr.wf(),
        sr.width <= u32::MAX,
        sr.height <= u32::MAX,
        raw == rgb_bytes(sr.pixels),
        forall|x: int, y: int, p: Rgb|
            mild_resize(sr.width, sr.height, tw as nat, th as nat) && modest_sizes(
                sr.width,
                sr.height,
                tw as nat,
                th as nat,
            ) && 0 <= x < tw && 0 <= y < th && #[trigger] rgb_window_is(
                raw,
                sr.width,
                sr.height,
                tw as nat,
                th as nat,
                x,
                y,
                p,
            ) ==> pixel_bytes_are(out, tw as nat, x, y, p),
    ensures
        keeps_rgb_windows(out, sr, tw as nat, th as nat),
{
    assert forall|x: int, y: int, p: Rgb|
        mild_resize(sr.width, sr.height, tw as nat, th as nat) && modest_sizes(
            sr.width,
            sr.height,
            tw as nat,
            th as nat,
        ) && 0 <= x < tw && 0 <= y < th && #[trigger] raster_window_is(
            sr,
            tw as nat,
            th as nat,
            x,
            y,
            p,
        ) implies pixel_bytes_are(out, tw as nat, x, y, p) by {
        assert forall|i: int, j: int|
            0 <= i < sr.width && 0 <= j < sr.height && in_reach(i, sr.width, x, tw as nat) && in_reach(
                j,
                sr.height,
                y,
                th as nat,
            ) implies #[trigger] pixel_bytes_are(raw, sr.width, i, j, p) by {
            assert(sr.at(i, j) == p);
            lemma_rgb_bytes_pixel(sr.pixels, sr.width, sr.height, i, j);
        }
        assert(rgb_window_is(raw, sr.width, sr.height, tw as nat, th as nat, x, y, p));
    }
}

/// The finished image follows its sources pixel by pixel: in any result of
/// [`resample_to_target`] (any `bytes` its contract admits), for a resize that
/// is [`mild_resize`] and [`modest_sizes`], an output pixel whose source alpha
/// window holds only the value `c` gets alpha `c`, and one whose window in
/// the model output holds only the colour `p` gets colour `p`. So the alpha
/// attached is the source's own alpha brought to the target size, whatever
/// size the model output had: a transparent corner stays transparent and an
/// opaque region stays opaque.
pub proof fn lemma_finished_follows_windows(
    sr: RasterView,
    alpha: Option<&Vec<u8>>,
    src_w: u32,
    src_h: u32,
    tw: u32,
    th: u32,
    bytes: Seq<u8>,
    x: int,
    y: int,
)
    requires
        exists|rgb: Seq<u8>, a2: Seq<u8>|
            #[trigger] resampled(rgb, a2, sr, alpha, src_w, src_h, tw, th) && bytes == match alpha {
                None => rgb,
                Some(a) => rgba_bytes(rgb, a2),
            },
        0 <= x < tw,
        0 <= y < th,
    ensures
        alpha matches Some(a) ==> forall|c: u8|
            mild_resize(src_w as nat, src_h as nat, tw as nat, th as nat) && modest_sizes(
                src_w as nat,
                src_h as nat,
                tw as nat,
                th as nat,
            ) && #[trigger] luma_window_is(a@, src_w as nat, src_h as nat, tw as nat, th as nat, x, y, c)
                ==> bytes[4 * (y * tw + x) + 3] == c,
        forall|p: Rgb|
            mild_resize(sr.width, sr.height, tw as nat, th as nat) && modest_sizes(
                sr.width,
                sr.height,
                tw as nat,
                th as nat,
            ) && #[trigger] raster_window_is(sr, tw as nat, th as nat, x, y, p) ==> {
                let stride: int = if alpha is Some { 4 } else { 3 };
                let k = y * tw + x;
                &&& bytes[stride * k] == p.0[0]
                &&& bytes[stride * k + 1] == p.0[1]
                &&& bytes[stride * k + 2] == p.0[2]
            },
{
    let (rgb, a2) = choose|rgb: Seq<u8>, a2: Seq<u8>|
        #[trigger] resampled(rgb, a2, sr, alpha, src_w, src_h, tw, th) && bytes == match alpha {
            None => rgb,
            Some(a) => rgba_bytes(rgb, a2),
        };
    let k = y * tw + x;
    lemma_index(tw as int, th as int, x, y);
    lemma_fundamental_div_mod_converse(4 * k, 4, k, 0);
    lemma_fundamental_div_mod_converse(4 * k + 1, 4, k, 1);
    lemma_fundamental_div_mod_converse(4 * k + 2, 4, k, 2);
    lemma_fundamental_div_mod_converse(4 * k + 3, 4, k, 3);
    assert forall|p: Rgb|
        mild_resize(sr.width, sr.height, tw as nat, th as nat) && modest_sizes(
            sr.width,
            sr.height,
            tw as nat,
            th as nat,
        ) && #[trigger] raster_window_is(sr, tw as nat, th as nat, x, y, p) implies {
        let stride: int = if alpha is Some { 4 } else { 3 };
        &&& bytes[stride * k] == p.0[0]
        &&& bytes[stride * k + 1] == p.0[1]
        &&& bytes[stride * k + 2] == p.0[2]
    } by {
        assert(pixel_bytes_are(rgb, tw as nat, x, y, p));
    }
}

} // verus!
