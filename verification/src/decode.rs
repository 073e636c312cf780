//! Encoded bytes to a small grayscale thumbnail: format sniffing, colour to luma,
//! area-average downsampling, and the decoders of the outside crates.

use vstd::prelude::*;
use crate::sample::{luma, luma_of};
use crate::codecs::{
    JpegPixels, PngColors, jpeg_header, jpeg_scaled_size, png_header, png_pixels, jpeg_read_header,
    jpeg_decode_scaled, png_read_header, png_decode_pixels, image_load, image_dimensions, image_to_luma,
    image_decoded,
};

verus! {

/// Image container formats recognised by their leading bytes.
#[derive(Debug, Clone, Copy, PartialEq, Eq, Structural)]
pub enum Format {
    Jpeg,
    Png,
    Webp,
    Tiff,
    Bmp,
    Unknown,
}

/// The format that the leading bytes announce.
pub open spec fn sniff_spec(s: Seq<u8>) -> Format {
    if s.len() < 8 {
        Format::Unknown
    } else if s[0] == 0xFF && s[1] == 0xD8 && s[2] == 0xFF {
        Format::Jpeg
    } else if s[0] == 0x89 && s[1] == 0x50 && s[2] == 0x4E && s[3] == 0x47 {
        Format::Png
    } else if s.len() >= 12 && s[0] == 0x52 && s[1] == 0x49 && s[2] == 0x46 && s[3] == 0x46
        && s[8] == 0x57 && s[9] == 0x45 && s[10] == 0x42 && s[11] == 0x50 {
        Format::Webp
    } else if (s[0] == 0x49 && s[1] == 0x49 && s[2] == 0x2A && s[3] == 0x00) || (s[0] == 0x4D
        && s[1] == 0x4D && s[2] == 0x00 && s[3] == 0x2A) {
        Format::Tiff
    } else if s[0] == 0x42 && s[1] == 0x4D {
        Format::Bmp
    } else {
        Format::Unknown
    }
}

/// Recognises the container format by its magic bytes (inputs under 8 bytes are
/// `Unknown`).
pub fn sniff(bytes: &[u8]) -> (f: Format)
    ensures
        f == sniff_spec(bytes@),
{
    if bytes.len() < 8 {
        return Format::Unknown;
    }
    if bytes[0] == 0xFF && bytes[1] == 0xD8 && bytes[2] == 0xFF {
        return Format::Jpeg;
    }
    if bytes[0] == 0x89 && bytes[1] == 0x50 && bytes[2] == 0x4E && bytes[3] == 0x47 {
        return Format::Png;
    }
    if bytes.len() >= 12 && bytes[0] == 0x52 && bytes[1] == 0x49 && bytes[2] == 0x46 && bytes[3]
        == 0x46 && bytes[8] == 0x57 && bytes[9] == 0x45 && bytes[10] == 0x42 && bytes[11] == 0x50 {
        return Format::Webp;
    }
    if (bytes[0] == 0x49 && bytes[1] == 0x49 && bytes[2] == 0x2A && bytes[3] == 0x00) || (bytes[0]
        == 0x4D && bytes[1] == 0x4D && bytes[2] == 0x00 && bytes[3] == 0x2A) {
        return Format::Tiff;
    }
    if bytes[0] == 0x42 && bytes[1] == 0x4D {
        return Format::Bmp;
    }
    Format::Unknown
}

/// Luma of packed pixels of `k` channels whose first three are R, G, B.
pub open spec fn packed_luma(s: Seq<u8>, k: int) -> Seq<u8> {
    Seq::new((s.len() as int / k) as nat, |i: int| luma(s[k * i], s[k * i + 1], s[k * i + 2]))
}

/// Packed RGB to luma; a trailing partial pixel is ignored.
pub fn rgb_to_luma(rgb: &[u8]) -> (out: Vec<u8>)
    ensures
        out@ == packed_luma(rgb@, 3),
{
    let n = rgb.len() / 3;
    let mut out: Vec<u8> = Vec::new();
    let mut i: usize = 0;
    while i < n
        invariant
            n == rgb@.len() / 3,
            0 <= i <= n,
            out@.len() == i,
            forall|j: int| 0 <= j < i ==> #[trigger] out@[j] == luma(rgb@[3 * j], rgb@[3 * j + 1], rgb@[3 * j + 2]),
        decreases n - i,
    {
        assert(rgb@.len() == rgb.len());
        assert(3 * i + 2 < rgb@.len()) by (nonlinear_arith)
            requires
                i < n,
                n == rgb@.len() / 3,
        ;
        out.push(luma_of(rgb[i * 3], rgb[i * 3 + 1], rgb[i * 3 + 2]));
        i = i + 1;
    }
    assert(out@ =~= packed_luma(rgb@, 3));
    out
}

/// Packed RGBA to luma (alpha dropped); a trailing partial pixel is ignored.
pub fn rgba_to_luma(rgba: &[u8]) -> (out: Vec<u8>)
    ensures
        out@ == packed_luma(rgba@, 4),
{
    let n = rgba.len() / 4;
    let mut out: Vec<u8> = Vec::new();
    let mut i: usize = 0;
    while i < n
        invariant
            n == rgba@.len() / 4,
            0 <= i <= n,
            out@.len() == i,
            forall|j: int| 0 <= j < i ==> #[trigger] out@[j] == luma(rgba@[4 * j], rgba@[4 * j + 1], rgba@[4 * j + 2]),
        decreases n - i,
    {
        assert(rgba@.len() == rgba.len());
        assert(4 * i + 3 < rgba@.len()) by (nonlinear_arith)
            requires
                i < n,
                n == rgba@.len() / 4,
        ;
        out.push(luma_of(rgba[i * 4], rgba[i * 4 + 1], rgba[i * 4 + 2]));
        i = i + 1;
    }
    assert(out@ =~= packed_luma(rgba@, 4));
    out
}

/// Packed luma+alpha to luma; a trailing partial pixel is ignored.
pub fn luma_a_to_luma(la: &[u8]) -> (out: Vec<u8>)
    ensures
        out@ == Seq::new((la@.len() / 2) as nat, |i: int| la@[2 * i]),
{
    let n = la.len() / 2;
    let mut out: Vec<u8> = Vec::new();
    let mut i: usize = 0;
    while i < n
        invariant
            n == la@.len() / 2,
            0 <= i <= n,
            out@.len() == i,
            forall|j: int| 0 <= j < i ==> #[trigger] out@[j] == la@[2 * j],
        decreases n - i,
    {
        assert(la@.len() == la.len());
        assert(2 * i + 1 < la@.len()) by (nonlinear_arith)
            requires
                i < n,
                n == la@.len() / 2,
        ;
        out.push(la[i * 2]);
        i = i + 1;
    }
    assert(out@ =~= Seq::new((la@.len() / 2) as nat, |i: int| la@[2 * i]));
    out
}

/// A grayscale image, row-major.
pub struct GrayImage {
    pub width: u32,
    pub height: u32,
    pub pixels: Vec<u8>,
}

impl GrayImage {
    /// The buffer holds exactly one byte per pixel.
    pub open spec fn wf(&self) -> bool {
        self.pixels@.len() == self.width * self.height
    }
}

/// Target size for an area-average downsample to short edge `se` (aspect kept).
pub open spec fn target_dims(w: int, h: int, se: int) -> (int, int) {
    if w <= h {
        (se, h * se / w)
    } else {
        (w * se / h, se)
    }
}

/// First source row (or column) of output row `i` when `n` source rows map to `t`.
pub open spec fn win_lo(i: int, n: int, t: int) -> int {
    i * n / t
}

/// One past the last source row (or column) of output row `i`; never empty.
pub open spec fn win_hi(i: int, n: int, t: int) -> int {
    let a = (i + 1) * n / t;
    let b = if a < n { a } else { n };
    if b < win_lo(i, n, t) + 1 { win_lo(i, n, t) + 1 } else { b }
}

/// Sum of pixels `base + x0 .. base + x1`.
pub open spec fn row_sum(s: Seq<u8>, base: int, x0: int, x1: int) -> nat
    decreases x1 - x0,
{
    if x1 <= x0 {
        0
    } else {
        row_sum(s, base, x0, x1 - 1) + s[base + x1 - 1] as nat
    }
}

/// Sum of the pixels of rows `y0 .. y1`, columns `x0 .. x1`, of a `w`-wide image.
pub open spec fn win_sum(s: Seq<u8>, w: int, y0: int, y1: int, x0: int, x1: int) -> nat
    decreases y1 - y0,
{
    if y1 <= y0 {
        0
    } else {
        win_sum(s, w, y0, y1 - 1, x0, x1) + row_sum(s, (y1 - 1) * w, x0, x1)
    }
}

/// The mean of the source window of output pixel (sx, sy).
pub open spec fn window_mean(s: Seq<u8>, w: int, h: int, tw: int, th: int, sx: int, sy: int) -> int {
    let y0 = win_lo(sy, h, th);
    let y1 = win_hi(sy, h, th);
    let x0 = win_lo(sx, w, tw);
    let x1 = win_hi(sx, w, tw);
    win_sum(s, w, y0, y1, x0, x1) as int / ((y1 - y0) * (x1 - x0))
}

proof fn lemma_win_bounds(i: int, n: int, t: int)
    requires
        0 <= i < t,
        1 <= n,
        1 <= t,
    ensures
        0 <= win_lo(i, n, t) < win_hi(i, n, t) <= n,
{
    assert(0 <= i * n / t < n) by (nonlinear_arith)
        requires
            0 <= i < t,
            1 <= n,
            1 <= t,
    ;
}

proof fn lemma_row_sum_bound(s: Seq<u8>, base: int, x0: int, x1: int)
    requires
        x0 <= x1,
    ensures
        row_sum(s, base, x0, x1) <= 255 * (x1 - x0),
    decreases x1 - x0,
{
    if x1 > x0 {
        lemma_row_sum_bound(s, base, x0, x1 - 1);
    }
}

proof fn lemma_win_sum_bound(s: Seq<u8>, w: int, y0: int, y1: int, x0: int, x1: int)
    requires
        y0 <= y1,
        x0 <= x1,
    ensures
        win_sum(s, w, y0, y1, x0, x1) <= 255 * (y1 - y0) * (x1 - x0),
    decreases y1 - y0,
{
    if y1 > y0 {
        lemma_win_sum_bound(s, w, y0, y1 - 1, x0, x1);
        lemma_row_sum_bound(s, (y1 - 1) * w, x0, x1);
        assert(255 * (y1 - 1 - y0) * (x1 - x0) + 255 * (x1 - x0) == 255 * (y1 - y0) * (x1 - x0))
            by (nonlinear_arith);
    }
}

/// `out` is what the area-average downsample of the `w` x `h` image `s` to short
/// edge `se` gives: the image itself when its short edge is already at most `se` or
/// `se` is 0, else the `target_dims` image of window means.
pub open spec fn is_box_downsample(w: int, h: int, s: Seq<u8>, se: int, out: &GrayImage) -> bool {
    let short = if w <= h { w } else { h };
    if short <= se || se == 0 {
        out.width == w && out.height == h && out.pixels@ == s
    } else {
        let (tw, th) = target_dims(w, h, se);
        &&& out.width == tw
        &&& out.height == th
        &&& forall|sy: int, sx: int|
            0 <= sy < th && 0 <= sx < tw ==> #[trigger] out.pixels@[sy * tw + sx] == window_mean(
                s,
                w,
                h,
                tw,
                th,
                sx,
                sy,
            )
    }
}

/// The shorter of two sides.
pub open spec fn short_side(a: int, b: int) -> int {
    if a <= b {
        a
    } else {
        b
    }
}

/// The short edge after an area-average downsample to `se` is at most `se`; for a
/// non-empty image it is exactly `min(w, h, se)`: kept when already that short, else
/// brought to `se` with the long edge scaled in proportion (never below `se`).
pub proof fn lemma_downsample_short_edge(w: int, h: int, s: Seq<u8>, se: int, out: &GrayImage)
    requires
        0 <= w,
        0 <= h,
        0 < se,
        is_box_downsample(w, h, s, se, out),
    ensures
        out.width <= se || out.height <= se,
        w >= 1 && h >= 1 ==> short_side(out.width as int, out.height as int) == short_side(
            short_side(w, h),
            se,
        ),
{
    if w >= 1 && h >= 1 && short_side(w, h) > se {
        if w <= h {
            assert(h * se / w >= se) by {
                assert(h * se >= w * se) by (nonlinear_arith)
                    requires
                        h >= w,
                        se > 0,
                ;
                vstd::arithmetic::div_mod::lemma_div_is_ordered(w * se, h * se, w);
                vstd::arithmetic::div_mod::lemma_div_by_multiple(se, w);
                assert(w * se == se * w) by (nonlinear_arith);
            }
        } else {
            assert(w * se / h >= se) by {
                assert(w * se >= h * se) by (nonlinear_arith)
                    requires
                        w > h,
                        se > 0,
                ;
                vstd::arithmetic::div_mod::lemma_div_is_ordered(h * se, w * se, h);
                vstd::arithmetic::div_mod::lemma_div_by_multiple(se, h);
                assert(h * se == se * h) by (nonlinear_arith);
            }
        }
    }
}

proof fn lemma_row_sum_range(s: Seq<u8>, base: int, x0: int, x1: int, lo: int, hi: int)
    requires
        0 <= base + x0,
        x0 <= x1,
        base + x1 <= s.len(),
        forall|i: int| 0 <= i < s.len() ==> lo <= #[trigger] s[i] <= hi,
    ensures
        lo * (x1 - x0) <= row_sum(s, base, x0, x1) <= hi * (x1 - x0),
    decreases x1 - x0,
{
    if x1 > x0 {
        lemma_row_sum_range(s, base, x0, x1 - 1, lo, hi);
        assert(lo <= s[base + x1 - 1] <= hi);
        assert(lo * (x1 - 1 - x0) + lo == lo * (x1 - x0) && hi * (x1 - 1 - x0) + hi == hi * (x1 - x0))
            by (nonlinear_arith);
        assert(row_sum(s, base, x0, x1) == row_sum(s, base, x0, x1 - 1) + s[base + x1 - 1] as nat);
    } else {
        assert(lo * (x1 - x0) == 0 && hi * (x1 - x0) == 0) by (nonlinear_arith)
            requires
                x1 == x0,
        ;
    }
}

proof fn lemma_win_sum_range(s: Seq<u8>, w: int, y0: int, y1: int, x0: int, x1: int, lo: int, hi: int)
    requires
        0 <= y0 <= y1,
        0 <= x0 <= x1 <= w,
        y1 * w <= s.len(),
        forall|i: int| 0 <= i < s.len() ==> lo <= #[trigger] s[i] <= hi,
    ensures
        lo * ((y1 - y0) * (x1 - x0)) <= win_sum(s, w, y0, y1, x0, x1) <= hi * ((y1 - y0) * (x1 - x0)),
    decreases y1 - y0,
{
    if y1 > y0 {
        assert((y1 - 1) * w <= y1 * w) by (nonlinear_arith)
            requires
                w >= 0,
        ;
        lemma_win_sum_range(s, w, y0, y1 - 1, x0, x1, lo, hi);
        assert((y1 - 1) * w + x1 <= y1 * w && 0 <= (y1 - 1) * w) by (nonlinear_arith)
            requires
                x1 <= w,
                y1 >= 1,
                w >= 0,
        ;
        lemma_row_sum_range(s, (y1 - 1) * w, x0, x1, lo, hi);
        let c = x1 - x0;
        assert(lo * ((y1 - 1 - y0) * c) + lo * c == lo * ((y1 - y0) * c) && hi * ((y1 - 1 - y0) * c) + hi
            * c == hi * ((y1 - y0) * c)) by (nonlinear_arith);
    } else {
        assert(lo * ((y1 - y0) * (x1 - x0)) == 0 && hi * ((y1 - y0) * (x1 - x0)) == 0) by (nonlinear_arith)
            requires
                y1 == y0,
        ;
    }
}

/// Area averaging keeps pixel values within the source's range: when every source
/// pixel lies in `lo ..= hi`, so does every output pixel (so a constant image stays
/// that constant).
pub proof fn lemma_downsample_range(w: int, h: int, s: Seq<u8>, se: int, out: &GrayImage, lo: int, hi: int)
    requires
        1 <= w,
        1 <= h,
        0 <= se,
        s.len() == w * h,
        out.wf(),
        is_box_downsample(w, h, s, se, out),
        forall|i: int| 0 <= i < s.len() ==> lo <= #[trigger] s[i] <= hi,
    ensures
        forall|i: int| 0 <= i < out.pixels@.len() ==> lo <= #[trigger] out.pixels@[i] <= hi,
{
    let short = if w <= h { w } else { h };
    if !(short <= se || se == 0) {
        let (tw, th) = target_dims(w, h, se);
        assert(tw >= 1 && th >= 1) by (nonlinear_arith)
            requires
                (tw, th) == target_dims(w, h, se),
                1 <= se < short,
                short == if w <= h { w } else { h },
                1 <= w,
                1 <= h,
        ;
        assert forall|i: int| 0 <= i < out.pixels@.len() implies lo <= #[trigger] out.pixels@[i] <= hi by {
            let sy = i / tw;
            let sx = i % tw;
            vstd::arithmetic::div_mod::lemma_fundamental_div_mod(i, tw);
            vstd::arithmetic::div_mod::lemma_mod_bound(i, tw);
            assert(0 <= sy < th) by (nonlinear_arith)
                requires
                    0 <= i < tw * th,
                    i == tw * sy + sx,
                    0 <= sx < tw,
                    tw >= 1,
            ;
            assert(i == sy * tw + sx) by (nonlinear_arith)
                requires
                    i == tw * sy + sx,
            ;
            let y0 = win_lo(sy, h, th);
            let y1 = win_hi(sy, h, th);
            let x0 = win_lo(sx, w, tw);
            let x1 = win_hi(sx, w, tw);
            lemma_win_bounds(sy, h, th);
            lemma_win_bounds(sx, w, tw);
            assert(y1 * w <= s.len()) by (nonlinear_arith)
                requires
                    y1 <= h,
                    s.len() == w * h,
                    w >= 1,
            ;
            lemma_win_sum_range(s, w, y0, y1, x0, x1, lo, hi);
            let c = (y1 - y0) * (x1 - x0);
            let sum = win_sum(s, w, y0, y1, x0, x1) as int;
            assert(c >= 1) by (nonlinear_arith)
                requires
                    y1 - y0 >= 1,
                    x1 - x0 >= 1,
                    c == (y1 - y0) * (x1 - x0),
            ;
            assert(lo <= sum / c <= hi) by (nonlinear_arith)
                requires
                    lo * c <= sum <= hi * c,
                    c >= 1,
                    sum >= 0,
            ;
            assert(out.pixels@[sy * tw + sx] == window_mean(s, w, h, tw, th, sx, sy));
        }
    }
}

/// Area-average downsample to short edge `short_edge`, keeping the aspect ratio:
/// each output pixel is the mean (rounded down) of the source window that maps onto
/// it. Images already at or below that size, and a target of 0, are returned as is.
pub fn box_downsample(img: GrayImage, short_edge: u32) -> (out: GrayImage)
    requires
        img.wf(),
    ensures
        out.wf(),
        is_box_downsample(img.width as int, img.height as int, img.pixels@, short_edge as int, &out),
{
    let w = img.width;
    let h = img.height;
    let short = if w <= h { w } else { h };
    if short <= short_edge || short_edge == 0 {
        return img;
    }
    let tw: u32;
    let th: u32;
    if w <= h {
        assert(1 <= (h as int) * (short_edge as int) / (w as int) <= h) by (nonlinear_arith)
            requires
                short_edge < w,
                1 <= short_edge,
                w <= h,
        ;
        assert((h as int) * (short_edge as int) <= 0xFFFF_FFFF * 0xFFFF_FFFF) by (nonlinear_arith)
            requires
                h <= 0xFFFF_FFFF,
                short_edge <= 0xFFFF_FFFF,
        ;
        tw = short_edge;
        th = ((h as u64) * (short_edge as u64) / (w as u64)) as u32;
    } else {
        assert(1 <= (w as int) * (short_edge as int) / (h as int) <= w) by (nonlinear_arith)
            requires
                short_edge < h,
                1 <= short_edge,
                h < w,
        ;
        assert((w as int) * (short_edge as int) <= 0xFFFF_FFFF * 0xFFFF_FFFF) by (nonlinear_arith)
            requires
                w <= 0xFFFF_FFFF,
                short_edge <= 0xFFFF_FFFF,
        ;
        tw = ((w as u64) * (short_edge as u64) / (h as u64)) as u32;
        th = short_edge;
    }
    if tw == 0 || th == 0 {
        return img;
    }
    assert(th >= 1 && tw >= 1);
    let ghost s = img.pixels@;
    assert(img.pixels@.len() == img.pixels.len());
    assert(tw * th <= w * h) by (nonlinear_arith)
        requires
            tw <= w,
            th <= h,
    ;
    let mut out: Vec<u8> = Vec::new();
    let mut sy: u32 = 0;
    while sy < th
        invariant
            s == img.pixels@,
            s.len() == w * h,
            s.len() <= usize::MAX,
            1 <= tw <= w,
            1 <= th <= h,
            0 <= sy <= th,
            out@.len() == sy * tw,
            forall|py: int, px: int|
                0 <= py < sy && 0 <= px < tw ==> #[trigger] out@[py * tw + px] == window_mean(
                    s,
                    w as int,
                    h as int,
                    tw as int,
                    th as int,
                    px,
                    py,
                ),
        decreases th - sy,
    {
        proof {
            lemma_win_bounds(sy as int, h as int, th as int);
            assert((sy as int + 1) * (h as int) <= 0x1_0000_0000 * 0xFFFF_FFFF) by (nonlinear_arith)
                requires
                    sy < th,
                    th <= 0xFFFF_FFFF,
                    h <= 0xFFFF_FFFF,
            ;
            assert((sy as int) * (h as int) <= (sy as int + 1) * (h as int)) by (nonlinear_arith);
        }
        let y0: u64 = (sy as u64) * (h as u64) / (th as u64);
        let a: u64 = ((sy as u64) + 1) * (h as u64) / (th as u64);
        let b: u64 = if a < h as u64 { a } else { h as u64 };
        let y1: u64 = if b < y0 + 1 { y0 + 1 } else { b };
        let mut sx: u32 = 0;
        while sx < tw
            invariant
                s == img.pixels@,
                s.len() == w * h,
                s.len() <= usize::MAX,
                1 <= tw <= w,
                1 <= th <= h,
                0 <= sy < th,
                y0 == win_lo(sy as int, h as int, th as int),
                y1 == win_hi(sy as int, h as int, th as int),
                0 <= y0 < y1 <= h,
                0 <= sx <= tw,
                out@.len() == sy * tw + sx,
                forall|py: int, px: int|
                    0 <= py < sy && 0 <= px < tw ==> #[trigger] out@[py * tw + px] == window_mean(
                        s,
                        w as int,
                        h as int,
                        tw as int,
                        th as int,
                        px,
                        py,
                    ),
                forall|px: int|
                    0 <= px < sx ==> #[trigger] out@[sy * tw + px] == window_mean(
                        s,
                        w as int,
                        h as int,
                        tw as int,
                        th as int,
                        px,
                        sy as int,
                    ),
            decreases tw - sx,
        {
            proof {
                lemma_win_bounds(sx as int, w as int, tw as int);
                assert((sx as int + 1) * (w as int) <= 0x1_0000_0000 * 0xFFFF_FFFF) by (nonlinear_arith)
                    requires
                        sx < tw,
                        tw <= 0xFFFF_FFFF,
                        w <= 0xFFFF_FFFF,
                ;
                assert((sx as int) * (w as int) <= (sx as int + 1) * (w as int)) by (nonlinear_arith);
            }
            let x0: u64 = (sx as u64) * (w as u64) / (tw as u64);
            let c: u64 = ((sx as u64) + 1) * (w as u64) / (tw as u64);
            let d: u64 = if c < w as u64 { c } else { w as u64 };
            let x1: u64 = if d < x0 + 1 { x0 + 1 } else { d };
            let mut sum: u128 = 0;
            let mut count: u64 = 0;
            let mut y: u64 = y0;
            while y < y1
                invariant
                    s == img.pixels@,
                    s.len() == w * h,
                    s.len() <= usize::MAX,
                    0 <= y0 <= y <= y1,
                    y1 <= h,
                    0 <= x0 < x1 <= w,
                    sum == win_sum(s, w as int, y0 as int, y as int, x0 as int, x1 as int),
                    sum <= 255 * (y - y0) * (x1 - x0),
                    count == (y - y0) * (x1 - x0),
                    count <= (y - y0) * w,
                decreases y1 - y,
            {
                proof {
                    assert((y + 1) * w <= h * w) by (nonlinear_arith)
                        requires
                            y < y1,
                            y1 <= h,
                    ;
                    assert(h * w == w * h) by (nonlinear_arith);
                    assert((y - y0 + 1) * w <= s.len()) by (nonlinear_arith)
                        requires
                            y0 <= y,
                            (y + 1) * w <= s.len(),
                    ;
                    assert(y * w + w == (y + 1) * w) by (nonlinear_arith);
                }
                let row_off: u64 = y * (w as u64);
                let mut rs: u128 = 0;
                let mut x: u64 = x0;
                while x < x1
                    invariant
                        s == img.pixels@,
                        s.len() == w * h,
                        s.len() <= usize::MAX,
                        y < h,
                        row_off == y * w,
                        row_off + w <= s.len(),
                        0 <= x0 <= x <= x1,
                        x1 <= w,
                        rs == row_sum(s, row_off as int, x0 as int, x as int),
                        rs <= 255 * (x - x0),
                    decreases x1 - x,
                {
                    assert(row_off + x < s.len());
                    rs = rs + s_at(&img.pixels, (row_off + x) as usize) as u128;
                    x = x + 1;
                }
                proof {
                    assert(255 * (y - y0) * (x1 - x0) + 255 * (x1 - x0) == 255 * (y + 1 - y0) * (x1 - x0))
                        by (nonlinear_arith);
                    assert((y - y0) * (x1 - x0) + (x1 - x0) == (y + 1 - y0) * (x1 - x0)) by (nonlinear_arith);
                    assert((y + 1 - y0) * (x1 - x0) <= (y + 1 - y0) * w) by (nonlinear_arith)
                        requires
                            x1 - x0 <= w,
                            y0 <= y,
                    ;
                    assert(255 * (y + 1 - y0) * (x1 - x0) <= 255 * 0x1_0000_0000 * 0x1_0000_0000) by (nonlinear_arith)
                        requires
                            y + 1 - y0 <= 0x1_0000_0000,
                            x1 - x0 <= 0x1_0000_0000,
                            y0 <= y,
                            x0 <= x1,
                    ;
                    assert((y + 1 - y0) * w <= s.len()) by (nonlinear_arith)
                        requires
                            y0 <= y,
                            (y - y0 + 1) * w <= s.len(),
                    ;
                }
                sum = sum + rs;
                count = count + (x1 - x0);
                y = y + 1;
            }
            proof {
                assert(count >= 1) by (nonlinear_arith)
                    requires
                        count == (y1 - y0) * (x1 - x0),
                        y0 < y1,
                        x0 < x1,
                ;
                assert(255 * (y1 - y0) * (x1 - x0) == 255 * count) by (nonlinear_arith)
                    requires
                        count == (y1 - y0) * (x1 - x0),
                ;
                assert((sum as int) / (count as int) <= 255) by (nonlinear_arith)
                    requires
                        sum <= 255 * count,
                        count >= 1,
                ;
            }
            let v = (sum / (count as u128)) as u8;
            let ghost before = out@;
            out.push(v);
            proof {
                assert forall|py: int, px: int|
                    0 <= py < sy && 0 <= px < tw implies #[trigger] out@[py * tw + px] == window_mean(
                        s,
                        w as int,
                        h as int,
                        tw as int,
                        th as int,
                        px,
                        py,
                    ) by {
                    assert(py * tw + px < sy * tw) by (nonlinear_arith)
                        requires
                            py < sy,
                            px < tw,
                    ;
                    assert(out@[py * tw + px] == before[py * tw + px]);
                }
            }
            sx = sx + 1;
        }
        assert((sy + 1) * tw == sy * tw + tw) by (nonlinear_arith);
        sy = sy + 1;
    }
    assert(out@.len() == tw * th) by (nonlinear_arith)
        requires
            out@.len() == sy * tw,
            sy == th,
    ;
    GrayImage { width: tw, height: th, pixels: out }
}

/// The size asked of the JPEG decoder's DCT scaling: each side scaled by
/// `target / short edge`, at least 1 and at most 65535.
pub open spec fn jpeg_request(w: int, h: int, target: int) -> (int, int) {
    let short = if w <= h { w } else { h };
    let s = if short < 1 { 1 } else { short };
    let rw = w * target / s;
    let rh = h * target / s;
    (
        if rw < 1 { 1 } else if rw > 65535 { 65535 } else { rw },
        if rh < 1 { 1 } else if rh > 65535 { 65535 } else { rh },
    )
}

/// The size to request from DCT-domain scaling so the short edge comes near `target`.
pub fn jpeg_scale_request(w: u32, h: u32, target: u32) -> (r: (u16, u16))
    ensures
        r.0 == jpeg_request(w as int, h as int, target as int).0,
        r.1 == jpeg_request(w as int, h as int, target as int).1,
{
    let m = if w <= h { w } else { h };
    let short: u64 = if m < 1 { 1 } else { m as u64 };
    assert((w as int) * (target as int) <= 0xFFFF_FFFF * 0xFFFF_FFFF) by (nonlinear_arith)
        requires
            w <= 0xFFFF_FFFF,
            target <= 0xFFFF_FFFF,
    ;
    assert((h as int) * (target as int) <= 0xFFFF_FFFF * 0xFFFF_FFFF) by (nonlinear_arith)
        requires
            h <= 0xFFFF_FFFF,
            target <= 0xFFFF_FFFF,
    ;
    let rw: u64 = (w as u64) * (target as u64) / short;
    let rh: u64 = (h as u64) * (target as u64) / short;
    let a: u16 = if rw < 1 { 1 } else if rw > 65535 { 65535 } else { rw as u16 };
    let b: u16 = if rh < 1 { 1 } else if rh > 65535 { 65535 } else { rh as u16 };
    (a, b)
}

/// The decoded JPEG pixels of a `dw` x `dh` image in layout `fmt` are ones the
/// thumbnail path takes: 8-bit gray or RGB, one sample (three for RGB) per pixel.
pub open spec fn jpeg_pixels_ok(fmt: JpegPixels, dw: int, dh: int, px: Seq<u8>) -> bool {
    (fmt == JpegPixels::L8 && px.len() == dw * dh) || (fmt == JpegPixels::Rgb24 && px.len() == dw * dh
        * 3)
}

/// The gray samples of decoded JPEG pixels: as they are for gray, through luma for RGB.
pub open spec fn jpeg_gray(fmt: JpegPixels, px: Seq<u8>) -> Seq<u8> {
    if fmt == JpegPixels::L8 {
        px
    } else {
        packed_luma(px, 3)
    }
}

/// `out` is the gray image of decoded JPEG pixels of size `dw` x `dh`, brought down to
/// short edge `target` when larger.
pub open spec fn jpeg_finished(fmt: JpegPixels, dw: int, dh: int, px: Seq<u8>, target: int, out: &GrayImage) -> bool {
    let gray = jpeg_gray(fmt, px);
    let short = if dw <= dh { dw } else { dh };
    &&& out.wf()
    &&& short > target ==> is_box_downsample(dw, dh, gray, target, out)
    &&& short <= target ==> out.width == dw && out.height == dh && out.pixels@ == gray
}

/// The gray image made from decoded JPEG pixels of size `dw` x `dh`: 8-bit gray as
/// is, RGB through luma, other layouts refused; then brought down to short edge
/// `target` when larger. `None` also when the buffer length does not fit the size.
pub fn finish_jpeg(fmt: JpegPixels, dw: u16, dh: u16, pixels: Vec<u8>, target: u32) -> (res: Option<GrayImage>)
    ensures
        res is Some <==> jpeg_pixels_ok(fmt, dw as int, dh as int, pixels@),
        res matches Some(out) ==> jpeg_finished(fmt, dw as int, dh as int, pixels@, target as int, &out),
{
    assert((dw as int) * (dh as int) <= 0xFFFF * 0xFFFF) by (nonlinear_arith)
        requires
            dw <= 0xFFFF,
            dh <= 0xFFFF,
    ;
    let n: usize = (dw as usize) * (dh as usize);
    let gray: Vec<u8> = match fmt {
        JpegPixels::L8 => {
            if pixels.len() != n {
                return None;
            }
            pixels
        },
        JpegPixels::Rgb24 => {
            if pixels.len() / 3 != n || pixels.len() % 3 != 0 {
                return None;
            }
            rgb_to_luma(&pixels)
        },
        _ => return None,
    };
    let img = GrayImage { width: dw as u32, height: dh as u32, pixels: gray };
    let short = if dw <= dh { dw } else { dh };
    if short as u32 > target {
        Some(box_downsample(img, target))
    } else {
        Some(img)
    }
}

/// `out` is a thumbnail the JPEG path can make of these bytes for short edge `t`: the
/// headers read with a non-empty size, and `out` is what `finish_jpeg` makes of pixels
/// of the size that the scaled decode settles on for the request `jpeg_request` asks.
pub open spec fn jpeg_thumb(b: Seq<u8>, t: int, out: &GrayImage) -> bool {
    match jpeg_header(b) {
        Some((w, h, fmt)) => {
            let r = jpeg_request(w as int, h as int, t);
            let size = jpeg_scaled_size(w as int, h as int, r.0, r.1);
            &&& w > 0 && h > 0
            &&& exists|px: Seq<u8>| #[trigger] jpeg_finished(fmt, size.0, size.1, px, t, out)
        },
        None => false,
    }
}

/// DCT-domain scaled JPEG decode through `jpeg_decoder`, then luma and area-average
/// downsampling to short edge `target_short`. The decoder's pixels depend on the
/// machine it runs on, so what is stated is the shape of the result: a gray image
/// made by `finish_jpeg` from pixels of the scaled size.
pub fn decode_jpeg_scaled(bytes: &[u8], target_short: u32) -> (res: Option<GrayImage>)
    ensures
        res matches Some(img) ==> jpeg_thumb(bytes@, target_short as int, &img),
        res matches Some(img) ==> img.wf() && (target_short == 0 || img.width <= target_short
            || img.height <= target_short),
{
    let (w, h, fmt) = match jpeg_read_header(bytes) {
        Some(i) => i,
        None => return None,
    };
    if w == 0 || h == 0 {
        return None;
    }
    let (tgt_w, tgt_h) = jpeg_scale_request(w as u32, h as u32, target_short);
    let ((aw, ah), pixels) = match jpeg_decode_scaled(bytes, tgt_w, tgt_h) {
        Some(r) => r,
        None => return None,
    };
    let ghost px = pixels@;
    let res = finish_jpeg(fmt, aw, ah, pixels, target_short);
    proof {
        if let Some(img) = &res {
            let gray = jpeg_gray(fmt, px);
            assert(jpeg_finished(fmt, aw as int, ah as int, px, target_short as int, img));
            if target_short > 0 && (if aw <= ah { aw as int } else { ah as int }) > target_short {
                lemma_downsample_short_edge(aw as int, ah as int, gray, target_short as int, img);
            }
        }
    }
    res
}

/// The gray samples of a decoded PNG of layout `colors`, or `None` for a layout the
/// thumbnail path does not take.
pub open spec fn png_gray(colors: PngColors, px: Seq<u8>) -> Option<Seq<u8>> {
    match colors {
        PngColors::Luma => Some(px),
        PngColors::LumaA => Some(Seq::new((px.len() / 2) as nat, |i: int| px[2 * i])),
        PngColors::Rgb => Some(packed_luma(px, 3)),
        PngColors::Rgba => Some(packed_luma(px, 4)),
        PngColors::Other => None,
    }
}

/// The thumbnail made from decoded 8-bit PNG samples of size `w` x `h`: converted to
/// gray by layout, its first `w * h` samples taken as the image, then area-average
/// downsampled to `short_edge`. `None` for other layouts or when the gray buffer is
/// too short for the size.
pub fn finish_png(w: u32, h: u32, colors: PngColors, pixels: Vec<u8>, short_edge: u32) -> (res: Option<GrayImage>)
    ensures
        res is Some <==> (png_gray(colors, pixels@) matches Some(g) && g.len() >= w * h),
        res matches Some(out) ==> out.wf() && is_box_downsample(
            w as int,
            h as int,
            png_gray(colors, pixels@).unwrap().take(w * h),
            short_edge as int,
            &out,
        ),
{
    let gray: Vec<u8> = match colors {
        PngColors::Luma => pixels,
        PngColors::LumaA => luma_a_to_luma(&pixels),
        PngColors::Rgb => rgb_to_luma(&pixels),
        PngColors::Rgba => rgba_to_luma(&pixels),
        PngColors::Other => return None,
    };
    assert((w as int) * (h as int) <= 0xFFFF_FFFF * 0xFFFF_FFFF) by (nonlinear_arith)
        requires
            w <= 0xFFFF_FFFF,
            h <= 0xFFFF_FFFF,
    ;
    let n: u64 = (w as u64) * (h as u64);
    if (gray.len() as u64) < n {
        return None;
    }
    let mut gray = gray;
    gray.truncate(n as usize);
    Some(box_downsample(GrayImage { width: w, height: h, pixels: gray }, short_edge))
}

/// The PNG path makes a thumbnail of these bytes: the headers read with a non-empty
/// size (taken as `u32`), a colour layout and 8-bit samples, the samples decode, and
/// their gray conversion holds at least one sample per pixel.
pub open spec fn png_thumb_ok(b: Seq<u8>) -> bool {
    match (png_header(b), png_pixels(b)) {
        (Some((Some((wu, hu)), Some(colors), Some(true))), Some(px)) => {
            let (w, h) = (wu as u32, hu as u32);
            w > 0 && h > 0 && match png_gray(colors, px) {
                Some(g) => g.len() >= w * h,
                None => false,
            }
        },
        _ => false,
    }
}

/// `out` is the thumbnail that the PNG path makes of these bytes for short edge `se`.
pub open spec fn png_thumb(b: Seq<u8>, se: int, out: &GrayImage) -> bool {
    match (png_header(b), png_pixels(b)) {
        (Some((Some((wu, hu)), Some(colors), Some(true))), Some(px)) => match png_gray(colors, px) {
            Some(g) => out.wf() && is_box_downsample(
                (wu as u32) as int,
                (hu as u32) as int,
                g.take((wu as u32) * (hu as u32)),
                se,
                out,
            ),
            None => false,
        },
        _ => false,
    }
}

/// PNG decode through `zune_png` (8-bit samples only), then gray and area-average
/// downsampling to `short_edge`.
pub fn decode_png_zune(bytes: &[u8], short_edge: u32) -> (res: Option<GrayImage>)
    ensures
        res is Some <==> png_thumb_ok(bytes@),
        res matches Some(img) ==> png_thumb(bytes@, short_edge as int, &img),
        res matches Some(img) ==> img.wf() && (short_edge == 0 || img.width <= short_edge
            || img.height <= short_edge),
{
    let (dims, colors, eight) = match png_read_header(bytes) {
        Some(hd) => hd,
        None => return None,
    };
    let (wu, hu) = match dims {
        Some(x) => x,
        None => return None,
    };
    let w = wu as u32;
    let h = hu as u32;
    if w == 0 || h == 0 {
        return None;
    }
    let colors = match colors {
        Some(c) => c,
        None => return None,
    };
    let eight = match eight {
        Some(e) => e,
        None => return None,
    };
    if !eight {
        return None;
    }
    let pixels = match png_decode_pixels(bytes) {
        Some(p) => p,
        None => return None,
    };
    let ghost px = pixels@;
    let res = finish_png(w, h, colors, pixels, short_edge);
    proof {
        if let Some(img) = &res {
            if short_edge > 0 {
                lemma_downsample_short_edge(
                    w as int,
                    h as int,
                    png_gray(colors, px).unwrap().take(w * h),
                    short_edge as int,
                    img,
                );
            }
        }
    }
    res
}

/// A decoded gray image of size `w` x `h` brought down to short edge `short_edge` by
/// area averaging; `None` when the samples do not number `w * h`.
pub fn finish_gray(w: u32, h: u32, pixels: Vec<u8>, short_edge: u32) -> (res: Option<GrayImage>)
    ensures
        res is Some <==> pixels@.len() == w * h,
        res matches Some(out) ==> out.wf() && is_box_downsample(
            w as int,
            h as int,
            pixels@,
            short_edge as int,
            &out,
        ),
{
    assert((w as int) * (h as int) <= 0xFFFF_FFFF * 0xFFFF_FFFF) by (nonlinear_arith)
        requires
            w <= 0xFFFF_FFFF,
            h <= 0xFFFF_FFFF,
    ;
    if pixels.len() as u64 != (w as u64) * (h as u64) {
        return None;
    }
    Some(box_downsample(GrayImage { width: w, height: h, pixels }, short_edge))
}

/// The `image` crate decodes these bytes to a non-empty image with one luma sample
/// per pixel.
pub open spec fn fallback_ok(s: Seq<u8>) -> bool {
    image_decoded(s) matches Some((d, px)) && d.0 > 0 && d.1 > 0 && px.len() == d.0 * d.1
}

/// `out` is the thumbnail that the `image` crate path makes of these bytes for short
/// edge `se`.
pub open spec fn fallback_thumb(s: Seq<u8>, se: int, out: &GrayImage) -> bool {
    match image_decoded(s) {
        Some((d, px)) => out.wf() && is_box_downsample(d.0 as int, d.1 as int, px, se, out),
        None => false,
    }
}

/// Full decode through the `image` crate, to luma, then area-average downsampling to
/// `short_edge`.
pub fn decode_image_fallback(bytes: &[u8], short_edge: u32) -> (res: Option<GrayImage>)
    ensures
        res is Some <==> fallback_ok(bytes@),
        res matches Some(out) ==> fallback_thumb(bytes@, short_edge as int, &out),
        res matches Some(img) ==> (short_edge == 0 || img.width <= short_edge || img.height
            <= short_edge),
{
    let img = match image_load(bytes) {
        Some(i) => i,
        None => return None,
    };
    let (w, h) = image_dimensions(&img);
    if w == 0 || h == 0 {
        return None;
    }
    let luma = image_to_luma(&img);
    let ghost px = luma@;
    let res = finish_gray(w, h, luma, short_edge);
    proof {
        if let Some(out) = &res {
            if short_edge > 0 {
                lemma_downsample_short_edge(w as int, h as int, px, short_edge as int, out);
            }
        }
    }
    res
}

/// Encoded bytes to a grayscale thumbnail whose short edge is at most `short_edge`:
/// JPEG through DCT-scaled decoding, PNG through `zune_png`, each falling back to the
/// `image` crate, which also takes every other format.
pub fn decode_thumbnail(bytes: &[u8], short_edge: u32) -> (res: Option<GrayImage>)
    ensures
        res matches Some(img) ==> img.wf() && (short_edge == 0 || img.width <= short_edge
            || img.height <= short_edge),
        sniff_spec(bytes@) is Jpeg ==> (res is None ==> !fallback_ok(bytes@)),
        sniff_spec(bytes@) is Jpeg ==> (res matches Some(out) ==> jpeg_thumb(
            bytes@,
            short_edge as int,
            &out,
        ) || fallback_thumb(bytes@, short_edge as int, &out)),
        sniff_spec(bytes@) is Png ==> (res is Some <==> png_thumb_ok(bytes@) || fallback_ok(bytes@)),
        sniff_spec(bytes@) is Png ==> (res matches Some(out) ==> if png_thumb_ok(bytes@) {
            png_thumb(bytes@, short_edge as int, &out)
        } else {
            fallback_thumb(bytes@, short_edge as int, &out)
        }),
        !(sniff_spec(bytes@) is Jpeg) && !(sniff_spec(bytes@) is Png) ==> (res is Some
            <==> fallback_ok(bytes@)),
        !(sniff_spec(bytes@) is Jpeg) && !(sniff_spec(bytes@) is Png) ==> (res matches Some(out)
            ==> fallback_thumb(bytes@, short_edge as int, &out)),
{
    match sniff(bytes) {
        Format::Jpeg => match decode_jpeg_scaled(bytes, short_edge) {
            Some(img) => Some(img),
            None => decode_image_fallback(bytes, short_edge),
        },
        Format::Png => match decode_png_zune(bytes, short_edge) {
            Some(img) => Some(img),
            None => decode_image_fallback(bytes, short_edge),
        },
        _ => decode_image_fallback(bytes, short_edge),
    }
}

/// The size of the image that the thumbnail of non-JPEG bytes is made from: the PNG
/// header's size where the PNG path makes it, else the size the `image` crate decodes.
pub open spec fn thumb_source_size(b: Seq<u8>) -> (int, int) {
    if sniff_spec(b) is Png && png_thumb_ok(b) {
        match png_header(b) {
            Some((Some((wu, hu)), _, _)) => ((wu as u32) as int, (hu as u32) as int),
            _ => (0, 0),
        }
    } else {
        match image_decoded(b) {
            Some((d, _)) => (d.0 as int, d.1 as int),
            None => (0, 0),
        }
    }
}

/// For bytes not sniffed as JPEG, the thumbnail that `decode_thumbnail` returns for a
/// short edge `se >= 1` has short edge exactly `min(w, h, se)`, where `w` x `h` is the
/// size of the image it is made from: smaller images keep their size, larger ones come
/// down to `se` on the short side.
pub proof fn lemma_thumbnail_short_edge(b: Seq<u8>, se: int, out: &GrayImage)
    requires
        se >= 1,
        !(sniff_spec(b) is Jpeg),
        sniff_spec(b) is Png ==> if png_thumb_ok(b) {
            png_thumb(b, se, out)
        } else {
            fallback_ok(b) && fallback_thumb(b, se, out)
        },
        !(sniff_spec(b) is Png) ==> fallback_ok(b) && fallback_thumb(b, se, out),
    ensures
        thumb_source_size(b).0 >= 1,
        thumb_source_size(b).1 >= 1,
        short_side(out.width as int, out.height as int) == short_side(
            short_side(thumb_source_size(b).0, thumb_source_size(b).1),
            se,
        ),
{
    if sniff_spec(b) is Png && png_thumb_ok(b) {
        match (png_header(b), png_pixels(b)) {
            (Some((Some((wu, hu)), Some(colors), Some(true))), Some(px)) => {
                let g = png_gray(colors, px).unwrap().take((wu as u32) * (hu as u32));
                lemma_downsample_short_edge((wu as u32) as int, (hu as u32) as int, g, se, out);
            },
            _ => {},
        }
    } else {
        match image_decoded(b) {
            Some((d, px)) => {
                lemma_downsample_short_edge(d.0 as int, d.1 as int, px, se, out);
            },
            None => {},
        }
    }
}

/// Pixel `i` of a buffer.
fn s_at(v: &Vec<u8>, i: usize) -> (b: u8)
    requires
        i < v@.len(),
    ensures
        b == v@[i as int],
{
    v[i]
}

} // verus!
