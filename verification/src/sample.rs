//! Nearest-neighbour subsampling of raw pixel buffers, with RGB to gray conversion.

use vstd::prelude::*;

verus! {

/// BT.601 luma, approximated: `(77 R + 150 G + 29 B) >> 8`.
pub open spec fn luma(r: u8, g: u8, b: u8) -> u8 {
    ((77 * r + 150 * g + 29 * b) / 256) as u8
}

/// The luma weights sum to 256, so a gray pixel keeps its value.
pub proof fn lemma_luma_of_gray(v: u8)
    ensures
        luma(v, v, v) == v,
{
    assert((77 * v + 150 * v + 29 * v) / 256 == v as int) by (nonlinear_arith);
}

/// Luma of one pixel.
pub fn luma_of(r: u8, g: u8, b: u8) -> (y: u8)
    ensures
        y == luma(r, g, b),
        y as int == (77 * r + 150 * g + 29 * b) / 256,
{
    let v: u32 = 77 * r as u32 + 150 * g as u32 + 29 * b as u32;
    assert(v >> 8u32 == v / 256) by (bit_vector);
    assert(v / 256 <= 255);
    (v >> 8u32) as u8
}

pub open spec fn max1(v: int) -> int {
    if v < 1 {
        1
    } else {
        v
    }
}

/// Integer stride that brings the short edge down to about `target` pixels (at least 1).
pub open spec fn stride_for(width: int, height: int, target: int) -> int {
    let short = max1(if width <= height { width } else { height });
    max1(short / max1(target))
}

/// Stride that reduces the short edge to about `target` pixels.
pub fn subsample_stride(width: u32, height: u32, target: u32) -> (stride: u32)
    ensures
        stride == stride_for(width as int, height as int, target as int),
        stride >= 1,
        stride <= width || stride <= 1,
        stride <= height || stride <= 1,
{
    let m = if width <= height { width } else { height };
    let short = if m < 1 { 1 } else { m };
    let t = if target < 1 { 1 } else { target };
    let q = short / t;
    if q < 1 {
        1
    } else {
        q
    }
}

/// With `target` at least 1, the stride brings the short edge to at least `target` and
/// fewer than `2 * target` pixels when it is at least `target`; below `2 * target` the
/// image is kept whole (stride 1).
pub proof fn lemma_stride_short_edge(width: u32, height: u32, target: u32)
    requires
        target >= 1,
    ensures
        ({
            let short = if width <= height { width as int } else { height as int };
            let s = stride_for(width as int, height as int, target as int);
            &&& short >= target ==> target <= short / s < 2 * target
            &&& short < 2 * target ==> s == 1
        }),
{
    let short = if width <= height { width as int } else { height as int };
    let t = target as int;
    if short >= t {
        let s = short / t;
        assert(s >= 1 && s * t <= short < s * t + t) by (nonlinear_arith)
            requires
                short >= t >= 1,
                s == short / t,
        ;
        assert(t <= short / s < 2 * t) by (nonlinear_arith)
            requires
                s >= 1,
                t >= 1,
                s * t <= short,
                short < s * t + t,
        ;
    }
    if short < 2 * t {
        assert(max1(short) / t <= 1) by (nonlinear_arith)
            requires
                max1(short) < 2 * t || max1(short) == 1,
                t >= 1,
        ;
    }
}

/// Dimensions of the subsampled image: `max(1, dim / stride)`.
pub open spec fn sub_dim(dim: int, stride: int) -> int {
    max1(dim / stride)
}

proof fn lemma_sample_index(sy: int, sx: int, sh: int, sw: int, w: int, h: int, stride: int)
    requires
        1 <= stride,
        1 <= w,
        1 <= h,
        sh == sub_dim(h, stride),
        sw == sub_dim(w, stride),
        0 <= sy < sh,
        0 <= sx < sw,
    ensures
        sy * stride < h,
        sx * stride < w,
        0 <= (sy * stride) * w + sx * stride < w * h,
        1 <= sh <= h,
        1 <= sw <= w,
{
    lemma_sub_dim(h, stride, sy);
    lemma_sub_dim(w, stride, sx);
    assert(0 <= (sy * stride) * w + sx * stride < w * h) by (nonlinear_arith)
        requires
            0 <= sy * stride < h,
            0 <= sx * stride < w,
            1 <= w,
    ;
}

/// Position `i` of a subsampled axis of length `n` samples a position inside the axis.
proof fn lemma_sub_dim(n: int, stride: int, i: int)
    requires
        1 <= stride,
        1 <= n,
        0 <= i < sub_dim(n, stride),
    ensures
        0 <= i * stride < n,
        1 <= sub_dim(n, stride) <= n,
{
    let q = n / stride;
    assert(0 <= q <= n && q * stride <= n) by (nonlinear_arith)
        requires
            1 <= stride,
            1 <= n,
            q == n / stride,
    ;
    if q >= 1 {
        assert(0 <= i * stride < n) by (nonlinear_arith)
            requires
                0 <= i < q,
                q * stride <= n,
                1 <= stride,
        ;
    } else {
        assert(i == 0);
        assert(i * stride == 0) by (nonlinear_arith)
            requires
                i == 0,
        ;
    }
}

/// Nearest-neighbour subsample of a gray image: output pixel (sx, sy) is input pixel
/// (sx * stride, sy * stride).
pub fn subsample_gray(gray: &[u8], width: u32, height: u32, stride: u32) -> (res: (Vec<u8>, u32, u32))
    requires
        gray@.len() == width * height,
        1 <= stride,
        1 <= width,
        1 <= height,
    ensures
        res.1 == sub_dim(width as int, stride as int),
        res.2 == sub_dim(height as int, stride as int),
        res.0@.len() == res.1 * res.2,
        forall|sy: int, sx: int|
            0 <= sy < res.2 && 0 <= sx < res.1 ==> #[trigger] res.0@[sy * res.1 + sx] == gray@[(sy
                * stride) * width + sx * stride],
{
    let sw = if width / stride < 1 { 1 } else { width / stride };
    let sh = if height / stride < 1 { 1 } else { height / stride };
    let mut out: Vec<u8> = Vec::new();
    let mut sy: u32 = 0;
    while sy < sh
        invariant
            gray@.len() == width * height,
            1 <= stride,
            1 <= width,
            1 <= height,
            sw == sub_dim(width as int, stride as int),
            sh == sub_dim(height as int, stride as int),
            1 <= sw,
            0 <= sy <= sh,
            out@.len() == sy * sw,
            forall|py: int, px: int|
                0 <= py < sy && 0 <= px < sw ==> #[trigger] out@[py * sw + px] == gray@[(py * stride)
                    * width + px * stride],
        decreases sh - sy,
    {
        let mut sx: u32 = 0;
        while sx < sw
            invariant
                gray@.len() == width * height,
                1 <= stride,
                1 <= width,
                1 <= height,
                sw == sub_dim(width as int, stride as int),
                sh == sub_dim(height as int, stride as int),
                0 <= sy < sh,
                0 <= sx <= sw,
                out@.len() == sy * sw + sx,
                forall|py: int, px: int|
                    0 <= py < sy && 0 <= px < sw ==> #[trigger] out@[py * sw + px] == gray@[(py
                        * stride) * width + px * stride],
                forall|px: int|
                    0 <= px < sx ==> #[trigger] out@[sy * sw + px] == gray@[(sy * stride) * width + px
                        * stride],
            decreases sw - sx,
        {
            proof {
                lemma_sample_index(sy as int, sx as int, sh as int, sw as int, width as int, height as int, stride as int);
            }
            assert(gray@.len() == gray.len());
            let y = (sy as usize) * (stride as usize);
            let x = (sx as usize) * (stride as usize);
            assert(y * width + x < width * height);
            let idx = y * (width as usize) + x;
            let ghost before = out@;
            out.push(gray[idx]);
            proof {
                assert forall|py: int, px: int|
                    0 <= py < sy && 0 <= px < sw implies #[trigger] out@[py * sw + px] == gray@[(py
                        * stride) * width + px * stride] by {
                    assert(py * sw + px < sy * sw) by (nonlinear_arith)
                        requires
                            py < sy,
                            px < sw,
                    ;
                    assert(out@[py * sw + px] == before[py * sw + px]);
                }
            }
            sx = sx + 1;
        }
        assert((sy + 1) * sw == sy * sw + sw) by (nonlinear_arith);
        sy = sy + 1;
    }
    assert(out@.len() == sw * sh) by (nonlinear_arith)
        requires
            out@.len() == sy * sw,
            sy == sh,
    ;
    (out, sw, sh)
}

/// Subsample and RGB to gray in one pass: output pixel (sx, sy) is the luma of input
/// pixel (sx * stride, sy * stride).
pub fn rgb_to_gray_subsampled(rgb: &[u8], width: u32, height: u32, stride: u32) -> (res: (Vec<u8>, u32, u32))
    requires
        rgb@.len() == width * height * 3,
        1 <= stride,
        1 <= width,
        1 <= height,
    ensures
        res.1 == sub_dim(width as int, stride as int),
        res.2 == sub_dim(height as int, stride as int),
        res.0@.len() == res.1 * res.2,
        forall|sy: int, sx: int|
            0 <= sy < res.2 && 0 <= sx < res.1 ==> {
                let p = 3 * ((sy * stride) * width + sx * stride);
                #[trigger] res.0@[sy * res.1 + sx] == luma(rgb@[p], rgb@[p + 1], rgb@[p + 2])
            },
{
    let sw = if width / stride < 1 { 1 } else { width / stride };
    let sh = if height / stride < 1 { 1 } else { height / stride };
    let mut out: Vec<u8> = Vec::new();
    let mut sy: u32 = 0;
    while sy < sh
        invariant
            rgb@.len() == width * height * 3,
            1 <= stride,
            1 <= width,
            1 <= height,
            sw == sub_dim(width as int, stride as int),
            sh == sub_dim(height as int, stride as int),
            1 <= sw,
            0 <= sy <= sh,
            out@.len() == sy * sw,
            forall|py: int, px: int|
                0 <= py < sy && 0 <= px < sw ==> {
                    let p = 3 * ((py * stride) * width + px * stride);
                    #[trigger] out@[py * sw + px] == luma(rgb@[p], rgb@[p + 1], rgb@[p + 2])
                },
        decreases sh - sy,
    {
        let mut sx: u32 = 0;
        while sx < sw
            invariant
                rgb@.len() == width * height * 3,
                1 <= stride,
                1 <= width,
                1 <= height,
                sw == sub_dim(width as int, stride as int),
                sh == sub_dim(height as int, stride as int),
                0 <= sy < sh,
                0 <= sx <= sw,
                out@.len() == sy * sw + sx,
                forall|py: int, px: int|
                    0 <= py < sy && 0 <= px < sw ==> {
                        let p = 3 * ((py * stride) * width + px * stride);
                        #[trigger] out@[py * sw + px] == luma(rgb@[p], rgb@[p + 1], rgb@[p + 2])
                    },
                forall|px: int|
                    0 <= px < sx ==> {
                        let p = 3 * ((sy * stride) * width + px * stride);
                        #[trigger] out@[sy * sw + px] == luma(rgb@[p], rgb@[p + 1], rgb@[p + 2])
                    },
            decreases sw - sx,
        {
            proof {
                lemma_sample_index(sy as int, sx as int, sh as int, sw as int, width as int, height as int, stride as int);
            }
            assert(rgb@.len() == rgb.len());
            let y = (sy as usize) * (stride as usize);
            let x = (sx as usize) * (stride as usize);
            assert(y * width + x < width * height);
            assert(3 * (y * width + x) + 2 < width * height * 3) by (nonlinear_arith)
                requires
                    y * width + x < width * height,
            ;
            let p = 3 * (y * (width as usize) + x);
            let v = luma_of(rgb[p], rgb[p + 1], rgb[p + 2]);
            let ghost before = out@;
            out.push(v);
            proof {
                assert forall|py: int, px: int|
                    0 <= py < sy && 0 <= px < sw implies {
                        let p = 3 * ((py * stride) * width + px * stride);
                        #[trigger] out@[py * sw + px] == luma(rgb@[p], rgb@[p + 1], rgb@[p + 2])
                    } by {
                    assert(py * sw + px < sy * sw) by (nonlinear_arith)
                        requires
                            py < sy,
                            px < sw,
                    ;
                    assert(out@[py * sw + px] == before[py * sw + px]);
                }
            }
            sx = sx + 1;
        }
        assert((sy + 1) * sw == sy * sw + sw) by (nonlinear_arith);
        sy = sy + 1;
    }
    assert(out@.len() == sw * sh) by (nonlinear_arith)
        requires
            out@.len() == sy * sw,
            sy == sh,
    ;
    (out, sw, sh)
}

/// The gray image prepared for scoring: `None` when the buffer does not hold
/// `width * height` bytes; else the image itself when the stride is 1, or its
/// subsample at the stride that brings the short edge to about `target`.
pub fn gray_sample(gray: &[u8], width: u32, height: u32, target: u32) -> (res: Option<(Vec<u8>, u32, u32)>)
    ensures
        res is None <==> gray@.len() != width * height,
        res matches Some((px, w, h)) ==> {
            let stride = stride_for(width as int, height as int, target as int);
            &&& px@.len() == w * h
            &&& stride == 1 ==> px@ == gray@ && w == width && h == height
            &&& stride > 1 ==> w == sub_dim(width as int, stride) && h == sub_dim(height as int, stride)
                && forall|sy: int, sx: int|
                0 <= sy < h && 0 <= sx < w ==> #[trigger] px@[sy * w + sx] == gray@[(sy * stride)
                    * width + sx * stride]
        },
{
    assert((width as u64) * (height as u64) <= 0xFFFF_FFFF_FFFF_FFFF) by (nonlinear_arith)
        requires
            width <= 0xFFFF_FFFF,
            height <= 0xFFFF_FFFF,
    ;
    let n: u64 = (width as u64) * (height as u64);
    if gray.len() as u64 != n {
        return None;
    }
    let stride = subsample_stride(width, height, target);
    if stride == 1 {
        let mut copy: Vec<u8> = Vec::new();
        let mut i: usize = 0;
        while i < gray.len()
            invariant
                0 <= i <= gray@.len(),
                copy@ == gray@.subrange(0, i as int),
            decreases gray@.len() - i,
        {
            copy.push(gray[i]);
            i = i + 1;
            proof {
                assert(copy@ =~= gray@.subrange(0, i as int));
            }
        }
        proof {
            assert(copy@ =~= gray@);
        }
        Some((copy, width, height))
    } else {
        Some(subsample_gray(gray, width, height, stride))
    }
}

/// The RGB image prepared for scoring as gray: `None` when the buffer does not hold
/// `width * height * 3` bytes or the image is empty; else the luma of its subsample
/// at the stride that brings the short edge to about `target`.
pub fn rgb_sample(rgb: &[u8], width: u32, height: u32, target: u32) -> (res: Option<(Vec<u8>, u32, u32)>)
    ensures
        res is None <==> rgb@.len() != width * height * 3 || width == 0 || height == 0,
        res matches Some((px, w, h)) ==> {
            let stride = stride_for(width as int, height as int, target as int);
            &&& px@.len() == w * h
            &&& w == sub_dim(width as int, stride)
            &&& h == sub_dim(height as int, stride)
            &&& forall|sy: int, sx: int|
                0 <= sy < h && 0 <= sx < w ==> {
                    let p = 3 * ((sy * stride) * width + sx * stride);
                    #[trigger] px@[sy * w + sx] == luma(rgb@[p], rgb@[p + 1], rgb@[p + 2])
                }
        },
{
    assert((width as u128) * (height as u128) * 3 <= 0xFFFF_FFFF_FFFF_FFFF_FFFF_FFFF) by (nonlinear_arith)
        requires
            width <= 0xFFFF_FFFF,
            height <= 0xFFFF_FFFF,
    ;
    let n: u128 = (width as u128) * (height as u128) * 3;
    if rgb.len() as u128 != n || width == 0 || height == 0 {
        return None;
    }
    let stride = subsample_stride(width, height, target);
    Some(rgb_to_gray_subsampled(rgb, width, height, stride))
}

} // verus!
