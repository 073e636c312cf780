//! Integer side of the text score: the gray histogram, the minority-foreground
//! binary mask, and per-block edge and coverage counts. The floating-point
//! normalisations that turn these counts into a score live with the caller.

use vstd::prelude::*;
use crate::simd::{
    binarize, binary_of, count_transitions, transitions, xor_sum, mismatches_upto,
    lemma_xor_sum_binary, seq_sum, sum_upto, sum_u8, lemma_sum_binary_bound,
    lemma_transitions_upto_bound,
};

verus! {

/// Number of the first `k` pixels equal to `v`.
pub open spec fn count_eq(s: Seq<u8>, v: int, k: int) -> nat
    decreases k,
{
    if k <= 0 {
        0
    } else {
        count_eq(s, v, k - 1) + (if s[k - 1] == v { 1nat } else { 0nat })
    }
}

/// Number of the first `k` pixels at or below `t`.
pub open spec fn count_le(s: Seq<u8>, t: int, k: int) -> nat
    decreases k,
{
    if k <= 0 {
        0
    } else {
        count_le(s, t, k - 1) + (if s[k - 1] <= t { 1nat } else { 0nat })
    }
}

/// `h` is the 256-bin histogram of `s`.
pub open spec fn is_histogram(h: Seq<u32>, s: Seq<u8>) -> bool {
    h.len() == 256 && forall|v: int| 0 <= v < 256 ==> #[trigger] h[v] == count_eq(s, v, s.len() as int)
}

proof fn lemma_count_eq_bound(s: Seq<u8>, v: int, k: int)
    requires
        0 <= k,
    ensures
        count_eq(s, v, k) <= k,
    decreases k,
{
    if k > 0 {
        lemma_count_eq_bound(s, v, k - 1);
    }
}

/// 256-bin histogram of the gray values.
pub fn histogram(gray: &[u8]) -> (hist: Vec<u32>)
    requires
        gray@.len() <= u32::MAX,
    ensures
        is_histogram(hist@, gray@),
{
    let mut hist: Vec<u32> = Vec::new();
    let mut v: usize = 0;
    while v < 256
        invariant
            0 <= v <= 256,
            hist@.len() == v,
            forall|j: int| 0 <= j < v ==> #[trigger] hist@[j] == 0,
        decreases 256 - v,
    {
        hist.push(0);
        v = v + 1;
    }
    let mut i: usize = 0;
    while i < gray.len()
        invariant
            0 <= i <= gray@.len(),
            gray@.len() <= u32::MAX,
            hist@.len() == 256,
            forall|j: int| 0 <= j < 256 ==> #[trigger] hist@[j] == count_eq(gray@, j, i as int),
        decreases gray@.len() - i,
    {
        let p = gray[i] as usize;
        proof {
            lemma_count_eq_bound(gray@, p as int, i as int);
        }
        hist[p] = hist[p] + 1;
        i = i + 1;
    }
    hist
}

/// Sum of the first `k` histogram bins.
pub open spec fn bins_upto(h: Seq<u32>, k: int) -> nat
    decreases k,
{
    if k <= 0 {
        0
    } else {
        bins_upto(h, k - 1) + h[k - 1] as nat
    }
}

proof fn lemma_count_le_split(s: Seq<u8>, t: int, k: int)
    requires
        0 <= k <= s.len(),
        0 <= t,
    ensures
        count_le(s, t, k) == count_le(s, t - 1, k) + count_eq(s, t, k),
    decreases k,
{
    if k > 0 {
        lemma_count_le_split(s, t, k - 1);
    }
}

proof fn lemma_count_le_neg(s: Seq<u8>, k: int)
    requires
        0 <= k <= s.len(),
    ensures
        count_le(s, -1, k) == 0,
    decreases k,
{
    if k > 0 {
        lemma_count_le_neg(s, k - 1);
    }
}

/// The first `t + 1` bins of the histogram add up to the pixels at or below `t`.
proof fn lemma_bins_count_le(h: Seq<u32>, s: Seq<u8>, t: int)
    requires
        is_histogram(h, s),
        -1 <= t < 256,
    ensures
        bins_upto(h, t + 1) == count_le(s, t, s.len() as int),
    decreases t + 1,
{
    if t < 0 {
        lemma_count_le_neg(s, s.len() as int);
    } else {
        lemma_bins_count_le(h, s, t - 1);
        lemma_count_le_split(s, t, s.len() as int);
    }
}

proof fn lemma_count_le_bound(s: Seq<u8>, t: int, k: int)
    requires
        0 <= k,
    ensures
        count_le(s, t, k) <= k,
    decreases k,
{
    if k > 0 {
        lemma_count_le_bound(s, t, k - 1);
    }
}

/// Whether the pixels at or below the threshold are the foreground: they are when
/// they are not the majority.
pub open spec fn fg_is_below(s: Seq<u8>, t: u8) -> bool {
    let below = count_le(s, t as int, s.len() as int);
    below <= s.len() - below
}

/// The binary mask for threshold `t`: 1 marks the minority class.
pub open spec fn minority_mask(s: Seq<u8>, t: u8) -> Seq<u8> {
    Seq::new(s.len(), |i: int| binary_of(s[i], t, fg_is_below(s, t)))
}

/// Binarizes `gray` at `best_thr`, labelling the smaller class foreground (1): the
/// pixels at or below the threshold when they are no more than those above it, else
/// those above it. `hist` is the histogram of `gray`.
pub fn otsu_binarize(gray: &[u8], hist: &Vec<u32>, best_thr: u8) -> (out: Vec<u8>)
    requires
        gray@.len() <= u32::MAX,
        is_histogram(hist@, gray@),
    ensures
        out@ == minority_mask(gray@, best_thr),
{
    let ghost s = gray@;
    let mut below: u32 = 0;
    let mut t: usize = 0;
    while t <= best_thr as usize
        invariant
            0 <= t <= best_thr + 1,
            is_histogram(hist@, s),
            s.len() <= u32::MAX,
            below == bins_upto(hist@, t as int),
        decreases best_thr + 1 - t,
    {
        proof {
            lemma_bins_count_le(hist@, s, t as int);
            lemma_count_le_bound(s, t as int, s.len() as int);
        }
        below = below + hist[t];
        t = t + 1;
    }
    proof {
        lemma_bins_count_le(hist@, s, best_thr as int);
        lemma_count_le_bound(s, best_thr as int, s.len() as int);
    }
    let above = (gray.len() as u32) - below;
    let fg_below = below <= above;
    let mut out: Vec<u8> = Vec::new();
    let mut i: usize = 0;
    while i < gray.len()
        invariant
            s == gray@,
            0 <= i <= s.len(),
            out@.len() == i,
        decreases s.len() - i,
    {
        out.push(0);
        i = i + 1;
    }
    binarize(gray, out.as_mut_slice(), best_thr, fg_below);
    proof {
        assert(out@ =~= minority_mask(s, best_thr));
    }
    out
}

/// The mask is 0/1 valued.
pub proof fn lemma_mask_binary(s: Seq<u8>, t: u8)
    ensures
        forall|i: int| 0 <= i < s.len() ==> #[trigger] minority_mask(s, t)[i] <= 1,
{
}

proof fn lemma_mask_sum(s: Seq<u8>, t: u8, fgb: bool, k: int)
    requires
        0 <= k <= s.len(),
    ensures
        sum_upto(Seq::new(s.len(), |i: int| binary_of(s[i], t, fgb)), k) == if fgb {
            count_le(s, t as int, k)
        } else {
            (k - count_le(s, t as int, k)) as nat
        },
    decreases k,
{
    if k > 0 {
        lemma_mask_sum(s, t, fgb, k - 1);
        lemma_count_le_bound(s, t as int, k - 1);
    }
}

/// The foreground of the mask is never the majority: it is the smaller of the two
/// classes that the threshold separates.
pub proof fn lemma_foreground_is_minority(s: Seq<u8>, t: u8)
    ensures
        seq_sum(minority_mask(s, t)) == if fg_is_below(s, t) {
            count_le(s, t as int, s.len() as int)
        } else {
            (s.len() - count_le(s, t as int, s.len() as int)) as nat
        },
        2 * seq_sum(minority_mask(s, t)) <= s.len(),
{
    lemma_mask_sum(s, t, fg_is_below(s, t), s.len() as int);
    lemma_count_le_bound(s, t as int, s.len() as int);
}

/// The photographic negative of an image.
pub open spec fn invert(s: Seq<u8>) -> Seq<u8> {
    Seq::new(s.len(), |i: int| (255 - s[i]) as u8)
}

proof fn lemma_count_le_invert(s: Seq<u8>, t: int, k: int)
    requires
        0 <= k <= s.len(),
        0 <= t < 255,
    ensures
        count_le(invert(s), 254 - t, k) + count_le(s, t, k) == k,
    decreases k,
{
    if k > 0 {
        lemma_count_le_invert(s, t, k - 1);
    }
}

/// Polarity invariance: dark ink on a light page and light ink on a dark page give the
/// same mask. The negative of an image, binarized at the mirrored threshold
/// `254 - t`, yields the same mask as the image at `t`, whenever the two classes
/// are not of equal size.
pub proof fn lemma_polarity_invariance(s: Seq<u8>, t: u8)
    requires
        t < 255,
        2 * count_le(s, t as int, s.len() as int) != s.len(),
    ensures
        minority_mask(invert(s), (254 - t) as u8) == minority_mask(s, t),
{
    let n = s.len() as int;
    lemma_count_le_invert(s, t as int, n);
    let below = count_le(s, t as int, n);
    let inv = invert(s);
    assert(inv.len() == n);
    assert(count_le(inv, (254 - t) as u8 as int, n) == n - below);
    let fg = fg_is_below(s, t);
    let fg2 = fg_is_below(inv, (254 - t) as u8);
    assert(fg2 == !fg);
    assert forall|i: int| 0 <= i < n implies #[trigger] minority_mask(inv, (254 - t) as u8)[i]
        == minority_mask(s, t)[i] by {
        assert(inv[i] == 255 - s[i]);
    }
    assert(minority_mask(inv, (254 - t) as u8) =~= minority_mask(s, t));
}

/// The row of a block: `w` pixels of row `y0 + yy` from column `x0`.
pub open spec fn block_row(s: Seq<u8>, stride: int, x0: int, y0: int, w: int, yy: int) -> Seq<u8> {
    s.subrange((y0 + yy) * stride + x0, (y0 + yy) * stride + x0 + w)
}

/// The block lies inside an image of `len` pixels with rows of `stride` pixels.
pub open spec fn block_inside(len: int, stride: int, x0: int, y0: int, w: int, h: int) -> bool {
    &&& 1 <= stride
    &&& 0 <= x0
    &&& 0 <= y0
    &&& 0 <= w
    &&& 0 <= h
    &&& x0 + w <= stride
    &&& (y0 + h) * stride <= len
}

proof fn lemma_row_in_block(len: int, stride: int, x0: int, y0: int, w: int, h: int, yy: int)
    requires
        block_inside(len, stride, x0, y0, w, h),
        0 <= yy < h,
    ensures
        y0 + h <= len,
        0 <= (y0 + yy) * stride + x0,
        (y0 + yy) * stride + x0 + w <= len,
        (y0 + yy + 1) * stride + x0 + w <= len + stride,
{
    assert(y0 + h <= (y0 + h) * stride) by (nonlinear_arith)
        requires
            1 <= stride,
            0 <= y0,
            0 <= h,
    ;
    vstd::arithmetic::mul::lemma_mul_is_distributive_add_other_way(stride, y0 + yy, 1);
    vstd::arithmetic::mul::lemma_mul_inequality(y0 + yy + 1, y0 + h, stride);
    vstd::arithmetic::mul::lemma_mul_nonnegative(y0 + yy, stride);
    vstd::arithmetic::mul::lemma_mul_is_distributive_add_other_way(stride, y0 + yy + 1, 1);
}

/// Transitions summed over the first `k` rows of a block.
pub open spec fn h_edges_upto(s: Seq<u8>, stride: int, x0: int, y0: int, w: int, k: int) -> nat
    decreases k,
{
    if k <= 0 {
        0
    } else {
        h_edges_upto(s, stride, x0, y0, w, k - 1) + transitions(block_row(s, stride, x0, y0, w, k - 1))
    }
}

/// Horizontal edge count of a block: value changes between neighbours in each row.
pub fn horizontal_edge_count_block(binary: &[u8], stride: u32, x0: u32, y0: u32, w: u32, h: u32) -> (edges: u32)
    requires
        block_inside(binary@.len() as int, stride as int, x0 as int, y0 as int, w as int, h as int),
        binary@.len() <= u32::MAX,
    ensures
        edges == h_edges_upto(binary@, stride as int, x0 as int, y0 as int, w as int, h as int),
{
    let ghost s = binary@;
    let mut edges: u32 = 0;
    let mut yy: u32 = 0;
    while yy < h
        invariant
            block_inside(s.len() as int, stride as int, x0 as int, y0 as int, w as int, h as int),
            s == binary@,
            s.len() <= u32::MAX,
            0 <= yy <= h,
            edges == h_edges_upto(s, stride as int, x0 as int, y0 as int, w as int, yy as int),
            edges <= yy * w,
        decreases h - yy,
    {
        proof {
            lemma_row_in_block(s.len() as int, stride as int, x0 as int, y0 as int, w as int, h as int, yy as int);
            assert((yy + 1) * w <= h * w) by (nonlinear_arith)
                requires
                    yy < h,
            ;
            assert(h * w <= s.len()) by (nonlinear_arith)
                requires
                    (y0 + h) * stride <= s.len(),
                    w <= stride,
                    0 <= y0,
            ;
        }
        let row_start = (y0 as usize + yy as usize) * (stride as usize) + x0 as usize;
        let row = vstd::slice::slice_subrange(binary, row_start, row_start + w as usize);
        let n = count_transitions(row);
        proof {
            let r = block_row(s, stride as int, x0 as int, y0 as int, w as int, yy as int);
            assert(row@ == r);
            if r.len() >= 2 {
                lemma_transitions_upto_bound(r, r.len() - 1);
            }
            assert((yy + 1) * w == yy * w + w) by (nonlinear_arith);
        }
        edges = edges + n;
        yy = yy + 1;
    }
    edges
}

/// Differing vertical neighbours summed over the first `k` row pairs of a block.
pub open spec fn v_edges_upto(s: Seq<u8>, stride: int, x0: int, y0: int, w: int, k: int) -> nat
    decreases k,
{
    if k <= 0 {
        0
    } else {
        v_edges_upto(s, stride, x0, y0, w, k - 1) + mismatches_upto(
            block_row(s, stride, x0, y0, w, k - 1),
            block_row(s, stride, x0, y0, w, k),
            w,
        )
    }
}

/// All pixels are 0 or 1.
pub open spec fn is_binary(s: Seq<u8>) -> bool {
    forall|i: int| 0 <= i < s.len() ==> #[trigger] s[i] <= 1
}

proof fn lemma_mismatch_bound(a: Seq<u8>, b: Seq<u8>, k: int)
    requires
        0 <= k,
    ensures
        mismatches_upto(a, b, k) <= k,
    decreases k,
{
    if k > 0 {
        lemma_mismatch_bound(a, b, k - 1);
    }
}

/// Vertical edge count of a binary block: differing pixels between each row and the
/// next.
pub fn vertical_edge_count_block(binary: &[u8], stride: u32, x0: u32, y0: u32, w: u32, h: u32) -> (edges: u32)
    requires
        block_inside(binary@.len() as int, stride as int, x0 as int, y0 as int, w as int, h as int),
        binary@.len() <= u32::MAX,
        is_binary(binary@),
    ensures
        edges == v_edges_upto(binary@, stride as int, x0 as int, y0 as int, w as int, h - 1),
{
    let ghost s = binary@;
    if h < 2 {
        return 0;
    }
    let mut edges: u32 = 0;
    let mut yy: u32 = 0;
    while yy < h - 1
        invariant
            block_inside(s.len() as int, stride as int, x0 as int, y0 as int, w as int, h as int),
            s == binary@,
            s.len() <= u32::MAX,
            is_binary(s),
            h >= 2,
            0 <= yy <= h - 1,
            edges == v_edges_upto(s, stride as int, x0 as int, y0 as int, w as int, yy as int),
            edges <= yy * w,
        decreases h - 1 - yy,
    {
        proof {
            lemma_row_in_block(s.len() as int, stride as int, x0 as int, y0 as int, w as int, h as int, yy as int);
            lemma_row_in_block(s.len() as int, stride as int, x0 as int, y0 as int, w as int, h as int, (yy + 1) as int);
            assert((yy + 1) * w <= h * w) by (nonlinear_arith)
                requires
                    yy < h,
            ;
            assert(h * w <= s.len()) by (nonlinear_arith)
                requires
                    (y0 + h) * stride <= s.len(),
                    w <= stride,
                    0 <= y0,
            ;
        }
        let a_start = (y0 as usize + yy as usize) * (stride as usize) + x0 as usize;
        let b_start = (y0 as usize + yy as usize + 1) * (stride as usize) + x0 as usize;
        let row_a = vstd::slice::slice_subrange(binary, a_start, a_start + w as usize);
        let row_b = vstd::slice::slice_subrange(binary, b_start, b_start + w as usize);
        proof {
            let ra = block_row(s, stride as int, x0 as int, y0 as int, w as int, yy as int);
            let rb = block_row(s, stride as int, x0 as int, y0 as int, w as int, yy + 1);
            assert(row_a@ == ra);
            assert(row_b@ == rb);
            assert forall|i: int| 0 <= i < ra.len() implies #[trigger] ra[i] <= 1 by {
                assert(ra[i] == s[a_start + i]);
            }
            assert forall|i: int| 0 <= i < rb.len() implies #[trigger] rb[i] <= 1 by {
                assert(rb[i] == s[b_start + i]);
            }
            lemma_xor_sum_binary(ra, rb, w as int);
            lemma_mismatch_bound(ra, rb, w as int);
            assert((yy + 1) * w == yy * w + w) by (nonlinear_arith);
        }
        let n = xor_sum(row_a, row_b);
        edges = edges + n;
        yy = yy + 1;
    }
    edges
}

/// Foreground count of each row of a block.
pub fn row_fg_counts_block(binary: &[u8], stride: u32, x0: u32, y0: u32, w: u32, h: u32) -> (counts: Vec<u32>)
    requires
        block_inside(binary@.len() as int, stride as int, x0 as int, y0 as int, w as int, h as int),
        binary@.len() <= u32::MAX,
        is_binary(binary@),
    ensures
        counts@.len() == h,
        forall|yy: int|
            0 <= yy < h ==> #[trigger] counts@[yy] == seq_sum(
                block_row(binary@, stride as int, x0 as int, y0 as int, w as int, yy),
            ),
{
    let ghost s = binary@;
    let mut counts: Vec<u32> = Vec::new();
    let mut yy: u32 = 0;
    while yy < h
        invariant
            block_inside(s.len() as int, stride as int, x0 as int, y0 as int, w as int, h as int),
            s == binary@,
            s.len() <= u32::MAX,
            is_binary(s),
            0 <= yy <= h,
            counts@.len() == yy,
            forall|j: int|
                0 <= j < yy ==> #[trigger] counts@[j] == seq_sum(
                    block_row(s, stride as int, x0 as int, y0 as int, w as int, j),
                ),
        decreases h - yy,
    {
        proof {
            lemma_row_in_block(s.len() as int, stride as int, x0 as int, y0 as int, w as int, h as int, yy as int);
        }
        let row_start = (y0 as usize + yy as usize) * (stride as usize) + x0 as usize;
        let row = vstd::slice::slice_subrange(binary, row_start, row_start + w as usize);
        proof {
            let r = block_row(s, stride as int, x0 as int, y0 as int, w as int, yy as int);
            assert(row@ == r);
            assert forall|i: int| 0 <= i < r.len() implies #[trigger] r[i] <= 1 by {
                assert(r[i] == s[row_start + i]);
            }
            lemma_sum_binary_bound(r, r.len() as int);
        }
        counts.push(sum_u8(row));
        yy = yy + 1;
    }
    counts
}

/// Foreground count of column `xx` of a block over its first `k` rows.
pub open spec fn col_sum_upto(s: Seq<u8>, stride: int, x0: int, y0: int, xx: int, k: int) -> nat
    decreases k,
{
    if k <= 0 {
        0
    } else {
        col_sum_upto(s, stride, x0, y0, xx, k - 1) + s[(y0 + k - 1) * stride + x0 + xx] as nat
    }
}

/// Foreground count of each column of a binary block.
pub fn column_fg_counts_block(binary: &[u8], stride: u32, x0: u32, y0: u32, w: u32, h: u32) -> (counts: Vec<u32>)
    requires
        block_inside(binary@.len() as int, stride as int, x0 as int, y0 as int, w as int, h as int),
        binary@.len() <= u32::MAX,
        is_binary(binary@),
    ensures
        counts@.len() == w,
        forall|xx: int|
            0 <= xx < w ==> #[trigger] counts@[xx] == col_sum_upto(
                binary@,
                stride as int,
                x0 as int,
                y0 as int,
                xx,
                h as int,
            ),
{
    let ghost s = binary@;
    let mut counts: Vec<u32> = Vec::new();
    let mut k: u32 = 0;
    while k < w
        invariant
            0 <= k <= w,
            counts@.len() == k,
            forall|j: int| 0 <= j < k ==> #[trigger] counts@[j] == 0,
        decreases w - k,
    {
        counts.push(0);
        k = k + 1;
    }
    let mut yy: u32 = 0;
    while yy < h
        invariant
            block_inside(s.len() as int, stride as int, x0 as int, y0 as int, w as int, h as int),
            s == binary@,
            s.len() <= u32::MAX,
            is_binary(s),
            0 <= yy <= h,
            counts@.len() == w,
            forall|j: int|
                0 <= j < w ==> #[trigger] counts@[j] == col_sum_upto(
                    s,
                    stride as int,
                    x0 as int,
                    y0 as int,
                    j,
                    yy as int,
                ),
            forall|j: int|
                0 <= j < w ==> #[trigger] col_sum_upto(s, stride as int, x0 as int, y0 as int, j, yy as int)
                    <= yy,
        decreases h - yy,
    {
        proof {
            lemma_row_in_block(s.len() as int, stride as int, x0 as int, y0 as int, w as int, h as int, yy as int);
        }
        let row_start = (y0 as usize + yy as usize) * (stride as usize) + x0 as usize;
        let mut xx: u32 = 0;
        while xx < w
            invariant
                block_inside(s.len() as int, stride as int, x0 as int, y0 as int, w as int, h as int),
                s == binary@,
                s.len() <= u32::MAX,
                is_binary(s),
                0 <= yy < h,
                yy < s.len(),
                row_start == (y0 + yy) * stride + x0,
                row_start + w <= s.len(),
                0 <= xx <= w,
                counts@.len() == w,
                forall|j: int|
                    0 <= j < xx ==> #[trigger] counts@[j] == col_sum_upto(
                        s,
                        stride as int,
                        x0 as int,
                        y0 as int,
                        j,
                        yy + 1,
                    ),
                forall|j: int|
                    xx <= j < w ==> #[trigger] counts@[j] == col_sum_upto(
                        s,
                        stride as int,
                        x0 as int,
                        y0 as int,
                        j,
                        yy as int,
                    ),
                forall|j: int|
                    0 <= j < w ==> #[trigger] col_sum_upto(s, stride as int, x0 as int, y0 as int, j, yy as int)
                        <= yy,
            decreases w - xx,
        {
            let b = binary[row_start + xx as usize];
            counts[xx as usize] = counts[xx as usize] + b as u32;
            xx = xx + 1;
        }
        proof {
            assert forall|j: int| 0 <= j < w implies #[trigger] col_sum_upto(
                s,
                stride as int,
                x0 as int,
                y0 as int,
                j,
                yy + 1,
            ) <= yy + 1 by {
                let idx = (y0 + yy) * stride + x0 + j;
                assert(s[idx] <= 1);
                assert(col_sum_upto(s, stride as int, x0 as int, y0 as int, j, yy as int) <= yy);
            }
        }
        yy = yy + 1;
    }
    counts
}

/// Cells of a `grid` x `grid` partition: (x0, y0, width, height), row by row; the last
/// column and row take the remainder.
pub open spec fn grid_cell(width: int, height: int, grid: int, gx: int, gy: int) -> (u32, u32, u32, u32) {
    let cw = width / grid;
    let ch = height / grid;
    (
        (gx * cw) as u32,
        (gy * ch) as u32,
        (if gx + 1 == grid { width - gx * cw } else { cw }) as u32,
        (if gy + 1 == grid { height - gy * ch } else { ch }) as u32,
    )
}

/// The cells of the regional analysis, or `None` when a cell would be narrower or
/// shorter than 16 pixels.
pub fn grid_cells(width: u32, height: u32, grid: u32) -> (cells: Option<Vec<(u32, u32, u32, u32)>>)
    requires
        1 <= grid <= 256,
    ensures
        cells is None <==> width / grid < 16 || height / grid < 16,
        cells matches Some(c) ==> c@.len() == grid * grid && forall|gy: int, gx: int|
            0 <= gy < grid && 0 <= gx < grid ==> #[trigger] c@[gy * grid + gx] == grid_cell(
                width as int,
                height as int,
                grid as int,
                gx,
                gy,
            ),
{
    let cw = width / grid;
    let ch = height / grid;
    if cw < 16 || ch < 16 {
        return None;
    }
    let mut cells: Vec<(u32, u32, u32, u32)> = Vec::new();
    let mut gy: u32 = 0;
    while gy < grid
        invariant
            1 <= grid <= 256,
            cw == width / grid,
            ch == height / grid,
            0 <= gy <= grid,
            cells@.len() == gy * grid,
            forall|py: int, px: int|
                0 <= py < gy && 0 <= px < grid ==> #[trigger] cells@[py * grid + px] == grid_cell(
                    width as int,
                    height as int,
                    grid as int,
                    px,
                    py,
                ),
        decreases grid - gy,
    {
        let mut gx: u32 = 0;
        while gx < grid
            invariant
                1 <= grid <= 256,
                cw == width / grid,
                ch == height / grid,
                0 <= gy < grid,
                0 <= gx <= grid,
                cells@.len() == gy * grid + gx,
                forall|py: int, px: int|
                    0 <= py < gy && 0 <= px < grid ==> #[trigger] cells@[py * grid + px] == grid_cell(
                        width as int,
                        height as int,
                        grid as int,
                        px,
                        py,
                    ),
                forall|px: int|
                    0 <= px < gx ==> #[trigger] cells@[gy * grid + px] == grid_cell(
                        width as int,
                        height as int,
                        grid as int,
                        px,
                        gy as int,
                    ),
            decreases grid - gx,
        {
            proof {
                assert(gx * cw <= width && gy * ch <= height) by (nonlinear_arith)
                    requires
                        gx < grid,
                        gy < grid,
                        cw == width / grid,
                        ch == height / grid,
                        grid >= 1,
                ;
            }
            let x0 = gx * cw;
            let y0 = gy * ch;
            let cell_w = if gx + 1 == grid { width - x0 } else { cw };
            let cell_h = if gy + 1 == grid { height - y0 } else { ch };
            let ghost before = cells@;
            cells.push((x0, y0, cell_w, cell_h));
            proof {
                assert forall|py: int, px: int|
                    0 <= py < gy && 0 <= px < grid implies #[trigger] cells@[py * grid + px] == grid_cell(
                        width as int,
                        height as int,
                        grid as int,
                        px,
                        py,
                    ) by {
                    assert(py * grid + px < gy * grid) by (nonlinear_arith)
                        requires
                            py < gy,
                            px < grid,
                    ;
                    assert(cells@[py * grid + px] == before[py * grid + px]);
                }
            }
            gx = gx + 1;
        }
        assert((gy + 1) * grid == gy * grid + grid) by (nonlinear_arith);
        gy = gy + 1;
    }
    Some(cells)
}

/// The cell, along an axis of length `n` cut into `grid` parts, that holds position `x`.
pub open spec fn cell_of(n: int, grid: int, x: int) -> int {
    let q = x / (n / grid);
    if q < grid - 1 {
        q
    } else {
        grid - 1
    }
}

/// Along an axis of length `n` cut into `grid` parts of `n / grid`, the last taking the
/// remainder: part `k` ends inside the axis, and holds `x` exactly when `k` is `x`'s part.
proof fn lemma_axis_cell(n: int, grid: int, x: int, k: int)
    requires
        1 <= grid,
        n / grid >= 1,
        0 <= k < grid,
    ensures
        ({
            let c = n / grid;
            let len = if k + 1 == grid { n - k * c } else { c };
            &&& 0 <= k * c
            &&& 0 <= len
            &&& k * c + len <= n
            &&& 0 <= x < n ==> (k * c <= x < k * c + len <==> k == cell_of(n, grid, x))
            &&& 0 <= x < n ==> 0 <= cell_of(n, grid, x) < grid
        }),
{
    let c = n / grid;
    vstd::arithmetic::div_mod::lemma_fundamental_div_mod(n, grid);
    vstd::arithmetic::div_mod::lemma_mod_bound(n, grid);
    assert(0 <= k * c && k * c + c <= grid * c) by (nonlinear_arith)
        requires
            0 <= k < grid,
            c >= 1,
    ;
    if 0 <= x < n {
        let q = x / c;
        vstd::arithmetic::div_mod::lemma_fundamental_div_mod(x, c);
        vstd::arithmetic::div_mod::lemma_mod_bound(x, c);
        assert(q * c <= x < q * c + c) by (nonlinear_arith)
            requires
                x == c * q + x % c,
                0 <= x % c < c,
        ;
        assert(q >= 0) by (nonlinear_arith)
            requires
                q * c <= x,
                x < q * c + c,
                x >= 0,
                c >= 1,
        ;
        if k + 1 == grid {
            assert(k * c <= x <==> q >= k) by (nonlinear_arith)
                requires
                    q * c <= x < q * c + c,
                    c >= 1,
            ;
        } else {
            assert(k * c <= x < k * c + c <==> q == k) by (nonlinear_arith)
                requires
                    q * c <= x < q * c + c,
                    c >= 1,
            ;
        }
    }
}

/// The cells of the regional grid tile the image: each cell lies inside it, and a
/// pixel lies in cell `(gx, gy)` exactly when `gx` and `gy` are its column and row of
/// cells, so every pixel lies in exactly one cell.
pub proof fn lemma_grid_partition(width: u32, height: u32, grid: u32, gx: int, gy: int, x: int, y: int)
    requires
        1 <= grid,
        width / grid >= 1,
        height / grid >= 1,
        0 <= gx < grid,
        0 <= gy < grid,
    ensures
        ({
            let c = grid_cell(width as int, height as int, grid as int, gx, gy);
            &&& c.0 + c.2 <= width
            &&& c.1 + c.3 <= height
            &&& 0 <= x < width && 0 <= y < height ==> (c.0 <= x < c.0 + c.2 && c.1 <= y < c.1 + c.3
                <==> gx == cell_of(width as int, grid as int, x) && gy == cell_of(
                height as int,
                grid as int,
                y,
            ))
        }),
        0 <= x < width ==> 0 <= cell_of(width as int, grid as int, x) < grid,
        0 <= y < height ==> 0 <= cell_of(height as int, grid as int, y) < grid,
{
    lemma_axis_cell(width as int, grid as int, x, gx);
    lemma_axis_cell(height as int, grid as int, y, gy);
}

} // verus!
