//! Byte kernels of the scoring pipeline: binarization, transition counting,
//! summing and row comparison. Written once, portably, with exact contracts.

use vstd::prelude::*;

verus! {

/// The binary value of a gray pixel: foreground (1) below-or-at the threshold when
/// `below_is_fg`, else above it.
pub open spec fn binary_of(g: u8, threshold: u8, below_is_fg: bool) -> u8 {
    if below_is_fg {
        if g <= threshold { 1 } else { 0 }
    } else {
        if g > threshold { 1 } else { 0 }
    }
}

/// `dst[i] = binary_of(gray[i], threshold, below_is_fg)` for every `i`.
pub fn binarize(gray: &[u8], dst: &mut [u8], threshold: u8, below_is_fg: bool)
    requires
        gray@.len() == old(dst)@.len(),
    ensures
        final(dst)@.len() == gray@.len(),
        forall|i: int|
            0 <= i < gray@.len() ==> #[trigger] final(dst)@[i] == binary_of(gray@[i], threshold, below_is_fg),
{
    let n = gray.len();
    let mut i: usize = 0;
    while i < n
        invariant
            n == gray@.len(),
            dst@.len() == n,
            0 <= i <= n,
            forall|j: int| 0 <= j < i ==> #[trigger] dst@[j] == binary_of(gray@[j], threshold, below_is_fg),
        decreases n - i,
    {
        let g = gray[i];
        let b: u8 = if below_is_fg {
            if g <= threshold { 1 } else { 0 }
        } else {
            if g > threshold { 1 } else { 0 }
        };
        dst[i] = b;
        i = i + 1;
    }
}

/// Number of positions `i` with `s[i] != s[i + 1]` among the first `k` adjacent pairs.
pub open spec fn transitions_upto(s: Seq<u8>, k: int) -> nat
    decreases k,
{
    if k <= 0 {
        0
    } else {
        transitions_upto(s, k - 1) + (if s[k - 1] != s[k] { 1nat } else { 0nat })
    }
}

/// Number of adjacent pairs that differ.
pub open spec fn transitions(s: Seq<u8>) -> nat {
    if s.len() < 2 {
        0
    } else {
        transitions_upto(s, s.len() - 1)
    }
}

pub proof fn lemma_transitions_upto_bound(s: Seq<u8>, k: int)
    requires
        0 <= k,
    ensures
        transitions_upto(s, k) <= k,
    decreases k,
{
    if k > 0 {
        lemma_transitions_upto_bound(s, k - 1);
    }
}

/// Counts the places where a row changes value.
pub fn count_transitions(row: &[u8]) -> (n: u32)
    requires
        row@.len() <= 0x1_0000_0000,
    ensures
        n == transitions(row@),
{
    if row.len() < 2 {
        return 0;
    }
    let mut edges: u32 = 0;
    let mut x: usize = 0;
    while x < row.len() - 1
        invariant
            2 <= row@.len() <= 0x1_0000_0000,
            0 <= x <= row@.len() - 1,
            edges == transitions_upto(row@, x as int),
        decreases row@.len() - 1 - x,
    {
        proof {
            lemma_transitions_upto_bound(row@, x as int);
        }
        if row[x] != row[x + 1] {
            edges = edges + 1;
        }
        x = x + 1;
    }
    edges
}

/// Sum of the first `k` bytes.
pub open spec fn sum_upto(s: Seq<u8>, k: int) -> nat
    decreases k,
{
    if k <= 0 {
        0
    } else {
        sum_upto(s, k - 1) + s[k - 1] as nat
    }
}

/// Sum of all bytes.
pub open spec fn seq_sum(s: Seq<u8>) -> nat {
    sum_upto(s, s.len() as int)
}

pub proof fn lemma_sum_upto_mono(s: Seq<u8>, a: int, b: int)
    requires
        0 <= a <= b <= s.len(),
    ensures
        sum_upto(s, a) <= sum_upto(s, b),
    decreases b - a,
{
    if a < b {
        lemma_sum_upto_mono(s, a, b - 1);
    }
}

/// A sum of bytes that are each 0 or 1 is at most their number.
pub proof fn lemma_sum_binary_bound(s: Seq<u8>, k: int)
    requires
        0 <= k <= s.len(),
        forall|i: int| 0 <= i < s.len() ==> #[trigger] s[i] <= 1,
    ensures
        sum_upto(s, k) <= k,
    decreases k,
{
    if k > 0 {
        lemma_sum_binary_bound(s, k - 1);
    }
}

/// Sum of the bytes of `buf`.
pub fn sum_u8(buf: &[u8]) -> (total: u32)
    requires
        seq_sum(buf@) <= u32::MAX,
    ensures
        total == seq_sum(buf@),
{
    let mut s: u32 = 0;
    let mut i: usize = 0;
    while i < buf.len()
        invariant
            0 <= i <= buf@.len(),
            seq_sum(buf@) <= u32::MAX,
            s == sum_upto(buf@, i as int),
        decreases buf@.len() - i,
    {
        proof {
            lemma_sum_upto_mono(buf@, (i + 1) as int, buf@.len() as int);
        }
        s = s + buf[i] as u32;
        i = i + 1;
    }
    s
}

/// Sum of `a[i] ^ b[i]` over the first `k` positions.
pub open spec fn xor_sum_upto(a: Seq<u8>, b: Seq<u8>, k: int) -> nat
    decreases k,
{
    if k <= 0 {
        0
    } else {
        xor_sum_upto(a, b, k - 1) + (a[k - 1] ^ b[k - 1]) as nat
    }
}

/// Number of positions among the first `k` where `a` and `b` differ.
pub open spec fn mismatches_upto(a: Seq<u8>, b: Seq<u8>, k: int) -> nat
    decreases k,
{
    if k <= 0 {
        0
    } else {
        mismatches_upto(a, b, k - 1) + (if a[k - 1] != b[k - 1] { 1nat } else { 0nat })
    }
}

/// Sum of the byte-wise XOR of two equally long rows; for rows of 0/1 values this is
/// the number of positions where they differ.
pub fn xor_sum(a: &[u8], b: &[u8]) -> (total: u32)
    requires
        a@.len() == b@.len(),
        xor_sum_upto(a@, b@, a@.len() as int) <= u32::MAX,
    ensures
        total == xor_sum_upto(a@, b@, a@.len() as int),
{
    let mut s: u32 = 0;
    let mut i: usize = 0;
    while i < a.len()
        invariant
            0 <= i <= a@.len(),
            a@.len() == b@.len(),
            xor_sum_upto(a@, b@, a@.len() as int) <= u32::MAX,
            s == xor_sum_upto(a@, b@, i as int),
        decreases a@.len() - i,
    {
        proof {
            lemma_xor_sum_mono(a@, b@, (i + 1) as int, a@.len() as int);
        }
        let x = a[i] ^ b[i];
        s = s + x as u32;
        i = i + 1;
    }
    s
}

pub proof fn lemma_xor_sum_mono(a: Seq<u8>, b: Seq<u8>, i: int, j: int)
    requires
        0 <= i <= j,
    ensures
        xor_sum_upto(a, b, i) <= xor_sum_upto(a, b, j),
    decreases j - i,
{
    if i < j {
        lemma_xor_sum_mono(a, b, i, j - 1);
    }
}

/// For rows of 0/1 values the XOR sum counts the differing positions.
pub proof fn lemma_xor_sum_binary(a: Seq<u8>, b: Seq<u8>, k: int)
    requires
        0 <= k <= a.len(),
        k <= b.len(),
        forall|i: int| 0 <= i < a.len() ==> #[trigger] a[i] <= 1,
        forall|i: int| 0 <= i < b.len() ==> #[trigger] b[i] <= 1,
    ensures
        xor_sum_upto(a, b, k) == mismatches_upto(a, b, k),
    decreases k,
{
    if k > 0 {
        lemma_xor_sum_binary(a, b, k - 1);
        let x = a[k - 1];
        let y = b[k - 1];
        assert(x <= 1 && y <= 1 ==> (x ^ y) == (if x != y { 1u8 } else { 0u8 })) by (bit_vector);
    }
}

/// The kernel family that a dispatch on the CPU's features selects: AVX2, else SSE2
/// on x86; NEON on aarch64; else the scalar kernels.
pub open spec fn isa_name(x86: bool, avx2: bool, sse2: bool, aarch64: bool) -> Seq<char> {
    if x86 && avx2 {
        "avx2"@
    } else if x86 && sse2 {
        "sse2"@
    } else if aarch64 {
        "neon"@
    } else {
        "scalar"@
    }
}

/// Name of the kernel family for a CPU with these features (`x86`: an x86 or x86_64
/// target; `avx2`, `sse2`: the detected x86 extensions; `aarch64`: an aarch64 target).
pub fn active_isa(x86: bool, avx2: bool, sse2: bool, aarch64: bool) -> (isa: &'static str)
    ensures
        isa@ == isa_name(x86, avx2, sse2, aarch64),
{
    if x86 && avx2 {
        "avx2"
    } else if x86 && sse2 {
        "sse2"
    } else if aarch64 {
        "neon"
    } else {
        "scalar"
    }
}

} // verus!
