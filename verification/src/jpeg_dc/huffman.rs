use vstd::prelude::*;
use vstd::arithmetic::power2::{pow2, lemma2_to64};
use vstd::arithmetic::div_mod::lemma_div_multiples_vanish_fancy;

verus! {

/// First canonical code of length `l + 1`, for code-length counts `c`
/// (`c[i]` codes have length `i + 1`).
pub open spec fn first_code(c: Seq<u8>, l: int) -> int
    decreases l,
{
    if l <= 0 {
        0
    } else {
        (first_code(c, l - 1) + c[l - 1]) * 2
    }
}

/// Number of symbols with a code shorter than `l + 1` bits.
pub open spec fn first_index(c: Seq<u8>, l: int) -> int
    decreases l,
{
    if l <= 0 {
        0
    } else {
        first_index(c, l - 1) + c[l - 1]
    }
}

/// Largest code of length `l + 1`, or -1 when there is none.
pub open spec fn max_code_of(c: Seq<u8>, l: int) -> int {
    if c[l] > 0 {
        first_code(c, l) + c[l] - 1
    } else {
        -1
    }
}

/// Offset from a code of length `l + 1` to its symbol index, or -1 when there is none.
pub open spec fn val_offset_of(c: Seq<u8>, l: int) -> int {
    if c[l] > 0 {
        first_index(c, l) - first_code(c, l)
    } else {
        -1
    }
}

/// Symbol that the canonical code `first_code(c, l) + k` stands for.
pub open spec fn symbol_of(c: Seq<u8>, hv: Seq<u8>, l: int, k: int) -> u8 {
    hv[first_index(c, l) + k]
}

/// An entry of the 8-bit lookup table is either empty (length 0) or names a code of
/// that length whose bits are the high bits of the index, with its symbol.
pub open spec fn fast_entry_ok(c: Seq<u8>, hv: Seq<u8>, idx: int, e: (u8, u8)) -> bool {
    e.1 == 0 || {
        &&& 1 <= e.1 <= 8
        &&& exists|k: int|
            #![trigger symbol_of(c, hv, e.1 - 1, k)]
            0 <= k < c[e.1 - 1] && idx / (pow2((8 - e.1) as nat) as int) == first_code(c, e.1 - 1) + k
                && e.0 == symbol_of(c, hv, e.1 - 1, k)
    }
}

/// Index `idx` of the 8-bit lookup table starts with a code of length `l + 1` (`l < 8`):
/// its top `l + 1` bits are one of the canonical codes of that length.
pub open spec fn fast_code(c: Seq<u8>, idx: int, l: int) -> bool {
    &&& 0 <= l < 8
    &&& first_code(c, l) <= idx / (pow2((7 - l) as nat) as int) < first_code(c, l) + c[l]
}

/// The lookup entry for index `idx` from the codes of length at most `n`: the symbol
/// and length of the longest such code that starts the index, or `(0, 0)` for none.
pub open spec fn fast_upto(c: Seq<u8>, hv: Seq<u8>, idx: int, n: int) -> (u8, u8)
    decreases n,
{
    if n <= 0 {
        (0, 0)
    } else if fast_code(c, idx, n - 1) {
        (
            symbol_of(c, hv, n - 1, idx / (pow2((7 - (n - 1)) as nat) as int) - first_code(c, n - 1)),
            n as u8,
        )
    } else {
        fast_upto(c, hv, idx, n - 1)
    }
}

/// `cs * d <= i < (cs + n) * d` exactly when `i / d` lies in `cs .. cs + n`.
proof fn lemma_div_range(i: int, d: int, cs: int, n: int)
    requires
        0 <= i,
        1 <= d,
        0 <= cs,
        0 <= n,
    ensures
        (cs * d <= i < (cs + n) * d) <==> (cs <= i / d < cs + n),
{
    let q = i / d;
    vstd::arithmetic::div_mod::lemma_fundamental_div_mod(i, d);
    vstd::arithmetic::div_mod::lemma_mod_bound(i, d);
    assert(q * d <= i < q * d + d) by (nonlinear_arith)
        requires
            i == d * q + i % d,
            0 <= i % d < d,
    ;
    assert((cs * d <= i < (cs + n) * d) <==> (cs <= q < cs + n)) by (nonlinear_arith)
        requires
            q * d <= i < q * d + d,
            1 <= d,
    ;
}

pub proof fn lemma_code_bounds(c: Seq<u8>, l: int)
    requires
        0 <= l <= c.len(),
    ensures
        0 <= first_code(c, l),
        first_code(c, l) + 510 <= 510 * pow2(l as nat),
        0 <= first_index(c, l) <= 255 * l,
    decreases l,
{
    if l > 0 {
        lemma_code_bounds(c, l - 1);
        assert(pow2(l as nat) == 2 * pow2((l - 1) as nat)) by {
            vstd::arithmetic::power2::lemma_pow2_unfold(l as nat);
        }
    } else {
        lemma2_to64();
    }
}

/// Canonical Huffman decoding table built from code-length counts and symbols.
pub struct HuffTable {
    pub max_code: Vec<i32>,
    pub val_offset: Vec<i32>,
    pub huffval: Vec<u8>,
    /// Lookup by the next 8 bits: (symbol, code length), length 0 when the code is longer.
    pub fast: Vec<(u8, u8)>,
    /// The code-length counts the table was built from.
    pub counts: Ghost<Seq<u8>>,
}

impl HuffTable {
    /// The table is the canonical table of `counts` and `huffval`.
    pub open spec fn wf(&self) -> bool {
        let c = self.counts@;
        &&& c.len() == 16
        &&& self.huffval@.len() >= first_index(c, 8)
        &&& self.max_code@.len() == 16
        &&& self.val_offset@.len() == 16
        &&& forall|l: int| 0 <= l < 16 ==> #[trigger] self.max_code@[l] == max_code_of(c, l)
        &&& forall|l: int| 0 <= l < 16 ==> #[trigger] self.val_offset@[l] == val_offset_of(c, l)
        &&& self.fast@.len() == 256
        &&& forall|i: int|
            0 <= i < 256 ==> #[trigger] fast_entry_ok(c, self.huffval@, i, self.fast@[i])
        &&& forall|i: int| 0 <= i < 256 ==> #[trigger] self.fast@[i] == fast_upto(c, self.huffval@, i, 8)
    }

    /// Builds the table for code-length counts `bits` and symbols `huffval`.
    pub fn build(bits: &Vec<u8>, huffval: &Vec<u8>) -> (t: Self)
        requires
            bits@.len() == 16,
            huffval@.len() >= first_index(bits@, 8),
        ensures
            t.wf(),
            t.counts@ == bits@,
            t.huffval@ == huffval@,
    {
        let ghost c = bits@;
        let mut code: i32 = 0;
        let mut offset: i32 = 0;
        let mut max_code: Vec<i32> = Vec::new();
        let mut val_offset: Vec<i32> = Vec::new();
        let mut min_code: Vec<i32> = Vec::new();
        let mut l: usize = 0;
        while l < 16
            invariant
                c == bits@,
                c.len() == 16,
                0 <= l <= 16,
                code == first_code(c, l as int),
                offset == first_index(c, l as int),
                max_code@.len() == l,
                val_offset@.len() == l,
                min_code@.len() == l,
                forall|j: int| 0 <= j < l ==> #[trigger] max_code@[j] == max_code_of(c, j),
                forall|j: int| 0 <= j < l ==> #[trigger] val_offset@[j] == val_offset_of(c, j),
                forall|j: int| 0 <= j < l ==> #[trigger] min_code@[j] == first_code(c, j),
            decreases 16 - l,
        {
            proof {
                lemma_code_bounds(c, l as int);
                lemma_code_bounds(c, (l + 1) as int);
                lemma2_to64();
                assert(pow2(l as nat) <= 65536) by {
                    if l < 16 {
                        vstd::arithmetic::power2::lemma_pow2_strictly_increases(l as nat, 16);
                    }
                }
                assert(pow2((l + 1) as nat) <= 65536) by {
                    if l + 1 < 16 {
                        vstd::arithmetic::power2::lemma_pow2_strictly_increases((l + 1) as nat, 16);
                    }
                }
            }
            let n = bits[l] as i32;
            if n > 0 {
                val_offset.push(offset - code);
                max_code.push(code + n - 1);
            } else {
                val_offset.push(-1);
                max_code.push(-1);
            }
            min_code.push(code);
            code = code + n;
            offset = offset + n;
            code = code * 2;
            l = l + 1;
        }
        let mut fast: Vec<(u8, u8)> = Vec::new();
        let mut i: usize = 0;
        while i < 256
            invariant
                0 <= i <= 256,
                fast@.len() == i,
                forall|j: int| 0 <= j < i ==> #[trigger] fast@[j] == (0u8, 0u8),
            decreases 256 - i,
        {
            fast.push((0u8, 0u8));
            i = i + 1;
        }
        let mut p: usize = 0;
        let mut l: usize = 0;
        while l < 8
            invariant
                c == bits@,
                c.len() == 16,
                huffval@.len() >= first_index(c, 8),
                0 <= l <= 8,
                p == first_index(c, l as int),
                min_code@.len() == 16,
                forall|j: int| 0 <= j < 16 ==> #[trigger] min_code@[j] == first_code(c, j),
                fast@.len() == 256,
                forall|j: int| 0 <= j < 256 ==> #[trigger] fast_entry_ok(c, huffval@, j, fast@[j]),
                forall|j: int| 0 <= j < 256 ==> #[trigger] fast@[j] == fast_upto(c, huffval@, j, l as int),
            decreases 8 - l,
        {
            proof {
                lemma_code_bounds(c, l as int);
                lemma_index_mono(c, (l + 1) as int, 8);
                lemma2_to64();
                assert(pow2(l as nat) <= 128) by {
                    if l < 7 {
                        vstd::arithmetic::power2::lemma_pow2_strictly_increases(l as nat, 7);
                    }
                }
            }
            let n = bits[l] as usize;
            if n > 0 {
                let code_start = min_code[l] as u32;
                let remaining_bits: u32 = (7 - l) as u32;
                let count: u32 = 1u32 << remaining_bits;
                proof {
                    lemma2_to64();
                    assert(count == pow2(remaining_bits as nat)) by {
                        vstd::bits::lemma_u32_shl_is_mul(1u32, remaining_bits);
                    }
                    assert(pow2((8 - (l + 1)) as nat) == count);
                    assert(1 <= count <= 128) by {
                        if remaining_bits < 7 {
                            vstd::arithmetic::power2::lemma_pow2_strictly_increases(remaining_bits as nat, 7);
                        }
                        vstd::arithmetic::power2::lemma_pow2_pos(remaining_bits as nat);
                    }
                }
                let mut k: usize = 0;
                while k < n
                    invariant
                        c == bits@,
                        c.len() == 16,
                        huffval@.len() >= first_index(c, 8),
                        0 <= l < 8,
                        n == c[l as int],
                        p == first_index(c, l as int),
                        p + n <= huffval@.len(),
                        code_start == first_code(c, l as int),
                        code_start <= 65280,
                        remaining_bits == 7 - l,
                        count == pow2((8 - (l + 1)) as nat),
                        1 <= count <= 128,
                        0 <= k <= n,
                        fast@.len() == 256,
                        forall|j: int| 0 <= j < 256 ==> #[trigger] fast_entry_ok(c, huffval@, j, fast@[j]),
                        forall|i: int|
                            0 <= i < 256 ==> #[trigger] fast@[i] == (if code_start * count <= i < (
                            code_start + k) * count {
                                (symbol_of(c, huffval@, l as int, i / (count as int) - code_start), (l + 1) as u8)
                            } else {
                                fast_upto(c, huffval@, i, l as int)
                            }),
                    decreases n - k,
                {
                    assert(p + k < huffval.len());
                    let sym = huffval[p + k];
                    assert((code_start + k) * count <= 65535 * 128) by (nonlinear_arith)
                        requires
                            code_start + k <= 65535,
                            count <= 128,
                    ;
                    let base: u32 = (code_start + k as u32) * count;
                    let mut j: u32 = 0;
                    while j < count
                        invariant
                            c == bits@,
                            0 <= l < 8,
                            0 <= k < n,
                            n == c[l as int],
                            p == first_index(c, l as int),
                            p + n <= huffval@.len(),
                            sym == symbol_of(c, huffval@, l as int, k as int),
                            code_start == first_code(c, l as int),
                            code_start <= 65280,
                            count == pow2((8 - (l + 1)) as nat),
                            1 <= count <= 128,
                            base == (code_start + k) * count,
                            base <= 65535 * 128,
                            0 <= j <= count,
                            fast@.len() == 256,
                            forall|i: int| 0 <= i < 256 ==> #[trigger] fast_entry_ok(c, huffval@, i, fast@[i]),
                            forall|i: int|
                                0 <= i < 256 ==> #[trigger] fast@[i] == (if code_start * count <= i < (
                                code_start + k) * count + j {
                                    (symbol_of(c, huffval@, l as int, i / (count as int) - code_start), (l + 1) as u8)
                                } else {
                                    fast_upto(c, huffval@, i, l as int)
                                }),
                        decreases count - j,
                    {
                        let ghost f0 = fast@;
                        let idx = base + j;
                        proof {
                            lemma_div_multiples_vanish_fancy((code_start + k) as int, j as int, count as int);
                            assert(idx as int == count * (code_start + k) + j) by (nonlinear_arith)
                                requires
                                    idx == base + j,
                                    base == (code_start + k) * count,
                            ;
                            assert(code_start * count <= idx) by (nonlinear_arith)
                                requires
                                    idx == base + j,
                                    base == (code_start + k) * count,
                                    k >= 0,
                                    count >= 1,
                            ;
                        }
                        if idx < 256 {
                            proof {
                                let e = (sym, (l + 1) as u8);
                                assert((count * (code_start + k) + j) / (count as int) == code_start + k);
                                assert(e.1 - 1 == l);
                                assert(e.0 == symbol_of(c, huffval@, e.1 - 1, k as int));
                                assert(fast_entry_ok(c, huffval@, idx as int, e));
                            }
                            fast.set(idx as usize, (sym, (l + 1) as u8));
                        }
                        proof {
                            assert forall|i: int| 0 <= i < 256 implies #[trigger] fast@[i] == (if code_start
                                * count <= i < (code_start + k) * count + (j + 1) {
                                (symbol_of(c, huffval@, l as int, i / (count as int) - code_start), (l + 1) as u8)
                            } else {
                                fast_upto(c, huffval@, i, l as int)
                            }) by {
                                if i != idx {
                                    assert(fast@[i] == f0[i]);
                                } else {
                                    assert((count * (code_start + k) + j) / (count as int) == code_start + k);
                                }
                            }
                        }
                        j = j + 1;
                    }
                    assert((code_start + k) * count + count == (code_start + k + 1) * count) by (nonlinear_arith);
                    k = k + 1;
                }
                proof {
                    assert forall|i: int| 0 <= i < 256 implies #[trigger] fast@[i] == fast_upto(
                        c,
                        huffval@,
                        i,
                        (l + 1) as int,
                    ) by {
                        lemma_div_range(i, count as int, code_start as int, n as int);
                    }
                }
            }
            p = p + n;
            l = l + 1;
        }
        HuffTable { max_code, val_offset, huffval: huffval.clone(), fast, counts: Ghost(c) }
    }
}

pub proof fn lemma_index_mono(c: Seq<u8>, a: int, b: int)
    requires
        0 <= a <= b <= c.len(),
    ensures
        first_index(c, a) <= first_index(c, b),
    decreases b - a,
{
    if a < b {
        lemma_index_mono(c, a, b - 1);
    }
}

} // verus!
