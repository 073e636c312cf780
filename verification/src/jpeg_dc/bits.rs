use vstd::prelude::*;
use vstd::arithmetic::power2::{pow2, lemma2_to64, lemma_pow2_pos, lemma_pow2_strictly_increases};
use crate::jpeg_dc::bitseq::{
    nat_bits, bits_val, byte_bits, lemma_nat_bits_split, lemma_nat_bits_take_skip,
    lemma_high_part_bound, lemma_bits_val_small, lemma_nat_bits_len, lemma_div_pow2_twice,
    lemma_bits_val_push, lemma_bits_val_bound, lemma_bits_val_concat,
};
use crate::jpeg_dc::huffman::{
    HuffTable, first_code, first_index, symbol_of, fast_entry_ok, lemma_code_bounds, lemma_index_mono,
};

verus! {

/// The entropy-coded bits from byte `p` on: a stuffed 0xFF 0x00 stands for 0xFF,
/// and the stream ends at the end of input, at a marker, or at a trailing 0xFF.
pub open spec fn stream(s: Seq<u8>, p: int) -> Seq<bool>
    decreases s.len() - p,
{
    if p < 0 || p >= s.len() {
        Seq::empty()
    } else if s[p] == 0xFF {
        if p + 1 < s.len() && s[p + 1] == 0 {
            byte_bits(0xFF) + stream(s, p + 2)
        } else {
            Seq::empty()
        }
    } else {
        byte_bits(s[p]) + stream(s, p + 1)
    }
}

/// The byte index at which the stream starting at `p` stops.
pub open spec fn stream_end(s: Seq<u8>, p: int) -> int
    decreases s.len() - p,
{
    if p < 0 || p >= s.len() {
        p
    } else if s[p] == 0xFF {
        if p + 1 < s.len() && s[p + 1] == 0 {
            stream_end(s, p + 2)
        } else {
            p
        }
    } else {
        stream_end(s, p + 1)
    }
}

/// The byte index reached after `k` bytes of entropy-coded data from `p` (a stuffed
/// 0xFF 0x00 counts as one byte).
pub open spec fn stream_skip(s: Seq<u8>, p: int, k: nat) -> int
    decreases k,
{
    if k == 0 {
        p
    } else {
        let q = stream_skip(s, p, (k - 1) as nat);
        if s[q] == 0xFF {
            q + 2
        } else {
            q + 1
        }
    }
}

/// The entropy-coded data from byte `p` on runs into a 0xFF that is the last byte.
pub open spec fn ends_in_lone_ff(s: Seq<u8>, p: int) -> bool {
    s.len() > 0 && stream_end(s, p) == s.len() - 1 && s[s.len() - 1] == 0xFF
}

/// A restart marker (0xFF 0xD0..=0xD7) stands at byte `p`.
pub open spec fn rst_at(s: Seq<u8>, p: int) -> bool {
    0 <= p && p + 1 < s.len() && s[p] == 0xFF && 0xD0 <= s[p + 1] <= 0xD7
}

/// A Huffman code of length `l + 1` of the table with counts `c` opens the bits `v`.
pub open spec fn code_match(c: Seq<u8>, v: Seq<bool>, l: int) -> bool {
    &&& 0 <= l < 16
    &&& l + 1 <= v.len()
    &&& first_code(c, l) <= bits_val(v.take(l + 1)) < first_code(c, l) + c[l]
}

/// The index among the symbols of the code of length `l + 1` that opens `v`.
pub open spec fn matched_index(c: Seq<u8>, v: Seq<bool>, l: int) -> int {
    first_index(c, l) + bits_val(v.take(l + 1)) - first_code(c, l)
}

/// The symbol of the code of length `l + 1` that opens `v`.
pub open spec fn matched_symbol(c: Seq<u8>, hv: Seq<u8>, v: Seq<bool>, l: int) -> u8 {
    symbol_of(c, hv, l, bits_val(v.take(l + 1)) - first_code(c, l))
}

/// Canonical Huffman decoding of the front of `v`: the symbol and the code length,
/// or `None` when no code of at most 16 bits opens `v` or the symbol list is too
/// short to hold the symbol of the code that does.
pub open spec fn huff_decode(c: Seq<u8>, hv: Seq<u8>, v: Seq<bool>) -> Option<(u8, int)> {
    if exists|l: int| #[trigger] code_match(c, v, l) {
        let l = choose|l: int| #[trigger] code_match(c, v, l);
        if matched_index(c, v, l) < hv.len() {
            Some((matched_symbol(c, hv, v, l), l + 1))
        } else {
            None
        }
    } else {
        None
    }
}

/// JPEG sign extension of a `size`-bit magnitude category value.
pub open spec fn extend(raw: int, size: int) -> int {
    if size == 0 {
        0
    } else if raw < pow2((size - 1) as nat) {
        raw - (pow2(size as nat) - 1)
    } else {
        raw
    }
}

/// Bit reader over an entropy-coded segment; the unread buffered bits are kept in
/// the high `bit_count` bits of `bit_buf`, the rest of which are zero.
pub struct BitReader<'a> {
    pub bytes: &'a [u8],
    pub pos: usize,
    pub bit_buf: u64,
    pub bit_count: u8,
    /// A marker (other than a stuffed 0xFF 0x00) that stopped the reading.
    pub marker: Option<u8>,
    /// The segment ended in a lone 0xFF.
    pub error: bool,
}

impl<'a> BitReader<'a> {
    pub open spec fn wf(&self) -> bool {
        let s = self.bytes@;
        &&& self.pos <= s.len()
        &&& self.bit_count <= 32
        &&& self.bit_buf as nat % pow2((64 - self.bit_count) as nat) == 0
        &&& self.buffered() < pow2(self.bit_count as nat)
        &&& self.marker matches Some(m) ==> self.pos + 1 < s.len() && s[self.pos as int] == 0xFF
            && s[self.pos + 1] == m && m != 0
        &&& self.error ==> self.pos == s.len()
    }

    /// The buffered bits as a number: the top `bit_count` bits of `bit_buf`.
    pub open spec fn buffered(&self) -> nat {
        self.bit_buf as nat / pow2((64 - self.bit_count) as nat)
    }

    /// The bits still to be read: the buffered ones, then the rest of the stream.
    pub open spec fn view(&self) -> Seq<bool> {
        nat_bits(self.buffered(), self.bit_count as nat) + stream(self.bytes@, self.pos as int)
    }

    pub fn new(bytes: &'a [u8]) -> (r: Self)
        ensures
            r.wf(),
            r.bytes@ == bytes@,
            r.pos == 0,
            r.view() == stream(bytes@, 0),
            !r.error,
    {
        proof {
            lemma2_to64();
        }
        let r = BitReader { bytes, pos: 0, bit_buf: 0, bit_count: 0, marker: None, error: false };
        assert(nat_bits(0, 0) + stream(bytes@, 0) =~= stream(bytes@, 0));
        r
    }

    /// Moves bytes from the stream into the buffer until more than 24 bits are
    /// buffered or the stream ends.
    pub fn fill(&mut self)
        requires
            old(self).wf(),
        ensures
            final(self).wf(),
            final(self).bytes@ == old(self).bytes@,
            final(self).view() == old(self).view(),
            final(self).bit_count > 24 || stream(final(self).bytes@, final(self).pos as int).len()
                == 0,
            final(self).bit_count >= old(self).bit_count,
            (final(self).bit_count - old(self).bit_count) % 8 == 0,
            !final(self).error ==> final(self).pos == stream_skip(
                old(self).bytes@,
                old(self).pos as int,
                ((final(self).bit_count - old(self).bit_count) / 8) as nat,
            ),
            final(self).marker == if final(self).bit_count <= 24 && final(self).pos + 1 < old(
                self,
            ).bytes@.len() {
                Some(old(self).bytes@[final(self).pos + 1])
            } else {
                old(self).marker
            },
            old(self).error ==> final(self).error,
            final(self).error || stream_end(final(self).bytes@, final(self).pos as int) == stream_end(
                old(self).bytes@,
                old(self).pos as int,
            ),
            final(self).error ==> old(self).error || ends_in_lone_ff(old(self).bytes@, old(self).pos as int),
    {
        let ghost s = self.bytes@;
        let ghost v0 = self.view();
        while self.bit_count <= 24
            invariant
                self.wf(),
                self.bytes@ == s,
                self.view() == v0,
                old(self).bytes@ == s,
                old(self).view() == v0,
                self.bit_count >= old(self).bit_count,
                (self.bit_count - old(self).bit_count) % 8 == 0,
                !self.error ==> self.pos == stream_skip(
                    s,
                    old(self).pos as int,
                    ((self.bit_count - old(self).bit_count) / 8) as nat,
                ),
                self.marker == old(self).marker,
                old(self).error ==> self.error,
                self.error || stream_end(s, self.pos as int) == stream_end(s, old(self).pos as int),
                self.error ==> old(self).error || ends_in_lone_ff(s, old(self).pos as int),
            decreases s.len() - self.pos,
        {
            if self.pos >= self.bytes.len() {
                return;
            }
            let ghost p = self.pos as int;
            let b = self.bytes[self.pos];
            self.pos = self.pos + 1;
            if b == 0xFF {
                if self.pos >= self.bytes.len() {
                    self.error = true;
                    return;
                }
                let next = self.bytes[self.pos];
                if next == 0x00 {
                    self.pos = self.pos + 1;
                } else {
                    self.pos = self.pos - 1;
                    self.marker = Some(next);
                    return;
                }
            }
            let ghost old_buf = self.buffered();
            let ghost old_count = self.bit_count as nat;
            proof {
                lemma2_to64();
                lemma_pow2_strictly_increases(old_count, 25);
                vstd::arithmetic::power2::lemma_pow2_adds(old_count, 8);
                lemma_nat_bits_split(old_buf, b as nat, old_count, 8);
                assert(old_buf * 256 + b < pow2(old_count + 8)) by (nonlinear_arith)
                    requires
                        old_buf < pow2(old_count),
                        b < 256,
                        pow2(old_count + 8) == pow2(old_count) * 256,
                ;
                lemma_push_byte(self.bit_buf, old_count, b);
                assert(stream(s, p) == byte_bits(b) + stream(s, self.pos as int));
            }
            self.bit_buf = self.bit_buf | ((b as u64) << ((56 - self.bit_count) as u64));
            self.bit_count = self.bit_count + 8;
            proof {
                assert(self.view() =~= v0);
            }
        }
    }

    /// Takes `n` buffered bits off the front: they are the top `n` bits of
    /// `bit_buf`, which then shifts left by `n`.
    pub fn consume(&mut self, n: u8) -> (r: u64)
        requires
            old(self).wf(),
            1 <= n <= old(self).bit_count,
        ensures
            final(self).wf(),
            final(self).bytes@ == old(self).bytes@,
            final(self).pos == old(self).pos,
            final(self).marker == old(self).marker,
            final(self).error == old(self).error,
            final(self).bit_count == old(self).bit_count - n,
            r == bits_val(old(self).view().take(n as int)),
            r < pow2(n as nat),
            final(self).view() == old(self).view().skip(n as int),
    {
        let ghost v = self.buffered();
        let ghost c = self.bit_count as nat;
        let ghost k = (c - n) as nat;
        proof {
            lemma_top_bits(self.bit_buf, c, n as nat);
            lemma_shl_keeps_rest(self.bit_buf, c, n as nat);
            lemma_nat_bits_take_skip(v, c, n as nat);
            lemma_high_part_bound(v, c, n as nat);
            lemma_bits_val_small(v / pow2(k), n as nat);
            lemma_nat_bits_len(v, c);
            vstd::arithmetic::div_mod::lemma_mod_bound(v as int, pow2(k) as int);
        }
        let r = self.bit_buf >> ((64 - n) as u64);
        self.bit_buf = self.bit_buf << (n as u64);
        self.bit_count = self.bit_count - n;
        proof {
            let sv = stream(self.bytes@, self.pos as int);
            assert((nat_bits(v, c) + sv).take(n as int) =~= nat_bits(v, c).take(n as int));
            assert((nat_bits(v, c) + sv).skip(n as int) =~= nat_bits(v, c).skip(n as int) + sv);
        }
        r
    }

    /// Reads the next `n` bits (at most 16) as a number, most significant first.
    pub fn get_bits(&mut self, n: u8) -> (res: Option<u32>)
        requires
            old(self).wf(),
            n <= 16,
        ensures
            final(self).wf(),
            final(self).bytes@ == old(self).bytes@,
            match res {
                Some(r) => n <= old(self).view().len() && r == bits_val(old(self).view().take(n as int))
                    && final(self).view() == old(self).view().skip(n as int),
                None => old(self).view().len() < n,
            },
            old(self).error ==> final(self).error,
            final(self).error || stream_end(final(self).bytes@, final(self).pos as int) == stream_end(
                old(self).bytes@,
                old(self).pos as int,
            ),
            final(self).error ==> old(self).error || ends_in_lone_ff(old(self).bytes@, old(self).pos as int),
    {
        if n == 0 {
            proof {
                assert(self.view().take(0) =~= Seq::<bool>::empty());
                assert(self.view().skip(0) =~= self.view());
            }
            return Some(0);
        }
        if self.bit_count < n {
            self.fill();
            if self.bit_count < n {
                proof {
                    lemma_nat_bits_len(self.buffered(), self.bit_count as nat);
                }
                return None;
            }
        }
        proof {
            lemma_nat_bits_len(self.buffered(), self.bit_count as nat);
        }
        let r = self.consume(n);
        proof {
            lemma2_to64();
            if n < 16 {
                lemma_pow2_strictly_increases(n as nat, 16);
            }
        }
        Some(r as u32)
    }

    /// Decodes one Huffman symbol: through the 8-bit lookup table when it has the
    /// code, else bit by bit through the canonical code ranges.
    pub fn decode_huff(&mut self, tbl: &HuffTable) -> (res: Option<u8>)
        requires
            old(self).wf(),
            tbl.wf(),
        ensures
            final(self).wf(),
            final(self).bytes@ == old(self).bytes@,
            res == match huff_decode(tbl.counts@, tbl.huffval@, old(self).view()) {
                Some((sym, _)) => Some(sym),
                None => None,
            },
            huff_decode(tbl.counts@, tbl.huffval@, old(self).view()) matches Some((_, len))
                ==> final(self).view() == old(self).view().skip(len),
            old(self).error ==> final(self).error,
            final(self).error || stream_end(final(self).bytes@, final(self).pos as int) == stream_end(
                old(self).bytes@,
                old(self).pos as int,
            ),
            final(self).error ==> old(self).error || ends_in_lone_ff(old(self).bytes@, old(self).pos as int),
    {
        let ghost c = tbl.counts@;
        let ghost hv = tbl.huffval@;
        let ghost v0 = self.view();
        if self.bit_count < 8 {
            self.fill();
        }
        if self.bit_count >= 8 {
            let ghost v = self.buffered();
            let ghost cnt = self.bit_count as nat;
            let ghost k = (cnt - 8) as nat;
            proof {
                lemma2_to64();
                lemma_top_bits(self.bit_buf, cnt, 8);
                lemma_high_part_bound(v, cnt, 8);
            }
            let peek = (self.bit_buf >> 56u64) as usize;
            let (sym, len) = tbl.fast[peek];
            if len > 0 && len <= 8 {
                proof {
                    assert(fast_entry_ok(c, hv, peek as int, tbl.fast@[peek as int]));
                    let kk = choose|kk: int|
                        #![trigger symbol_of(c, hv, len - 1, kk)]
                        0 <= kk < c[len - 1] && (peek as int) / (pow2((8 - len) as nat) as int)
                            == first_code(c, len - 1) + kk && sym == symbol_of(c, hv, len - 1, kk);
                    // the first `len` bits spell peek / 2^(8 - len)
                    lemma_div_pow2_twice(v, k as nat, (8 - len) as nat);
                    assert((k + (8 - len)) as nat == (cnt - len) as nat);
                    lemma_nat_bits_take_skip(v, cnt, len as nat);
                    lemma_high_part_bound(v, cnt, len as nat);
                    lemma_bits_val_small(v / pow2((cnt - len) as nat), len as nat);
                    lemma_nat_bits_len(v, cnt);
                    let sv = stream(self.bytes@, self.pos as int);
                    assert(v0.take(len as int) =~= nat_bits(v, cnt).take(len as int));
                    assert(bits_val(v0.take(len as int)) == first_code(c, len - 1) + kk);
                    assert(code_match(c, v0, len - 1));
                    lemma_index_mono_bits(c, len as int, 8);
                    assert(matched_index(c, v0, len - 1) < hv.len());
                    lemma_huff_decode_match(c, hv, v0, len - 1);
                }
                self.consume(len);
                return Some(sym);
            }
        }
        // Slow path: one bit at a time.
        let mut code: i32 = 0;
        let mut l: usize = 0;
        while l < 16
            invariant
                self.wf(),
                self.bytes@ == old(self).bytes@,
                tbl.wf(),
                c == tbl.counts@,
                hv == tbl.huffval@,
                v0 == old(self).view(),
                old(self).error ==> self.error,
                self.error || stream_end(self.bytes@, self.pos as int) == stream_end(
                    old(self).bytes@,
                    old(self).pos as int,
                ),
                self.error ==> old(self).error || ends_in_lone_ff(old(self).bytes@, old(self).pos as int),
                0 <= l <= 16,
                l <= v0.len(),
                self.view() == v0.skip(l as int),
                code == bits_val(v0.take(l as int)),
                2 * code >= first_code(c, l as int),
                forall|j: int| 0 <= j < l ==> !#[trigger] code_match(c, v0, j),
            decreases 16 - l,
        {
            proof {
                lemma_bits_val_bound(v0.take(l as int));
                lemma2_to64();
                if l < 16 {
                    lemma_pow2_strictly_increases(l as nat, 16);
                }
                lemma_code_bounds(c, l as int);
                lemma_code_bounds(c, (l + 1) as int);
                if l + 1 < 16 {
                    lemma_pow2_strictly_increases((l + 1) as nat, 16);
                }
                lemma_index_mono_bits(c, (l + 1) as int, 16);
            }
            let ghost before = self.view();
            let bit = match self.get_bits(1) {
                Some(b) => b,
                None => {
                    proof {
                        assert forall|j: int| 0 <= j < 16 implies !#[trigger] code_match(c, v0, j) by {
                            if j >= l {
                                assert(v0.len() == l);
                            }
                        }
                    }
                    proof {
                        lemma_huff_decode_none(c, hv, v0);
                    }
                    return None;
                },
            };
            proof {
                let t = v0.take(l as int + 1);
                assert(t =~= v0.take(l as int).push(v0[l as int]));
                lemma_bits_val_push(v0.take(l as int), v0[l as int]);
                assert(before.take(1) =~= seq![v0[l as int]]);
                assert(bits_val(seq![v0[l as int]]) == (if v0[l as int] { 1nat } else { 0nat })) by {
                    assert(seq![v0[l as int]].drop_last() =~= Seq::<bool>::empty());
                    assert(bits_val(Seq::<bool>::empty()) == 0);
                }
                assert(self.view() =~= v0.skip(l as int + 1));
            }
            code = code * 2 + bit as i32;
            if code <= tbl.max_code[l] {
                let idx = code + tbl.val_offset[l];
                proof {
                    assert(c[l as int] > 0);
                    assert(code_match(c, v0, l as int));
                    assert(idx == matched_index(c, v0, l as int));
                    lemma_huff_decode_match(c, hv, v0, l as int);
                }
                if idx < 0 || idx as usize >= tbl.huffval.len() {
                    return None;
                }
                return Some(tbl.huffval[idx as usize]);
            }
            l = l + 1;
        }
        proof {
            lemma_huff_decode_none(c, hv, v0);
        }
        None
    }

    /// Reads a `size`-bit magnitude category value and sign-extends it.
    pub fn receive_extend(&mut self, size: u8) -> (res: Option<i32>)
        requires
            old(self).wf(),
            size <= 15,
        ensures
            final(self).wf(),
            final(self).bytes@ == old(self).bytes@,
            match res {
                Some(v) => size <= old(self).view().len() && v == extend(
                    bits_val(old(self).view().take(size as int)) as int,
                    size as int,
                ) && final(self).view() == old(self).view().skip(size as int),
                None => old(self).view().len() < size,
            },
            old(self).error ==> final(self).error,
            final(self).error || stream_end(final(self).bytes@, final(self).pos as int) == stream_end(
                old(self).bytes@,
                old(self).pos as int,
            ),
            final(self).error ==> old(self).error || ends_in_lone_ff(old(self).bytes@, old(self).pos as int),
    {
        if size == 0 {
            proof {
                assert(self.view().skip(0) =~= self.view());
            }
            return Some(0);
        }
        let raw = match self.get_bits(size) {
            Some(r) => r,
            None => return None,
        };
        proof {
            lemma2_to64();
            lemma_bits_val_bound(old(self).view().take(size as int));
            if size < 15 {
                lemma_pow2_strictly_increases(size as nat, 15);
            }
            vstd::bits::lemma_u32_shl_is_mul(1u32, (size - 1) as u32);
            assert(pow2((size - 1) as nat) <= 0x4000) by {
                if size - 1 < 14 {
                    lemma_pow2_strictly_increases((size - 1) as nat, 14);
                }
            }
            vstd::bits::lemma_u32_shl_is_mul(1u32, size as u32);
        }
        let half: u32 = 1u32 << ((size - 1) as u32);
        let full: u32 = 1u32 << (size as u32);
        let v = if raw < half {
            (raw as i32) - ((full as i32) - 1)
        } else {
            raw as i32
        };
        Some(v)
    }

    /// Drops the buffered bits (padding before a restart marker).
    pub fn byte_align(&mut self)
        requires
            old(self).wf(),
        ensures
            final(self).wf(),
            final(self).bytes@ == old(self).bytes@,
            final(self).pos == old(self).pos,
            final(self).marker == old(self).marker,
            final(self).error == old(self).error,
            final(self).bit_count == 0,
            final(self).view() == stream(old(self).bytes@, old(self).pos as int),
    {
        proof {
            lemma2_to64();
        }
        self.bit_buf = 0;
        self.bit_count = 0;
        proof {
            assert(self.view() =~= stream(self.bytes@, self.pos as int));
        }
    }

    /// Drops the buffered bits and steps over a restart marker at the current byte.
    pub fn consume_restart(&mut self) -> (res: Option<()>)
        requires
            old(self).wf(),
        ensures
            final(self).wf(),
            final(self).bytes@ == old(self).bytes@,
            res is Some <==> rst_at(old(self).bytes@, old(self).pos as int),
            res is Some ==> final(self).pos == old(self).pos + 2 && final(self).view() == stream(
                old(self).bytes@,
                old(self).pos + 2,
            ) && final(self).marker is None && final(self).error == old(self).error,
    {
        self.byte_align();
        assert(self.bytes@.len() == self.bytes.len());
        if self.marker.is_none() && self.bytes.len() > 1 && self.pos < self.bytes.len() - 1 {
            if self.bytes[self.pos] == 0xFF {
                let m = self.bytes[self.pos + 1];
                if 0xD0 <= m && m <= 0xD7 {
                    self.pos = self.pos + 2;
                    return Some(());
                }
            }
        }
        match self.marker {
            Some(m) => {
                if 0xD0 <= m && m <= 0xD7 {
                    self.pos = self.pos + 2;
                    self.marker = None;
                    return Some(());
                }
                None
            },
            None => None,
        }
    }
}

/// The top `n` bits of a buffer whose top `c` bits are the buffered ones: the
/// first `n` buffered bits.
proof fn lemma_top_bits(buf: u64, c: nat, n: nat)
    requires
        1 <= n <= c <= 32,
    ensures
        (buf >> ((64 - n) as u64)) as nat == (buf as nat / pow2((64 - c) as nat)) / pow2(
            (c - n) as nat,
        ),
{
    vstd::bits::lemma_u64_shr_is_div(buf, (64 - n) as u64);
    lemma_div_pow2_twice(buf as nat, (64 - c) as nat, (c - n) as nat);
    assert((64 - c) + (c - n) == 64 - n);
}

proof fn lemma_shl_drops_high(x: u64, n: u64, m: u64, mask: u64)
    by (bit_vector)
    requires
        1 <= n < 64,
        m + n == 64,
        mask + 1 == 1u64 << m,
    ensures
        x << n == (x & mask) << n,
{
}

/// Shifting out the first `n` of `c` buffered bits leaves the other `c - n` on top.
proof fn lemma_shl_keeps_rest(buf: u64, c: nat, n: nat)
    requires
        1 <= n <= c <= 32,
        buf as nat % pow2((64 - c) as nat) == 0,
    ensures
        (buf << (n as u64)) as nat % pow2((64 - (c - n)) as nat) == 0,
        (buf << (n as u64)) as nat / pow2((64 - (c - n)) as nat) == (buf as nat / pow2(
            (64 - c) as nat,
        )) % pow2((c - n) as nat),
{
    let a = (64 - c) as nat;
    let k = (c - n) as nat;
    let m = (64 - n) as nat;
    let low = buf as nat / pow2(a);
    let q = low / pow2(k);
    let r = low % pow2(k);
    lemma2_to64();
    lemma_pow2_pos(a);
    lemma_pow2_pos(k);
    lemma_pow2_pos(n);
    vstd::arithmetic::div_mod::lemma_fundamental_div_mod(buf as int, pow2(a) as int);
    vstd::arithmetic::div_mod::lemma_fundamental_div_mod(low as int, pow2(k) as int);
    vstd::arithmetic::div_mod::lemma_mod_bound(low as int, pow2(k) as int);
    vstd::arithmetic::power2::lemma_pow2_adds(a, k);
    assert(a + k == m);
    assert(buf == q * pow2(m) + r * pow2(a)) by (nonlinear_arith)
        requires
            buf == pow2(a) * low,
            low == pow2(k) * q + r,
            pow2(m) == pow2(a) * pow2(k),
    ;
    assert(r * pow2(a) < pow2(m)) by (nonlinear_arith)
        requires
            r < pow2(k),
            pow2(a) > 0,
            pow2(m) == pow2(a) * pow2(k),
    ;
    vstd::arithmetic::div_mod::lemma_fundamental_div_mod_converse(
        buf as int,
        pow2(m) as int,
        q as int,
        (r * pow2(a)) as int,
    );
    vstd::bits::lemma_u64_pow2_no_overflow(m);
    vstd::bits::lemma_u64_shl_is_mul(1u64, m as u64);
    lemma_shl_drops_high(buf, n as u64, m as u64, vstd::bits::low_bits_mask(m) as u64);
    vstd::bits::lemma_u64_low_bits_mask_is_mod(buf, m);
    let t: u64 = buf & (vstd::bits::low_bits_mask(m) as u64);
    assert(t == r * pow2(a));
    lemma_pow2_pos(a + n);
    vstd::arithmetic::power2::lemma_pow2_adds(m, n);
    vstd::arithmetic::power2::lemma_pow2_adds(a, n);
    assert(m + n == 64);
    assert(t * pow2(n) < pow2(64)) by (nonlinear_arith)
        requires
            t < pow2(m),
            pow2(n) > 0,
            pow2(64) == pow2(m) * pow2(n),
    ;
    vstd::bits::lemma_u64_shl_is_mul(t, n as u64);
    assert(t * pow2(n) == r * pow2(a + n)) by (nonlinear_arith)
        requires
            t == r * pow2(a),
            pow2(a + n) == pow2(a) * pow2(n),
    ;
    assert(a + n == 64 - (c - n));
    vstd::arithmetic::div_mod::lemma_fundamental_div_mod_converse(
        (buf << (n as u64)) as int,
        pow2(a + n) as int,
        r as int,
        0,
    );
}

proof fn lemma_or_disjoint_byte(x: u64, y: u64, s: u64)
    by (bit_vector)
    requires
        s <= 56,
        y < 256,
        (x >> s) % 256 == 0,
    ensures
        x | (y << s) == x + (y << s),
{
}

/// Or-ing a byte in just below `c` buffered top bits appends its 8 bits to them.
proof fn lemma_push_byte(buf: u64, c: nat, b: u8)
    requires
        c <= 24,
        buf as nat % pow2((64 - c) as nat) == 0,
    ensures
        (buf | ((b as u64) << ((56 - c) as u64))) as nat % pow2((56 - c) as nat) == 0,
        (buf | ((b as u64) << ((56 - c) as u64))) as nat / pow2((56 - c) as nat) == (buf as nat
            / pow2((64 - c) as nat)) * 256 + b,
{
    let s = (56 - c) as nat;
    let a = (64 - c) as nat;
    let low = buf as nat / pow2(a);
    lemma2_to64();
    lemma_pow2_pos(a);
    lemma_pow2_pos(s);
    vstd::arithmetic::power2::lemma2_to64_rest();
    vstd::arithmetic::div_mod::lemma_fundamental_div_mod(buf as int, pow2(a) as int);
    vstd::arithmetic::power2::lemma_pow2_adds(s, 8);
    assert(s + 8 == a);
    assert(buf == (low * 256) * pow2(s)) by (nonlinear_arith)
        requires
            buf == pow2(a) * low,
            pow2(a) == pow2(s) * 256,
    ;
    vstd::bits::lemma_u64_shr_is_div(buf, s as u64);
    vstd::arithmetic::div_mod::lemma_fundamental_div_mod_converse(
        buf as int,
        pow2(s) as int,
        (low * 256) as int,
        0,
    );
    vstd::arithmetic::div_mod::lemma_fundamental_div_mod_converse(
        (low * 256) as int,
        256,
        low as int,
        0,
    );
    assert((buf >> (s as u64)) % 256 == 0);
    lemma_or_disjoint_byte(buf, b as u64, s as u64);
    if s < 56 {
        lemma_pow2_strictly_increases(s, 56);
    }
    assert((b as u64) * pow2(s) <= u64::MAX) by (nonlinear_arith)
        requires
            b < 256,
            pow2(s) <= pow2(56),
            pow2(56) == 0x100000000000000,
    ;
    vstd::bits::lemma_u64_shl_is_mul(b as u64, s as u64);
    let nb = buf | ((b as u64) << (s as u64));
    assert(nb == (low * 256 + b) * pow2(s)) by (nonlinear_arith)
        requires
            nb == buf + b * pow2(s),
            buf == (low * 256) * pow2(s),
    ;
    vstd::arithmetic::div_mod::lemma_fundamental_div_mod_converse(
        nb as int,
        pow2(s) as int,
        (low * 256 + b) as int,
        0,
    );
}

proof fn lemma_first_code_grows(c: Seq<u8>, l1: int, m: int)
    requires
        0 <= l1 < m,
    ensures
        first_code(c, m) >= (first_code(c, l1) + c[l1]) * pow2((m - l1) as nat),
    decreases m,
{
    lemma_pow2_pos((m - l1) as nat);
    vstd::arithmetic::power2::lemma_pow2_unfold((m - l1) as nat);
    if m == l1 + 1 {
        lemma2_to64();
        lemma_code_bounds_any(c, l1);
    } else {
        lemma_first_code_grows(c, l1, m - 1);
        lemma_code_bounds_any(c, m - 1);
        lemma_code_bounds_any(c, l1);
        assert(first_code(c, m) >= 2 * first_code(c, m - 1));
        assert(2 * ((first_code(c, l1) + c[l1]) * pow2((m - 1 - l1) as nat)) == (first_code(c, l1)
            + c[l1]) * pow2((m - l1) as nat)) by (nonlinear_arith)
            requires
                pow2((m - l1) as nat) == 2 * pow2((m - 1 - l1) as nat),
        ;
    }
}

proof fn lemma_code_bounds_any(c: Seq<u8>, l: int)
    requires
        0 <= l,
    ensures
        0 <= first_code(c, l),
    decreases l,
{
    if l > 0 {
        lemma_code_bounds_any(c, l - 1);
    }
}

/// Canonical Huffman codes are prefix-free: at most one code length matches the
/// start of any bit sequence, so the symbol `decode_huff` returns is determined by
/// the table and the bits alone.
pub proof fn lemma_code_match_unique(c: Seq<u8>, v: Seq<bool>, l1: int, l2: int)
    requires
        code_match(c, v, l1),
        code_match(c, v, l2),
    ensures
        l1 == l2,
{
    if l1 != l2 {
        let (a, b) = if l1 < l2 { (l1, l2) } else { (l2, l1) };
        let k = (b - a) as nat;
        let xa = bits_val(v.take(a + 1));
        let tail = v.subrange(a + 1, b + 1);
        assert(v.take(b + 1) =~= v.take(a + 1) + tail);
        lemma_bits_val_concat(v.take(a + 1), tail);
        lemma_bits_val_bound(tail);
        assert(tail.len() == k);
        lemma_first_code_grows(c, a, b);
        lemma_pow2_pos(k);
        let xb = bits_val(v.take(b + 1));
        assert(xb == xa * pow2(k) + bits_val(tail));
        assert(xb < (xa + 1) * pow2(k)) by (nonlinear_arith)
            requires
                xb == xa * pow2(k) + bits_val(tail),
                bits_val(tail) < pow2(k),
        ;
        assert((xa + 1) * pow2(k) <= (first_code(c, a) + c[a]) * pow2(k)) by (nonlinear_arith)
            requires
                xa + 1 <= first_code(c, a) + c[a],
                pow2(k) > 0,
        ;
        assert(first_code(c, b) >= (first_code(c, a) + c[a]) * pow2(k));
    }
}

/// A matching code determines the canonical decoding.
pub proof fn lemma_huff_decode_match(c: Seq<u8>, hv: Seq<u8>, v: Seq<bool>, l: int)
    requires
        code_match(c, v, l),
    ensures
        huff_decode(c, hv, v) == if matched_index(c, v, l) < hv.len() {
            Some((matched_symbol(c, hv, v, l), l + 1))
        } else {
            None
        },
{
    let l2 = choose|l2: int| #[trigger] code_match(c, v, l2);
    lemma_code_match_unique(c, v, l, l2);
}

/// Canonical Huffman round trip: bits that open with the code of the `k`-th symbol of
/// length `l + 1` (the code `first_code(c, l) + k`) decode to that symbol, entry
/// `first_index(c, l) + k` of the symbol list, and take exactly `l + 1` bits.
pub proof fn lemma_huffman_round_trip(c: Seq<u8>, hv: Seq<u8>, v: Seq<bool>, l: int, k: int)
    requires
        c.len() == 16,
        0 <= l < 16,
        0 <= k < c[l],
        l + 1 <= v.len(),
        bits_val(v.take(l + 1)) == first_code(c, l) + k,
        first_index(c, l) + k < hv.len(),
    ensures
        huff_decode(c, hv, v) == Some((hv[first_index(c, l) + k], l + 1)),
{
    assert(code_match(c, v, l));
    lemma_huff_decode_match(c, hv, v, l);
}

/// With no matching code of at most 16 bits the canonical decoding fails.
pub proof fn lemma_huff_decode_none(c: Seq<u8>, hv: Seq<u8>, v: Seq<bool>)
    requires
        forall|l: int| 0 <= l < 16 ==> !#[trigger] code_match(c, v, l),
    ensures
        huff_decode(c, hv, v) is None,
{
}

proof fn lemma_index_mono_bits(c: Seq<u8>, a: int, b: int)
    requires
        0 <= a <= b <= c.len(),
    ensures
        first_index(c, a) <= first_index(c, b),
{
    lemma_index_mono(c, a, b);
}

} // verus!
