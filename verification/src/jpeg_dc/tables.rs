use vstd::prelude::*;
use crate::jpeg_dc::reader::{ByteReader, be16};
use crate::jpeg_dc::huffman::{HuffTable, first_index, lemma_code_bounds, lemma_index_mono};

verus! {

/// Quantization tables by id (0..=3), as read so far.
pub open spec fn qview(v: Seq<Option<Vec<u16>>>) -> Seq<Option<Seq<u16>>> {
    v.map_values(|o: Option<Vec<u16>>| match o {
        Some(t) => Some(t@),
        None => None,
    })
}

/// Every quantization table present holds 64 entries.
pub open spec fn qwf(v: Seq<Option<Vec<u16>>>) -> bool {
    forall|i: int| 0 <= i < v.len() ==> (#[trigger] v[i] matches Some(t) ==> t@.len() == 64)
}

/// The entries of a DQT payload, from `q` on with `remaining` bytes announced, applied
/// to the tables `tabs`: the resulting tables and where the reading stops.
pub open spec fn dqt_spec(s: Seq<u8>, q: int, remaining: int, tabs: Seq<Option<Seq<u16>>>) -> Option<
    (Seq<Option<Seq<u16>>>, int),
>
    decreases remaining + 300,
{
    if remaining <= 0 {
        Some((tabs, q))
    } else if q < 0 || q >= s.len() {
        None
    } else {
        let prec = s[q] / 16;
        let tid = s[q] % 16;
        if tid > 3 {
            None
        } else if prec == 0 {
            if q + 65 > s.len() {
                None
            } else {
                dqt_spec(
                    s,
                    q + 65,
                    remaining - 65,
                    tabs.update(tid as int, Some(Seq::new(64, |i: int| s[q + 1 + i] as u16))),
                )
            }
        } else if prec == 1 {
            if q + 129 > s.len() {
                None
            } else {
                dqt_spec(
                    s,
                    q + 129,
                    remaining - 129,
                    tabs.update(tid as int, Some(Seq::new(64, |i: int| be16(s, q + 1 + 2 * i) as u16))),
                )
            }
        } else {
            None
        }
    }
}

pub proof fn lemma_dqt_advances(s: Seq<u8>, q: int, remaining: int, tabs: Seq<Option<Seq<u16>>>)
    ensures
        dqt_spec(s, q, remaining, tabs) matches Some((_, e)) ==> e >= q && (q <= s.len() ==> e <= s.len()),
    decreases remaining + 300,
{
    if remaining > 0 && 0 <= q < s.len() {
        let prec = s[q] / 16;
        let tid = s[q] % 16;
        if tid <= 3 && prec == 0 && q + 65 <= s.len() {
            lemma_dqt_advances(
                s,
                q + 65,
                remaining - 65,
                tabs.update(tid as int, Some(Seq::new(64, |i: int| s[q + 1 + i] as u16))),
            );
        } else if tid <= 3 && prec == 1 && q + 129 <= s.len() {
            lemma_dqt_advances(
                s,
                q + 129,
                remaining - 129,
                tabs.update(tid as int, Some(Seq::new(64, |i: int| be16(s, q + 1 + 2 * i) as u16))),
            );
        }
    }
}

/// What a DQT segment at `p` does to the quantization tables `tabs`.
pub open spec fn dqt_segment(s: Seq<u8>, p: int, tabs: Seq<Option<Seq<u16>>>) -> Option<
    (Seq<Option<Seq<u16>>>, int),
> {
    if p < 0 || p + 2 > s.len() || be16(s, p) < 2 {
        None
    } else {
        dqt_spec(s, p + 2, be16(s, p) - 2, tabs)
    }
}

proof fn lemma_nibbles(b: u8)
    ensures
        b >> 4u8 == b / 16,
        b & 0x0Fu8 == b % 16,
{
    assert(b >> 4u8 == b / 16) by (bit_vector);
    assert(b & 0x0Fu8 == b % 16) by (bit_vector);
}

pub proof fn lemma_dqt_segment_advances(s: Seq<u8>, p: int, tabs: Seq<Option<Seq<u16>>>)
    ensures
        dqt_segment(s, p, tabs) matches Some((_, e)) ==> e >= p + 2 && e <= s.len(),
{
    lemma_dqt_advances(s, p + 2, be16(s, p) - 2, tabs);
}

/// Parses a DQT segment, storing each table under its id.
#[verifier::loop_isolation(false)]
pub fn parse_dqt(r: &mut ByteReader, tables: &mut Vec<Option<Vec<u16>>>) -> (res: Option<()>)
    requires
        old(r).wf(),
        old(tables)@.len() == 4,
        qwf(old(tables)@),
    ensures
        final(r).wf(),
        final(r).bytes@ == old(r).bytes@,
        final(tables)@.len() == 4,
        qwf(final(tables)@),
        res is Some <==> dqt_segment(old(r).bytes@, old(r).pos as int, qview(old(tables)@)) is Some,
        res is Some ==> dqt_segment(old(r).bytes@, old(r).pos as int, qview(old(tables)@))
            == Some((qview(final(tables)@), final(r).pos as int)),
{
    let ghost s = r.bytes@;
    let ghost p = r.pos as int;
    let ghost t0 = qview(tables@);
    let len = match r.read_u16_be() {
        Some(v) => v,
        None => return None,
    };
    if len < 2 {
        return None;
    }
    let mut remaining: i32 = (len as i32) - 2;
    while remaining > 0
        invariant
            r.wf(),
            r.bytes@ == s,
            old(r).bytes@ == s,
            old(r).pos == p,
            qview(old(tables)@) == t0,
            tables@.len() == 4,
            qwf(tables@),
            p + 2 <= s.len(),
            be16(s, p) >= 2,
            remaining <= 65533,
            dqt_segment(s, p, t0) == dqt_spec(s, r.pos as int, remaining as int, qview(tables@)),
        decreases remaining + 300,
    {
        let ghost q = r.pos as int;
        let info = match r.read_u8() {
            Some(v) => v,
            None => return None,
        };
        proof {
            lemma_nibbles(info);
        }
        let precision = info >> 4u8;
        let tid = (info & 0x0Fu8) as usize;
        if tid > 3 {
            return None;
        }
        let mut t: Vec<u16> = Vec::new();
        if precision == 0 {
            let mut i: usize = 0;
            while i < 64
                invariant
                    r.wf(),
                    r.bytes@ == s,
                    0 <= i <= 64,
                    0 <= q,
                    r.pos == q + 1 + i,
                    t@.len() == i,
                    forall|j: int| 0 <= j < i ==> #[trigger] t@[j] == s[q + 1 + j] as u16,
                decreases 64 - i,
            {
                let b = match r.read_u8() {
                    Some(v) => v,
                    None => return None,
                };
                t.push(b as u16);
                i = i + 1;
            }
            remaining = remaining - 65;
            proof {
                assert(t@ =~= Seq::new(64, |j: int| s[q + 1 + j] as u16));
            }
        } else if precision == 1 {
            let mut i: usize = 0;
            while i < 64
                invariant
                    r.wf(),
                    r.bytes@ == s,
                    0 <= i <= 64,
                    0 <= q,
                    r.pos == q + 1 + 2 * i,
                    t@.len() == i,
                    forall|j: int| 0 <= j < i ==> #[trigger] t@[j] == be16(s, q + 1 + 2 * j) as u16,
                decreases 64 - i,
            {
                let v = match r.read_u16_be() {
                    Some(v) => v,
                    None => return None,
                };
                t.push(v);
                i = i + 1;
            }
            remaining = remaining - 129;
            proof {
                assert(t@ =~= Seq::new(64, |j: int| be16(s, q + 1 + 2 * j) as u16));
            }
        } else {
            return None;
        }
        let ghost before = qview(tables@);
        tables.set(tid, Some(t));
        proof {
            assert(qview(tables@) =~= before.update(tid as int, Some(t@)));
        }
    }
    Some(())
}

/// Huffman tables by id (0..=3), each seen as (code-length counts, symbols).
pub open spec fn hview(v: Seq<Option<HuffTable>>) -> Seq<Option<(Seq<u8>, Seq<u8>)>> {
    v.map_values(|o: Option<HuffTable>| match o {
        Some(t) => Some((t.counts@, t.huffval@)),
        None => None,
    })
}

/// Every table present is a well-formed canonical table.
pub open spec fn hwf(v: Seq<Option<HuffTable>>) -> bool {
    forall|i: int| 0 <= i < v.len() ==> (#[trigger] v[i] matches Some(t) ==> t.wf())
}

/// The entries of a DHT payload, from `q` on with `remaining` bytes announced, applied
/// to the DC and AC tables: the resulting tables and where the reading stops.
pub open spec fn dht_spec(
    s: Seq<u8>,
    q: int,
    remaining: int,
    dc: Seq<Option<(Seq<u8>, Seq<u8>)>>,
    ac: Seq<Option<(Seq<u8>, Seq<u8>)>>,
) -> Option<(Seq<Option<(Seq<u8>, Seq<u8>)>>, Seq<Option<(Seq<u8>, Seq<u8>)>>, int)>
    decreases remaining + 300,
{
    if remaining <= 0 {
        Some((dc, ac, q))
    } else if q < 0 || q + 17 > s.len() {
        None
    } else {
        let class = s[q] / 16;
        let tid = s[q] % 16;
        let counts = s.subrange(q + 1, q + 17);
        let total = first_index(counts, 16);
        if class > 1 || tid > 3 || total > 256 || q + 17 + total > s.len() {
            None
        } else {
            let hv = s.subrange(q + 17, q + 17 + total);
            proof {
                lemma_code_bounds(counts, 16);
            }
            if class == 0 {
                dht_spec(s, q + 17 + total, remaining - 17 - total, dc.update(tid as int, Some((counts, hv))), ac)
            } else {
                dht_spec(s, q + 17 + total, remaining - 17 - total, dc, ac.update(tid as int, Some((counts, hv))))
            }
        }
    }
}

pub proof fn lemma_dht_advances(
    s: Seq<u8>,
    q: int,
    remaining: int,
    dc: Seq<Option<(Seq<u8>, Seq<u8>)>>,
    ac: Seq<Option<(Seq<u8>, Seq<u8>)>>,
)
    ensures
        dht_spec(s, q, remaining, dc, ac) matches Some((_, _, e)) ==> e >= q && (q <= s.len() ==> e <= s.len()),
    decreases remaining + 300,
{
    if remaining > 0 && 0 <= q && q + 17 <= s.len() {
        let class = s[q] / 16;
        let tid = s[q] % 16;
        let counts = s.subrange(q + 1, q + 17);
        let total = first_index(counts, 16);
        lemma_code_bounds(counts, 16);
        if !(class > 1 || tid > 3 || total > 256 || q + 17 + total > s.len()) {
            let hv = s.subrange(q + 17, q + 17 + total);
            if class == 0 {
                lemma_dht_advances(s, q + 17 + total, remaining - 17 - total, dc.update(tid as int, Some((counts, hv))), ac);
            } else {
                lemma_dht_advances(s, q + 17 + total, remaining - 17 - total, dc, ac.update(tid as int, Some((counts, hv))));
            }
        }
    }
}

/// What a DHT segment at `p` does to the DC and AC tables.
pub open spec fn dht_segment(
    s: Seq<u8>,
    p: int,
    dc: Seq<Option<(Seq<u8>, Seq<u8>)>>,
    ac: Seq<Option<(Seq<u8>, Seq<u8>)>>,
) -> Option<(Seq<Option<(Seq<u8>, Seq<u8>)>>, Seq<Option<(Seq<u8>, Seq<u8>)>>, int)> {
    if p < 0 || p + 2 > s.len() || be16(s, p) < 2 {
        None
    } else {
        dht_spec(s, p + 2, be16(s, p) - 2, dc, ac)
    }
}

pub proof fn lemma_dht_segment_advances(
    s: Seq<u8>,
    p: int,
    dc: Seq<Option<(Seq<u8>, Seq<u8>)>>,
    ac: Seq<Option<(Seq<u8>, Seq<u8>)>>,
)
    ensures
        dht_segment(s, p, dc, ac) matches Some((_, _, e)) ==> e >= p + 2 && e <= s.len(),
{
    lemma_dht_advances(s, p + 2, be16(s, p) - 2, dc, ac);
}

/// Parses a DHT segment, building each table and storing it under its class and id.
#[verifier::loop_isolation(false)]
pub fn parse_dht(
    r: &mut ByteReader,
    dc_tables: &mut Vec<Option<HuffTable>>,
    ac_tables: &mut Vec<Option<HuffTable>>,
) -> (res: Option<()>)
    requires
        old(r).wf(),
        old(dc_tables)@.len() == 4,
        old(ac_tables)@.len() == 4,
        hwf(old(dc_tables)@),
        hwf(old(ac_tables)@),
    ensures
        final(r).wf(),
        final(r).bytes@ == old(r).bytes@,
        final(dc_tables)@.len() == 4,
        final(ac_tables)@.len() == 4,
        hwf(final(dc_tables)@),
        hwf(final(ac_tables)@),
        res is Some <==> dht_segment(
            old(r).bytes@,
            old(r).pos as int,
            hview(old(dc_tables)@),
            hview(old(ac_tables)@),
        ) is Some,
        res is Some ==> dht_segment(
            old(r).bytes@,
            old(r).pos as int,
            hview(old(dc_tables)@),
            hview(old(ac_tables)@),
        ) == Some((hview(final(dc_tables)@), hview(final(ac_tables)@), final(r).pos as int)),
{
    let ghost s = r.bytes@;
    let ghost p = r.pos as int;
    let ghost d0 = hview(dc_tables@);
    let ghost a0 = hview(ac_tables@);
    let len = match r.read_u16_be() {
        Some(v) => v,
        None => return None,
    };
    if len < 2 {
        return None;
    }
    let mut remaining: i32 = (len as i32) - 2;
    while remaining > 0
        invariant
            r.wf(),
            r.bytes@ == s,
            old(r).bytes@ == s,
            old(r).pos == p,
            hview(old(dc_tables)@) == d0,
            hview(old(ac_tables)@) == a0,
            dc_tables@.len() == 4,
            ac_tables@.len() == 4,
            hwf(dc_tables@),
            hwf(ac_tables@),
            p + 2 <= s.len(),
            be16(s, p) >= 2,
            remaining <= 65533,
            dht_segment(s, p, d0, a0) == dht_spec(
                s,
                r.pos as int,
                remaining as int,
                hview(dc_tables@),
                hview(ac_tables@),
            ),
        decreases remaining + 300,
    {
        let ghost q = r.pos as int;
        if r.bytes.len() - r.pos < 17 {
            return None;
        }
        let info = match r.read_u8() {
            Some(v) => v,
            None => return None,
        };
        proof {
            lemma_nibbles(info);
        }
        let class = info >> 4u8;
        let tid = (info & 0x0Fu8) as usize;
        if class > 1 || tid > 3 {
            return None;
        }
        let mut bits: Vec<u8> = Vec::new();
        let mut total: u32 = 0;
        let mut i: usize = 0;
        while i < 16
            invariant
                r.wf(),
                r.bytes@ == s,
                0 <= q,
                q + 17 <= s.len(),
                0 <= i <= 16,
                r.pos == q + 1 + i,
                bits@ == s.subrange(q + 1, q + 1 + i),
                total == first_index(bits@, i as int),
                total <= 255 * i,
            decreases 16 - i,
        {
            let b = match r.read_u8() {
                Some(v) => v,
                None => return None,
            };
            proof {
                lemma_index_prefix(bits@, b, i as int);
            }
            bits.push(b);
            total = total + b as u32;
            proof {
                assert(bits@ =~= s.subrange(q + 1, q + 1 + i + 1));
            }
            i = i + 1;
        }
        if total > 256 {
            return None;
        }
        let mut huffval: Vec<u8> = Vec::new();
        let mut k: u32 = 0;
        while k < total
            invariant
                r.wf(),
                r.bytes@ == s,
                0 <= q,
                0 <= k <= total,
                total <= 256,
                r.pos == q + 17 + k,
                huffval@ == s.subrange(q + 17, q + 17 + k),
            decreases total - k,
        {
            let b = match r.read_u8() {
                Some(v) => v,
                None => return None,
            };
            huffval.push(b);
            proof {
                assert(huffval@ =~= s.subrange(q + 17, q + 17 + k + 1));
            }
            k = k + 1;
        }
        remaining = remaining - 17 - total as i32;
        proof {
            lemma_index_mono(bits@, 8, 16);
        }
        let tbl = HuffTable::build(&bits, &huffval);
        if class == 0 {
            let ghost before = hview(dc_tables@);
            dc_tables.set(tid, Some(tbl));
            proof {
                assert(hview(dc_tables@) =~= before.update(tid as int, Some((bits@, huffval@))));
            }
        } else {
            let ghost before = hview(ac_tables@);
            ac_tables.set(tid, Some(tbl));
            proof {
                assert(hview(ac_tables@) =~= before.update(tid as int, Some((bits@, huffval@))));
            }
        }
    }
    Some(())
}

proof fn lemma_index_prefix(c: Seq<u8>, b: u8, i: int)
    requires
        0 <= i == c.len(),
    ensures
        first_index(c.push(b), i + 1) == first_index(c, i) + b,
        forall|j: int| 0 <= j <= i ==> first_index(c.push(b), j) == first_index(c, j),
{
    assert forall|j: int| 0 <= j <= i implies first_index(c.push(b), j) == first_index(c, j) by {
        lemma_index_prefix_eq(c, c.push(b), j);
    }
}

proof fn lemma_index_prefix_eq(a: Seq<u8>, b: Seq<u8>, j: int)
    requires
        0 <= j <= a.len(),
        j <= b.len(),
        forall|k: int| 0 <= k < j ==> a[k] == b[k],
    ensures
        first_index(a, j) == first_index(b, j),
    decreases j,
{
    if j > 0 {
        lemma_index_prefix_eq(a, b, j - 1);
    }
}

} // verus!
