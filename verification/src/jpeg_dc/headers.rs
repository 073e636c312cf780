use vstd::prelude::*;
use crate::jpeg_dc::reader::{ByteReader, be16};

verus! {

/// One image component of a frame header.
#[derive(Clone, Copy)]
pub struct Component {
    pub id: u8,
    pub h_samp: u8,
    pub v_samp: u8,
    pub qtable_id: u8,
}

/// Start-of-frame header (baseline or progressive).
pub struct FrameHeader {
    pub width: u16,
    pub height: u16,
    pub components: Vec<Component>,
    pub h_max: u8,
    pub v_max: u8,
    /// Index (into `components`) of the luma component.
    pub y_idx: usize,
    pub is_progressive: bool,
}

/// One component entry of a start-of-scan header.
pub struct ScanComponent {
    pub comp_idx: usize,
    pub dc_table: u8,
    pub ac_table: u8,
}

/// Start-of-scan header.
pub struct ScanHeader {
    pub components: Vec<ScanComponent>,
    pub ss: u8,
    pub se: u8,
    pub ah: u8,
    pub al: u8,
}

/// Sampling product of a component (blocks per MCU).
pub open spec fn samp_product(c: Component) -> int {
    c.h_samp * c.v_samp
}

impl FrameHeader {
    /// What every parsed frame header satisfies.
    pub open spec fn wf(&self) -> bool {
        let cs = self.components@;
        &&& cs.len() == 1 || cs.len() == 3
        &&& self.y_idx < cs.len()
        &&& 1 <= self.h_max <= 4
        &&& 1 <= self.v_max <= 4
        &&& forall|i: int|
            0 <= i < cs.len() ==> {
                &&& 1 <= #[trigger] cs[i].h_samp <= self.h_max
                &&& 1 <= cs[i].v_samp <= self.v_max
                &&& cs[i].qtable_id <= 3
            }
    }
}

impl ScanHeader {
    /// What every scan header parsed against `frame` satisfies.
    pub open spec fn wf_for(&self, frame: &FrameHeader) -> bool {
        let sc = self.components@;
        &&& 1 <= sc.len() <= frame.components@.len()
        &&& forall|i: int|
            0 <= i < sc.len() ==> {
                &&& #[trigger] sc[i].comp_idx < frame.components@.len()
                &&& sc[i].dc_table <= 3
                &&& sc[i].ac_table <= 3
            }
    }
}

/// First index at or after `q` that does not hold a 0xFF fill byte.
pub open spec fn ff_run_end(s: Seq<u8>, q: int) -> int
    decreases s.len() - q,
{
    if q < 0 || q >= s.len() || s[q] != 0xFF {
        q
    } else {
        ff_run_end(s, q + 1)
    }
}

/// A marker starts at `p`: 0xFF, any further 0xFF fill bytes, then a code byte
/// that is neither 0xFF nor 0x00.
pub open spec fn marker_at(s: Seq<u8>, p: int) -> bool {
    &&& 0 <= p < s.len()
    &&& s[p] == 0xFF
    &&& ff_run_end(s, p + 1) < s.len()
    &&& s[ff_run_end(s, p + 1)] != 0
}

pub proof fn lemma_ff_run_end(s: Seq<u8>, q: int)
    requires
        0 <= q <= s.len(),
    ensures
        q <= ff_run_end(s, q) <= s.len(),
        forall|i: int| q <= i < ff_run_end(s, q) ==> s[i] == 0xFF,
        ff_run_end(s, q) < s.len() ==> s[ff_run_end(s, q)] != 0xFF,
    decreases s.len() - q,
{
    if q < s.len() && s[q] == 0xFF {
        lemma_ff_run_end(s, q + 1);
    }
}

/// Reads a marker code, skipping 0xFF fill bytes.
pub fn read_marker(r: &mut ByteReader) -> (res: Option<u8>)
    requires
        old(r).wf(),
    ensures
        final(r).wf(),
        final(r).bytes@ == old(r).bytes@,
        res is Some <==> marker_at(old(r).bytes@, old(r).pos as int),
        res matches Some(m) ==> {
            let e = ff_run_end(old(r).bytes@, old(r).pos + 1);
            &&& m == old(r).bytes@[e]
            &&& final(r).pos == e + 1
        },
{
    let ghost s = r.bytes@;
    let ghost p = r.pos as int;
    let mut b = match r.read_u8() {
        Some(b) => b,
        None => return None,
    };
    if b != 0xFF {
        return None;
    }
    proof {
        lemma_ff_run_end(s, p + 1);
    }
    while b == 0xFF
        invariant
            r.wf(),
            r.bytes@ == s,
            old(r).bytes@ == s,
            old(r).pos == p,
            0 <= p < s.len(),
            p + 1 <= r.pos <= s.len(),
            s[p] == 0xFF,
            b == 0xFF ==> ff_run_end(s, p + 1) == ff_run_end(s, r.pos as int),
            b == 0xFF ==> forall|i: int| p + 1 <= i < r.pos ==> s[i] == 0xFF,
            b != 0xFF ==> r.pos - 1 == ff_run_end(s, p + 1) && b == s[r.pos - 1],
        decreases s.len() - r.pos,
    {
        let ghost q = r.pos as int;
        b = match r.read_u8() {
            Some(x) => x,
            None => {
                proof {
                    lemma_ff_run_end(s, q);
                }
                return None;
            },
        };
        proof {
            if b != 0xFF {
                assert(ff_run_end(s, q) == q);
            }
        }
    }
    if b == 0x00 {
        return None;
    }
    Some(b)
}

/// The three bytes at `q` form a valid frame component entry.
pub open spec fn sof_comp_ok(s: Seq<u8>, q: int) -> bool {
    &&& 1 <= s[q + 1] / 16 <= 4
    &&& 1 <= s[q + 1] % 16 <= 4
    &&& s[q + 2] <= 3
}

/// The component that the three bytes at `q` describe.
pub open spec fn sof_comp(s: Seq<u8>, q: int) -> Component {
    Component {
        id: s[q],
        h_samp: (s[q + 1] / 16) as u8,
        v_samp: (s[q + 1] % 16) as u8,
        qtable_id: s[q + 2],
    }
}

/// JPEG B.2.2: the three bytes of frame component `i` are its identifier, its
/// sampling byte, whose high nibble is the horizontal sampling factor and low nibble
/// the vertical one, and its quantization table selector.
pub proof fn lemma_frame_component_bytes(f: &FrameHeader, s: Seq<u8>, p: int, progressive: bool, i: int)
    requires
        sof_matches(f, s, p, progressive),
        0 <= i < s[p + 7],
    ensures
        f.components@[i].id == s[p + 8 + 3 * i],
        f.components@[i].h_samp == s[p + 9 + 3 * i] / 16,
        f.components@[i].v_samp == s[p + 9 + 3 * i] % 16,
        f.components@[i].qtable_id == s[p + 10 + 3 * i],
{
    assert(f.components@[i] == sof_comp(s, p + 8 + 3 * i));
}

/// A supported start-of-frame payload (after the marker) starts at `p`:
/// 8-bit precision, one or three components with sampling factors 1..=4.
pub open spec fn sof_ok(s: Seq<u8>, p: int) -> bool {
    &&& 0 <= p
    &&& p + 8 <= s.len()
    &&& s[p + 2] == 8
    &&& (s[p + 7] == 1 || s[p + 7] == 3)
    &&& be16(s, p) == 8 + 3 * s[p + 7]
    &&& p + 8 + 3 * s[p + 7] <= s.len()
    &&& forall|i: int| 0 <= i < s[p + 7] ==> #[trigger] sof_comp_ok(s, p + 8 + 3 * i)
}

/// The frame header that the payload at `p` describes.
pub open spec fn sof_matches(f: &FrameHeader, s: Seq<u8>, p: int, progressive: bool) -> bool {
    let n = s[p + 7] as int;
    let cs = f.components@;
    &&& f.height == be16(s, p + 3)
    &&& f.width == be16(s, p + 5)
    &&& f.is_progressive == progressive
    &&& cs.len() == n
    &&& forall|i: int| 0 <= i < n ==> #[trigger] cs[i] == sof_comp(s, p + 8 + 3 * i)
    &&& forall|i: int| 0 <= i < n ==> #[trigger] cs[i].h_samp <= f.h_max
    &&& exists|i: int| 0 <= i < n && #[trigger] cs[i].h_samp == f.h_max
    &&& forall|i: int| 0 <= i < n ==> #[trigger] cs[i].v_samp <= f.v_max
    &&& exists|i: int| 0 <= i < n && #[trigger] cs[i].v_samp == f.v_max
    // luma: the first component with the largest sampling product
    &&& forall|i: int| 0 <= i < n ==> samp_product(#[trigger] cs[i]) <= samp_product(cs[f.y_idx as int])
    &&& forall|i: int| 0 <= i < f.y_idx ==> samp_product(#[trigger] cs[i]) < samp_product(cs[f.y_idx as int])
}

proof fn lemma_samp_bits(b: u8)
    ensures
        b >> 4u8 == b / 16,
        b & 0x0Fu8 == b % 16,
{
    assert(b >> 4u8 == b / 16) by (bit_vector);
    assert(b & 0x0Fu8 == b % 16) by (bit_vector);
}

/// Parses a SOF0/SOF2 segment (the reader stands just after the marker).
pub fn parse_sof_any(r: &mut ByteReader, is_progressive: bool) -> (res: Option<FrameHeader>)
    requires
        old(r).wf(),
    ensures
        final(r).wf(),
        final(r).bytes@ == old(r).bytes@,
        res is Some <==> sof_ok(old(r).bytes@, old(r).pos as int),
        res matches Some(f) ==> {
            &&& f.wf()
            &&& sof_matches(&f, old(r).bytes@, old(r).pos as int, is_progressive)
            &&& final(r).pos == old(r).pos + 8 + 3 * old(r).bytes@[old(r).pos + 7]
        },
{
    let ghost s = r.bytes@;
    let ghost p = r.pos as int;
    let len = match r.read_u16_be() {
        Some(v) => v,
        None => return None,
    };
    if len < 8 {
        return None;
    }
    let precision = match r.read_u8() {
        Some(v) => v,
        None => return None,
    };
    if precision != 8 {
        return None;
    }
    let height = match r.read_u16_be() {
        Some(v) => v,
        None => return None,
    };
    let width = match r.read_u16_be() {
        Some(v) => v,
        None => return None,
    };
    let ncomp = match r.read_u8() {
        Some(v) => v,
        None => return None,
    };
    if ncomp != 1 && ncomp != 3 {
        return None;
    }
    let expected_len: u16 = 8u16 + (ncomp as u16) * 3;
    if len != expected_len {
        return None;
    }
    assert(r.pos == p + 8);
    let mut components: Vec<Component> = Vec::new();
    let mut h_max: u8 = 1;
    let mut v_max: u8 = 1;
    let mut i: u8 = 0;
    while i < ncomp
        invariant
            r.wf(),
            r.bytes@ == s,
            old(r).bytes@ == s,
            old(r).pos == p,
            0 <= p,
            p + 8 <= s.len(),
            s[p + 7] == ncomp,
            ncomp == 1 || ncomp == 3,
            height == be16(s, p + 3),
            width == be16(s, p + 5),
            s[p + 2] == 8,
            be16(s, p) == 8 + 3 * ncomp,
            0 <= i <= ncomp,
            r.pos == p + 8 + 3 * i,
            components@.len() == i,
            1 <= h_max <= 4,
            1 <= v_max <= 4,
            forall|j: int| 0 <= j < i ==> #[trigger] sof_comp_ok(s, p + 8 + 3 * j),
            forall|j: int| 0 <= j < i ==> #[trigger] components@[j] == sof_comp(s, p + 8 + 3 * j),
            forall|j: int|
                0 <= j < i ==> #[trigger] components@[j].h_samp <= h_max
                    && components@[j].v_samp <= v_max,
            h_max == 1 || exists|j: int| 0 <= j < i && #[trigger] components@[j].h_samp == h_max,
            v_max == 1 || exists|j: int| 0 <= j < i && #[trigger] components@[j].v_samp == v_max,
        decreases ncomp - i,
    {
        let ghost q = r.pos as int;
        let id = match r.read_u8() {
            Some(v) => v,
            None => return None,
        };
        let samp = match r.read_u8() {
            Some(v) => v,
            None => return None,
        };
        let h = samp >> 4u8;
        let v = samp & 0x0Fu8;
        let qid = match r.read_u8() {
            Some(v) => v,
            None => return None,
        };
        proof {
            lemma_samp_bits(samp);
        }
        if h == 0 || h > 4 || v == 0 || v > 4 || qid > 3 {
            proof {
                assert(q == p + 8 + 3 * i);
                assert(!sof_comp_ok(s, p + 8 + 3 * i));
            }
            return None;
        }
        let ghost old_comps = components@;
        let ghost old_h = h_max;
        let ghost old_v = v_max;
        if h > h_max {
            h_max = h;
        }
        if v > v_max {
            v_max = v;
        }
        components.push(Component { id, h_samp: h, v_samp: v, qtable_id: qid });
        proof {
            assert(q == p + 8 + 3 * i);
            assert(sof_comp_ok(s, q));
            assert(components@[i as int] == sof_comp(s, q));
            assert(forall|j: int| 0 <= j < i ==> components@[j] == old_comps[j]);
            if h_max != 1 {
                if h_max == h {
                    assert(components@[i as int].h_samp == h_max);
                } else {
                    let w = choose|j: int| 0 <= j < i && #[trigger] old_comps[j].h_samp == old_h;
                    assert(components@[w].h_samp == h_max);
                }
            }
            if v_max != 1 {
                if v_max == v {
                    assert(components@[i as int].v_samp == v_max);
                } else {
                    let w = choose|j: int| 0 <= j < i && #[trigger] old_comps[j].v_samp == old_v;
                    assert(components@[w].v_samp == v_max);
                }
            }
        }
        i = i + 1;
    }
    proof {
        assert forall|j: int| 0 <= j < components@.len() implies {
            &&& 1 <= #[trigger] components@[j].h_samp <= h_max
            &&& 1 <= components@[j].v_samp <= v_max
            &&& components@[j].qtable_id <= 3
        } by {
            assert(sof_comp_ok(s, p + 8 + 3 * j));
            assert(components@[j] == sof_comp(s, p + 8 + 3 * j));
        }
        assert(sof_comp_ok(s, p + 8 + 3 * 0));
        assert(components@[0] == sof_comp(s, p + 8 + 3 * 0));
        assert(components@[0].h_samp >= 1);
        if h_max == 1 {
            assert(components@[0].h_samp == h_max);
        }
        if v_max == 1 {
            assert(components@[0].v_samp == v_max);
        }
    }
    let y_idx: usize = if components.len() == 1 {
        0
    } else {
        let mut best: usize = 0;
        let mut best_score: u16 = 0;
        let mut k: usize = 0;
        while k < components.len()
            invariant
                components@.len() == 3,
                0 <= k <= 3,
                best < 3,
                forall|j: int| 0 <= j < 3 ==> 1 <= #[trigger] components@[j].h_samp <= 4 && 1
                    <= components@[j].v_samp <= 4,
                k == 0 ==> best_score == 0 && best == 0,
                k > 0 ==> best < k && best_score == samp_product(components@[best as int]),
                forall|j: int| 0 <= j < k ==> samp_product(#[trigger] components@[j]) <= best_score,
                forall|j: int| 0 <= j < best ==> samp_product(#[trigger] components@[j]) < best_score,
            decreases 3 - k,
        {
            let c = components[k];
            assert(c.h_samp * c.v_samp <= 16) by (nonlinear_arith)
                requires
                    1 <= c.h_samp <= 4,
                    1 <= c.v_samp <= 4,
            ;
            assert(c.h_samp * c.v_samp >= 1) by (nonlinear_arith)
                requires
                    1 <= c.h_samp <= 4,
                    1 <= c.v_samp <= 4,
            ;
            let sc: u16 = c.h_samp as u16 * c.v_samp as u16;
            if sc > best_score {
                best_score = sc;
                best = k;
            }
            k = k + 1;
        }
        best
    };
    proof {
        if components@.len() == 1 {
            assert(y_idx == 0);
        }
    }
    Some(FrameHeader { width, height, components, h_max, v_max, y_idx, is_progressive })
}

/// A restart-interval payload stands at `p`: its length field is 4.
pub open spec fn dri_ok(s: Seq<u8>, p: int) -> bool {
    0 <= p && p + 4 <= s.len() && be16(s, p) == 4
}

/// Parses a DRI segment and returns the restart interval.
pub fn parse_dri(r: &mut ByteReader) -> (res: Option<u16>)
    requires
        old(r).wf(),
    ensures
        final(r).wf(),
        final(r).bytes@ == old(r).bytes@,
        res is Some <==> dri_ok(old(r).bytes@, old(r).pos as int),
        res matches Some(v) ==> v == be16(old(r).bytes@, old(r).pos + 2) && final(r).pos == old(
            r,
        ).pos + 4,
{
    let len = match r.read_u16_be() {
        Some(v) => v,
        None => return None,
    };
    if len != 4 {
        return None;
    }
    r.read_u16_be()
}

/// A length-prefixed segment of at least its own length field stands at `p`.
pub open spec fn segment_ok(s: Seq<u8>, p: int) -> bool {
    0 <= p && p + 2 <= s.len() && be16(s, p) >= 2 && p + be16(s, p) <= s.len()
}

/// Skips a length-prefixed segment.
pub fn skip_segment(r: &mut ByteReader) -> (res: Option<()>)
    requires
        old(r).wf(),
    ensures
        final(r).wf(),
        final(r).bytes@ == old(r).bytes@,
        res is Some <==> segment_ok(old(r).bytes@, old(r).pos as int),
        res is Some ==> final(r).pos == old(r).pos + be16(old(r).bytes@, old(r).pos as int),
{
    let len = match r.read_u16_be() {
        Some(v) => v,
        None => return None,
    };
    if len < 2 {
        return None;
    }
    r.skip((len as usize) - 2)
}

/// The frame holds a component with this id.
pub open spec fn has_id(cs: Seq<Component>, id: u8) -> bool {
    exists|j: int| 0 <= j < cs.len() && #[trigger] cs[j].id == id
}

/// `k` is the first index of a component with this id.
pub open spec fn first_with_id(cs: Seq<Component>, id: u8, k: int) -> bool {
    &&& 0 <= k < cs.len()
    &&& cs[k].id == id
    &&& forall|j: int| 0 <= j < k ==> #[trigger] cs[j].id != id
}

/// A supported start-of-scan payload stands at `p` for a frame with these components.
pub open spec fn sos_ok(s: Seq<u8>, p: int, cs: Seq<Component>) -> bool {
    let n = s[p + 2] as int;
    &&& 0 <= p
    &&& p + 3 <= s.len()
    &&& 1 <= n <= cs.len()
    &&& be16(s, p) == 6 + 2 * n
    &&& p + 6 + 2 * n <= s.len()
    &&& forall|i: int|
        0 <= i < n ==> {
            &&& #[trigger] s[p + 3 + 2 * i + 1] / 16 <= 3
            &&& s[p + 3 + 2 * i + 1] % 16 <= 3
            &&& has_id(cs, s[p + 3 + 2 * i])
        }
}

/// The scan header that the payload at `p` describes.
pub open spec fn sos_matches(h: &ScanHeader, s: Seq<u8>, p: int, cs: Seq<Component>) -> bool {
    let n = s[p + 2] as int;
    let q = p + 3 + 2 * n;
    &&& h.components@.len() == n
    &&& forall|i: int|
        0 <= i < n ==> {
            &&& first_with_id(cs, s[p + 3 + 2 * i], #[trigger] h.components@[i].comp_idx as int)
            &&& h.components@[i].dc_table == s[p + 3 + 2 * i + 1] / 16
            &&& h.components@[i].ac_table == s[p + 3 + 2 * i + 1] % 16
        }
    &&& h.ss == s[q]
    &&& h.se == s[q + 1]
    &&& h.ah == s[q + 2] / 16
    &&& h.al == s[q + 2] % 16
}

/// Parses a SOS segment (the reader stands just after the marker).
pub fn parse_sos(r: &mut ByteReader, frame: &FrameHeader) -> (res: Option<ScanHeader>)
    requires
        old(r).wf(),
        frame.wf(),
    ensures
        final(r).wf(),
        final(r).bytes@ == old(r).bytes@,
        res is Some <==> sos_ok(old(r).bytes@, old(r).pos as int, frame.components@),
        res matches Some(h) ==> {
            &&& h.wf_for(frame)
            &&& sos_matches(&h, old(r).bytes@, old(r).pos as int, frame.components@)
            &&& final(r).pos == old(r).pos + 6 + 2 * old(r).bytes@[old(r).pos + 2]
        },
{
    let ghost s = r.bytes@;
    let ghost p = r.pos as int;
    let ghost cs = frame.components@;
    let len = match r.read_u16_be() {
        Some(v) => v,
        None => return None,
    };
    if len < 6 {
        return None;
    }
    let ncomp = match r.read_u8() {
        Some(v) => v,
        None => return None,
    };
    if ncomp == 0 || ncomp as usize > frame.components.len() {
        return None;
    }
    let expected_len: u16 = 6u16 + (ncomp as u16) * 2;
    if len != expected_len {
        return None;
    }
    let mut scan_components: Vec<ScanComponent> = Vec::new();
    let mut i: u8 = 0;
    while i < ncomp
        invariant
            r.wf(),
            r.bytes@ == s,
            old(r).bytes@ == s,
            old(r).pos == p,
            frame.wf(),
            cs == frame.components@,
            0 <= p,
            p + 3 <= s.len(),
            s[p + 2] == ncomp,
            1 <= ncomp <= cs.len(),
            be16(s, p) == 6 + 2 * ncomp,
            0 <= i <= ncomp,
            r.pos == p + 3 + 2 * i,
            scan_components@.len() == i,
            forall|j: int|
                0 <= j < i ==> {
                    &&& #[trigger] s[p + 3 + 2 * j + 1] / 16 <= 3
                    &&& s[p + 3 + 2 * j + 1] % 16 <= 3
                    &&& has_id(cs, s[p + 3 + 2 * j])
                },
            forall|j: int|
                0 <= j < i ==> {
                    &&& first_with_id(cs, s[p + 3 + 2 * j], #[trigger] scan_components@[j].comp_idx as int)
                    &&& scan_components@[j].dc_table == s[p + 3 + 2 * j + 1] / 16
                    &&& scan_components@[j].ac_table == s[p + 3 + 2 * j + 1] % 16
                },
        decreases ncomp - i,
    {
        let ghost q = r.pos as int;
        let cid = match r.read_u8() {
            Some(v) => v,
            None => return None,
        };
        let tables = match r.read_u8() {
            Some(v) => v,
            None => return None,
        };
        let dc_t = tables >> 4u8;
        let ac_t = tables & 0x0Fu8;
        proof {
            lemma_samp_bits(tables);
        }
        if dc_t > 3 || ac_t > 3 {
            return None;
        }
        let mut k: usize = 0;
        while k < frame.components.len() && frame.components[k].id != cid
            invariant
                0 <= k <= cs.len(),
                cs == frame.components@,
                forall|j: int| 0 <= j < k ==> #[trigger] cs[j].id != cid,
            decreases cs.len() - k,
        {
            k = k + 1;
        }
        if k == frame.components.len() {
            return None;
        }
        scan_components.push(ScanComponent { comp_idx: k, dc_table: dc_t, ac_table: ac_t });
        proof {
            assert(q == p + 3 + 2 * i);
            assert(s[q] == cid && s[q + 1] == tables);
            assert(cs[k as int].id == cid);
            assert(has_id(cs, s[q]));
            assert(first_with_id(cs, s[q], k as int));
        }
        i = i + 1;
    }
    let ss = match r.read_u8() {
        Some(v) => v,
        None => return None,
    };
    let se = match r.read_u8() {
        Some(v) => v,
        None => return None,
    };
    let ah_al = match r.read_u8() {
        Some(v) => v,
        None => return None,
    };
    proof {
        lemma_samp_bits(ah_al);
    }
    let h = ScanHeader { components: scan_components, ss, se, ah: ah_al >> 4u8, al: ah_al & 0x0Fu8 };
    proof {
        assert forall|j: int| 0 <= j < h.components@.len() implies #[trigger] h.components@[j].comp_idx
            < frame.components@.len() && h.components@[j].dc_table <= 3
            && h.components@[j].ac_table <= 3 by {
            assert(first_with_id(cs, s[p + 3 + 2 * j], h.components@[j].comp_idx as int));
        }
    }
    Some(h)
}

} // verus!
