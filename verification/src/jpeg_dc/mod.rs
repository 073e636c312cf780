//! DC-only JPEG decoder producing a 1/8-scale grayscale thumbnail.
//!
//! Only the DC coefficient of each 8x8 luma block is kept: one thumbnail pixel per
//! block. Baseline sequential scans are decoded whole (AC symbols are read to move
//! through the bitstream, their values dropped); of a progressive file only the first,
//! DC-only scan is decoded. 8-bit precision, one or three components.

pub mod reader;
pub mod headers;
pub mod huffman;
pub mod tables;
pub mod bitseq;
pub mod bits;
pub mod scan;
pub mod entropy;

use vstd::prelude::*;
use crate::jpeg_dc::reader::{ByteReader, be16};
use crate::jpeg_dc::headers::{
    FrameHeader, ScanHeader, Component, sos_matches, marker_at, ff_run_end, lemma_ff_run_end, sof_ok, sof_comp, sof_matches,
    dri_ok, segment_ok, sos_ok, read_marker, parse_sof_any, parse_dri, parse_sos, skip_segment,
};
use crate::jpeg_dc::tables::{
    qview, qwf, hview, hwf, dqt_segment, dht_segment, parse_dqt, parse_dht, lemma_dqt_segment_advances,
    lemma_dht_segment_advances,
};
use crate::jpeg_dc::huffman::HuffTable;
use crate::jpeg_dc::entropy::ends_in_ff;
use crate::jpeg_dc::scan::{
    ceil_div, min, mcu_grid_w, mcu_grid_h, luma_full, baseline_result, progressive_result, decode_baseline_scan,
    decode_progressive_dc_scan,
};

verus! {

/// Decoded 1/8-scale thumbnail: one pixel per 8x8 luma block, row-major.
pub struct DcThumbnail {
    pub gray: Vec<u8>,
    pub width: u32,
    pub height: u32,
}

/// What the segments before the first scan have set up: where the (last) frame header's
/// payload starts and whether it is progressive, the quantization tables, the DC and
/// AC Huffman tables (code-length counts, symbols), and the restart interval.
pub struct HeaderState {
    pub sof: Option<(int, bool)>,
    pub q: Seq<Option<Seq<u16>>>,
    pub dc: Seq<Option<(Seq<u8>, Seq<u8>)>>,
    pub ac: Seq<Option<(Seq<u8>, Seq<u8>)>>,
    pub restart: int,
}

pub open spec fn no_tables<T>() -> Seq<Option<T>> {
    seq![None, None, None, None]
}

/// The state before any segment.
pub open spec fn initial_state() -> HeaderState {
    HeaderState { sof: None, q: no_tables(), dc: no_tables(), ac: no_tables(), restart: 0 }
}

/// Walks the marker segments from byte `p` on up to and including the SOS marker:
/// the state then, and where the SOS payload starts. `None` for a malformed segment,
/// an extended-sequential frame (SOF1) or an unsupported frame header.
pub open spec fn walk(s: Seq<u8>, p: int, st: HeaderState) -> Option<(HeaderState, int)>
    decreases s.len() - p,
{
    if !marker_at(s, p) {
        None
    } else {
        let e = ff_run_end(s, p + 1);
        let m = s[e];
        let q = e + 1;
        proof {
            lemma_ff_run_end(s, p + 1);
            lemma_dqt_segment_advances(s, q, st.q);
            lemma_dht_segment_advances(s, q, st.dc, st.ac);
        }
        if m == 0xC0 || m == 0xC2 {
            if sof_ok(s, q) {
                walk(
                    s,
                    q + 8 + 3 * s[q + 7],
                    HeaderState { sof: Some((q, m == 0xC2)), ..st },
                )
            } else {
                None
            }
        } else if m == 0xC1 {
            None
        } else if m == 0xDB {
            match dqt_segment(s, q, st.q) {
                Some((t, q2)) => walk(s, q2, HeaderState { q: t, ..st }),
                None => None,
            }
        } else if m == 0xC4 {
            match dht_segment(s, q, st.dc, st.ac) {
                Some((d, a, q2)) => walk(s, q2, HeaderState { dc: d, ac: a, ..st }),
                None => None,
            }
        } else if m == 0xDD {
            if dri_ok(s, q) {
                walk(s, q + 4, HeaderState { restart: be16(s, q + 2), ..st })
            } else {
                None
            }
        } else if m == 0xDA {
            Some((st, q))
        } else if segment_ok(s, q) {
            walk(s, q + be16(s, q), st)
        } else {
            None
        }
    }
}

/// The components of the frame header whose payload starts at `fp`.
pub open spec fn frame_comps(s: Seq<u8>, fp: int) -> Seq<Component> {
    Seq::new(s[fp + 7] as nat, |i: int| sof_comp(s, fp + 8 + 3 * i))
}

/// The scan whose header payload starts at `q` is one this decoder handles: a full
/// baseline scan of a sequential frame, or a first DC-only scan of a progressive one.
pub open spec fn scan_supported(s: Seq<u8>, q: int, progressive: bool) -> bool {
    let k = q + 3 + 2 * s[q + 2];
    let ss = s[k];
    let se = s[k + 1];
    let ah = s[k + 2] / 16;
    let al = s[k + 2] % 16;
    if progressive {
        ss == 0 && se == 0 && ah == 0
    } else {
        ss == 0 && se == 63 && ah == 0 && al == 0
    }
}

/// What the first scan, whose entropy-coded data is `ecs`, yields (pixels, width,
/// height) for frame `f` and scan header `h` with the tables and restart interval that
/// the segments before it set up.
pub open spec fn scan_result(ecs: Seq<u8>, f: &FrameHeader, h: &ScanHeader, st: HeaderState, strict: bool) -> Option<
    (Seq<u8>, int, int),
> {
    if f.is_progressive {
        progressive_result(ecs, f, h, st.q, st.dc, st.restart as u16, strict)
    } else {
        baseline_result(ecs, f, h, st.q, st.dc, st.ac, st.restart as u16, strict)
    }
}

/// JPEG bytes to a 1/8-scale grayscale thumbnail from the DC coefficients. `None`
/// when the file is not a supported baseline/progressive JPEG or is corrupt; the
/// caller then falls back to a full decoder.
///
/// A thumbnail returned is what the headers and the first scan describe
/// (`scan_result`). One is returned whenever the headers are supported and the scan
/// decodes strictly (each restart interval leaving at most its padding unread) and
/// the input does not end in a 0xFF byte.
pub fn decode_dc_thumbnail(bytes: &[u8]) -> (res: Option<DcThumbnail>)
    ensures
        res matches Some(t) ==> {
            let s = bytes@;
            &&& s.len() >= 2
            &&& s[0] == 0xFF
            &&& s[1] == 0xD8
            &&& walk(s, 2, initial_state()) matches Some((st, q)) && st.sof matches Some((fp, prog))
                && {
                &&& sos_ok(s, q, frame_comps(s, fp))
                &&& scan_supported(s, q, prog)
                &&& exists|f: FrameHeader, h: ScanHeader|
                    #![trigger sof_matches(&f, s, fp, prog), sos_matches(&h, s, q, frame_comps(s, fp))]
                    sof_matches(&f, s, fp, prog) && f.wf() && sos_matches(&h, s, q, frame_comps(s, fp))
                        && scan_result(s.subrange(q + 6 + 2 * s[q + 2], s.len() as int), &f, &h, st, false)
                        == Some((t.gray@, t.width as int, t.height as int))
                &&& prog ==> t.width == ceil_div(be16(s, fp + 5), 8) && t.height == ceil_div(
                    be16(s, fp + 3),
                    8,
                )
                &&& !prog ==> exists|f: FrameHeader|
                    #![trigger sof_matches(&f, s, fp, prog)]
                    sof_matches(&f, s, fp, prog) && f.wf() && t.width == min(
                        ceil_div(if f.width == 0 { 1 } else { f.width as int }, 8),
                        mcu_grid_w(&f),
                    ) && t.height == min(
                        ceil_div(if f.height == 0 { 1 } else { f.height as int }, 8),
                        mcu_grid_h(&f),
                    ) && (luma_full(&f) ==> t.width == ceil_div(f.width as int, 8) && t.height
                        == ceil_div(f.height as int, 8))
            }
            &&& t.gray@.len() == t.width * t.height
        },
        ({
            let s = bytes@;
            s.len() >= 2 && s[0] == 0xFF && s[1] == 0xD8 && !ends_in_ff(s) ==> (walk(
                s,
                2,
                initial_state(),
            ) matches Some((st, q)) ==> (st.sof matches Some((fp, prog)) ==> (sos_ok(
                s,
                q,
                frame_comps(s, fp),
            ) && scan_supported(s, q, prog) && (forall|f: FrameHeader, h: ScanHeader|
                #![trigger sof_matches(&f, s, fp, prog), sos_matches(&h, s, q, frame_comps(s, fp))]
                sof_matches(&f, s, fp, prog) && f.wf() && sos_matches(&h, s, q, frame_comps(s, fp))
                    ==> scan_result(s.subrange(q + 6 + 2 * s[q + 2], s.len() as int), &f, &h, st, true)
                    is Some) ==> res is Some)))
        }),
{
    let ghost s = bytes@;
    let mut r = ByteReader::new(bytes);
    let b0 = match r.read_u8() {
        Some(b) => b,
        None => return None,
    };
    let b1 = match r.read_u8() {
        Some(b) => b,
        None => return None,
    };
    if b0 != 0xFF || b1 != 0xD8 {
        return None;
    }
    let mut frame: Option<FrameHeader> = None;
    let mut qtables: Vec<Option<Vec<u16>>> = Vec::new();
    let mut dc_tables: Vec<Option<HuffTable>> = Vec::new();
    let mut ac_tables: Vec<Option<HuffTable>> = Vec::new();
    let mut i: usize = 0;
    while i < 4
        invariant
            0 <= i <= 4,
            qtables@.len() == i,
            dc_tables@.len() == i,
            ac_tables@.len() == i,
            forall|j: int| 0 <= j < i ==> #[trigger] qtables@[j] is None,
            forall|j: int| 0 <= j < i ==> #[trigger] dc_tables@[j] is None,
            forall|j: int| 0 <= j < i ==> #[trigger] ac_tables@[j] is None,
        decreases 4 - i,
    {
        qtables.push(None);
        dc_tables.push(None);
        ac_tables.push(None);
        i = i + 1;
    }
    let mut restart_interval: u16 = 0;
    let ghost mut sof: Option<(int, bool)> = None;
    proof {
        assert(qview(qtables@) =~= no_tables());
        assert(hview(dc_tables@) =~= no_tables());
        assert(hview(ac_tables@) =~= no_tables());
    }
    loop
        invariant_except_break
            r.wf(),
            r.bytes@ == s,
            bytes@ == s,
            qtables@.len() == 4,
            dc_tables@.len() == 4,
            ac_tables@.len() == 4,
            qwf(qtables@),
            hwf(dc_tables@),
            hwf(ac_tables@),
            frame is Some <==> sof is Some,
            sof matches Some((fp, prog)) ==> frame matches Some(f) && f.wf() && sof_matches(&f, s, fp, prog),
            walk(s, 2, initial_state()) == walk(
                s,
                r.pos as int,
                HeaderState {
                    sof: sof,
                    q: qview(qtables@),
                    dc: hview(dc_tables@),
                    ac: hview(ac_tables@),
                    restart: restart_interval as int,
                },
            ),
        ensures
            r.wf(),
            r.bytes@ == s,
            qtables@.len() == 4,
            dc_tables@.len() == 4,
            ac_tables@.len() == 4,
            qwf(qtables@),
            hwf(dc_tables@),
            hwf(ac_tables@),
            frame is Some <==> sof is Some,
            sof matches Some((fp, prog)) ==> frame matches Some(f) && f.wf() && sof_matches(&f, s, fp, prog),
            walk(s, 2, initial_state()) == Some(
                (
                    HeaderState {
                        sof: sof,
                        q: qview(qtables@),
                        dc: hview(dc_tables@),
                        ac: hview(ac_tables@),
                        restart: restart_interval as int,
                    },
                    r.pos as int,
                ),
            ),
        decreases s.len() - r.pos,
    {
        let ghost p = r.pos as int;
        let ghost st = HeaderState {
            sof: sof,
            q: qview(qtables@),
            dc: hview(dc_tables@),
            ac: hview(ac_tables@),
            restart: restart_interval as int,
        };
        let marker = match read_marker(&mut r) {
            Some(m) => m,
            None => {
                assert(walk(s, p, st) is None);
                assert(walk(s, 2, initial_state()) is None);
                return None;
            },
        };
        let ghost q0 = r.pos as int;
        proof {
            lemma_ff_run_end(s, p + 1);
            lemma_dqt_segment_advances(s, q0, st.q);
            lemma_dht_segment_advances(s, q0, st.dc, st.ac);
        }
        if marker == 0xC0 || marker == 0xC2 {
            let ghost q = r.pos as int;
            let f = match parse_sof_any(&mut r, marker == 0xC2) {
                Some(f) => f,
                None => return None,
            };
            frame = Some(f);
            proof {
                sof = Some((q, marker == 0xC2));
            }
        } else if marker == 0xC1 {
            return None;
        } else if marker == 0xDB {
            match parse_dqt(&mut r, &mut qtables) {
                Some(_) => {},
                None => return None,
            }
        } else if marker == 0xC4 {
            match parse_dht(&mut r, &mut dc_tables, &mut ac_tables) {
                Some(_) => {},
                None => return None,
            }
        } else if marker == 0xDD {
            restart_interval = match parse_dri(&mut r) {
                Some(v) => v,
                None => return None,
            };
        } else if marker == 0xDA {
            break;
        } else {
            match skip_segment(&mut r) {
                Some(_) => {},
                None => {
                    assert(walk(s, p, st) is None);
                    assert(walk(s, 2, initial_state()) is None);
                    return None;
                },
            }
        }
    }
    let f = match frame {
        Some(f) => f,
        None => return None,
    };
    let ghost q = r.pos as int;
    proof {
        let fp = sof.unwrap().0;
        assert(f.components@ =~= frame_comps(s, fp));
    }
    let scan = match parse_sos(&mut r, &f) {
        Some(h) => h,
        None => return None,
    };
    let ecs = vstd::slice::slice_subrange(bytes, r.pos, bytes.len());
    let is_baseline_scan = scan.ss == 0 && scan.se == 63 && scan.ah == 0 && scan.al == 0;
    let is_progressive_dc_first = scan.ss == 0 && scan.se == 0 && scan.ah == 0;
    let ghost st = HeaderState {
        sof: sof,
        q: qview(qtables@),
        dc: hview(dc_tables@),
        ac: hview(ac_tables@),
        restart: restart_interval as int,
    };
    assert(ecs@ == s.subrange(q + 6 + 2 * s[q + 2], s.len() as int));
    if !f.is_progressive && is_baseline_scan {
        let res = decode_baseline_scan(ecs, &f, &scan, &qtables, &dc_tables, &ac_tables, restart_interval);
        proof {
            if res is Some {
                let fp = sof.unwrap().0;
                assert(sof_matches(&f, s, fp, false));
                assert(sos_matches(&scan, s, q, frame_comps(s, fp)));
                let t = res->0;
                assert(st.restart as u16 == restart_interval);
                assert(walk(s, 2, initial_state()) matches Some((st2, q2)) && st2.sof matches Some((fp2, prog2))
                    && exists|f2: FrameHeader, h2: ScanHeader|
                    #![trigger sof_matches(&f2, s, fp2, prog2), sos_matches(&h2, s, q2, frame_comps(s, fp2))]
                    sof_matches(&f2, s, fp2, prog2) && f2.wf() && sos_matches(&h2, s, q2, frame_comps(s, fp2))
                        && scan_result(s.subrange(q2 + 6 + 2 * s[q2 + 2], s.len() as int), &f2, &h2, st2, false)
                        == Some((t.gray@, t.width as int, t.height as int)));
            }
        }
        res
    } else if f.is_progressive && is_progressive_dc_first {
        assert(scan.al <= 15);
        let res = decode_progressive_dc_scan(ecs, &f, &scan, &qtables, &dc_tables, restart_interval);
        proof {
            if res is Some {
                let fp = sof.unwrap().0;
                assert(sof_matches(&f, s, fp, true));
                assert(sos_matches(&scan, s, q, frame_comps(s, fp)));
                let t = res->0;
                assert(st.restart as u16 == restart_interval);
                assert(walk(s, 2, initial_state()) matches Some((st2, q2)) && st2.sof matches Some((fp2, prog2))
                    && exists|f2: FrameHeader, h2: ScanHeader|
                    #![trigger sof_matches(&f2, s, fp2, prog2), sos_matches(&h2, s, q2, frame_comps(s, fp2))]
                    sof_matches(&f2, s, fp2, prog2) && f2.wf() && sos_matches(&h2, s, q2, frame_comps(s, fp2))
                        && scan_result(s.subrange(q2 + 6 + 2 * s[q2 + 2], s.len() as int), &f2, &h2, st2, false)
                        == Some((t.gray@, t.width as int, t.height as int)));
            }
        }
        res
    } else {
        None
    }
}

} // verus!
