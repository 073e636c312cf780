//! Entropy decoding of a scan, MCU by MCU, keeping one pixel per luma block.
//!
//! The model: a scan is a run of MCUs; before an MCU that completes a restart
//! interval the reader steps over an RSTn marker and the DC predictors restart at
//! zero; an MCU holds, for each scan component in turn, its blocks row by row; a block
//! is a DC difference (a Huffman-coded size category, then that many bits) and, in a
//! sequential scan, AC coefficients that are read past.
use vstd::prelude::*;
use crate::jpeg_dc::headers::{FrameHeader, ScanHeader, Component, ScanComponent};
use crate::jpeg_dc::tables::{hview, hwf};
use crate::jpeg_dc::huffman::HuffTable;
use crate::jpeg_dc::bitseq::{bits_val, lemma_nat_bits_len};
use crate::jpeg_dc::bits::{
    BitReader, stream, stream_end, rst_at, ends_in_lone_ff, huff_decode, extend,
};

verus! {

/// Integer division by 8 rounding toward zero, as `i32` division does.
pub open spec fn div8_trunc(x: int) -> int {
    if x >= 0 {
        x / 8
    } else {
        -((-x) / 8)
    }
}

/// `clamp(v, 0, 255)`.
pub open spec fn clamp_u8(v: int) -> u8 {
    if v < 0 {
        0
    } else if v > 255 {
        255
    } else {
        v as u8
    }
}

/// DC value to pixel: `dc * q / 8 + 128` (i32 arithmetic, wrapping), clamped to 0..=255.
pub fn dc_to_pixel(dc: i32, q: i32) -> (px: u8)
    ensures
        px == clamp_u8(div8_trunc(dc.wrapping_mul(q) as int) + 128),
{
    let recon: i32 = dc.wrapping_mul(q) / 8 + 128;
    if recon < 0 {
        0
    } else if recon > 255 {
        255
    } else {
        recon as u8
    }
}

/// The pixel of a block whose DC predictor holds `pred`: the predictor scaled back
/// by the point transform `al`, dequantized by `q`, divided by 8, level-shifted.
pub open spec fn pixel_of(pred: i32, al: u8, q: i32) -> u8 {
    clamp_u8(div8_trunc(pred.wrapping_shl(al as u32).wrapping_mul(q) as int) + 128)
}

/// The DC difference at the front of `bits`: its value and the bits after it.
pub open spec fn dc_diff(c: Seq<u8>, hv: Seq<u8>, bits: Seq<bool>) -> Option<(int, Seq<bool>)> {
    match huff_decode(c, hv, bits) {
        None => None,
        Some((sym, len)) => {
            let size = (sym % 16) as int;
            let rest = bits.skip(len);
            if rest.len() < size {
                None
            } else {
                Some((extend(bits_val(rest.take(size)) as int, size), rest.skip(size)))
            }
        },
    }
}

/// The bits after the AC coefficients of a block, coefficient `k` (1..=63) being the
/// next one: run/size symbols, ZRL (0xF0) skipping 16 and EOB (0x00) ending the block.
pub open spec fn ac_skip(c: Seq<u8>, hv: Seq<u8>, bits: Seq<bool>, k: int) -> Option<Seq<bool>>
    decreases 80 - k,
{
    if k >= 64 {
        Some(bits)
    } else {
        match huff_decode(c, hv, bits) {
            None => None,
            Some((sym, len)) => {
                let rest = bits.skip(len);
                if sym == 0 {
                    Some(rest)
                } else if sym == 0xF0 {
                    ac_skip(c, hv, rest, k + 16)
                } else if k + sym / 16 >= 64 || rest.len() < sym % 16 {
                    None
                } else {
                    ac_skip(c, hv, rest.skip((sym % 16) as int), k + sym / 16 + 1)
                }
            },
        }
    }
}

/// Per-scan constants of the MCU loop.
pub struct ScanLayout {
    /// MCUs per row.
    pub nx: u32,
    /// MCU rows.
    pub ny: u32,
    /// Blocks per MCU across and down by which a luma block's pixel is placed.
    pub bw: u32,
    pub bh: u32,
    /// Thumbnail row length.
    pub thumb_w: u32,
    /// Point transform of the DC values.
    pub al: u8,
    /// DC quantizer of the luma component.
    pub q: i32,
    /// Each block carries AC coefficients to read past.
    pub with_ac: bool,
    /// Each scan component contributes its whole sampling grid to an MCU (else one block).
    pub interleaved: bool,
    /// MCUs per restart interval (0: no restart markers).
    pub restart: u16,
}

impl ScanLayout {
    pub open spec fn wf(&self) -> bool {
        &&& self.nx <= 32768
        &&& self.ny <= 32768
        &&& 1 <= self.bw <= 4
        &&& 1 <= self.bh <= 4
        &&& self.thumb_w <= 32768
        &&& self.al <= 15
    }
}

/// Everything the MCU loop reads: the layout, the frame components and the luma
/// index, the scan components, and the DC and AC tables (code-length counts, symbols).
pub struct Plan {
    pub lay: ScanLayout,
    pub comps: Seq<Component>,
    pub y: int,
    pub scan: Seq<ScanComponent>,
    pub dcs: Seq<Option<(Seq<u8>, Seq<u8>)>>,
    pub acs: Seq<Option<(Seq<u8>, Seq<u8>)>>,
}

pub open spec fn plan_of(
    lay: ScanLayout,
    f: &FrameHeader,
    sc: &ScanHeader,
    dcs: Seq<Option<(Seq<u8>, Seq<u8>)>>,
    acs: Seq<Option<(Seq<u8>, Seq<u8>)>>,
) -> Plan {
    Plan { lay, comps: f.components@, y: f.y_idx as int, scan: sc.components@, dcs, acs }
}

/// Blocks across per MCU of scan component `si`.
pub open spec fn blocks_across(p: Plan, si: int) -> int {
    if p.lay.interleaved {
        p.comps[p.scan[si].comp_idx as int].h_samp as int
    } else {
        1
    }
}

/// Blocks down per MCU of scan component `si`.
pub open spec fn blocks_down(p: Plan, si: int) -> int {
    if p.lay.interleaved {
        p.comps[p.scan[si].comp_idx as int].v_samp as int
    } else {
        1
    }
}

/// Writes the pixel of block `b` of scan component `si` in MCU `i` (MCUs and blocks
/// in raster order) at its place in the thumbnail, if that place lies inside it.
pub open spec fn place(p: Plan, thumb: Seq<u8>, i: int, si: int, b: int, px: u8) -> Seq<u8> {
    let h = blocks_across(p, si);
    let row = (i / p.lay.nx as int) * p.lay.bh + b / h;
    let col = (i % p.lay.nx as int) * p.lay.bw + b % h;
    let idx = row * p.lay.thumb_w + col;
    if idx < thumb.len() {
        thumb.update(idx, px)
    } else {
        thumb
    }
}

/// JPEG A.2.3: the blocks of a component within an MCU are taken left to right, then
/// top to bottom. Block `by * h + bx` of MCU `my * nx + mx` (where `h` is the number of
/// blocks across) goes to thumbnail row `my * bh + by` and column `mx * bw + bx`: the
/// pixel of the block at block position (`mx * bw + bx`, `my * bh + by`) of the image.
pub proof fn lemma_place_raster(
    p: Plan,
    thumb: Seq<u8>,
    mx: int,
    my: int,
    si: int,
    bx: int,
    by: int,
    px: u8,
)
    requires
        0 <= mx < p.lay.nx,
        0 <= my,
        1 <= blocks_across(p, si),
        0 <= bx < blocks_across(p, si),
        0 <= by,
    ensures
        ({
            let idx = (my * p.lay.bh + by) * p.lay.thumb_w + mx * p.lay.bw + bx;
            place(p, thumb, my * p.lay.nx + mx, si, by * blocks_across(p, si) + bx, px) == if idx
                < thumb.len() {
                thumb.update(idx, px)
            } else {
                thumb
            }
        }),
{
    let nx = p.lay.nx as int;
    let h = blocks_across(p, si);
    assert(my * nx + mx == nx * my + mx) by (nonlinear_arith);
    vstd::arithmetic::div_mod::lemma_fundamental_div_mod_converse(my * nx + mx, nx, my, mx);
    assert(by * h + bx == h * by + bx) by (nonlinear_arith);
    vstd::arithmetic::div_mod::lemma_fundamental_div_mod_converse(by * h + bx, h, by, bx);
}

/// Decoder state inside a restart interval: the bits left, the DC predictor of each
/// frame component, and the thumbnail so far.
pub struct Cursor {
    pub bits: Seq<bool>,
    pub preds: Seq<i32>,
    pub thumb: Seq<u8>,
}

/// Decoder state between MCUs: the cursor, the byte at which the data of the current
/// restart interval starts, and how many MCUs it has held so far.
pub struct McuState {
    pub cur: Cursor,
    pub seg: int,
    pub since: int,
}

/// Decodes block `b` of scan component `si` in MCU `i`.
pub open spec fn block_step(p: Plan, c: Cursor, i: int, si: int, b: int) -> Option<Cursor> {
    let sc = p.scan[si];
    let ci = sc.comp_idx as int;
    match p.dcs[sc.dc_table as int] {
        None => None,
        Some(dc) => {
            if p.lay.with_ac && p.acs[sc.ac_table as int] is None {
                None
            } else {
                match dc_diff(dc.0, dc.1, c.bits) {
                    None => None,
                    Some((delta, rest)) => {
                        let pred = c.preds[ci].wrapping_add(delta as i32);
                        let thumb = if ci == p.y {
                            place(p, c.thumb, i, si, b, pixel_of(pred, p.lay.al, p.lay.q))
                        } else {
                            c.thumb
                        };
                        let after = if p.lay.with_ac {
                            let ac = p.acs[sc.ac_table as int]->0;
                            ac_skip(ac.0, ac.1, rest, 1)
                        } else {
                            Some(rest)
                        };
                        match after {
                            None => None,
                            Some(bits) => Some(Cursor { bits, preds: c.preds.update(ci, pred), thumb }),
                        }
                    },
                }
            }
        },
    }
}

/// The first `n` blocks of scan component `si` in MCU `i`.
pub open spec fn blocks(p: Plan, c: Cursor, i: int, si: int, n: int) -> Option<Cursor>
    decreases n,
{
    if n <= 0 {
        Some(c)
    } else {
        match blocks(p, c, i, si, n - 1) {
            Some(c1) => block_step(p, c1, i, si, n - 1),
            None => None,
        }
    }
}

/// The first `n` scan components of MCU `i`.
pub open spec fn comps(p: Plan, c: Cursor, i: int, n: int) -> Option<Cursor>
    decreases n,
{
    if n <= 0 {
        Some(c)
    } else {
        match comps(p, c, i, n - 1) {
            Some(c1) => blocks(p, c1, i, n - 1, blocks_across(p, n - 1) * blocks_down(p, n - 1)),
            None => None,
        }
    }
}

/// `n` zero predictors.
pub open spec fn zeros(n: int) -> Seq<i32> {
    Seq::new(n as nat, |k: int| 0i32)
}

/// At the end of a restart interval: the interval's data must end at an RSTn marker;
/// decoding goes on after it with the predictors at zero. `strict` asks besides that
/// fewer than 8 bits of the interval be left unread (no more than its padding).
pub open spec fn restart_step(s: Seq<u8>, p: Plan, m: McuState, strict: bool) -> Option<McuState> {
    if p.lay.restart > 0 && m.since == p.lay.restart {
        let e = stream_end(s, m.seg);
        if rst_at(s, e) && (strict ==> m.cur.bits.len() < 8) {
            Some(
                McuState {
                    cur: Cursor {
                        bits: stream(s, e + 2),
                        preds: zeros(m.cur.preds.len() as int),
                        thumb: m.cur.thumb,
                    },
                    seg: e + 2,
                    since: 0,
                },
            )
        } else {
            None
        }
    } else {
        Some(m)
    }
}

/// Decodes MCU `i`.
pub open spec fn mcu_step(s: Seq<u8>, p: Plan, m: McuState, i: int, strict: bool) -> Option<McuState> {
    match restart_step(s, p, m, strict) {
        None => None,
        Some(m1) => match comps(p, m1.cur, i, p.scan.len() as int) {
            None => None,
            Some(c) => Some(McuState { cur: c, seg: m1.seg, since: m1.since + 1 }),
        },
    }
}

/// The first `n` MCUs.
pub open spec fn mcus(s: Seq<u8>, p: Plan, m: McuState, n: int, strict: bool) -> Option<McuState>
    decreases n,
{
    if n <= 0 {
        Some(m)
    } else {
        match mcus(s, p, m, n - 1, strict) {
            Some(m1) => mcu_step(s, p, m1, n - 1, strict),
            None => None,
        }
    }
}

/// The state before the first MCU: the whole entropy-coded data ahead, the
/// predictors at zero, a thumbnail of `total` mid-gray pixels.
pub open spec fn scan_start(s: Seq<u8>, p: Plan, total: int) -> McuState {
    McuState {
        cur: Cursor {
            bits: stream(s, 0),
            preds: zeros(p.comps.len() as int),
            thumb: Seq::new(total as nat, |k: int| 128u8),
        },
        seg: 0,
        since: 0,
    }
}

/// The thumbnail after all `nx * ny` MCUs of the scan, or `None` where the data
/// does not decode (`strict`: see `restart_step`).
pub open spec fn scan_thumb(s: Seq<u8>, p: Plan, total: int, strict: bool) -> Option<Seq<u8>> {
    match mcus(s, p, scan_start(s, p, total), p.lay.nx * p.lay.ny, strict) {
        Some(m) => Some(m.cur.thumb),
        None => None,
    }
}

/// The input ends in a 0xFF byte.
pub open spec fn ends_in_ff(s: Seq<u8>) -> bool {
    s.len() > 0 && s[s.len() - 1] == 0xFF
}

/// `r1` is `r0` read further: the same input, the error flag raised only where the
/// data runs into a lone 0xFF at the end, and until then the current data still
/// ending where it did.
pub open spec fn read_on(r0: BitReader, r1: BitReader) -> bool {
    &&& r1.wf()
    &&& r1.bytes@ == r0.bytes@
    &&& r0.error ==> r1.error
    &&& r1.error || stream_end(r1.bytes@, r1.pos as int) == stream_end(r0.bytes@, r0.pos as int)
    &&& r1.error ==> r0.error || ends_in_lone_ff(r0.bytes@, r0.pos as int)
}

/// An RSTn marker ends the entropy-coded data in front of it.
proof fn lemma_rst_stream_end(s: Seq<u8>, p: int)
    requires
        rst_at(s, p),
    ensures
        stream_end(s, p) == p,
{
}

/// Data of fewer than 8 bits is no data: the reader stands where it ends.
proof fn lemma_short_stream(s: Seq<u8>, p: int)
    requires
        0 <= p,
        stream(s, p).len() < 8,
    ensures
        stream_end(s, p) == p,
{
    if p < s.len() {
        lemma_nat_bits_len(s[p] as nat, 8);
        lemma_nat_bits_len(0xFF, 8);
    }
}

proof fn lemma_blocks_none(p: Plan, c: Cursor, i: int, si: int, k: int, n: int)
    requires
        0 <= k <= n,
        blocks(p, c, i, si, k) is None,
    ensures
        blocks(p, c, i, si, n) is None,
    decreases n - k,
{
    if k < n {
        lemma_blocks_none(p, c, i, si, k, n - 1);
    }
}

proof fn lemma_comps_none(p: Plan, c: Cursor, i: int, k: int, n: int)
    requires
        0 <= k <= n,
        comps(p, c, i, k) is None,
    ensures
        comps(p, c, i, n) is None,
    decreases n - k,
{
    if k < n {
        lemma_comps_none(p, c, i, k, n - 1);
    }
}

proof fn lemma_mcus_none(s: Seq<u8>, p: Plan, m: McuState, k: int, n: int, strict: bool)
    requires
        0 <= k <= n,
        mcus(s, p, m, k, strict) is None,
    ensures
        mcus(s, p, m, n, strict) is None,
    decreases n - k,
{
    if k < n {
        lemma_mcus_none(s, p, m, k, n - 1, strict);
    }
}

/// Scan component `si` names a DC table that is not there, or an AC table that is not
/// there where AC coefficients are read.
pub open spec fn table_missing(p: Plan, si: int) -> bool {
    ||| p.dcs[p.scan[si].dc_table as int] is None
    ||| p.lay.with_ac && p.acs[p.scan[si].ac_table as int] is None
}

/// A component whose table is missing makes every MCU fail, so a scan of at least
/// one MCU decodes to nothing.
pub proof fn lemma_missing_table(s: Seq<u8>, p: Plan, total: int, strict: bool, si: int)
    requires
        0 <= si < p.scan.len(),
        table_missing(p, si),
        blocks_across(p, si) * blocks_down(p, si) >= 1,
        p.lay.nx * p.lay.ny >= 1,
    ensures
        scan_thumb(s, p, total, strict) is None,
{
    let m0 = scan_start(s, p, total);
    let nb = blocks_across(p, si) * blocks_down(p, si);
    assert(mcus(s, p, m0, 0, strict) == Some(m0));
    match restart_step(s, p, m0, strict) {
        None => {},
        Some(m1) => {
            let c = m1.cur;
            match comps(p, c, 0, si) {
                None => {},
                Some(c1) => {
                    match blocks(p, c1, 0, si, nb - 1) {
                        None => {
                            lemma_blocks_none(p, c1, 0, si, nb - 1, nb);
                        },
                        Some(c2) => {
                            assert(block_step(p, c2, 0, si, nb - 1) is None);
                        },
                    }
                    assert(blocks(p, c1, 0, si, nb) is None);
                },
            }
            assert(comps(p, c, 0, si + 1) is None);
            lemma_comps_none(p, c, 0, si + 1, p.scan.len() as int);
        },
    }
    assert(mcu_step(s, p, m0, 0, strict) is None);
    assert(mcus(s, p, m0, 1, strict) is None);
    lemma_mcus_none(s, p, m0, 1, p.lay.nx * p.lay.ny, strict);
}

/// The blocks of every scan component have a place: each has at least one block
/// across, and MCU rows are not empty.
pub open spec fn places_ok(p: Plan) -> bool {
    &&& p.lay.nx >= 1
    &&& forall|si: int| 0 <= si < p.scan.len() ==> #[trigger] blocks_across(p, si) >= 1
}

proof fn lemma_place_len(p: Plan, thumb: Seq<u8>, i: int, si: int, b: int, px: u8)
    requires
        0 <= i,
        0 <= b,
        p.lay.nx >= 1,
        blocks_across(p, si) >= 1,
    ensures
        place(p, thumb, i, si, b, px).len() == thumb.len(),
{
    let h = blocks_across(p, si);
    let nx = p.lay.nx as int;
    vstd::arithmetic::div_mod::lemma_div_pos_is_pos(i, nx);
    vstd::arithmetic::div_mod::lemma_div_pos_is_pos(b, h);
    vstd::arithmetic::div_mod::lemma_mod_bound(i, nx);
    vstd::arithmetic::div_mod::lemma_mod_bound(b, h);
    let row = (i / nx) * p.lay.bh + b / h;
    let col = (i % nx) * p.lay.bw + b % h;
    assert(row * p.lay.thumb_w + col >= 0) by (nonlinear_arith)
        requires
            i / nx >= 0,
            b / h >= 0,
            i % nx >= 0,
            b % h >= 0,
            row == (i / nx) * p.lay.bh + b / h,
            col == (i % nx) * p.lay.bw + b % h,
    ;
}

proof fn lemma_blocks_len(p: Plan, c: Cursor, i: int, si: int, n: int)
    requires
        0 <= i,
        p.lay.nx >= 1,
        blocks_across(p, si) >= 1,
        blocks(p, c, i, si, n) is Some,
    ensures
        blocks(p, c, i, si, n)->0.thumb.len() == c.thumb.len(),
    decreases n,
{
    if n > 0 {
        lemma_blocks_len(p, c, i, si, n - 1);
        let c1 = blocks(p, c, i, si, n - 1)->0;
        let sc = p.scan[si];
        let dc = p.dcs[sc.dc_table as int]->0;
        let (delta, rest) = dc_diff(dc.0, dc.1, c1.bits)->0;
        let pred = c1.preds[sc.comp_idx as int].wrapping_add(delta as i32);
        lemma_place_len(p, c1.thumb, i, si, n - 1, pixel_of(pred, p.lay.al, p.lay.q));
    }
}

proof fn lemma_comps_len(p: Plan, c: Cursor, i: int, n: int)
    requires
        0 <= i,
        places_ok(p),
        n <= p.scan.len(),
        comps(p, c, i, n) is Some,
    ensures
        comps(p, c, i, n)->0.thumb.len() == c.thumb.len(),
    decreases n,
{
    if n > 0 {
        lemma_comps_len(p, c, i, n - 1);
        let c1 = comps(p, c, i, n - 1)->0;
        assert(blocks_across(p, n - 1) >= 1);
        lemma_blocks_len(p, c1, i, n - 1, blocks_across(p, n - 1) * blocks_down(p, n - 1));
    }
}

/// Decoding MCUs writes pixels in place: the thumbnail keeps its size.
pub proof fn lemma_mcus_thumb_len(s: Seq<u8>, p: Plan, m: McuState, n: int, strict: bool)
    requires
        places_ok(p),
        mcus(s, p, m, n, strict) is Some,
    ensures
        mcus(s, p, m, n, strict)->0.cur.thumb.len() == m.cur.thumb.len(),
    decreases n,
{
    if n > 0 {
        lemma_mcus_thumb_len(s, p, m, n - 1, strict);
        let m1 = mcus(s, p, m, n - 1, strict)->0;
        let m2 = restart_step(s, p, m1, strict)->0;
        lemma_comps_len(p, m2.cur, n - 1, p.scan.len() as int);
    }
}

/// The thumbnail of a scan has the `total` pixels it starts with.
pub proof fn lemma_scan_thumb_len(s: Seq<u8>, p: Plan, total: int, strict: bool)
    requires
        0 <= total,
        places_ok(p),
        scan_thumb(s, p, total, strict) is Some,
    ensures
        scan_thumb(s, p, total, strict)->0.len() == total,
{
    lemma_mcus_thumb_len(s, p, scan_start(s, p, total), p.lay.nx * p.lay.ny, strict);
}

/// Where the strict reading of a scan decodes, the plain one does too, to the same state.
pub proof fn lemma_mcus_strict(s: Seq<u8>, p: Plan, m: McuState, n: int)
    requires
        mcus(s, p, m, n, true) is Some,
    ensures
        mcus(s, p, m, n, true) == mcus(s, p, m, n, false),
    decreases n,
{
    if n > 0 {
        lemma_mcus_strict(s, p, m, n - 1);
    }
}

/// A strict thumbnail is the thumbnail.
pub proof fn lemma_scan_thumb_strict(s: Seq<u8>, p: Plan, total: int)
    requires
        scan_thumb(s, p, total, true) is Some,
    ensures
        scan_thumb(s, p, total, true) == scan_thumb(s, p, total, false),
{
    lemma_mcus_strict(s, p, scan_start(s, p, total), p.lay.nx * p.lay.ny);
}

/// MCU `i` failing strictly after the first `i` decoded makes the strict run fail.
proof fn lemma_mcus_fail(s: Seq<u8>, p: Plan, m: McuState, i: int, m0: McuState)
    requires
        0 <= i,
        mcus(s, p, m, i, false) == Some(m0),
        mcu_step(s, p, m0, i, true) is None,
    ensures
        mcus(s, p, m, i + 1, true) is None,
{
    if mcus(s, p, m, i, true) is Some {
        lemma_mcus_strict(s, p, m, i);
    }
}

/// A scan of one block per MCU, of the luma component alone, whose MCU `i` lands on
/// thumbnail pixel `i` (a one-component frame, or a non-interleaved scan, whose
/// thumbnail rows are as long as the MCU rows).
pub open spec fn one_block_scan(p: Plan) -> bool {
    &&& p.scan.len() == 1
    &&& p.scan[0].comp_idx == p.y
    &&& 0 <= p.y < p.comps.len()
    &&& blocks_across(p, 0) == 1
    &&& blocks_down(p, 0) == 1
    &&& p.lay.bw == 1
    &&& p.lay.bh == 1
    &&& p.lay.nx >= 1
    &&& p.lay.thumb_w == p.lay.nx
}

/// The DC difference that the next MCU of a one-block scan decodes from state `m`
/// (after the restart marker, if one is due); 0 where it does not decode.
pub open spec fn next_diff(s: Seq<u8>, p: Plan, m: McuState, strict: bool) -> int {
    match restart_step(s, p, m, strict) {
        Some(m1) => match p.dcs[p.scan[0].dc_table as int] {
            Some(dc) => match dc_diff(dc.0, dc.1, m1.cur.bits) {
                Some((d, _)) => d,
                None => 0,
            },
            None => 0,
        },
        None => 0,
    }
}

/// The DC differences of the first `n` MCUs of a one-block scan, in order.
pub open spec fn scan_diffs(s: Seq<u8>, p: Plan, m: McuState, n: int, strict: bool) -> Seq<int>
    decreases n,
{
    if n <= 0 {
        Seq::empty()
    } else {
        let m1 = match mcus(s, p, m, n - 1, strict) {
            Some(m1) => m1,
            None => m,
        };
        scan_diffs(s, p, m, n - 1, strict).push(next_diff(s, p, m1, strict))
    }
}

/// The first MCU of the restart interval that MCU `k` belongs to (`r` MCUs per
/// interval; 0 for no restart markers).
pub open spec fn interval_start(r: int, k: int) -> int {
    if r <= 0 {
        0
    } else {
        r * (k / r)
    }
}

/// `d[a] + ... + d[b]` in wrapping `i32` arithmetic, as the DC predictor adds them.
pub open spec fn dc_sum(d: Seq<int>, a: int, b: int) -> i32
    decreases b + 1 - a,
{
    if b < a {
        0
    } else {
        dc_sum(d, a, b - 1).wrapping_add(d[b] as i32)
    }
}

proof fn lemma_dc_sum_prefix(d: Seq<int>, x: int, a: int, b: int)
    requires
        0 <= a,
        b < d.len(),
    ensures
        dc_sum(d.push(x), a, b) == dc_sum(d, a, b),
    decreases b + 1 - a,
{
    if b >= a {
        lemma_dc_sum_prefix(d, x, a, b - 1);
        assert(d.push(x)[b] == d[b]);
    }
}

/// How many MCUs the current restart interval holds after `n` MCUs.
pub open spec fn since_after(r: int, n: int) -> int {
    if r <= 0 {
        n
    } else if n == 0 {
        0
    } else {
        (n - 1) % r + 1
    }
}

proof fn lemma_interval_start_bounds(r: int, k: int)
    requires
        0 <= k,
    ensures
        0 <= interval_start(r, k) <= k,
{
    if r > 0 {
        vstd::arithmetic::div_mod::lemma_fundamental_div_mod(k, r);
        vstd::arithmetic::div_mod::lemma_mod_bound(k, r);
        vstd::arithmetic::div_mod::lemma_div_pos_is_pos(k, r);
        assert(r * (k / r) >= 0) by (nonlinear_arith)
            requires
                r > 0,
                k / r >= 0,
        ;
    }
}

proof fn lemma_interval_step(r: int, n: int)
    requires
        r > 0,
        n >= 1,
    ensures
        since_after(r, n) == r <==> n % r == 0,
        n % r == 0 ==> interval_start(r, n) == n,
        n % r != 0 ==> interval_start(r, n) == interval_start(r, n - 1),
        since_after(r, n) < r ==> since_after(r, n + 1) == since_after(r, n) + 1,
        since_after(r, n) == r ==> since_after(r, n + 1) == 1,
{
    vstd::arithmetic::div_mod::lemma_fundamental_div_mod(n, r);
    vstd::arithmetic::div_mod::lemma_fundamental_div_mod(n - 1, r);
    vstd::arithmetic::div_mod::lemma_mod_bound(n, r);
    vstd::arithmetic::div_mod::lemma_mod_bound(n - 1, r);
    let q = n / r;
    if n % r == 0 {
        assert(n - 1 == (q - 1) * r + (r - 1)) by (nonlinear_arith)
            requires
                n == r * q + 0,
        ;
        vstd::arithmetic::div_mod::lemma_fundamental_div_mod_converse(n - 1, r, q - 1, r - 1);
        assert(n == q * r + 0) by (nonlinear_arith)
            requires
                n == r * q + 0,
        ;
        vstd::arithmetic::div_mod::lemma_fundamental_div_mod_converse(n, r, q, 0);
        assert(r * q == n) by (nonlinear_arith)
            requires
                n == q * r,
        ;
    } else {
        assert(n - 1 == q * r + (n % r - 1)) by (nonlinear_arith)
            requires
                n == r * q + n % r,
        ;
        vstd::arithmetic::div_mod::lemma_fundamental_div_mod_converse(n - 1, r, q, n % r - 1);
    }
}

/// DC prediction in closed form: in a scan of one block per MCU, each thumbnail pixel
/// is the pixel of the sum of the DC differences of its restart interval up to and
/// including its own block. (The predictor starts at 0 and is reset to 0 at every
/// restart marker; the sum wraps in `i32` as the predictor does.)
pub proof fn lemma_dc_prediction(s: Seq<u8>, p: Plan, total: int, n: int, strict: bool)
    requires
        one_block_scan(p),
        0 <= n <= total,
        mcus(s, p, scan_start(s, p, total), n, strict) is Some,
    ensures
        scan_diffs(s, p, scan_start(s, p, total), n, strict).len() == n,
        mcus(s, p, scan_start(s, p, total), n, strict)->0.cur.thumb.len() == total,
        forall|k: int|
            0 <= k < n ==> #[trigger] mcus(s, p, scan_start(s, p, total), n, strict)->0.cur.thumb[k]
                == pixel_of(
                dc_sum(
                    scan_diffs(s, p, scan_start(s, p, total), n, strict),
                    interval_start(p.lay.restart as int, k),
                    k,
                ),
                p.lay.al,
                p.lay.q,
            ),
    decreases n,
{
    lemma_dc_prediction_state(s, p, total, n, strict);
}

proof fn lemma_dc_prediction_state(s: Seq<u8>, p: Plan, total: int, n: int, strict: bool)
    requires
        one_block_scan(p),
        0 <= n <= total,
        mcus(s, p, scan_start(s, p, total), n, strict) is Some,
    ensures
        ({
            let m = mcus(s, p, scan_start(s, p, total), n, strict)->0;
            let d = scan_diffs(s, p, scan_start(s, p, total), n, strict);
            let r = p.lay.restart as int;
            &&& d.len() == n
            &&& m.cur.preds.len() == p.comps.len()
            &&& m.cur.thumb.len() == total
            &&& m.since == since_after(r, n)
            &&& n >= 1 ==> m.cur.preds[p.y] == dc_sum(d, interval_start(r, n - 1), n - 1)
            &&& n == 0 ==> m.cur.preds[p.y] == 0
            &&& forall|k: int|
                0 <= k < n ==> #[trigger] m.cur.thumb[k] == pixel_of(
                    dc_sum(d, interval_start(r, k), k),
                    p.lay.al,
                    p.lay.q,
                )
        }),
    decreases n,
{
    let m0 = scan_start(s, p, total);
    let r = p.lay.restart as int;
    if n > 0 {
        lemma_dc_prediction_state(s, p, total, n - 1, strict);
        let m = mcus(s, p, m0, n - 1, strict)->0;
        let d = scan_diffs(s, p, m0, n - 1, strict);
        lemma_dc_prediction_step(s, p, total, m, d, n - 1, strict);
        assert(mcus(s, p, m0, n, strict) == mcu_step(s, p, m, n - 1, strict));
        assert(scan_diffs(s, p, m0, n, strict) == d.push(next_diff(s, p, m, strict)));
    }
}

/// One MCU of a one-block scan adds its DC difference to the predictor (after the
/// reset at a restart marker) and writes the pixel of the sum at its place.
#[verifier::rlimit(40)]
proof fn lemma_dc_prediction_step(
    s: Seq<u8>,
    p: Plan,
    total: int,
    m: McuState,
    d: Seq<int>,
    i: int,
    strict: bool,
)
    requires
        one_block_scan(p),
        0 <= i < total,
        mcu_step(s, p, m, i, strict) is Some,
        ({
            let r = p.lay.restart as int;
            &&& d.len() == i
            &&& m.cur.preds.len() == p.comps.len()
            &&& m.cur.thumb.len() == total
            &&& m.since == since_after(r, i)
            &&& i >= 1 ==> m.cur.preds[p.y] == dc_sum(d, interval_start(r, i - 1), i - 1)
            &&& i == 0 ==> m.cur.preds[p.y] == 0
            &&& forall|k: int|
                0 <= k < i ==> #[trigger] m.cur.thumb[k] == pixel_of(
                    dc_sum(d, interval_start(r, k), k),
                    p.lay.al,
                    p.lay.q,
                )
        }),
    ensures
        ({
            let m2 = mcu_step(s, p, m, i, strict)->0;
            let d2 = d.push(next_diff(s, p, m, strict));
            let r = p.lay.restart as int;
            &&& m2.cur.preds.len() == p.comps.len()
            &&& m2.cur.thumb.len() == total
            &&& m2.since == since_after(r, i + 1)
            &&& m2.cur.preds[p.y] == dc_sum(d2, interval_start(r, i), i)
            &&& forall|k: int|
                0 <= k < i + 1 ==> #[trigger] m2.cur.thumb[k] == pixel_of(
                    dc_sum(d2, interval_start(r, k), k),
                    p.lay.al,
                    p.lay.q,
                )
        }),
{
    let r = p.lay.restart as int;
    let m1 = restart_step(s, p, m, strict)->0;
    assert(comps(p, m1.cur, i, 0) == Some(m1.cur));
    assert(comps(p, m1.cur, i, 1) == blocks(p, m1.cur, i, 0, 1));
    assert(blocks(p, m1.cur, i, 0, 0) == Some(m1.cur));
    assert(blocks(p, m1.cur, i, 0, 1) == block_step(p, m1.cur, i, 0, 0));
    let dc = p.dcs[p.scan[0].dc_table as int]->0;
    let delta = (dc_diff(dc.0, dc.1, m1.cur.bits)->0).0;
    assert(next_diff(s, p, m, strict) == delta);
    let d2 = d.push(delta);
    let c = comps(p, m1.cur, i, 1)->0;
    let pred = m1.cur.preds[p.y].wrapping_add(delta as i32);
    // The block lands on pixel i.
    let nx = p.lay.nx as int;
    vstd::arithmetic::div_mod::lemma_fundamental_div_mod(i, nx);
    assert((i / nx) * nx + i % nx == i) by (nonlinear_arith)
        requires
            i == nx * (i / nx) + i % nx,
    ;
    assert(c.thumb == m1.cur.thumb.update(i, pixel_of(pred, p.lay.al, p.lay.q)));
    // The predictor before the block holds the sum so far in this interval.
    let reset = r > 0 && m.since == r;
    if i >= 1 && r > 0 {
        lemma_interval_step(r, i);
    }
    if reset {
        assert(m1.cur.preds == zeros(m.cur.preds.len() as int));
        assert(interval_start(r, i) == i);
    } else {
        assert(m1 == m);
        if i >= 1 {
            assert(interval_start(r, i) == interval_start(r, i - 1));
        } else {
            assert(interval_start(r, 0) == 0) by {
                if r > 0 {
                    assert(r * (0int / r) == 0) by (nonlinear_arith)
                        requires
                            r > 0,
                    ;
                }
            }
        }
    }
    lemma_interval_start_bounds(r, i);
    lemma_dc_sum_prefix(d, delta, interval_start(r, i), i - 1);
    assert(d2[i] == delta);
    assert(dc_sum(d2, interval_start(r, i), i) == dc_sum(d2, interval_start(r, i), i - 1).wrapping_add(
        delta as i32,
    ));
    assert forall|k: int| 0 <= k < i implies dc_sum(d2, interval_start(r, k), k) == dc_sum(
        d,
        interval_start(r, k),
        k,
    ) by {
        lemma_interval_start_bounds(r, k);
        lemma_dc_sum_prefix(d, delta, interval_start(r, k), k);
    }
}

/// Reads one DC difference.
fn decode_dc_diff(br: &mut BitReader, tbl: &HuffTable) -> (res: Option<i32>)
    requires
        old(br).wf(),
        tbl.wf(),
    ensures
        read_on(*old(br), *final(br)),
        res matches Some(d) ==> dc_diff(tbl.counts@, tbl.huffval@, old(br)@) == Some(
            (d as int, final(br)@),
        ),
        res is None ==> dc_diff(tbl.counts@, tbl.huffval@, old(br)@) is None,
{
    let ghost v0 = br@;
    let ghost c = tbl.counts@;
    let ghost hv = tbl.huffval@;
    let sym = match br.decode_huff(tbl) {
        Some(s) => s,
        None => return None,
    };
    let size = sym & 0x0Fu8;
    assert(sym & 0x0Fu8 == sym % 16) by (bit_vector);
    let delta = match br.receive_extend(size) {
        Some(d) => d,
        None => return None,
    };
    Some(delta)
}

/// Reads past the AC coefficients of one block (their values are not needed).
fn skip_ac(br: &mut BitReader, tbl: &HuffTable) -> (res: Option<()>)
    requires
        old(br).wf(),
        tbl.wf(),
    ensures
        read_on(*old(br), *final(br)),
        res is Some ==> ac_skip(tbl.counts@, tbl.huffval@, old(br)@, 1) == Some(final(br)@),
        res is None ==> ac_skip(tbl.counts@, tbl.huffval@, old(br)@, 1) is None,
{
    let ghost c = tbl.counts@;
    let ghost hv = tbl.huffval@;
    let mut k: u32 = 1;
    while k < 64
        invariant
            read_on(*old(br), *br),
            tbl.wf(),
            c == tbl.counts@,
            hv == tbl.huffval@,
            1 <= k <= 79,
            ac_skip(c, hv, old(br)@, 1) == ac_skip(c, hv, br@, k as int),
        decreases 80 - k,
    {
        let ghost v0 = br@;
        let sym = match br.decode_huff(tbl) {
            Some(s) => s,
            None => return None,
        };
        if sym == 0 {
            return Some(());
        }
        if sym == 0xF0 {
            k = k + 16;
            continue;
        }
        let run = (sym >> 4u8) as u32;
        let size = sym & 0x0Fu8;
        assert(sym >> 4u8 == sym / 16) by (bit_vector);
        assert(sym & 0x0Fu8 == sym % 16) by (bit_vector);
        k = k + run;
        if k >= 64 {
            return None;
        }
        match br.get_bits(size) {
            Some(_) => {},
            None => return None,
        }
        k = k + 1;
    }
    Some(())
}

/// Looks up a Huffman table by id.
fn table_at(tables: &Vec<Option<HuffTable>>, id: u8) -> (res: Option<&HuffTable>)
    requires
        tables@.len() == 4,
        hwf(tables@),
        id <= 3,
    ensures
        res matches Some(t) ==> t.wf() && tables@[id as int] == Some(*t),
        res is None ==> tables@[id as int] is None,
{
    match &tables[id as usize] {
        Some(t) => Some(t),
        None => None,
    }
}

/// The well-formedness that the MCU loop needs of its inputs.
pub open spec fn scan_inputs_ok(
    frame: &FrameHeader,
    scan: &ScanHeader,
    dc_tables: Seq<Option<HuffTable>>,
    ac_tables: Seq<Option<HuffTable>>,
    lay: &ScanLayout,
) -> bool {
    &&& frame.wf()
    &&& scan.wf_for(frame)
    &&& lay.wf()
    &&& dc_tables.len() == 4
    &&& ac_tables.len() == 4
    &&& hwf(dc_tables)
    &&& hwf(ac_tables)
}

/// Decodes the blocks of scan component `si` in MCU `i` (at MCU row `my`, column `mx`).
#[verifier::rlimit(40)]
fn decode_component(
    br: &mut BitReader,
    frame: &FrameHeader,
    scan: &ScanHeader,
    dc_tables: &Vec<Option<HuffTable>>,
    ac_tables: &Vec<Option<HuffTable>>,
    lay: &ScanLayout,
    preds: &mut Vec<i32>,
    thumb: &mut Vec<u8>,
    i: u32,
    my: u32,
    mx: u32,
    si: usize,
) -> (res: Option<()>)
    requires
        old(br).wf(),
        scan_inputs_ok(frame, scan, dc_tables@, ac_tables@, lay),
        si < scan.components@.len(),
        lay.nx > 0,
        my == i / lay.nx,
        mx == i % lay.nx,
        my < 32768,
        old(preds)@.len() == frame.components@.len(),
    ensures
        read_on(*old(br), *final(br)),
        final(preds)@.len() == old(preds)@.len(),
        final(thumb)@.len() == old(thumb)@.len(),
        ({
            let p = plan_of(*lay, frame, scan, hview(dc_tables@), hview(ac_tables@));
            let n = blocks_across(p, si as int) * blocks_down(p, si as int);
            let c0 = Cursor { bits: old(br)@, preds: old(preds)@, thumb: old(thumb)@ };
            &&& res is Some ==> blocks(p, c0, i as int, si as int, n) == Some(
                Cursor { bits: final(br)@, preds: final(preds)@, thumb: final(thumb)@ },
            )
            &&& res is None ==> blocks(p, c0, i as int, si as int, n) is None
        }),
{
    let ghost p = plan_of(*lay, frame, scan, hview(dc_tables@), hview(ac_tables@));
    let ghost c0 = Cursor { bits: br@, preds: preds@, thumb: thumb@ };
    let sc = &scan.components[si];
    assert(sc.comp_idx < frame.components@.len());
    let comp = frame.components[sc.comp_idx];
    let is_y = sc.comp_idx == frame.y_idx;
    let ci = sc.comp_idx;
    let h: u32 = if lay.interleaved { comp.h_samp as u32 } else { 1 };
    let v: u32 = if lay.interleaved { comp.v_samp as u32 } else { 1 };
    assert(h == blocks_across(p, si as int) && v == blocks_down(p, si as int));
    assert(1 <= h <= 4 && 1 <= v <= 4);
    assert(1 <= h * v <= 16) by (nonlinear_arith)
        requires
            1 <= h <= 4,
            1 <= v <= 4,
    ;
    let n = h * v;
    let dc_tbl = match table_at(dc_tables, sc.dc_table) {
        Some(t) => t,
        None => {
            proof {
                lemma_blocks_none(p, c0, i as int, si as int, 1, n as int);
            }
            return None;
        },
    };
    let ac_tbl: Option<&HuffTable> = if lay.with_ac {
        match table_at(ac_tables, sc.ac_table) {
            Some(t) => Some(t),
            None => {
                proof {
                    lemma_blocks_none(p, c0, i as int, si as int, 1, n as int);
                }
                return None;
            },
        }
    } else {
        None
    };
    let mut b: u32 = 0;
    while b < n
        invariant
            read_on(*old(br), *br),
            dc_tbl.wf(),
            ac_tbl matches Some(t) ==> t.wf(),
            lay.with_ac <==> ac_tbl is Some,
            p == plan_of(*lay, frame, scan, hview(dc_tables@), hview(ac_tables@)),
            c0 == (Cursor { bits: old(br)@, preds: old(preds)@, thumb: old(thumb)@ }),
            p.dcs[sc.dc_table as int] == Some((dc_tbl.counts@, dc_tbl.huffval@)),
            ac_tbl matches Some(t) ==> p.acs[sc.ac_table as int] == Some((t.counts@, t.huffval@)),
            sc == scan.components@[si as int],
            ci == sc.comp_idx,
            ci < preds@.len(),
            is_y == (ci == frame.y_idx),
            preds@.len() == old(preds)@.len(),
            thumb@.len() == old(thumb)@.len(),
            lay.wf(),
            lay.nx > 0,
            my == i / lay.nx,
            mx == i % lay.nx,
            my < 32768,
            mx < 32768,
            h == blocks_across(p, si as int),
            1 <= h <= 4,
            1 <= v <= 4,
            n == h * v,
            n == blocks_across(p, si as int) * blocks_down(p, si as int),
            b <= n,
            blocks(p, c0, i as int, si as int, b as int) == Some(
                Cursor { bits: br@, preds: preds@, thumb: thumb@ },
            ),
        decreases n - b,
    {
        let ghost c1 = Cursor { bits: br@, preds: preds@, thumb: thumb@ };
        let delta = match decode_dc_diff(br, dc_tbl) {
            Some(d) => d,
            None => {
                proof {
                    lemma_blocks_none(p, c0, i as int, si as int, b + 1, n as int);
                }
                return None;
            },
        };
        let ghost rest = br@;
        let pred = preds[ci].wrapping_add(delta);
        preds.set(ci, pred);
        if is_y {
            let dc = pred.wrapping_shl(lay.al as u32);
            let px = dc_to_pixel(dc, lay.q);
            let by = b / h;
            let bx = b % h;
            assert(by < 4) by (nonlinear_arith)
                requires
                    b < h * v,
                    v <= 4,
                    1 <= h,
                    by == b / h,
            ;
            assert(bx < 4);
            assert(my * lay.bh <= 32767 * 4 && mx * lay.bw <= 32767 * 4) by (nonlinear_arith)
                requires
                    my < 32768,
                    mx < 32768,
                    lay.bh <= 4,
                    lay.bw <= 4,
            ;
            let row: u64 = my as u64 * lay.bh as u64 + by as u64;
            let col: u64 = mx as u64 * lay.bw as u64 + bx as u64;
            assert(row * lay.thumb_w + col <= 0x4_0000_0000) by (nonlinear_arith)
                requires
                    row <= 32767 * 4 + 3,
                    col <= 32767 * 4 + 3,
                    lay.thumb_w <= 32768,
            ;
            let idx: u64 = row * lay.thumb_w as u64 + col;
            if idx < thumb.len() as u64 {
                thumb.set(idx as usize, px);
            }
        }
        proof {
            assert(dc_diff(dc_tbl.counts@, dc_tbl.huffval@, c1.bits) == Some((delta as int, rest)));
            assert(preds@ == c1.preds.update(ci as int, pred));
            assert(thumb@ == if ci == frame.y_idx {
                place(p, c1.thumb, i as int, si as int, b as int, pixel_of(pred, lay.al, lay.q))
            } else {
                c1.thumb
            });
        }
        match ac_tbl {
            Some(t) => match skip_ac(br, t) {
                Some(_) => {},
                None => {
                    proof {
                        assert(block_step(p, c1, i as int, si as int, b as int) is None);
                        lemma_blocks_none(p, c0, i as int, si as int, b + 1, n as int);
                    }
                    return None;
                },
            },
            None => {},
        }
        proof {
            if lay.with_ac {
                let t = ac_tbl->0;
                assert(ac_skip(t.counts@, t.huffval@, rest, 1) == Some(br@));
            } else {
                assert(br@ == rest);
            }
            assert(block_step(p, c1, i as int, si as int, b as int) == Some(
                Cursor { bits: br@, preds: preds@, thumb: thumb@ },
            ));
        }
        b = b + 1;
    }
    Some(())
}

/// Decodes the scan components of MCU `i` (at MCU row `my`, column `mx`).
fn decode_mcu(
    br: &mut BitReader,
    frame: &FrameHeader,
    scan: &ScanHeader,
    dc_tables: &Vec<Option<HuffTable>>,
    ac_tables: &Vec<Option<HuffTable>>,
    lay: &ScanLayout,
    preds: &mut Vec<i32>,
    thumb: &mut Vec<u8>,
    i: u32,
    my: u32,
    mx: u32,
) -> (res: Option<()>)
    requires
        old(br).wf(),
        scan_inputs_ok(frame, scan, dc_tables@, ac_tables@, lay),
        lay.nx > 0,
        my == i / lay.nx,
        mx == i % lay.nx,
        my < 32768,
        old(preds)@.len() == frame.components@.len(),
    ensures
        read_on(*old(br), *final(br)),
        final(preds)@.len() == old(preds)@.len(),
        final(thumb)@.len() == old(thumb)@.len(),
        ({
            let p = plan_of(*lay, frame, scan, hview(dc_tables@), hview(ac_tables@));
            let c0 = Cursor { bits: old(br)@, preds: old(preds)@, thumb: old(thumb)@ };
            let n = scan.components@.len() as int;
            &&& res is Some ==> comps(p, c0, i as int, n) == Some(
                Cursor { bits: final(br)@, preds: final(preds)@, thumb: final(thumb)@ },
            )
            &&& res is None ==> comps(p, c0, i as int, n) is None
        }),
{
    let ghost p = plan_of(*lay, frame, scan, hview(dc_tables@), hview(ac_tables@));
    let ghost c0 = Cursor { bits: br@, preds: preds@, thumb: thumb@ };
    let mut si: usize = 0;
    while si < scan.components.len()
        invariant
            read_on(*old(br), *br),
            scan_inputs_ok(frame, scan, dc_tables@, ac_tables@, lay),
            p == plan_of(*lay, frame, scan, hview(dc_tables@), hview(ac_tables@)),
            c0 == (Cursor { bits: old(br)@, preds: old(preds)@, thumb: old(thumb)@ }),
            lay.nx > 0,
            my == i / lay.nx,
            mx == i % lay.nx,
            my < 32768,
            preds@.len() == frame.components@.len(),
            preds@.len() == old(preds)@.len(),
            thumb@.len() == old(thumb)@.len(),
            si <= scan.components@.len(),
            comps(p, c0, i as int, si as int) == Some(
                Cursor { bits: br@, preds: preds@, thumb: thumb@ },
            ),
        decreases scan.components@.len() - si,
    {
        match decode_component(br, frame, scan, dc_tables, ac_tables, lay, preds, thumb, i, my, mx, si) {
            Some(_) => {},
            None => {
                proof {
                    lemma_comps_none(p, c0, i as int, si + 1, scan.components@.len() as int);
                }
                return None;
            },
        }
        si = si + 1;
    }
    Some(())
}

/// Runs the MCU loop of a scan over the entropy-coded data `ecs`: the thumbnail of
/// `thumb_total` pixels, or `None` where the data does not decode. Decoding succeeds
/// wherever it does strictly, unless the input ends in a 0xFF byte.
#[verifier::rlimit(40)]
pub fn decode_mcus(
    ecs: &[u8],
    frame: &FrameHeader,
    scan: &ScanHeader,
    dc_tables: &Vec<Option<HuffTable>>,
    ac_tables: &Vec<Option<HuffTable>>,
    lay: &ScanLayout,
    thumb_total: usize,
) -> (res: Option<Vec<u8>>)
    requires
        scan_inputs_ok(frame, scan, dc_tables@, ac_tables@, lay),
    ensures
        ({
            let p = plan_of(*lay, frame, scan, hview(dc_tables@), hview(ac_tables@));
            &&& res matches Some(g) ==> g@.len() == thumb_total && scan_thumb(
                ecs@,
                p,
                thumb_total as int,
                false,
            ) == Some(g@)
            &&& res is None && !ends_in_ff(ecs@) ==> scan_thumb(ecs@, p, thumb_total as int, true) is None
        }),
{
    let ghost s = ecs@;
    let ghost p = plan_of(*lay, frame, scan, hview(dc_tables@), hview(ac_tables@));
    let ncomp = frame.components.len();
    let mut preds: Vec<i32> = Vec::new();
    while preds.len() < ncomp
        invariant
            preds@.len() <= ncomp,
            forall|k: int| 0 <= k < preds@.len() ==> preds@[k] == 0,
        decreases ncomp - preds@.len(),
    {
        preds.push(0);
    }
    let mut thumb: Vec<u8> = Vec::new();
    while thumb.len() < thumb_total
        invariant
            thumb@.len() <= thumb_total,
            forall|k: int| 0 <= k < thumb@.len() ==> thumb@[k] == 128,
        decreases thumb_total - thumb@.len(),
    {
        thumb.push(128);
    }
    let mut br = BitReader::new(ecs);
    proof {
        assert(preds@ =~= zeros(ncomp as int));
        assert(thumb@ =~= Seq::new(thumb_total as nat, |k: int| 128u8));
    }
    assert(lay.nx * lay.ny <= 32768 * 32768) by (nonlinear_arith)
        requires
            lay.nx <= 32768,
            lay.ny <= 32768,
    ;
    let total: u32 = lay.nx * lay.ny;
    let ghost m_start = scan_start(s, p, thumb_total as int);
    let mut since: u32 = 0;
    let ghost mut seg: int = 0;
    let mut i: u32 = 0;
    while i < total
        invariant
            br.wf(),
            br.bytes@ == s,
            s == ecs@,
            scan_inputs_ok(frame, scan, dc_tables@, ac_tables@, lay),
            p == plan_of(*lay, frame, scan, hview(dc_tables@), hview(ac_tables@)),
            m_start == scan_start(s, p, thumb_total as int),
            total == lay.nx * lay.ny,
            i <= total,
            since <= i,
            preds@.len() == ncomp,
            ncomp == frame.components@.len(),
            thumb@.len() == thumb_total,
            !br.error,
            stream_end(s, br.pos as int) == stream_end(s, seg),
            mcus(s, p, m_start, i as int, false) == Some(
                McuState {
                    cur: Cursor { bits: br@, preds: preds@, thumb: thumb@ },
                    seg,
                    since: since as int,
                },
            ),
        decreases total - i,
    {
        let ghost m0 = McuState {
            cur: Cursor { bits: br@, preds: preds@, thumb: thumb@ },
            seg,
            since: since as int,
        };
        assert(lay.nx > 0) by (nonlinear_arith)
            requires
                i < lay.nx * lay.ny,
        ;
        let my = i / lay.nx;
        let mx = i % lay.nx;
        assert(my < 32768) by (nonlinear_arith)
            requires
                i < lay.nx * lay.ny,
                lay.ny <= 32768,
                lay.nx > 0,
                my == i / lay.nx,
        ;
        if lay.restart > 0 && since == lay.restart as u32 {
            let ghost p0 = br.pos as int;
            proof {
                lemma_nat_bits_len(br.buffered(), br.bit_count as nat);
                if br@.len() < 8 {
                    lemma_short_stream(s, p0);
                }
            }
            match br.consume_restart() {
                Some(_) => {},
                None => {
                    proof {
                        assert(restart_step(s, p, m0, true) is None);
                        lemma_mcus_fail(s, p, m_start, i as int, m0);
                        lemma_mcus_none(s, p, m_start, i + 1, total as int, true);
                    }
                    return None;
                },
            }
            proof {
                lemma_rst_stream_end(s, p0);
                seg = p0 + 2;
            }
            let mut k: usize = 0;
            while k < preds.len()
                invariant
                    preds@.len() == ncomp,
                    k <= ncomp,
                    forall|j: int| 0 <= j < k ==> preds@[j] == 0,
                decreases ncomp - k,
            {
                preds.set(k, 0);
                k = k + 1;
            }
            since = 0;
            proof {
                assert(preds@ =~= zeros(ncomp as int));
            }
        }
        let ghost m1 = McuState {
            cur: Cursor { bits: br@, preds: preds@, thumb: thumb@ },
            seg,
            since: since as int,
        };
        assert(restart_step(s, p, m0, false) == Some(m1));
        assert(restart_step(s, p, m0, true) matches Some(x) ==> x == m1);
        let ghost pos1 = br.pos as int;
        match decode_mcu(&mut br, frame, scan, dc_tables, ac_tables, lay, &mut preds, &mut thumb, i, my, mx) {
            Some(_) => {},
            None => {
                proof {
                    assert(mcu_step(s, p, m0, i as int, true) is None);
                    lemma_mcus_fail(s, p, m_start, i as int, m0);
                    lemma_mcus_none(s, p, m_start, i + 1, total as int, true);
                }
                return None;
            },
        }
        since = since + 1;
        if br.error {
            proof {
                assert(ends_in_lone_ff(s, pos1));
            }
            return None;
        }
        assert(mcu_step(s, p, m0, i as int, false) == Some(
            McuState {
                cur: Cursor { bits: br@, preds: preds@, thumb: thumb@ },
                seg,
                since: since as int,
            },
        ));
        i = i + 1;
    }
    Some(thumb)
}

} // verus!
