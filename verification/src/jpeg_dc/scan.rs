use vstd::prelude::*;
use crate::jpeg_dc::headers::{FrameHeader, ScanHeader};
use crate::jpeg_dc::tables::{qview, qwf, hview, hwf};
use crate::jpeg_dc::huffman::HuffTable;
use crate::jpeg_dc::entropy::{
    ScanLayout, plan_of, scan_thumb, ends_in_ff, decode_mcus, table_missing, lemma_missing_table,
    blocks_across, blocks_down, one_block_scan, scan_start, scan_diffs, dc_sum, interval_start, pixel_of,
    lemma_dc_prediction, mcus, lemma_scan_thumb_len, places_ok,
};
use crate::jpeg_dc::DcThumbnail;

verus! {

/// `ceil(a / b)`.
pub open spec fn ceil_div(a: int, b: int) -> int {
    (a + b - 1) / b
}

/// Width in blocks of the luma grid that a baseline scan covers (whole MCUs).
pub open spec fn mcu_grid_w(f: &FrameHeader) -> int {
    ceil_div(f.width as int, 8 * f.h_max) * f.components@[f.y_idx as int].h_samp
}

/// Height in blocks of the luma grid that a baseline scan covers (whole MCUs).
pub open spec fn mcu_grid_h(f: &FrameHeader) -> int {
    ceil_div(f.height as int, 8 * f.v_max) * f.components@[f.y_idx as int].v_samp
}

/// A frame of non-empty size whose luma component has the largest sampling factors
/// (grayscale, 4:4:4, 4:2:2, 4:2:0, 4:1:1): one luma block per 8x8 pixels.
pub open spec fn luma_full(f: &FrameHeader) -> bool {
    &&& f.width >= 1
    &&& f.height >= 1
    &&& f.components@[f.y_idx as int].h_samp == f.h_max
    &&& f.components@[f.y_idx as int].v_samp == f.v_max
}

/// The smaller of two integers.
pub open spec fn min(a: int, b: int) -> int {
    if a <= b {
        a
    } else {
        b
    }
}

/// Largest thumbnail accepted (64 Mi pixels); beyond it the input is taken as corrupt.
pub open spec fn max_thumb() -> int {
    0x400_0000
}

proof fn lemma_ceil_div_bound(a: int, b: int)
    requires
        0 <= a <= 65535,
        8 <= b,
    ensures
        0 <= ceil_div(a, b) <= 8192,
{
    assert(0 <= (a + b - 1) / b <= 8192) by (nonlinear_arith)
        requires
            0 <= a <= 65535,
            8 <= b,
    ;
}

/// `u32` ceiling division of a frame dimension by an MCU size.
fn div_ceil_u32(a: u32, b: u32) -> (r: u32)
    requires
        a <= 65535,
        8 <= b <= 32,
    ensures
        r == ceil_div(a as int, b as int),
        r <= 8192,
{
    proof {
        lemma_ceil_div_bound(a as int, b as int);
    }
    (a + b - 1) / b
}

/// The DC quantizer of the luma component: entry 0 of its quantization table.
pub open spec fn luma_quant(f: &FrameHeader, qv: Seq<Option<Seq<u16>>>) -> Option<i32> {
    match qv[f.components@[f.y_idx as int].qtable_id as int] {
        Some(t) => Some(t[0] as i32),
        None => None,
    }
}

fn luma_dc_quant(frame: &FrameHeader, qtables: &Vec<Option<Vec<u16>>>) -> (res: Option<i32>)
    requires
        frame.wf(),
        qtables@.len() == 4,
        qwf(qtables@),
    ensures
        res == luma_quant(frame, qview(qtables@)),
        res matches Some(q) ==> 0 <= q <= 65535,
{
    let y_comp = frame.components[frame.y_idx];
    assert(1 <= frame.components@[frame.y_idx as int].h_samp);
    assert(y_comp.qtable_id <= 3);
    assert(qtables@[y_comp.qtable_id as int] matches Some(t) ==> t@.len() == 64);
    match &qtables[y_comp.qtable_id as usize] {
        Some(q) => Some(q[0] as i32),
        None => None,
    }
}

/// Layout of a baseline scan: interleaved MCUs of `h_max` x `v_max` blocks over the
/// whole frame; the luma blocks of an MCU fill an `h` x `v` cell of the thumbnail.
pub open spec fn baseline_layout(f: &FrameHeader, q: i32, restart: u16) -> ScanLayout {
    let y = f.components@[f.y_idx as int];
    ScanLayout {
        nx: ceil_div(f.width as int, 8 * f.h_max) as u32,
        ny: ceil_div(f.height as int, 8 * f.v_max) as u32,
        bw: y.h_samp as u32,
        bh: y.v_samp as u32,
        thumb_w: mcu_grid_w(f) as u32,
        al: 0,
        q,
        with_ac: true,
        interleaved: true,
        restart,
    }
}

/// The first `rows` rows, `w` pixels each, of a row-major image with rows `tw` long.
pub open spec fn crop(g: Seq<u8>, tw: int, w: int, rows: int) -> Seq<u8>
    decreases rows,
{
    if rows <= 0 {
        Seq::empty()
    } else {
        crop(g, tw, w, rows - 1) + g.subrange((rows - 1) * tw, (rows - 1) * tw + w)
    }
}

/// What a baseline scan yields (pixels, width, height): the MCU grid's thumbnail,
/// cut down to `ceil(W / 8)` x `ceil(H / 8)` where the grid is larger (`strict`: see
/// `restart_step`).
pub open spec fn baseline_result(
    s: Seq<u8>,
    f: &FrameHeader,
    sc: &ScanHeader,
    qv: Seq<Option<Seq<u16>>>,
    dcs: Seq<Option<(Seq<u8>, Seq<u8>)>>,
    acs: Seq<Option<(Seq<u8>, Seq<u8>)>>,
    restart: u16,
    strict: bool,
) -> Option<(Seq<u8>, int, int)> {
    if sc.components@.len() != f.components@.len() {
        None
    } else {
        match luma_quant(f, qv) {
            None => None,
            Some(q) => {
                let tw = mcu_grid_w(f);
                let th = mcu_grid_h(f);
                if tw * th > max_thumb() {
                    None
                } else {
                    match scan_thumb(s, plan_of(baseline_layout(f, q, restart), f, sc, dcs, acs), tw * th, strict) {
                        None => None,
                        Some(g) => {
                            let rw = ceil_div(if f.width == 0 { 1 } else { f.width as int }, 8);
                            let rh = ceil_div(if f.height == 0 { 1 } else { f.height as int }, 8);
                            if rw != tw || rh != th {
                                Some((crop(g, tw, min(rw, tw), min(rh, th)), min(rw, tw), min(rh, th)))
                            } else {
                                Some((g, tw, th))
                            }
                        },
                    }
                }
            },
        }
    }
}

/// Layout of the first DC scan of a progressive frame: interleaved over the frame's
/// MCUs when it holds several components, else one block per MCU over the
/// component's own block grid; the thumbnail is `ceil(W / 8)` wide.
pub open spec fn progressive_layout(f: &FrameHeader, sc: &ScanHeader, q: i32, restart: u16) -> ScanLayout {
    let interleaved = sc.components@.len() > 1;
    let c = f.components@[sc.components@[0].comp_idx as int];
    ScanLayout {
        nx: (if interleaved {
            ceil_div(f.width as int, 8 * f.h_max)
        } else {
            ceil_div(f.width * c.h_samp, 8 * f.h_max)
        }) as u32,
        ny: (if interleaved {
            ceil_div(f.height as int, 8 * f.v_max)
        } else {
            ceil_div(f.height * c.v_samp, 8 * f.v_max)
        }) as u32,
        bw: if interleaved { f.h_max as u32 } else { 1 },
        bh: if interleaved { f.v_max as u32 } else { 1 },
        thumb_w: ceil_div(f.width as int, 8) as u32,
        al: sc.al,
        q,
        with_ac: false,
        interleaved,
        restart,
    }
}

/// What the first DC scan of a progressive frame yields (pixels, width, height); the
/// scan must hold the luma component. (No AC data is read, so `dcs` stands in for the
/// AC tables; `strict`: see `restart_step`.)
pub open spec fn progressive_result(
    s: Seq<u8>,
    f: &FrameHeader,
    sc: &ScanHeader,
    qv: Seq<Option<Seq<u16>>>,
    dcs: Seq<Option<(Seq<u8>, Seq<u8>)>>,
    restart: u16,
    strict: bool,
) -> Option<(Seq<u8>, int, int)> {
    match luma_quant(f, qv) {
        None => None,
        Some(q) => {
            let tw = ceil_div(f.width as int, 8);
            let th = ceil_div(f.height as int, 8);
            if tw * th > max_thumb() {
                None
            } else if !exists|j: int|
                0 <= j < sc.components@.len() && #[trigger] sc.components@[j].comp_idx == f.y_idx {
                None
            } else {
                match scan_thumb(s, plan_of(progressive_layout(f, sc, q, restart), f, sc, dcs, dcs), tw * th, strict) {
                    None => None,
                    Some(g) => Some((g, tw, th)),
                }
            }
        },
    }
}

/// A non-empty side needs at least one MCU, and no more than fit a 16-bit size.
proof fn lemma_ceil_div_pos(a: int, b: int)
    requires
        1 <= a <= 4 * 65535,
        8 <= b,
    ensures
        1 <= ceil_div(a, b) <= 4 * 8192,
{
    assert(1 <= (a + b - 1) / b <= 4 * 8192) by (nonlinear_arith)
        requires
            1 <= a <= 4 * 65535,
            8 <= b,
    ;
}

/// Cropping keeps the top-left corner: pixel (x, y) of the `w` x `rows` crop is pixel
/// (x, y) of the image with rows `tw` long.
pub proof fn lemma_crop_top_left(g: Seq<u8>, tw: int, w: int, rows: int)
    requires
        0 <= w <= tw,
        0 <= rows,
        rows * tw <= g.len(),
    ensures
        crop(g, tw, w, rows).len() == rows * w,
        forall|x: int, y: int|
            0 <= x < w && 0 <= y < rows ==> #[trigger] crop(g, tw, w, rows)[y * w + x] == g[y * tw + x],
    decreases rows,
{
    if rows > 0 {
        assert((rows - 1) * tw + tw == rows * tw) by (nonlinear_arith);
        assert((rows - 1) * tw >= 0) by (nonlinear_arith)
            requires
                rows >= 1,
                tw >= 0,
        ;
        lemma_crop_top_left(g, tw, w, rows - 1);
        let prev = crop(g, tw, w, rows - 1);
        let row = g.subrange((rows - 1) * tw, (rows - 1) * tw + w);
        assert((rows - 1) * w + w == rows * w) by (nonlinear_arith);
        assert forall|x: int, y: int| 0 <= x < w && 0 <= y < rows implies #[trigger] crop(
            g,
            tw,
            w,
            rows,
        )[y * w + x] == g[y * tw + x] by {
            if y < rows - 1 {
                assert(y * w + x < (rows - 1) * w) by (nonlinear_arith)
                    requires
                        0 <= x < w,
                        0 <= y < rows - 1,
                ;
                assert(prev[y * w + x] == g[y * tw + x]);
            } else {
                assert(y * w + x - (rows - 1) * w == x) by (nonlinear_arith)
                    requires
                        y == rows - 1,
                ;
                assert(row[x] == g[y * tw + x]);
            }
        }
    }
}

/// A baseline scan's thumbnail is the top-left `ceil(W / 8)` x `ceil(H / 8)` corner of
/// the thumbnail of its whole MCU grid (`mcu_grid_w` x `mcu_grid_h`): the blocks past
/// the image's right and bottom edges, which only pad the last MCUs, are dropped.
pub proof fn lemma_baseline_crop(
    s: Seq<u8>,
    f: &FrameHeader,
    sc: &ScanHeader,
    qv: Seq<Option<Seq<u16>>>,
    dcs: Seq<Option<(Seq<u8>, Seq<u8>)>>,
    acs: Seq<Option<(Seq<u8>, Seq<u8>)>>,
    restart: u16,
    strict: bool,
)
    requires
        f.wf(),
        sc.wf_for(f),
        f.width >= 1,
        f.height >= 1,
        baseline_result(s, f, sc, qv, dcs, acs, restart, strict) is Some,
    ensures
        ({
            let (g, w, h) = baseline_result(s, f, sc, qv, dcs, acs, restart, strict)->0;
            let q = luma_quant(f, qv)->0;
            let tw = mcu_grid_w(f);
            let th = mcu_grid_h(f);
            let grid = scan_thumb(s, plan_of(baseline_layout(f, q, restart), f, sc, dcs, acs), tw * th, strict)->0;
            &&& w == min(ceil_div(f.width as int, 8), tw)
            &&& h == min(ceil_div(f.height as int, 8), th)
            &&& grid.len() == tw * th
            &&& g.len() == w * h
            &&& forall|x: int, y: int| 0 <= x < w && 0 <= y < h ==> #[trigger] g[y * w + x] == grid[y * tw + x]
        }),
{
    let q = luma_quant(f, qv)->0;
    let tw = mcu_grid_w(f);
    let th = mcu_grid_h(f);
    let p = plan_of(baseline_layout(f, q, restart), f, sc, dcs, acs);
    let y = f.components@[f.y_idx as int];
    assert(1 <= y.h_samp && 1 <= y.v_samp);
    lemma_ceil_div_pos(f.width as int, 8 * f.h_max);
    lemma_ceil_div_pos(f.height as int, 8 * f.v_max);
    assert(tw >= 1 && th >= 1) by (nonlinear_arith)
        requires
            tw == ceil_div(f.width as int, 8 * f.h_max) * y.h_samp,
            th == ceil_div(f.height as int, 8 * f.v_max) * y.v_samp,
            ceil_div(f.width as int, 8 * f.h_max) >= 1,
            ceil_div(f.height as int, 8 * f.v_max) >= 1,
            y.h_samp >= 1,
            y.v_samp >= 1,
    ;
    assert(tw * th >= 0) by (nonlinear_arith)
        requires
            tw >= 1,
            th >= 1,
    ;
    assert forall|si: int| 0 <= si < p.scan.len() implies #[trigger] blocks_across(p, si) >= 1 by {
        assert(1 <= f.components@[sc.components@[si].comp_idx as int].h_samp);
    }
    assert(places_ok(p));
    lemma_scan_thumb_len(s, p, tw * th, strict);
    let grid = scan_thumb(s, p, tw * th, strict)->0;
    let rw = ceil_div(f.width as int, 8);
    let rh = ceil_div(f.height as int, 8);
    if rw != tw || rh != th {
        let w = min(rw, tw);
        let h = min(rh, th);
        assert(h * tw <= tw * th) by (nonlinear_arith)
            requires
                0 <= h <= th,
                tw >= 1,
        ;
        lemma_ceil_div_pos(f.width as int, 8);
        lemma_ceil_div_pos(f.height as int, 8);
        lemma_crop_top_left(grid, tw, w, h);
        assert(h * w == w * h) by (nonlinear_arith);
    } else {
        assert forall|x: int, y: int| 0 <= x < tw && 0 <= y < th implies #[trigger] grid[y * tw + x]
            == grid[y * tw + x] by {}
    }
}

/// A first DC scan of one component covers that component's own block grid, not the
/// frame's MCU grid: `ceil(W * h / (8 * h_max))` blocks across and
/// `ceil(H * v / (8 * v_max))` down for its sampling factors `h`, `v`, one block per
/// MCU, written one thumbnail pixel each. For a component sampled at the maximal
/// factors (full-resolution luma) that is one block per 8 x 8 pixels, the thumbnail's
/// own width.
pub proof fn lemma_progressive_component_grid(f: &FrameHeader, sc: &ScanHeader, q: i32, restart: u16)
    requires
        f.wf(),
        sc.wf_for(f),
        sc.components@.len() == 1,
        f.width >= 1,
        f.height >= 1,
    ensures
        ({
            let lay = progressive_layout(f, sc, q, restart);
            let c = f.components@[sc.components@[0].comp_idx as int];
            &&& !lay.interleaved
            &&& lay.bw == 1 && lay.bh == 1
            &&& (lay.nx - 1) * (8 * f.h_max) < f.width * c.h_samp <= lay.nx * (8 * f.h_max)
            &&& (lay.ny - 1) * (8 * f.v_max) < f.height * c.v_samp <= lay.ny * (8 * f.v_max)
            &&& (lay.thumb_w - 1) * 8 < f.width <= lay.thumb_w * 8
            &&& c.h_samp == f.h_max ==> lay.nx == lay.thumb_w
        }),
{
    let lay = progressive_layout(f, sc, q, restart);
    let c = f.components@[sc.components@[0].comp_idx as int];
    assert(1 <= c.h_samp <= f.h_max <= 4 && 1 <= c.v_samp <= f.v_max <= 4);
    let a = f.width * c.h_samp;
    let b = f.height * c.v_samp;
    assert(1 <= a <= 4 * 65535 && 1 <= b <= 4 * 65535) by (nonlinear_arith)
        requires
            a == f.width * c.h_samp,
            b == f.height * c.v_samp,
            1 <= f.width <= 65535,
            1 <= f.height <= 65535,
            1 <= c.h_samp <= 4,
            1 <= c.v_samp <= 4,
    ;
    lemma_ceil_div_pos(a, 8 * f.h_max);
    lemma_ceil_div_pos(b, 8 * f.v_max);
    lemma_ceil_div_pos(f.width as int, 8);
    lemma_ceil_div_exact(a, 8 * f.h_max);
    lemma_ceil_div_exact(b, 8 * f.v_max);
    lemma_ceil_div_exact(f.width as int, 8);
    if c.h_samp == f.h_max {
        assert(ceil_div(a, 8 * f.h_max) == ceil_div(f.width as int, 8)) by {
            let k = f.h_max as int;
            assert(a + 8 * k - 1 == (f.width + 7) * k + (k - 1)) by (nonlinear_arith)
                requires
                    a == f.width * k,
            ;
            vstd::arithmetic::div_mod::lemma_fundamental_div_mod((f.width + 7) as int, 8);
            let qq = (f.width + 7) / 8;
            let rr = (f.width + 7) % 8;
            assert(a + 8 * k - 1 == qq * (8 * k) + (rr * k + k - 1)) by (nonlinear_arith)
                requires
                    a + 8 * k - 1 == (f.width + 7) * k + (k - 1),
                    f.width + 7 == 8 * qq + rr,
            ;
            assert(0 <= rr * k + k - 1 < 8 * k) by (nonlinear_arith)
                requires
                    0 <= rr < 8,
                    1 <= k,
            ;
            vstd::arithmetic::div_mod::lemma_fundamental_div_mod_converse(
                a + 8 * k - 1,
                8 * k,
                qq,
                rr * k + k - 1,
            );
        }
    }
}

/// `ceil(a / b)` blocks of `b` cover `a` and no fewer do.
proof fn lemma_ceil_div_exact(a: int, b: int)
    requires
        1 <= a,
        1 <= b,
    ensures
        (ceil_div(a, b) - 1) * b < a <= ceil_div(a, b) * b,
{
    vstd::arithmetic::div_mod::lemma_fundamental_div_mod(a + b - 1, b);
    vstd::arithmetic::div_mod::lemma_mod_bound(a + b - 1, b);
    let qq = (a + b - 1) / b;
    assert((qq - 1) * b < a <= qq * b) by (nonlinear_arith)
        requires
            a + b - 1 == b * qq + (a + b - 1) % b,
            0 <= (a + b - 1) % b < b,
    ;
}

/// A baseline scan yields nothing when its component count differs from the frame's,
/// when the luma component's quantization table is missing, or, for a frame of
/// non-empty size, when scan component `si` names a missing DC or AC table.
pub proof fn lemma_baseline_none(
    s: Seq<u8>,
    f: &FrameHeader,
    sc: &ScanHeader,
    qv: Seq<Option<Seq<u16>>>,
    dcs: Seq<Option<(Seq<u8>, Seq<u8>)>>,
    acs: Seq<Option<(Seq<u8>, Seq<u8>)>>,
    restart: u16,
    strict: bool,
    si: int,
)
    requires
        f.wf(),
        sc.wf_for(f),
        sc.components@.len() != f.components@.len() || luma_quant(f, qv) is None || (f.width >= 1
            && f.height >= 1 && 0 <= si < sc.components@.len() && (dcs[sc.components@[si].dc_table as int]
            is None || acs[sc.components@[si].ac_table as int] is None)),
    ensures
        baseline_result(s, f, sc, qv, dcs, acs, restart, strict) is None,
{
    if sc.components@.len() == f.components@.len() && luma_quant(f, qv) is Some {
        let q = luma_quant(f, qv)->0;
        let tw = mcu_grid_w(f);
        let th = mcu_grid_h(f);
        if tw * th <= max_thumb() {
            let p = plan_of(baseline_layout(f, q, restart), f, sc, dcs, acs);
            lemma_ceil_div_pos(f.width as int, 8 * f.h_max);
            lemma_ceil_div_pos(f.height as int, 8 * f.v_max);
            assert(p.lay.nx * p.lay.ny >= 1) by (nonlinear_arith)
                requires
                    p.lay.nx >= 1,
                    p.lay.ny >= 1,
            ;
            let ci = sc.components@[si].comp_idx as int;
            assert(1 <= f.components@[ci].h_samp && 1 <= f.components@[ci].v_samp);
            assert(blocks_across(p, si) * blocks_down(p, si) >= 1) by (nonlinear_arith)
                requires
                    blocks_across(p, si) >= 1,
                    blocks_down(p, si) >= 1,
            ;
            assert(table_missing(p, si));
            lemma_missing_table(s, p, tw * th, strict, si);
        }
    }
}

/// DC prediction in a one-component baseline scan (one 8x8 block per MCU): thumbnail
/// pixel `k` is the pixel of the sum of the DC differences `d` of the blocks of its
/// restart interval up to and including block `k` (all blocks when there are no restart
/// markers), dequantized by the luma quantizer `q`.
pub proof fn lemma_baseline_dc_prediction(
    s: Seq<u8>,
    f: &FrameHeader,
    sc: &ScanHeader,
    qv: Seq<Option<Seq<u16>>>,
    dcs: Seq<Option<(Seq<u8>, Seq<u8>)>>,
    acs: Seq<Option<(Seq<u8>, Seq<u8>)>>,
    restart: u16,
    strict: bool,
)
    requires
        f.wf(),
        sc.wf_for(f),
        f.components@.len() == 1,
        f.h_max == 1,
        f.v_max == 1,
        f.width >= 1,
        f.height >= 1,
        baseline_result(s, f, sc, qv, dcs, acs, restart, strict) is Some,
    ensures
        ({
            let (g, w, h) = baseline_result(s, f, sc, qv, dcs, acs, restart, strict)->0;
            let q = luma_quant(f, qv)->0;
            let p = plan_of(baseline_layout(f, q, restart), f, sc, dcs, acs);
            let d = scan_diffs(s, p, scan_start(s, p, w * h), w * h, strict);
            &&& w == ceil_div(f.width as int, 8)
            &&& h == ceil_div(f.height as int, 8)
            &&& g.len() == w * h
            &&& d.len() == w * h
            &&& forall|k: int|
                0 <= k < w * h ==> #[trigger] g[k] == pixel_of(
                    dc_sum(d, interval_start(restart as int, k), k),
                    0,
                    q,
                )
        }),
{
    let q = luma_quant(f, qv)->0;
    let lay = baseline_layout(f, q, restart);
    let p = plan_of(lay, f, sc, dcs, acs);
    let tw = mcu_grid_w(f);
    let th = mcu_grid_h(f);
    lemma_ceil_div_pos(f.width as int, 8);
    lemma_ceil_div_pos(f.height as int, 8);
    assert(f.y_idx == 0);
    let y = f.components@[0];
    assert(1 <= y.h_samp <= f.h_max && 1 <= y.v_samp <= f.v_max);
    assert(y.h_samp == 1 && y.v_samp == 1);
    assert(8 * f.h_max == 8 && 8 * f.v_max == 8);
    assert(tw == ceil_div(f.width as int, 8) * 1);
    assert(th == ceil_div(f.height as int, 8) * 1);
    assert(sc.components@[0].comp_idx == 0);
    assert(one_block_scan(p));
    let total = tw * th;
    assert(lay.nx * lay.ny == total);
    let g = scan_thumb(s, p, total, strict)->0;
    assert(baseline_result(s, f, sc, qv, dcs, acs, restart, strict) == Some((g, tw, th)));
    lemma_dc_prediction(s, p, total, total, strict);
    let m = mcus(s, p, scan_start(s, p, total), total, strict)->0;
    assert(g == m.cur.thumb);
    let d = scan_diffs(s, p, scan_start(s, p, total), total, strict);
    assert forall|k: int| 0 <= k < total implies #[trigger] g[k] == pixel_of(
        dc_sum(d, interval_start(restart as int, k), k),
        0,
        q,
    ) by {
        assert(m.cur.thumb[k] == pixel_of(dc_sum(d, interval_start(p.lay.restart as int, k), k), p.lay.al, p.lay.q));
    }
}

/// The first DC scan of a progressive frame yields nothing when the luma component's
/// quantization table is missing, when the scan does not hold the luma component, or,
/// for a frame of non-empty size, when scan component `si` names a missing DC table.
pub proof fn lemma_progressive_none(
    s: Seq<u8>,
    f: &FrameHeader,
    sc: &ScanHeader,
    qv: Seq<Option<Seq<u16>>>,
    dcs: Seq<Option<(Seq<u8>, Seq<u8>)>>,
    restart: u16,
    strict: bool,
    si: int,
)
    requires
        f.wf(),
        sc.wf_for(f),
        luma_quant(f, qv) is None || (forall|j: int|
            0 <= j < sc.components@.len() ==> #[trigger] sc.components@[j].comp_idx != f.y_idx) || (f.width
            >= 1 && f.height >= 1 && 0 <= si < sc.components@.len() && dcs[sc.components@[si].dc_table as int]
            is None),
    ensures
        progressive_result(s, f, sc, qv, dcs, restart, strict) is None,
{
    if luma_quant(f, qv) is Some && exists|j: int|
        0 <= j < sc.components@.len() && #[trigger] sc.components@[j].comp_idx == f.y_idx {
        let q = luma_quant(f, qv)->0;
        let tw = ceil_div(f.width as int, 8);
        let th = ceil_div(f.height as int, 8);
        if tw * th <= max_thumb() {
            let p = plan_of(progressive_layout(f, sc, q, restart), f, sc, dcs, dcs);
            let c0 = f.components@[sc.components@[0].comp_idx as int];
            assert(1 <= c0.h_samp <= 4 && 1 <= c0.v_samp <= 4);
            assert(1 <= f.width * c0.h_samp <= 4 * 65535) by (nonlinear_arith)
                requires
                    1 <= f.width <= 65535,
                    1 <= c0.h_samp <= 4,
            ;
            assert(1 <= f.height * c0.v_samp <= 4 * 65535) by (nonlinear_arith)
                requires
                    1 <= f.height <= 65535,
                    1 <= c0.v_samp <= 4,
            ;
            lemma_ceil_div_pos(f.width as int, 8 * f.h_max);
            lemma_ceil_div_pos(f.height as int, 8 * f.v_max);
            lemma_ceil_div_pos(f.width * c0.h_samp, 8 * f.h_max);
            lemma_ceil_div_pos(f.height * c0.v_samp, 8 * f.v_max);
            assert(p.lay.nx * p.lay.ny >= 1) by (nonlinear_arith)
                requires
                    p.lay.nx >= 1,
                    p.lay.ny >= 1,
            ;
            let ci = sc.components@[si].comp_idx as int;
            assert(1 <= f.components@[ci].h_samp && 1 <= f.components@[ci].v_samp);
            assert(blocks_across(p, si) * blocks_down(p, si) >= 1) by (nonlinear_arith)
                requires
                    blocks_across(p, si) >= 1,
                    blocks_down(p, si) >= 1,
            ;
            assert(table_missing(p, si));
            lemma_missing_table(s, p, tw * th, strict, si);
        }
    }
}

/// Decodes a baseline sequential scan, keeping one pixel per luma block.
#[verifier::rlimit(40)]
pub fn decode_baseline_scan(
    ecs: &[u8],
    frame: &FrameHeader,
    scan: &ScanHeader,
    qtables: &Vec<Option<Vec<u16>>>,
    dc_tables: &Vec<Option<HuffTable>>,
    ac_tables: &Vec<Option<HuffTable>>,
    restart_interval: u16,
) -> (res: Option<DcThumbnail>)
    requires
        frame.wf(),
        scan.wf_for(frame),
        qtables@.len() == 4,
        qwf(qtables@),
        dc_tables@.len() == 4,
        ac_tables@.len() == 4,
        hwf(dc_tables@),
        hwf(ac_tables@),
    ensures
        res matches Some(t) ==> {
            &&& baseline_result(
                ecs@,
                frame,
                scan,
                qview(qtables@),
                hview(dc_tables@),
                hview(ac_tables@),
                restart_interval,
                false,
            ) == Some((t.gray@, t.width as int, t.height as int))
            &&& t.gray@.len() == t.width * t.height
            &&& t.width == min(ceil_div(if frame.width == 0 { 1 } else { frame.width as int }, 8), mcu_grid_w(frame))
            &&& t.height == min(ceil_div(if frame.height == 0 { 1 } else { frame.height as int }, 8), mcu_grid_h(frame))
            &&& luma_full(frame) ==> t.width == ceil_div(frame.width as int, 8) && t.height == ceil_div(
                frame.height as int,
                8,
            )
            &&& scan.components@.len() == frame.components@.len()
            &&& mcu_grid_w(frame) * mcu_grid_h(frame) <= max_thumb()
        },
        res is None && !ends_in_ff(ecs@) ==> baseline_result(
            ecs@,
            frame,
            scan,
            qview(qtables@),
            hview(dc_tables@),
            hview(ac_tables@),
            restart_interval,
            true,
        ) is None,
{
    proof {
        if luma_full(frame) {
            lemma_baseline_one_eighth(frame);
        }
    }
    if scan.components.len() != frame.components.len() {
        return None;
    }
    let y_comp = frame.components[frame.y_idx];
    let q_y_dc = match luma_dc_quant(frame, qtables) {
        Some(q) => q,
        None => return None,
    };
    let mcu_w: u32 = 8 * frame.h_max as u32;
    let mcu_h: u32 = 8 * frame.v_max as u32;
    let num_mcu_x = div_ceil_u32(frame.width as u32, mcu_w);
    let num_mcu_y = div_ceil_u32(frame.height as u32, mcu_h);
    let y_bx = y_comp.h_samp as u32;
    let y_by = y_comp.v_samp as u32;
    assert(1 <= y_comp.h_samp <= 4 && 1 <= y_comp.v_samp <= 4);
    assert(num_mcu_x * y_bx <= 32768 && num_mcu_y * y_by <= 32768) by (nonlinear_arith)
        requires
            num_mcu_x <= 8192,
            num_mcu_y <= 8192,
            y_bx <= 4,
            y_by <= 4,
    ;
    let thumb_w = num_mcu_x * y_bx;
    let thumb_h = num_mcu_y * y_by;
    assert(thumb_w as int * thumb_h as int <= 32768 * 32768) by (nonlinear_arith)
        requires
            thumb_w <= 32768,
            thumb_h <= 32768,
    ;
    let thumb_total = match thumb_w.checked_mul(thumb_h) {
        Some(t) => t as usize,
        None => return None,
    };
    if thumb_total > 64 * 1024 * 1024 {
        return None;
    }
    let lay = ScanLayout {
        nx: num_mcu_x,
        ny: num_mcu_y,
        bw: y_bx,
        bh: y_by,
        thumb_w,
        al: 0,
        q: q_y_dc,
        with_ac: true,
        interleaved: true,
        restart: restart_interval,
    };
    assert(lay == baseline_layout(frame, q_y_dc, restart_interval));
    proof {
        assert(thumb_w == mcu_grid_w(frame) && thumb_h == mcu_grid_h(frame));
        assert(thumb_total == mcu_grid_w(frame) * mcu_grid_h(frame));
    }
    let thumb = match decode_mcus(ecs, frame, scan, dc_tables, ac_tables, &lay, thumb_total) {
        Some(g) => g,
        None => return None,
    };
    let ghost g = thumb@;
    proof {
        assert(scan_thumb(
            ecs@,
            plan_of(baseline_layout(frame, q_y_dc, restart_interval), frame, scan, hview(dc_tables@), hview(ac_tables@)),
            mcu_grid_w(frame) * mcu_grid_h(frame),
            false,
        ) == Some(g));
    }
    let fw: u32 = if frame.width == 0 { 1 } else { frame.width as u32 };
    let fh: u32 = if frame.height == 0 { 1 } else { frame.height as u32 };
    let real_w = div_ceil_u32(fw, 8);
    let real_h = div_ceil_u32(fh, 8);
    proof {
        lemma_ceil_div_bound(frame.width as int, 8 * frame.h_max);
    }
    if real_w != thumb_w || real_h != thumb_h {
        let actual_w: usize = if real_w < thumb_w { real_w as usize } else { thumb_w as usize };
        let actual_h: usize = if real_h < thumb_h { real_h as usize } else { thumb_h as usize };
        let mut cropped: Vec<u8> = Vec::new();
        let mut y: usize = 0;
        while y < actual_h
            invariant
                thumb@ == g,
                g.len() == thumb_total,
                thumb_total == thumb_w * thumb_h,
                actual_w <= thumb_w,
                actual_h <= thumb_h,
                thumb_w <= 32768,
                thumb_h <= 32768,
                0 <= y <= actual_h,
                cropped@ == crop(g, thumb_w as int, actual_w as int, y as int),
                cropped@.len() == y * actual_w,
            decreases actual_h - y,
        {
            assert(y * thumb_w + thumb_w <= thumb_w * thumb_h) by (nonlinear_arith)
                requires
                    y < actual_h,
                    actual_h <= thumb_h,
            ;
            let row_start = y * thumb_w as usize;
            let mut x: usize = 0;
            while x < actual_w
                invariant
                    thumb@ == g,
                    g.len() == thumb_total,
                    thumb_total == thumb_w * thumb_h,
                    row_start == y * thumb_w,
                    row_start + thumb_w <= thumb_total,
                    actual_w <= thumb_w,
                    0 <= x <= actual_w,
                    cropped@ == crop(g, thumb_w as int, actual_w as int, y as int) + g.subrange(
                        row_start as int,
                        row_start + x,
                    ),
                    cropped@.len() == y * actual_w + x,
                decreases actual_w - x,
            {
                proof {
                    assert(g.subrange(row_start as int, row_start + x + 1) =~= g.subrange(
                        row_start as int,
                        row_start + x,
                    ).push(g[row_start + x]));
                }
                cropped.push(thumb[row_start + x]);
                x = x + 1;
            }
            assert((y + 1) * actual_w == y * actual_w + actual_w) by (nonlinear_arith);
            y = y + 1;
        }
        assert(cropped@.len() == (actual_w as u32) * (actual_h as u32)) by (nonlinear_arith)
            requires
                cropped@.len() == actual_h * actual_w,
                actual_w <= 32768,
                actual_h <= 32768,
        ;
        return Some(DcThumbnail { gray: cropped, width: actual_w as u32, height: actual_h as u32 });
    }
    Some(DcThumbnail { gray: thumb, width: thumb_w, height: thumb_h })
}

/// Decodes the first (DC-only) scan of a progressive JPEG, keeping one pixel per
/// luma block; the DC value is shifted left by the scan's point transform.
#[verifier::rlimit(40)]
pub fn decode_progressive_dc_scan(
    ecs: &[u8],
    frame: &FrameHeader,
    scan: &ScanHeader,
    qtables: &Vec<Option<Vec<u16>>>,
    dc_tables: &Vec<Option<HuffTable>>,
    restart_interval: u16,
) -> (res: Option<DcThumbnail>)
    requires
        frame.wf(),
        scan.wf_for(frame),
        scan.al <= 15,
        qtables@.len() == 4,
        qwf(qtables@),
        dc_tables@.len() == 4,
        hwf(dc_tables@),
    ensures
        res matches Some(t) ==> {
            &&& progressive_result(
                ecs@,
                frame,
                scan,
                qview(qtables@),
                hview(dc_tables@),
                restart_interval,
                false,
            ) == Some((t.gray@, t.width as int, t.height as int))
            &&& t.gray@.len() == t.width * t.height
            &&& t.width == ceil_div(frame.width as int, 8)
            &&& t.height == ceil_div(frame.height as int, 8)
            &&& t.width * t.height <= max_thumb()
            &&& exists|i: int|
                0 <= i < scan.components@.len() && #[trigger] scan.components@[i].comp_idx == frame.y_idx
        },
        res is None && !ends_in_ff(ecs@) ==> progressive_result(
            ecs@,
            frame,
            scan,
            qview(qtables@),
            hview(dc_tables@),
            restart_interval,
            true,
        ) is None,
{
    let q_y_dc = match luma_dc_quant(frame, qtables) {
        Some(q) => q,
        None => return None,
    };
    let interleaved = scan.components.len() > 1;
    let thumb_w = div_ceil_u32(frame.width as u32, 8);
    let thumb_h = div_ceil_u32(frame.height as u32, 8);
    assert(thumb_w as int * thumb_h as int <= 8192 * 8192) by (nonlinear_arith)
        requires
            thumb_w <= 8192,
            thumb_h <= 8192,
    ;
    let thumb_total = match thumb_w.checked_mul(thumb_h) {
        Some(t) => t as usize,
        None => return None,
    };
    if thumb_total > 64 * 1024 * 1024 {
        return None;
    }
    let mut y_in_scan = false;
    let mut i: usize = 0;
    while i < scan.components.len()
        invariant
            0 <= i <= scan.components@.len(),
            y_in_scan <==> exists|j: int| 0 <= j < i && #[trigger] scan.components@[j].comp_idx == frame.y_idx,
        decreases scan.components@.len() - i,
    {
        if scan.components[i].comp_idx == frame.y_idx {
            y_in_scan = true;
        }
        i = i + 1;
    }
    if !y_in_scan {
        return None;
    }
    let comp = frame.components[scan.components[0].comp_idx];
    let mcu_w_blocks: u32;
    let mcu_h_blocks: u32;
    let num_mcu_x: u32;
    let num_mcu_y: u32;
    if interleaved {
        mcu_w_blocks = frame.h_max as u32;
        mcu_h_blocks = frame.v_max as u32;
        num_mcu_x = div_ceil_u32(frame.width as u32, 8 * frame.h_max as u32);
        num_mcu_y = div_ceil_u32(frame.height as u32, 8 * frame.v_max as u32);
    } else {
        mcu_w_blocks = 1;
        mcu_h_blocks = 1;
        assert(frame.width as u32 * comp.h_samp as u32 <= 65535 * 4) by (nonlinear_arith)
            requires
                comp.h_samp <= 4,
        ;
        assert(frame.height as u32 * comp.v_samp as u32 <= 65535 * 4) by (nonlinear_arith)
            requires
                comp.v_samp <= 4,
        ;
        let wx: u32 = frame.width as u32 * comp.h_samp as u32;
        let hy: u32 = frame.height as u32 * comp.v_samp as u32;
        let dx: u32 = 8 * frame.h_max as u32;
        let dy: u32 = 8 * frame.v_max as u32;
        assert((wx + dx - 1) as int / (dx as int) <= 32768) by (nonlinear_arith)
            requires
                wx <= 65535 * 4,
                8 <= dx <= 32,
        ;
        assert((hy + dy - 1) as int / (dy as int) <= 32768) by (nonlinear_arith)
            requires
                hy <= 65535 * 4,
                8 <= dy <= 32,
        ;
        num_mcu_x = (wx + dx - 1) / dx;
        num_mcu_y = (hy + dy - 1) / dy;
    }
    let lay = ScanLayout {
        nx: num_mcu_x,
        ny: num_mcu_y,
        bw: mcu_w_blocks,
        bh: mcu_h_blocks,
        thumb_w,
        al: scan.al,
        q: q_y_dc,
        with_ac: false,
        interleaved,
        restart: restart_interval,
    };
    assert(lay == progressive_layout(frame, scan, q_y_dc, restart_interval));
    assert(thumb_total == ceil_div(frame.width as int, 8) * ceil_div(frame.height as int, 8));
    let thumb = match decode_mcus(ecs, frame, scan, dc_tables, dc_tables, &lay, thumb_total) {
        Some(g) => g,
        None => return None,
    };
    proof {
        assert(scan_thumb(
            ecs@,
            plan_of(progressive_layout(frame, scan, q_y_dc, restart_interval), frame, scan, hview(dc_tables@), hview(dc_tables@)),
            ceil_div(frame.width as int, 8) * ceil_div(frame.height as int, 8),
            false,
        ) == Some(thumb@));
    }
    Some(DcThumbnail { gray: thumb, width: thumb_w, height: thumb_h })
}

proof fn lemma_mcu_cover(d: int, s: int)
    requires
        1 <= d <= 65535,
        1 <= s <= 4,
    ensures
        ceil_div(d, 8 * s) * s >= ceil_div(d, 8),
{
    if s == 1 {
    } else if s == 2 {
        assert(((d + 15) / 16) * 2 >= (d + 7) / 8);
    } else if s == 3 {
        assert(((d + 23) / 24) * 3 >= (d + 7) / 8);
    } else {
        assert(((d + 31) / 32) * 4 >= (d + 7) / 8);
    }
}

/// One pixel per 8x8 block: when the luma component carries the largest sampling
/// factors (as in every usual layout, 4:4:4, 4:2:2, 4:2:0, 4:1:1, grayscale), the
/// baseline thumbnail of a non-empty frame is exactly `ceil(W / 8)` x `ceil(H / 8)`.
pub proof fn lemma_baseline_one_eighth(f: &FrameHeader)
    requires
        f.wf(),
        f.width >= 1,
        f.height >= 1,
        f.components@[f.y_idx as int].h_samp == f.h_max,
        f.components@[f.y_idx as int].v_samp == f.v_max,
    ensures
        min(ceil_div(f.width as int, 8), mcu_grid_w(f)) == ceil_div(f.width as int, 8),
        min(ceil_div(f.height as int, 8), mcu_grid_h(f)) == ceil_div(f.height as int, 8),
{
    lemma_mcu_cover(f.width as int, f.h_max as int);
    lemma_mcu_cover(f.height as int, f.v_max as int);
}

} // verus!
