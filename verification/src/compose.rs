//! Where tiles land on the canvas.
use vstd::prelude::*;
use crate::geometry::{lemma_tile_cell, TileKey};
use crate::model::{Pixel, Tile};

verus! {

/// Tile coordinate `t` can be turned into canvas coordinates with `i32`
/// arithmetic: `t * 64` and `t * 64 + 63` fit.
pub open spec fn blit_addressable(t: int) -> bool {
    -0x200_0000 <= t < 0x200_0000
}

/// Canvas column of pixel `i` (row-major) of a tile in tile column `tx`.
pub open spec fn canvas_x(tx: int, i: int) -> int {
    tx * 64 + i % 64
}

/// Canvas row of pixel `i` (row-major) of a tile in tile row `ty`.
pub open spec fn canvas_y(ty: int, i: int) -> int {
    ty * 64 + i / 64
}

/// Pixel `i` of tile `(tx, ty)` lies on a canvas `cw` x `ch`. A dimension
/// beyond `i32::MAX` reads as negative in the tile arithmetic, so nothing
/// lies on such a canvas.
pub open spec fn on_canvas(cw: u32, ch: u32, tx: int, ty: int, i: int) -> bool {
    &&& cw <= i32::MAX
    &&& ch <= i32::MAX
    &&& 0 <= canvas_x(tx, i) < cw
    &&& 0 <= canvas_y(ty, i) < ch
}

/// Offset of the first byte of canvas pixel `(x, y)` in a row-major RGBA
/// buffer `cw` pixels wide.
pub open spec fn canvas_byte(cw: u32, x: int, y: int) -> int {
    (y * cw + x) * 4
}

/// Tile pixel `i` is named by some pair of `targets`.
pub open spec fn targets_cell(targets: Seq<(usize, usize)>, i: int) -> bool {
    exists|j: int| 0 <= j < targets.len() && #[trigger] targets[j].1 == i
}

/// `targets` pairs, in row-major order of the tile, each tile pixel that lies
/// on the canvas with the byte offset of the canvas pixel under it.
pub open spec fn blit_targets_spec(cw: u32, ch: u32, tx: int, ty: int, targets: Seq<(usize, usize)>) -> bool {
    &&& forall|j: int|
        0 <= j < targets.len() ==> {
            let i = #[trigger] targets[j].1 as int;
            &&& i < 4096
            &&& on_canvas(cw, ch, tx, ty, i)
            &&& targets[j].0 == canvas_byte(cw, canvas_x(tx, i), canvas_y(ty, i))
        }
    &&& forall|j: int, k: int| 0 <= j < k < targets.len() ==> #[trigger] targets[j].1 < #[trigger] targets[k].1
    &&& forall|i: int| 0 <= i < 4096 && on_canvas(cw, ch, tx, ty, i) ==> #[trigger] targets_cell(targets, i)
}

/// The pairs (canvas byte offset, tile pixel index) of the tile pixels
/// `0..n` of tile `(tx, ty)` that lie on the canvas, in order.
pub open spec fn targets_upto(cw: u32, ch: u32, tx: int, ty: int, n: int) -> Seq<(usize, usize)>
    decreases n,
{
    if n <= 0 {
        Seq::empty()
    } else {
        let prev = targets_upto(cw, ch, tx, ty, n - 1);
        let i = n - 1;
        if on_canvas(cw, ch, tx, ty, i) {
            prev.push((canvas_byte(cw, canvas_x(tx, i), canvas_y(ty, i)) as usize, i as usize))
        } else {
            prev
        }
    }
}

/// Where each on-canvas pixel of tile `(tx, ty)` lands, in compositing order.
pub open spec fn tile_targets(cw: u32, ch: u32, tx: int, ty: int) -> Seq<(usize, usize)> {
    targets_upto(cw, ch, tx, ty, 4096)
}

/// Tile pixels that are off the canvas add no targets.
proof fn lemma_targets_skip(cw: u32, ch: u32, tx: int, ty: int, a: int, b: int)
    requires
        0 <= a <= b,
        forall|i: int| a <= i < b ==> !on_canvas(cw, ch, tx, ty, i),
    ensures
        targets_upto(cw, ch, tx, ty, b) == targets_upto(cw, ch, tx, ty, a),
    decreases b - a,
{
    if a < b {
        lemma_targets_skip(cw, ch, tx, ty, a, b - 1);
    }
}

proof fn lemma_canvas_index(x: int, y: int, w: int, h: int)
    requires
        0 <= x < w,
        0 <= y < h,
    ensures
        0 <= y * w,
        (y * w + x) * 4 + 4 <= w * h * 4,
{
    assert(0 <= y * w && (y * w + x) * 4 + 4 <= w * h * 4) by (nonlinear_arith)
        requires
            0 <= x < w,
            0 <= y < h,
    ;
}

proof fn lemma_wide_is_negative(v: u32)
    requires
        v > i32::MAX,
    ensures
        (v as i32) < 0,
{
    assert(v > 0x7fff_ffffu32 ==> (v as i32) < 0i32) by (bit_vector);
}

/// For the tile with grid coordinates `(tx, ty)` on a canvas `canvas_w` x
/// `canvas_h`: the pairs (byte offset in the canvas's RGBA buffer, index of
/// the tile pixel) of every tile pixel that lies on the canvas, in the
/// order the pixels are composited.
pub fn blit_targets(canvas_w: u32, canvas_h: u32, tx: i32, ty: i32) -> (targets: Vec<(usize, usize)>)
    requires
        blit_addressable(tx as int),
        blit_addressable(ty as int),
        canvas_w * canvas_h * 4 <= usize::MAX,
    ensures
        blit_targets_spec(canvas_w, canvas_h, tx as int, ty as int, targets@),
        targets@ == tile_targets(canvas_w, canvas_h, tx as int, ty as int),
{
    let ts: i32 = 64;
    let cw = canvas_w as i32;
    let ch = canvas_h as i32;
    proof {
        if canvas_w > i32::MAX {
            lemma_wide_is_negative(canvas_w);
        }
        if canvas_h > i32::MAX {
            lemma_wide_is_negative(canvas_h);
        }
    }
    let ox = tx * ts;
    let oy = ty * ts;
    let mut targets: Vec<(usize, usize)> = Vec::new();
    for ly in 0..ts
        invariant
            ts == 64,
            cw == canvas_w as i32,
            ch == canvas_h as i32,
            canvas_w <= i32::MAX ==> cw == canvas_w,
            canvas_w > i32::MAX ==> cw < 0,
            canvas_h <= i32::MAX ==> ch == canvas_h,
            canvas_h > i32::MAX ==> ch < 0,
            canvas_w * canvas_h * 4 <= usize::MAX,
            ox == tx * 64,
            oy == ty * 64,
            blit_addressable(tx as int),
            blit_addressable(ty as int),
            targets@ == targets_upto(canvas_w, canvas_h, tx as int, ty as int, ly * 64),
            forall|j: int|
                0 <= j < targets@.len() ==> {
                    let i = #[trigger] targets@[j].1 as int;
                    &&& i < ly * 64
                    &&& on_canvas(canvas_w, canvas_h, tx as int, ty as int, i)
                    &&& targets@[j].0 == canvas_byte(canvas_w, canvas_x(tx as int, i), canvas_y(ty as int, i))
                },
            forall|j: int, k: int| 0 <= j < k < targets@.len() ==> #[trigger] targets@[j].1 < #[trigger] targets@[k].1,
            forall|i: int|
                0 <= i < ly * 64 && on_canvas(canvas_w, canvas_h, tx as int, ty as int, i) ==> #[trigger] targets_cell(targets@, i),
    {
        let gy = oy + ly;
        if gy >= 0 && gy < ch {
            for lx in 0..ts
                invariant
                    ts == 64,
                    0 <= ly < 64,
                    cw == canvas_w as i32,
                    canvas_w <= i32::MAX ==> cw == canvas_w,
                    canvas_w > i32::MAX ==> cw < 0,
                    canvas_h <= i32::MAX ==> ch == canvas_h,
                    canvas_h > i32::MAX ==> ch < 0,
                    canvas_w * canvas_h * 4 <= usize::MAX,
                    ox == tx * 64,
                    gy == ty * 64 + ly,
                    0 <= gy < ch,
                    blit_addressable(tx as int),
                    targets@ == targets_upto(canvas_w, canvas_h, tx as int, ty as int, ly * 64 + lx),
                    forall|j: int|
                        0 <= j < targets@.len() ==> {
                            let i = #[trigger] targets@[j].1 as int;
                            &&& i < ly * 64 + lx
                            &&& on_canvas(canvas_w, canvas_h, tx as int, ty as int, i)
                            &&& targets@[j].0 == canvas_byte(canvas_w, canvas_x(tx as int, i), canvas_y(ty as int, i))
                        },
                    forall|j: int, k: int| 0 <= j < k < targets@.len() ==> #[trigger] targets@[j].1 < #[trigger] targets@[k].1,
                    forall|i: int|
                        0 <= i < ly * 64 + lx && on_canvas(canvas_w, canvas_h, tx as int, ty as int, i) ==> #[trigger] targets_cell(targets@, i),
            {
                let gx = ox + lx;
                proof {
                    lemma_tile_cell(ly as int, lx as int);
                }
                if gx >= 0 && gx < cw {
                    let si = (ly * ts + lx) as usize;
                    proof {
                        lemma_canvas_index(gx as int, gy as int, canvas_w as int, canvas_h as int);
                    }
                    let di = (gy as usize * cw as usize + gx as usize) * 4;
                    let ghost before = targets@;
                    targets.push((di, si));
                    proof {
                        assert forall|i: int|
                            0 <= i < ly * 64 + lx + 1 && on_canvas(canvas_w, canvas_h, tx as int, ty as int, i) implies #[trigger] targets_cell(targets@, i) by {
                            if i < ly * 64 + lx {
                                assert(targets_cell(before, i));
                                let j = choose|j: int| 0 <= j < before.len() && #[trigger] before[j].1 == i;
                                assert(targets@[j].1 == i);
                            } else {
                                assert(targets@[targets@.len() - 1].1 == i);
                            }
                        }
                    }
                } else {
                    proof {
                        assert forall|i: int|
                            0 <= i < ly * 64 + lx + 1 && on_canvas(canvas_w, canvas_h, tx as int, ty as int, i) implies #[trigger] targets_cell(targets@, i) by {
                            if i == ly * 64 + lx {
                                assert(!on_canvas(canvas_w, canvas_h, tx as int, ty as int, i));
                            }
                        }
                    }
                }
            }
        } else {
            proof {
                assert forall|i: int|
                    0 <= i < (ly + 1) * 64 && on_canvas(canvas_w, canvas_h, tx as int, ty as int, i) implies #[trigger] targets_cell(targets@, i) by {
                    if ly * 64 <= i {
                        assert(i / 64 == ly);
                    }
                }
                assert forall|i: int| ly * 64 <= i < (ly + 1) * 64 implies !on_canvas(canvas_w, canvas_h, tx as int, ty as int, i) by {
                    assert(i / 64 == ly);
                }
                lemma_targets_skip(canvas_w, canvas_h, tx as int, ty as int, ly * 64, (ly + 1) * 64);
            }
        }
    }
    assert(64 * 64 == 4096);
    targets
}


/// One compositing step: the byte offset of a canvas pixel, the tile pixel
/// laid over it, and the opacity (bit pattern of an `f32`) it is laid with.
/// These are the steps of tile `e` (its key, its pixels, its opacity), in
/// the order `blit_targets` gives.
pub open spec fn tile_ops(cw: u32, ch: u32, e: (TileKey, Tile, u32)) -> Seq<(int, Pixel, u32)> {
    tile_targets(cw, ch, e.0.0 as int, e.0.1 as int).map_values(
        |t: (usize, usize)| (t.0 as int, e.1.pixels@[t.1 as int], e.2),
    )
}

/// The compositing steps of a whole plan of tiles, first tile first.
pub open spec fn plan_ops(cw: u32, ch: u32, plan: Seq<(TileKey, Tile, u32)>) -> Seq<(int, Pixel, u32)>
    decreases plan.len(),
{
    if plan.len() == 0 {
        Seq::empty()
    } else {
        plan_ops(cw, ch, plan.drop_last()) + tile_ops(cw, ch, plan.last())
    }
}

/// A canvas of `cw` x `ch` RGBA pixels with every byte zero.
pub open spec fn blank_pixels(cw: u32, ch: u32) -> Seq<u8> {
    Seq::new((cw * ch * 4) as nat, |i: int| 0u8)
}

/// `after` is `before` with the pixel at byte offset `op.0` replaced by what
/// `blend` returns for that pixel, the tile pixel `op.1` and opacity `op.2`.
pub open spec fn blend_step<B: Fn(Pixel, Pixel, u32) -> Pixel>(
    blend: B,
    before: Seq<u8>,
    op: (int, Pixel, u32),
    after: Seq<u8>,
) -> bool {
    let d = op.0;
    &&& 0 <= d
    &&& d + 4 <= before.len()
    &&& exists|dst: Pixel, out: Pixel|
        #[trigger] blend.ensures((dst, op.1, op.2), out) && dst@ == before.subrange(d, d + 4) && after
            == before.subrange(0, d) + out@ + before.subrange(d + 4, before.len() as int)
}

/// `frames` are the canvases before the first step of `ops`, after the
/// first, and so on to after the last: each is the one before it with the
/// step applied.
pub open spec fn frames_ok<B: Fn(Pixel, Pixel, u32) -> Pixel>(
    blend: B,
    ops: Seq<(int, Pixel, u32)>,
    frames: Seq<Seq<u8>>,
) -> bool {
    &&& frames.len() == ops.len() + 1
    &&& forall|i: int| #![trigger ops[i]] 0 <= i < ops.len() ==> blend_step(blend, frames[i], ops[i], frames[i + 1])
}

/// Running the steps `ops` one after another with `blend` turns `start`
/// into `end`.
pub open spec fn composes<B: Fn(Pixel, Pixel, u32) -> Pixel>(
    blend: B,
    ops: Seq<(int, Pixel, u32)>,
    start: Seq<u8>,
    end: Seq<u8>,
) -> bool {
    exists|frames: Seq<Seq<u8>>| #[trigger] frames_ok(blend, ops, frames) && frames[0] == start && frames.last() == end
}

/// No steps leave the canvas as it is.
pub proof fn lemma_compose_empty<B: Fn(Pixel, Pixel, u32) -> Pixel>(blend: B, start: Seq<u8>)
    ensures
        composes(blend, Seq::empty(), start, start),
{
    let frames = seq![start];
    assert(frames_ok(blend, Seq::empty(), frames));
}

/// One more step after a composition extends it.
pub proof fn lemma_compose_push<B: Fn(Pixel, Pixel, u32) -> Pixel>(
    blend: B,
    ops: Seq<(int, Pixel, u32)>,
    op: (int, Pixel, u32),
    start: Seq<u8>,
    mid: Seq<u8>,
    end: Seq<u8>,
)
    requires
        composes(blend, ops, start, mid),
        blend_step(blend, mid, op, end),
    ensures
        composes(blend, ops.push(op), start, end),
{
    let frames = choose|frames: Seq<Seq<u8>>| #[trigger] frames_ok(blend, ops, frames) && frames[0] == start && frames.last() == mid;
    let f2 = frames.push(end);
    let o2 = ops.push(op);
    assert forall|i: int| #![trigger o2[i]] 0 <= i < o2.len() implies blend_step(blend, f2[i], o2[i], f2[i + 1]) by {
        if i < ops.len() {
            assert(o2[i] == ops[i]);
            assert(blend_step(blend, frames[i], ops[i], frames[i + 1]));
        }
    }
    assert(frames_ok(blend, o2, f2));
}

/// A call of `blend` on the pixel at `op.0`, written back, is a step.
pub proof fn lemma_blend_step<B: Fn(Pixel, Pixel, u32) -> Pixel>(
    blend: B,
    before: Seq<u8>,
    op: (int, Pixel, u32),
    dst: Pixel,
    out: Pixel,
    after: Seq<u8>,
)
    requires
        0 <= op.0,
        op.0 + 4 <= before.len(),
        blend.ensures((dst, op.1, op.2), out),
        dst@ == before.subrange(op.0, op.0 + 4),
        after == before.subrange(0, op.0) + out@ + before.subrange(op.0 + 4, before.len() as int),
    ensures
        blend_step(blend, before, op, after),
{
}

/// With a `blend` that gives one result for each input, two runs of the
/// same steps from the same start agree frame by frame.
proof fn lemma_frames_agree<B: Fn(Pixel, Pixel, u32) -> Pixel>(
    blend: B,
    ops: Seq<(int, Pixel, u32)>,
    f1: Seq<Seq<u8>>,
    f2: Seq<Seq<u8>>,
    i: int,
)
    requires
        forall|d: Pixel, s: Pixel, o: u32, r1: Pixel, r2: Pixel|
            #[trigger] blend.ensures((d, s, o), r1) && #[trigger] blend.ensures((d, s, o), r2) ==> r1 == r2,
        frames_ok(blend, ops, f1),
        frames_ok(blend, ops, f2),
        f1[0] == f2[0],
        0 <= i <= ops.len(),
    ensures
        f1[i] == f2[i],
    decreases i,
{
    if i > 0 {
        lemma_frames_agree(blend, ops, f1, f2, i - 1);
        let op = ops[i - 1];
        let m = f1[i - 1];
        assert(blend_step(blend, f1[i - 1], op, f1[i]));
        assert(blend_step(blend, f2[i - 1], op, f2[i]));
        let (d1, o1) = choose|dst: Pixel, out: Pixel|
            #[trigger] blend.ensures((dst, op.1, op.2), out) && dst@ == m.subrange(op.0, op.0 + 4) && f1[i]
                == m.subrange(0, op.0) + out@ + m.subrange(op.0 + 4, m.len() as int);
        let (d2, o2) = choose|dst: Pixel, out: Pixel|
            #[trigger] blend.ensures((dst, op.1, op.2), out) && dst@ == m.subrange(op.0, op.0 + 4) && f2[i]
                == m.subrange(0, op.0) + out@ + m.subrange(op.0 + 4, m.len() as int);
        assert(d1@ == d2@);
        assert(d1 =~= d2);
        assert(o1 == o2);
    }
}

/// Where `blend` gives one result for each input, a composition is a
/// function of the steps and the start: it ends in one canvas.
pub proof fn compose_is_determined<B: Fn(Pixel, Pixel, u32) -> Pixel>(
    blend: B,
    ops: Seq<(int, Pixel, u32)>,
    start: Seq<u8>,
    end1: Seq<u8>,
    end2: Seq<u8>,
)
    requires
        forall|d: Pixel, s: Pixel, o: u32, r1: Pixel, r2: Pixel|
            #[trigger] blend.ensures((d, s, o), r1) && #[trigger] blend.ensures((d, s, o), r2) ==> r1 == r2,
        composes(blend, ops, start, end1),
        composes(blend, ops, start, end2),
    ensures
        end1 == end2,
{
    let f1 = choose|frames: Seq<Seq<u8>>| #[trigger] frames_ok(blend, ops, frames) && frames[0] == start && frames.last() == end1;
    let f2 = choose|frames: Seq<Seq<u8>>| #[trigger] frames_ok(blend, ops, frames) && frames[0] == start && frames.last() == end2;
    lemma_frames_agree(blend, ops, f1, f2, ops.len() as int);
}

} // verus!
