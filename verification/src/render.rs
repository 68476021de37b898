//! Compositing the document onto the canvas.
use vstd::prelude::*;
use crate::compose::{
    blank_pixels, blit_addressable, blit_targets, blit_targets_spec, composes, lemma_blend_step,
    lemma_compose_empty, lemma_compose_push, plan_ops, tile_ops, tile_targets,
};
use crate::geometry::TileKey;
use crate::laws::blit_stays_in_canvas;
use crate::model::{Object, Pixel, Render, Tile, TILE_PIXELS};
use crate::slots::slot_id;
use crate::state::{layer_plan, object_plan, objects_plan, plan_view, stack_plan, AppState};

verus! {

/// A tile under `key` with these pixels can be composited: its grid
/// position turns into canvas coordinates without overflow, and it holds a
/// full 64 x 64 pixels.
pub open spec fn tile_ok(key: TileKey, tile: Tile) -> bool {
    &&& blit_addressable(key.0 as int)
    &&& blit_addressable(key.1 as int)
    &&& tile.pixels@.len() >= TILE_PIXELS
}

/// Every tile of an image object can be composited.
pub open spec fn tiles_ok(tiles: Seq<(TileKey, Tile)>) -> bool {
    forall|k: int| #![trigger tiles[k]] 0 <= k < tiles.len() ==> tile_ok(tiles[k].0, tiles[k].1)
}

/// Every tile of a compositing plan can be composited.
pub open spec fn plan_ok(plan: Seq<(TileKey, Tile, u32)>) -> bool {
    forall|k: int| #![trigger plan[k]] 0 <= k < plan.len() ==> tile_ok(plan[k].0, plan[k].1)
}

/// The objects' tiles can all be composited.
pub open spec fn objects_ok(objects: Map<u64, Object>) -> bool {
    forall|o: u64|
        #[trigger] objects.contains_key(o) ==> (objects[o] matches Object::Image { tiles, .. } ==> tiles_ok(tiles@))
}

/// The revision after `r`: one more, wrapping to 0 after `u64::MAX`.
pub open spec fn next_revision(r: u64) -> u64 {
    if r == u64::MAX {
        0
    } else {
        (r + 1) as u64
    }
}

impl AppState {
    /// The canvas can be composited: its buffer size fits in memory, and the
    /// tiles of every image object can be composited.
    pub open spec fn renderable(&self) -> bool {
        &&& self.canvas_width * self.canvas_height * 4 <= usize::MAX
        &&& objects_ok(self.object_map())
    }

    /// The render shows the document: it is the canvas at its current size,
    /// composited with `blend` from a blank canvas by every step of
    /// `document_plan`.
    pub open spec fn shows_document<B: Fn(Pixel, Pixel, u32) -> Pixel>(&self, blend: B) -> bool {
        &&& self.render.width == self.canvas_width
        &&& self.render.height == self.canvas_height
        &&& self.render.pixels@.len() == self.canvas_width * self.canvas_height * 4
        &&& composes(
            blend,
            plan_ops(self.canvas_width, self.canvas_height, self.document_plan()),
            blank_pixels(self.canvas_width, self.canvas_height),
            self.render.pixels@,
        )
    }

    /// The render shows the document, composited with `blend`, and its
    /// revision is the one after `revision`.
    pub open spec fn rendered_from<B: Fn(Pixel, Pixel, u32) -> Pixel>(&self, revision: u64, blend: B) -> bool {
        &&& self.shows_document(blend)
        &&& self.render.revision == next_revision(revision)
    }
}

/// Two plans that can be composited make one.
proof fn lemma_plan_ok_concat(a: Seq<(TileKey, Tile, u32)>, b: Seq<(TileKey, Tile, u32)>)
    requires
        plan_ok(a),
        plan_ok(b),
    ensures
        plan_ok(a + b),
{
    assert forall|k: int| #![trigger (a + b)[k]] 0 <= k < (a + b).len() implies tile_ok((a + b)[k].0, (a + b)[k].1) by {
        if k < a.len() {
            assert((a + b)[k] == a[k]);
        } else {
            assert((a + b)[k] == b[k - a.len()]);
        }
    }
}

/// The plan of objects whose tiles can be composited can be composited.
proof fn lemma_objects_plan_ok(objects: Map<u64, Object>, ids: Seq<u64>)
    requires
        objects_ok(objects),
    ensures
        plan_ok(objects_plan(objects, ids)),
    decreases ids.len(),
{
    if ids.len() > 0 {
        lemma_objects_plan_ok(objects, ids.drop_last());
        let o = ids.last();
        let b = object_plan(objects, o);
        if objects.contains_key(slot_id(o)) {
            match objects[slot_id(o)] {
                Object::Image { tiles, opacity, .. } => {
                    assert forall|k: int| #![trigger b[k]] 0 <= k < b.len() implies tile_ok(b[k].0, b[k].1) by {
                        assert(tiles_ok(tiles@));
                        assert(b[k] == (tiles@[k].0, tiles@[k].1, opacity));
                    }
                },
                Object::Effect { .. } => {},
            }
        }
        lemma_plan_ok_concat(objects_plan(objects, ids.drop_last()), b);
    }
}

/// The plan of a stack of layers whose objects' tiles can be composited
/// can be composited.
proof fn lemma_stack_plan_ok(
    layers: Map<u64, crate::model::Layer>,
    objects: Map<u64, Object>,
    groups: Map<u64, Seq<u64>>,
    order: Seq<u64>,
)
    requires
        objects_ok(objects),
    ensures
        plan_ok(stack_plan(layers, objects, groups, order)),
    decreases order.len(),
{
    if order.len() > 0 {
        lemma_stack_plan_ok(layers, objects, groups, order.drop_last());
        let l = order.last();
        if layers.contains_key(slot_id(l)) && layers[slot_id(l)].visible && groups.contains_key(l) {
            lemma_objects_plan_ok(objects, groups[l]);
        }
        lemma_plan_ok_concat(stack_plan(layers, objects, groups, order.drop_last()), layer_plan(layers, objects, groups, l));
    }
}

impl AppState {
    /// Composites the document onto a blank canvas and stores it as the
    /// render, at the current canvas size, with the next revision.
    ///
    /// `blend(dst, src, opacity)` lays tile pixel `src`, at the opacity
    /// whose `f32` bit pattern is `opacity`, over canvas pixel `dst` and
    /// returns the new canvas pixel. The tiles of `render_plan` are laid in
    /// order, and within a tile its pixels in the order of `blit_targets`.
    pub fn recompute_render<B: Fn(Pixel, Pixel, u32) -> Pixel>(&mut self, blend: &B)
        requires
            old(self).renderable(),
            forall|d: Pixel, s: Pixel, o: u32| #[trigger] blend.requires((d, s, o)),
        ensures
            final(self).rendered_from(old(self).render.revision, *blend),
            final(self).same_document(*old(self)),
            *final(self) == (AppState { render: final(self).render, ..*old(self) }),
    {
        let pixels = self.composite(blend);
        let revision = self.render.revision.wrapping_add(1);
        self.render = Render { width: self.canvas_width, height: self.canvas_height, pixels, revision };
    }

    /// The document composited with `blend` onto a blank canvas.
    fn composite<B: Fn(Pixel, Pixel, u32) -> Pixel>(&self, blend: &B) -> (pixels: Vec<u8>)
        requires
            self.renderable(),
            forall|d: Pixel, s: Pixel, o: u32| #[trigger] blend.requires((d, s, o)),
        ensures
            pixels@.len() == self.canvas_width * self.canvas_height * 4,
            composes(
                *blend,
                plan_ops(self.canvas_width, self.canvas_height, self.document_plan()),
                blank_pixels(self.canvas_width, self.canvas_height),
                pixels@,
            ),
    {
        let cw = self.canvas_width;
        let ch = self.canvas_height;
        let mut pixels = self.blank_canvas();
        let ghost blank = blank_pixels(cw, ch);
        proof {
            assert(pixels@ =~= blank);
            lemma_compose_empty(*blend, blank);
            lemma_stack_plan_ok(self.layer_map(), self.object_map(), self.groups(), self.order());
        }
        let plan = self.render_plan();
        let ghost pv = plan_view(plan@);
        assert(pv.take(0) =~= Seq::<(TileKey, Tile, u32)>::empty());
        let n = plan.len();
        for i in 0..n
            invariant
                n == plan@.len(),
                pv == plan_view(plan@),
                pv == self.document_plan(),
                plan_ok(pv),
                cw == self.canvas_width,
                ch == self.canvas_height,
                cw * ch * 4 <= usize::MAX,
                blank == blank_pixels(cw, ch),
                pixels@.len() == cw * ch * 4,
                forall|d: Pixel, s: Pixel, o: u32| #[trigger] blend.requires((d, s, o)),
                composes(*blend, plan_ops(cw, ch, pv.take(i as int)), blank, pixels@),
        {
            let b = &plan[i];
            assert(pv[i as int] == (b.key, *b.tile, b.opacity));
            assert(tile_ok(pv[i as int].0, pv[i as int].1));
            let targets = blit_targets(cw, ch, b.key.0, b.key.1);
            proof {
                blit_stays_in_canvas(cw, ch, b.key.0 as int, b.key.1 as int, targets@);
            }
            let ghost tops = tile_ops(cw, ch, pv[i as int]);
            let ghost prefix = plan_ops(cw, ch, pv.take(i as int));
            assert(prefix + tops.take(0) =~= prefix);
            let m = targets.len();
            for j in 0..m
                invariant
                    m == targets@.len(),
                    targets@ == tile_targets(cw, ch, b.key.0 as int, b.key.1 as int),
                    blit_targets_spec(cw, ch, b.key.0 as int, b.key.1 as int, targets@),
                    forall|k: int| 0 <= k < targets@.len() ==> #[trigger] targets@[k].0 + 4 <= cw * ch * 4,
                    pv[i as int] == (b.key, *b.tile, b.opacity),
                    tops == tile_ops(cw, ch, pv[i as int]),
                    b.tile.pixels@.len() >= TILE_PIXELS,
                    pixels@.len() == cw * ch * 4,
                    forall|d: Pixel, s: Pixel, o: u32| #[trigger] blend.requires((d, s, o)),
                    composes(*blend, prefix + tops.take(j as int), blank, pixels@),
            {
                let (di, si) = targets[j];
                assert(targets@[j as int].0 + 4 <= cw * ch * 4);
                assert(targets@[j as int].1 < 4096);
                let dst: Pixel = [pixels[di], pixels[di + 1], pixels[di + 2], pixels[di + 3]];
                let src = b.tile.pixels[si];
                let out = blend(dst, src, b.opacity);
                let ghost before = pixels@;
                pixels.set(di, out[0]);
                pixels.set(di + 1, out[1]);
                pixels.set(di + 2, out[2]);
                pixels.set(di + 3, out[3]);
                proof {
                    let op = tops[j as int];
                    assert(op == (di as int, src, b.opacity));
                    assert(dst@ =~= before.subrange(di as int, di + 4));
                    assert(pixels@ =~= before.subrange(0, di as int) + out@ + before.subrange(di + 4, before.len() as int));
                    lemma_blend_step(*blend, before, op, dst, out, pixels@);
                    lemma_compose_push(*blend, prefix + tops.take(j as int), op, blank, before, pixels@);
                    assert((prefix + tops.take(j as int)).push(op) =~= prefix + tops.take(j + 1));
                }
            }
            proof {
                assert(tops.take(m as int) =~= tops);
                assert(pv.take(i + 1).drop_last() =~= pv.take(i as int));
                assert(pv.take(i + 1).last() == pv[i as int]);
                assert(plan_ops(cw, ch, pv.take(i + 1)) == prefix + tops);
            }
        }
        assert(pv.take(n as int) =~= pv);
        pixels
    }
}

} // verus!
