//! The editor's document state and the commands that change it.
use vstd::prelude::*;
use std::collections::HashMap;
use crate::compose::blank_pixels;
use crate::decode::{decode_image, decoded_rgba};
use crate::geometry::{TileKey, DEFAULT_CANVAS_HEIGHT, DEFAULT_CANVAS_WIDTH};
use crate::model::{
    entries_insert, keys_distinct, BlendMode, clamp_unit, clamp_unit_bits, History, Layer, Object, Pixel, RawImage, Render, Selection, Tile,
    TileMap, Viewport, ONE_BITS, TILE_PIXELS, ZERO_BITS,
};
use crate::naming::{layer_label, layer_name};
use crate::slots::{
    image_entries, layer_entries, lemma_layer_id_eq, object_entries, slot_capacity, slot_id,
    ImageId, ImageSlots, LayerId, LayerSlots, ObjectId, ObjectSlots,
};
use crate::laws::{apply_keeps_consistent, apply_keeps_render_current, apply_keeps_renderable, apply_keeps_tiles_keyed};
use crate::render::tile_ok;
use crate::tiling::{is_tiling, tile_raw_image, tiling_fits};

verus! {

broadcast use vstd::std_specs::hash::group_hash_axioms;

/// The whole editor state.
///
/// `layer_objects` maps the handle of a layer (`LayerId::handle`) to the
/// objects it holds, bottom first. `next_layer_n` is the number the next new
/// layer is named after.
pub struct AppState {
    pub layers: LayerSlots,
    pub objects: ObjectSlots,
    pub images: ImageSlots,
    pub layer_order: Vec<LayerId>,
    pub layer_objects: HashMap<u64, Vec<ObjectId>>,
    pub selection: Selection,
    pub history: History,
    pub viewport: Viewport,
    pub canvas_width: u32,
    pub canvas_height: u32,
    pub render: Render,
    pub next_layer_n: u32,
}

/// Handles of a sequence of layer ids.
pub open spec fn layer_handles(ids: Seq<LayerId>) -> Seq<u64> {
    ids.map_values(|id: LayerId| id@)
}

/// Handles of a sequence of object ids.
pub open spec fn object_handles(ids: Seq<ObjectId>) -> Seq<u64> {
    ids.map_values(|id: ObjectId| id@)
}

impl AppState {
    /// The layers, by handle.
    pub open spec fn layer_map(&self) -> Map<u64, Layer> {
        layer_entries(self.layers)
    }

    /// The objects, by handle.
    pub open spec fn object_map(&self) -> Map<u64, Object> {
        object_entries(self.objects)
    }

    /// The decoded images, by handle.
    pub open spec fn image_map(&self) -> Map<u64, RawImage> {
        image_entries(self.images)
    }

    /// Handles of the layers in stacking order, bottom first.
    pub open spec fn order(&self) -> Seq<u64> {
        layer_handles(self.layer_order@)
    }

    /// For each layer handle, the handles of the layer's objects, bottom first.
    pub open spec fn groups(&self) -> Map<u64, Seq<u64>> {
        self.layer_objects@.map_values(|objs: Vec<ObjectId>| object_handles(objs@))
    }

    /// A canvas of the current size with every byte zero (transparent black).
    pub fn blank_canvas(&self) -> (pixels: Vec<u8>)
        requires
            self.canvas_width * self.canvas_height * 4 <= usize::MAX,
        ensures
            pixels@.len() == self.canvas_width * self.canvas_height * 4,
            forall|i: int| 0 <= i < pixels@.len() ==> pixels@[i] == 0,
    {
        let w = self.canvas_width as usize;
        let h = self.canvas_height as usize;
        proof {
            assert(w * h <= w * h * 4) by (nonlinear_arith)
                requires
                    0 <= w,
                    0 <= h,
            ;
        }
        vec![0u8; w * h * 4]
    }

    /// Everything but the render is as in `other`.
    pub open spec fn same_document(&self, other: AppState) -> bool {
        &&& self.layer_map() == other.layer_map()
        &&& self.object_map() == other.object_map()
        &&& self.image_map() == other.image_map()
        &&& self.layer_order == other.layer_order
        &&& self.layer_objects == other.layer_objects
        &&& self.selection == other.selection
        &&& self.history == other.history
        &&& self.viewport == other.viewport
        &&& self.canvas_width == other.canvas_width
        &&& self.canvas_height == other.canvas_height
        &&& self.next_layer_n == other.next_layer_n
    }
}

impl Default for AppState {
    /// An empty document: no layers, a blank canvas of the default size,
    /// already rendered once.
    fn default() -> (s: AppState)
        ensures
            s.layer_map().dom() == Set::<u64>::empty(),
            s.object_map().dom() == Set::<u64>::empty(),
            s.image_map().dom() == Set::<u64>::empty(),
            s.layer_order@ == Seq::<LayerId>::empty(),
            s.layer_objects@.dom() == Set::<u64>::empty(),
            s.selection.active_layer is None,
            s.selection.active_object is None,
            s.history.past@.len() == 0,
            s.history.future@.len() == 0,
            s.viewport.offset == (ZERO_BITS, ZERO_BITS),
            s.viewport.zoom == ONE_BITS,
            s.canvas_width == DEFAULT_CANVAS_WIDTH,
            s.canvas_height == DEFAULT_CANVAS_HEIGHT,
            s.next_layer_n == 1,
            s.render.width == DEFAULT_CANVAS_WIDTH,
            s.render.height == DEFAULT_CANVAS_HEIGHT,
            s.render.pixels@.len() == DEFAULT_CANVAS_WIDTH * DEFAULT_CANVAS_HEIGHT * 4,
            forall|i: int| 0 <= i < s.render.pixels@.len() ==> s.render.pixels@[i] == 0,
            s.render.pixels@ == blank_pixels(DEFAULT_CANVAS_WIDTH, DEFAULT_CANVAS_HEIGHT),
            s.render.revision == 1,
            s.consistent(),
            s.tiles_keyed(),
    {
        let mut s = AppState {
            layers: LayerSlots::new(),
            objects: ObjectSlots::new(),
            images: ImageSlots::new(),
            layer_order: Vec::new(),
            layer_objects: HashMap::new(),
            selection: Selection::default(),
            history: History::default(),
            viewport: Viewport::default(),
            canvas_width: DEFAULT_CANVAS_WIDTH,
            canvas_height: DEFAULT_CANVAS_HEIGHT,
            render: Render::default(),
            next_layer_n: 1,
        };
        // With no layers there is nothing to composite: the render is the
        // blank canvas, as first rendered.
        let pixels = s.blank_canvas();
        let ghost px = pixels@;
        s.render = Render { width: DEFAULT_CANVAS_WIDTH, height: DEFAULT_CANVAS_HEIGHT, pixels, revision: 1 };
        assert(px =~= blank_pixels(DEFAULT_CANVAS_WIDTH, DEFAULT_CANVAS_HEIGHT));
        assert(s.groups().dom() =~= s.layer_map().dom());
        assert(s.order() =~= Seq::<u64>::empty());
        s
    }
}

/// One tile to composite: where it goes, its pixels, and the opacity (bit
/// pattern of an `f32`) of the object it belongs to.
pub struct TileBlit<'a> {
    pub key: TileKey,
    pub tile: &'a Tile,
    pub opacity: u32,
}

/// The tiles that object `o` contributes to the canvas, in storage order:
/// those of an image object, none for an effect or a missing object.
pub open spec fn object_plan(objects: Map<u64, Object>, o: u64) -> Seq<(TileKey, Tile, u32)> {
    if objects.contains_key(slot_id(o)) {
        match objects[slot_id(o)] {
            Object::Image { tiles, opacity, .. } => tiles@.map_values(
                |e: (TileKey, Tile)| (e.0, e.1, opacity),
            ),
            Object::Effect { .. } => Seq::empty(),
        }
    } else {
        Seq::empty()
    }
}

/// The tiles that the objects `ids` contribute, bottom object first.
pub open spec fn objects_plan(objects: Map<u64, Object>, ids: Seq<u64>) -> Seq<(TileKey, Tile, u32)>
    decreases ids.len(),
{
    if ids.len() == 0 {
        Seq::empty()
    } else {
        objects_plan(objects, ids.drop_last()) + object_plan(objects, ids.last())
    }
}

/// The tiles that layer `l` contributes: those of its objects if it exists,
/// is visible and has an object list; none otherwise.
pub open spec fn layer_plan(
    layers: Map<u64, Layer>,
    objects: Map<u64, Object>,
    groups: Map<u64, Seq<u64>>,
    l: u64,
) -> Seq<(TileKey, Tile, u32)> {
    if layers.contains_key(slot_id(l)) && layers[slot_id(l)].visible && groups.contains_key(l) {
        objects_plan(objects, groups[l])
    } else {
        Seq::empty()
    }
}

/// The tiles that the layers `order` contribute, bottom layer first.
pub open spec fn stack_plan(
    layers: Map<u64, Layer>,
    objects: Map<u64, Object>,
    groups: Map<u64, Seq<u64>>,
    order: Seq<u64>,
) -> Seq<(TileKey, Tile, u32)>
    decreases order.len(),
{
    if order.len() == 0 {
        Seq::empty()
    } else {
        stack_plan(layers, objects, groups, order.drop_last()) + layer_plan(
            layers,
            objects,
            groups,
            order.last(),
        )
    }
}

/// What a compositing plan says, tile by tile.
pub open spec fn plan_view(plan: Seq<TileBlit>) -> Seq<(TileKey, Tile, u32)> {
    plan.map_values(|b: TileBlit| (b.key, *b.tile, b.opacity))
}

impl AppState {
    /// Every tile to composite onto a blank canvas, in compositing order:
    /// layers bottom to top, skipping hidden ones; within a layer, objects
    /// bottom to top; within an image object, its tiles in storage order.
    pub open spec fn document_plan(&self) -> Seq<(TileKey, Tile, u32)> {
        stack_plan(self.layer_map(), self.object_map(), self.groups(), self.order())
    }

    /// The tiles to composite, in order. `recompute_render` lays them onto
    /// `blank_canvas()` one after another, each tile's pixels where
    /// `blit_targets` puts them.
    pub fn render_plan(&self) -> (plan: Vec<TileBlit<'_>>)
        ensures
            plan_view(plan@) == self.document_plan(),
    {
        let mut plan: Vec<TileBlit> = Vec::new();
        let n = self.layer_order.len();
        for i in 0..n
            invariant
                n == self.layer_order@.len(),
                plan_view(plan@) == stack_plan(
                    self.layer_map(),
                    self.object_map(),
                    self.groups(),
                    self.order().take(i as int),
                ),
        {
            let ghost before = plan_view(plan@);
            let h = self.layer_order[i].handle();
            assert(self.order().take(i + 1).drop_last() =~= self.order().take(i as int));
            assert(self.order().take(i + 1).last() == h);
            match self.layers.get(h) {
                None => {},
                Some(layer) => {
                    if layer.visible {
                        match self.layer_objects.get(&h) {
                            None => {},
                            Some(objs) => {
                                self.plan_objects(objs, &mut plan);
                            },
                        }
                    }
                },
            }
            assert(plan_view(plan@) =~= before + layer_plan(
                self.layer_map(),
                self.object_map(),
                self.groups(),
                h,
            ));
        }
        assert(self.order().take(n as int) =~= self.order());
        plan
    }

    /// Appends to `plan` the tiles of the objects `objs`.
    fn plan_objects<'a>(&'a self, objs: &Vec<ObjectId>, plan: &mut Vec<TileBlit<'a>>)
        ensures
            plan_view(final(plan)@) == plan_view(old(plan)@) + objects_plan(
                self.object_map(),
                object_handles(objs@),
            ),
    {
        let m = objs.len();
        let ghost start = plan_view(plan@);
        for j in 0..m
            invariant
                m == objs@.len(),
                plan_view(plan@) == start + objects_plan(
                    self.object_map(),
                    object_handles(objs@).take(j as int),
                ),
        {
            let ghost before = plan_view(plan@);
            let oh = objs[j].handle();
            assert(object_handles(objs@).take(j + 1).drop_last() =~= object_handles(objs@).take(j as int));
            assert(object_handles(objs@).take(j + 1).last() == oh);
            match self.objects.get(oh) {
                Some(Object::Image { tiles, opacity, .. }) => {
                    let t = tiles.len();
                    for k in 0..t
                        invariant
                            t == tiles@.len(),
                            plan_view(plan@) == before + tiles@.take(k as int).map_values(
                                |e: (TileKey, Tile)| (e.0, e.1, *opacity),
                            ),
                    {
                        let e = tiles.entry(k);
                        let ghost prev = plan@;
                        plan.push(TileBlit { key: e.0, tile: e.1, opacity: *opacity });
                        assert(plan_view(plan@) =~= plan_view(prev).push((e.0, *e.1, *opacity)));
                        assert(tiles@.take(k + 1) =~= tiles@.take(k as int).push(tiles@[k as int]));
                        assert(tiles@.take(k + 1).map_values(|e: (TileKey, Tile)| (e.0, e.1, *opacity))
                            =~= tiles@.take(k as int).map_values(|e: (TileKey, Tile)| (e.0, e.1, *opacity)).push((e.0, *e.1, *opacity)));
                        assert(plan_view(plan@) =~= before + tiles@.take(k + 1).map_values(
                            |e: (TileKey, Tile)| (e.0, e.1, *opacity),
                        ));
                    }
                    assert(tiles@.take(t as int) =~= tiles@);
                },
                _ => {},
            }
            assert(plan_view(plan@) =~= start + objects_plan(
                self.object_map(),
                object_handles(objs@).take(j + 1),
            ));
        }
        assert(object_handles(objs@).take(m as int) =~= object_handles(objs@));
    }
}

/// A command from the user interface.
///
/// `SetOpacity` carries the bit pattern of an `f32`, any value; the object
/// gets it limited to `[0, 1]` (see `clamp_unit`).
#[derive(Debug)]
pub enum UiCmd {
    AddLayer,
    RemoveLayer { id: LayerId },
    RenameLayer { id: LayerId, name: String },
    MoveLayer { id: LayerId, new_index: usize },
    SelectLayer { id: LayerId },
    AddImageObject { layer: LayerId },
    PaintTile { object_id: ObjectId, key: TileKey, pixels: Vec<Pixel> },
    SetOpacity { object_id: ObjectId, value: u32 },
    ResizeCanvas { width: u32, height: u32 },
    ImportImage { layer: LayerId, bytes: Vec<u8> },
    /// Handled by the host, which asks the user for a file and sends its
    /// bytes back as `ImportImage`; `apply` ignores it.
    PromptImport { layer: LayerId },
    Undo,
    Redo,
}

/// `s` with every occurrence of `x` taken out.
pub open spec fn without(s: Seq<u64>, x: u64) -> Seq<u64>
    decreases s.len(),
{
    if s.len() == 0 {
        s
    } else if s.last() == x {
        without(s.drop_last(), x)
    } else {
        without(s.drop_last(), x).push(s.last())
    }
}

/// `m` with the objects of the handles `ids` taken out, one after another.
pub open spec fn without_objects(m: Map<u64, Object>, ids: Seq<u64>) -> Map<u64, Object>
    decreases ids.len(),
{
    if ids.len() == 0 {
        m
    } else {
        without_objects(m, ids.drop_last()).remove(slot_id(ids.last()))
    }
}

/// Position of the first occurrence of `x` in `s` (meaningful when `s`
/// contains `x`).
pub open spec fn position_of(s: Seq<u64>, x: u64) -> int {
    choose|i: int| 0 <= i < s.len() && s[i] == x && forall|j: int| 0 <= j < i ==> s[j] != x
}

/// The top layer of a stack, if any.
pub open spec fn top_layer(order: Seq<LayerId>) -> Option<LayerId> {
    if order.len() == 0 {
        None
    } else {
        Some(order.last())
    }
}

/// The object list of layer `l`, empty where it has none.
pub open spec fn objects_of(groups: Map<u64, Seq<u64>>, l: u64) -> Seq<u64> {
    if groups.contains_key(l) {
        groups[l]
    } else {
        Seq::empty()
    }
}

/// `o` is an image object as a new one is made: from image `source`, at the
/// canvas origin, blending normally, fully opaque.
pub open spec fn new_image(o: Object, source: Option<ImageId>) -> bool {
    &&& o matches Object::Image { source: s, origin, blend, opacity, .. }
    &&& s == source
    &&& origin == (0i32, 0i32)
    &&& blend == BlendMode::Normal
    &&& opacity == ONE_BITS
}

/// `after` is the image object `before` with `tile` stored under `key`.
pub open spec fn retiled(before: Object, after: Object, key: TileKey, tile: Tile) -> bool {
    match (before, after) {
        (
            Object::Image { source: s1, origin: o1, tiles: t1, blend: b1, opacity: p1 },
            Object::Image { source: s2, origin: o2, tiles: t2, blend: b2, opacity: p2 },
        ) => s1 == s2 && o1 == o2 && b1 == b2 && p1 == p2 && t2@ == entries_insert(t1@, key, tile),
        _ => false,
    }
}

/// `after` is the image object `before` with opacity `value` limited to
/// `[0, 1]`.
pub open spec fn reopaqued(before: Object, after: Object, value: u32) -> bool {
    match (before, after) {
        (
            Object::Image { source: s1, origin: o1, tiles: t1, blend: b1, opacity: _ },
            Object::Image { source: s2, origin: o2, tiles: t2, blend: b2, opacity: p2 },
        ) => s1 == s2 && o1 == o2 && b1 == b2 && t1 == t2 && p2 == clamp_unit_bits(value),
        _ => false,
    }
}

/// Parts of the state that no command changes (the render aside, which
/// some commands composite again).
pub open spec fn keeps_rest(pre: AppState, post: AppState) -> bool {
    &&& post.history == pre.history
    &&& post.viewport == pre.viewport
    &&& post.selection.active_object == pre.selection.active_object
}

/// The layer stack and the layers are as they were.
pub open spec fn same_layers(pre: AppState, post: AppState) -> bool {
    &&& post.layer_map() == pre.layer_map()
    &&& post.layer_order == pre.layer_order
}

/// The objects, the object lists and the images are as they were.
pub open spec fn same_objects(pre: AppState, post: AppState) -> bool {
    &&& post.object_map() == pre.object_map()
    &&& post.groups() == pre.groups()
    &&& post.image_map() == pre.image_map()
}

/// Canvas size, layer counter and selected layer are as they were.
pub open spec fn same_settings(pre: AppState, post: AppState) -> bool {
    &&& post.canvas_width == pre.canvas_width
    &&& post.canvas_height == pre.canvas_height
    &&& post.next_layer_n == pre.next_layer_n
    &&& post.selection.active_layer == pre.selection.active_layer
}

/// Nothing changed.
pub open spec fn unchanged(pre: AppState, post: AppState) -> bool {
    same_layers(pre, post) && same_objects(pre, post) && same_settings(pre, post) && keeps_rest(pre, post)
}

/// `AddLayer`: a new visible, unlocked layer named `Layer n` (`n` the
/// counter, which moves on) on top of the stack, with an empty object list,
/// and selected.
pub open spec fn added_layer(pre: AppState, post: AppState) -> bool {
    let k = post.order().last();
    &&& post.order().len() == pre.order().len() + 1
    &&& post.order() == pre.order().push(k)
    &&& !pre.layer_map().contains_key(k)
    &&& slot_id(k) == k
    &&& post.layer_map() == pre.layer_map().insert(k, post.layer_map()[k])
    &&& post.layer_map()[k].name@ == layer_label(pre.next_layer_n as nat)
    &&& post.layer_map()[k].visible
    &&& !post.layer_map()[k].locked
    &&& post.object_map() == pre.object_map()
    &&& post.image_map() == pre.image_map()
    &&& post.groups() == pre.groups().insert(k, Seq::empty())
    &&& post.selection.active_layer == Some(post.layer_order@.last())
    &&& post.canvas_width == pre.canvas_width
    &&& post.canvas_height == pre.canvas_height
    &&& post.next_layer_n == pre.next_layer_n + 1
    &&& keeps_rest(pre, post)
}

/// `RemoveLayer`: the layer leaves the map and the stack, its object list
/// and the objects on it are dropped; if it was selected, the top layer
/// left (if any) becomes selected.
pub open spec fn removed_layer(pre: AppState, id: LayerId, post: AppState) -> bool {
    &&& post.layer_map() == pre.layer_map().remove(id@)
    &&& post.order() == without(pre.order(), id@)
    &&& post.groups() == pre.groups().remove(id@)
    &&& post.object_map() == without_objects(pre.object_map(), objects_of(pre.groups(), id@))
    &&& post.image_map() == pre.image_map()
    &&& post.selection.active_layer == (if pre.selection.active_layer == Some(id) {
        top_layer(post.layer_order@)
    } else {
        pre.selection.active_layer
    })
    &&& post.canvas_width == pre.canvas_width
    &&& post.canvas_height == pre.canvas_height
    &&& post.next_layer_n == pre.next_layer_n
    &&& keeps_rest(pre, post)
}

/// `RenameLayer`: the layer, if it exists, gets the new name.
pub open spec fn renamed_layer(pre: AppState, id: LayerId, name: String, post: AppState) -> bool {
    &&& if pre.layer_map().contains_key(id@) {
        &&& post.layer_map() == pre.layer_map().insert(id@, post.layer_map()[id@])
        &&& post.layer_map()[id@].name == name
        &&& post.layer_map()[id@].visible == pre.layer_map()[id@].visible
        &&& post.layer_map()[id@].locked == pre.layer_map()[id@].locked
    } else {
        post.layer_map() == pre.layer_map()
    }
    &&& post.layer_order == pre.layer_order
    &&& same_objects(pre, post)
    &&& same_settings(pre, post)
    &&& keeps_rest(pre, post)
}

/// `MoveLayer`: a layer in the stack is taken out and put back at
/// `new_index`, or on top if the index is past the end.
pub open spec fn moved_layer(pre: AppState, id: LayerId, new_index: usize, post: AppState) -> bool {
    let len = pre.order().len();
    let cur = position_of(pre.order(), id@);
    let to = if new_index < len - 1 { new_index as int } else { len - 1 };
    &&& if pre.order().contains(id@) {
        post.order() == pre.order().remove(cur).insert(to, id@)
    } else {
        post.layer_order == pre.layer_order
    }
    &&& post.layer_map() == pre.layer_map()
    &&& same_objects(pre, post)
    &&& same_settings(pre, post)
    &&& keeps_rest(pre, post)
}

/// `SelectLayer`: an existing layer becomes selected.
pub open spec fn selected_layer(pre: AppState, id: LayerId, post: AppState) -> bool {
    &&& post.selection.active_layer == (if pre.layer_map().contains_key(id@) {
        Some(id)
    } else {
        pre.selection.active_layer
    })
    &&& same_layers(pre, post)
    &&& same_objects(pre, post)
    &&& post.canvas_width == pre.canvas_width
    &&& post.canvas_height == pre.canvas_height
    &&& post.next_layer_n == pre.next_layer_n
    &&& keeps_rest(pre, post)
}

/// A new object, under a handle no object had, is put on top of the object
/// list of `layer` (a list is made if the layer had none).
pub open spec fn object_added(pre: AppState, layer: LayerId, post: AppState) -> bool {
    let objs = post.groups()[layer@];
    let k = objs.last();
    &&& post.groups().contains_key(layer@)
    &&& objs.len() > 0
    &&& objs == objects_of(pre.groups(), layer@).push(k)
    &&& post.groups() == pre.groups().insert(layer@, objs)
    &&& slot_id(k) == k
    &&& !pre.object_map().contains_key(k)
    &&& post.object_map() == pre.object_map().insert(k, post.object_map()[k])
}

/// The object added last to the list of `layer`.
pub open spec fn newest_object(post: AppState, layer: LayerId) -> Object {
    post.object_map()[post.groups()[layer@].last()]
}

/// `AddImageObject`: an existing layer gets a new empty image object.
pub open spec fn added_object(pre: AppState, layer: LayerId, post: AppState) -> bool {
    &&& if pre.layer_map().contains_key(layer@) {
        &&& object_added(pre, layer, post)
        &&& new_image(newest_object(post, layer), None)
        &&& newest_object(post, layer) matches Object::Image { tiles, .. } && tiles@.len() == 0
    } else {
        post.object_map() == pre.object_map() && post.groups() == pre.groups()
    }
    &&& post.image_map() == pre.image_map()
    &&& same_layers(pre, post)
    &&& same_settings(pre, post)
    &&& keeps_rest(pre, post)
}

/// The image object `object_id` changed into `after` by `change`; the
/// rest is as it was.
pub open spec fn object_changed(pre: AppState, object_id: ObjectId, post: AppState) -> bool {
    &&& post.object_map() == pre.object_map().insert(object_id@, post.object_map()[object_id@])
    &&& post.groups() == pre.groups()
    &&& post.image_map() == pre.image_map()
    &&& same_layers(pre, post)
    &&& same_settings(pre, post)
    &&& keeps_rest(pre, post)
}

/// Object `object_id` exists and is an image object.
pub open spec fn is_image_object(s: AppState, object_id: ObjectId) -> bool {
    s.object_map().contains_key(object_id@) && s.object_map()[object_id@] is Image
}

/// `PaintTile`: an image object gets the tile stored under `key`.
pub open spec fn painted(pre: AppState, object_id: ObjectId, key: TileKey, pixels: Vec<Pixel>, post: AppState) -> bool {
    if is_image_object(pre, object_id) {
        &&& object_changed(pre, object_id, post)
        &&& retiled(pre.object_map()[object_id@], post.object_map()[object_id@], key, Tile { pixels })
    } else {
        unchanged(pre, post)
    }
}

/// `SetOpacity`: an image object gets the opacity.
pub open spec fn opacity_set(pre: AppState, object_id: ObjectId, value: u32, post: AppState) -> bool {
    if is_image_object(pre, object_id) {
        &&& object_changed(pre, object_id, post)
        &&& reopaqued(pre.object_map()[object_id@], post.object_map()[object_id@], value)
    } else {
        unchanged(pre, post)
    }
}

/// `ResizeCanvas`: the canvas takes the size, each side at least 1.
pub open spec fn resized(pre: AppState, width: u32, height: u32, post: AppState) -> bool {
    &&& post.canvas_width == canvas_side(width)
    &&& post.canvas_height == canvas_side(height)
    &&& same_layers(pre, post)
    &&& same_objects(pre, post)
    &&& post.next_layer_n == pre.next_layer_n
    &&& post.selection.active_layer == pre.selection.active_layer
    &&& keeps_rest(pre, post)
}

/// An image of `width` x `height` with `pixels` became a new image under a
/// handle no image had, and a new image object made from it, cut into
/// tiles at the canvas origin, went on top of the object list of `layer`.
pub open spec fn imported_raw(pre: AppState, layer: LayerId, width: u32, height: u32, pixels: Seq<u8>, post: AppState) -> bool {
    &&& object_added(pre, layer, post)
    &&& newest_object(post, layer) matches Object::Image { source: Some(img), tiles, .. } && {
        &&& !pre.image_map().contains_key(img@)
        &&& post.image_map() == pre.image_map().insert(img@, post.image_map()[img@])
        &&& post.image_map()[img@].width == width
        &&& post.image_map()[img@].height == height
        &&& post.image_map()[img@].pixels@ == pixels
        &&& tiling_fits(&post.image_map()[img@], (0i32, 0i32))
        &&& is_tiling(&post.image_map()[img@], (0i32, 0i32), tiles@)
        &&& new_image(newest_object(post, layer), Some(img))
    }
    &&& same_layers(pre, post)
    &&& same_settings(pre, post)
    &&& keeps_rest(pre, post)
}

/// `ImportImage`: for an existing layer, if the bytes decode, the decoded
/// image is imported onto it.
pub open spec fn imported(pre: AppState, layer: LayerId, bytes: Seq<u8>, post: AppState) -> bool {
    if pre.layer_map().contains_key(layer@) && decoded_rgba(bytes) is Some {
        let d = decoded_rgba(bytes).unwrap();
        imported_raw(pre, layer, d.0, d.1, d.2, post)
    } else {
        unchanged(pre, post)
    }
}

/// What `apply` does with `cmd` to the document.
pub open spec fn applied(pre: AppState, cmd: UiCmd, post: AppState) -> bool {
    match cmd {
        UiCmd::AddLayer => added_layer(pre, post),
        UiCmd::RemoveLayer { id } => removed_layer(pre, id, post),
        UiCmd::RenameLayer { id, name } => renamed_layer(pre, id, name, post),
        UiCmd::MoveLayer { id, new_index } => moved_layer(pre, id, new_index, post),
        UiCmd::SelectLayer { id } => selected_layer(pre, id, post),
        UiCmd::AddImageObject { layer } => added_object(pre, layer, post),
        UiCmd::PaintTile { object_id, key, pixels } => painted(pre, object_id, key, pixels, post),
        UiCmd::SetOpacity { object_id, value } => opacity_set(pre, object_id, value, post),
        UiCmd::ResizeCanvas { width, height } => resized(pre, width, height, post),
        UiCmd::ImportImage { layer, bytes } => imported(pre, layer, bytes@, post),
        UiCmd::PromptImport { .. } => unchanged(pre, post),
        UiCmd::Undo => unchanged(pre, post),
        UiCmd::Redo => unchanged(pre, post),
    }
}

/// Whether `apply` composites the canvas again after `cmd`: after removing
/// a layer, moving a layer that is in the stack, painting or setting the
/// opacity of an image object, resizing the canvas, and importing an image
/// that decodes onto an existing layer.
pub open spec fn renders(pre: AppState, cmd: UiCmd) -> bool {
    match cmd {
        UiCmd::RemoveLayer { .. } => true,
        UiCmd::MoveLayer { id, .. } => pre.order().contains(id@),
        UiCmd::PaintTile { object_id, .. } => is_image_object(pre, object_id),
        UiCmd::SetOpacity { object_id, .. } => is_image_object(pre, object_id),
        UiCmd::ResizeCanvas { .. } => true,
        UiCmd::ImportImage { layer, bytes } => pre.layer_map().contains_key(layer@) && decoded_rgba(bytes@) is Some,
        _ => false,
    }
}

/// Side of a canvas as `ResizeCanvas` sets it: at least 1.
pub open spec fn canvas_side(v: u32) -> u32 {
    if v < 1 {
        1
    } else {
        v
    }
}

impl AppState {
    /// `cmd` can be applied without a panic: there is room for what it adds,
    /// the layer counter can move on, a painted tile can be composited, and
    /// a resized canvas fits in memory.
    pub open spec fn applicable(&self, cmd: UiCmd) -> bool {
        match cmd {
            UiCmd::PaintTile { object_id, key, pixels } => is_image_object(*self, object_id) ==> tile_ok(
                key,
                Tile { pixels },
            ),
            UiCmd::ResizeCanvas { width, height } => canvas_side(width) * canvas_side(height) * 4 <= usize::MAX,
            UiCmd::AddLayer => self.next_layer_n < u32::MAX && self.layer_map().len() < slot_capacity(),
            UiCmd::AddImageObject { layer } => self.layer_map().contains_key(layer@) ==> self.object_map().len() < slot_capacity(),
            UiCmd::ImportImage { layer, .. } => self.layer_map().contains_key(layer@) ==> {
                &&& self.object_map().len() < slot_capacity()
                &&& self.image_map().len() < slot_capacity()
            },
            _ => true,
        }
    }
}

/// Takes the objects `objs` out of `objects`, one after another.
fn remove_objects(objects: &mut ObjectSlots, objs: &Vec<ObjectId>)
    ensures
        object_entries(*final(objects)) == without_objects(object_entries(*old(objects)), object_handles(objs@)),
{
    let m = objs.len();
    let ghost start = object_entries(*objects);
    for j in 0..m
        invariant
            m == objs@.len(),
            object_entries(*objects) == without_objects(start, object_handles(objs@).take(j as int)),
    {
        let oh = objs[j].handle();
        let _ = objects.remove(oh);
        assert(object_handles(objs@).take(j + 1).drop_last() =~= object_handles(objs@).take(j as int));
    }
    assert(object_handles(objs@).take(m as int) =~= object_handles(objs@));
}

/// Position of the first layer in `order` whose handle is `h`.
fn position(order: &Vec<LayerId>, h: u64) -> (r: Option<usize>)
    ensures
        match r {
            Some(i) => i < order@.len() && layer_handles(order@)[i as int] == h && position_of(layer_handles(order@), h) == i
                && layer_handles(order@).contains(h),
            None => !layer_handles(order@).contains(h),
        },
{
    let n = order.len();
    let ghost hs = layer_handles(order@);
    let mut i: usize = 0;
    while i < n
        invariant
            n == order@.len(),
            hs == layer_handles(order@),
            i <= n,
            forall|j: int| 0 <= j < i ==> hs[j] != h,
        decreases n - i,
    {
        if order[i].handle() == h {
            proof {
                lemma_position_of(hs, h, i as int);
            }
            return Some(i);
        }
        i = i + 1;
    }
    None
}

/// Moving a layer in the stack moves its handle the same way.
proof fn lemma_handles_move(v: Seq<LayerId>, cur: int, idx: int)
    requires
        0 <= cur < v.len(),
        0 <= idx < v.len(),
    ensures
        layer_handles(v.remove(cur).insert(idx, v[cur])) == layer_handles(v).remove(cur).insert(idx, v[cur]@),
{
    assert(layer_handles(v.remove(cur)) =~= layer_handles(v).remove(cur));
    assert(layer_handles(v.remove(cur).insert(idx, v[cur])) =~= layer_handles(v.remove(cur)).insert(idx, v[cur]@));
}

/// The position found by a scan from the front is `position_of`.
proof fn lemma_position_of(s: Seq<u64>, x: u64, i: int)
    requires
        0 <= i < s.len(),
        s[i] == x,
        forall|j: int| 0 <= j < i ==> s[j] != x,
    ensures
        position_of(s, x) == i,
        s.contains(x),
{
    let p = position_of(s, x);
    assert(0 <= p < s.len() && s[p] == x && forall|j: int| 0 <= j < p ==> s[j] != x);
    if p < i {
        assert(s[p] != x);
    } else if i < p {
        assert(s[i] != x);
    }
}

impl AppState {
    fn add_layer(&mut self)
        requires
            old(self).next_layer_n < u32::MAX,
            old(self).layer_map().len() < slot_capacity(),
        ensures
            final(self).render == old(self).render,
            added_layer(*old(self), *final(self)),
    {
        let n = self.next_layer_n;
        self.next_layer_n = n + 1;
        let h = self.layers.insert(Layer { name: layer_name(n), visible: true, locked: false });
        let id = LayerId::from_handle(h);
        self.layer_order.push(id);
        let empty: Vec<ObjectId> = Vec::new();
        let ghost empty_v = empty;
        let ghost lo = self.layer_objects@;
        self.layer_objects.insert(h, empty);
        self.selection.active_layer = Some(id);
        proof {
            assert(self.layer_objects@ == lo.insert(h, empty_v));
            assert(object_handles(empty_v@) =~= Seq::<u64>::empty());
            assert(self.order() =~= old(self).order().push(h));
            assert(self.groups() =~= old(self).groups().insert(h, Seq::empty()));
        }
    }

    fn remove_layer(&mut self, id: LayerId)
        ensures
            final(self).render == old(self).render,
            removed_layer(*old(self), id, *final(self)),
    {
        let h = id.handle();
        let _ = self.layers.remove(h);
        let mut kept: Vec<LayerId> = Vec::new();
        let n = self.layer_order.len();
        for i in 0..n
            invariant
                n == self.layer_order@.len(),
                layer_handles(kept@) == without(layer_handles(self.layer_order@).take(i as int), h),
        {
            let x = self.layer_order[i];
            let ghost hs = layer_handles(self.layer_order@);
            let ghost before = kept@;
            assert(hs.take(i + 1).drop_last() =~= hs.take(i as int));
            if x.handle() != h {
                kept.push(x);
                assert(layer_handles(kept@) =~= layer_handles(before).push(x@));
            }
        }
        assert(layer_handles(self.layer_order@).take(n as int) =~= layer_handles(self.layer_order@));
        self.layer_order = kept;
        let ghost lo = self.layer_objects@;
        let removed = self.layer_objects.remove(&h);
        assert(self.layer_objects@ == lo.remove(h));
        match removed {
            Some(objs) => remove_objects(&mut self.objects, &objs),
            None => {},
        }
        proof {
            assert(self.groups() =~= old(self).groups().remove(h));
        }
        let was_active = match self.selection.active_layer {
            Some(a) => a.handle() == h,
            None => false,
        };
        proof {
            if let Some(a) = old(self).selection.active_layer {
                lemma_layer_id_eq(a, id);
            }
        }
        if was_active {
            let len = self.layer_order.len();
            self.selection.active_layer = if len > 0 {
                Some(self.layer_order[len - 1])
            } else {
                None
            };
        }
    }

    fn rename_layer(&mut self, id: LayerId, name: String)
        ensures
            final(self).render == old(self).render,
            renamed_layer(*old(self), id, name, *final(self)),
    {
        let h = id.handle();
        if self.layers.contains_key(h) {
            let layer = self.layers.get_mut(h);
            layer.name = name;
        }
    }

    #[verifier::spinoff_prover]
    #[verifier::rlimit(40)]
    fn move_layer(&mut self, id: LayerId, new_index: usize) -> (moved: bool)
        ensures
            final(self).render == old(self).render,
            moved_layer(*old(self), id, new_index, *final(self)),
            moved == old(self).order().contains(id@),
    {
        let h = id.handle();
        match position(&self.layer_order, h) {
            Some(cur) => {
                let ghost v0 = self.layer_order@;
                let item = self.layer_order.remove(cur);
                let ghost v1 = self.layer_order@;
                let len = self.layer_order.len();
                let idx = if new_index < len {
                    new_index
                } else {
                    len
                };
                self.layer_order.insert(idx, item);
                proof {
                    lemma_handles_move(v0, cur as int, idx as int);
                }
                true
            },
            None => false,
        }
    }

    fn select_layer(&mut self, id: LayerId)
        ensures
            final(self).render == old(self).render,
            selected_layer(*old(self), id, *final(self)),
    {
        let h = id.handle();
        if self.layers.contains_key(h) {
            self.selection.active_layer = Some(id);
        }
    }

    /// Puts object `obj` on top of the object list of the layer with
    /// handle `h`, making the list if there is none.
    fn push_object(&mut self, h: u64, obj: ObjectId)
        ensures
            final(self).render == old(self).render,
            final(self).groups() == old(self).groups().insert(h, objects_of(old(self).groups(), h).push(obj@)),
            final(self).layer_map() == old(self).layer_map(),
            final(self).object_map() == old(self).object_map(),
            final(self).image_map() == old(self).image_map(),
            final(self).layer_order == old(self).layer_order,
            same_settings(*old(self), *final(self)),
            keeps_rest(*old(self), *final(self)),
    {
        let ghost lo = self.layer_objects@;
        let removed = self.layer_objects.remove(&h);
        assert(self.layer_objects@ == lo.remove(h));
        let mut list = match removed {
            Some(v) => v,
            None => Vec::new(),
        };
        let ghost before = list@;
        assert(object_handles(before) =~= objects_of(old(self).groups(), h));
        list.push(obj);
        proof {
            assert(object_handles(list@) =~= object_handles(before).push(obj@));
        }
        let ghost list_v = list;
        self.layer_objects.insert(h, list);
        proof {
            assert(self.layer_objects@ == lo.remove(h).insert(h, list_v));
            assert(self.groups() =~= old(self).groups().insert(h, objects_of(old(self).groups(), h).push(obj@)));
        }
    }

    fn add_image_object(&mut self, layer: LayerId)
        requires
            old(self).layer_map().contains_key(layer@) ==> old(self).object_map().len() < slot_capacity(),
        ensures
            final(self).render == old(self).render,
            added_object(*old(self), layer, *final(self)),
    {
        let h = layer.handle();
        if self.layers.contains_key(h) {
            let oh = self.objects.insert(
                Object::Image {
                    source: None,
                    origin: (0, 0),
                    tiles: TileMap::new(),
                    blend: BlendMode::Normal,
                    opacity: ONE_BITS,
                },
            );
            self.push_object(h, ObjectId::from_handle(oh));
        }
    }

    fn paint_tile(&mut self, object_id: ObjectId, key: TileKey, pixels: Vec<Pixel>) -> (changed: bool)
        ensures
            final(self).render == old(self).render,
            painted(*old(self), object_id, key, pixels, *final(self)),
            changed == is_image_object(*old(self), object_id),
    {
        let h = object_id.handle();
        let is_image = match self.objects.get(h) {
            Some(Object::Image { .. }) => true,
            _ => false,
        };
        if is_image {
            let obj = self.objects.get_mut(h);
            match obj {
                Object::Image { tiles, .. } => {
                    tiles.insert(key, Tile { pixels });
                },
                Object::Effect { .. } => {},
            }
            true
        } else {
            false
        }
    }

    fn set_opacity(&mut self, object_id: ObjectId, value: u32) -> (changed: bool)
        ensures
            final(self).render == old(self).render,
            opacity_set(*old(self), object_id, value, *final(self)),
            changed == is_image_object(*old(self), object_id),
    {
        let h = object_id.handle();
        let is_image = match self.objects.get(h) {
            Some(Object::Image { .. }) => true,
            _ => false,
        };
        if is_image {
            let obj = self.objects.get_mut(h);
            match obj {
                Object::Image { opacity, .. } => {
                    *opacity = clamp_unit(value);
                },
                Object::Effect { .. } => {},
            }
            true
        } else {
            false
        }
    }

    /// Turns a decoded image into a new image object on top of the object
    /// list of `layer`: the image is cut into tiles at the canvas origin and
    /// kept as a new image, which the object names as its source.
    pub fn import_raw_image(&mut self, layer: LayerId, raw: RawImage)
        requires
            tiling_fits(&raw, (0i32, 0i32)),
            old(self).object_map().len() < slot_capacity(),
            old(self).image_map().len() < slot_capacity(),
        ensures
            final(self).render == old(self).render,
            imported_raw(*old(self), layer, raw.width, raw.height, raw.pixels@, *final(self)),
    {
        let origin: (i32, i32) = (0, 0);
        let tiles = tile_raw_image(&raw, origin);
        let ih = self.images.insert(raw);
        let image_id = ImageId::from_handle(ih);
        let oh = self.objects.insert(
            Object::Image {
                source: Some(image_id),
                origin,
                tiles,
                blend: BlendMode::Normal,
                opacity: ONE_BITS,
            },
        );
        self.push_object(layer.handle(), ObjectId::from_handle(oh));
    }

    fn import_image(&mut self, layer: LayerId, bytes: Vec<u8>) -> (imported_any: bool)
        requires
            old(self).layer_map().contains_key(layer@) ==> {
                &&& old(self).object_map().len() < slot_capacity()
                &&& old(self).image_map().len() < slot_capacity()
            },
        ensures
            final(self).render == old(self).render,
            imported(*old(self), layer, bytes@, *final(self)),
            imported_any == (old(self).layer_map().contains_key(layer@) && decoded_rgba(bytes@) is Some),
    {
        let h = layer.handle();
        if !self.layers.contains_key(h) {
            return false;
        }
        match decode_image(&bytes) {
            None => false,
            Some(raw) => {
                proof {
                    let w = raw.width as int;
                    let hh = raw.height as int;
                    if w > 0 && hh > 0 {
                        assert(w <= w * hh && hh <= w * hh) by (nonlinear_arith)
                            requires
                                w > 0,
                                hh > 0,
                        ;
                    }
                }
                self.import_raw_image(layer, raw);
                true
            },
        }
    }

    /// Applies a command from the user interface, then, where the command
    /// calls for it (`renders`), composites the canvas again with `blend`
    /// (see `recompute_render`). A state that can be rendered stays so, a
    /// consistent one stays consistent, and a render that showed the
    /// document still shows it.
    pub fn apply<B: Fn(Pixel, Pixel, u32) -> Pixel>(&mut self, cmd: UiCmd, blend: &B)
        requires
            renders(*old(self), cmd) ==> old(self).renderable(),
            old(self).applicable(cmd),
            forall|d: Pixel, s: Pixel, o: u32| #[trigger] blend.requires((d, s, o)),
        ensures
            applied(*old(self), cmd, *final(self)),
            if renders(*old(self), cmd) {
                final(self).rendered_from(old(self).render.revision, *blend)
            } else {
                final(self).render == old(self).render
            },
            old(self).renderable() ==> final(self).renderable(),
            old(self).consistent() ==> final(self).consistent(),
            old(self).consistent() && old(self).tiles_keyed() ==> final(self).tiles_keyed(),
            old(self).consistent() && old(self).shows_document(*blend) ==> final(self).shows_document(*blend),
    {
        let ghost pre = *self;
        let ghost c = cmd;
        let render = self.edit(cmd);
        proof {
            if pre.renderable() {
                apply_keeps_renderable(pre, c, *self);
            }
        }
        if render {
            self.recompute_render(blend);
        }
        proof {
            if pre.consistent() {
                apply_keeps_consistent(pre, c, *self);
                if pre.tiles_keyed() {
                    apply_keeps_tiles_keyed(pre, c, *self);
                }
                if pre.shows_document(*blend) {
                    apply_keeps_render_current(pre, c, *self, *blend);
                }
            }
        }
    }

    /// The change that `cmd` makes to the document, and whether the canvas
    /// must be composited again.
    fn edit(&mut self, cmd: UiCmd) -> (render: bool)
        requires
            old(self).applicable(cmd),
        ensures
            applied(*old(self), cmd, *final(self)),
            render == renders(*old(self), cmd),
            final(self).render == old(self).render,
    {
        match cmd {
            UiCmd::AddLayer => {
                self.add_layer();
                false
            },
            UiCmd::RemoveLayer { id } => {
                self.remove_layer(id);
                true
            },
            UiCmd::RenameLayer { id, name } => {
                self.rename_layer(id, name);
                false
            },
            UiCmd::MoveLayer { id, new_index } => self.move_layer(id, new_index),
            UiCmd::SelectLayer { id } => {
                self.select_layer(id);
                false
            },
            UiCmd::AddImageObject { layer } => {
                self.add_image_object(layer);
                false
            },
            UiCmd::PaintTile { object_id, key, pixels } => self.paint_tile(object_id, key, pixels),
            UiCmd::SetOpacity { object_id, value } => self.set_opacity(object_id, value),
            UiCmd::ResizeCanvas { width, height } => {
                self.canvas_width = if width < 1 {
                    1
                } else {
                    width
                };
                self.canvas_height = if height < 1 {
                    1
                } else {
                    height
                };
                true
            },
            UiCmd::ImportImage { layer, bytes } => self.import_image(layer, bytes),
            UiCmd::PromptImport { .. } => false,
            UiCmd::Undo | UiCmd::Redo => false,
        }
    }
}

/// Object `o` is on some layer's object list.
pub open spec fn listed_in(groups: Map<u64, Seq<u64>>, o: u64) -> bool {
    exists|l: u64, i: int| groups.contains_key(l) && 0 <= i < groups[l].len() && #[trigger] groups[l][i] == o
}

/// No object is on two lists, or twice on one.
pub open spec fn lists_disjoint(groups: Map<u64, Seq<u64>>) -> bool {
    forall|l1: u64, i1: int, l2: u64, i2: int|
        groups.contains_key(l1) && groups.contains_key(l2) && 0 <= i1 < groups[l1].len() && 0 <= i2 < groups[l2].len()
            && #[trigger] groups[l1][i1] == #[trigger] groups[l2][i2] ==> l1 == l2 && i1 == i2
}

impl AppState {
    /// The state hangs together: every layer and object is stored under
    /// its handle; the stack lists each layer exactly once;
    /// every layer, and only a layer, has an object list; a selected layer
    /// exists; every object is on exactly one list, once, and every listed
    /// object exists.
    pub open spec fn consistent(&self) -> bool {
        &&& self.order().no_duplicates()
        &&& forall|h: u64| #[trigger] self.layer_map().contains_key(h) ==> slot_id(h) == h
        &&& forall|h: u64|
            #![trigger self.layer_map().contains_key(h)]
            #![trigger self.order().contains(h)]
            self.layer_map().contains_key(h) <==> self.order().contains(h)
        &&& self.groups().dom() == self.layer_map().dom()
        &&& self.selection.active_layer matches Some(a) ==> self.layer_map().contains_key(a@)
        &&& forall|o: u64| #[trigger] self.object_map().contains_key(o) ==> slot_id(o) == o && listed_in(self.groups(), o)
        &&& forall|l: u64, i: int|
            self.groups().contains_key(l) && 0 <= i < self.groups()[l].len() ==> self.object_map().contains_key(
                #[trigger] self.groups()[l][i],
            )
        &&& lists_disjoint(self.groups())
    }
}

impl AppState {
    /// The layer `id`, if it exists.
    pub fn layer(&self, id: LayerId) -> (r: Option<&Layer>)
        ensures
            match r {
                Some(l) => self.layer_map().contains_key(id@) && *l == self.layer_map()[id@],
                None => !self.layer_map().contains_key(id@),
            },
    {
        self.layers.get(id.handle())
    }

    /// The layer `id`, to change in place; what is written through the
    /// reference is what the layer then is.
    pub fn layer_mut(&mut self, id: LayerId) -> (r: &mut Layer)
        requires
            old(self).layer_map().contains_key(id@),
        ensures
            final(self).render == old(self).render,
            *r == old(self).layer_map()[id@],
            final(self).layer_map() == old(self).layer_map().insert(id@, *final(r)),
            final(self).layer_order == old(self).layer_order,
            same_objects(*old(self), *final(self)),
            same_settings(*old(self), *final(self)),
            keeps_rest(*old(self), *final(self)),
    {
        self.layers.get_mut(id.handle())
    }

    /// The object `id`, if it exists.
    pub fn object(&self, id: ObjectId) -> (r: Option<&Object>)
        ensures
            match r {
                Some(o) => self.object_map().contains_key(id@) && *o == self.object_map()[id@],
                None => !self.object_map().contains_key(id@),
            },
    {
        self.objects.get(id.handle())
    }
}

impl AppState {
    /// Whether `apply(cmd)` may be called on a state that can be rendered:
    /// there is room for what `cmd` adds, the layer counter can move on, a
    /// painted tile can be composited, and a resized canvas fits in memory.
    pub fn can_apply(&self, cmd: &UiCmd) -> (ok: bool)
        ensures
            ok == self.applicable(*cmd),
    {
        let cap: usize = 0xFFFF_FFFE;
        match cmd {
            UiCmd::AddLayer => self.next_layer_n < u32::MAX && self.layers.len() < cap,
            UiCmd::PaintTile { object_id, key, pixels } => {
                let is_image = match self.objects.get(object_id.handle()) {
                    Some(Object::Image { .. }) => true,
                    _ => false,
                };
                !is_image || (-0x200_0000 <= key.0 && key.0 < 0x200_0000 && -0x200_0000 <= key.1 && key.1 < 0x200_0000
                    && pixels.len() >= TILE_PIXELS)
            },
            UiCmd::ResizeCanvas { width, height } => {
                let w = if *width < 1 { 1 } else { *width };
                let h = if *height < 1 { 1 } else { *height };
                proof {
                    assert(w * h <= 0xFFFF_FFFF * 0xFFFF_FFFF) by (nonlinear_arith)
                        requires
                            w <= 0xFFFF_FFFF,
                            h <= 0xFFFF_FFFF,
                    ;
                    assert(0xFFFF_FFFF * 0xFFFF_FFFF <= u64::MAX);
                }
                let area: u64 = w as u64 * h as u64;
                area <= (usize::MAX / 4) as u64
            },
            UiCmd::AddImageObject { layer } => !self.layers.contains_key(layer.handle()) || self.objects.len() < cap,
            UiCmd::ImportImage { layer, .. } => !self.layers.contains_key(layer.handle()) || (
            self.objects.len() < cap && self.images.len() < cap),
            _ => true,
        }
    }
}

impl AppState {
    /// No image object holds two tiles under one key.
    pub open spec fn tiles_keyed(&self) -> bool {
        forall|o: u64|
            #[trigger] self.object_map().contains_key(o) ==> (self.object_map()[o] matches Object::Image { tiles, .. } ==> keys_distinct(tiles@))
    }
}

} // verus!
