//! What every command keeps, and what one command undoes of another.
use vstd::prelude::*;
use crate::compose::{
    blank_pixels, blit_targets_spec, canvas_x, canvas_y, compose_is_determined, lemma_compose_empty, on_canvas,
    plan_ops,
};
use crate::decode::decoded_rgba;
use crate::geometry::{offset_in_tile, tile_of, TileKey};
use crate::model::{
    clamp_unit_by_value, Layer, Pixel, ONE_BITS, entries_insert, first_index, has_key, key_in_prefix, keys_distinct, lemma_first_exists_key, lemma_first_index, Object,
    RawImage, Tile,
};
use crate::slots::{lemma_layer_id_eq, slot_id, LayerId, ObjectId};
use crate::render::{tile_ok, tiles_ok};
use crate::tiling::{lemma_grid_position, lemma_tiling_tiles_ok, grid_index, is_tiling, source_pixel, tile_cols, tile_rows, tiling_entry};
use crate::state::{
    layer_plan, object_plan, objects_plan, opacity_set, renders, stack_plan, added_layer, applied, is_image_object, listed_in, object_added, objects_of, position_of, removed_layer, without,
    without_objects, AppState, UiCmd,
};

verus! {

proof fn lemma_push_no_duplicates(s: Seq<u64>, a: u64)
    requires
        s.no_duplicates(),
        !s.contains(a),
    ensures
        s.push(a).no_duplicates(),
{
    assert forall|i: int, j: int| 0 <= i < s.push(a).len() && 0 <= j < s.push(a).len() && i != j implies s.push(a)[i] != s.push(a)[j] by {
        if i == s.len() {
            assert(s[j] == s.push(a)[j]);
        } else if j == s.len() {
            assert(s[i] == s.push(a)[i]);
        }
    }
}

proof fn lemma_push_contains(s: Seq<u64>, a: u64, y: u64)
    ensures
        s.push(a).contains(y) <==> (s.contains(y) || y == a),
{
    if s.contains(y) {
        let i = choose|i: int| 0 <= i < s.len() && s[i] == y;
        assert(s.push(a)[i] == y);
    }
    if y == a {
        assert(s.push(a)[s.len() as int] == y);
    }
    if s.push(a).contains(y) {
        let i = choose|i: int| 0 <= i < s.push(a).len() && s.push(a)[i] == y;
        if i < s.len() {
            assert(s[i] == y);
        }
    }
}

/// Taking every `x` out of `s` leaves exactly the other elements, keeps
/// them distinct, and changes nothing where there is no `x`.
pub proof fn lemma_without(s: Seq<u64>, x: u64)
    ensures
        forall|y: u64| #[trigger] without(s, x).contains(y) <==> (s.contains(y) && y != x),
        s.no_duplicates() ==> without(s, x).no_duplicates(),
        !s.contains(x) ==> without(s, x) == s,
    decreases s.len(),
{
    if s.len() > 0 {
        let d = s.drop_last();
        lemma_without(d, x);
        assert(s =~= d.push(s.last()));
        assert forall|y: u64| #[trigger] without(s, x).contains(y) <==> (s.contains(y) && y != x) by {
            lemma_push_contains(d, s.last(), y);
            lemma_push_contains(without(d, x), s.last(), y);
        }
        if s.no_duplicates() {
            assert(d.no_duplicates());
            if s.last() != x {
                assert(!d.contains(s.last())) by {
                    if d.contains(s.last()) {
                        let i = choose|i: int| 0 <= i < d.len() && d[i] == s.last();
                        assert(s[i] == s[s.len() - 1]);
                    }
                }
                lemma_push_no_duplicates(without(d, x), s.last());
            }
        }
        if !s.contains(x) {
            assert(!d.contains(x)) by {
                if d.contains(x) {
                    let i = choose|i: int| 0 <= i < d.len() && d[i] == x;
                    assert(s[i] == x);
                }
            }
            assert(s.last() != x) by {
                assert(s[s.len() - 1] == s.last());
            }
        }
    }
}

/// Taking out objects whose handles are slot ids removes exactly those.
pub proof fn lemma_without_objects(m: Map<u64, Object>, ids: Seq<u64>)
    requires
        forall|i: int| 0 <= i < ids.len() ==> slot_id(#[trigger] ids[i]) == ids[i],
    ensures
        forall|o: u64| #[trigger] without_objects(m, ids).contains_key(o) <==> (m.contains_key(o) && !ids.contains(o)),
        forall|o: u64| #[trigger] without_objects(m, ids).contains_key(o) ==> without_objects(m, ids)[o] == m[o],
    decreases ids.len(),
{
    if ids.len() > 0 {
        let d = ids.drop_last();
        assert(ids =~= d.push(ids.last()));
        assert(slot_id(ids[ids.len() - 1]) == ids[ids.len() - 1]);
        lemma_without_objects(m, d);
        assert(without_objects(m, ids) == without_objects(m, d).remove(ids.last()));
        assert forall|o: u64| #[trigger] without_objects(m, ids).contains_key(o) <==> (m.contains_key(o) && !ids.contains(o)) by {
            lemma_push_contains(d, ids.last(), o);
            assert(without_objects(m, d).contains_key(o) <==> (m.contains_key(o) && !d.contains(o)));
        }
        assert forall|o: u64| #[trigger] without_objects(m, ids).contains_key(o) implies without_objects(m, ids)[o] == m[o] by {
            assert(without_objects(m, d).contains_key(o));
        }
    }
}

/// A state with the same stack, layers, object lists and objects as a
/// consistent one, and a selection of an existing layer, is consistent.
proof fn lemma_same_shape(pre: AppState, post: AppState)
    requires
        pre.consistent(),
        post.order() == pre.order(),
        post.layer_map().dom() == pre.layer_map().dom(),
        post.groups() == pre.groups(),
        post.object_map().dom() == pre.object_map().dom(),
        post.selection.active_layer matches Some(a) ==> post.layer_map().contains_key(a@),
    ensures
        post.consistent(),
{
    assert forall|h: u64| post.layer_map().contains_key(h) <==> post.order().contains(h) by {
        assert(pre.layer_map().contains_key(h) == post.layer_map().contains_key(h));
    }
    assert forall|h: u64| #[trigger] post.layer_map().contains_key(h) implies slot_id(h) == h by {
        assert(pre.layer_map().contains_key(h));
    }
    assert forall|o: u64| #[trigger] post.object_map().contains_key(o) implies slot_id(o) == o && listed_in(post.groups(), o) by {
        assert(pre.object_map().contains_key(o));
    }
    assert forall|l: u64, i: int|
        post.groups().contains_key(l) && 0 <= i < post.groups()[l].len() implies post.object_map().contains_key(
            #[trigger] post.groups()[l][i],
        ) by {
        assert(pre.object_map().contains_key(pre.groups()[l][i]));
    }
}

proof fn lemma_add_layer_consistent(pre: AppState, post: AppState)
    requires
        pre.consistent(),
        added_layer(pre, post),
    ensures
        post.consistent(),
{
    let k = post.order().last();
    assert(!pre.order().contains(k));
    lemma_push_no_duplicates(pre.order(), k);
    assert forall|h: u64| post.layer_map().contains_key(h) <==> post.order().contains(h) by {
        lemma_push_contains(pre.order(), k, h);
        if h != k {
            assert(pre.layer_map().contains_key(h) == post.layer_map().contains_key(h));
        }
    }
    assert(post.groups().dom() =~= post.layer_map().dom());
    assert(post.layer_order@.last()@ == k);
    assert(!pre.groups().contains_key(k));
    assert forall|o: u64| #[trigger] post.object_map().contains_key(o) implies slot_id(o) == o && listed_in(post.groups(), o) by {
        assert(pre.object_map().contains_key(o));
        let (l, i) = choose|l: u64, i: int| pre.groups().contains_key(l) && 0 <= i < pre.groups()[l].len() && #[trigger] pre.groups()[l][i] == o;
        assert(post.groups()[l][i] == o);
    }
    assert forall|l: u64, i: int|
        post.groups().contains_key(l) && 0 <= i < post.groups()[l].len() implies post.object_map().contains_key(
            #[trigger] post.groups()[l][i],
        ) by {
        assert(l != k);
        assert(pre.object_map().contains_key(pre.groups()[l][i]));
    }
    assert forall|l1: u64, i1: int, l2: u64, i2: int|
        post.groups().contains_key(l1) && post.groups().contains_key(l2) && 0 <= i1 < post.groups()[l1].len()
            && 0 <= i2 < post.groups()[l2].len() && #[trigger] post.groups()[l1][i1] == #[trigger] post.groups()[l2][i2]
        implies l1 == l2 && i1 == i2 by {
        assert(l1 != k && l2 != k);
        assert(pre.groups()[l1][i1] == pre.groups()[l2][i2]);
    }
}

proof fn lemma_remove_layer_consistent(pre: AppState, id: LayerId, post: AppState)
    requires
        pre.consistent(),
        removed_layer(pre, id, post),
    ensures
        post.consistent(),
{
    let h = id@;
    lemma_without(pre.order(), h);
    assert forall|y: u64| post.layer_map().contains_key(y) <==> post.order().contains(y) by {
        assert(without(pre.order(), h).contains(y) <==> (pre.order().contains(y) && y != h));
    }
    assert(post.groups().dom() =~= post.layer_map().dom());
    // The selected layer, if any, still exists.
    if pre.selection.active_layer == Some(id) {
        if post.layer_order@.len() > 0 {
            let t = post.layer_order@.last();
            assert(post.order()[post.order().len() - 1] == t@);
            assert(post.order().contains(t@));
        }
    } else if let Some(a) = pre.selection.active_layer {
        lemma_layer_id_eq(a, id);
        assert(post.layer_map().contains_key(a@));
    }
    // The objects left are those not on the removed list.
    let gone = objects_of(pre.groups(), h);
    assert forall|i: int| 0 <= i < gone.len() implies slot_id(#[trigger] gone[i]) == gone[i] by {
        assert(pre.groups().contains_key(h));
        assert(pre.object_map().contains_key(pre.groups()[h][i]));
    }
    lemma_without_objects(pre.object_map(), gone);
    assert forall|o: u64| #[trigger] post.object_map().contains_key(o) implies slot_id(o) == o && listed_in(post.groups(), o) by {
        assert(pre.object_map().contains_key(o) && !gone.contains(o));
        let (l, i) = choose|l: u64, i: int| pre.groups().contains_key(l) && 0 <= i < pre.groups()[l].len() && #[trigger] pre.groups()[l][i] == o;
        if l == h {
            assert(gone[i] == o);
        }
        assert(post.groups()[l][i] == o);
    }
    assert forall|l: u64, i: int|
        post.groups().contains_key(l) && 0 <= i < post.groups()[l].len() implies post.object_map().contains_key(
            #[trigger] post.groups()[l][i],
        ) by {
        let o = pre.groups()[l][i];
        assert(pre.object_map().contains_key(o));
        if gone.contains(o) {
            let j = choose|j: int| 0 <= j < gone.len() && gone[j] == o;
            assert(pre.groups()[h][j] == pre.groups()[l][i]);
        }
    }
    assert forall|l1: u64, i1: int, l2: u64, i2: int|
        post.groups().contains_key(l1) && post.groups().contains_key(l2) && 0 <= i1 < post.groups()[l1].len()
            && 0 <= i2 < post.groups()[l2].len() && #[trigger] post.groups()[l1][i1] == #[trigger] post.groups()[l2][i2]
        implies l1 == l2 && i1 == i2 by {
        assert(pre.groups()[l1][i1] == pre.groups()[l2][i2]);
    }
}

/// A sequence that holds `x` holds a first `x`.
proof fn lemma_first_exists(s: Seq<u64>, x: u64)
    requires
        s.contains(x),
    ensures
        exists|i: int| 0 <= i < s.len() && s[i] == x && forall|j: int| 0 <= j < i ==> s[j] != x,
    decreases s.len(),
{
    let d = s.drop_last();
    if d.contains(x) {
        lemma_first_exists(d, x);
        let i = choose|i: int| 0 <= i < d.len() && d[i] == x && forall|j: int| 0 <= j < i ==> d[j] != x;
        assert(s[i] == d[i]);
        assert forall|j: int| 0 <= j < i implies s[j] != x by {
            assert(s[j] == d[j]);
        }
    } else {
        let i = s.len() - 1;
        assert forall|j: int| 0 <= j < i implies s[j] != x by {
            if s[j] == x {
                assert(d[j] == x);
            }
        }
        let k = choose|k: int| 0 <= k < s.len() && s[k] == x;
        if k < i {
            assert(d[k] == x);
        }
    }
}

/// Taking a layer out of the stack and putting it back elsewhere keeps the
/// same layers, each as often as before.
pub proof fn lemma_move_permutes(s: Seq<u64>, x: u64, to: int)
    requires
        s.contains(x),
        0 <= to < s.len(),
    ensures
        s.remove(position_of(s, x)).insert(to, x).to_multiset() == s.to_multiset(),
        forall|y: u64| #[trigger] s.remove(position_of(s, x)).insert(to, x).contains(y) <==> s.contains(y),
        s.no_duplicates() ==> s.remove(position_of(s, x)).insert(to, x).no_duplicates(),
{
    broadcast use vstd::seq_lib::to_multiset_remove, vstd::seq_lib::to_multiset_insert, vstd::seq_lib::to_multiset_contains;
    broadcast use vstd::multiset::group_multiset_axioms;

    lemma_first_exists(s, x);
    let cur = position_of(s, x);
    assert(0 <= cur < s.len() && s[cur] == x);
    let t = s.remove(cur).insert(to, x);
    assert(s.remove(cur).to_multiset() == s.to_multiset().remove(x));
    assert(t.to_multiset() == s.remove(cur).to_multiset().insert(x));
    assert(s.to_multiset().contains(x));
    assert(t.to_multiset() =~= s.to_multiset());
    assert forall|y: u64| #[trigger] t.contains(y) <==> s.contains(y) by {
        assert(t.to_multiset().contains(y) == t.contains(y));
        assert(s.to_multiset().contains(y) == s.contains(y));
    }
    if s.no_duplicates() {
        s.lemma_multiset_has_no_duplicates();
        t.lemma_multiset_has_no_duplicates_conv();
    }
}

proof fn lemma_object_added_consistent(pre: AppState, layer: LayerId, post: AppState)
    requires
        pre.consistent(),
        pre.layer_map().contains_key(layer@),
        object_added(pre, layer, post),
        post.layer_map() == pre.layer_map(),
        post.layer_order == pre.layer_order,
        post.selection.active_layer == pre.selection.active_layer,
    ensures
        post.consistent(),
{
    let l0 = layer@;
    let objs = post.groups()[l0];
    let k = objs.last();
    let old_list = pre.groups()[l0];
    assert(pre.groups().contains_key(l0));
    assert(objs == old_list.push(k));
    assert(post.groups().dom() =~= post.layer_map().dom());
    assert(!listed_in(pre.groups(), k)) by {
        if listed_in(pre.groups(), k) {
            let (l, i) = choose|l: u64, i: int| pre.groups().contains_key(l) && 0 <= i < pre.groups()[l].len() && #[trigger] pre.groups()[l][i] == k;
            assert(pre.object_map().contains_key(pre.groups()[l][i]));
        }
    }
    assert forall|o: u64| #[trigger] post.object_map().contains_key(o) implies slot_id(o) == o && listed_in(post.groups(), o) by {
        if o == k {
            assert(post.groups()[l0][objs.len() - 1] == o);
        } else {
            assert(pre.object_map().contains_key(o));
            let (l, i) = choose|l: u64, i: int| pre.groups().contains_key(l) && 0 <= i < pre.groups()[l].len() && #[trigger] pre.groups()[l][i] == o;
            assert(post.groups()[l][i] == o);
        }
    }
    assert forall|l: u64, i: int|
        post.groups().contains_key(l) && 0 <= i < post.groups()[l].len() implies post.object_map().contains_key(
            #[trigger] post.groups()[l][i],
        ) by {
        if l == l0 && i == old_list.len() {
            assert(post.groups()[l][i] == k);
        } else {
            assert(post.groups()[l][i] == pre.groups()[l][i]);
            assert(pre.object_map().contains_key(pre.groups()[l][i]));
        }
    }
    assert forall|l1: u64, i1: int, l2: u64, i2: int|
        post.groups().contains_key(l1) && post.groups().contains_key(l2) && 0 <= i1 < post.groups()[l1].len()
            && 0 <= i2 < post.groups()[l2].len() && #[trigger] post.groups()[l1][i1] == #[trigger] post.groups()[l2][i2]
        implies l1 == l2 && i1 == i2 by {
        let new1 = l1 == l0 && i1 == old_list.len();
        let new2 = l2 == l0 && i2 == old_list.len();
        if new1 && !new2 {
            assert(post.groups()[l2][i2] == pre.groups()[l2][i2]);
            assert(pre.groups()[l2][i2] == k);
        } else if new2 && !new1 {
            assert(post.groups()[l1][i1] == pre.groups()[l1][i1]);
            assert(pre.groups()[l1][i1] == k);
        } else if !new1 && !new2 {
            assert(post.groups()[l1][i1] == pre.groups()[l1][i1]);
            assert(post.groups()[l2][i2] == pre.groups()[l2][i2]);
        }
    }
}

proof fn lemma_move_layer_consistent(pre: AppState, post: AppState, x: u64, to: int)
    requires
        pre.consistent(),
        pre.order().contains(x),
        0 <= to < pre.order().len(),
        post.order() == pre.order().remove(position_of(pre.order(), x)).insert(to, x),
        post.layer_map() == pre.layer_map(),
        post.groups() == pre.groups(),
        post.object_map() == pre.object_map(),
        post.selection.active_layer == pre.selection.active_layer,
    ensures
        post.consistent(),
{
    lemma_move_permutes(pre.order(), x, to);
    assert forall|h: u64| post.layer_map().contains_key(h) <==> post.order().contains(h) by {
        assert(post.order().contains(h) == pre.order().contains(h));
    }
    assert forall|o: u64| #[trigger] post.object_map().contains_key(o) implies slot_id(o) == o && listed_in(post.groups(), o) by {
        assert(pre.object_map().contains_key(o));
    }
}

/// Every command keeps a consistent state consistent: the stack lists each
/// layer once, exactly the layers have object lists, a selected layer
/// exists, and every object sits on exactly one list.
pub proof fn apply_keeps_consistent(pre: AppState, cmd: UiCmd, post: AppState)
    requires
        pre.consistent(),
        applied(pre, cmd, post),
    ensures
        post.consistent(),
{
    match cmd {
        UiCmd::AddLayer => lemma_add_layer_consistent(pre, post),
        UiCmd::RemoveLayer { id } => lemma_remove_layer_consistent(pre, id, post),
        UiCmd::RenameLayer { id, name } => {
            assert(post.layer_map().dom() =~= pre.layer_map().dom());
            lemma_same_shape(pre, post);
        },
        UiCmd::MoveLayer { id, new_index } => {
            if pre.order().contains(id@) {
                let len = pre.order().len();
                let to = if new_index < len - 1 { new_index as int } else { len - 1 };
                lemma_move_layer_consistent(pre, post, id@, to);
            } else {
                lemma_same_shape(pre, post);
            }
        },
        UiCmd::SelectLayer { id } => lemma_same_shape(pre, post),
        UiCmd::AddImageObject { layer } => {
            if pre.layer_map().contains_key(layer@) {
                lemma_object_added_consistent(pre, layer, post);
            } else {
                lemma_same_shape(pre, post);
            }
        },
        UiCmd::PaintTile { object_id, key, pixels } => {
            assert(post.object_map().dom() =~= pre.object_map().dom());
            lemma_same_shape(pre, post);
        },
        UiCmd::SetOpacity { object_id, value } => {
            assert(post.object_map().dom() =~= pre.object_map().dom());
            lemma_same_shape(pre, post);
        },
        UiCmd::ResizeCanvas { width, height } => lemma_same_shape(pre, post),
        UiCmd::ImportImage { layer, bytes } => {
            if pre.layer_map().contains_key(layer@) && decoded_rgba(bytes@) is Some {
                lemma_object_added_consistent(pre, layer, post);
            } else {
                lemma_same_shape(pre, post);
            }
        },
        UiCmd::PromptImport { .. } => lemma_same_shape(pre, post),
        UiCmd::Undo => lemma_same_shape(pre, post),
        UiCmd::Redo => lemma_same_shape(pre, post),
    }
}

/// Removing the layer that `AddLayer` just made gives back the layers, the
/// stack, the object lists and the objects from before.
pub proof fn remove_undoes_add(s0: AppState, s1: AppState, s2: AppState)
    requires
        s0.consistent(),
        applied(s0, UiCmd::AddLayer, s1),
        applied(s1, UiCmd::RemoveLayer { id: s1.layer_order@.last() }, s2),
    ensures
        s2.layer_map() == s0.layer_map(),
        s2.order() == s0.order(),
        s2.groups() == s0.groups(),
        s2.object_map() == s0.object_map(),
        s2.image_map() == s0.image_map(),
{
    let k = s1.order().last();
    assert(s1.layer_order@.last()@ == k);
    assert(!s0.order().contains(k));
    lemma_without(s0.order(), k);
    assert(without(s1.order(), k) == without(s0.order(), k)) by {
        assert(s1.order().drop_last() =~= s0.order());
    }
    assert(s2.layer_map() =~= s0.layer_map());
    assert(!s0.groups().contains_key(k));
    assert(s2.groups() =~= s0.groups());
    assert(objects_of(s1.groups(), k) =~= Seq::<u64>::empty());
}

/// Reading a tile map after storing a tile: the key holds the new tile,
/// every other key holds what it held, and keys stay distinct.
pub proof fn tile_map_read_after_write(s: Seq<(TileKey, Tile)>, k: TileKey, t: Tile)
    ensures
        has_key(entries_insert(s, k, t), k),
        entries_insert(s, k, t)[first_index(entries_insert(s, k, t), k)] == (k, t),
        forall|k2: TileKey| k2 != k ==> #[trigger] has_key(entries_insert(s, k, t), k2) == has_key(s, k2),
        forall|k2: TileKey|
            k2 != k && has_key(s, k2) ==> #[trigger] entries_insert(s, k, t)[first_index(entries_insert(s, k, t), k2)] == s[first_index(s, k2)],
        keys_distinct(s) ==> keys_distinct(entries_insert(s, k, t)),
{
    let s2 = entries_insert(s, k, t);
    if has_key(s, k) {
        lemma_first_exists_key(s, k);
        let p = first_index(s, k);
        assert(0 <= p < s.len() && s[p].0 == k && !key_in_prefix(s, k, p));
        assert(s2 == s.update(p, (k, t)));
        assert(!key_in_prefix(s2, k, p)) by {
            if key_in_prefix(s2, k, p) {
                let q = choose|q: int| 0 <= q < p && #[trigger] s2[q].0 == k;
                assert(s[q].0 == k);
            }
        }
        lemma_first_index(s2, k, p);
        assert forall|k2: TileKey| k2 != k implies #[trigger] has_key(s2, k2) == has_key(s, k2) by {
            if has_key(s, k2) {
                let q = choose|q: int| 0 <= q < s.len() && #[trigger] s[q].0 == k2;
                assert(s2[q].0 == k2);
            }
            if has_key(s2, k2) {
                let q = choose|q: int| 0 <= q < s2.len() && #[trigger] s2[q].0 == k2;
                assert(s[q].0 == k2);
            }
        }
        assert forall|k2: TileKey| k2 != k && has_key(s, k2) implies #[trigger] s2[first_index(s2, k2)] == s[first_index(s, k2)] by {
            lemma_first_exists_key(s, k2);
            let q = first_index(s, k2);
            assert(!key_in_prefix(s2, k2, q)) by {
                if key_in_prefix(s2, k2, q) {
                    let r = choose|r: int| 0 <= r < q && #[trigger] s2[r].0 == k2;
                    assert(s[r].0 == k2);
                }
            }
            lemma_first_index(s2, k2, q);
        }
    } else {
        assert(s2 == s.push((k, t)));
        assert(!key_in_prefix(s2, k, s.len() as int)) by {
            if key_in_prefix(s2, k, s.len() as int) {
                let q = choose|q: int| 0 <= q < s.len() && #[trigger] s2[q].0 == k;
                assert(s[q].0 == k);
            }
        }
        lemma_first_index(s2, k, s.len() as int);
        assert forall|k2: TileKey| k2 != k implies #[trigger] has_key(s2, k2) == has_key(s, k2) by {
            if has_key(s, k2) {
                let q = choose|q: int| 0 <= q < s.len() && #[trigger] s[q].0 == k2;
                assert(s2[q].0 == k2);
            }
            if has_key(s2, k2) {
                let q = choose|q: int| 0 <= q < s2.len() && #[trigger] s2[q].0 == k2;
                assert(s[q].0 == k2);
            }
        }
        assert forall|k2: TileKey| k2 != k && has_key(s, k2) implies #[trigger] s2[first_index(s2, k2)] == s[first_index(s, k2)] by {
            lemma_first_exists_key(s, k2);
            let q = first_index(s, k2);
            assert(!key_in_prefix(s2, k2, q)) by {
                if key_in_prefix(s2, k2, q) {
                    let r = choose|r: int| 0 <= r < q && #[trigger] s2[r].0 == k2;
                    assert(s[r].0 == k2);
                }
            }
            lemma_first_index(s2, k2, q);
        }
        if keys_distinct(s) {
            assert forall|i: int, j: int| 0 <= i < j < s2.len() implies #[trigger] s2[i].0 != #[trigger] s2[j].0 by {
                if j == s.len() {
                    if s[i].0 == k {
                        assert(key_in_prefix(s, k, s.len() as int));
                    }
                }
            }
        }
    }
}

/// Cutting an image into tiles keeps every pixel: image pixel `(x, y)`,
/// placed at canvas position `origin + (x, y)`, is found in the tile that
/// `tile_coords` names for that position, at the offset it names.
pub proof fn tiling_keeps_pixels(raw: &RawImage, origin: (i32, i32), s: Seq<(TileKey, Tile)>, x: int, y: int) -> (j: int)
    requires
        is_tiling(raw, origin, s),
        0 <= x < raw.width,
        0 <= y < raw.height,
    ensures
        0 <= j < s.len(),
        s[j].0.0 == tile_of(origin.0 + x),
        s[j].0.1 == tile_of(origin.1 + y),
        s[j].1.pixels@[offset_in_tile(origin.1 + y) * 64 + offset_in_tile(origin.0 + x)]@
            == raw.pixels@.subrange((y * raw.width + x) * 4, (y * raw.width + x) * 4 + 4),
{
    let gx = origin.0 + x;
    let gy = origin.1 + y;
    let cols = tile_cols(raw, origin);
    let rows = tile_rows(raw, origin);
    let col = tile_of(gx) - tile_of(origin.0 as int);
    let row = tile_of(gy) - tile_of(origin.1 as int);
    assert(0 <= col < cols);
    assert(0 <= row < rows);
    assert(0 <= grid_index(row, col, cols) < rows * cols && row * cols <= grid_index(row, col, cols)) by (nonlinear_arith)
        requires
            0 <= row < rows,
            0 <= col < cols,
    {
        assert(row * cols + col < (row + 1) * cols);
        assert((row + 1) * cols <= rows * cols);
    }
    let j = grid_index(row, col, cols);
    assert(tiling_entry(raw, origin, s[j], tile_of(origin.0 as int) + col, tile_of(origin.1 as int) + row));
    let lx = offset_in_tile(gx);
    let ly = offset_in_tile(gy);
    let i = ly * 64 + lx;
    assert(i % 64 == lx && i / 64 == ly && 0 <= i < 4096);
    assert(s[j].1.pixels@[i]@ == source_pixel(raw, origin, tile_of(gx), tile_of(gy), i));
    j
}

/// Every byte a blit writes lies inside the canvas buffer, and no two tile
/// pixels land on the same canvas pixel.
pub proof fn blit_stays_in_canvas(cw: u32, ch: u32, tx: int, ty: int, targets: Seq<(usize, usize)>)
    requires
        blit_targets_spec(cw, ch, tx, ty, targets),
    ensures
        forall|j: int| 0 <= j < targets.len() ==> #[trigger] targets[j].0 + 4 <= cw * ch * 4,
        forall|j: int, k: int| 0 <= j < k < targets.len() ==> #[trigger] targets[j].0 != #[trigger] targets[k].0,
{
    assert forall|j: int| 0 <= j < targets.len() implies #[trigger] targets[j].0 + 4 <= cw * ch * 4 by {
        let i = targets[j].1 as int;
        let x = canvas_x(tx, i);
        let y = canvas_y(ty, i);
        assert(on_canvas(cw, ch, tx, ty, i));
        assert((y * cw + x) * 4 + 4 <= cw * ch * 4) by (nonlinear_arith)
            requires
                0 <= x < cw,
                0 <= y < ch,
        ;
    }
    assert forall|j: int, k: int| 0 <= j < k < targets.len() implies #[trigger] targets[j].0 != #[trigger] targets[k].0 by {
        let a = targets[j].1 as int;
        let b = targets[k].1 as int;
        assert(a < b);
        let xa = canvas_x(tx, a);
        let ya = canvas_y(ty, a);
        let xb = canvas_x(tx, b);
        let yb = canvas_y(ty, b);
        assert(on_canvas(cw, ch, tx, ty, a) && on_canvas(cw, ch, tx, ty, b));
        assert(0 <= a % 64 < 64 && 0 <= b % 64 < 64);
        assert(a == (a / 64) * 64 + a % 64 && b == (b / 64) * 64 + b % 64);
        if ya == yb {
            assert(xa != xb);
        }
        assert(ya * cw + xa != yb * cw + xb) by (nonlinear_arith)
            requires
                0 <= xa < cw,
                0 <= xb < cw,
                (ya != yb || xa != xb),
        {
            if ya < yb {
                assert(ya * cw + cw <= yb * cw);
            } else if yb < ya {
                assert(yb * cw + cw <= ya * cw);
            }
        }
    }
}

/// A tiling names each tile once.
pub proof fn tiling_keys_distinct(raw: &RawImage, origin: (i32, i32), s: Seq<(TileKey, Tile)>)
    requires
        is_tiling(raw, origin, s),
    ensures
        keys_distinct(s),
{
    let rows = tile_rows(raw, origin);
    let cols = tile_cols(raw, origin);
    assert forall|j: int, k: int| 0 <= j < k < s.len() implies #[trigger] s[j].0 != #[trigger] s[k].0 by {
        if cols <= 0 {
            assert(rows * cols <= 0) by (nonlinear_arith)
                requires
                    cols <= 0,
                    rows >= 0,
            {
            }
        }
        let (rj, cj) = lemma_grid_position(j, rows, cols);
        let (rk, ck) = lemma_grid_position(k, rows, cols);
        assert(tiling_entry(raw, origin, s[grid_index(rj, cj, cols)], tile_of(origin.0 as int) + cj, tile_of(origin.1 as int) + rj));
        assert(tiling_entry(raw, origin, s[grid_index(rk, ck, cols)], tile_of(origin.0 as int) + ck, tile_of(origin.1 as int) + rk));
        if rj == rk && cj == ck {
            assert(j == k);
        }
    }
}

/// Every command keeps each image object's tiles under distinct keys.
pub proof fn apply_keeps_tiles_keyed(pre: AppState, cmd: UiCmd, post: AppState)
    requires
        pre.consistent(),
        pre.tiles_keyed(),
        applied(pre, cmd, post),
    ensures
        post.tiles_keyed(),
{
    match cmd {
        UiCmd::RemoveLayer { id } => {
            let gone = objects_of(pre.groups(), id@);
            assert forall|i: int| 0 <= i < gone.len() implies slot_id(#[trigger] gone[i]) == gone[i] by {
                assert(pre.groups().contains_key(id@));
                assert(pre.object_map().contains_key(pre.groups()[id@][i]));
            }
            lemma_without_objects(pre.object_map(), gone);
            assert forall|o: u64| #[trigger] post.object_map().contains_key(o) implies (post.object_map()[o] matches Object::Image { tiles, .. } ==> keys_distinct(tiles@)) by {
                assert(pre.object_map().contains_key(o));
            }
        },
        UiCmd::AddImageObject { layer } => {
            if pre.layer_map().contains_key(layer@) {
                let k = post.groups()[layer@].last();
                assert forall|o: u64| #[trigger] post.object_map().contains_key(o) implies (post.object_map()[o] matches Object::Image { tiles, .. } ==> keys_distinct(tiles@)) by {
                    if o != k {
                        assert(pre.object_map().contains_key(o));
                    }
                }
            }
        },
        UiCmd::PaintTile { object_id, key, pixels } => {
            if is_image_object(pre, object_id) {
                assert forall|o: u64| #[trigger] post.object_map().contains_key(o) implies (post.object_map()[o] matches Object::Image { tiles, .. } ==> keys_distinct(tiles@)) by {
                    if o == object_id@ {
                        if let Object::Image { tiles: t1, .. } = pre.object_map()[o] {
                            tile_map_read_after_write(t1@, key, Tile { pixels });
                        }
                    } else {
                        assert(pre.object_map().contains_key(o));
                    }
                }
            }
        },
        UiCmd::SetOpacity { object_id, value } => {
            if is_image_object(pre, object_id) {
                assert forall|o: u64| #[trigger] post.object_map().contains_key(o) implies (post.object_map()[o] matches Object::Image { tiles, .. } ==> keys_distinct(tiles@)) by {
                    if o != object_id@ {
                        assert(pre.object_map().contains_key(o));
                    }
                }
            }
        },
        UiCmd::ImportImage { layer, bytes } => {
            if pre.layer_map().contains_key(layer@) && decoded_rgba(bytes@) is Some {
                let k = post.groups()[layer@].last();
                assert forall|o: u64| #[trigger] post.object_map().contains_key(o) implies (post.object_map()[o] matches Object::Image { tiles, .. } ==> keys_distinct(tiles@)) by {
                    if o == k {
                        if let Object::Image { source: Some(img), tiles, .. } = post.object_map()[o] {
                            tiling_keys_distinct(&post.image_map()[img@], (0i32, 0i32), tiles@);
                        }
                    } else {
                        assert(pre.object_map().contains_key(o));
                    }
                }
            }
        },
        _ => {},
    }
}


/// Every command that its preconditions admit keeps the canvas renderable:
/// the buffer fits in memory and every tile of every image object can be
/// composited.
pub proof fn apply_keeps_renderable(pre: AppState, cmd: UiCmd, post: AppState)
    requires
        pre.renderable(),
        pre.applicable(cmd),
        applied(pre, cmd, post),
    ensures
        post.renderable(),
{
    match cmd {
        UiCmd::RemoveLayer { id } => {
            let gone = objects_of(pre.groups(), id@);
            lemma_without_objects_sub(pre.object_map(), gone);
            assert forall|o: u64| #[trigger] post.object_map().contains_key(o) implies (post.object_map()[o] matches Object::Image { tiles, .. } ==> tiles_ok(tiles@)) by {
                assert(pre.object_map().contains_key(o));
            }
        },
        UiCmd::AddImageObject { layer } => {
            if pre.layer_map().contains_key(layer@) {
                let k = post.groups()[layer@].last();
                assert forall|o: u64| #[trigger] post.object_map().contains_key(o) implies (post.object_map()[o] matches Object::Image { tiles, .. } ==> tiles_ok(tiles@)) by {
                    if o != k {
                        assert(pre.object_map().contains_key(o));
                    }
                }
            }
        },
        UiCmd::PaintTile { object_id, key, pixels } => {
            if is_image_object(pre, object_id) {
                assert forall|o: u64| #[trigger] post.object_map().contains_key(o) implies (post.object_map()[o] matches Object::Image { tiles, .. } ==> tiles_ok(tiles@)) by {
                    if o == object_id@ {
                        if let Object::Image { tiles: t1, .. } = pre.object_map()[o] {
                            assert(pre.object_map().contains_key(o));
                            lemma_insert_tiles_ok(t1@, key, Tile { pixels });
                        }
                    } else {
                        assert(pre.object_map().contains_key(o));
                    }
                }
            }
        },
        UiCmd::SetOpacity { object_id, value } => {
            if is_image_object(pre, object_id) {
                assert forall|o: u64| #[trigger] post.object_map().contains_key(o) implies (post.object_map()[o] matches Object::Image { tiles, .. } ==> tiles_ok(tiles@)) by {
                    assert(pre.object_map().contains_key(o));
                }
            }
        },
        UiCmd::ImportImage { layer, bytes } => {
            if pre.layer_map().contains_key(layer@) && decoded_rgba(bytes@) is Some {
                let k = post.groups()[layer@].last();
                assert forall|o: u64| #[trigger] post.object_map().contains_key(o) implies (post.object_map()[o] matches Object::Image { tiles, .. } ==> tiles_ok(tiles@)) by {
                    if o == k {
                        if let Object::Image { source: Some(img), tiles, .. } = post.object_map()[o] {
                            lemma_tiling_tiles_ok(&post.image_map()[img@], (0i32, 0i32), tiles@);
                        }
                    } else {
                        assert(pre.object_map().contains_key(o));
                    }
                }
            }
        },
        _ => {},
    }
}

/// Storing a tile that can be composited keeps a tile map's tiles so.
proof fn lemma_insert_tiles_ok(s: Seq<(TileKey, Tile)>, k: TileKey, t: Tile)
    requires
        tiles_ok(s),
        tile_ok(k, t),
    ensures
        tiles_ok(entries_insert(s, k, t)),
{
    let r = entries_insert(s, k, t);
    assert forall|j: int| #![trigger r[j]] 0 <= j < r.len() implies tile_ok(r[j].0, r[j].1) by {
        if has_key(s, k) {
            lemma_first_exists_key(s, k);
            if j != first_index(s, k) {
                assert(r[j] == s[j]);
            }
        } else if j < s.len() {
            assert(r[j] == s[j]);
        }
    }
}


/// What is left after taking objects out was there before, unchanged.
proof fn lemma_without_objects_sub(m: Map<u64, Object>, ids: Seq<u64>)
    ensures
        forall|o: u64| #[trigger] without_objects(m, ids).contains_key(o) ==> m.contains_key(o) && without_objects(m, ids)[o] == m[o],
    decreases ids.len(),
{
    if ids.len() > 0 {
        let d = ids.drop_last();
        lemma_without_objects_sub(m, d);
        assert forall|o: u64| #[trigger] without_objects(m, ids).contains_key(o) implies m.contains_key(o) && without_objects(m, ids)[o] == m[o] by {
            assert(without_objects(m, ids) == without_objects(m, d).remove(slot_id(ids.last())));
            assert(without_objects(m, d).contains_key(o));
        }
    }
}


/// Layer handle `l` is drawn: a layer with that handle exists and is
/// visible.
pub open spec fn drawn(layers: Map<u64, Layer>, l: u64) -> bool {
    layers.contains_key(slot_id(l)) && layers[slot_id(l)].visible
}

/// `drawn` as a predicate on handles.
pub open spec fn drawn_in(layers: Map<u64, Layer>) -> spec_fn(u64) -> bool {
    |l: u64| drawn(layers, l)
}

/// Hidden layers, and handles that name no layer, add nothing: the plan of
/// a stack is the plan of its drawn layers alone.
pub proof fn hidden_layers_add_nothing(
    layers: Map<u64, Layer>,
    objects: Map<u64, Object>,
    groups: Map<u64, Seq<u64>>,
    order: Seq<u64>,
)
    ensures
        stack_plan(layers, objects, groups, order) == stack_plan(layers, objects, groups, order.filter(drawn_in(layers))),
    decreases order.len(),
{
    let pred = drawn_in(layers);
    if order.len() > 0 {
        let d = order.drop_last();
        let x = order.last();
        hidden_layers_add_nothing(layers, objects, groups, d);
        assert(order =~= d.push(x));
        d.lemma_filter_push(x, pred);
        let f = d.filter(pred);
        if pred(x) {
            assert(f.push(x).drop_last() =~= f);
            assert(f.push(x).last() == x);
        } else {
            assert(layer_plan(layers, objects, groups, x) =~= Seq::<(TileKey, Tile, u32)>::empty());
            assert(stack_plan(layers, objects, groups, d) + Seq::<(TileKey, Tile, u32)>::empty() =~= stack_plan(
                layers,
                objects,
                groups,
                d,
            ));
        }
    }
}

/// Hiding layers renders as leaving them out: where `s2` is `s1` with only
/// the drawn layers of `s1` left in its stack, both render the same plan,
/// and, composited with one `blend` that gives one result for each input,
/// the same pixels.
pub proof fn hiding_renders_as_leaving_out<B: Fn(Pixel, Pixel, u32) -> Pixel>(s1: AppState, s2: AppState, blend: B)
    requires
        forall|d: Pixel, s: Pixel, o: u32, r1: Pixel, r2: Pixel|
            #[trigger] blend.ensures((d, s, o), r1) && #[trigger] blend.ensures((d, s, o), r2) ==> r1 == r2,
        s2.layer_map() == s1.layer_map(),
        s2.object_map() == s1.object_map(),
        s2.groups() == s1.groups(),
        s2.canvas_width == s1.canvas_width,
        s2.canvas_height == s1.canvas_height,
        s2.order() == s1.order().filter(drawn_in(s1.layer_map())),
        s1.shows_document(blend),
        s2.shows_document(blend),
    ensures
        s2.document_plan() == s1.document_plan(),
        s2.render.pixels@ == s1.render.pixels@,
{
    hidden_layers_add_nothing(s1.layer_map(), s1.object_map(), s1.groups(), s1.order());
    compose_is_determined(
        blend,
        plan_ops(s1.canvas_width, s1.canvas_height, s1.document_plan()),
        blank_pixels(s1.canvas_width, s1.canvas_height),
        s1.render.pixels@,
        s2.render.pixels@,
    );
}

/// Objects that contribute alike make lists that contribute alike.
proof fn lemma_objects_plan_frame(o1: Map<u64, Object>, o2: Map<u64, Object>, ids: Seq<u64>)
    requires
        forall|i: int| 0 <= i < ids.len() ==> object_plan(o1, #[trigger] ids[i]) == object_plan(o2, ids[i]),
    ensures
        objects_plan(o1, ids) == objects_plan(o2, ids),
    decreases ids.len(),
{
    if ids.len() > 0 {
        let d = ids.drop_last();
        assert forall|i: int| 0 <= i < d.len() implies object_plan(o1, #[trigger] d[i]) == object_plan(o2, d[i]) by {
            assert(d[i] == ids[i]);
        }
        lemma_objects_plan_frame(o1, o2, d);
        assert(object_plan(o1, ids[ids.len() - 1]) == object_plan(o2, ids[ids.len() - 1]));
    }
}

/// Layers that contribute alike make stacks that contribute alike.
proof fn lemma_stack_plan_frame(
    l1: Map<u64, Layer>,
    o1: Map<u64, Object>,
    g1: Map<u64, Seq<u64>>,
    l2: Map<u64, Layer>,
    o2: Map<u64, Object>,
    g2: Map<u64, Seq<u64>>,
    order: Seq<u64>,
)
    requires
        forall|i: int| 0 <= i < order.len() ==> layer_plan(l1, o1, g1, #[trigger] order[i]) == layer_plan(l2, o2, g2, order[i]),
    ensures
        stack_plan(l1, o1, g1, order) == stack_plan(l2, o2, g2, order),
    decreases order.len(),
{
    if order.len() > 0 {
        let d = order.drop_last();
        assert forall|i: int| 0 <= i < d.len() implies layer_plan(l1, o1, g1, #[trigger] d[i]) == layer_plan(l2, o2, g2, d[i]) by {
            assert(d[i] == order[i]);
        }
        lemma_stack_plan_frame(l1, o1, g1, l2, o2, g2, d);
        assert(layer_plan(l1, o1, g1, order[order.len() - 1]) == layer_plan(l2, o2, g2, order[order.len() - 1]));
    }
}

/// A new object, stored under a fresh handle, changes nothing that existing
/// objects contribute.
proof fn lemma_objects_plan_fresh(o1: Map<u64, Object>, ids: Seq<u64>, k: u64, v: Object)
    requires
        forall|i: int| 0 <= i < ids.len() ==> #[trigger] o1.contains_key(ids[i]) && slot_id(ids[i]) == ids[i],
        !o1.contains_key(k),
    ensures
        objects_plan(o1.insert(k, v), ids) == objects_plan(o1, ids),
{
    assert forall|i: int| 0 <= i < ids.len() implies object_plan(o1.insert(k, v), #[trigger] ids[i]) == object_plan(o1, ids[i]) by {
        assert(o1.contains_key(ids[i]));
    }
    lemma_objects_plan_frame(o1.insert(k, v), o1, ids);
}

/// The commands that do not composite again leave the canvas size and the
/// compositing plan as they were.
proof fn lemma_plan_kept(pre: AppState, cmd: UiCmd, post: AppState)
    requires
        pre.consistent(),
        applied(pre, cmd, post),
        !renders(pre, cmd),
    ensures
        post.canvas_width == pre.canvas_width,
        post.canvas_height == pre.canvas_height,
        post.document_plan() == pre.document_plan(),
{
    let (l1, o1, g1) = (pre.layer_map(), pre.object_map(), pre.groups());
    let (l2, o2, g2) = (post.layer_map(), post.object_map(), post.groups());
    match cmd {
        UiCmd::AddLayer => {
            let k = post.order().last();
            assert(post.order().drop_last() =~= pre.order());
            assert(objects_plan(o2, Seq::<u64>::empty()) =~= Seq::<(TileKey, Tile, u32)>::empty());
            assert(layer_plan(l2, o2, g2, k) =~= Seq::<(TileKey, Tile, u32)>::empty());
            assert forall|i: int| 0 <= i < pre.order().len() implies layer_plan(l2, o2, g2, #[trigger] pre.order()[i]) == layer_plan(l1, o1, g1, pre.order()[i]) by {
                let l = pre.order()[i];
                assert(pre.order().contains(l));
                assert(l1.contains_key(l));
                assert(l != k);
            }
            lemma_stack_plan_frame(l2, o2, g2, l1, o1, g1, pre.order());
            assert(stack_plan(l2, o2, g2, pre.order()) + Seq::<(TileKey, Tile, u32)>::empty() =~= stack_plan(l2, o2, g2, pre.order()));
        },
        UiCmd::RenameLayer { id, name } => {
            assert forall|i: int| 0 <= i < pre.order().len() implies layer_plan(l2, o2, g2, #[trigger] pre.order()[i]) == layer_plan(l1, o1, g1, pre.order()[i]) by {
                let l = pre.order()[i];
                assert(pre.order().contains(l));
                assert(l1.contains_key(l));
                assert(l2.contains_key(l));
                assert(l2[l].visible == l1[l].visible);
            }
            lemma_stack_plan_frame(l2, o2, g2, l1, o1, g1, pre.order());
        },
        UiCmd::AddImageObject { layer } => {
            if l1.contains_key(layer@) {
                let objs = g2[layer@];
                let k = objs.last();
                let v = o2[k];
                assert(o2 == o1.insert(k, v));
                assert(g1.contains_key(layer@));
                assert forall|i: int| 0 <= i < pre.order().len() implies layer_plan(l2, o2, g2, #[trigger] pre.order()[i]) == layer_plan(l1, o1, g1, pre.order()[i]) by {
                    let l = pre.order()[i];
                    assert(pre.order().contains(l));
                    assert(l1.contains_key(l));
                    assert(g1.contains_key(l));
                    let ids = g1[l];
                    assert forall|j: int| 0 <= j < ids.len() implies #[trigger] o1.contains_key(ids[j]) && slot_id(ids[j]) == ids[j] by {
                        assert(o1.contains_key(g1[l][j]));
                    }
                    lemma_objects_plan_fresh(o1, ids, k, v);
                    if l == layer@ {
                        assert(objs.drop_last() =~= ids);
                        if let Object::Image { tiles, opacity, .. } = v {
                            assert(tiles@.map_values(|e: (TileKey, Tile)| (e.0, e.1, opacity)) =~= Seq::<(TileKey, Tile, u32)>::empty());
                        }
                        assert(object_plan(o2, k) =~= Seq::<(TileKey, Tile, u32)>::empty());
                        assert(objects_plan(o2, objs) =~= objects_plan(o2, ids));
                    }
                }
                lemma_stack_plan_frame(l2, o2, g2, l1, o1, g1, pre.order());
            }
        },
        _ => {},
    }
}

/// `apply` never leaves the render stale: where the render showed the
/// document before, composited with `blend`, it shows the document after,
/// whether the command composited again or changed nothing that is drawn.
pub proof fn apply_keeps_render_current<B: Fn(Pixel, Pixel, u32) -> Pixel>(pre: AppState, cmd: UiCmd, post: AppState, blend: B)
    requires
        pre.consistent(),
        pre.shows_document(blend),
        applied(pre, cmd, post),
        if renders(pre, cmd) {
            post.rendered_from(pre.render.revision, blend)
        } else {
            post.render == pre.render
        },
    ensures
        post.shows_document(blend),
{
    if !renders(pre, cmd) {
        lemma_plan_kept(pre, cmd, post);
    }
}

/// Compositing again a render that shows the document, with a `blend` that
/// gives one result for each input, gives the same pixels.
pub proof fn recompute_keeps_pixels<B: Fn(Pixel, Pixel, u32) -> Pixel>(pre: AppState, post: AppState, blend: B)
    requires
        forall|d: Pixel, s: Pixel, o: u32, r1: Pixel, r2: Pixel|
            #[trigger] blend.ensures((d, s, o), r1) && #[trigger] blend.ensures((d, s, o), r2) ==> r1 == r2,
        pre.shows_document(blend),
        post.rendered_from(pre.render.revision, blend),
        post.same_document(pre),
    ensures
        post.render.pixels@ == pre.render.pixels@,
        post.render.width == pre.render.width,
        post.render.height == pre.render.height,
{
    compose_is_determined(
        blend,
        plan_ops(pre.canvas_width, pre.canvas_height, pre.document_plan()),
        blank_pixels(pre.canvas_width, pre.canvas_height),
        pre.render.pixels@,
        post.render.pixels@,
    );
}

/// A document with an empty stack shows on a blank canvas of its size,
/// whatever the blend.
pub proof fn empty_stack_shows_blank<B: Fn(Pixel, Pixel, u32) -> Pixel>(s: AppState, blend: B)
    requires
        s.order().len() == 0,
        s.render.width == s.canvas_width,
        s.render.height == s.canvas_height,
        s.render.pixels@ == blank_pixels(s.canvas_width, s.canvas_height),
    ensures
        s.shows_document(blend),
{
    assert(s.document_plan() =~= Seq::<(TileKey, Tile, u32)>::empty());
    assert(plan_ops(s.canvas_width, s.canvas_height, s.document_plan()) =~= Seq::<(int, Pixel, u32)>::empty());
    lemma_compose_empty(blend, s.render.pixels@);
}


/// Objects are composited in the order of their list, first listed (the
/// bottom one) first: the plan of one list followed by another is the plan
/// of the first followed by the plan of the second, and the plan of a
/// single object is that object's tiles. So the object put on top of a
/// list last is composited last, over the others.
pub proof fn objects_composite_in_list_order(objects: Map<u64, Object>, a: Seq<u64>, b: Seq<u64>)
    ensures
        objects_plan(objects, a + b) == objects_plan(objects, a) + objects_plan(objects, b),
        forall|o: u64| #[trigger] objects_plan(objects, seq![o]) == object_plan(objects, o),
        forall|o: u64| #[trigger] objects_plan(objects, a.push(o)) == objects_plan(objects, a) + object_plan(objects, o),
    decreases b.len(),
{
    assert(objects_plan(objects, Seq::<u64>::empty()) == Seq::<(TileKey, Tile, u32)>::empty());
    assert forall|o: u64| #[trigger] objects_plan(objects, seq![o]) == object_plan(objects, o) by {
        let one = seq![o];
        assert(one.len() == 1);
        assert(one.drop_last() =~= Seq::<u64>::empty());
        assert(one.last() == o);
        assert(objects_plan(objects, one) == objects_plan(objects, one.drop_last()) + object_plan(objects, o));
        assert(Seq::<(TileKey, Tile, u32)>::empty() + object_plan(objects, o) =~= object_plan(objects, o));
    }
    assert forall|o: u64| #[trigger] objects_plan(objects, a.push(o)) == objects_plan(objects, a) + object_plan(objects, o) by {
        assert(a.push(o).drop_last() =~= a);
        assert(a.push(o).last() == o);
    }
    if b.len() == 0 {
        assert(a + b =~= a);
        assert(objects_plan(objects, a) + objects_plan(objects, b) =~= objects_plan(objects, a));
    } else {
        objects_composite_in_list_order(objects, a, b.drop_last());
        assert((a + b).drop_last() =~= a + b.drop_last());
        assert((a + b).last() == b.last());
        assert(objects_plan(objects, a + b) =~= objects_plan(objects, a) + objects_plan(objects, b));
    }
}

/// Layers are composited in stacking order, bottom first: the plan of one
/// stack followed by another is the plan of the first followed by the plan
/// of the second, and the plan of a single layer is that layer's plan.
pub proof fn layers_composite_in_stack_order(
    layers: Map<u64, Layer>,
    objects: Map<u64, Object>,
    groups: Map<u64, Seq<u64>>,
    a: Seq<u64>,
    b: Seq<u64>,
)
    ensures
        stack_plan(layers, objects, groups, a + b) == stack_plan(layers, objects, groups, a) + stack_plan(layers, objects, groups, b),
        forall|l: u64| #[trigger] stack_plan(layers, objects, groups, seq![l]) == layer_plan(layers, objects, groups, l),
    decreases b.len(),
{
    assert(stack_plan(layers, objects, groups, Seq::<u64>::empty()) == Seq::<(TileKey, Tile, u32)>::empty());
    assert forall|l: u64| #[trigger] stack_plan(layers, objects, groups, seq![l]) == layer_plan(layers, objects, groups, l) by {
        let one = seq![l];
        assert(one.len() == 1);
        assert(one.drop_last() =~= Seq::<u64>::empty());
        assert(one.last() == l);
        assert(stack_plan(layers, objects, groups, one) == stack_plan(layers, objects, groups, one.drop_last()) + layer_plan(
            layers,
            objects,
            groups,
            l,
        ));
        assert(Seq::<(TileKey, Tile, u32)>::empty() + layer_plan(layers, objects, groups, l) =~= layer_plan(layers, objects, groups, l));
    }
    if b.len() == 0 {
        assert(a + b =~= a);
        assert(stack_plan(layers, objects, groups, a) + stack_plan(layers, objects, groups, b) =~= stack_plan(layers, objects, groups, a));
    } else {
        layers_composite_in_stack_order(layers, objects, groups, a, b.drop_last());
        assert((a + b).drop_last() =~= a + b.drop_last());
        assert((a + b).last() == b.last());
        assert(stack_plan(layers, objects, groups, a + b) =~= stack_plan(layers, objects, groups, a) + stack_plan(
            layers,
            objects,
            groups,
            b,
        ));
    }
}

/// Every handle but `x`.
pub open spec fn other_than(x: u64) -> spec_fn(u64) -> bool {
    |y: u64| y != x
}

/// Taking `x` out of a sequence keeps everything else in its order: the
/// result is exactly the subsequence of the elements other than `x`.
pub proof fn without_keeps_order(s: Seq<u64>, x: u64)
    ensures
        without(s, x) == s.filter(other_than(x)),
    decreases s.len(),
{
    if s.len() == 0 {
        assert(s.filter(other_than(x)) =~= s) by {
            reveal(Seq::filter);
        }
    } else {
        let d = s.drop_last();
        without_keeps_order(d, x);
        assert(s =~= d.push(s.last()));
        d.lemma_filter_push(s.last(), other_than(x));
    }
}

/// `RemoveLayer` keeps the other layers in their stacking order: the new
/// stack is the old one with `id` filtered out.
pub proof fn remove_layer_keeps_stack_order(pre: AppState, id: LayerId, post: AppState)
    requires
        removed_layer(pre, id, post),
    ensures
        post.order() == pre.order().filter(other_than(id@)),
{
    without_keeps_order(pre.order(), id@);
}

/// `SetOpacity` with a value in `[0, 1]` on an image object stores exactly
/// that value.
pub proof fn set_opacity_keeps_unit_values(pre: AppState, object_id: ObjectId, value: u32, post: AppState)
    requires
        opacity_set(pre, object_id, value, post),
        is_image_object(pre, object_id),
        value <= ONE_BITS,
    ensures
        post.object_map()[object_id@] matches Object::Image { opacity, .. } && opacity == value,
{
    clamp_unit_by_value(value);
}

} // verus!
