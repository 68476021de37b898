use lime_core::{
    blit_targets, decode_image, layer_name, tile_coords, tile_raw_image, AppState, LayerId, Object,
    ObjectId, RawImage, TileMap, UiCmd, DEFAULT_CANVAS_HEIGHT, DEFAULT_CANVAS_WIDTH, ONE_BITS,
    TILE_PIXELS,
};

fn layer_name_of(state: &AppState, id: LayerId) -> String {
    state.layer(id).expect("layer").name.clone()
}

fn objects_of(state: &AppState, id: LayerId) -> Vec<ObjectId> {
    state.layer_objects.get(&id.handle()).cloned().unwrap_or_default()
}

fn png_bytes(width: u32, height: u32, pixels: Vec<u8>) -> Vec<u8> {
    let img = image::RgbaImage::from_raw(width, height, pixels).expect("buffer");
    let mut out = std::io::Cursor::new(Vec::new());
    img.write_to(&mut out, image::ImageFormat::Png).expect("encode");
    out.into_inner()
}


/// Lays `src` at `opacity` over `dst` ("source over"), in `f32` as the
/// editor's host does.
fn blend_over(dst: [u8; 4], src: [u8; 4], opacity: u32) -> [u8; 4] {
    let mut out = dst;
    let sa = (src[3] as f32 / 255.0) * f32::from_bits(opacity).clamp(0.0, 1.0);
    if sa <= 0.0 {
        return out;
    }
    let da = dst[3] as f32 / 255.0;
    let out_a = sa + da * (1.0 - sa);
    if out_a <= 0.0 {
        return out;
    }
    for i in 0..3 {
        let s = src[i] as f32 / 255.0;
        let d = dst[i] as f32 / 255.0;
        let v = (s * sa + d * da * (1.0 - sa)) / out_a;
        out[i] = (v * 255.0).round().clamp(0.0, 255.0) as u8;
    }
    out[3] = (out_a * 255.0).round().clamp(0.0, 255.0) as u8;
    out
}

/// Applies `cmd` as the host does (checking `can_apply` first) and tells
/// whether the canvas was composited again.
fn run(s: &mut AppState, cmd: UiCmd) -> bool {
    assert!(s.can_apply(&cmd));
    let before = s.render.revision;
    s.apply(cmd, &blend_over);
    s.render.revision != before
}

#[test]
fn tile_coords_splits_positions() {
    assert_eq!(tile_coords(0, 0), ((0, 0), (0, 0)));
    assert_eq!(tile_coords(63, 64), ((0, 1), (63, 0)));
    assert_eq!(tile_coords(-1, -64), ((-1, -1), (63, 0)));
    assert_eq!(tile_coords(-65, 130), ((-2, 2), (63, 2)));
    assert_eq!(tile_coords(i32::MIN, i32::MAX), ((-33554432, 33554431), (0, 63)));
}

#[test]
fn tile_coords_round_trips() {
    for &(x, y) in &[(5, -7), (-129, 1000), (640, -640), (1, 0)] {
        let ((tx, ty), (lx, ly)) = tile_coords(x, y);
        assert_eq!(tx * 64 + lx as i32, x);
        assert_eq!(ty * 64 + ly as i32, y);
        assert!(lx < 64 && ly < 64);
    }
}

#[test]
fn default_state_is_blank_canvas() {
    let s = AppState::default();
    assert_eq!(s.canvas_width, DEFAULT_CANVAS_WIDTH);
    assert_eq!(s.canvas_height, DEFAULT_CANVAS_HEIGHT);
    assert_eq!(s.render.width, 512);
    assert_eq!(s.render.height, 512);
    assert_eq!(s.render.pixels.len(), 512 * 512 * 4);
    assert!(s.render.pixels.iter().all(|&b| b == 0));
    assert_eq!(s.render.revision, 1);
    assert!(s.layer_order.is_empty());
    assert!(s.selection.active_layer.is_none());
    assert_eq!(s.next_layer_n, 1);
    assert!(s.render_plan().is_empty());
}

#[test]
fn add_layer_names_and_selects() {
    let mut s = AppState::default();
    assert!(!run(&mut s, UiCmd::AddLayer));
    assert!(!run(&mut s, UiCmd::AddLayer));
    assert_eq!(s.layer_order.len(), 2);
    let (a, b) = (s.layer_order[0], s.layer_order[1]);
    assert_ne!(a, b);
    assert_eq!(layer_name_of(&s, a), "Layer 1");
    assert_eq!(layer_name_of(&s, b), "Layer 2");
    let layer = s.layer(b).unwrap();
    assert!(layer.visible && !layer.locked);
    assert_eq!(s.selection.active_layer, Some(b));
    assert!(objects_of(&s, a).is_empty());
    assert!(s.layer_objects.contains_key(&b.handle()));
    assert_eq!(s.next_layer_n, 3);
}

#[test]
fn layer_names_are_decimal() {
    assert_eq!(layer_name(0), "Layer 0");
    assert_eq!(layer_name(9), "Layer 9");
    assert_eq!(layer_name(10), "Layer 10");
    assert_eq!(layer_name(4294967295), "Layer 4294967295");
}

#[test]
fn remove_layer_drops_objects_and_moves_selection() {
    let mut s = AppState::default();
    run(&mut s, UiCmd::AddLayer);
    run(&mut s, UiCmd::AddLayer);
    let (a, b) = (s.layer_order[0], s.layer_order[1]);
    run(&mut s, UiCmd::AddImageObject { layer: b });
    let obj = objects_of(&s, b)[0];
    assert!(s.object(obj).is_some());
    assert!(run(&mut s, UiCmd::RemoveLayer { id: b }));
    assert_eq!(s.layer_order, vec![a]);
    assert!(s.layer(b).is_none());
    assert!(s.object(obj).is_none());
    assert!(!s.layer_objects.contains_key(&b.handle()));
    assert_eq!(s.selection.active_layer, Some(a));
    assert!(run(&mut s, UiCmd::RemoveLayer { id: a }));
    assert!(s.layer_order.is_empty());
    assert_eq!(s.selection.active_layer, None);
}

#[test]
fn remove_unselected_layer_keeps_selection() {
    let mut s = AppState::default();
    run(&mut s, UiCmd::AddLayer);
    run(&mut s, UiCmd::AddLayer);
    let (a, b) = (s.layer_order[0], s.layer_order[1]);
    run(&mut s, UiCmd::RemoveLayer { id: a });
    assert_eq!(s.selection.active_layer, Some(b));
    assert_eq!(s.layer_order, vec![b]);
}

#[test]
fn remove_after_add_restores_stack() {
    let mut s = AppState::default();
    run(&mut s, UiCmd::AddLayer);
    let before = s.layer_order.clone();
    run(&mut s, UiCmd::AddLayer);
    let new = *s.layer_order.last().unwrap();
    run(&mut s, UiCmd::RemoveLayer { id: new });
    assert_eq!(s.layer_order, before);
    assert!(s.layer(new).is_none());
    assert_eq!(s.layer_objects.len(), 1);
}

#[test]
fn rename_and_select_only_existing_layers() {
    let mut s = AppState::default();
    run(&mut s, UiCmd::AddLayer);
    run(&mut s, UiCmd::AddLayer);
    let (a, b) = (s.layer_order[0], s.layer_order[1]);
    assert!(!run(&mut s, UiCmd::RenameLayer { id: a, name: "Sky".to_string() }));
    assert_eq!(layer_name_of(&s, a), "Sky");
    assert_eq!(layer_name_of(&s, b), "Layer 2");
    run(&mut s, UiCmd::RenameLayer { id: LayerId::null(), name: "x".to_string() });
    assert_eq!(layer_name_of(&s, a), "Sky");
    assert!(!run(&mut s, UiCmd::SelectLayer { id: a }));
    assert_eq!(s.selection.active_layer, Some(a));
    run(&mut s, UiCmd::SelectLayer { id: LayerId::default() });
    assert_eq!(s.selection.active_layer, Some(a));
}

#[test]
fn move_layer_reorders_stack() {
    let mut s = AppState::default();
    for _ in 0..3 {
        run(&mut s, UiCmd::AddLayer);
    }
    let (a, b, c) = (s.layer_order[0], s.layer_order[1], s.layer_order[2]);
    assert!(run(&mut s, UiCmd::MoveLayer { id: a, new_index: 1 }));
    assert_eq!(s.layer_order, vec![b, a, c]);
    assert!(run(&mut s, UiCmd::MoveLayer { id: b, new_index: 99 }));
    assert_eq!(s.layer_order, vec![a, c, b]);
    assert!(run(&mut s, UiCmd::MoveLayer { id: b, new_index: 0 }));
    assert_eq!(s.layer_order, vec![b, a, c]);
    assert!(!run(&mut s, UiCmd::MoveLayer { id: LayerId::null(), new_index: 0 }));
    assert_eq!(s.layer_order, vec![b, a, c]);
}

#[test]
fn add_image_object_needs_existing_layer() {
    let mut s = AppState::default();
    run(&mut s, UiCmd::AddImageObject { layer: LayerId::null() });
    assert!(s.layer_objects.is_empty());
    run(&mut s, UiCmd::AddLayer);
    let a = s.layer_order[0];
    assert!(!run(&mut s, UiCmd::AddImageObject { layer: a }));
    assert!(!run(&mut s, UiCmd::AddImageObject { layer: a }));
    let objs = objects_of(&s, a);
    assert_eq!(objs.len(), 2);
    assert_ne!(objs[0], objs[1]);
    match s.object(objs[1]) {
        Some(Object::Image { source, origin, tiles, opacity, .. }) => {
            assert!(source.is_none());
            assert_eq!(*origin, (0, 0));
            assert_eq!(tiles.len(), 0);
            assert_eq!(*opacity, ONE_BITS);
            assert_eq!(f32::from_bits(*opacity), 1.0);
        },
        _ => panic!("expected an image object"),
    }
}

#[test]
fn paint_tile_and_opacity_feed_the_plan() {
    let mut s = AppState::default();
    run(&mut s, UiCmd::AddLayer);
    let a = s.layer_order[0];
    run(&mut s, UiCmd::AddImageObject { layer: a });
    let obj = objects_of(&s, a)[0];
    assert!(run(&mut s, UiCmd::PaintTile { object_id: obj, key: (1, 2), pixels: vec![[1, 2, 3, 4]; TILE_PIXELS] }));
    assert!(run(&mut s, UiCmd::PaintTile { object_id: obj, key: (0, 0), pixels: vec![[9, 9, 9, 9]; TILE_PIXELS] }));
    assert!(run(&mut s, UiCmd::PaintTile { object_id: obj, key: (1, 2), pixels: vec![[5, 6, 7, 8]; TILE_PIXELS] }));
    assert!(run(&mut s, UiCmd::SetOpacity { object_id: obj, value: 0.5f32.to_bits() }));
    assert!(!run(&mut s, UiCmd::SetOpacity { object_id: ObjectId::null(), value: 0 }));
    assert!(!run(&mut s, UiCmd::PaintTile { object_id: ObjectId::null(), key: (0, 0), pixels: vec![] }));
    let plan = s.render_plan();
    assert_eq!(plan.len(), 2);
    assert_eq!(plan[0].key, (1, 2));
    assert_eq!(plan[0].tile.pixels[0], [5, 6, 7, 8]);
    assert_eq!(plan[1].key, (0, 0));
    assert_eq!(f32::from_bits(plan[0].opacity), 0.5);
}

#[test]
fn hidden_layers_and_stack_order_in_plan() {
    let mut s = AppState::default();
    run(&mut s, UiCmd::AddLayer);
    run(&mut s, UiCmd::AddLayer);
    let (a, b) = (s.layer_order[0], s.layer_order[1]);
    run(&mut s, UiCmd::AddImageObject { layer: a });
    run(&mut s, UiCmd::AddImageObject { layer: b });
    let oa = objects_of(&s, a)[0];
    let ob = objects_of(&s, b)[0];
    run(&mut s, UiCmd::PaintTile { object_id: oa, key: (0, 0), pixels: vec![[1, 0, 0, 255]; TILE_PIXELS] });
    run(&mut s, UiCmd::PaintTile { object_id: ob, key: (0, 0), pixels: vec![[2, 0, 0, 255]; TILE_PIXELS] });
    let keys: Vec<u8> = s.render_plan().iter().map(|b| b.tile.pixels[0][0]).collect();
    assert_eq!(keys, vec![1, 2]);
    run(&mut s, UiCmd::MoveLayer { id: b, new_index: 0 });
    let keys: Vec<u8> = s.render_plan().iter().map(|b| b.tile.pixels[0][0]).collect();
    assert_eq!(keys, vec![2, 1]);
    s.layer_mut(a).visible = false;
    let keys: Vec<u8> = s.render_plan().iter().map(|b| b.tile.pixels[0][0]).collect();
    assert_eq!(keys, vec![2]);
}

#[test]
fn resize_canvas_keeps_sides_positive() {
    let mut s = AppState::default();
    assert!(run(&mut s, UiCmd::ResizeCanvas { width: 0, height: 0 }));
    assert_eq!((s.canvas_width, s.canvas_height), (1, 1));
    assert!(run(&mut s, UiCmd::ResizeCanvas { width: 300, height: 20 }));
    assert_eq!((s.canvas_width, s.canvas_height), (300, 20));
    assert_eq!(s.blank_canvas().len(), 300 * 20 * 4);
}

#[test]
fn ignored_commands_change_nothing() {
    let mut s = AppState::default();
    run(&mut s, UiCmd::AddLayer);
    let a = s.layer_order[0];
    assert!(!run(&mut s, UiCmd::PromptImport { layer: a }));
    assert!(!run(&mut s, UiCmd::Undo));
    assert!(!run(&mut s, UiCmd::Redo));
    assert_eq!(s.layer_order, vec![a]);
    assert_eq!(s.render.revision, 1);
}

#[test]
fn recompute_render_stores_canvas_and_counts() {
    let mut s = AppState::default();
    assert!(run(&mut s, UiCmd::ResizeCanvas { width: 2, height: 3 }));
    assert_eq!(s.render.revision, 2);
    s.render.pixels[5] = 7;
    s.recompute_render(&blend_over);
    assert_eq!((s.render.width, s.render.height), (2, 3));
    assert_eq!(s.render.pixels, vec![0u8; 24]);
    assert_eq!(s.render.revision, 3);
    s.render.revision = u64::MAX;
    s.recompute_render(&blend_over);
    assert_eq!(s.render.revision, 0);
}

#[test]
fn tile_raw_image_cuts_row_by_row() {
    let (w, h) = (65u32, 2u32);
    let mut pixels = Vec::new();
    for y in 0..h {
        for x in 0..w {
            pixels.extend_from_slice(&[x as u8, y as u8, 7, 255]);
        }
    }
    let raw = RawImage { width: w, height: h, pixels };
    let tiles = tile_raw_image(&raw, (0, 0));
    assert_eq!(tiles.len(), 2);
    assert_eq!(tiles.entry(0).0, (0, 0));
    assert_eq!(tiles.entry(1).0, (1, 0));
    let t0 = tiles.get((0, 0)).unwrap();
    assert_eq!(t0.pixels.len(), TILE_PIXELS);
    assert_eq!(t0.pixels[0], [0, 0, 7, 255]);
    assert_eq!(t0.pixels[64 + 5], [5, 1, 7, 255]);
    assert_eq!(t0.pixels[2 * 64], [0, 0, 0, 0]);
    let t1 = tiles.get((1, 0)).unwrap();
    assert_eq!(t1.pixels[0], [64, 0, 7, 255]);
    assert_eq!(t1.pixels[1], [0, 0, 0, 0]);
    assert_eq!(t1.pixels[64], [64, 1, 7, 255]);
}

#[test]
fn tile_raw_image_with_negative_origin() {
    let raw = RawImage { width: 2, height: 1, pixels: vec![1, 1, 1, 1, 2, 2, 2, 2] };
    let tiles = tile_raw_image(&raw, (-1, -1));
    assert_eq!(tiles.len(), 2);
    let left = tiles.get((-1, -1)).unwrap();
    assert_eq!(left.pixels[63 * 64 + 63], [1, 1, 1, 1]);
    let right = tiles.get((0, -1)).unwrap();
    assert_eq!(right.pixels[63 * 64], [2, 2, 2, 2]);
    assert_eq!(right.pixels[0], [0, 0, 0, 0]);
}

#[test]
fn tile_raw_image_of_empty_image_is_empty() {
    let raw = RawImage { width: 0, height: 5, pixels: vec![] };
    assert_eq!(tile_raw_image(&raw, (3, 3)).len(), 0);
}

#[test]
fn tile_map_insert_replaces_in_place() {
    let mut m = TileMap::new();
    m.insert((0, 0), lime_core::Tile { pixels: vec![[1, 1, 1, 1]] });
    m.insert((1, 0), lime_core::Tile { pixels: vec![[2, 2, 2, 2]] });
    m.insert((0, 0), lime_core::Tile { pixels: vec![[3, 3, 3, 3]] });
    assert_eq!(m.len(), 2);
    assert_eq!(m.entry(0).0, (0, 0));
    assert_eq!(m.get((0, 0)).unwrap().pixels[0], [3, 3, 3, 3]);
    assert_eq!(m.get((1, 0)).unwrap().pixels[0], [2, 2, 2, 2]);
    assert!(m.get((5, 5)).is_none());
}

#[test]
fn tile_map_tells_negative_keys_apart() {
    let mut m = TileMap::new();
    let keys = [(-1, 0), (0, -1), (-1, -1), (i32::MIN, i32::MAX), (i32::MAX, i32::MIN), (0, 0)];
    for (n, k) in keys.iter().enumerate() {
        m.insert(*k, lime_core::Tile { pixels: vec![[n as u8; 4]] });
    }
    assert_eq!(m.len(), keys.len());
    for (n, k) in keys.iter().enumerate() {
        assert_eq!(m.entry(n).0, *k);
        assert_eq!(m.entry(n).1.pixels[0], [n as u8; 4]);
        assert_eq!(m.get(*k).unwrap().pixels[0], [n as u8; 4]);
    }
    m.insert((-1, -1), lime_core::Tile { pixels: vec![[9; 4]] });
    assert_eq!(m.len(), keys.len());
    assert_eq!(m.entry(2).1.pixels[0], [9; 4]);
    assert_eq!(m.get((-1, 0)).unwrap().pixels[0], [0; 4]);
}

#[test]
fn blit_targets_clip_to_canvas() {
    let t = blit_targets(10, 5, 0, 0);
    assert_eq!(t.len(), 50);
    assert_eq!(t[0], (0, 0));
    assert_eq!(t[1], (4, 1));
    assert_eq!(t[10], (40, 64));
    assert_eq!(t[49], (196, 4 * 64 + 9));
    let t = blit_targets(100, 100, 1, 1);
    assert_eq!(t.len(), 36 * 36);
    assert_eq!(t[0], ((64 * 100 + 64) * 4, 0));
    assert!(blit_targets(100, 100, -1, 0).is_empty());
    assert!(blit_targets(100, 100, 2, 0).is_empty());
    assert!(blit_targets(0x8000_0000, 1, 0, 0).is_empty());
    let t = blit_targets(100, 100, 0, -1);
    assert!(t.is_empty());
}

#[test]
fn decode_image_reads_png() {
    let bytes = png_bytes(3, 2, (0u8..24).collect());
    let raw = decode_image(&bytes).expect("decodes");
    assert_eq!((raw.width, raw.height), (3, 2));
    assert_eq!(raw.pixels, (0u8..24).collect::<Vec<u8>>());
}

#[test]
fn decode_image_rejects_garbage() {
    assert!(decode_image(&[1, 2, 3, 4, 5]).is_none());
    assert!(decode_image(&[]).is_none());
}

#[test]
fn import_image_makes_tiled_object() {
    let mut s = AppState::default();
    run(&mut s, UiCmd::AddLayer);
    let a = s.layer_order[0];
    let bytes = png_bytes(70, 1, vec![200; 70 * 4]);
    assert!(!run(&mut s, UiCmd::ImportImage { layer: LayerId::null(), bytes: bytes.clone() }));
    assert!(s.layer_objects.get(&a.handle()).unwrap().is_empty());
    assert!(!run(&mut s, UiCmd::ImportImage { layer: a, bytes: vec![0, 1, 2] }));
    assert!(run(&mut s, UiCmd::ImportImage { layer: a, bytes }));
    let objs = objects_of(&s, a);
    assert_eq!(objs.len(), 1);
    match s.object(objs[0]) {
        Some(Object::Image { source, tiles, opacity, origin, .. }) => {
            assert!(source.is_some());
            assert_eq!(*origin, (0, 0));
            assert_eq!(*opacity, ONE_BITS);
            assert_eq!(tiles.len(), 2);
            assert_eq!(tiles.get((1, 0)).unwrap().pixels[5], [200, 200, 200, 200]);
            assert_eq!(tiles.get((1, 0)).unwrap().pixels[6], [0, 0, 0, 0]);
        },
        _ => panic!("expected an image object"),
    }
    assert_eq!(s.render_plan().len(), 2);
}

fn assert_consistent(s: &AppState) {
    let order: Vec<u64> = s.layer_order.iter().map(|id| id.handle()).collect();
    let mut sorted = order.clone();
    sorted.sort();
    sorted.dedup();
    assert_eq!(sorted.len(), order.len(), "a layer is stacked twice");
    for id in &s.layer_order {
        assert!(s.layer(*id).is_some(), "a stacked layer is missing");
    }
    let mut keys: Vec<u64> = s.layer_objects.keys().copied().collect();
    keys.sort();
    assert_eq!(keys, sorted, "object lists and layers differ");
    let mut listed: Vec<u64> = Vec::new();
    for objs in s.layer_objects.values() {
        for o in objs {
            assert!(s.object(*o).is_some(), "a listed object is missing");
            listed.push(o.handle());
        }
    }
    let n = listed.len();
    listed.sort();
    listed.dedup();
    assert_eq!(listed.len(), n, "an object is listed twice");
    if let Some(a) = s.selection.active_layer {
        assert!(s.layer(a).is_some(), "the selected layer is missing");
    }
}

#[test]
fn commands_keep_state_consistent() {
    let mut s = AppState::default();
    assert_consistent(&s);
    for _ in 0..4 {
        run(&mut s, UiCmd::AddLayer);
        assert_consistent(&s);
    }
    let ids = s.layer_order.clone();
    run(&mut s, UiCmd::AddImageObject { layer: ids[1] });
    run(&mut s, UiCmd::AddImageObject { layer: ids[1] });
    run(&mut s, UiCmd::AddImageObject { layer: ids[3] });
    assert_consistent(&s);
    run(&mut s, UiCmd::MoveLayer { id: ids[3], new_index: 0 });
    assert_consistent(&s);
    run(&mut s, UiCmd::SelectLayer { id: ids[1] });
    run(&mut s, UiCmd::RemoveLayer { id: ids[1] });
    assert_consistent(&s);
    assert_eq!(s.selection.active_layer, Some(*s.layer_order.last().unwrap()));
    run(&mut s, UiCmd::ImportImage { layer: ids[0], bytes: png_bytes(1, 1, vec![1, 2, 3, 4]) });
    assert_consistent(&s);
    run(&mut s, UiCmd::RemoveLayer { id: ids[0] });
    run(&mut s, UiCmd::RemoveLayer { id: ids[0] });
    assert_consistent(&s);
    assert_eq!(s.layer_order.len(), 2);
}

#[test]
fn move_layer_keeps_the_same_layers() {
    let mut s = AppState::default();
    for _ in 0..5 {
        run(&mut s, UiCmd::AddLayer);
    }
    let mut before: Vec<u64> = s.layer_order.iter().map(|i| i.handle()).collect();
    before.sort();
    for (k, idx) in [(0usize, 3usize), (4, 0), (2, 2), (1, 10)] {
        let id = s.layer_order[k];
        run(&mut s, UiCmd::MoveLayer { id, new_index: idx });
        let mut after: Vec<u64> = s.layer_order.iter().map(|i| i.handle()).collect();
        after.sort();
        assert_eq!(after, before);
    }
}

#[test]
fn tiling_keeps_every_pixel() {
    let (w, h) = (130u32, 70u32);
    let origin = (-3i32, 5i32);
    let mut pixels = Vec::new();
    for y in 0..h {
        for x in 0..w {
            pixels.extend_from_slice(&[x as u8, y as u8, (x + y) as u8, 9]);
        }
    }
    let raw = RawImage { width: w, height: h, pixels };
    let tiles = tile_raw_image(&raw, origin);
    assert_eq!(tiles.len(), 3 * 2);
    for y in 0..h as i32 {
        for x in 0..w as i32 {
            let (key, (lx, ly)) = tile_coords(origin.0 + x, origin.1 + y);
            let tile = tiles.get(key).expect("tile");
            assert_eq!(tile.pixels[(ly * 64 + lx) as usize], [x as u8, y as u8, (x + y) as u8, 9]);
        }
    }
}

#[test]
fn blit_targets_stay_inside_canvas() {
    for &(cw, ch) in &[(1u32, 1u32), (70, 3), (65, 130), (200, 129)] {
        for tx in -1..4 {
            for ty in -1..4 {
                let t = blit_targets(cw, ch, tx, ty);
                let mut dsts: Vec<usize> = t.iter().map(|p| p.0).collect();
                for &(d, s) in &t {
                    assert!(d + 4 <= (cw * ch * 4) as usize);
                    assert!(s < TILE_PIXELS);
                }
                let n = dsts.len();
                dsts.sort();
                dsts.dedup();
                assert_eq!(dsts.len(), n);
            }
        }
    }
}

#[test]
fn opaque_tiles_composite_to_their_pixels() {
    let mut s = AppState::default();
    run(&mut s, UiCmd::ResizeCanvas { width: 70, height: 2 });
    run(&mut s, UiCmd::AddLayer);
    let a = s.layer_order[0];
    run(&mut s, UiCmd::AddImageObject { layer: a });
    let obj = objects_of(&s, a)[0];
    run(&mut s, UiCmd::PaintTile { object_id: obj, key: (1, 0), pixels: vec![[10, 20, 30, 255]; TILE_PIXELS] });
    assert_eq!(s.render.revision, 3);
    let mut px = s.blank_canvas();
    for b in s.render_plan() {
        for (d, i) in blit_targets(s.canvas_width, s.canvas_height, b.key.0, b.key.1) {
            px[d..d + 4].copy_from_slice(&b.tile.pixels[i]);
        }
    }
    assert_eq!(s.render.pixels, px);
    assert_eq!(&s.render.pixels[0..4], &[0, 0, 0, 0]);
    assert_eq!(&s.render.pixels[64 * 4..65 * 4], &[10, 20, 30, 255]);
    assert_eq!(&s.render.pixels[(70 + 69) * 4..(70 + 70) * 4], &[10, 20, 30, 255]);
}

#[test]
fn resize_composites_a_blank_canvas() {
    let mut s = AppState::default();
    assert!(run(&mut s, UiCmd::ResizeCanvas { width: 0, height: 3 }));
    assert_eq!((s.canvas_width, s.canvas_height), (1, 3));
    assert_eq!((s.render.width, s.render.height), (1, 3));
    assert_eq!(s.render.pixels, vec![0u8; 12]);
    assert_eq!(s.render.revision, 2);
}

#[test]
fn rendering_commands_move_the_revision() {
    let mut s = AppState::default();
    assert!(!run(&mut s, UiCmd::AddLayer));
    assert!(run(&mut s, UiCmd::ResizeCanvas { width: 2, height: 1 }));
    let a = s.layer_order[0];
    assert!(!run(&mut s, UiCmd::AddImageObject { layer: a }));
    let o = objects_of(&s, a)[0];
    assert!(run(&mut s, UiCmd::PaintTile { object_id: o, key: (0, 0), pixels: vec![[255, 0, 0, 255]; TILE_PIXELS] }));
    assert_eq!(s.render.revision, 3);
    assert_eq!(s.render.pixels, vec![255, 0, 0, 255, 255, 0, 0, 255]);
    s.recompute_render(&blend_over);
    assert_eq!((s.render.width, s.render.height), (2, 1));
    assert_eq!(s.render.pixels, vec![255, 0, 0, 255, 255, 0, 0, 255]);
    assert_eq!(s.render.revision, 4);
}

#[test]
fn set_opacity_limits_to_unit_range() {
    let mut s = AppState::default();
    run(&mut s, UiCmd::AddLayer);
    let a = s.layer_order[0];
    run(&mut s, UiCmd::AddImageObject { layer: a });
    let o = objects_of(&s, a)[0];
    for v in [2.0f32, -0.5, 0.25, 1.0, 0.0, f32::INFINITY, f32::NEG_INFINITY, -0.0] {
        assert!(run(&mut s, UiCmd::SetOpacity { object_id: o, value: v.to_bits() }));
        match s.object(o) {
            Some(Object::Image { opacity, .. }) => assert_eq!(*opacity, v.clamp(0.0, 1.0).to_bits()),
            _ => panic!("expected an image object"),
        }
    }
    assert!(!run(&mut s, UiCmd::SetOpacity { object_id: ObjectId::null(), value: 2.0f32.to_bits() }));
}

#[test]
fn half_opacity_blends_over_the_layer_below() {
    let mut s = AppState::default();
    run(&mut s, UiCmd::ResizeCanvas { width: 1, height: 1 });
    run(&mut s, UiCmd::AddLayer);
    run(&mut s, UiCmd::AddLayer);
    let (a, b) = (s.layer_order[0], s.layer_order[1]);
    run(&mut s, UiCmd::AddImageObject { layer: a });
    run(&mut s, UiCmd::AddImageObject { layer: b });
    let (oa, ob) = (objects_of(&s, a)[0], objects_of(&s, b)[0]);
    run(&mut s, UiCmd::PaintTile { object_id: oa, key: (0, 0), pixels: vec![[0, 0, 255, 255]; TILE_PIXELS] });
    run(&mut s, UiCmd::PaintTile { object_id: ob, key: (0, 0), pixels: vec![[255, 0, 0, 255]; TILE_PIXELS] });
    assert_eq!(s.render.pixels, vec![255, 0, 0, 255]);
    run(&mut s, UiCmd::SetOpacity { object_id: ob, value: 0.5f32.to_bits() });
    assert_eq!(s.render.pixels, vec![128, 0, 128, 255]);
}

#[test]
fn hidden_layer_renders_as_if_left_out() {
    let mut s = AppState::default();
    run(&mut s, UiCmd::ResizeCanvas { width: 3, height: 2 });
    run(&mut s, UiCmd::AddLayer);
    run(&mut s, UiCmd::AddLayer);
    let (a, b) = (s.layer_order[0], s.layer_order[1]);
    run(&mut s, UiCmd::AddImageObject { layer: a });
    run(&mut s, UiCmd::AddImageObject { layer: b });
    let (oa, ob) = (objects_of(&s, a)[0], objects_of(&s, b)[0]);
    run(&mut s, UiCmd::PaintTile { object_id: oa, key: (0, 0), pixels: vec![[0, 0, 255, 255]; TILE_PIXELS] });
    run(&mut s, UiCmd::PaintTile { object_id: ob, key: (0, 0), pixels: vec![[255, 0, 0, 128]; TILE_PIXELS] });
    s.layer_mut(b).visible = false;
    s.recompute_render(&blend_over);
    let hidden = s.render.pixels.clone();
    s.layer_order.retain(|l| *l != b);
    s.recompute_render(&blend_over);
    assert_eq!(s.render.pixels, hidden);
    assert_eq!(hidden, [0, 0, 255, 255].repeat(6));
}

#[test]
fn recompute_after_apply_changes_only_the_revision() {
    let mut s = AppState::default();
    run(&mut s, UiCmd::ResizeCanvas { width: 65, height: 2 });
    run(&mut s, UiCmd::AddLayer);
    let a = s.layer_order[0];
    run(&mut s, UiCmd::ImportImage { layer: a, bytes: png_bytes(2, 1, vec![1, 2, 3, 255, 4, 5, 6, 128]) });
    let (px, rev) = (s.render.pixels.clone(), s.render.revision);
    s.recompute_render(&blend_over);
    assert_eq!(s.render.pixels, px);
    assert_eq!(s.render.revision, rev + 1);
    assert_eq!(&px[0..8], &[1, 2, 3, 255, 4, 5, 6, 128]);
}

#[test]
fn can_apply_guards_what_rendering_needs() {
    let mut s = AppState::default();
    run(&mut s, UiCmd::AddLayer);
    let a = s.layer_order[0];
    run(&mut s, UiCmd::AddImageObject { layer: a });
    let o = objects_of(&s, a)[0];
    assert!(!s.can_apply(&UiCmd::PaintTile { object_id: o, key: (0, 0), pixels: vec![[0, 0, 0, 0]; 10] }));
    assert!(!s.can_apply(&UiCmd::PaintTile { object_id: o, key: (0x200_0000, 0), pixels: vec![[0, 0, 0, 0]; TILE_PIXELS] }));
    assert!(s.can_apply(&UiCmd::PaintTile { object_id: o, key: (-0x200_0000, 0x1FF_FFFF), pixels: vec![[0, 0, 0, 0]; TILE_PIXELS] }));
    assert!(s.can_apply(&UiCmd::PaintTile { object_id: ObjectId::null(), key: (0, 0), pixels: vec![] }));
    assert!(!s.can_apply(&UiCmd::ResizeCanvas { width: u32::MAX, height: u32::MAX }));
    assert!(s.can_apply(&UiCmd::ResizeCanvas { width: 65536, height: 65536 }));
}
