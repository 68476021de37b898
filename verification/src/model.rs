//! The document's data: tiles of pixels, image objects, layers, decoded
//! images and the rendered canvas.
use vstd::prelude::*;
use std::collections::HashMap;
use crate::geometry::TileKey;
use crate::slots::{ImageId, LayerId, ObjectId};

verus! {

broadcast use vstd::std_specs::hash::group_hash_axioms;

/// One RGBA pixel.
pub type Pixel = [u8; 4];

/// Number of pixels in a tile (`TILE_SIZE * TILE_SIZE`).
pub const TILE_PIXELS: usize = 4096;

/// A square of `TILE_SIZE` x `TILE_SIZE` pixels, stored row by row.
pub struct Tile {
    pub pixels: Vec<Pixel>,
}

/// Whether key `k` occurs in the first `n` entries.
pub open spec fn key_in_prefix(s: Seq<(TileKey, Tile)>, k: TileKey, n: int) -> bool {
    exists|i: int| 0 <= i < n && #[trigger] s[i].0 == k
}

/// Whether key `k` occurs among the entries.
pub open spec fn has_key(s: Seq<(TileKey, Tile)>, k: TileKey) -> bool {
    key_in_prefix(s, k, s.len() as int)
}

/// The position of the first entry with key `k` (meaningful when `has_key`).
pub open spec fn first_index(s: Seq<(TileKey, Tile)>, k: TileKey) -> int {
    choose|i: int| 0 <= i < s.len() && s[i].0 == k && !key_in_prefix(s, k, i)
}

/// The entries after storing `t` under `k`: the entry with key `k` is
/// replaced in place, or a new entry is appended.
pub open spec fn entries_insert(s: Seq<(TileKey, Tile)>, k: TileKey, t: Tile) -> Seq<(TileKey, Tile)> {
    if has_key(s, k) {
        s.update(first_index(s, k), (k, t))
    } else {
        s.push((k, t))
    }
}

/// No key occurs twice.
pub open spec fn keys_distinct(s: Seq<(TileKey, Tile)>) -> bool {
    forall|i: int, j: int| 0 <= i < j < s.len() ==> #[trigger] s[i].0 != #[trigger] s[j].0
}

/// The unsigned 32-bit pattern of an `i32` (`x as u32`), as a number.
pub open spec fn word_bits(x: i32) -> int {
    if x >= 0 {
        x as int
    } else {
        x + 0x1_0000_0000
    }
}

/// The 64-bit handle of a tile key: the column's bit pattern in the high
/// half, the row's in the low half.
pub open spec fn key_bits(k: TileKey) -> u64 {
    (word_bits(k.0) * 0x1_0000_0000 + word_bits(k.1)) as u64
}

/// Distinct tile keys have distinct handles.
pub proof fn lemma_key_bits_injective(a: TileKey, b: TileKey)
    ensures
        key_bits(a) == key_bits(b) ==> a == b,
{
    let (ua, va, ub, vb) = (word_bits(a.0), word_bits(a.1), word_bits(b.0), word_bits(b.1));
    assert(0 <= ua < 0x1_0000_0000 && 0 <= va < 0x1_0000_0000 && 0 <= ub < 0x1_0000_0000 && 0 <= vb < 0x1_0000_0000);
    assert(0 <= ua * 0x1_0000_0000 + va <= u64::MAX && 0 <= ub * 0x1_0000_0000 + vb <= u64::MAX) by (nonlinear_arith)
        requires
            0 <= ua < 0x1_0000_0000,
            0 <= va < 0x1_0000_0000,
            0 <= ub < 0x1_0000_0000,
            0 <= vb < 0x1_0000_0000,
    ;
    if key_bits(a) == key_bits(b) {
        assert(ua * 0x1_0000_0000 + va == ub * 0x1_0000_0000 + vb);
        assert(ua == ub && va == vb) by (nonlinear_arith)
            requires
                ua * 0x1_0000_0000 + va == ub * 0x1_0000_0000 + vb,
                0 <= va < 0x1_0000_0000,
                0 <= vb < 0x1_0000_0000,
        {
            if ua < ub {
                assert(ua * 0x1_0000_0000 + 0x1_0000_0000 <= ub * 0x1_0000_0000);
            } else if ub < ua {
                assert(ub * 0x1_0000_0000 + 0x1_0000_0000 <= ua * 0x1_0000_0000);
            }
        }
    }
}

/// The handle of tile key `k`.
fn key_bits_of(k: TileKey) -> (b: u64)
    ensures
        b == key_bits(k),
{
    let hi: u64 = if k.0 >= 0 {
        k.0 as u64
    } else {
        (k.0 as i64 + 0x1_0000_0000) as u64
    };
    let lo: u64 = if k.1 >= 0 {
        k.1 as u64
    } else {
        (k.1 as i64 + 0x1_0000_0000) as u64
    };
    assert(hi * 0x1_0000_0000 + lo <= u64::MAX) by (nonlinear_arith)
        requires
            hi < 0x1_0000_0000,
            lo < 0x1_0000_0000,
    ;
    hi * 0x1_0000_0000 + lo
}

/// No key of `order` is listed twice, and `tiles` holds exactly the
/// handles of the listed keys.
pub open spec fn parts_agree(order: Seq<TileKey>, tiles: Map<u64, Tile>) -> bool {
    &&& forall|i: int, j: int| 0 <= i < j < order.len() ==> order[i] != order[j]
    &&& forall|b: u64|
        #[trigger] tiles.contains_key(b) <==> exists|i: int| 0 <= i < order.len() && key_bits(#[trigger] order[i]) == b
}

/// The tiles of an image object, keyed by tile coordinates: a `HashMap`
/// from each key's 64-bit handle (`key_bits`) to its tile, and the keys in
/// the order in which they were first stored. Tiles are composited in that
/// order, so the render is a function of the document; the iteration order
/// of a `HashMap` depends on its per-process hasher seed.
pub struct TileMap {
    order: Vec<TileKey>,
    tiles: HashMap<u64, Tile>,
}

impl View for TileMap {
    type V = Seq<(TileKey, Tile)>;

    /// The entries, in the order their keys were first stored.
    closed spec fn view(&self) -> Seq<(TileKey, Tile)> {
        self.order@.map_values(|k: TileKey| (k, self.tiles@[key_bits(k)]))
    }
}

impl TileMap {
    /// No key is listed twice, and the map holds exactly the listed keys.
    #[verifier::type_invariant]
    closed spec fn well_formed(self) -> bool {
        parts_agree(self.order@, self.tiles@)
    }

    /// An empty tile map.
    pub fn new() -> (res: TileMap)
        ensures
            res@ == Seq::<(TileKey, Tile)>::empty(),
    {
        let res = TileMap { order: Vec::new(), tiles: HashMap::new() };
        assert(res@ =~= Seq::<(TileKey, Tile)>::empty());
        res
    }

    /// Number of tiles.
    pub fn len(&self) -> (n: usize)
        ensures
            n == self@.len(),
    {
        self.order.len()
    }

    /// The `i`-th entry, in storage order.
    pub fn entry(&self, i: usize) -> (e: (TileKey, &Tile))
        requires
            i < self@.len(),
        ensures
            (e.0, *e.1) == self@[i as int],
    {
        proof {
            use_type_invariant(self);
        }
        let k = self.order[i];
        let b = key_bits_of(k);
        assert(self.tiles@.contains_key(b));
        (k, self.tiles.get(&b).unwrap())
    }

    /// Where key `key` is stored, if anywhere: its position, the first
    /// with that key.
    proof fn lemma_found(&self, key: TileKey)
        requires
            self.well_formed(),
        ensures
            self.tiles@.contains_key(key_bits(key)) <==> has_key(self@, key),
            has_key(self@, key) ==> self@[first_index(self@, key)] == (key, self.tiles@[key_bits(key)]),
            keys_distinct(self@),
    {
        let b = key_bits(key);
        if self.tiles@.contains_key(b) {
            let i = choose|i: int| 0 <= i < self.order@.len() && key_bits(#[trigger] self.order@[i]) == b;
            lemma_key_bits_injective(self.order@[i], key);
            assert(self@[i].0 == key);
            assert(!key_in_prefix(self@, key, i)) by {
                if key_in_prefix(self@, key, i) {
                    let j = choose|j: int| 0 <= j < i && #[trigger] self@[j].0 == key;
                    assert(self.order@[j] == self.order@[i]);
                }
            }
            lemma_first_index(self@, key, i);
        }
        if has_key(self@, key) {
            let i = choose|i: int| 0 <= i < self@.len() && #[trigger] self@[i].0 == key;
            assert(key_bits(self.order@[i]) == b);
        }
        assert forall|i: int, j: int| 0 <= i < j < self@.len() implies #[trigger] self@[i].0 != #[trigger] self@[j].0 by {
            assert(self.order@[i] != self.order@[j]);
        }
    }

    /// The tile stored under `key`, if any.
    pub fn get(&self, key: TileKey) -> (r: Option<&Tile>)
        ensures
            match r {
                Some(t) => has_key(self@, key) && *t == self@[first_index(self@, key)].1,
                None => !has_key(self@, key),
            },
    {
        proof {
            use_type_invariant(self);
            self.lemma_found(key);
        }
        self.tiles.get(&key_bits_of(key))
    }

    /// Stores `tile` under `key`, replacing the tile stored there before.
    pub fn insert(&mut self, key: TileKey, tile: Tile)
        ensures
            final(self)@ == entries_insert(old(self)@, key, tile),
            keys_distinct(final(self)@),
    {
        proof {
            use_type_invariant(&*self);
            self.lemma_found(key);
        }
        let ghost old_view = self@;
        let ghost t = tile;
        let mut taken = TileMap::new();
        std::mem::swap(self, &mut taken);
        proof {
            use_type_invariant(&taken);
        }
        let TileMap { mut order, mut tiles } = taken;
        let ghost order0 = order@;
        let ghost tiles0 = tiles@;
        let b = key_bits_of(key);
        if tiles.contains_key(&b) {
            let ghost p = first_index(old_view, key);
            proof {
                assert(has_key(old_view, key));
                lemma_first_exists_key(old_view, key);
            }
            tiles.insert(b, tile);
            proof {
                assert forall|j: int| 0 <= j < order@.len() && j != p implies key_bits(#[trigger] order@[j]) != b by {
                    lemma_key_bits_injective(order@[j], key);
                    assert(old_view[j].0 == order@[j]);
                    if key_bits(order@[j]) == b {
                        assert(old_view[j].0 == old_view[p].0);
                        if j < p {
                            assert(old_view[j].0 != old_view[p].0);
                        } else {
                            assert(old_view[p].0 != old_view[j].0);
                        }
                    }
                }
                assert forall|c: u64| #[trigger] tiles@.contains_key(c) <==> exists|i: int|
                    0 <= i < order@.len() && key_bits(#[trigger] order@[i]) == c by {
                    assert(tiles@.contains_key(c) == tiles0.contains_key(c));
                }
                assert(order@.map_values(|k: TileKey| (k, tiles@[key_bits(k)])) =~= old_view.update(p, (key, t)));
            }
        } else {
            proof {
                assert forall|j: int| 0 <= j < order@.len() implies key_bits(#[trigger] order@[j]) != b by {}
            }
            order.push(key);
            tiles.insert(b, tile);
            proof {
                assert(order@.map_values(|k: TileKey| (k, tiles@[key_bits(k)])) =~= old_view.push((key, t)));
                assert forall|i: int, j: int| 0 <= i < j < order@.len() implies order@[i] != order@[j] by {
                    if j == order@.len() - 1 {
                        assert(key_bits(order@[i]) != b);
                    } else {
                        assert(order0[i] != order0[j]);
                    }
                }
                assert forall|c: u64| #[trigger] tiles@.contains_key(c) <==> exists|i: int|
                    0 <= i < order@.len() && key_bits(#[trigger] order@[i]) == c by {
                    if c == b {
                        assert(key_bits(order@[order@.len() - 1]) == c);
                    } else if tiles@.contains_key(c) {
                        assert(tiles0.contains_key(c));
                        let i = choose|i: int| 0 <= i < order0.len() && key_bits(#[trigger] order0[i]) == c;
                        assert(order@[i] == order0[i]);
                    } else {
                        if exists|i: int| 0 <= i < order@.len() && key_bits(#[trigger] order@[i]) == c {
                            let i = choose|i: int| 0 <= i < order@.len() && key_bits(#[trigger] order@[i]) == c;
                            assert(order0[i] == order@[i]);
                        }
                    }
                }
            }
        }
        assert(parts_agree(order@, tiles@));
        *self = TileMap { order, tiles };
        proof {
            self.lemma_found(key);
        }
    }
}

/// The entry at `i` is the first with its key, so it is the one that
/// `first_index` picks.
pub proof fn lemma_first_index(s: Seq<(TileKey, Tile)>, k: TileKey, i: int)
    requires
        0 <= i < s.len(),
        s[i].0 == k,
        !key_in_prefix(s, k, i),
    ensures
        has_key(s, k),
        first_index(s, k) == i,
{
    assert(key_in_prefix(s, k, s.len() as int)) by {
        assert(s[i].0 == k);
    }
    let j = first_index(s, k);
    assert(0 <= j < s.len() && s[j].0 == k && !key_in_prefix(s, k, j));
    if j < i {
        assert(key_in_prefix(s, k, i)) by {
            assert(s[j].0 == k);
        }
    } else if i < j {
        assert(key_in_prefix(s, k, j)) by {
            assert(s[i].0 == k);
        }
    }
}

/// A key that occurs has a first occurrence.
pub proof fn lemma_first_exists_key(s: Seq<(TileKey, Tile)>, k: TileKey)
    requires
        has_key(s, k),
    ensures
        0 <= first_index(s, k) < s.len(),
        s[first_index(s, k)].0 == k,
        !key_in_prefix(s, k, first_index(s, k)),
    decreases s.len(),
{
    let d = s.drop_last();
    if has_key(d, k) {
        lemma_first_exists_key(d, k);
        let p = first_index(d, k);
        assert(s[p] == d[p]);
        assert(!key_in_prefix(s, k, p)) by {
            if key_in_prefix(s, k, p) {
                let q = choose|q: int| 0 <= q < p && #[trigger] s[q].0 == k;
                assert(d[q].0 == k);
            }
        }
        lemma_first_index(s, k, p);
    } else {
        let p = s.len() - 1;
        let q = choose|q: int| 0 <= q < s.len() && #[trigger] s[q].0 == k;
        if q < p {
            assert(d[q].0 == k);
        }
        assert(!key_in_prefix(s, k, p)) by {
            if key_in_prefix(s, k, p) {
                let r = choose|r: int| 0 <= r < p && #[trigger] s[r].0 == k;
                assert(d[r].0 == k);
            }
        }
        lemma_first_index(s, k, p);
    }
}

/// How an object's pixels combine with what lies beneath.
#[derive(Clone, Copy, Debug, PartialEq, Eq, Structural)]
pub enum BlendMode {
    Normal,
}

impl Default for BlendMode {
    fn default() -> (r: BlendMode)
        ensures
            r == BlendMode::Normal,
    {
        BlendMode::Normal
    }
}

/// The kind of a procedural effect object.
#[derive(Clone, Copy, Debug)]
pub enum EffectKind {
    Placeholder,
}

/// Bit pattern of the `f32` value 1.0 (full opacity, unit zoom).
pub const ONE_BITS: u32 = 0x3F80_0000u32;

/// The bit pattern of `f32::from_bits(v).clamp(0.0, 1.0)`: a NaN stays as
/// it is; a negative value becomes 0.0, except -0.0, which compares equal
/// to 0.0 and stays; a value above 1.0 (positive infinity too) becomes 1.0.
pub open spec fn clamp_unit_bits(v: u32) -> u32 {
    if (v & 0x7F80_0000u32) == 0x7F80_0000u32 && (v & 0x007F_FFFFu32) != 0 {
        v
    } else if v >= 0x8000_0000u32 {
        if v == 0x8000_0000u32 {
            v
        } else {
            ZERO_BITS
        }
    } else if v > ONE_BITS {
        ONE_BITS
    } else {
        v
    }
}

/// Limits the `f32` whose bit pattern is `v` to `[0, 1]`, as
/// `f32::clamp(0.0, 1.0)` does, working on the bit pattern.
pub fn clamp_unit(v: u32) -> (r: u32)
    ensures
        r == clamp_unit_bits(v),
{
    if (v & 0x7F80_0000u32) == 0x7F80_0000u32 && (v & 0x007F_FFFFu32) != 0 {
        v
    } else if v >= 0x8000_0000u32 {
        if v == 0x8000_0000u32 {
            v
        } else {
            ZERO_BITS
        }
    } else if v > ONE_BITS {
        ONE_BITS
    } else {
        v
    }
}

/// The bit pattern `v` is that of an `f32` NaN: every exponent bit set and
/// a nonzero fraction.
pub open spec fn is_nan_bits(v: u32) -> bool {
    (v & 0x7F80_0000u32) == 0x7F80_0000u32 && (v & 0x007F_FFFFu32) != 0u32
}

/// Limiting to `[0, 1]`, by value. Non-negative `f32` values are ordered as
/// their bit patterns are (0.0 is `0`, 1.0 is `ONE_BITS`, +infinity is
/// `0x7F80_0000`), and negative ones run from `0x8000_0000` (-0.0) to
/// `0xFF80_0000` (-infinity). So: every value in `[0, 1]` is kept as it is;
/// every value above 1.0, +infinity included, becomes 1.0; every value
/// below -0.0, -infinity included, becomes 0.0; -0.0 and NaN stay.
pub proof fn clamp_unit_by_value(v: u32)
    ensures
        v <= ONE_BITS ==> clamp_unit_bits(v) == v,
        ONE_BITS < v <= 0x7F80_0000u32 ==> clamp_unit_bits(v) == ONE_BITS,
        0x8000_0000u32 < v <= 0xFF80_0000u32 ==> clamp_unit_bits(v) == ZERO_BITS,
        v == 0x8000_0000u32 ==> clamp_unit_bits(v) == v,
        is_nan_bits(v) ==> clamp_unit_bits(v) == v,
        clamp_unit_bits(v) <= ONE_BITS || clamp_unit_bits(v) == 0x8000_0000u32 || is_nan_bits(clamp_unit_bits(v)),
{
    assert(v <= 0x7F80_0000u32 ==> !((v & 0x7F80_0000u32) == 0x7F80_0000u32 && (v & 0x007F_FFFFu32) != 0u32)) by (bit_vector);
    assert(0x8000_0000u32 <= v <= 0xFF80_0000u32 ==> !((v & 0x7F80_0000u32) == 0x7F80_0000u32 && (v & 0x007F_FFFFu32)
        != 0u32)) by (bit_vector);
    assert(ZERO_BITS == 0);
}

/// Something a layer holds.
///
/// An opacity is kept as the bit pattern of an `f32` in `[0, 1]`
/// (`f32::to_bits`); the blend function that composites the canvas reads it.
pub enum Object {
    Image {
        source: Option<ImageId>,
        origin: (i32, i32),
        tiles: TileMap,
        blend: BlendMode,
        opacity: u32,
    },
    Effect {
        kind: EffectKind,
        density: Vec<u8>,
    },
}

/// A layer of the document.
pub struct Layer {
    pub name: String,
    pub visible: bool,
    pub locked: bool,
}

/// A decoded image: `width * height` RGBA pixels, row by row, four bytes each.
pub struct RawImage {
    pub width: u32,
    pub height: u32,
    pub pixels: Vec<u8>,
}

/// The composited canvas: `width * height` RGBA pixels, and a counter that
/// changes each time the canvas is recomposited.
pub struct Render {
    pub width: u32,
    pub height: u32,
    pub pixels: Vec<u8>,
    pub revision: u64,
}

impl Default for Render {
    fn default() -> (r: Render)
        ensures
            r.width == 0,
            r.height == 0,
            r.pixels@ == Seq::<u8>::empty(),
            r.revision == 0,
    {
        Render { width: 0, height: 0, pixels: Vec::new(), revision: 0 }
    }
}

/// What the user has selected.
pub struct Selection {
    pub active_layer: Option<LayerId>,
    pub active_object: Option<ObjectId>,
}

impl Default for Selection {
    fn default() -> (r: Selection)
        ensures
            r.active_layer is None,
            r.active_object is None,
    {
        Selection { active_layer: None, active_object: None }
    }
}

/// The pixels of one tile before and after an edit.
pub struct TileSnapshot {
    pub object_id: ObjectId,
    pub key: TileKey,
    pub before: Vec<Pixel>,
    pub after: Vec<Pixel>,
}

/// Edits that can be undone (`past`) and redone (`future`).
pub struct History {
    pub past: Vec<Vec<TileSnapshot>>,
    pub future: Vec<Vec<TileSnapshot>>,
}

impl Default for History {
    fn default() -> (r: History)
        ensures
            r.past@ == Seq::<Vec<TileSnapshot>>::empty(),
            r.future@ == Seq::<Vec<TileSnapshot>>::empty(),
    {
        History { past: Vec::new(), future: Vec::new() }
    }
}

/// Where the canvas is shown: pan offset and zoom factor, each the bit
/// pattern of an `f32` (`f32::to_bits`).
pub struct Viewport {
    pub offset: (u32, u32),
    pub zoom: u32,
}

/// Bit pattern of the `f32` value 0.0.
pub const ZERO_BITS: u32 = 0u32;

impl Default for Viewport {
    fn default() -> (r: Viewport)
        ensures
            r.offset == (ZERO_BITS, ZERO_BITS),
            r.zoom == ONE_BITS,
    {
        Viewport { offset: (ZERO_BITS, ZERO_BITS), zoom: ONE_BITS }
    }
}

} // verus!
