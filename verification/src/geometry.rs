//! Tile coordinates: how canvas pixels map onto fixed-size square tiles.
use vstd::prelude::*;

verus! {

/// Width and height of a tile, in pixels.
pub const TILE_SIZE: u32 = 64;

/// Canvas width of a fresh document.
pub const DEFAULT_CANVAS_WIDTH: u32 = 512;

/// Canvas height of a fresh document.
pub const DEFAULT_CANVAS_HEIGHT: u32 = 512;

/// Grid coordinates `(tx, ty)` of a tile; the tile covers canvas columns
/// `tx * TILE_SIZE ..` and rows `ty * TILE_SIZE ..`.
pub type TileKey = (i32, i32);

/// The tile that holds canvas coordinate `v` along one axis (floor division).
pub open spec fn tile_of(v: int) -> int {
    v / (TILE_SIZE as int)
}

/// The offset of canvas coordinate `v` inside its tile.
pub open spec fn offset_in_tile(v: int) -> int {
    v % (TILE_SIZE as int)
}

/// Pixel `(lx, ly)` of a tile is pixel `ly * 64 + lx` in row-major order.
pub(crate) proof fn lemma_tile_cell(ly: int, lx: int)
    requires
        0 <= ly < 64,
        0 <= lx < 64,
    ensures
        (ly * 64 + lx) % 64 == lx,
        (ly * 64 + lx) / 64 == ly,
        0 <= ly * 64 + lx < 4096,
{
}

/// Splits a canvas position into the key of the tile that holds it and the
/// position inside that tile.
pub fn tile_coords(x: i32, y: i32) -> (res: (TileKey, (u32, u32)))
    ensures
        res.0.0 == tile_of(x as int),
        res.0.1 == tile_of(y as int),
        res.1.0 == offset_in_tile(x as int),
        res.1.1 == offset_in_tile(y as int),
        res.1.0 < TILE_SIZE,
        res.1.1 < TILE_SIZE,
        x == res.0.0 * (TILE_SIZE as int) + res.1.0,
        y == res.0.1 * (TILE_SIZE as int) + res.1.1,
{
    let ts: i32 = 64;
    let tx: i32 = match x.checked_div_euclid(ts) {
        Some(q) => q,
        None => 0,
    };
    let ty: i32 = match y.checked_div_euclid(ts) {
        Some(q) => q,
        None => 0,
    };
    let lx: i32 = match x.checked_rem_euclid(ts) {
        Some(r) => r,
        None => 0,
    };
    let ly: i32 = match y.checked_rem_euclid(ts) {
        Some(r) => r,
        None => 0,
    };
    ((tx, ty), (lx as u32, ly as u32))
}

} // verus!
