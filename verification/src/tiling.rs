//! Cutting a decoded image into tiles.
use vstd::prelude::*;
use crate::geometry::{lemma_tile_cell, tile_of, TileKey};
use crate::model::{has_key, Pixel, RawImage, Tile, TileMap, TILE_PIXELS};
use crate::render::{tile_ok, tiles_ok};

verus! {

/// Whether `raw`, placed with its top-left pixel at canvas position
/// `origin`, can be tiled with `i32` arithmetic and every pixel it claims
/// to have is present.
pub open spec fn tiling_fits(raw: &RawImage, origin: (i32, i32)) -> bool {
    raw.width == 0 || raw.height == 0 || {
        &&& raw.pixels@.len() >= raw.width * raw.height * 4
        &&& raw.width * raw.height <= 0x8000_0000
        &&& raw.width + 62 <= i32::MAX
        &&& raw.height + 62 <= i32::MAX
        &&& origin.0 + raw.width <= i32::MAX
        &&& origin.1 + raw.height <= i32::MAX
    }
}

/// Number of tile columns that the image touches.
pub open spec fn tile_cols(raw: &RawImage, origin: (i32, i32)) -> int {
    if raw.width == 0 || raw.height == 0 {
        0
    } else {
        tile_of(origin.0 + raw.width - 1) - tile_of(origin.0 as int) + 1
    }
}

/// Number of tile rows that the image touches.
pub open spec fn tile_rows(raw: &RawImage, origin: (i32, i32)) -> int {
    if raw.width == 0 || raw.height == 0 {
        0
    } else {
        tile_of(origin.1 + raw.height - 1) - tile_of(origin.1 as int) + 1
    }
}

/// The four bytes that pixel `i` (row-major) of tile `(tx, ty)` takes from
/// the image: the image pixel under it, or transparent black where the tile
/// reaches past the image.
pub open spec fn source_pixel(raw: &RawImage, origin: (i32, i32), tx: int, ty: int, i: int) -> Seq<u8> {
    let x = tx * 64 + i % 64 - origin.0;
    let y = ty * 64 + i / 64 - origin.1;
    if 0 <= x < raw.width && 0 <= y < raw.height {
        let b = (y * raw.width + x) * 4;
        raw.pixels@.subrange(b, b + 4)
    } else {
        seq![0u8, 0u8, 0u8, 0u8]
    }
}

/// `px` is the content of tile `(tx, ty)` cut from the image.
pub open spec fn tile_holds(raw: &RawImage, origin: (i32, i32), tx: int, ty: int, px: Seq<Pixel>) -> bool {
    &&& px.len() == TILE_PIXELS
    &&& forall|i: int| 0 <= i < TILE_PIXELS ==> #[trigger] px[i]@ == source_pixel(raw, origin, tx, ty, i)
}

/// Position of the tile in row `row`, column `col` of a grid `cols` wide,
/// counting row by row.
pub open spec fn grid_index(row: int, col: int, cols: int) -> int {
    row * cols + col
}

/// Entry `e` is tile `(tx, ty)` of the image.
pub open spec fn tiling_entry(raw: &RawImage, origin: (i32, i32), e: (TileKey, Tile), tx: int, ty: int) -> bool {
    &&& e.0.0 == tx
    &&& e.0.1 == ty
    &&& tile_holds(raw, origin, tx, ty, e.1.pixels@)
}

/// `s` holds, row by row, every tile that the image touches, each cut from
/// the image.
pub open spec fn is_tiling(raw: &RawImage, origin: (i32, i32), s: Seq<(TileKey, Tile)>) -> bool {
    let cols = tile_cols(raw, origin);
    let rows = tile_rows(raw, origin);
    &&& s.len() == rows * cols
    &&& forall|row: int, col: int|
        0 <= row < rows && 0 <= col < cols ==> #[trigger] tiling_entry(
            raw,
            origin,
            s[grid_index(row, col, cols)],
            tile_of(origin.0 as int) + col,
            tile_of(origin.1 as int) + row,
        )
}

/// `v == 64 * tile_of(v) + offset`, with the offset in `0..64`.
proof fn lemma_tile_of(v: int)
    ensures
        tile_of(v) * 64 <= v < tile_of(v) * 64 + 64,
{
}

proof fn lemma_image_index(x: int, y: int, w: int, h: int)
    requires
        0 <= x < w,
        0 <= y < h,
    ensures
        0 <= y * w + x < w * h,
        y * w <= w * h - w,
        (y * w + x) * 4 + 4 <= w * h * 4,
{
    assert(y * w + x < w * h && y * w <= w * h - w && 0 <= y * w && (y * w + x) * 4 + 4 <= w * h * 4) by (nonlinear_arith)
        requires
            0 <= x < w,
            0 <= y < h,
    ;
}

/// Cuts tile `(tx, ty)` out of the image.
fn tile_pixels(raw: &RawImage, origin: (i32, i32), w: i32, h: i32, tx: i32, ty: i32) -> (px: Vec<Pixel>)
    requires
        tiling_fits(raw, origin),
        w == raw.width,
        h == raw.height,
        w > 0,
        h > 0,
        tile_of(origin.0 as int) <= tx <= tile_of(origin.0 + raw.width - 1),
        tile_of(origin.1 as int) <= ty <= tile_of(origin.1 + raw.height - 1),
    ensures
        tile_holds(raw, origin, tx as int, ty as int, px@),
{
    let ts: i32 = 64;
    let mut tile_px: Vec<Pixel> = vec![[0u8; 4]; TILE_PIXELS];
    proof {
        lemma_tile_of(origin.0 as int);
        lemma_tile_of(origin.1 as int);
        lemma_tile_of(origin.0 + raw.width - 1);
        lemma_tile_of(origin.1 + raw.height - 1);
    }
    let tox = tx * ts;
    let toy = ty * ts;
    for ly in 0..ts
        invariant
            tiling_fits(raw, origin),
            w == raw.width,
            h == raw.height,
            w > 0,
            h > 0,
            tox == tx * 64,
            toy == ty * 64,
            tile_of(origin.0 as int) * 64 <= tox <= origin.0 + raw.width - 1,
            tile_of(origin.1 as int) * 64 <= toy <= origin.1 + raw.height - 1,
            tile_of(origin.0 as int) * 64 <= origin.0 < tile_of(origin.0 as int) * 64 + 64,
            tile_of(origin.1 as int) * 64 <= origin.1 < tile_of(origin.1 as int) * 64 + 64,
            ts == 64,
            tox <= i32::MAX - 63,
            toy <= i32::MAX - 63,
            tile_px@.len() == TILE_PIXELS,
            forall|i: int|
                0 <= i < TILE_PIXELS ==> #[trigger] tile_px@[i]@ == (if i < ly * 64 {
                    source_pixel(raw, origin, tx as int, ty as int, i)
                } else {
                    seq![0u8, 0u8, 0u8, 0u8]
                }),
    {
        let py = toy + ly - origin.1;
        if py < 0 || py >= h {
            assert forall|i: int| 0 <= i < TILE_PIXELS implies #[trigger] tile_px@[i]@ == (if i < (ly + 1) * 64 {
                source_pixel(raw, origin, tx as int, ty as int, i)
            } else {
                seq![0u8, 0u8, 0u8, 0u8]
            }) by {
                if ly * 64 <= i < (ly + 1) * 64 {
                    assert(i / 64 == ly);
                }
            }
        } else {
            for lx in 0..ts
                invariant
                    tiling_fits(raw, origin),
                    w == raw.width,
                    h == raw.height,
                    w > 0,
                    h > 0,
                    0 <= ly < 64,
                    tox == tx * 64,
                    toy == ty * 64,
                    py == toy + ly - origin.1,
                    0 <= py < h,
                    tile_of(origin.0 as int) * 64 <= tox <= origin.0 + raw.width - 1,
                    tile_of(origin.0 as int) * 64 <= origin.0 < tile_of(origin.0 as int) * 64 + 64,
                    ts == 64,
                    tox <= i32::MAX - 63,
                    tile_px@.len() == TILE_PIXELS,
                    forall|i: int|
                        0 <= i < TILE_PIXELS ==> #[trigger] tile_px@[i]@ == (if i < ly * 64 + lx {
                            source_pixel(raw, origin, tx as int, ty as int, i)
                        } else {
                            seq![0u8, 0u8, 0u8, 0u8]
                        }),
            {
                let px = tox + lx - origin.0;
                proof {
                    lemma_tile_cell(ly as int, lx as int);
                }
                if px >= 0 && px < w {
                    proof {
                        lemma_image_index(px as int, py as int, w as int, h as int);
                    }
                    let lin: i32 = py * w + px;
                    let byte_len: usize = raw.pixels.len();
                    assert(lin as usize * 4 + 4 <= byte_len);
                    let i = lin as usize * 4;
                    let cell = (ly * ts + lx) as usize;
                    let p: Pixel = [raw.pixels[i], raw.pixels[i + 1], raw.pixels[i + 2], raw.pixels[i + 3]];
                    proof {
                        assert(p@ =~= raw.pixels@.subrange(i as int, i + 4));
                    }
                    tile_px.set(cell, p);
                }
            }
        }
    }
    tile_px
}

proof fn lemma_grid(row: int, col: int, cols: int, rows: int)
    requires
        0 <= row < rows,
        0 <= col < cols,
    ensures
        0 <= grid_index(row, col, cols) < rows * cols,
        grid_index(row, col, cols) < (row + 1) * cols,
        row * cols <= grid_index(row, col, cols),
{
    assert(0 <= row * cols + col < rows * cols && row * cols + col < (row + 1) * cols && row * cols <= row * cols + col) by (nonlinear_arith)
        requires
            0 <= row < rows,
            0 <= col < cols,
    ;
}

/// Cuts the image, placed with its top-left pixel at canvas position
/// `origin`, into the tiles it touches. Every pixel of a tile that lies
/// outside the image is transparent black.
pub fn tile_raw_image(raw: &RawImage, origin: (i32, i32)) -> (tiles: TileMap)
    requires
        tiling_fits(raw, origin),
    ensures
        is_tiling(raw, origin, tiles@),
{
    let mut tiles = TileMap::new();
    if raw.width == 0 || raw.height == 0 {
        assert(tile_rows(raw, origin) == 0);
        assert(tile_rows(raw, origin) * tile_cols(raw, origin) == 0);
        return tiles;
    }
    let ts: i32 = 64;
    let w = raw.width as i32;
    let h = raw.height as i32;
    proof {
        lemma_tile_of(origin.0 as int);
        lemma_tile_of(origin.1 as int);
        lemma_tile_of(origin.0 + raw.width - 1);
        lemma_tile_of(origin.1 + raw.height - 1);
    }
    let tx0 = floor_div(origin.0, ts);
    let ty0 = floor_div(origin.1, ts);
    let tx1 = floor_div(origin.0 + w - 1, ts);
    let ty1 = floor_div(origin.1 + h - 1, ts);
    let ghost cols = tile_cols(raw, origin);
    let ghost rows = tile_rows(raw, origin);
    assert(cols == tx1 - tx0 + 1);
    assert(rows == ty1 - ty0 + 1);
    let mut ty = ty0;
    while ty <= ty1
        invariant
            tiling_fits(raw, origin),
            w == raw.width,
            h == raw.height,
            w > 0,
            h > 0,
            tx0 == tile_of(origin.0 as int),
            ty0 == tile_of(origin.1 as int),
            tx1 == tile_of(origin.0 + raw.width - 1),
            ty1 == tile_of(origin.1 + raw.height - 1),
            tx0 <= tx1 <= i32::MAX / 64,
            ty0 <= ty1 <= i32::MAX / 64,
            cols == tx1 - tx0 + 1,
            rows == ty1 - ty0 + 1,
            ty0 <= ty <= ty1 + 1,
            tiles@.len() == (ty - ty0) * cols,
            forall|row: int, col: int|
                0 <= row < ty - ty0 && 0 <= col < cols ==> #[trigger] tiling_entry(
                    raw,
                    origin,
                    tiles@[grid_index(row, col, cols)],
                    tx0 + col,
                    ty0 + row,
                ),
        decreases ty1 + 1 - ty,
    {
        let mut tx = tx0;
        let ghost row_start = tiles@.len();
        assert(row_start == (ty - ty0) * cols);
        while tx <= tx1
            invariant
                tiling_fits(raw, origin),
                w == raw.width,
                h == raw.height,
                w > 0,
                h > 0,
                tx0 == tile_of(origin.0 as int),
                ty0 == tile_of(origin.1 as int),
                tx1 == tile_of(origin.0 + raw.width - 1),
                ty1 == tile_of(origin.1 + raw.height - 1),
                tx0 <= tx1 <= i32::MAX / 64,
                cols == tx1 - tx0 + 1,
                ty0 <= ty <= ty1,
                tx0 <= tx <= tx1 + 1,
                row_start == (ty - ty0) * cols,
                tiles@.len() == row_start + (tx - tx0),
                forall|row: int, col: int|
                    0 <= row < ty - ty0 && 0 <= col < cols ==> #[trigger] tiling_entry(
                        raw,
                        origin,
                        tiles@[grid_index(row, col, cols)],
                        tx0 + col,
                        ty0 + row,
                    ),
                forall|col: int|
                    0 <= col < tx - tx0 ==> #[trigger] tiling_entry(
                        raw,
                        origin,
                        tiles@[row_start + col],
                        tx0 + col,
                        ty as int,
                    ),
            decreases tx1 + 1 - tx,
        {
            let pixels = tile_pixels(raw, origin, w, h, tx, ty);
            let ghost before = tiles@;
            proof {
                assert(!has_key(before, (tx, ty))) by {
                    if has_key(before, (tx, ty)) {
                        let j = choose|j: int| 0 <= j < before.len() && #[trigger] before[j].0 == (tx, ty);
                        if j < row_start {
                            let (r, c) = lemma_grid_position(j, ty - ty0, cols);
                            assert(tiling_entry(raw, origin, before[grid_index(r, c, cols)], tx0 + c, ty0 + r));
                        } else {
                            assert(tiling_entry(raw, origin, before[row_start + (j - row_start)], tx0 + (j - row_start), ty as int));
                        }
                    }
                }
            }
            tiles.insert((tx, ty), Tile { pixels });
            assert forall|row: int, col: int|
                0 <= row < ty - ty0 && 0 <= col < cols implies #[trigger] tiling_entry(
                    raw,
                    origin,
                    tiles@[grid_index(row, col, cols)],
                    tx0 + col,
                    ty0 + row,
                ) by {
                lemma_grid(row, col, cols, ty - ty0);
                assert(tiles@[grid_index(row, col, cols)] == before[grid_index(row, col, cols)]);
            }
            assert forall|col: int|
                0 <= col < tx + 1 - tx0 implies #[trigger] tiling_entry(
                    raw,
                    origin,
                    tiles@[row_start + col],
                    tx0 + col,
                    ty as int,
                ) by {
                if col < tx - tx0 {
                    assert(tiles@[row_start + col] == before[row_start + col]);
                }
            }
            tx = tx + 1;
        }
        assert forall|row: int, col: int|
            0 <= row < ty + 1 - ty0 && 0 <= col < cols implies #[trigger] tiling_entry(
                raw,
                origin,
                tiles@[grid_index(row, col, cols)],
                tx0 + col,
                ty0 + row,
            ) by {
            if row == ty - ty0 {
                assert(grid_index(row, col, cols) == row_start + col);
            }
        }
        assert((ty - ty0) * cols + cols == (ty + 1 - ty0) * cols) by (nonlinear_arith);
        ty = ty + 1;
    }
    tiles
}

/// Floor division by a positive divisor.
fn floor_div(v: i32, d: i32) -> (q: i32)
    requires
        d == 64,
    ensures
        q == tile_of(v as int),
{
    match v.checked_div_euclid(d) {
        Some(q) => q,
        None => 0,
    }
}

/// Every position of a tiling is the grid position of some tile.
pub(crate) proof fn lemma_grid_position(j: int, rows: int, cols: int) -> (rc: (int, int))
    requires
        0 <= j < rows * cols,
        0 < cols,
    ensures
        0 <= rc.0 < rows,
        0 <= rc.1 < cols,
        grid_index(rc.0, rc.1, cols) == j,
{
    vstd::arithmetic::div_mod::lemma_fundamental_div_mod(j, cols);
    vstd::arithmetic::div_mod::lemma_div_pos_is_pos(j, cols);
    assert(rows * cols == cols * rows) by (nonlinear_arith);
    vstd::arithmetic::div_mod::lemma_multiply_divide_lt(j, cols, rows);
    assert(cols * (j / cols) == (j / cols) * cols) by (nonlinear_arith);
    (j / cols, j % cols)
}

/// The tiles of an image that `tile_raw_image` can cut can be composited:
/// their grid positions are within reach of the tile arithmetic and each
/// holds a full tile of pixels.
pub(crate) proof fn lemma_tiling_tiles_ok(raw: &RawImage, origin: (i32, i32), s: Seq<(TileKey, Tile)>)
    requires
        tiling_fits(raw, origin),
        is_tiling(raw, origin, s),
    ensures
        tiles_ok(s),
{
    let rows = tile_rows(raw, origin);
    let cols = tile_cols(raw, origin);
    assert forall|k: int| #![trigger s[k]] 0 <= k < s.len() implies tile_ok(s[k].0, s[k].1) by {
        if cols <= 0 {
            assert(rows * cols <= 0) by (nonlinear_arith)
                requires
                    cols <= 0,
                    rows >= 0,
            {
            }
        }
        let (r, c) = lemma_grid_position(k, rows, cols);
        assert(tiling_entry(raw, origin, s[grid_index(r, c, cols)], tile_of(origin.0 as int) + c, tile_of(origin.1 as int) + r));
        lemma_tile_of(origin.0 as int);
        lemma_tile_of(origin.1 as int);
        lemma_tile_of(origin.0 + raw.width - 1);
        lemma_tile_of(origin.1 + raw.height - 1);
    }
}

} // verus!
