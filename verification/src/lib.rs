//! Core state of the Lime layered image editor: tiles, layers, objects, the
//! command interpreter that edits them, and the compositing of the canvas.

pub mod compose;
pub mod decode;
pub mod geometry;
pub mod laws;
pub mod model;
pub mod naming;
pub mod render;
pub mod slots;
pub mod state;
pub mod tiling;

pub use compose::blit_targets;
pub use decode::decode_image;
pub use geometry::{tile_coords, TileKey, DEFAULT_CANVAS_HEIGHT, DEFAULT_CANVAS_WIDTH, TILE_SIZE};
pub use model::{
    BlendMode, EffectKind, History, Layer, Object, Pixel, RawImage, Render, Selection, Tile,
    TileMap, TileSnapshot, Viewport, ONE_BITS, TILE_PIXELS, ZERO_BITS,
};
pub use naming::layer_name;
pub use slots::{ImageId, ImageSlots, LayerId, LayerSlots, ObjectId, ObjectSlots};
pub use state::{AppState, TileBlit, UiCmd};
pub use tiling::tile_raw_image;
