pub mod geometry;
pub mod brush;
pub mod pencil;
pub mod fill;
pub mod fill_tiles;
pub mod bucket;
pub mod select;
pub mod move_tool;
pub mod pen;
pub mod transform;
pub mod cursor;
pub mod laws;
