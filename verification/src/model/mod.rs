pub mod blend_mode;
pub mod color;
pub mod error;
pub mod layer;
pub mod selection;
pub mod path;
pub mod symmetry;
pub mod ids;
pub mod store;
pub mod palette;
