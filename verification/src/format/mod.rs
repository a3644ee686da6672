pub mod error;
pub mod bytes;
pub mod stream;
pub mod header;
pub mod block;
pub mod payload;
pub mod layer_payload;
pub mod hex_palette;
