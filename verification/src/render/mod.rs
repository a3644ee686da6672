pub mod blend;
pub mod compositor;
