pub mod format;
pub mod history;
pub mod model;
pub mod render;
pub mod tools;
