pub mod diff;
pub mod patch;
pub mod manager;
pub mod laws;
