pub mod grid;
pub mod item;
pub mod status;
