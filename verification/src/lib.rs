//! Game-model building blocks: grid directions, stack lists for item
//! containers, status signals, a character console map, random draws and
//! the in-world clock.

pub mod model;
pub mod utility;
