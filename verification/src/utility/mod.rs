pub mod console;
pub mod random;
pub mod time;
