pub mod display;
pub mod grid;
