pub mod cpu;
pub mod machine;
pub mod memory;
pub mod sprite;
pub mod laws;
