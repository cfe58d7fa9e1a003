pub mod graphics;
pub mod hardware;
pub mod system;
