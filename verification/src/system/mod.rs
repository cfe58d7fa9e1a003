pub mod emulator;
