use vstd::prelude::*;

verus! {

/// The sixteen keys of the hexadecimal keypad; `true` while a key is held.
pub type Keys = [bool; 16];

/// Delay, in milliseconds, between two emulation cycles when none is given.
pub const DEFAULT_DELAY_MS: u64 = 3;

/// What the emulator is started with.
pub struct Args {
    /// Path of the program to run.
    pub rom: String,
    /// Delay between two emulation cycles, in milliseconds.
    pub delay: u64,
}

/// The register file of the machine.
#[derive(Debug)]
pub struct Registers {
    /// General purpose registers V0 to VF.
    pub registers: [u8; 16],
    /// The address register I.
    pub index: u16,
    /// The delay timer.
    pub delay: u8,
    /// The sound timer.
    pub sound: u8,
    /// The program counter.
    pub pc: u16,
}

impl Default for Registers {
    fn default() -> (r: Registers)
        ensures
            forall|i: int| 0 <= i < 16 ==> r.registers[i] == 0u8,
            r.index == 0,
            r.delay == 0,
            r.sound == 0,
            r.pc == 0,
    {
        Registers { registers: [0u8; 16], index: 0, delay: 0, sound: 0, pc: 0 }
    }
}

} // verus!
