use vstd::prelude::*;

verus! {

/// Number of addressable bytes.
pub const MEMORY_SIZE: usize = 4096;

/// Address at which programs are loaded and execution starts.
pub const PROGRAM_START: u16 = 0x200;

/// The built-in hexadecimal font: one glyph of five rows for each digit 0 to F,
/// stored from address 0 so that the glyph of digit `d` starts at `d * 5`.
pub const FONT: [u8; 80] = [
    0xF0, 0x90, 0x90, 0x90, 0xF0,  // 0
    0x20, 0x60, 0x20, 0x20, 0x70,  // 1
    0xF0, 0x10, 0xF0, 0x80, 0xF0,  // 2
    0xF0, 0x10, 0xF0, 0x10, 0xF0,  // 3
    0x90, 0x90, 0xF0, 0x10, 0x10,  // 4
    0xF0, 0x80, 0xF0, 0x10, 0xF0,  // 5
    0xF0, 0x80, 0xF0, 0x90, 0xF0,  // 6
    0xF0, 0x10, 0x20, 0x40, 0x40,  // 7
    0xF0, 0x90, 0xF0, 0x90, 0xF0,  // 8
    0xF0, 0x90, 0xF0, 0x10, 0xF0,  // 9
    0xF0, 0x90, 0xF0, 0x90, 0x90,  // A
    0xE0, 0x90, 0xE0, 0x90, 0xE0,  // B
    0xF0, 0x80, 0x80, 0x80, 0xF0,  // C
    0xE0, 0x90, 0x90, 0x90, 0xE0,  // D
    0xF0, 0x80, 0xF0, 0x80, 0xF0,  // E
    0xF0, 0x80, 0xF0, 0x80, 0x80,  // F
];

/// The content of memory right after power-on: the font at address 0, zeros elsewhere.
pub open spec fn initial_ram() -> Seq<u8> {
    Seq::new(MEMORY_SIZE as nat, |a: int| if a < 80 { FONT@[a] } else { 0u8 })
}

/// The machine's memory: 4096 bytes of RAM and the call stack of return addresses.
pub struct Memory {
    /// The bytes of RAM, indexed by address.
    pub ram: [u8; 4096],
    /// Return addresses pushed by subroutine calls, the most recent last.
    pub stack: Vec<u16>,
}

impl View for Memory {
    type V = Seq<u8>;

    /// The bytes of RAM, indexed by address.
    open spec fn view(&self) -> Seq<u8> {
        self.ram@
    }
}

impl Memory {
    /// Fresh memory: the font at address 0, every other byte zero, an empty stack.
    pub fn new() -> (m: Memory)
        ensures
            m@ == initial_ram(),
            m.stack@ == Seq::<u16>::empty(),
    {
        let mut ram = [0u8; 4096];
        let mut i: usize = 0;
        while i < 80
            invariant
                i <= 80,
                ram@.len() == MEMORY_SIZE,
                forall|a: int| 0 <= a < i ==> ram@[a] == FONT@[a],
                forall|a: int| i <= a < MEMORY_SIZE ==> ram@[a] == 0u8,
            decreases 80 - i,
        {
            ram[i] = FONT[i];
            i = i + 1;
        }
        let m = Memory { ram, stack: Vec::new() };
        assert(m@ =~= initial_ram());
        m
    }

    /// The byte stored at `addr`.
    pub fn get(&self, addr: u16) -> (b: u8)
        requires
            addr < MEMORY_SIZE,
        ensures
            b == self@[addr as int],
    {
        self.ram[addr as usize]
    }

    /// Stores `value` at `addr`; every other byte and the stack are unchanged.
    pub fn set(&mut self, addr: u16, value: u8)
        requires
            addr < MEMORY_SIZE,
        ensures
            final(self)@ == old(self)@.update(addr as int, value),
            final(self).stack@ == old(self).stack@,
    {
        self.ram[addr as usize] = value;
    }

    /// A read gives back what the last write to the same address stored,
    /// and a write leaves every other address as it was.
    pub proof fn lemma_read_after_write(ram: Seq<u8>, addr: int, value: u8, other: int)
        requires
            0 <= addr < ram.len(),
            0 <= other < ram.len(),
        ensures
            ram.update(addr, value)[addr] == value,
            other != addr ==> ram.update(addr, value)[other] == ram[other],
    {
    }
}

} // verus!
