use vstd::prelude::*;
use crate::graphics::grid::{box_col, box_row, byte_shows, color_byte, DISPLAY_LEN};
use crate::hardware::memory::{MEMORY_SIZE, PROGRAM_START};

verus! {

/// What the processor asks of its surroundings after executing an instruction.
#[derive(Debug, Clone, Copy, PartialEq, Eq, Structural)]
pub enum Execution {
    /// The instruction is done; go on with the next one.
    Done,
    /// A key press was recorded in a register; wait until this key is released.
    WaitForKeyRelease(u8),
    /// The instruction matches no known opcode and was ignored.
    UnknownOpcode,
}

/// The abstract state of the machine.
#[verifier::ext_equal]
pub struct Machine {
    /// Registers V0 to VF.
    pub v: Seq<u8>,
    /// The address register I.
    pub index: u16,
    /// The delay timer.
    pub delay: u8,
    /// The sound timer.
    pub sound: u8,
    /// The program counter.
    pub pc: u16,
    /// The bytes of memory.
    pub ram: Seq<u8>,
    /// Return addresses, the most recent last.
    pub stack: Seq<u16>,
    /// The screen cells, by column then row.
    pub cells: Seq<Seq<u8>>,
    /// The RGBA frame buffer.
    pub display: Seq<u8>,
    /// The keypad; `true` while a key is held.
    pub keys: Seq<bool>,
}

/// The screen cells hold 0 or 1, the frame shows them, and every part has its size.
pub open spec fn machine_wf(m: Machine) -> bool {
    &&& m.v.len() == 16
    &&& m.ram.len() == MEMORY_SIZE
    &&& m.keys.len() == 16
    &&& m.cells.len() == 64
    &&& forall|x: int| 0 <= x < 64 ==> (#[trigger] m.cells[x]).len() == 32
    &&& forall|x: int, y: int| 0 <= x < 64 && 0 <= y < 32 ==> #[trigger] m.cells[x][y] <= 1
    &&& m.display.len() == DISPLAY_LEN
    &&& forall|j: int|
        0 <= j < DISPLAY_LEN ==> byte_shows(
            #[trigger] m.display[j],
            m.cells[box_col(j)][box_row(j)],
            j % 4,
        )
}

/// The first (most significant) hexadecimal digit of an instruction.
pub open spec fn op_of(i: u16) -> int {
    i as int / 4096
}

/// The second hexadecimal digit of an instruction (register X).
pub open spec fn x_of(i: u16) -> int {
    (i as int / 256) % 16
}

/// The third hexadecimal digit of an instruction (register Y).
pub open spec fn y_of(i: u16) -> int {
    (i as int / 16) % 16
}

/// The last hexadecimal digit of an instruction.
pub open spec fn n_of(i: u16) -> int {
    i as int % 16
}

/// The address held in the low three digits of an instruction.
pub open spec fn addr_of(i: u16) -> u16 {
    (i % 4096) as u16
}

/// The byte held in the low two digits of an instruction.
pub open spec fn byte_of(i: u16) -> u8 {
    (i % 256) as u8
}

/// The instruction word stored big-endian at the program counter.
pub open spec fn word_at(m: Machine) -> u16 {
    (m.ram[m.pc as int] as int * 256 + m.ram[m.pc + 1]) as u16
}

/// `m` with the program counter set to `pc`.
pub open spec fn with_pc(m: Machine, pc: u16) -> Machine {
    Machine { pc, ..m }
}

/// `m` with register `x` set to `val`.
pub open spec fn with_v(m: Machine, x: int, val: u8) -> Machine {
    Machine { v: m.v.update(x, val), ..m }
}

/// `m` with the next instruction skipped when `cond` holds.
pub open spec fn skip_if(m: Machine, cond: bool) -> Machine {
    if cond {
        with_pc(m, (m.pc + 2) as u16)
    } else {
        m
    }
}

/// A skip can be taken without overflowing the program counter.
pub open spec fn skip_ok(m: Machine, cond: bool) -> bool {
    cond ==> m.pc + 2 <= u16::MAX
}

/// The frame of a dark screen: every box painted black.
pub open spec fn dark_frame() -> Seq<u8> {
    Seq::new(DISPLAY_LEN as nat, |j: int| color_byte(0, j % 4))
}

/// The cells of a dark screen.
pub open spec fn dark_cells() -> Seq<Seq<u8>> {
    Seq::new(64, |x: int| Seq::new(32, |y: int| 0u8))
}

/// Instruction 00E0: every cell dark and every box painted black.
pub open spec fn clear_screen(m: Machine) -> Machine {
    Machine { cells: dark_cells(), display: dark_frame(), ..m }
}

/// Instruction 00EE: pop a return address into the program counter; nothing on an
/// empty stack.
pub open spec fn return_from(m: Machine) -> Machine {
    if m.stack.len() > 0 {
        Machine { pc: m.stack.last(), stack: m.stack.drop_last(), ..m }
    } else {
        m
    }
}

/// Instruction 2NNN: push the program counter and jump to `addr`.
pub open spec fn call(m: Machine, addr: u16) -> Machine {
    Machine { pc: addr, stack: m.stack.push(m.pc), ..m }
}

/// The arithmetic and logic group 8XYN; `None` for an unknown N.
pub open spec fn alu(m: Machine, x: int, y: int, op: int) -> Option<Machine> {
    let vx = m.v[x];
    let vy = m.v[y];
    if op == 0 {
        Some(with_v(m, x, vy))
    } else if op == 1 {
        Some(with_v(m, x, vx | vy))
    } else if op == 2 {
        Some(with_v(m, x, vx & vy))
    } else if op == 3 {
        Some(with_v(m, x, vx ^ vy))
    } else if op == 4 {
        Some(with_v(with_v(m, x, ((vx + vy) % 256) as u8), 15, if vx + vy > 255 { 1u8 } else { 0u8 }))
    } else if op == 5 {
        Some(with_v(with_v(m, x, ((vx - vy + 256) % 256) as u8), 15, if vx < vy { 0u8 } else { 1u8 }))
    } else if op == 6 {
        Some(with_v(with_v(m, x, vx / 2), 15, vx % 2))
    } else if op == 7 {
        Some(with_v(with_v(m, x, ((vy - vx + 256) % 256) as u8), 15, if vy < vx { 0u8 } else { 1u8 }))
    } else if op == 0xE {
        Some(with_v(with_v(m, x, ((vx * 2) % 256) as u8), 15, vx / 128))
    } else {
        None
    }
}

/// Pixel `b` (0 is leftmost) of a sprite row is set.
pub open spec fn sprite_pixel(row: u8, b: int) -> bool {
    row & (0x80u8 >> (b as u8)) != 0
}

/// Drawing sprite DXYN flips the cell at column `x`, row `y`: the cell lies `b`
/// columns right of VX and `r` rows below VY, wrapping around the screen, with
/// `r < N` and pixel `b` of sprite row `r` (read from memory at I + r) set.
pub open spec fn flips(m: Machine, i: u16, x: int, y: int) -> bool {
    let b = (x - m.v[x_of(i)]) % 64;
    let r = (y - m.v[y_of(i)]) % 32;
    &&& b < 8
    &&& r < n_of(i)
    &&& sprite_pixel(m.ram[m.index + r], b)
}

/// Some cell flipped by sprite DXYN was lit before.
pub open spec fn collides(m: Machine, i: u16) -> bool {
    exists|x: int, y: int|
        0 <= x < 64 && 0 <= y < 32 && #[trigger] flips(m, i, x, y) && m.cells[x][y] == 1
}

/// The cells after drawing sprite DXYN: every flipped cell toggled.
pub open spec fn drawn_cells(m: Machine, i: u16) -> Seq<Seq<u8>> {
    Seq::new(
        64,
        |x: int|
            Seq::new(32, |y: int| if flips(m, i, x, y) { m.cells[x][y] ^ 1u8 } else { m.cells[x][y] }),
    )
}

/// Instruction DXYN: toggle the flipped cells, repaint their boxes, and set VF to 1
/// when a lit cell was flipped, to 0 otherwise.
pub open spec fn draw(m: Machine, i: u16) -> Machine {
    let cells = drawn_cells(m, i);
    Machine {
        v: m.v.update(15, if collides(m, i) { 1u8 } else { 0u8 }),
        cells,
        display: Seq::new(
            m.display.len(),
            |j: int|
                if flips(m, i, box_col(j), box_row(j)) {
                    color_byte(cells[box_col(j)][box_row(j)], j % 4)
                } else {
                    m.display[j]
                },
        ),
        ..m
    }
}

/// Drawing sprite DXYN reads memory and computes coordinates without overflow.
pub open spec fn draw_ok(m: Machine, i: u16) -> bool {
    let n = n_of(i);
    &&& n == 0 || m.index + n <= MEMORY_SIZE
    &&& forall|r: int, b: int|
        0 <= r < n && 0 <= b < 8 && #[trigger] sprite_pixel(m.ram[m.index + r], b) ==> m.v[x_of(i)]
            + b <= 255 && m.v[y_of(i)] + r <= 255
}

/// The lowest-numbered key that is held, if any.
pub open spec fn first_pressed(keys: Seq<bool>) -> Option<int> {
    if exists|k: int| 0 <= k < 16 && #[trigger] keys[k] {
        Some(choose|k: int| 0 <= k < 16 && keys[k] && forall|j: int| 0 <= j < k ==> !#[trigger] keys[j])
    } else {
        None
    }
}

/// The timer and memory group FXNN; `None` for an unknown NN.
pub open spec fn misc(m: Machine, x: int, code: u8) -> Option<(Machine, Execution)> {
    let vx = m.v[x];
    if code == 0x07 {
        Some((with_v(m, x, m.delay), Execution::Done))
    } else if code == 0x15 {
        Some((Machine { delay: vx, ..m }, Execution::Done))
    } else if code == 0x18 {
        Some((Machine { sound: vx, ..m }, Execution::Done))
    } else if code == 0x1E {
        Some((Machine { index: (m.index + vx) as u16, ..m }, Execution::Done))
    } else if code == 0x0A {
        match first_pressed(m.keys) {
            Some(k) => Some((with_v(m, x, k as u8), Execution::WaitForKeyRelease(k as u8))),
            None => Some((with_pc(m, (m.pc - 2) as u16), Execution::Done)),
        }
    } else if code == 0x29 {
        Some((Machine { index: (vx * 5) as u16, ..m }, Execution::Done))
    } else if code == 0x33 {
        let i = m.index as int;
        Some(
            (
                Machine {
                    ram: m.ram.update(i, vx / 100).update(i + 1, (vx / 10) % 10).update(i + 2, vx % 10),
                    ..m
                },
                Execution::Done,
            ),
        )
    } else if code == 0x55 {
        let i = m.index as int;
        Some(
            (
                Machine {
                    ram: Seq::new(
                        m.ram.len(),
                        |a: int| if i <= a <= i + x { m.v[a - i] } else { m.ram[a] },
                    ),
                    ..m
                },
                Execution::Done,
            ),
        )
    } else if code == 0x65 {
        let i = m.index as int;
        Some(
            (
                Machine {
                    v: Seq::new(16, |r: int| if r <= x { m.ram[i + r] } else { m.v[r] }),
                    ..m
                },
                Execution::Done,
            ),
        )
    } else {
        None
    }
}

/// Instruction FXNN can run without overflow or an access outside memory.
pub open spec fn misc_ok(m: Machine, x: int, code: u8) -> bool {
    let vx = m.v[x];
    if code == 0x1E {
        m.index + vx <= u16::MAX
    } else if code == 0x0A {
        first_pressed(m.keys) is None ==> m.pc >= 2
    } else if code == 0x29 {
        vx * 5 <= 255
    } else if code == 0x33 {
        m.index + 2 < MEMORY_SIZE
    } else if code == 0x55 || code == 0x65 {
        m.index + x < MEMORY_SIZE
    } else {
        true
    }
}

/// The effect of executing instruction `i`, where `rnd` is the random byte that
/// CXNN draws (every other instruction ignores it).
pub open spec fn step(m: Machine, i: u16, rnd: u8) -> (Machine, Execution) {
    let a = op_of(i);
    let x = x_of(i);
    let y = y_of(i);
    let n = n_of(i);
    let unknown = (m, Execution::UnknownOpcode);
    if i == 0x0000 {
        (m, Execution::Done)
    } else if i == 0x00E0 {
        (clear_screen(m), Execution::Done)
    } else if i == 0x00EE {
        (return_from(m), Execution::Done)
    } else if a == 1 {
        (with_pc(m, addr_of(i)), Execution::Done)
    } else if a == 2 {
        (call(m, addr_of(i)), Execution::Done)
    } else if a == 3 {
        (skip_if(m, m.v[x] == byte_of(i)), Execution::Done)
    } else if a == 4 {
        (skip_if(m, m.v[x] != byte_of(i)), Execution::Done)
    } else if a == 5 && n == 0 {
        (skip_if(m, m.v[x] == m.v[y]), Execution::Done)
    } else if a == 6 {
        (with_v(m, x, byte_of(i)), Execution::Done)
    } else if a == 7 {
        (with_v(m, x, ((m.v[x] + byte_of(i)) % 256) as u8), Execution::Done)
    } else if a == 8 {
        match alu(m, x, y, n) {
            Some(m2) => (m2, Execution::Done),
            None => unknown,
        }
    } else if a == 9 {
        (skip_if(m, m.v[x] != m.v[y]), Execution::Done)
    } else if a == 0xA {
        (Machine { index: addr_of(i), ..m }, Execution::Done)
    } else if a == 0xB {
        (with_pc(m, (addr_of(i) + m.v[0]) as u16), Execution::Done)
    } else if a == 0xC {
        (with_v(m, x, rnd & byte_of(i)), Execution::Done)
    } else if a == 0xD {
        (draw(m, i), Execution::Done)
    } else if a == 0xE && y == 9 && n == 0xE {
        (skip_if(m, m.keys[m.v[x] as int]), Execution::Done)
    } else if a == 0xE && y == 0xA && n == 1 {
        (skip_if(m, !m.keys[m.v[x] as int]), Execution::Done)
    } else if a == 0xF {
        match misc(m, x, byte_of(i)) {
            Some(r) => r,
            None => unknown,
        }
    } else {
        unknown
    }
}

/// Instruction `i` can be executed on `m` without an arithmetic overflow, an
/// access outside memory or an index outside the keypad.
pub open spec fn executable(m: Machine, i: u16) -> bool {
    let a = op_of(i);
    let x = x_of(i);
    let y = y_of(i);
    let n = n_of(i);
    if a == 3 {
        skip_ok(m, m.v[x] == byte_of(i))
    } else if a == 4 {
        skip_ok(m, m.v[x] != byte_of(i))
    } else if a == 5 && n == 0 {
        skip_ok(m, m.v[x] == m.v[y])
    } else if a == 9 {
        skip_ok(m, m.v[x] != m.v[y])
    } else if a == 0xD {
        draw_ok(m, i)
    } else if a == 0xE && y == 9 && n == 0xE {
        m.v[x] < 16 && skip_ok(m, m.keys[m.v[x] as int])
    } else if a == 0xE && y == 0xA && n == 1 {
        m.v[x] < 16 && skip_ok(m, !m.keys[m.v[x] as int])
    } else if a == 0xF {
        misc_ok(m, x, byte_of(i))
    } else {
        true
    }
}

/// Memory `ram` with `rom` copied to it from `PROGRAM_START` on.
pub open spec fn loaded_ram(ram: Seq<u8>, rom: Seq<u8>) -> Seq<u8> {
    Seq::new(
        ram.len(),
        |a: int|
            if PROGRAM_START <= a < PROGRAM_START + rom.len() {
                rom[a - PROGRAM_START]
            } else {
                ram[a]
            },
    )
}

/// A subroutine call followed by a return comes back to the instruction after the
/// call, with the stack as it was: the machine is unchanged.
pub proof fn lemma_call_then_return(m: Machine, addr: u16, r1: u8, r2: u8)
    requires
        addr < 0x1000,
    ensures
        step(step(m, (0x2000 + addr) as u16, r1).0, 0x00EE, r2) == (m, Execution::Done),
{
    let i = (0x2000 + addr) as u16;
    assert(op_of(i) == 2);
    assert(addr_of(i) == addr);
    let m1 = call(m, addr);
    assert(step(m, i, r1).0 == m1);
    assert(m1.stack.drop_last() =~= m.stack);
    assert(return_from(m1) =~~= m);
}

/// Drawing the same sprite twice, from registers other than VF, leaves every cell
/// as it was: the second drawing erases the first.
pub proof fn lemma_draw_twice_restores(m: Machine, i: u16, r1: u8, r2: u8)
    requires
        m.v.len() == 16,
        m.cells.len() == 64,
        forall|x: int| 0 <= x < 64 ==> (#[trigger] m.cells[x]).len() == 32,
        op_of(i) == 0xD,
        x_of(i) != 15,
        y_of(i) != 15,
    ensures
        step(step(m, i, r1).0, i, r2).0.cells == m.cells,
{
    let m1 = step(m, i, r1).0;
    assert(m1 == draw(m, i));
    let m2 = step(m1, i, r2).0;
    assert(m2 == draw(m1, i));
    assert(m1.v[x_of(i)] == m.v[x_of(i)]);
    assert(m1.v[y_of(i)] == m.v[y_of(i)]);
    assert forall|x: int, y: int| #[trigger] flips(m1, i, x, y) == flips(m, i, x, y) by {}
    assert forall|x: int| 0 <= x < 64 implies #[trigger] m2.cells[x] =~= m.cells[x] by {
        assert forall|y: int| 0 <= y < 32 implies m2.cells[x][y] == m.cells[x][y] by {
            let c = m.cells[x][y];
            assert((c ^ 1u8) ^ 1u8 == c) by (bit_vector);
        }
    }
    assert(m2.cells =~= m.cells);
}

/// Storing registers V0 to VX at I (FX55) and loading them back (FX65) changes
/// nothing more: memory holds the registers and loading gives them back.
pub proof fn lemma_store_then_load(m: Machine, x: int, r1: u8, r2: u8)
    requires
        machine_wf(m),
        0 <= x < 16,
        m.index + x < MEMORY_SIZE,
    ensures
        ({
            let stored = step(m, (0xF055 + x * 256) as u16, r1).0;
            &&& forall|r: int| 0 <= r <= x ==> #[trigger] stored.ram[m.index + r] == m.v[r]
            &&& step(stored, (0xF065 + x * 256) as u16, r2).0 == stored
        }),
{
    let i55 = (0xF055 + x * 256) as u16;
    let i65 = (0xF065 + x * 256) as u16;
    assert(op_of(i55) == 0xF && x_of(i55) == x && byte_of(i55) == 0x55);
    assert(op_of(i65) == 0xF && x_of(i65) == x && byte_of(i65) == 0x65);
    let stored = step(m, i55, r1).0;
    let loaded = step(stored, i65, r2).0;
    assert forall|r: int| 0 <= r <= x implies #[trigger] stored.ram[m.index + r] == m.v[r] by {}
    assert(loaded.v =~= stored.v);
    assert(loaded =~~= stored);
}

/// Registers stored at I by FX55 come back with FX65 whatever the registers held in
/// between: FX65 sets V0 to VX from the stored bytes, keeps the registers above VX,
/// and changes nothing else.
pub proof fn lemma_load_after_store(m: Machine, x: int, m1: Machine, r1: u8, r2: u8)
    requires
        machine_wf(m),
        0 <= x < 16,
        m.index + x < MEMORY_SIZE,
        m1.ram == step(m, (0xF055 + x * 256) as u16, r1).0.ram,
        m1.index == m.index,
        m1.v.len() == 16,
    ensures
        ({
            let loaded = step(m1, (0xF065 + x * 256) as u16, r2).0;
            &&& forall|k: int| 0 <= k <= x ==> #[trigger] loaded.v[k] == m.v[k]
            &&& forall|k: int| x < k < 16 ==> #[trigger] loaded.v[k] == m1.v[k]
            &&& loaded == (Machine { v: loaded.v, ..m1 })
        }),
{
    let i55 = (0xF055 + x * 256) as u16;
    let i65 = (0xF065 + x * 256) as u16;
    assert(op_of(i55) == 0xF && x_of(i55) == x && byte_of(i55) == 0x55);
    assert(op_of(i65) == 0xF && x_of(i65) == x && byte_of(i65) == 0x65);
    let loaded = step(m1, i65, r2).0;
    assert(loaded =~~= Machine { v: loaded.v, ..m1 });
}

/// The machine after `k` instruction fetches: each one moves the program counter on
/// by two and changes nothing else.
pub open spec fn after_fetches(m: Machine, k: nat) -> Machine
    decreases k,
{
    if k == 0 {
        m
    } else {
        let p = after_fetches(m, (k - 1) as nat);
        with_pc(p, (p.pc + 2) as u16)
    }
}

/// After a program is loaded with the program counter at `PROGRAM_START`, fetch
/// number `k + 1` reads the program's bytes `2k` and `2k + 1`.
pub proof fn lemma_fetch_sequence(m: Machine, rom: Seq<u8>, k: nat)
    requires
        m.ram.len() == MEMORY_SIZE,
        m.pc == PROGRAM_START,
        PROGRAM_START + rom.len() <= MEMORY_SIZE,
        2 * k + 1 < rom.len(),
    ensures
        after_fetches(Machine { ram: loaded_ram(m.ram, rom), ..m }, k) == with_pc(
            Machine { ram: loaded_ram(m.ram, rom), ..m },
            (PROGRAM_START + 2 * k) as u16,
        ),
        word_at(after_fetches(Machine { ram: loaded_ram(m.ram, rom), ..m }, k)) == rom[2 * k as int]
            * 256 + rom[2 * k as int + 1],
    decreases k,
{
    let m0 = Machine { ram: loaded_ram(m.ram, rom), ..m };
    if k > 0 {
        lemma_fetch_sequence(m, rom, (k - 1) as nat);
    } else {
        assert(with_pc(m0, PROGRAM_START) =~~= m0);
    }
}

/// FX33 stores the decimal digits of VX at I, I + 1 and I + 2, most significant
/// first: each is below ten and together they make VX.
pub proof fn lemma_bcd(m: Machine, x: int, r: u8)
    requires
        machine_wf(m),
        0 <= x < 16,
        m.index + 2 < MEMORY_SIZE,
    ensures
        ({
            let after = step(m, (0xF033 + x * 256) as u16, r).0;
            let i = m.index as int;
            &&& after.ram[i] < 10 && after.ram[i + 1] < 10 && after.ram[i + 2] < 10
            &&& after.ram[i] * 100 + after.ram[i + 1] * 10 + after.ram[i + 2] == m.v[x]
        }),
{
    let i33 = (0xF033 + x * 256) as u16;
    assert(op_of(i33) == 0xF && x_of(i33) == x && byte_of(i33) == 0x33);
    let vx = m.v[x];
    assert(vx / 100 < 10);
    assert((vx / 100) * 100 + ((vx / 10) % 10) * 10 + vx % 10 == vx);
}

/// After a program is loaded, the first word fetched from `PROGRAM_START` is the
/// first two bytes of the program.
pub proof fn lemma_loaded_word(m: Machine, rom: Seq<u8>)
    requires
        m.ram.len() == MEMORY_SIZE,
        m.pc == PROGRAM_START,
        2 <= rom.len(),
        PROGRAM_START + rom.len() <= MEMORY_SIZE,
    ensures
        word_at(Machine { ram: loaded_ram(m.ram, rom), ..m }) == rom[0] * 256 + rom[1],
{
}

/// The digits of an instruction word, as the decoder extracts them with masks and shifts.
pub proof fn lemma_nibbles(i: u16)
    ensures
        (i & 0xF000) >> 12u16 == op_of(i),
        (i & 0x0F00) >> 8u16 == x_of(i),
        (i & 0x00F0) >> 4u16 == y_of(i),
        i & 0x000F == n_of(i),
        i & 0xFFF == addr_of(i),
        (i & 0xFF) as u8 == byte_of(i),
        op_of(i) < 16,
        i == 4096 * op_of(i) + 256 * x_of(i) + 16 * y_of(i) + n_of(i),
{
    assert(i == 4096 * (i / 4096) + 256 * ((i / 256) % 16) + 16 * ((i / 16) % 16) + i % 16) by (bit_vector);
    assert((i & 0xF000) >> 12u16 == i / 4096) by (bit_vector);
    assert((i & 0x0F00) >> 8u16 == (i / 256) % 16) by (bit_vector);
    assert((i & 0x00F0) >> 4u16 == (i / 16) % 16) by (bit_vector);
    assert(i & 0x000F == i % 16) by (bit_vector);
    assert(i & 0xFFF == i % 4096) by (bit_vector);
    assert((i & 0xFF) as u8 == i % 256) by (bit_vector);
}

/// Shifts and wrapping arithmetic on bytes, as the arithmetic group computes them.
pub proof fn lemma_byte_ops(a: u8, b: u8)
    ensures
        a.wrapping_add(b) == (a + b) % 256,
        a.wrapping_sub(b) == (a - b + 256) % 256,
        a & 1 == a % 2,
        a >> 1u8 == a / 2,
        (a >> 7u8) & 1 == a / 128,
        a << 1u8 == (a * 2) % 256,
{
    assert(a & 1 == a % 2) by (bit_vector);
    assert(a >> 1u8 == a / 2) by (bit_vector);
    assert((a >> 7u8) & 1 == a / 128) by (bit_vector);
    assert(a << 1u8 == (a * 2) % 256) by (bit_vector);
}

} // verus!
