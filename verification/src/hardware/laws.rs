use vstd::prelude::*;
use vstd::arithmetic::div_mod::lemma_fundamental_div_mod_converse as div_mod_unique;
use crate::hardware::machine::{
    addr_of, byte_of, first_pressed, n_of, op_of, step, x_of, y_of, Execution, Machine,
};

verus! {

// What each instruction does, stated over the instruction word built from its
// hexadecimal digits and over the machine before and after.

/// The instruction word with hexadecimal digits `a`, `x`, `y`, `n`.
pub open spec fn word(a: int, x: int, y: int, n: int) -> u16 {
    (4096 * a + 256 * x + 16 * y + n) as u16
}

/// Decoding the word built from four digits gives those digits back.
pub proof fn lemma_decode(a: int, x: int, y: int, n: int)
    requires
        0 <= a < 16,
        0 <= x < 16,
        0 <= y < 16,
        0 <= n < 16,
    ensures
        op_of(word(a, x, y, n)) == a,
        x_of(word(a, x, y, n)) == x,
        y_of(word(a, x, y, n)) == y,
        n_of(word(a, x, y, n)) == n,
        byte_of(word(a, x, y, n)) == 16 * y + n,
        addr_of(word(a, x, y, n)) == 256 * x + 16 * y + n,
        word(a, x, y, n) as int == 4096 * a + 256 * x + 16 * y + n,
{
    let i = 4096 * a + 256 * x + 16 * y + n;
    assert(word(a, x, y, n) as int == i);
    div_mod_unique(i, 4096, a, 256 * x + 16 * y + n);
    div_mod_unique(i, 256, 16 * a + x, 16 * y + n);
    div_mod_unique(16 * a + x, 16, a, x);
    div_mod_unique(i, 16, 256 * a + 16 * x + y, n);
    div_mod_unique(256 * a + 16 * x + y, 16, 16 * a + x, y);
}

/// Only register `x` and VF may differ between `m` and `m2`.
pub open spec fn only_vx_vf_changed(m: Machine, m2: Machine, x: int) -> bool {
    &&& m2 == (Machine { v: m2.v, ..m })
    &&& m2.v.len() == 16
    &&& forall|k: int| 0 <= k < 16 && k != x && k != 15 ==> #[trigger] m2.v[k] == m.v[k]
}

/// Only register `x` may differ between `m` and `m2`.
pub open spec fn only_vx_changed(m: Machine, m2: Machine, x: int) -> bool {
    &&& m2 == (Machine { v: m2.v, ..m })
    &&& m2.v.len() == 16
    &&& forall|k: int| 0 <= k < 16 && k != x ==> #[trigger] m2.v[k] == m.v[k]
}

/// The bitwise group 8XY0 to 8XY3: VX becomes VY, VX OR VY, VX AND VY or VX XOR VY;
/// nothing else changes.
pub proof fn lemma_bitwise_ops(m: Machine, x: int, y: int, r: u8)
    requires
        m.v.len() == 16,
        0 <= x < 16,
        0 <= y < 16,
    ensures
        step(m, word(8, x, y, 0), r).0.v[x] == m.v[y],
        step(m, word(8, x, y, 1), r).0.v[x] == m.v[x] | m.v[y],
        step(m, word(8, x, y, 2), r).0.v[x] == m.v[x] & m.v[y],
        step(m, word(8, x, y, 3), r).0.v[x] == m.v[x] ^ m.v[y],
        forall|n: int|
            0 <= n < 4 ==> only_vx_changed(m, #[trigger] step(m, word(8, x, y, n), r).0, x)
                && step(m, word(8, x, y, n), r).1 == Execution::Done,
{
    assert forall|n: int| 0 <= n < 4 implies only_vx_changed(
        m,
        #[trigger] step(m, word(8, x, y, n), r).0,
        x,
    ) && step(m, word(8, x, y, n), r).1 == Execution::Done by {
        lemma_decode(8, x, y, n);
    }
    lemma_decode(8, x, y, 0);
    lemma_decode(8, x, y, 1);
    lemma_decode(8, x, y, 2);
    lemma_decode(8, x, y, 3);
}

/// 8XY4, with X other than F: VX + 256 * VF is the sum of the old VX and VY, with
/// VF the carry (0 or 1); nothing but VX and VF changes.
pub proof fn lemma_add_with_carry(m: Machine, x: int, y: int, r: u8)
    requires
        m.v.len() == 16,
        0 <= x < 15,
        0 <= y < 16,
    ensures
        ({
            let (m2, e) = step(m, word(8, x, y, 4), r);
            &&& m2.v[15] <= 1
            &&& m2.v[x] + 256 * m2.v[15] == m.v[x] + m.v[y]
            &&& only_vx_vf_changed(m, m2, x)
            &&& e == Execution::Done
        }),
{
    lemma_decode(8, x, y, 4);
}

/// 8XY5, with X other than F: VX - 256 * (1 - VF) is the old VX minus VY, with VF
/// 1 when nothing was borrowed and 0 otherwise; nothing but VX and VF changes.
pub proof fn lemma_subtract(m: Machine, x: int, y: int, r: u8)
    requires
        m.v.len() == 16,
        0 <= x < 15,
        0 <= y < 16,
    ensures
        ({
            let (m2, e) = step(m, word(8, x, y, 5), r);
            &&& m2.v[15] <= 1
            &&& m2.v[x] - 256 * (1 - m2.v[15]) == m.v[x] - m.v[y]
            &&& only_vx_vf_changed(m, m2, x)
            &&& e == Execution::Done
        }),
{
    lemma_decode(8, x, y, 5);
}

/// 8XY7, with X other than F: VX - 256 * (1 - VF) is VY minus the old VX, with VF
/// 1 when nothing was borrowed and 0 otherwise; nothing but VX and VF changes.
pub proof fn lemma_subtract_reversed(m: Machine, x: int, y: int, r: u8)
    requires
        m.v.len() == 16,
        0 <= x < 15,
        0 <= y < 16,
    ensures
        ({
            let (m2, e) = step(m, word(8, x, y, 7), r);
            &&& m2.v[15] <= 1
            &&& m2.v[x] - 256 * (1 - m2.v[15]) == m.v[y] - m.v[x]
            &&& only_vx_vf_changed(m, m2, x)
            &&& e == Execution::Done
        }),
{
    lemma_decode(8, x, y, 7);
}

/// 8XY6, with X other than F: shifts VX right by one; 2 * VX + VF is the old VX, so
/// VF is the lowest bit shifted out. Nothing but VX and VF changes.
pub proof fn lemma_shift_right(m: Machine, x: int, y: int, r: u8)
    requires
        m.v.len() == 16,
        0 <= x < 15,
        0 <= y < 16,
    ensures
        ({
            let (m2, e) = step(m, word(8, x, y, 6), r);
            &&& m2.v[15] <= 1
            &&& 2 * m2.v[x] + m2.v[15] == m.v[x]
            &&& only_vx_vf_changed(m, m2, x)
            &&& e == Execution::Done
        }),
{
    lemma_decode(8, x, y, 6);
}

/// 8XYE, with X other than F: shifts VX left by one; VX + 256 * VF is twice the old
/// VX, so VF is the highest bit shifted out. Nothing but VX and VF changes.
pub proof fn lemma_shift_left(m: Machine, x: int, y: int, r: u8)
    requires
        m.v.len() == 16,
        0 <= x < 15,
        0 <= y < 16,
    ensures
        ({
            let (m2, e) = step(m, word(8, x, y, 0xE), r);
            &&& m2.v[15] <= 1
            &&& m2.v[x] + 256 * m2.v[15] == 2 * m.v[x]
            &&& only_vx_vf_changed(m, m2, x)
            &&& e == Execution::Done
        }),
{
    lemma_decode(8, x, y, 0xE);
    let vx = m.v[x];
    if vx >= 128 {
        div_mod_unique(vx * 2, 256, 1, vx * 2 - 256);
    } else {
        div_mod_unique(vx * 2, 256, 0, vx * 2);
    }
}

/// An 8XYN with another last digit is unknown and changes nothing.
pub proof fn lemma_unknown_arithmetic(m: Machine, x: int, y: int, n: int, r: u8)
    requires
        0 <= x < 16,
        0 <= y < 16,
        8 <= n < 14 || n == 15,
    ensures
        step(m, word(8, x, y, n), r) == (m, Execution::UnknownOpcode),
{
    lemma_decode(8, x, y, n);
}

/// The skips: 3XNN, 4XNN, 5XY0, 9XY0, EX9E and EXA1 advance the program counter by
/// two exactly when their condition holds (VX equal to NN, VX different from NN,
/// VX equal to VY, VX different from VY, key VX held, key VX not held), and change
/// nothing else.
pub proof fn lemma_skips(m: Machine, x: int, y: int, nn: int, r: u8)
    requires
        m.v.len() == 16,
        0 <= x < 16,
        0 <= y < 16,
        0 <= nn < 256,
    ensures
        step(m, (0x3000 + 256 * x + nn) as u16, r) == (if m.v[x] == nn {
            Machine { pc: (m.pc + 2) as u16, ..m }
        } else {
            m
        }, Execution::Done),
        step(m, (0x4000 + 256 * x + nn) as u16, r) == (if m.v[x] != nn {
            Machine { pc: (m.pc + 2) as u16, ..m }
        } else {
            m
        }, Execution::Done),
        step(m, word(5, x, y, 0), r) == (if m.v[x] == m.v[y] {
            Machine { pc: (m.pc + 2) as u16, ..m }
        } else {
            m
        }, Execution::Done),
        step(m, word(9, x, y, 0), r) == (if m.v[x] != m.v[y] {
            Machine { pc: (m.pc + 2) as u16, ..m }
        } else {
            m
        }, Execution::Done),
        step(m, word(0xE, x, 9, 0xE), r) == (if m.keys[m.v[x] as int] {
            Machine { pc: (m.pc + 2) as u16, ..m }
        } else {
            m
        }, Execution::Done),
        step(m, word(0xE, x, 0xA, 1), r) == (if !m.keys[m.v[x] as int] {
            Machine { pc: (m.pc + 2) as u16, ..m }
        } else {
            m
        }, Execution::Done),
{
    lemma_decode(3, x, nn / 16, nn % 16);
    lemma_decode(4, x, nn / 16, nn % 16);
    assert(word(3, x, nn / 16, nn % 16) == (0x3000 + 256 * x + nn) as u16);
    assert(word(4, x, nn / 16, nn % 16) == (0x4000 + 256 * x + nn) as u16);
    lemma_decode(5, x, y, 0);
    lemma_decode(9, x, y, 0);
    lemma_decode(0xE, x, 9, 0xE);
    lemma_decode(0xE, x, 0xA, 1);
}

/// Jumps, calls and returns: 1NNN sets the program counter to NNN; BNNN to NNN + V0;
/// 2NNN pushes the program counter and sets it to NNN; 00EE pops the last pushed
/// address into the program counter, or does nothing on an empty stack. Nothing else
/// changes.
pub proof fn lemma_jumps(m: Machine, nnn: int, r: u8)
    requires
        m.v.len() == 16,
        0 <= nnn < 4096,
    ensures
        step(m, (0x1000 + nnn) as u16, r) == (Machine { pc: nnn as u16, ..m }, Execution::Done),
        step(m, (0xB000 + nnn) as u16, r) == (Machine { pc: (nnn + m.v[0]) as u16, ..m }, Execution::Done),
        step(m, (0x2000 + nnn) as u16, r) == (
            Machine { pc: nnn as u16, stack: m.stack.push(m.pc), ..m },
            Execution::Done,
        ),
        m.stack.len() > 0 ==> step(m, 0x00EE, r) == (
            Machine {
                pc: m.stack[m.stack.len() - 1],
                stack: m.stack.subrange(0, m.stack.len() - 1),
                ..m
            },
            Execution::Done,
        ),
        m.stack.len() == 0 ==> step(m, 0x00EE, r) == (m, Execution::Done),
{
    let hi = nnn / 256;
    let mid = (nnn / 16) % 16;
    let lo = nnn % 16;
    assert(nnn == 256 * hi + 16 * mid + lo);
    lemma_decode(1, hi, mid, lo);
    lemma_decode(0xB, hi, mid, lo);
    lemma_decode(2, hi, mid, lo);
    lemma_decode(0, 0, 0xE, 0xE);
    if m.stack.len() > 0 {
        assert(m.stack.drop_last() =~= m.stack.subrange(0, m.stack.len() - 1));
    }
}

/// Register and index loads: 6XNN sets VX to NN; 7XNN adds NN to VX modulo 256;
/// CXNN sets VX to the random byte masked by NN; ANNN sets I to NNN. Nothing else
/// changes.
pub proof fn lemma_loads(m: Machine, x: int, nn: int, nnn: int, r: u8)
    requires
        m.v.len() == 16,
        0 <= x < 16,
        0 <= nn < 256,
        0 <= nnn < 4096,
    ensures
        ({
            let m2 = step(m, (0x6000 + 256 * x + nn) as u16, r).0;
            m2.v[x] == nn && only_vx_changed(m, m2, x)
        }),
        ({
            let m2 = step(m, (0x7000 + 256 * x + nn) as u16, r).0;
            (m2.v[x] - m.v[x] - nn) % 256 == 0 && only_vx_changed(m, m2, x)
        }),
        ({
            let m2 = step(m, (0xC000 + 256 * x + nn) as u16, r).0;
            m2.v[x] == r & (nn as u8) && m2.v[x] | (nn as u8) == nn as u8 && only_vx_changed(m, m2, x)
        }),
        step(m, (0xA000 + nnn) as u16, r) == (Machine { index: nnn as u16, ..m }, Execution::Done),
{
    lemma_decode(6, x, nn / 16, nn % 16);
    lemma_decode(7, x, nn / 16, nn % 16);
    lemma_decode(0xC, x, nn / 16, nn % 16);
    assert(word(6, x, nn / 16, nn % 16) == (0x6000 + 256 * x + nn) as u16);
    assert(word(7, x, nn / 16, nn % 16) == (0x7000 + 256 * x + nn) as u16);
    assert(word(0xC, x, nn / 16, nn % 16) == (0xC000 + 256 * x + nn) as u16);
    let b = nn as u8;
    assert((r & b) | b == b) by (bit_vector);
    let hi = nnn / 256;
    let mid = (nnn / 16) % 16;
    let lo = nnn % 16;
    assert(nnn == 256 * hi + 16 * mid + lo);
    lemma_decode(0xA, hi, mid, lo);
    let m7 = step(m, (0x7000 + 256 * x + nn) as u16, r).0;
    assert(m7.v[x] == (m.v[x] + nn) % 256);
    assert(m7.v[x] - m.v[x] - nn == -256 * ((m.v[x] + nn) / 256));
    div_mod_unique(m7.v[x] - m.v[x] - nn, 256, -((m.v[x] + nn) / 256), 0);
}

/// The timer and index group: FX07 sets VX to the delay timer; FX15 sets the delay
/// timer to VX; FX18 sets the sound timer to VX; FX1E adds VX to I; FX29 sets I to
/// 5 * VX, the address of the font glyph of digit VX. Nothing else changes.
pub proof fn lemma_timer_and_index_ops(m: Machine, x: int, r: u8)
    requires
        m.v.len() == 16,
        0 <= x < 16,
    ensures
        ({
            let m2 = step(m, word(0xF, x, 0, 7), r).0;
            m2.v[x] == m.delay && only_vx_changed(m, m2, x)
        }),
        step(m, word(0xF, x, 1, 5), r) == (Machine { delay: m.v[x], ..m }, Execution::Done),
        step(m, word(0xF, x, 1, 8), r) == (Machine { sound: m.v[x], ..m }, Execution::Done),
        m.index + m.v[x] <= u16::MAX ==> step(m, word(0xF, x, 1, 0xE), r) == (
            Machine { index: (m.index + m.v[x]) as u16, ..m },
            Execution::Done,
        ),
        m.v[x] * 5 <= 255 ==> step(m, word(0xF, x, 2, 9), r) == (
            Machine { index: (5 * m.v[x]) as u16, ..m },
            Execution::Done,
        ),
{
    lemma_decode(0xF, x, 0, 7);
    lemma_decode(0xF, x, 1, 5);
    lemma_decode(0xF, x, 1, 8);
    lemma_decode(0xF, x, 1, 0xE);
    lemma_decode(0xF, x, 2, 9);
}

/// The lowest held key is found whenever any key is held, key 0 included, and never
/// otherwise.
pub proof fn lemma_first_pressed(keys: Seq<bool>)
    requires
        keys.len() == 16,
    ensures
        first_pressed(keys) is Some <==> exists|k: int| 0 <= k < 16 && #[trigger] keys[k],
        first_pressed(keys) matches Some(k) ==> 0 <= k < 16 && keys[k] && forall|j: int|
            0 <= j < k ==> !#[trigger] keys[j],
{
    if exists|k: int| 0 <= k < 16 && #[trigger] keys[k] {
        let w = choose|k: int| 0 <= k < 16 && #[trigger] keys[k];
        lemma_least_held(keys, w);
    }
}

/// From a held key, there is a lowest held key.
proof fn lemma_least_held(keys: Seq<bool>, w: int)
    requires
        0 <= w < 16,
        keys[w],
    ensures
        exists|k: int| 0 <= k < 16 && keys[k] && forall|j: int| 0 <= j < k ==> !#[trigger] keys[j],
    decreases w,
{
    if exists|j: int| 0 <= j < w && #[trigger] keys[j] {
        let j = choose|j: int| 0 <= j < w && #[trigger] keys[j];
        lemma_least_held(keys, j);
    } else {
        assert(forall|j: int| 0 <= j < w ==> !#[trigger] keys[j]);
    }
}

/// FX0A with a key held stores the lowest held key in VX and asks to wait for its
/// release; with no key held it steps the program counter back by two so that it
/// runs again. Nothing else changes.
pub proof fn lemma_wait_for_key(m: Machine, x: int, r: u8)
    requires
        m.v.len() == 16,
        m.keys.len() == 16,
        0 <= x < 16,
    ensures
        ({
            let (m2, e) = step(m, word(0xF, x, 0, 0xA), r);
            if exists|k: int| 0 <= k < 16 && #[trigger] m.keys[k] {
                &&& 0 <= m2.v[x] < 16
                &&& m.keys[m2.v[x] as int]
                &&& forall|j: int| 0 <= j < m2.v[x] ==> !#[trigger] m.keys[j]
                &&& e == Execution::WaitForKeyRelease(m2.v[x])
                &&& only_vx_changed(m, m2, x)
            } else {
                &&& m2 == (Machine { pc: (m.pc - 2) as u16, ..m })
                &&& e == Execution::Done
            }
        }),
{
    lemma_decode(0xF, x, 0, 0xA);
    lemma_first_pressed(m.keys);
}

/// 00E0 darkens every cell and paints every pixel black (0, 0, 0, 1); nothing else
/// changes.
pub proof fn lemma_clear(m: Machine, r: u8)
    ensures
        ({
            let (m2, e) = step(m, 0x00E0, r);
            &&& e == Execution::Done
            &&& m2 == (Machine { cells: m2.cells, display: m2.display, ..m })
            &&& m2.cells.len() == 64
            &&& forall|a: int| 0 <= a < 64 ==> (#[trigger] m2.cells[a]).len() == 32
            &&& forall|a: int, b: int| 0 <= a < 64 && 0 <= b < 32 ==> #[trigger] m2.cells[a][b] == 0
            &&& m2.display.len() == 2097152
            &&& forall|j: int|
                0 <= j < 2097152 ==> #[trigger] m2.display[j] == if j % 4 == 3 {
                    1u8
                } else {
                    0u8
                }
        }),
{
    lemma_decode(0, 0, 0xE, 0);
    let m2 = step(m, 0x00E0, r).0;
    assert forall|j: int| 0 <= j < 2097152 implies #[trigger] m2.display[j] == if j % 4 == 3 {
        1u8
    } else {
        0u8
    } by {
        let k = j % 4;
        assert(0 <= k < 4);
        if k == 0 {
        } else if k == 1 {
        } else if k == 2 {
        } else {
        }
    }
}

/// Pixel `bit` of sprite row `row` (read from I + row, most significant bit first)
/// is set, and drawing sprite DXYN puts it on the cell at column `a`, row `b`: `bit`
/// columns right of VX and `row` rows below VY, wrapping around the screen.
pub open spec fn pixel_lands(m: Machine, x: int, y: int, row: int, bit: int, a: int, b: int) -> bool {
    &&& (m.ram[m.index + row] >> ((7 - bit) as u8)) & 1u8 == 1u8
    &&& (m.v[x] + bit) % 64 == a
    &&& (m.v[y] + row) % 32 == b
}

/// Testing a sprite pixel with a moving mask is reading that bit of the row.
proof fn lemma_pixel_bit(byte: u8, bit: u8)
    requires
        bit < 8,
    ensures
        (byte & (0x80u8 >> bit) != 0) == ((byte >> (7 - bit) as u8) & 1u8 == 1u8),
{
    assert(bit < 8 ==> ((byte & (0x80u8 >> bit) != 0) == ((byte >> (7 - bit) as u8) & 1u8 == 1u8)))
        by (bit_vector);
}

/// DXYN on a well-formed machine: a cell changes exactly when a set pixel of the
/// N-row sprite at I lands on it, and then it is toggled; VF becomes 1 when a lit
/// cell was turned dark and 0 otherwise; nothing but the cells, the frame and VF
/// changes.
pub proof fn lemma_draw(m: Machine, x: int, y: int, n: int, r: u8)
    requires
        crate::hardware::machine::machine_wf(m),
        0 <= x < 16,
        0 <= y < 16,
        0 <= n < 16,
    ensures
        ({
            let (m2, e) = step(m, word(0xD, x, y, n), r);
            &&& e == Execution::Done
            &&& m2 == (Machine { v: m2.v, cells: m2.cells, display: m2.display, ..m })
            &&& m2.v == m.v.update(15, m2.v[15])
            &&& forall|a: int, b: int|
                0 <= a < 64 && 0 <= b < 32 ==> {
                    &&& (#[trigger] m2.cells[a][b] != m.cells[a][b]) == exists|row: int, bit: int|
                        0 <= row < n && 0 <= bit < 8 && #[trigger] pixel_lands(m, x, y, row, bit, a, b)
                    &&& m2.cells[a][b] != m.cells[a][b] ==> m2.cells[a][b] == 1 - m.cells[a][b]
                }
            &&& m2.v[15] == if exists|a: int, b: int|
                0 <= a < 64 && 0 <= b < 32 && #[trigger] m.cells[a][b] == 1 && m2.cells[a][b] == 0 {
                1u8
            } else {
                0u8
            }
        }),
{
    let i = word(0xD, x, y, n);
    lemma_decode(0xD, x, y, n);
    let m2 = step(m, i, r).0;
    let vx = m.v[x];
    let vy = m.v[y];
    assert forall|a: int, b: int| 0 <= a < 64 && 0 <= b < 32 implies {
        &&& (#[trigger] m2.cells[a][b] != m.cells[a][b]) == exists|row: int, bit: int|
            0 <= row < n && 0 <= bit < 8 && #[trigger] pixel_lands(m, x, y, row, bit, a, b)
        &&& m2.cells[a][b] != m.cells[a][b] ==> m2.cells[a][b] == 1 - m.cells[a][b]
        &&& (m2.cells[a][b] != m.cells[a][b]) == crate::hardware::machine::flips(m, i, a, b)
    } by {
        let c = m.cells[a][b];
        assert(c <= 1);
        assert(c <= 1 ==> (c ^ 1u8) != c && (c ^ 1u8) == 1 - c) by (bit_vector);
        let bb = (a - vx) % 64;
        let rr = (b - vy) % 32;
        crate::hardware::sprite::lemma_wrap(vx as int, bb, a, 64);
        crate::hardware::sprite::lemma_wrap(vy as int, rr, b, 32);
        if crate::hardware::machine::flips(m, i, a, b) {
            lemma_pixel_bit(m.ram[m.index + rr], bb as u8);
            assert(pixel_lands(m, x, y, rr, bb, a, b));
        }
        if exists|row: int, bit: int| 0 <= row < n && 0 <= bit < 8 && #[trigger] pixel_lands(
            m,
            x,
            y,
            row,
            bit,
            a,
            b,
        ) {
            let (row, bit) = choose|row: int, bit: int|
                0 <= row < n && 0 <= bit < 8 && #[trigger] pixel_lands(m, x, y, row, bit, a, b);
            crate::hardware::sprite::lemma_wrap(vx as int, bit, a, 64);
            crate::hardware::sprite::lemma_wrap(vy as int, row, b, 32);
            lemma_pixel_bit(m.ram[m.index + row], bit as u8);
        }
    }
    if crate::hardware::machine::collides(m, i) {
        let (a, b) = choose|a: int, b: int|
            0 <= a < 64 && 0 <= b < 32 && #[trigger] crate::hardware::machine::flips(m, i, a, b)
                && m.cells[a][b] == 1;
        assert(m2.cells[a][b] != m.cells[a][b]);
    }
    if exists|a: int, b: int| 0 <= a < 64 && 0 <= b < 32 && #[trigger] m.cells[a][b] == 1
        && m2.cells[a][b] == 0 {
        let (a, b) = choose|a: int, b: int|
            0 <= a < 64 && 0 <= b < 32 && #[trigger] m.cells[a][b] == 1 && m2.cells[a][b] == 0;
        assert(m2.cells[a][b] != m.cells[a][b]);
        assert(crate::hardware::machine::flips(m, i, a, b));
    }
    assert(m2.v =~= m.v.update(15, m2.v[15]));
}

/// The word fetched at the program counter is big-endian: its high byte is the byte at
/// the program counter and its low byte the one after.
pub proof fn lemma_fetched_word(m: Machine)
    requires
        m.pc + 1 < m.ram.len(),
    ensures
        crate::hardware::machine::word_at(m) / 256 == m.ram[m.pc as int],
        crate::hardware::machine::word_at(m) % 256 == m.ram[m.pc + 1],
{
    let w = m.ram[m.pc as int] as int * 256 + m.ram[m.pc + 1];
    div_mod_unique(w, 256, m.ram[m.pc as int] as int, m.ram[m.pc + 1] as int);
}

/// Loading a program writes it from `PROGRAM_START` on and leaves every other
/// address as it was; in particular the font in fresh memory survives.
pub proof fn lemma_load_keeps_the_rest(ram: Seq<u8>, rom: Seq<u8>)
    requires
        ram.len() == crate::hardware::memory::MEMORY_SIZE,
        crate::hardware::memory::PROGRAM_START + rom.len() <= crate::hardware::memory::MEMORY_SIZE,
    ensures
        crate::hardware::machine::loaded_ram(ram, rom).len() == ram.len(),
        forall|k: int|
            0 <= k < rom.len() ==> #[trigger] crate::hardware::machine::loaded_ram(ram, rom)[0x200
                + k] == rom[k],
        forall|a: int|
            0 <= a < ram.len() && !(0x200 <= a < 0x200 + rom.len()) ==> #[trigger] crate::hardware::machine::loaded_ram(
                ram,
                rom,
            )[a] == ram[a],
        forall|a: int|
            0 <= a < 80 ==> #[trigger] crate::hardware::machine::loaded_ram(
                crate::hardware::memory::initial_ram(),
                rom,
            )[a] == crate::hardware::memory::FONT@[a],
{
}

/// The ticks due at `now` are exactly the tick times `next`, `next + rate`, ... that
/// are not after `now`: after counting them the next tick time lies after `now`, and
/// the last one counted does not.
pub proof fn lemma_ticks_due(next: u64, now: u64, rate: u64)
    requires
        rate > 0,
    ensures
        next + crate::hardware::cpu::ticks_due(next, now, rate) * rate > now,
        crate::hardware::cpu::ticks_due(next, now, rate) > 0 ==> next + (
        crate::hardware::cpu::ticks_due(next, now, rate) - 1) * rate <= now,
{
    if now >= next {
        let d = now - next;
        vstd::arithmetic::div_mod::lemma_fundamental_div_mod(d, rate as int);
        let q = d / (rate as int);
        assert((q + 1) * rate == q * rate + rate) by (nonlinear_arith);
        assert(q * rate == rate * q) by (nonlinear_arith);
    }
}

/// A timer counts down by one per tick and stops at zero: after `k` ticks it has lost
/// the smaller of `k` and its value.
pub proof fn lemma_timer_after(t: u8, k: nat)
    ensures
        crate::hardware::cpu::timer_after(t, k) <= t,
        t - crate::hardware::cpu::timer_after(t, k) == if k < t { k as int } else { t as int },
{
}

} // verus!
