use vstd::prelude::*;
use crate::graphics::display::key_event_check;
use crate::graphics::grid::{
    box_col, box_origin, box_row, color_byte, lemma_box_is_cell, paint_box, Grid, DISPLAY_LEN,
    GRID_X_BOXES, GRID_Y_BOXES,
};
use crate::hardware::machine::{
    addr_of, alu, byte_of, call, clear_screen, draw, draw_ok, executable, first_pressed,
    lemma_byte_ops, lemma_nibbles, loaded_ram, machine_wf, misc, misc_ok, n_of, op_of,
    return_from, skip_if, skip_ok, sprite_pixel, step, with_pc, with_v, word_at, x_of, y_of,
    Execution, Machine,
};
use crate::hardware::memory::{Memory, MEMORY_SIZE, PROGRAM_START};
use crate::hardware::sprite::{
    drawing, lemma_bits, lemma_draw_done, lemma_draw_pixel_cells, lemma_draw_pixel_collision,
    lemma_draw_pixel_display, lemma_drawn_step, lemma_next_row, lemma_skip_pixel,
};
use crate::system::emulator::{Keys, Registers};

verus! {

/// Nanoseconds between two ticks of the timers: one sixtieth of a second.
pub const TICK_NANOS: u64 = 16_666_667;

/// Makes `std::time::Instant` known to the verifier, as an opaque type: the processor
/// keeps the instant it was made at and measures its timer ticks from there.
#[verifier::external_type_specification]
#[verifier::external_body]
pub struct ExInstant(std::time::Instant);

/// Reads the monotonic clock (`std::time::Instant::now`). Nothing is promised of
/// the value: it is the time.
#[verifier::external_body]
fn start_clock() -> (t: std::time::Instant) {
    std::time::Instant::now()
}

/// The time passed since `start` by the monotonic clock (`std::time::Instant::elapsed`).
/// Nothing is promised of the value: it is the time.
#[verifier::external_body]
fn elapsed(start: &std::time::Instant) -> (d: std::time::Duration) {
    start.elapsed()
}

/// The whole nanoseconds in `d` (`std::time::Duration::as_nanos`). The duration is
/// opaque here, so nothing is stated of the number.
#[verifier::external_body]
fn whole_nanos(d: &std::time::Duration) -> (n: u128) {
    d.as_nanos()
}

/// Draws a random byte (`rand::random::<u8>`, from the thread-local generator). Any
/// byte may come back. The generator panics when the operating system cannot seed it;
/// no condition here excludes that.
#[verifier::external_body]
fn random_byte() -> (b: u8) {
    rand::random::<u8>()
}

/// The number of timer ticks due at time `now` when the next one is due at `next`
/// and they come every `rate` nanoseconds.
pub open spec fn ticks_due(next: u64, now: u64, rate: u64) -> nat {
    if now < next {
        0
    } else {
        ((now - next) / (rate as int) + 1) as nat
    }
}

/// A timer holding `t` after `k` ticks: it counts down to zero and stays there.
pub open spec fn timer_after(t: u8, k: nat) -> u8 {
    if t > k {
        (t - k) as u8
    } else {
        0
    }
}

/// `m` with both timers counted down by `k` ticks.
pub open spec fn timers_ticked(m: Machine, k: nat) -> Machine {
    Machine { delay: timer_after(m.delay, k), sound: timer_after(m.sound, k), ..m }
}

/// What one emulation cycle did.
#[derive(Debug, Clone, Copy, PartialEq, Eq, Structural)]
pub enum Cycle {
    /// The instruction word was fetched and executed, with this outcome.
    Ran(u16, Execution),
    /// The program counter does not leave room for a whole instruction word in memory;
    /// nothing was done.
    PcOutsideMemory,
    /// The instruction word was fetched but cannot be executed in this state (it would
    /// overflow or reach outside memory or the keypad); only the fetch was done.
    NotExecutable(u16),
}

/// The processor together with everything it owns: registers, memory, screen,
/// keypad, and the schedule of its 60 Hz timers.
pub struct Cpu {
    registers: Registers,
    memory: Memory,
    grid: Grid,
    keys: Keys,
    tick_rate: u64,
    next_tick: u64,
    clock: std::time::Instant,
}

impl View for Cpu {
    type V = Machine;

    closed spec fn view(&self) -> Machine {
        Machine {
            v: self.registers.registers@,
            index: self.registers.index,
            delay: self.registers.delay,
            sound: self.registers.sound,
            pc: self.registers.pc,
            ram: self.memory@,
            stack: self.memory.stack@,
            cells: Seq::new(64, |x: int| self.grid.data@[x]@),
            display: self.grid.display@,
            keys: self.keys@,
        }
    }
}

impl Cpu {
    /// The processor's invariant: its machine state is well formed and the timers
    /// tick every `TICK_NANOS` nanoseconds.
    pub closed spec fn inv(&self) -> bool {
        &&& machine_wf(self@)
        &&& self.grid.wf()
        &&& self.tick_rate == TICK_NANOS
        &&& self.next_tick >= TICK_NANOS
    }

    /// Nanoseconds between timer ticks.
    pub closed spec fn spec_tick_rate(&self) -> u64 {
        self.tick_rate
    }

    /// Clock reading, in nanoseconds since the processor was made, at which the next
    /// timer tick is due.
    pub closed spec fn spec_next_tick(&self) -> u64 {
        self.next_tick
    }

    /// Makes a processor that owns the given parts, with the program counter at
    /// `PROGRAM_START` and the first timer tick due one tick from now.
    pub fn new(registers: Registers, memory: Memory, grid: Grid, keys: Keys) -> (c: Cpu)
        requires
            grid.wf(),
            grid.cells_are_bits(),
            grid.shows_cells(),
        ensures
            c.inv(),
            c@ == (Machine {
                v: registers.registers@,
                index: registers.index,
                delay: registers.delay,
                sound: registers.sound,
                pc: PROGRAM_START,
                ram: memory@,
                stack: memory.stack@,
                cells: Seq::new(64, |x: int| grid.data@[x]@),
                display: grid.display@,
                keys: keys@,
            }),
            c.spec_tick_rate() == TICK_NANOS,
            c.spec_next_tick() == TICK_NANOS,
    {
        let mut registers = registers;
        registers.pc = PROGRAM_START;
        let tick_rate = TICK_NANOS;
        let clock = start_clock();
        let next_tick = tick_rate;
        let c = Cpu { registers, memory, grid, keys, tick_rate, next_tick, clock };
        proof {
            lemma_grid_machine_wf(&c);
        }
        c
    }

    /// The registers.
    pub fn registers(&self) -> (r: &Registers)
        ensures
            r.registers@ == self@.v,
            r.index == self@.index,
            r.delay == self@.delay,
            r.sound == self@.sound,
            r.pc == self@.pc,
    {
        &self.registers
    }

    /// The memory.
    pub fn memory(&self) -> (m: &Memory)
        ensures
            m@ == self@.ram,
            m.stack@ == self@.stack,
    {
        &self.memory
    }

    /// The screen.
    pub fn grid(&self) -> (g: &Grid)
        requires
            self.inv(),
        ensures
            g.wf(),
            g.display@ == self@.display,
            forall|x: int, y: int|
                0 <= x < 64 && 0 <= y < 32 ==> #[trigger] g.cell(x, y) == self@.cells[x][y],
    {
        &self.grid
    }

    /// The keypad as the processor last saw it.
    pub fn keys(&self) -> (k: Keys)
        ensures
            k@ == self@.keys,
    {
        self.keys
    }

    /// Replaces the keypad state seen by the processor; nothing else changes.
    pub fn set_keys(&mut self, keys: Keys)
        requires
            old(self).inv(),
        ensures
            final(self).inv(),
            final(self)@ == (Machine { keys: keys@, ..old(self)@ }),
            final(self).spec_next_tick() == old(self).spec_next_tick(),
    {
        self.keys = keys;
        proof {
            assert(self@ =~~= Machine { keys: keys@, ..old(self)@ });
        }
    }

    /// Copies `rom` into memory from `PROGRAM_START` on; nothing else changes.
    pub fn load_rom(&mut self, rom: &Vec<u8>)
        requires
            old(self).inv(),
            PROGRAM_START + rom@.len() <= MEMORY_SIZE,
        ensures
            final(self).inv(),
            final(self)@ == (Machine { ram: loaded_ram(old(self)@.ram, rom@), ..old(self)@ }),
            final(self).spec_next_tick() == old(self).spec_next_tick(),
    {
        let mut start: u16 = PROGRAM_START;
        let mut k: usize = 0;
        while k < rom.len()
            invariant
                PROGRAM_START + rom@.len() <= MEMORY_SIZE,
                k <= rom@.len(),
                start == PROGRAM_START + k,
                self.inv(),
                self.next_tick == old(self).next_tick,
                self@ == (Machine { ram: self@.ram, ..old(self)@ }),
                self@.ram.len() == MEMORY_SIZE,
                forall|a: int|
                    0 <= a < MEMORY_SIZE ==> #[trigger] self@.ram[a] == if PROGRAM_START <= a
                        < PROGRAM_START + k {
                        rom@[a - PROGRAM_START]
                    } else {
                        old(self)@.ram[a]
                    },
            decreases rom@.len() - k,
        {
            let ghost before = self@;
            self.memory.set(start, rom[k]);
            proof {
                assert(self@ =~~= Machine { ram: self@.ram, ..old(self)@ });
                lemma_same_screen_wf(before, self@);
            }
            start += 1;
            k += 1;
        }
        proof {
            let expected = Machine { ram: loaded_ram(old(self)@.ram, rom@), ..old(self)@ };
            assert(self@.ram =~= expected.ram);
            assert(self@ =~~= expected);
        }
    }

    /// Reads the big-endian instruction word at the program counter and advances
    /// the program counter by two.
    pub fn fetch(&mut self) -> (w: u16)
        requires
            old(self).inv(),
            old(self)@.pc + 1 < MEMORY_SIZE,
        ensures
            final(self).inv(),
            w == word_at(old(self)@),
            final(self)@ == with_pc(old(self)@, (old(self)@.pc + 2) as u16),
            final(self).spec_next_tick() == old(self).spec_next_tick(),
    {
        let first_byte = self.memory.get(self.registers.pc);
        let second_byte = self.memory.get(self.registers.pc + 1);
        self.registers.pc += 2;
        let w = (first_byte as u16) << 8 | second_byte as u16;
        proof {
            assert(w == first_byte as int * 256 + second_byte) by (bit_vector)
                requires
                    w == (first_byte as u16) << 8 | second_byte as u16,
            ;
            assert(self@ =~~= with_pc(old(self)@, (old(self)@.pc + 2) as u16));
        }
        w
    }

    /// Whether `fetch` may be called: both bytes of the word lie in memory.
    pub fn can_fetch(&self) -> (b: bool)
        ensures
            b == (self@.pc + 1 < MEMORY_SIZE),
    {
        (self.registers.pc as usize) + 1 < MEMORY_SIZE
    }

    /// Decrements the timers once for every tick due at time `now` (nanoseconds since
    /// the processor was made), never below zero, and schedules the next tick.
    pub fn dec_timers_at(&mut self, now: u64)
        requires
            old(self).inv(),
            now <= u64::MAX - TICK_NANOS,
        ensures
            final(self).inv(),
            final(self)@ == (Machine {
                delay: timer_after(
                    old(self)@.delay,
                    ticks_due(old(self).spec_next_tick(), now, TICK_NANOS),
                ),
                sound: timer_after(
                    old(self)@.sound,
                    ticks_due(old(self).spec_next_tick(), now, TICK_NANOS),
                ),
                ..old(self)@
            }),
            final(self).spec_next_tick() == old(self).spec_next_tick() + ticks_due(
                old(self).spec_next_tick(),
                now,
                TICK_NANOS,
            ) * TICK_NANOS,
            final(self).spec_next_tick() > now,
    {
        let ghost next0 = self.next_tick;
        let ghost mut count: nat = 0;
        while now >= self.next_tick
            invariant
                self.inv(),
                now <= u64::MAX - TICK_NANOS,
                self.next_tick == next0 + count * TICK_NANOS,
                count > 0 ==> next0 + (count - 1) * TICK_NANOS <= now,
                self@ == (Machine {
                    delay: timer_after(old(self)@.delay, count),
                    sound: timer_after(old(self)@.sound, count),
                    ..old(self)@
                }),
                next0 == old(self).next_tick,
            decreases now + TICK_NANOS - self.next_tick,
        {
            if self.registers.delay > 0 {
                self.registers.delay -= 1;
            }
            if self.registers.sound > 0 {
                self.registers.sound -= 1;
            }
            self.next_tick += self.tick_rate;
            proof {
                count = count + 1;
                assert(self@ =~~= Machine {
                    delay: timer_after(old(self)@.delay, count),
                    sound: timer_after(old(self)@.sound, count),
                    ..old(self)@
                });
            }
        }
        proof {
            if count > 0 {
                let r = now - (next0 + (count - 1) * TICK_NANOS);
                vstd::arithmetic::div_mod::lemma_fundamental_div_mod_converse(
                    now - next0,
                    TICK_NANOS as int,
                    count - 1,
                    r,
                );
            }
            assert(count == ticks_due(next0, now, TICK_NANOS));
        }
    }

    /// Decrements the timers once for every tick that is due by the clock, never
    /// below zero, and schedules the next tick. Once the clock reading no longer fits
    /// in 64 bits of nanoseconds (after about 584 years) the timers stop.
    pub fn dec_timers(&mut self)
        requires
            old(self).inv(),
        ensures
            final(self).inv(),
            exists|now: u64|
                now <= u64::MAX - TICK_NANOS && final(self)@ == (Machine {
                    delay: timer_after(
                        old(self)@.delay,
                        #[trigger] ticks_due(old(self).spec_next_tick(), now, TICK_NANOS),
                    ),
                    sound: timer_after(
                        old(self)@.sound,
                        ticks_due(old(self).spec_next_tick(), now, TICK_NANOS),
                    ),
                    ..old(self)@
                }) && final(self).spec_next_tick() == old(self).spec_next_tick() + ticks_due(
                    old(self).spec_next_tick(),
                    now,
                    TICK_NANOS,
                ) * TICK_NANOS,
    {
        let now = whole_nanos(&elapsed(&self.clock));
        if now <= (u64::MAX - TICK_NANOS) as u128 {
            self.dec_timers_at(now as u64);
            proof {
                let t = now as u64;
                assert(ticks_due(old(self).spec_next_tick(), t, TICK_NANOS) == ticks_due(
                    old(self).next_tick,
                    t,
                    TICK_NANOS,
                ));
            }
        } else {
            proof {
                assert(ticks_due(old(self).spec_next_tick(), 0u64, TICK_NANOS) == 0);
                assert(self@ =~~= Machine {
                    delay: timer_after(old(self)@.delay, 0),
                    sound: timer_after(old(self)@.sound, 0),
                    ..old(self)@
                });
            }
        }
    }

    /// The processor's invariant made usable outside this module: the machine state
    /// is well formed (cells hold 0 or 1, the frame shows the cells, every part has
    /// its size) and the timers tick every `TICK_NANOS` nanoseconds, the next tick
    /// being due no earlier than one tick after the processor was made.
    pub proof fn lemma_inv(&self)
        requires
            self.inv(),
        ensures
            machine_wf(self@),
            self.spec_tick_rate() == TICK_NANOS,
            self.spec_next_tick() >= TICK_NANOS,
    {
    }

    /// One emulation cycle: fetches the instruction word at the program counter,
    /// executes it, and lets the timers tick by the clock. Stops early, and says so,
    /// where fetching or executing is not possible.
    pub fn cycle(&mut self) -> (c: Cycle)
        requires
            old(self).inv(),
        ensures
            final(self).inv(),
            match c {
                Cycle::PcOutsideMemory => old(self)@.pc + 1 >= MEMORY_SIZE && final(self)@ == old(
                    self,
                )@ && final(self).spec_next_tick() == old(self).spec_next_tick(),
                Cycle::NotExecutable(w) => {
                    &&& old(self)@.pc + 1 < MEMORY_SIZE
                    &&& w == word_at(old(self)@)
                    &&& !executable(with_pc(old(self)@, (old(self)@.pc + 2) as u16), w)
                    &&& final(self)@ == with_pc(old(self)@, (old(self)@.pc + 2) as u16)
                    &&& final(self).spec_next_tick() == old(self).spec_next_tick()
                },
                Cycle::Ran(w, e) => {
                    let fetched = with_pc(old(self)@, (old(self)@.pc + 2) as u16);
                    &&& old(self)@.pc + 1 < MEMORY_SIZE
                    &&& w == word_at(old(self)@)
                    &&& executable(fetched, w)
                    &&& exists|random: u8, now: u64|
                        #![trigger step(fetched, w, random), ticks_due(old(self).spec_next_tick(), now, TICK_NANOS)]
                        {
                            let k = ticks_due(old(self).spec_next_tick(), now, TICK_NANOS);
                            &&& op_of(w) != 0xC ==> random == 0
                            &&& now <= u64::MAX - TICK_NANOS
                            &&& e == step(fetched, w, random).1
                            &&& final(self)@ == timers_ticked(step(fetched, w, random).0, k)
                            &&& final(self).spec_next_tick() == old(self).spec_next_tick() + k
                                * TICK_NANOS
                        }
                },
            },
    {
        if !self.can_fetch() {
            return Cycle::PcOutsideMemory;
        }
        let instruction = self.fetch();
        if !self.can_execute(instruction) {
            return Cycle::NotExecutable(instruction);
        }
        let ghost fetched = self@;
        let ghost next0 = self.next_tick;
        let e = self.execute(instruction);
        let ghost executed = self@;
        self.dec_timers();
        proof {
            let random = if op_of(instruction) != 0xC {
                0u8
            } else {
                choose|random: u8| (executed, e) == #[trigger] step(fetched, instruction, random)
            };
            assert((executed, e) == step(fetched, instruction, random));
            let now = choose|now: u64|
                now <= u64::MAX - TICK_NANOS && self@ == (Machine {
                    delay: timer_after(
                        executed.delay,
                        #[trigger] ticks_due(next0, now, TICK_NANOS),
                    ),
                    sound: timer_after(executed.sound, ticks_due(next0, now, TICK_NANOS)),
                    ..executed
                }) && self.next_tick == next0 + ticks_due(next0, now, TICK_NANOS) * TICK_NANOS;
            let k = ticks_due(next0, now, TICK_NANOS);
            assert(self@ == timers_ticked(step(fetched, instruction, random).0, k));
        }
        Cycle::Ran(instruction, e)
    }

    /// Sets register `x` to `val`.
    fn set_reg(&mut self, x: usize, val: u8)
        requires
            old(self).inv(),
            x < 16,
        ensures
            final(self).inv(),
            final(self)@ == with_v(old(self)@, x as int, val),
            final(self).next_tick == old(self).next_tick,
    {
        self.registers.registers[x] = val;
        proof {
            assert(self@ =~~= with_v(old(self)@, x as int, val));
        }
    }

    /// Advances the program counter past the next instruction when `cond` holds.
    fn skip_next_if(&mut self, cond: bool)
        requires
            old(self).inv(),
            skip_ok(old(self)@, cond),
        ensures
            final(self).inv(),
            final(self)@ == skip_if(old(self)@, cond),
            final(self).next_tick == old(self).next_tick,
    {
        if cond {
            self.registers.pc += 2;
        }
        proof {
            assert(self@ =~~= skip_if(old(self)@, cond));
        }
    }

    /// Sets the cell at (`x`, `y`) to `val` and repaints its box.
    fn paint_cell(&mut self, x: usize, y: usize, val: u8)
        requires
            old(self).inv(),
            x < GRID_X_BOXES,
            y < GRID_Y_BOXES,
            val <= 1,
        ensures
            final(self).inv(),
            final(self)@ == (Machine {
                cells: old(self)@.cells.update(x as int, old(self)@.cells[x as int].update(y as int, val)),
                display: paint_box(old(self)@.display, box_origin(x as int, y as int), val),
                ..old(self)@
            }),
            final(self).next_tick == old(self).next_tick,
    {
        self.grid.data[x][y] = val;
        self.grid.render_box(x, y, val);
        proof {
            let expected = Machine {
                cells: old(self)@.cells.update(x as int, old(self)@.cells[x as int].update(y as int, val)),
                display: paint_box(old(self)@.display, box_origin(x as int, y as int), val),
                ..old(self)@
            };
            assert(self@.cells[x as int] =~= expected.cells[x as int]);
            assert(self@.cells =~= expected.cells);
            assert(self@ =~~= expected);
            let m0 = old(self)@;
            let m1 = self@;
            assert forall|j: int| 0 <= j < DISPLAY_LEN implies byte_shows_cell(m1, j) by {
                lemma_box_is_cell(x as int, y as int, j);
                assert(byte_shows_cell(m0, j));
            }
            assert forall|a: int| 0 <= a < 64 implies (#[trigger] m1.cells[a]).len() == 32 by {}
            assert forall|a: int, b: int| 0 <= a < 64 && 0 <= b < 32 implies #[trigger] m1.cells[a][b]
                <= 1 by {
                assert(m0.cells[a][b] <= 1);
            }
        }
    }

    /// Instruction 00E0: darkens every cell, repainting the boxes one by one.
    fn clear(&mut self)
        requires
            old(self).inv(),
        ensures
            final(self).inv(),
            final(self)@ == clear_screen(old(self)@),
            final(self).next_tick == old(self).next_tick,
    {
        let ghost m0 = self@;
        let mut x: usize = 0;
        while x < GRID_X_BOXES
            invariant
                self.inv(),
                self.next_tick == old(self).next_tick,
                m0 == old(self)@,
                x <= GRID_X_BOXES,
                self@ == (Machine { cells: self@.cells, display: self@.display, ..m0 }),
                forall|a: int, b: int|
                    0 <= a < 64 && 0 <= b < 32 ==> #[trigger] self@.cells[a][b] == if a < x {
                        0
                    } else {
                        m0.cells[a][b]
                    },
                forall|j: int|
                    0 <= j < DISPLAY_LEN ==> #[trigger] self@.display[j] == if box_col(j) < x {
                        color_byte(0, j % 4)
                    } else {
                        m0.display[j]
                    },
            decreases GRID_X_BOXES - x,
        {
            let mut y: usize = 0;
            while y < GRID_Y_BOXES
                invariant
                    self.inv(),
                    self.next_tick == old(self).next_tick,
                    x < GRID_X_BOXES,
                    y <= GRID_Y_BOXES,
                    self@ == (Machine { cells: self@.cells, display: self@.display, ..m0 }),
                    forall|a: int, b: int|
                        0 <= a < 64 && 0 <= b < 32 ==> #[trigger] self@.cells[a][b] == if a < x || (a
                            == x && b < y) {
                            0
                        } else {
                            m0.cells[a][b]
                        },
                    forall|j: int|
                        0 <= j < DISPLAY_LEN ==> #[trigger] self@.display[j] == if box_col(j) < x || (
                        box_col(j) == x && box_row(j) < y) {
                            color_byte(0, j % 4)
                        } else {
                            m0.display[j]
                        },
                decreases GRID_Y_BOXES - y,
            {
                let ghost before = self@;
                self.paint_cell(x, y, 0);
                proof {
                    assert forall|j: int| 0 <= j < DISPLAY_LEN implies #[trigger] self@.display[j]
                        == if box_col(j) < x || (box_col(j) == x && box_row(j) < y + 1) {
                        color_byte(0, j % 4)
                    } else {
                        m0.display[j]
                    } by {
                        lemma_box_is_cell(x as int, y as int, j);
                        assert(self@.display[j] == paint_box(before.display, box_origin(x as int, y as int), 0)[j]);
                    }
                    assert forall|a: int, b: int| 0 <= a < 64 && 0 <= b < 32 implies #[trigger] self@.cells[a][b]
                        == if a < x || (a == x && b < y + 1) {
                        0
                    } else {
                        m0.cells[a][b]
                    } by {
                        assert(before.cells[a][b] == if a < x || (a == x && b < y) {
                            0
                        } else {
                            m0.cells[a][b]
                        });
                    }
                }
                y = y + 1;
            }
            x = x + 1;
        }
        proof {
            let expected = clear_screen(m0);
            assert forall|a: int| 0 <= a < 64 implies self@.cells[a] =~= expected.cells[a] by {
                assert forall|b: int| 0 <= b < 32 implies self@.cells[a][b] == expected.cells[a][b] by {}
            }
            assert(self@.cells =~= expected.cells);
            assert(self@.display =~= expected.display);
            assert(self@ =~~= expected);
        }
    }

    /// Instruction DXYN: draws the N-row sprite at I at (VX, VY), toggling cells.
    fn draw_sprite(&mut self, instruction: u16)
        requires
            old(self).inv(),
            op_of(instruction) == 0xD,
            draw_ok(old(self)@, instruction),
        ensures
            final(self).inv(),
            final(self)@ == draw(old(self)@, instruction),
            final(self).next_tick == old(self).next_tick,
    {
        let ghost m0 = self@;
        let ghost i = instruction;
        proof {
            lemma_nibbles(instruction);
            assert(drawing(m0, i, self@, 0, 0, 0));
        }
        let nib2 = (instruction & 0x0F00) >> 8;
        let nib3 = (instruction & 0x00F0) >> 4;
        let nib4 = instruction & 0x000F;
        let vx = self.registers.registers[nib2 as usize];
        let vy = self.registers.registers[nib3 as usize];
        let n = nib4;
        let mut collision: u8 = 0;
        let mut row: u16 = 0;
        while row < n
            invariant
                self.inv(),
                self.next_tick == old(self).next_tick,
                m0 == old(self)@,
                machine_wf(m0),
                i == instruction,
                draw_ok(m0, i),
                vx == m0.v[x_of(i)],
                vy == m0.v[y_of(i)],
                n == n_of(i),
                row <= n,
                drawing(m0, i, self@, row as int, 0, collision),
            decreases n - row,
        {
            let sprite_byte = self.memory.get(self.registers.index + row);
            let mut bit: u8 = 0;
            while bit < 8
                invariant
                    self.inv(),
                    self.next_tick == old(self).next_tick,
                    m0 == old(self)@,
                    machine_wf(m0),
                    i == instruction,
                    draw_ok(m0, i),
                    vx == m0.v[x_of(i)],
                    vy == m0.v[y_of(i)],
                    n == n_of(i),
                    row < n,
                    bit <= 8,
                    sprite_byte == m0.ram[m0.index + row],
                    drawing(m0, i, self@, row as int, bit as int, collision),
                decreases 8 - bit,
            {
                if (sprite_byte & (0b1000_0000 >> bit)) != 0 {
                    proof {
                        assert(sprite_pixel(m0.ram[m0.index + row], bit as int));
                    }
                    let x = ((vx + bit) % GRID_X_BOXES as u8) as usize;
                    let y = ((vy + row as u8) % GRID_Y_BOXES as u8) as usize;
                    let ghost before = self@;
                    let ghost col = collision;
                    proof {
                        lemma_drawn_step(m0, i, row as int, bit as int, x as int, y as int);
                        lemma_draw_pixel_cells(
                            m0,
                            i,
                            before.cells,
                            row as int,
                            bit as int,
                            x as int,
                            y as int,
                        );
                        assert(before.cells[x as int][y as int] <= 1);
                        lemma_bits(before.cells[x as int][y as int], collision);
                    }
                    collision |= self.grid.data[x][y];
                    let value = self.grid.data[x][y] ^ 1;
                    self.paint_cell(x, y, value);
                    proof {
                        lemma_draw_pixel_display(
                            m0,
                            i,
                            before.cells,
                            self@.cells,
                            before.display,
                            row as int,
                            bit as int,
                            x as int,
                            y as int,
                        );
                        lemma_draw_pixel_collision(
                            m0,
                            i,
                            row as int,
                            bit as int,
                            x as int,
                            y as int,
                            col,
                            collision,
                        );
                    }
                } else {
                    proof {
                        lemma_skip_pixel(m0, i, self@, row as int, bit as int, collision);
                    }
                }
                bit = bit + 1;
            }
            proof {
                lemma_next_row(m0, i, self@, row as int, collision);
            }
            row = row + 1;
        }
        proof {
            lemma_draw_done(m0, i, self@, collision);
        }
        let vf: u8 = if collision == 1 { 1 } else { 0 };
        self.set_reg(15, vf);
        proof {
            let expected = draw(m0, i);
            assert(self@.v =~= expected.v);
            assert(self@ =~~= expected);
        }
    }

    /// The arithmetic and logic group 8XYN; returns `false`, changing nothing, for an
    /// unknown N.
    fn alu_op(&mut self, x: usize, y: usize, op: u16) -> (known: bool)
        requires
            old(self).inv(),
            x < 16,
            y < 16,
        ensures
            final(self).inv(),
            final(self).next_tick == old(self).next_tick,
            match alu(old(self)@, x as int, y as int, op as int) {
                Some(m) => known && final(self)@ == m,
                None => !known && final(self)@ == old(self)@,
            },
    {
        let vx = self.registers.registers[x];
        let vy = self.registers.registers[y];
        proof {
            lemma_byte_ops(vx, vy);
            lemma_byte_ops(vy, vx);
        }
        if op == 0 {
            self.set_reg(x, vy);
        } else if op == 1 {
            self.set_reg(x, vx | vy);
        } else if op == 2 {
            self.set_reg(x, vx & vy);
        } else if op == 3 {
            self.set_reg(x, vx ^ vy);
        } else if op == 4 {
            let new_vx = vx.wrapping_add(vy);
            let carry = vx as u16 + vy as u16 > 255;
            let new_vf: u8 = if carry { 1 } else { 0 };
            self.set_reg(x, new_vx);
            self.set_reg(0xF, new_vf);
        } else if op == 5 {
            let new_vx = vx.wrapping_sub(vy);
            let borrow = vx < vy;
            let new_vf: u8 = if borrow { 0 } else { 1 };
            self.set_reg(x, new_vx);
            self.set_reg(0xF, new_vf);
        } else if op == 6 {
            let lsb = vx & 1;
            self.set_reg(x, vx >> 1);
            self.set_reg(0xF, lsb);
        } else if op == 7 {
            let new_vx = vy.wrapping_sub(vx);
            let borrow = vy < vx;
            let new_vf: u8 = if borrow { 0 } else { 1 };
            self.set_reg(x, new_vx);
            self.set_reg(0xF, new_vf);
        } else if op == 0xE {
            let lsb = (vx >> 7) & 1;
            self.set_reg(x, vx << 1);
            self.set_reg(0xF, lsb);
        } else {
            return false;
        }
        true
    }

    /// The timer, keypad and memory group FXNN; returns `None`, changing nothing, for
    /// an unknown NN.
    fn misc_op(&mut self, x: usize, code: u8) -> (r: Option<Execution>)
        requires
            old(self).inv(),
            x < 16,
            misc_ok(old(self)@, x as int, code),
        ensures
            final(self).inv(),
            final(self).next_tick == old(self).next_tick,
            match misc(old(self)@, x as int, code) {
                Some((m, e)) => r == Some(e) && final(self)@ == m,
                None => r is None && final(self)@ == old(self)@,
            },
    {
        let ghost m0 = self@;
        let vx = self.registers.registers[x];
        if code == 0x07 {
            let d = self.registers.delay;
            self.set_reg(x, d);
        } else if code == 0x15 {
            self.registers.delay = vx;
            proof {
                assert(self@ =~~= Machine { delay: vx, ..m0 });
            }
        } else if code == 0x18 {
            self.registers.sound = vx;
            proof {
                assert(self@ =~~= Machine { sound: vx, ..m0 });
            }
        } else if code == 0x1E {
            self.registers.index += vx as u16;
            proof {
                assert(self@ =~~= Machine { index: (m0.index + vx) as u16, ..m0 });
            }
        } else if code == 0x0A {
            return self.wait_for_key(x);
        } else if code == 0x29 {
            self.registers.index = (vx * 5) as u16;
            proof {
                assert(self@ =~~= Machine { index: (vx * 5) as u16, ..m0 });
            }
        } else if code == 0x33 {
            let hundreds = vx / 100;
            let tens = (vx / 10) % 10;
            let ones = vx % 10;
            self.memory.set(self.registers.index, hundreds);
            self.memory.set(self.registers.index + 1, tens);
            self.memory.set(self.registers.index + 2, ones);
            proof {
                let i = m0.index as int;
                assert(self@ =~~= Machine {
                    ram: m0.ram.update(i, vx / 100).update(i + 1, (vx / 10) % 10).update(i + 2, vx % 10),
                    ..m0
                });
                lemma_same_screen_wf(m0, self@);
            }
        } else if code == 0x55 {
            let i = self.registers.index as usize;
            let mut idx: usize = 0;
            while idx <= x
                invariant
                    self.inv(),
                    self.next_tick == old(self).next_tick,
                    m0 == old(self)@,
                    machine_wf(m0),
                    x < 16,
                    i == m0.index,
                    i + x < MEMORY_SIZE,
                    idx <= x + 1,
                    self@ == (Machine { ram: self@.ram, ..m0 }),
                    self@.ram.len() == MEMORY_SIZE,
                    forall|a: int|
                        0 <= a < MEMORY_SIZE ==> #[trigger] self@.ram[a] == if i <= a < i + idx {
                            m0.v[a - i]
                        } else {
                            m0.ram[a]
                        },
                decreases x + 1 - idx,
            {
                let ghost before = self@;
                self.memory.set((i + idx) as u16, self.registers.registers[idx]);
                proof {
                    assert(self@ =~~= Machine { ram: self@.ram, ..m0 });
                    lemma_same_screen_wf(before, self@);
                }
                idx = idx + 1;
            }
            proof {
                let expected = Machine {
                    ram: Seq::new(
                        m0.ram.len(),
                        |a: int| if i <= a <= i + x { m0.v[a - i] } else { m0.ram[a] },
                    ),
                    ..m0
                };
                assert(self@.ram =~= expected.ram);
                assert(self@ =~~= expected);
            }
        } else if code == 0x65 {
            let i = self.registers.index as usize;
            let mut idx: usize = 0;
            while idx <= x
                invariant
                    self.inv(),
                    self.next_tick == old(self).next_tick,
                    m0 == old(self)@,
                    machine_wf(m0),
                    x < 16,
                    i == m0.index,
                    i + x < MEMORY_SIZE,
                    idx <= x + 1,
                    self@ == (Machine { v: self@.v, ..m0 }),
                    self@.v.len() == 16,
                    forall|r: int|
                        0 <= r < 16 ==> #[trigger] self@.v[r] == if r < idx {
                            m0.ram[i + r]
                        } else {
                            m0.v[r]
                        },
                decreases x + 1 - idx,
            {
                let b = self.memory.get((i + idx) as u16);
                self.set_reg(idx, b);
                proof {
                    assert(self@ =~~= Machine { v: self@.v, ..m0 });
                }
                idx = idx + 1;
            }
            proof {
                let expected = Machine {
                    v: Seq::new(16, |r: int| if r <= x { m0.ram[i + r] } else { m0.v[r] }),
                    ..m0
                };
                assert(self@.v =~= expected.v);
                assert(self@ =~~= expected);
            }
        } else {
            return None;
        }
        Some(Execution::Done)
    }

    /// Instruction FX0A: records the lowest held key in VX and asks to wait for its
    /// release; with no key held, steps back to execute the instruction again.
    fn wait_for_key(&mut self, x: usize) -> (r: Option<Execution>)
        requires
            old(self).inv(),
            x < 16,
            misc_ok(old(self)@, x as int, 0x0A),
        ensures
            final(self).inv(),
            final(self).next_tick == old(self).next_tick,
            Some((final(self)@, r.unwrap())) == misc(old(self)@, x as int, 0x0A),
            r is Some,
    {
        let ghost m0 = self@;
        let mut i: usize = 0;
        while i < 16 && !self.keys[i]
            invariant
                i <= 16,
                self@ == m0,
                m0.keys.len() == 16,
                forall|j: int| 0 <= j < i ==> !#[trigger] m0.keys[j],
            decreases 16 - i,
        {
            i = i + 1;
        }
        if i < 16 {
            proof {
                assert(m0.keys[i as int]);
                let k = choose|k: int|
                    0 <= k < 16 && m0.keys[k] && forall|j: int| 0 <= j < k ==> !#[trigger] m0.keys[j];
                assert(k == i) by {
                    if k < i {
                        assert(!m0.keys[k]);
                    }
                    if k > i {
                        assert(!m0.keys[i as int]);
                    }
                }
                assert(first_pressed(m0.keys) == Some(i as int));
            }
            self.set_reg(x, i as u8);
            Some(Execution::WaitForKeyRelease(i as u8))
        } else {
            proof {
                assert(first_pressed(m0.keys) is None);
            }
            self.registers.pc -= 2;
            proof {
                assert(self@ =~~= with_pc(m0, (m0.pc - 2) as u16));
            }
            Some(Execution::Done)
        }
    }

    /// Executes `instruction`, using `random` as the random byte that CXNN draws.
    pub fn execute_with(&mut self, instruction: u16, random: u8) -> (e: Execution)
        requires
            old(self).inv(),
            executable(old(self)@, instruction),
        ensures
            final(self).inv(),
            (final(self)@, e) == step(old(self)@, instruction, random),
            final(self).spec_next_tick() == old(self).spec_next_tick(),
    {
        let ghost m0 = self@;
        proof {
            lemma_nibbles(instruction);
        }
        let nib1 = (instruction & 0xF000) >> 12;
        let nib2 = (instruction & 0x0F00) >> 8;
        let nib3 = (instruction & 0x00F0) >> 4;
        let nib4 = instruction & 0x000F;
        match (nib1, nib2, nib3, nib4) {
            (0, 0, 0, 0) => {},
            (0, 0, 0xE, 0) => {
                if instruction == 0x00E0 {
                    self.clear();
                }
            },
            (0, 0, 0xE, 0xE) => {
                if let Some(cell) = self.memory.stack.pop() {
                    self.registers.pc = cell;
                }
                proof {
                    assert(self@ =~~= return_from(m0));
                }
            },
            (1, _, _, _) => {
                self.registers.pc = instruction & 0xFFF;
                proof {
                    assert(self@ =~~= with_pc(m0, addr_of(instruction)));
                }
            },
            (2, _, _, _) => {
                let address = instruction & 0xFFF;
                self.memory.stack.push(self.registers.pc);
                self.registers.pc = address;
                proof {
                    assert(self@ =~~= call(m0, addr_of(instruction)));
                }
            },
            (3, _, _, _) => {
                let reg_i = nib2 as usize;
                let value = (instruction & 0xFF) as u8;
                self.skip_next_if(self.registers.registers[reg_i] == value);
            },
            (4, _, _, _) => {
                let reg_i = nib2 as usize;
                let value = (instruction & 0xFF) as u8;
                self.skip_next_if(self.registers.registers[reg_i] != value);
            },
            (5, _, _, 0) => {
                let reg_x = nib2 as usize;
                let reg_y = nib3 as usize;
                self.skip_next_if(self.registers.registers[reg_x] == self.registers.registers[reg_y]);
            },
            (6, _, _, _) => {
                self.set_reg(nib2 as usize, (instruction & 0xFF) as u8);
            },
            (7, _, _, _) => {
                let sum = self.registers.registers[nib2 as usize].wrapping_add((instruction & 0xFF) as u8);
                proof {
                    lemma_byte_ops(m0.v[x_of(instruction)], byte_of(instruction));
                }
                self.set_reg(nib2 as usize, sum);
            },
            (8, _, _, _) => {
                if !self.alu_op(nib2 as usize, nib3 as usize, nib4) {
                    return Execution::UnknownOpcode;
                }
            },
            (9, _, _, _) => {
                let reg_x = nib2 as usize;
                let reg_y = nib3 as usize;
                self.skip_next_if(self.registers.registers[reg_x] != self.registers.registers[reg_y]);
            },
            (0xA, _, _, _) => {
                self.registers.index = instruction & 0xFFF;
                proof {
                    assert(self@ =~~= Machine { index: addr_of(instruction), ..m0 });
                }
            },
            (0xB, _, _, _) => {
                self.registers.pc = (instruction & 0xFFF) + self.registers.registers[0] as u16;
                proof {
                    assert(self@ =~~= with_pc(m0, (addr_of(instruction) + m0.v[0]) as u16));
                }
            },
            (0xC, _, _, _) => {
                self.set_reg(nib2 as usize, random & (instruction & 0xFF) as u8);
            },
            (0xD, _, _, _) => {
                self.draw_sprite(instruction);
            },
            (0xE, _, 9, 0xE) => {
                let key = self.registers.registers[nib2 as usize] as usize;
                self.skip_next_if(self.keys[key]);
            },
            (0xE, _, 0xA, 1) => {
                let key = self.registers.registers[nib2 as usize] as usize;
                self.skip_next_if(!self.keys[key]);
            },
            (0xF, _, _, _) => {
                match self.misc_op(nib2 as usize, (instruction & 0xFF) as u8) {
                    Some(e) => {
                        return e;
                    },
                    None => {
                        return Execution::UnknownOpcode;
                    },
                }
            },
            _ => {
                return Execution::UnknownOpcode;
            },
        }
        Execution::Done
    }

    /// Executes `instruction`. CXNN draws its random byte from `rand`; every other
    /// instruction behaves as `step` says whatever byte is given to it.
    pub fn execute(&mut self, instruction: u16) -> (e: Execution)
        requires
            old(self).inv(),
            executable(old(self)@, instruction),
        ensures
            final(self).inv(),
            exists|random: u8| (final(self)@, e) == #[trigger] step(old(self)@, instruction, random),
            op_of(instruction) != 0xC ==> (final(self)@, e) == step(old(self)@, instruction, 0),
            final(self).spec_next_tick() == old(self).spec_next_tick(),
    {
        proof {
            lemma_nibbles(instruction);
        }
        let random = if (instruction & 0xF000) >> 12 == 0xC {
            random_byte()
        } else {
            0
        };
        self.execute_with(instruction, random)
    }

    /// Whether a skip on `cond` can advance the program counter without overflow.
    fn skip_allowed(&self, cond: bool) -> (b: bool)
        ensures
            b == skip_ok(self@, cond),
    {
        !cond || self.registers.pc <= u16::MAX - 2
    }

    /// Whether sprite `instruction` (DXYN) lies in memory and its set pixels can be
    /// placed without overflowing a coordinate.
    fn sprite_fits(&self, instruction: u16) -> (b: bool)
        requires
            self.inv(),
        ensures
            b == draw_ok(self@, instruction),
    {
        proof {
            lemma_nibbles(instruction);
        }
        let ghost m = self@;
        let n = instruction & 0x000F;
        let vx = self.registers.registers[((instruction & 0x0F00) >> 8) as usize] as u16;
        let vy = self.registers.registers[((instruction & 0x00F0) >> 4) as usize] as u16;
        let index = self.registers.index as usize;
        if n != 0 && index + (n as usize) > MEMORY_SIZE {
            return false;
        }
        let mut r: u16 = 0;
        while r < n
            invariant
                self.inv(),
                m == self@,
                n == n_of(instruction),
                vx == m.v[x_of(instruction)],
                vy == m.v[y_of(instruction)],
                index == m.index,
                n == 0 || index + n <= MEMORY_SIZE,
                r <= n,
                forall|r2: int, b2: int|
                    0 <= r2 < r && 0 <= b2 < 8 && #[trigger] sprite_pixel(m.ram[m.index + r2], b2)
                        ==> vx + b2 <= 255 && vy + r2 <= 255,
            decreases n - r,
        {
            let row = self.memory.get(self.registers.index + r);
            let mut bit: u8 = 0;
            while bit < 8
                invariant
                    self.inv(),
                    m == self@,
                    n == n_of(instruction),
                    vx == m.v[x_of(instruction)],
                    vy == m.v[y_of(instruction)],
                    index == m.index,
                    r < n,
                    row == m.ram[m.index + r],
                    bit <= 8,
                    forall|r2: int, b2: int|
                        0 <= r2 < r && 0 <= b2 < 8 && #[trigger] sprite_pixel(m.ram[m.index + r2], b2)
                            ==> vx + b2 <= 255 && vy + r2 <= 255,
                    forall|b2: int|
                        0 <= b2 < bit && #[trigger] sprite_pixel(m.ram[m.index + r], b2) ==> vx + b2
                            <= 255 && vy + r <= 255,
                decreases 8 - bit,
            {
                if (row & (0b1000_0000 >> bit)) != 0 {
                    proof {
                        assert(sprite_pixel(m.ram[m.index + r], bit as int));
                    }
                    if vx + bit as u16 > 255 || vy + r > 255 {
                        return false;
                    }
                }
                bit = bit + 1;
            }
            r = r + 1;
        }
        true
    }

    /// Whether a key is held.
    fn any_key_held(&self) -> (b: bool)
        requires
            self.inv(),
        ensures
            b == (first_pressed(self@.keys) is Some),
    {
        let mut i: usize = 0;
        while i < 16
            invariant
                i <= 16,
                self.inv(),
                forall|j: int| 0 <= j < i ==> !#[trigger] self@.keys[j],
            decreases 16 - i,
        {
            if self.keys[i] {
                proof {
                    assert(self@.keys[i as int]);
                }
                return true;
            }
            i = i + 1;
        }
        false
    }

    /// Whether `execute` may be given `instruction`: it overflows no arithmetic and
    /// reaches no address outside memory and no key outside the keypad.
    pub fn can_execute(&self, instruction: u16) -> (b: bool)
        requires
            self.inv(),
        ensures
            b == executable(self@, instruction),
    {
        proof {
            lemma_nibbles(instruction);
        }
        let nib1 = (instruction & 0xF000) >> 12;
        let nib2 = (instruction & 0x0F00) >> 8;
        let nib3 = (instruction & 0x00F0) >> 4;
        let nib4 = instruction & 0x000F;
        let nn = (instruction & 0xFF) as u8;
        let vx = self.registers.registers[nib2 as usize];
        let vy = self.registers.registers[nib3 as usize];
        if nib1 == 3 {
            self.skip_allowed(vx == nn)
        } else if nib1 == 4 {
            self.skip_allowed(vx != nn)
        } else if nib1 == 5 && nib4 == 0 {
            self.skip_allowed(vx == vy)
        } else if nib1 == 9 {
            self.skip_allowed(vx != vy)
        } else if nib1 == 0xD {
            self.sprite_fits(instruction)
        } else if nib1 == 0xE && nib3 == 9 && nib4 == 0xE {
            vx < 16 && self.skip_allowed(self.keys[vx as usize])
        } else if nib1 == 0xE && nib3 == 0xA && nib4 == 1 {
            vx < 16 && self.skip_allowed(!self.keys[vx as usize])
        } else if nib1 == 0xF {
            let index = self.registers.index as usize;
            if nn == 0x1E {
                index + (vx as usize) <= u16::MAX as usize
            } else if nn == 0x0A {
                self.any_key_held() || self.registers.pc >= 2
            } else if nn == 0x29 {
                (vx as u16) * 5 <= 255
            } else if nn == 0x33 {
                index + 2 < MEMORY_SIZE
            } else if nn == 0x55 || nn == 0x65 {
                index + (nib2 as usize) < MEMORY_SIZE
            } else {
                true
            }
        } else {
            true
        }
    }

    /// Applies a keypad event to key `i`: held when pressed, free when released,
    /// unchanged otherwise.
    pub fn update_key(&mut self, i: usize, pressed: bool, released: bool)
        requires
            old(self).inv(),
            i < 16,
        ensures
            final(self).inv(),
            final(self)@ == (Machine {
                keys: old(self)@.keys.update(
                    i as int,
                    if pressed {
                        true
                    } else if released {
                        false
                    } else {
                        old(self)@.keys[i as int]
                    },
                ),
                ..old(self)@
            }),
            final(self).spec_next_tick() == old(self).spec_next_tick(),
    {
        let mut keys = self.keys;
        key_event_check(&mut keys, i, pressed, released);
        self.set_keys(keys);
        proof {
            assert(self@ =~~= Machine {
                keys: old(self)@.keys.update(
                    i as int,
                    if pressed {
                        true
                    } else if released {
                        false
                    } else {
                        old(self)@.keys[i as int]
                    },
                ),
                ..old(self)@
            });
        }
    }
}

/// Ticking the timers at time `now1` and again at a later time `now2` counts the same
/// ticks, and leaves the same timer value, as ticking once at `now2`.
pub proof fn lemma_ticks_compose(next: u64, now1: u64, now2: u64, t: u8)
    requires
        now1 <= now2,
        next + ticks_due(next, now1, TICK_NANOS) * TICK_NANOS <= u64::MAX,
    ensures
        ({
            let k1 = ticks_due(next, now1, TICK_NANOS);
            let next1 = (next + k1 * TICK_NANOS) as u64;
            &&& ticks_due(next, now2, TICK_NANOS) == k1 + ticks_due(next1, now2, TICK_NANOS)
            &&& timer_after(timer_after(t, k1), ticks_due(next1, now2, TICK_NANOS)) == timer_after(
                t,
                ticks_due(next, now2, TICK_NANOS),
            )
        }),
{
    let tick = TICK_NANOS as int;
    let k1 = ticks_due(next, now1, TICK_NANOS);
    let next1 = (next + k1 * TICK_NANOS) as u64;
    if now1 >= next {
        vstd::arithmetic::div_mod::lemma_fundamental_div_mod(now1 - next, tick);
        assert(next1 > now1);
        if now2 < next1 {
            vstd::arithmetic::div_mod::lemma_fundamental_div_mod_converse(
                now2 - next,
                tick,
                k1 - 1,
                now2 - next - (k1 - 1) * tick,
            );
        } else {
            vstd::arithmetic::div_mod::lemma_fundamental_div_mod(now2 - next1, tick);
            let q = (now2 - next1) / tick;
            let r = (now2 - next1) % tick;
            vstd::arithmetic::div_mod::lemma_fundamental_div_mod_converse(
                now2 - next,
                tick,
                q + k1,
                r,
            );
        }
    }
}

/// Letting `k1` ticks and then `k2` more pass leaves a timer as letting `k1 + k2`
/// ticks pass at once.
pub proof fn lemma_timer_after_compose(t: u8, k1: nat, k2: nat)
    ensures
        timer_after(timer_after(t, k1), k2) == timer_after(t, k1 + k2),
{
}

/// The machine built from a processor's parts is well formed when its screen is.
proof fn lemma_grid_machine_wf(c: &Cpu)
    requires
        c.grid.wf(),
        c.grid.cells_are_bits(),
        c.grid.shows_cells(),
    ensures
        machine_wf(c@),
{
    assert forall|x: int, y: int| 0 <= x < 64 && 0 <= y < 32 implies #[trigger] c@.cells[x][y]
        <= 1 by {
        assert(c@.cells[x][y] == c.grid.cell(x, y));
    }
    assert forall|j: int| 0 <= j < DISPLAY_LEN implies byte_shows_cell(c@, j) by {
        assert(c.grid.display@[j] == c@.display[j]);
    }
}

/// Byte `j` of the frame is consistent with its cell.
spec fn byte_shows_cell(m: Machine, j: int) -> bool {
    crate::graphics::grid::byte_shows(
        m.display[j],
        m.cells[crate::graphics::grid::box_col(j)][crate::graphics::grid::box_row(j)],
        j % 4,
    )
}

/// Two machines with the same screen, keypad and registers count are both well
/// formed or neither; here: the second is, given the first is and memory keeps its size.
proof fn lemma_same_screen_wf(a: Machine, b: Machine)
    requires
        machine_wf(a),
        b.v.len() == 16,
        b.ram.len() == MEMORY_SIZE,
        b.keys == a.keys,
        b.cells == a.cells,
        b.display == a.display,
    ensures
        machine_wf(b),
{
}

} // verus!
