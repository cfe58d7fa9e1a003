use chip8::graphics::grid::{Grid, BLACK, DISPLAY_LEN, WHITE};
use chip8::hardware::cpu::{Cpu, Cycle};
use chip8::hardware::machine::Execution;
use chip8::hardware::memory::{Memory, FONT, PROGRAM_START};
use chip8::system::emulator::Registers;

fn fresh_cpu() -> Cpu {
    Cpu::new(Registers::default(), Memory::new(), Grid::new(), [false; 16])
}

fn cpu_with_rom(rom: &[u8]) -> Cpu {
    let mut cpu = fresh_cpu();
    cpu.load_rom(&rom.to_vec());
    cpu
}

/// Runs `instruction` after checking that it may run.
fn run(cpu: &mut Cpu, instruction: u16) -> Execution {
    assert!(cpu.can_execute(instruction));
    cpu.execute_with(instruction, 0)
}

fn v(cpu: &Cpu, x: usize) -> u8 {
    cpu.registers().registers[x]
}

#[test]
fn new_cpu_starts_at_program_start() {
    let cpu = fresh_cpu();
    assert_eq!(cpu.registers().pc, 0x200);
    assert_eq!(cpu.registers().index, 0);
    assert_eq!(cpu.memory().stack.len(), 0);
}

#[test]
fn load_rom_then_fetch_reads_program() {
    let mut cpu = cpu_with_rom(&[0x12, 0x34, 0xAB, 0xCD]);
    assert_eq!(cpu.memory().get(PROGRAM_START), 0x12);
    assert_eq!(cpu.memory().get(PROGRAM_START + 3), 0xCD);
    assert!(cpu.can_fetch());
    assert_eq!(cpu.fetch(), 0x1234);
    assert_eq!(cpu.registers().pc, 0x202);
    assert_eq!(cpu.fetch(), 0xABCD);
    assert_eq!(cpu.registers().pc, 0x204);
}

#[test]
fn fresh_memory_holds_font() {
    let m = Memory::new();
    for a in 0..80u16 {
        assert_eq!(m.get(a), FONT[a as usize]);
    }
    assert_eq!(m.get(80), 0);
    assert_eq!(m.get(4095), 0);
}

#[test]
fn memory_read_after_write() {
    let mut m = Memory::new();
    m.set(0x300, 0x5A);
    assert_eq!(m.get(0x300), 0x5A);
    assert_eq!(m.get(0x301), 0);
}

#[test]
fn set_and_add_immediate() {
    let mut cpu = fresh_cpu();
    run(&mut cpu, 0x6A42);
    assert_eq!(v(&cpu, 0xA), 0x42);
    run(&mut cpu, 0x7AC0);
    assert_eq!(v(&cpu, 0xA), 0x02);
    assert_eq!(v(&cpu, 0xF), 0);
}

#[test]
fn jump_and_index() {
    let mut cpu = fresh_cpu();
    run(&mut cpu, 0x1ABC);
    assert_eq!(cpu.registers().pc, 0xABC);
    run(&mut cpu, 0xA123);
    assert_eq!(cpu.registers().index, 0x123);
    run(&mut cpu, 0x6005);
    run(&mut cpu, 0xB300);
    assert_eq!(cpu.registers().pc, 0x305);
}

#[test]
fn call_then_return() {
    let mut cpu = fresh_cpu();
    run(&mut cpu, 0x2400);
    assert_eq!(cpu.registers().pc, 0x400);
    assert_eq!(cpu.memory().stack, vec![0x200]);
    run(&mut cpu, 0x00EE);
    assert_eq!(cpu.registers().pc, 0x200);
    assert_eq!(cpu.memory().stack.len(), 0);
}

#[test]
fn return_on_empty_stack_does_nothing() {
    let mut cpu = fresh_cpu();
    assert_eq!(run(&mut cpu, 0x00EE), Execution::Done);
    assert_eq!(cpu.registers().pc, 0x200);
}

#[test]
fn skips() {
    let mut cpu = fresh_cpu();
    run(&mut cpu, 0x6311);
    run(&mut cpu, 0x3311);
    assert_eq!(cpu.registers().pc, 0x202);
    run(&mut cpu, 0x3312);
    assert_eq!(cpu.registers().pc, 0x202);
    run(&mut cpu, 0x4312);
    assert_eq!(cpu.registers().pc, 0x204);
    run(&mut cpu, 0x6411);
    run(&mut cpu, 0x5340);
    assert_eq!(cpu.registers().pc, 0x206);
    run(&mut cpu, 0x9340);
    assert_eq!(cpu.registers().pc, 0x206);
    run(&mut cpu, 0x6412);
    run(&mut cpu, 0x9340);
    assert_eq!(cpu.registers().pc, 0x208);
}

#[test]
fn logic_ops() {
    let mut cpu = fresh_cpu();
    run(&mut cpu, 0x61F0);
    run(&mut cpu, 0x623C);
    run(&mut cpu, 0x8120);
    assert_eq!(v(&cpu, 1), 0x3C);
    run(&mut cpu, 0x61F0);
    run(&mut cpu, 0x8121);
    assert_eq!(v(&cpu, 1), 0xFC);
    run(&mut cpu, 0x61F0);
    run(&mut cpu, 0x8123);
    assert_eq!(v(&cpu, 1), 0xCC);
}

#[test]
fn and_stores_into_vx() {
    let mut cpu = fresh_cpu();
    run(&mut cpu, 0x61F0);
    run(&mut cpu, 0x623C);
    run(&mut cpu, 0x8122);
    assert_eq!(v(&cpu, 1), 0x30);
    assert_eq!(v(&cpu, 2), 0x3C);
}

#[test]
fn add_with_carry() {
    let mut cpu = fresh_cpu();
    run(&mut cpu, 0x61F0);
    run(&mut cpu, 0x6220);
    run(&mut cpu, 0x8124);
    assert_eq!(v(&cpu, 1), 0x10);
    assert_eq!(v(&cpu, 0xF), 1);
    run(&mut cpu, 0x8124);
    assert_eq!(v(&cpu, 1), 0x30);
    assert_eq!(v(&cpu, 0xF), 0);
}

#[test]
fn subtract_with_borrow() {
    let mut cpu = fresh_cpu();
    run(&mut cpu, 0x6105);
    run(&mut cpu, 0x6207);
    run(&mut cpu, 0x8125);
    assert_eq!(v(&cpu, 1), 0xFE);
    assert_eq!(v(&cpu, 0xF), 0);
    run(&mut cpu, 0x6109);
    run(&mut cpu, 0x8125);
    assert_eq!(v(&cpu, 1), 0x02);
    assert_eq!(v(&cpu, 0xF), 1);
    run(&mut cpu, 0x6109);
    run(&mut cpu, 0x8127);
    assert_eq!(v(&cpu, 1), 0xFE);
    assert_eq!(v(&cpu, 0xF), 0);
}

#[test]
fn shifts() {
    let mut cpu = fresh_cpu();
    run(&mut cpu, 0x6381);
    run(&mut cpu, 0x8306);
    assert_eq!(v(&cpu, 3), 0x40);
    assert_eq!(v(&cpu, 0xF), 1);
    run(&mut cpu, 0x6381);
    run(&mut cpu, 0x830E);
    assert_eq!(v(&cpu, 3), 0x02);
    assert_eq!(v(&cpu, 0xF), 1);
    run(&mut cpu, 0x830E);
    assert_eq!(v(&cpu, 3), 0x04);
    assert_eq!(v(&cpu, 0xF), 0);
}

#[test]
fn flag_register_as_target_keeps_the_flag() {
    let mut cpu = fresh_cpu();
    run(&mut cpu, 0x6FF0);
    run(&mut cpu, 0x6120);
    run(&mut cpu, 0x8F14);
    assert_eq!(v(&cpu, 0xF), 1);
}

#[test]
fn random_is_masked() {
    let mut cpu = fresh_cpu();
    assert_eq!(cpu.execute_with(0xC50F, 0xAB), Execution::Done);
    assert_eq!(v(&cpu, 5), 0x0B);
    cpu.execute(0xC500);
    assert_eq!(v(&cpu, 5), 0);
}

#[test]
fn timers_and_index_ops() {
    let mut cpu = fresh_cpu();
    run(&mut cpu, 0x6430);
    run(&mut cpu, 0xF415);
    run(&mut cpu, 0xF418);
    assert_eq!(cpu.registers().delay, 0x30);
    assert_eq!(cpu.registers().sound, 0x30);
    run(&mut cpu, 0xF507);
    assert_eq!(v(&cpu, 5), 0x30);
    run(&mut cpu, 0xA100);
    run(&mut cpu, 0xF41E);
    assert_eq!(cpu.registers().index, 0x130);
    run(&mut cpu, 0x640A);
    run(&mut cpu, 0xF429);
    assert_eq!(cpu.registers().index, 50);
}

#[test]
fn bcd_digits() {
    let mut cpu = fresh_cpu();
    run(&mut cpu, 0x69FE);
    run(&mut cpu, 0xA300);
    run(&mut cpu, 0xF933);
    assert_eq!(cpu.memory().get(0x300), 2);
    assert_eq!(cpu.memory().get(0x301), 5);
    assert_eq!(cpu.memory().get(0x302), 4);
}

#[test]
fn store_then_load_registers() {
    let mut cpu = fresh_cpu();
    run(&mut cpu, 0x6011);
    run(&mut cpu, 0x6122);
    run(&mut cpu, 0x6233);
    run(&mut cpu, 0x6344);
    run(&mut cpu, 0xA400);
    run(&mut cpu, 0xF255);
    assert_eq!(cpu.memory().get(0x400), 0x11);
    assert_eq!(cpu.memory().get(0x401), 0x22);
    assert_eq!(cpu.memory().get(0x402), 0x33);
    assert_eq!(cpu.memory().get(0x403), 0);
    run(&mut cpu, 0x6000);
    run(&mut cpu, 0x6100);
    run(&mut cpu, 0x6200);
    run(&mut cpu, 0xF165);
    assert_eq!(v(&cpu, 0), 0x11);
    assert_eq!(v(&cpu, 1), 0x22);
    assert_eq!(v(&cpu, 2), 0);
    assert_eq!(v(&cpu, 3), 0x44);
}

#[test]
fn wait_for_key() {
    let mut cpu = fresh_cpu();
    run(&mut cpu, 0x1300);
    assert_eq!(run(&mut cpu, 0xF20A), Execution::Done);
    assert_eq!(cpu.registers().pc, 0x2FE);
    let mut keys = [false; 16];
    keys[7] = true;
    keys[9] = true;
    cpu.set_keys(keys);
    assert_eq!(run(&mut cpu, 0xF20A), Execution::WaitForKeyRelease(7));
    assert_eq!(v(&cpu, 2), 7);
    assert_eq!(cpu.registers().pc, 0x2FE);
}

#[test]
fn key_skips() {
    let mut cpu = fresh_cpu();
    run(&mut cpu, 0x6A03);
    cpu.update_key(3, true, false);
    assert!(cpu.keys()[3]);
    run(&mut cpu, 0xEA9E);
    assert_eq!(cpu.registers().pc, 0x202);
    run(&mut cpu, 0xEAA1);
    assert_eq!(cpu.registers().pc, 0x202);
    cpu.update_key(3, false, true);
    assert!(!cpu.keys()[3]);
    run(&mut cpu, 0xEAA1);
    assert_eq!(cpu.registers().pc, 0x204);
    run(&mut cpu, 0xEA9E);
    assert_eq!(cpu.registers().pc, 0x204);
}

#[test]
fn unknown_opcodes_change_nothing() {
    let mut cpu = fresh_cpu();
    assert_eq!(run(&mut cpu, 0x0123), Execution::UnknownOpcode);
    assert_eq!(run(&mut cpu, 0x8128), Execution::UnknownOpcode);
    assert_eq!(run(&mut cpu, 0xE1FF), Execution::UnknownOpcode);
    assert_eq!(run(&mut cpu, 0xF1FF), Execution::UnknownOpcode);
    assert_eq!(run(&mut cpu, 0x5121), Execution::UnknownOpcode);
    assert_eq!(cpu.registers().pc, 0x200);
    assert_eq!(run(&mut cpu, 0x0000), Execution::Done);
}

#[test]
fn can_execute_refuses_what_would_fail() {
    let mut cpu = fresh_cpu();
    run(&mut cpu, 0x6120);
    assert!(!cpu.can_execute(0xE19E));
    run(&mut cpu, 0x6134);
    assert!(!cpu.can_execute(0xF129));
    run(&mut cpu, 0xAFFF);
    assert!(!cpu.can_execute(0xF133));
    assert!(!cpu.can_execute(0xF155));
    assert!(cpu.can_execute(0xF055));
    assert!(!cpu.can_execute(0xD002));
    assert!(cpu.can_execute(0xD001));
    let mut cpu = fresh_cpu();
    run(&mut cpu, 0x1000);
    assert!(!cpu.can_execute(0xF00A));
    run(&mut cpu, 0x1FFE);
    assert!(cpu.can_execute(0x3000));
    run(&mut cpu, 0x60FE);
    run(&mut cpu, 0xA000);
    assert!(!cpu.can_execute(0xD001));
}

fn box_byte(cpu: &Cpu, x: usize, y: usize, k: usize) -> u8 {
    cpu.grid().display[x * 64 + y * 65536 + k]
}

#[test]
fn draw_glyph_and_collision() {
    let mut cpu = fresh_cpu();
    // Glyph "0" is at address 0: rows F0 90 90 90 F0.
    run(&mut cpu, 0xA000);
    run(&mut cpu, 0x6102);
    run(&mut cpu, 0x6203);
    run(&mut cpu, 0xD125);
    assert_eq!(v(&cpu, 0xF), 0);
    let g = cpu.grid();
    assert_eq!(g.data[2][3], 1);
    assert_eq!(g.data[5][3], 1);
    assert_eq!(g.data[6][3], 0);
    assert_eq!(g.data[3][4], 0);
    assert_eq!(g.data[2][4], 1);
    assert_eq!(box_byte(&cpu, 2, 3, 0), WHITE[0]);
    assert_eq!(box_byte(&cpu, 2, 3, 15 * 4096 + 63), WHITE[3]);
    assert_eq!(box_byte(&cpu, 3, 4, 0), 0);
    run(&mut cpu, 0xD125);
    assert_eq!(v(&cpu, 0xF), 1);
    let g = cpu.grid();
    assert_eq!(g.data[2][3], 0);
    assert_eq!(g.data[2][4], 0);
    assert_eq!(box_byte(&cpu, 2, 3, 0), BLACK[0]);
    assert_eq!(box_byte(&cpu, 2, 3, 3), BLACK[3]);
}

#[test]
fn draw_wraps_around_screen() {
    let mut cpu = fresh_cpu();
    run(&mut cpu, 0xA000);
    run(&mut cpu, 0x613E);
    run(&mut cpu, 0x621F);
    run(&mut cpu, 0xD122);
    let g = cpu.grid();
    assert_eq!(g.data[62][31], 1);
    assert_eq!(g.data[63][31], 1);
    assert_eq!(g.data[0][31], 1);
    assert_eq!(g.data[1][31], 1);
    assert_eq!(g.data[62][0], 1);
    assert_eq!(g.data[1][0], 1);
    assert_eq!(g.data[63][0], 0);
}

#[test]
fn clear_screen_darkens_everything() {
    let mut cpu = fresh_cpu();
    run(&mut cpu, 0xA000);
    run(&mut cpu, 0xD005);
    run(&mut cpu, 0x00E0);
    let g = cpu.grid();
    for x in 0..64 {
        for y in 0..32 {
            assert_eq!(g.data[x][y], 0);
        }
    }
    for j in (0..DISPLAY_LEN).step_by(4097) {
        assert_eq!(g.display[j], BLACK[j % 4]);
    }
}

#[test]
fn timers_count_down_per_tick() {
    let mut cpu = fresh_cpu();
    run(&mut cpu, 0x6405);
    run(&mut cpu, 0xF415);
    run(&mut cpu, 0x6402);
    run(&mut cpu, 0xF418);
    cpu.dec_timers_at(0);
    assert_eq!(cpu.registers().delay, 5);
    cpu.dec_timers_at(16_666_667);
    assert_eq!(cpu.registers().delay, 4);
    assert_eq!(cpu.registers().sound, 1);
    cpu.dec_timers_at(16_666_667 * 3 + 5);
    assert_eq!(cpu.registers().delay, 2);
    assert_eq!(cpu.registers().sound, 0);
    cpu.dec_timers_at(16_666_667 * 10);
    assert_eq!(cpu.registers().delay, 0);
    assert_eq!(cpu.registers().sound, 0);
}

#[test]
fn timers_against_the_clock() {
    let mut cpu = fresh_cpu();
    run(&mut cpu, 0x64FF);
    run(&mut cpu, 0xF415);
    cpu.dec_timers();
    assert!(cpu.registers().delay >= 0xFE);
}

#[test]
fn ticking_twice_equals_ticking_once() {
    let mut a = fresh_cpu();
    let mut b = fresh_cpu();
    for cpu in [&mut a, &mut b] {
        run(cpu, 0x64C8);
        run(cpu, 0xF415);
        run(cpu, 0xF418);
    }
    a.dec_timers_at(16_666_667 * 7 + 3);
    a.dec_timers_at(16_666_667 * 40 + 11);
    b.dec_timers_at(16_666_667 * 40 + 11);
    assert_eq!(a.registers().delay, b.registers().delay);
    assert_eq!(a.registers().sound, b.registers().sound);
    assert_eq!(a.registers().delay, 200 - 40);
}

#[test]
fn load_survives_register_changes_between_store_and_load() {
    let mut cpu = fresh_cpu();
    run(&mut cpu, 0x60AA);
    run(&mut cpu, 0x61BB);
    run(&mut cpu, 0x62CC);
    run(&mut cpu, 0xA500);
    run(&mut cpu, 0xF155);
    run(&mut cpu, 0x6001);
    run(&mut cpu, 0x6102);
    run(&mut cpu, 0x6203);
    run(&mut cpu, 0xF165);
    assert_eq!(v(&cpu, 0), 0xAA);
    assert_eq!(v(&cpu, 1), 0xBB);
    assert_eq!(v(&cpu, 2), 0x03);
    assert_eq!(cpu.registers().index, 0x500);
}

#[test]
fn fetches_walk_through_the_program() {
    let rom = [0x00, 0xE0, 0xA2, 0x2A, 0x60, 0x0C, 0xD0, 0x1F];
    let mut cpu = cpu_with_rom(&rom);
    for k in 0..4 {
        let w = cpu.fetch();
        assert_eq!(w, (rom[2 * k] as u16) << 8 | rom[2 * k + 1] as u16);
        assert_eq!(cpu.registers().pc, 0x200 + 2 * (k as u16 + 1));
    }
}

#[test]
fn cycles_run_a_program() {
    let mut cpu = cpu_with_rom(&[0x61, 0x07, 0x71, 0x01, 0x12, 0x02]);
    assert_eq!(cpu.cycle(), Cycle::Ran(0x6107, Execution::Done));
    assert_eq!(cpu.cycle(), Cycle::Ran(0x7101, Execution::Done));
    assert_eq!(cpu.cycle(), Cycle::Ran(0x1202, Execution::Done));
    assert_eq!(cpu.cycle(), Cycle::Ran(0x7101, Execution::Done));
    assert_eq!(v(&cpu, 1), 9);
    assert_eq!(cpu.registers().pc, 0x204);
}

#[test]
fn cycle_reports_what_cannot_run() {
    let mut cpu = cpu_with_rom(&[0x1F, 0xFF]);
    assert_eq!(cpu.cycle(), Cycle::Ran(0x1FFF, Execution::Done));
    assert_eq!(cpu.cycle(), Cycle::PcOutsideMemory);
    assert_eq!(cpu.registers().pc, 0xFFF);
    let mut cpu = cpu_with_rom(&[0x60, 0x20, 0xE0, 0x9E]);
    cpu.cycle();
    assert_eq!(cpu.cycle(), Cycle::NotExecutable(0xE09E));
    assert_eq!(cpu.registers().pc, 0x204);
}
