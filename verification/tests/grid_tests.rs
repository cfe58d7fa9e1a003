use chip8::graphics::display::{key_event_check, keypad_key};
use chip8::graphics::grid::{Grid, BLACK, DISPLAY_LEN, WHITE};
use chip8::system::emulator::Registers;

#[test]
fn new_grid_is_blank() {
    let g = Grid::new();
    assert_eq!(g.display_width, 1024);
    assert_eq!(g.display_height, 512);
    assert_eq!(g.display.len(), DISPLAY_LEN);
    assert_eq!(DISPLAY_LEN, 2_097_152);
    assert!(g.display.iter().all(|b| *b == 0));
    assert!(g.data.iter().all(|col| col.iter().all(|c| *c == 0)));
}

#[test]
fn render_box_paints_only_its_box() {
    let mut g = Grid::new();
    g.render_box(1, 0, 1);
    for row in 0..16 {
        for c in 0..64 {
            assert_eq!(g.display[64 + row * 4096 + c], WHITE[c % 4]);
        }
        assert_eq!(g.display[63 + row * 4096], 0);
        assert_eq!(g.display[128 + row * 4096], 0);
    }
    assert_eq!(g.display[64 + 16 * 4096], 0);
    g.render_box(1, 0, 0);
    assert_eq!(g.display[64], BLACK[0]);
    assert_eq!(g.display[67], BLACK[3]);
}

#[test]
fn render_last_box() {
    let mut g = Grid::new();
    g.render_box(63, 31, 1);
    assert_eq!(g.display[DISPLAY_LEN - 1], WHITE[3]);
    assert_eq!(g.display[63 * 64 + 31 * 65536], WHITE[0]);
}

#[test]
fn draw_copies_whole_pixels() {
    let mut g = Grid::new();
    g.render_box(0, 0, 1);
    let mut frame = vec![7u8; 10];
    g.draw(&mut frame);
    assert_eq!(&frame[0..8], &[0xff; 8]);
    assert_eq!(&frame[8..10], &[7, 7]);
}

#[test]
fn key_events() {
    let mut keys = [false; 16];
    key_event_check(&mut keys, 4, true, false);
    assert!(keys[4]);
    key_event_check(&mut keys, 4, false, false);
    assert!(keys[4]);
    key_event_check(&mut keys, 4, false, true);
    assert!(!keys[4]);
    assert!(keys.iter().all(|k| !k));
}

#[test]
fn default_registers_are_zero() {
    let r = Registers::default();
    assert_eq!(r.registers, [0; 16]);
    assert_eq!(r.pc, 0);
    assert_eq!(r.index, 0);
}

#[test]
fn keypad_layout_follows_keyboard_block() {
    // Keyboard 1 2 3 4 / Q W E R / A S D F / Z X C V stands for
    // keypad 1 2 3 C / 4 5 6 D / 7 8 9 E / A 0 B F.
    let expected = [0x1, 0x2, 0x3, 0xC, 0x4, 0x5, 0x6, 0xD, 0x7, 0x8, 0x9, 0xE, 0xA, 0x0, 0xB, 0xF];
    let mut seen = [false; 16];
    for p in 0..16 {
        let k = keypad_key(p);
        assert_eq!(k, expected[p]);
        assert!(!seen[k]);
        seen[k] = true;
    }
}
