use chip8::c8::C8;
use chip8::display::Display;

fn boot(rom: Vec<u8>) -> C8 {
    let mut c8 = C8::new();
    c8.load_ram(&rom).expect("program fits");
    c8
}

fn step_n(c8: &mut C8, n: usize) {
    let keys = [false; 16];
    for _ in 0..n {
        c8.run(&keys).expect("instruction executes");
    }
}

#[test]
fn draw_byte_turns_pixels_on() {
    let mut d = Display::new();
    let coll = d.draw_byte(0x80, 0, 0);
    assert!(!coll);
    assert!(d.pixel(0, 0));
    assert!(!d.pixel(1, 0));
}

#[test]
fn draw_byte_twice_toggles_off_and_collides() {
    let mut d = Display::new();
    d.draw_byte(0xA5, 10, 7);
    let coll = d.draw_byte(0xA5, 10, 7);
    assert!(coll);
    for x in 0..64 {
        for y in 0..32 {
            assert!(!d.pixel(x, y));
        }
    }
}

#[test]
fn draw_byte_zero_bits_leave_pixels() {
    let mut d = Display::new();
    d.draw_byte(0xFF, 0, 0);
    let coll = d.draw_byte(0x00, 0, 0);
    assert!(!coll);
    assert!(d.pixel(0, 0) && d.pixel(7, 0));
}

#[test]
fn draw_wraps_at_right_edge() {
    // an 8x1 all-ON sprite at x=60, y=0 covers columns 60..63 and 0..3
    let mut c8 = boot(vec![
        0x60, 0x3C, 0x61, 0x00, 0xA2, 0x0A, 0xD0, 0x11, 0x00, 0x00, 0xFF,
    ]);
    step_n(&mut c8, 4);
    for col in [60u8, 61, 62, 63, 0, 1, 2, 3] {
        assert!(c8.display.pixel(col, 0), "column {} should be ON", col);
    }
    assert!(!c8.display.pixel(4, 0));
    assert!(!c8.display.pixel(59, 0));
    assert!(!c8.display.pixel(0, 1));
    assert_eq!(c8.read_reg(0xF), 0);
}

#[test]
fn draw_wraps_at_bottom_edge() {
    // a 1-wide, 4-tall sprite at y=30 covers rows 30, 31, 0, 1
    let mut c8 = boot(vec![
        0x60, 0x00, 0x61, 0x1E, 0xA2, 0x0A, 0xD0, 0x14, 0x00, 0x00, 0x80, 0x80, 0x80, 0x80,
    ]);
    step_n(&mut c8, 4);
    for row in [30u8, 31, 0, 1] {
        assert!(c8.display.pixel(0, row), "row {} should be ON", row);
    }
    assert!(!c8.display.pixel(0, 2));
    assert!(!c8.display.pixel(0, 29));
}

#[test]
fn draw_same_sprite_twice_restores_and_collides() {
    // draw the glyph-sized sprite twice at the same origin: every affected
    // pixel toggles back OFF and the second draw reports a collision
    let mut c8 = boot(vec![
        0x60, 0x0C, 0x61, 0x05, 0xA2, 0x0C, 0xD0, 0x13, 0xD0, 0x13, 0x00, 0x00, 0xF0, 0x90, 0xF0,
    ]);
    step_n(&mut c8, 4);
    assert_eq!(c8.read_reg(0xF), 0);
    assert!(c8.display.pixel(12, 5));
    step_n(&mut c8, 1);
    assert_eq!(c8.read_reg(0xF), 1);
    for x in 0..64 {
        for y in 0..32 {
            assert!(!c8.display.pixel(x, y));
        }
    }
}

#[test]
fn draw_partial_overlap_sets_collision_once() {
    // two one-row 0xF0 sprites sharing two pixels: XOR, not overwrite
    let mut c8 = boot(vec![
        0x60, 0x00, 0x61, 0x00, 0xA2, 0x0C, 0xD0, 0x11, 0x62, 0x02, 0xD2, 0x11, 0xF0,
    ]);
    step_n(&mut c8, 4);
    assert_eq!(c8.read_reg(0xF), 0);
    step_n(&mut c8, 2);
    // the draw at x=2 covers columns 2..5: 2 and 3 toggle OFF, 4 and 5 ON
    assert_eq!(c8.read_reg(0xF), 1);
    assert!(c8.display.pixel(0, 0));
    assert!(c8.display.pixel(1, 0));
    assert!(!c8.display.pixel(2, 0));
    assert!(!c8.display.pixel(3, 0));
    assert!(c8.display.pixel(4, 0));
    assert!(c8.display.pixel(5, 0));
    assert!(!c8.display.pixel(6, 0));
}

#[test]
fn cls_clears_everything() {
    let mut c8 = boot(vec![0xA2, 0x06, 0xD0, 0x11, 0x00, 0xE0, 0xFF]);
    step_n(&mut c8, 2);
    assert!(c8.display.pixel(0, 0));
    step_n(&mut c8, 1);
    for x in 0..64 {
        for y in 0..32 {
            assert!(!c8.display.pixel(x, y));
        }
    }
}

#[test]
fn font_lookup_draws_zero_glyph() {
    // I = glyph address of digit V0 = 0; draw 5 rows at (0, 0)
    let mut c8 = boot(vec![0x60, 0x00, 0xF0, 0x29, 0xD1, 0x15]);
    step_n(&mut c8, 3);
    // glyph "0": 0xF0, 0x90, 0x90, 0x90, 0xF0
    assert!(c8.display.pixel(0, 0) && c8.display.pixel(3, 0) && !c8.display.pixel(4, 0));
    assert!(c8.display.pixel(0, 1) && !c8.display.pixel(1, 1) && c8.display.pixel(3, 1));
    assert!(c8.display.pixel(0, 4) && c8.display.pixel(3, 4));
}

#[test]
fn font_lookup_multiplies_by_five() {
    // digit 1 sits at address 5: draw it and check its first row 0x20
    let mut c8 = boot(vec![0x60, 0x01, 0xF0, 0x29, 0xD1, 0x11]);
    step_n(&mut c8, 3);
    assert!(!c8.display.pixel(0, 0));
    assert!(!c8.display.pixel(1, 0));
    assert!(c8.display.pixel(2, 0));
    assert!(!c8.display.pixel(3, 0));
}
