use chip8::c8::C8;
use chip8::Chip8Error;

fn boot(rom: Vec<u8>) -> C8 {
    let mut c8 = C8::new();
    c8.load_ram(&rom).expect("program fits");
    c8
}

fn step(c8: &mut C8) -> Result<Option<u8>, Chip8Error> {
    let keys = [false; 16];
    c8.run(&keys)
}

#[test]
fn call_then_ret_restores_call_site_plus_two() {
    // 0x200: CALL 0x204; 0x204: RET
    let mut c8 = boot(vec![0x22, 0x04, 0x00, 0x00, 0x00, 0xEE]);
    step(&mut c8).expect("call");
    assert_eq!(c8.pc, 0x204);
    step(&mut c8).expect("ret");
    assert_eq!(c8.pc, 0x202);
}

#[test]
fn nested_calls_unwind_in_order() {
    // 0x200: CALL 0x204; 0x204: CALL 0x208; 0x208: RET; then RET again
    let mut c8 = boot(vec![0x22, 0x04, 0x00, 0x00, 0x22, 0x08, 0x00, 0x00, 0x00, 0xEE]);
    step(&mut c8).expect("outer call");
    step(&mut c8).expect("inner call");
    assert_eq!(c8.pc, 0x208);
    step(&mut c8).expect("inner ret");
    assert_eq!(c8.pc, 0x206);
}

#[test]
fn ret_without_call_underflows() {
    let mut c8 = boot(vec![0x00, 0xEE]);
    assert_eq!(step(&mut c8), Err(Chip8Error::StackUnderflow));
    // the machine did not move
    assert_eq!(c8.pc, 0x200);
}

#[test]
fn unknown_opcode_is_fatal() {
    let mut c8 = boot(vec![0xFF, 0xFF]);
    assert_eq!(step(&mut c8), Err(Chip8Error::UnknownOpcode));
}

#[test]
fn sys_opcode_is_not_in_the_table() {
    let mut c8 = boot(vec![0x01, 0x23]);
    assert_eq!(step(&mut c8), Err(Chip8Error::UnknownOpcode));
}

#[test]
fn malformed_register_compare_is_fatal() {
    // 5xy1 is outside the table (SE Vx, Vy requires a zero low nibble)
    let mut c8 = boot(vec![0x50, 0x11]);
    assert_eq!(step(&mut c8), Err(Chip8Error::UnknownOpcode));
}

#[test]
fn fetch_past_memory_end_is_fatal() {
    let mut c8 = boot(vec![0x1F, 0xFF]);
    step(&mut c8).expect("jump to 0xFFF");
    assert_eq!(c8.pc, 0xFFF);
    assert_eq!(step(&mut c8), Err(Chip8Error::OutOfRange));
}

#[test]
fn draw_past_memory_end_is_fatal() {
    // I = 0xFFF, draw two rows: 0xFFF + 2 > 4096
    let mut c8 = boot(vec![0xAF, 0xFF, 0xD0, 0x12]);
    step(&mut c8).expect("set index");
    assert_eq!(step(&mut c8), Err(Chip8Error::OutOfRange));
}

#[test]
fn bcd_past_memory_end_is_fatal() {
    let mut c8 = boot(vec![0xAF, 0xFF, 0xF0, 0x33]);
    step(&mut c8).expect("set index");
    assert_eq!(step(&mut c8), Err(Chip8Error::OutOfRange));
}

#[test]
fn key_test_with_wide_register_is_fatal() {
    // SKP V0 with V0 = 200: there is no key 200
    let mut c8 = boot(vec![0x60, 0xC8, 0xE0, 0x9E]);
    step(&mut c8).expect("load register");
    assert_eq!(step(&mut c8), Err(Chip8Error::OutOfRange));
}

#[test]
fn load_of_3584_bytes_succeeds() {
    let mut c8 = C8::new();
    let rom = vec![0x00u8; 3584];
    assert_eq!(c8.load_ram(&rom), Ok(()));
}

#[test]
fn load_of_3585_bytes_fails() {
    let mut c8 = C8::new();
    let rom = vec![0x00u8; 3585];
    assert_eq!(c8.load_ram(&rom), Err(Chip8Error::LoadTooLarge));
}

#[test]
fn load_places_fonts_and_program() {
    // read memory back through BCD-free means: block-load from the font
    // area and from the program start
    let mut c8 = boot(vec![0xA0, 0x00, 0xF1, 0x65]);
    step(&mut c8).expect("set index to font table");
    step(&mut c8).expect("load V0..V1 from 0x000");
    // glyph "0" begins 0xF0, 0x90
    assert_eq!(c8.read_reg(0), 0xF0);
    assert_eq!(c8.read_reg(1), 0x90);
}

#[test]
fn load_places_glyph_rows_at_five_per_digit() {
    // glyph "1" begins at address 5 with 0x20; glyph "F" ends at 79 with 0x80
    let mut c8 = boot(vec![0xA0, 0x05, 0xF0, 0x65, 0xA0, 0x4F, 0xF1, 0x65]);
    step(&mut c8).expect("index at glyph 1");
    step(&mut c8).expect("read it");
    assert_eq!(c8.read_reg(0), 0x20);
    step(&mut c8).expect("index at last font byte");
    step(&mut c8).expect("read it");
    assert_eq!(c8.read_reg(0), 0x80);
}

#[test]
fn tick_decrements_both_timers_and_gates_tone() {
    let mut c8 = boot(vec![0x60, 0x02, 0xF0, 0x15, 0xF0, 0x18]);
    step(&mut c8).expect("load");
    step(&mut c8).expect("set delay");
    step(&mut c8).expect("set sound");
    assert_eq!((c8.dt, c8.st), (2, 2));
    assert!(c8.tick_60hz());
    assert_eq!((c8.dt, c8.st), (1, 1));
    assert!(c8.tick_60hz());
    assert_eq!((c8.dt, c8.st), (0, 0));
    assert!(!c8.tick_60hz());
    assert_eq!((c8.dt, c8.st), (0, 0));
}

#[test]
fn index_addition_past_memory_end_is_fatal() {
    // push I to 0xFFF, then add 0xFF via V0: the sum is kept in full width
    let mut c8 = boot(vec![0xAF, 0xFF, 0x60, 0xFF, 0xF0, 0x1E, 0xD0, 0x11]);
    step(&mut c8).expect("set index");
    step(&mut c8).expect("load 0xFF");
    step(&mut c8).expect("add to index");
    // I is now 0x10FE, far past memory: drawing must fail, not wrap into RAM
    assert_eq!(step(&mut c8), Err(Chip8Error::OutOfRange));
}
