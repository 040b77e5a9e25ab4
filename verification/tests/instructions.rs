use chip8::c8::C8;

fn boot(rom: Vec<u8>) -> C8 {
    let mut c8 = C8::new();
    c8.load_ram(&rom).expect("program fits");
    c8
}

fn step(c8: &mut C8) -> Option<u8> {
    let keys = [false; 16];
    c8.run(&keys).expect("instruction executes")
}

fn step_n(c8: &mut C8, n: usize) {
    for _ in 0..n {
        step(c8);
    }
}

#[test]
fn ld_immediate_sets_register() {
    let mut c8 = boot(vec![0x60, 0xAB]);
    step(&mut c8);
    assert_eq!(c8.read_reg(0), 0xAB);
    assert_eq!(c8.pc, 0x202);
}

#[test]
fn add_immediate_wraps_and_keeps_flag() {
    // V0 = 0xFF; V0 += 0x01 wraps to 0x00; VF stays 0
    let mut c8 = boot(vec![0x60, 0xFF, 0x70, 0x01]);
    step_n(&mut c8, 2);
    assert_eq!(c8.read_reg(0), 0x00);
    assert_eq!(c8.read_reg(0xF), 0);
}

#[test]
fn add_immediate_plain() {
    let mut c8 = boot(vec![0x63, 0x10, 0x73, 0x05]);
    step_n(&mut c8, 2);
    assert_eq!(c8.read_reg(3), 0x15);
}

#[test]
fn ld_reg_copies() {
    let mut c8 = boot(vec![0x61, 0x2A, 0x82, 0x10]);
    step_n(&mut c8, 2);
    assert_eq!(c8.read_reg(2), 0x2A);
}

#[test]
fn or_and_xor() {
    // V0 = 0b1100, V1 = 0b1010
    let mut c8 = boot(vec![
        0x60, 0x0C, 0x61, 0x0A, 0x80, 0x11, // OR  -> 0b1110
        0x60, 0x0C, 0x80, 0x12, // AND -> 0b1000
        0x60, 0x0C, 0x80, 0x13, // XOR -> 0b0110
    ]);
    step_n(&mut c8, 3);
    assert_eq!(c8.read_reg(0), 0b1110);
    step_n(&mut c8, 2);
    assert_eq!(c8.read_reg(0), 0b1000);
    step_n(&mut c8, 2);
    assert_eq!(c8.read_reg(0), 0b0110);
}

#[test]
fn add_reg_sets_carry() {
    let mut c8 = boot(vec![0x60, 0xF0, 0x61, 0x20, 0x80, 0x14]);
    step_n(&mut c8, 3);
    assert_eq!(c8.read_reg(0), 0x10);
    assert_eq!(c8.read_reg(0xF), 1);
}

#[test]
fn add_reg_without_carry() {
    let mut c8 = boot(vec![0x60, 0x10, 0x61, 0x20, 0x80, 0x14]);
    step_n(&mut c8, 3);
    assert_eq!(c8.read_reg(0), 0x30);
    assert_eq!(c8.read_reg(0xF), 0);
}

#[test]
fn sub_reg_no_borrow_sets_flag() {
    let mut c8 = boot(vec![0x60, 0x05, 0x61, 0x03, 0x80, 0x15]);
    step_n(&mut c8, 3);
    assert_eq!(c8.read_reg(0), 2);
    assert_eq!(c8.read_reg(0xF), 1);
}

#[test]
fn sub_reg_borrow_wraps() {
    let mut c8 = boot(vec![0x60, 0x03, 0x61, 0x05, 0x80, 0x15]);
    step_n(&mut c8, 3);
    assert_eq!(c8.read_reg(0), 254);
    assert_eq!(c8.read_reg(0xF), 0);
}

#[test]
fn sub_reg_equal_counts_as_no_borrow() {
    let mut c8 = boot(vec![0x60, 0x07, 0x61, 0x07, 0x80, 0x15]);
    step_n(&mut c8, 3);
    assert_eq!(c8.read_reg(0), 0);
    assert_eq!(c8.read_reg(0xF), 1);
}

#[test]
fn subn_reg() {
    let mut c8 = boot(vec![0x60, 0x03, 0x61, 0x05, 0x80, 0x17]);
    step_n(&mut c8, 3);
    assert_eq!(c8.read_reg(0), 2);
    assert_eq!(c8.read_reg(0xF), 1);
}

#[test]
fn shr_flag_is_pre_shift_lsb() {
    let mut c8 = boot(vec![0x60, 0x05, 0x80, 0x06]);
    step_n(&mut c8, 2);
    assert_eq!(c8.read_reg(0), 2);
    assert_eq!(c8.read_reg(0xF), 1);
}

#[test]
fn shr_flag_zero_for_even() {
    let mut c8 = boot(vec![0x60, 0x04, 0x80, 0x06]);
    step_n(&mut c8, 2);
    assert_eq!(c8.read_reg(0), 2);
    assert_eq!(c8.read_reg(0xF), 0);
}

#[test]
fn shl_flag_is_pre_shift_msb() {
    let mut c8 = boot(vec![0x60, 0x81, 0x80, 0x0E]);
    step_n(&mut c8, 2);
    assert_eq!(c8.read_reg(0), 0x02);
    assert_eq!(c8.read_reg(0xF), 1);
}

#[test]
fn shl_flag_zero_without_msb() {
    let mut c8 = boot(vec![0x60, 0x41, 0x80, 0x0E]);
    step_n(&mut c8, 2);
    assert_eq!(c8.read_reg(0), 0x82);
    assert_eq!(c8.read_reg(0xF), 0);
}

#[test]
fn se_immediate_skips() {
    let mut c8 = boot(vec![0x60, 0x11, 0x30, 0x11]);
    step_n(&mut c8, 2);
    assert_eq!(c8.pc, 0x206);
}

#[test]
fn se_immediate_falls_through() {
    let mut c8 = boot(vec![0x60, 0x11, 0x30, 0x12]);
    step_n(&mut c8, 2);
    assert_eq!(c8.pc, 0x204);
}

#[test]
fn sne_immediate_skips() {
    let mut c8 = boot(vec![0x60, 0x11, 0x40, 0x12]);
    step_n(&mut c8, 2);
    assert_eq!(c8.pc, 0x206);
}

#[test]
fn se_and_sne_registers() {
    let mut c8 = boot(vec![0x60, 0x11, 0x61, 0x11, 0x50, 0x10]);
    step_n(&mut c8, 3);
    assert_eq!(c8.pc, 0x208);
    let mut c8b = boot(vec![0x60, 0x11, 0x61, 0x12, 0x90, 0x10]);
    step_n(&mut c8b, 3);
    assert_eq!(c8b.pc, 0x208);
}

#[test]
fn jp_sets_pc() {
    let mut c8 = boot(vec![0x12, 0x34]);
    step(&mut c8);
    assert_eq!(c8.pc, 0x234);
}

#[test]
fn jp_v0_relative_is_wide() {
    // V0 = 0xFF, JP V0, 0xFFF: 0xFFF + 0xFF = 0x10FE, not truncated to 12 bits
    let mut c8 = boot(vec![0x60, 0xFF, 0xBF, 0xFF]);
    step_n(&mut c8, 2);
    assert_eq!(c8.pc, 0x10FE);
}

#[test]
fn rnd_is_masked_by_immediate() {
    let mut c8 = boot(vec![0xC0, 0x0F]);
    step(&mut c8);
    assert_eq!(c8.read_reg(0) & 0xF0, 0);
}

#[test]
fn bcd_store_and_block_load() {
    // V0 = 237; I = 0x300; BCD at I; load V0..V2 back from I
    let mut c8 = boot(vec![0x60, 0xED, 0xA3, 0x00, 0xF0, 0x33, 0xF2, 0x65]);
    step_n(&mut c8, 4);
    assert_eq!(c8.read_reg(0), 2);
    assert_eq!(c8.read_reg(1), 3);
    assert_eq!(c8.read_reg(2), 7);
}

#[test]
fn block_store_then_load_roundtrip() {
    // store V0..V2 at 0x300, overwrite the registers, load them back
    let mut c8 = boot(vec![
        0x60, 0x0A, 0x61, 0x0B, 0x62, 0x0C, 0xA3, 0x00, 0xF2, 0x55, 0x60, 0x00, 0x61, 0x00, 0x62,
        0x00, 0xF2, 0x65,
    ]);
    step_n(&mut c8, 9);
    assert_eq!(c8.read_reg(0), 0x0A);
    assert_eq!(c8.read_reg(1), 0x0B);
    assert_eq!(c8.read_reg(2), 0x0C);
}

#[test]
fn block_store_is_inclusive_of_x() {
    // store V0..V1 at 0x300; V1's byte must be written; read back via load
    let mut c8 = boot(vec![
        0x60, 0x11, 0x61, 0x22, 0xA3, 0x00, 0xF1, 0x55, 0x61, 0x00, 0xF1, 0x65,
    ]);
    step_n(&mut c8, 6);
    assert_eq!(c8.read_reg(1), 0x22);
}

#[test]
fn add_to_index_via_bcd_address() {
    // I = 0x300; I += V1 (3); BCD of V0 at I; block-load from 0x303
    let mut c8 = boot(vec![
        0x60, 0x7B, 0x61, 0x03, 0xA3, 0x00, 0xF1, 0x1E, 0xF0, 0x33, 0xF2, 0x65,
    ]);
    step_n(&mut c8, 6);
    // 123 decomposed at 0x303, loaded back into V0..V2
    assert_eq!(c8.read_reg(0), 1);
    assert_eq!(c8.read_reg(1), 2);
    assert_eq!(c8.read_reg(2), 3);
}

#[test]
fn wait_for_key_reports_register() {
    let mut c8 = boot(vec![0xF3, 0x0A]);
    let keys = [false; 16];
    let w = c8.run(&keys).expect("wait-for-key executes");
    assert_eq!(w, Some(3));
    assert_eq!(c8.pc, 0x202);
    c8.write_reg(3, 0xA);
    assert_eq!(c8.read_reg(3), 0xA);
}

#[test]
fn skp_skips_when_key_held() {
    let mut c8 = boot(vec![0x60, 0x05, 0xE0, 0x9E]);
    step(&mut c8);
    let mut keys = [false; 16];
    keys[5] = true;
    c8.run(&keys).expect("skip on pressed key");
    assert_eq!(c8.pc, 0x206);
}

#[test]
fn sknp_skips_when_key_up() {
    let mut c8 = boot(vec![0x60, 0x05, 0xE0, 0xA1]);
    step(&mut c8);
    let keys = [false; 16];
    c8.run(&keys).expect("skip on released key");
    assert_eq!(c8.pc, 0x206);
}

#[test]
fn delay_and_sound_timer_instructions() {
    // DT = 30 via V0; ST = 7 via V1; V2 = DT
    let mut c8 = boot(vec![0x60, 0x1E, 0xF0, 0x15, 0x61, 0x07, 0xF1, 0x18, 0xF2, 0x07]);
    step_n(&mut c8, 5);
    assert_eq!(c8.dt, 30);
    assert_eq!(c8.st, 7);
    assert_eq!(c8.read_reg(2), 30);
}
