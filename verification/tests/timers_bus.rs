use chip8::bus::Bus;
use chip8::chip8::Chip8;
use chip8::cpu::Cpu;
use chip8::input::Input;
use chip8::Chip8Error;

#[test]
fn delay_timer_set_30_read_after_500ms_is_zero() {
    // 30 ticks at 16 ms each pass in 480 ms, so 500 ms later it reads 0
    let mut bus = Bus::new();
    bus.set_delay_timer(30, 1_000);
    assert_eq!(bus.get_delay_timer(1_500), 0);
}

#[test]
fn delay_timer_counts_whole_ticks() {
    let mut bus = Bus::new();
    bus.set_delay_timer(30, 0);
    assert_eq!(bus.get_delay_timer(0), 30);
    assert_eq!(bus.get_delay_timer(15), 30);
    assert_eq!(bus.get_delay_timer(16), 29);
    assert_eq!(bus.get_delay_timer(160), 20);
    assert_eq!(bus.get_delay_timer(479), 1);
    assert_eq!(bus.get_delay_timer(480), 0);
    assert_eq!(bus.get_delay_timer(100_000), 0);
}

#[test]
fn sound_timer_ticks_and_gates_tone() {
    let mut bus = Bus::new();
    bus.set_sound_timer(2);
    assert!(bus.tick_sound_60hz());
    assert!(bus.tick_sound_60hz());
    assert!(!bus.tick_sound_60hz());
}

#[test]
fn cpu_register_roundtrip() {
    let mut cpu = Cpu::new();
    assert_eq!(cpu.pc(), 0x200);
    cpu.write_reg_v(7, 0x5A);
    assert_eq!(cpu.read_reg_v(7), 0x5A);
    assert_eq!(cpu.read_reg_v(6), 0);
}

#[test]
fn run_opcode_executes_alu_against_bus() {
    let mut cpu = Cpu::new();
    let mut bus = Bus::new();
    // ADD V0, V1 at 0x200
    bus.ram.write_byte(0x200, 0x80);
    bus.ram.write_byte(0x201, 0x14);
    cpu.write_reg_v(0, 0xF0);
    cpu.write_reg_v(1, 0x20);
    let w = cpu.run_opcode(&mut bus, 0).expect("add executes");
    assert_eq!(w, None);
    assert_eq!(cpu.read_reg_v(0), 0x10);
    assert_eq!(cpu.read_reg_v(0xF), 1);
    assert_eq!(cpu.pc(), 0x202);
}

#[test]
fn run_opcode_skips_on_held_key() {
    let mut cpu = Cpu::new();
    let mut bus = Bus::new();
    bus.ram.write_byte(0x200, 0xE0);
    bus.ram.write_byte(0x201, 0x9E);
    let mut keys = [false; 16];
    keys[0] = true;
    bus.input.set_all(&keys);
    cpu.run_opcode(&mut bus, 0).expect("skip executes");
    assert_eq!(cpu.pc(), 0x204);
}

#[test]
fn chip8_delay_timer_through_the_engine() {
    // DT = 30 at 1000 ms; read back 500 ms later: 0
    let mut machine = Chip8::new();
    machine
        .load_rom(&vec![0x60, 0x1E, 0xF0, 0x15, 0xF1, 0x07])
        .expect("program fits");
    machine.run_instruction(0).expect("load register");
    machine.run_instruction(1_000).expect("set delay timer");
    machine.run_instruction(1_500).expect("read delay timer");
    assert_eq!(machine.cpu.read_reg_v(1), 0);
}

#[test]
fn chip8_delay_timer_partial_elapse() {
    // DT = 30 at 0 ms; read at 160 ms: 10 ticks passed, 20 left
    let mut machine = Chip8::new();
    machine
        .load_rom(&vec![0x60, 0x1E, 0xF0, 0x15, 0xF1, 0x07])
        .expect("program fits");
    machine.run_instruction(0).expect("load register");
    machine.run_instruction(0).expect("set delay timer");
    machine.run_instruction(160).expect("read delay timer");
    assert_eq!(machine.cpu.read_reg_v(1), 20);
}

#[test]
fn chip8_ret_without_call_underflows() {
    let mut machine = Chip8::new();
    machine.load_rom(&vec![0x00, 0xEE]).expect("program fits");
    assert_eq!(machine.run_instruction(0), Err(Chip8Error::StackUnderflow));
}

#[test]
fn chip8_load_rejects_3585_bytes() {
    let mut machine = Chip8::new();
    assert_eq!(machine.load_rom(&vec![0u8; 3585]), Err(Chip8Error::LoadTooLarge));
    assert_eq!(machine.load_rom(&vec![0u8; 3584]), Ok(()));
}

#[test]
fn chip8_ram_snapshot_shows_fonts_and_program() {
    let mut machine = Chip8::new();
    machine.load_rom(&vec![0xDE, 0xAD]).expect("program fits");
    let ram = machine.test_bus_ram();
    assert_eq!(ram.len(), 4096);
    assert_eq!(ram[0], 0xF0);
    assert_eq!(ram[5], 0x20);
    assert_eq!(ram[79], 0x80);
    assert_eq!(ram[0x200], 0xDE);
    assert_eq!(ram[0x201], 0xAD);
    assert_eq!(ram[0x202], 0x00);
}

#[test]
fn chip8_wait_for_key_protocol() {
    let mut machine = Chip8::new();
    machine.load_rom(&vec![0xF4, 0x0A]).expect("program fits");
    let w = machine.run_instruction(0).expect("wait executes");
    assert_eq!(w, Some(4));
    let mut keys = [false; 16];
    keys[9] = true;
    let key = Input::first_pressed(&keys).expect("a key is held");
    machine.cpu.write_reg_v(w.unwrap(), key);
    assert_eq!(machine.cpu.read_reg_v(4), 9);
}

#[test]
fn first_pressed_picks_lowest_key() {
    let mut keys = [false; 16];
    assert_eq!(Input::first_pressed(&keys), None);
    keys[11] = true;
    keys[6] = true;
    assert_eq!(Input::first_pressed(&keys), Some(6));
}

#[test]
fn input_latch_is_replaced_whole() {
    let mut input = Input::new();
    let mut keys = [false; 16];
    keys[3] = true;
    input.set_all(&keys);
    assert!(input.key_pressed(3));
    assert!(!input.key_pressed(2));
    input.set_all(&[false; 16]);
    assert!(!input.key_pressed(3));
}
