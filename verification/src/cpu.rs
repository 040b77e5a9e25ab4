//! The processor of the layered machine: register file, index register,
//! program counter and return stack, executing one instruction per call
//! against a [`Bus`] that carries memory, framebuffer, input latch and the
//! timer pair. The delay timer is read through the bus's elapsed-time
//! computation, so the caller passes the clock in as a millisecond count.
//!
//! [`spec_step_cpu`] is the instruction table's mathematical semantics for
//! this machine flavour; [`Cpu::run_opcode`] is proved to realize it for
//! some value of the drawn random byte.

use vstd::prelude::*;
use crate::Chip8Error;
use crate::bus::{delay_value, Bus, BusV};
use crate::display::{draw_sprite_coll, draw_sprite_fb};
use crate::rng::random_byte;

verus! {

pub const PROGRAM_START: u16 = 0x200;

pub const OPCODE_SIZE: u16 = 2;

/// The mathematical state of the processor.
pub ghost struct CpuV {
    pub v: Seq<u8>,
    pub pc: u16,
    pub i: u16,
    pub stack: Seq<u16>,
}

impl CpuV {
    pub open spec fn wf(self) -> bool {
        self.v.len() == 16
    }
}

/// The 16-bit instruction word fetched at the program counter from the
/// bus's memory: two bytes, most significant first.
pub open spec fn cpu_inst_at(c: CpuV, ram: Seq<u8>) -> int {
    ram[c.pc as int] * 0x100 + ram[c.pc as int + 1]
}

/// One fetch-decode-execute step of the processor over its bus, as a
/// mathematical transition: the same 35-entry instruction table as the
/// flat machine, with the delay timer read computed from `now_ms` and the
/// delay timer set recording `now_ms`. On an `Err` neither the processor
/// nor the bus changes.
pub open spec fn spec_step_cpu(c: CpuV, b: BusV, now_ms: u64, rnd: u8) -> Result<
    (CpuV, BusV, Option<u8>),
    Chip8Error,
> {
    if c.pc as int + 1 >= 4096 {
        Err(Chip8Error::OutOfRange)
    } else {
        let inst: int = cpu_inst_at(c, b.ram);
        let a: int = inst / 0x1000;
        let x: int = (inst / 0x100) % 0x10;
        let y: int = (inst / 0x10) % 0x10;
        let n: int = inst % 0x10;
        let kk: u8 = (inst % 0x100) as u8;
        let nnn: int = inst % 0x1000;
        let next: u16 = (c.pc + 2) as u16;
        let skip: u16 = (c.pc + 4) as u16;
        let vx: u8 = c.v[x];
        let vy: u8 = c.v[y];
        if inst == 0x00E0 {
            // CLS
            Ok((CpuV { pc: next, ..c }, BusV { fb: Seq::new(2048, |p: int| false), ..b }, None))
        } else if inst == 0x00EE {
            // RET
            if c.stack.len() == 0 {
                Err(Chip8Error::StackUnderflow)
            } else {
                Ok((CpuV { pc: c.stack.last(), stack: c.stack.drop_last(), ..c }, b, None))
            }
        } else if a == 0x1 {
            // JP nnn
            Ok((CpuV { pc: nnn as u16, ..c }, b, None))
        } else if a == 0x2 {
            // CALL nnn
            Ok((CpuV { stack: c.stack.push(next), pc: nnn as u16, ..c }, b, None))
        } else if a == 0x3 {
            // SE Vx, kk
            Ok((CpuV { pc: if vx == kk { skip } else { next }, ..c }, b, None))
        } else if a == 0x4 {
            // SNE Vx, kk
            Ok((CpuV { pc: if vx != kk { skip } else { next }, ..c }, b, None))
        } else if a == 0x5 {
            // SE Vx, Vy
            if n == 0 {
                Ok((CpuV { pc: if vx == vy { skip } else { next }, ..c }, b, None))
            } else {
                Err(Chip8Error::UnknownOpcode)
            }
        } else if a == 0x6 {
            // LD Vx, kk
            Ok((CpuV { v: c.v.update(x, kk), pc: next, ..c }, b, None))
        } else if a == 0x7 {
            // ADD Vx, kk
            Ok((CpuV { v: c.v.update(x, ((vx + kk) % 256) as u8), pc: next, ..c }, b, None))
        } else if a == 0x8 {
            if n == 0x0 {
                Ok((CpuV { v: c.v.update(x, vy), pc: next, ..c }, b, None))
            } else if n == 0x1 {
                Ok((CpuV { v: c.v.update(x, vx | vy), pc: next, ..c }, b, None))
            } else if n == 0x2 {
                Ok((CpuV { v: c.v.update(x, vx & vy), pc: next, ..c }, b, None))
            } else if n == 0x3 {
                Ok((CpuV { v: c.v.update(x, vx ^ vy), pc: next, ..c }, b, None))
            } else if n == 0x4 {
                Ok((
                    CpuV {
                        v: c.v.update(x, ((vx + vy) % 256) as u8).update(
                            15,
                            if vx + vy > 255 { 1u8 } else { 0u8 },
                        ),
                        pc: next,
                        ..c
                    },
                    b,
                    None,
                ))
            } else if n == 0x5 {
                Ok((
                    CpuV {
                        v: c.v.update(x, ((vx + 256 - vy) % 256) as u8).update(
                            15,
                            if vx >= vy { 1u8 } else { 0u8 },
                        ),
                        pc: next,
                        ..c
                    },
                    b,
                    None,
                ))
            } else if n == 0x6 {
                Ok((
                    CpuV { v: c.v.update(15, (vx % 2) as u8).update(x, (vx / 2) as u8), pc: next, ..c },
                    b,
                    None,
                ))
            } else if n == 0x7 {
                Ok((
                    CpuV {
                        v: c.v.update(x, ((vy + 256 - vx) % 256) as u8).update(
                            15,
                            if vy >= vx { 1u8 } else { 0u8 },
                        ),
                        pc: next,
                        ..c
                    },
                    b,
                    None,
                ))
            } else if n == 0xE {
                Ok((
                    CpuV {
                        v: c.v.update(15, (vx / 128) as u8).update(x, ((vx * 2) % 256) as u8),
                        pc: next,
                        ..c
                    },
                    b,
                    None,
                ))
            } else {
                Err(Chip8Error::UnknownOpcode)
            }
        } else if a == 0x9 {
            // SNE Vx, Vy
            if n == 0 {
                Ok((CpuV { pc: if vx != vy { skip } else { next }, ..c }, b, None))
            } else {
                Err(Chip8Error::UnknownOpcode)
            }
        } else if a == 0xA {
            // LD I, nnn
            Ok((CpuV { i: nnn as u16, pc: next, ..c }, b, None))
        } else if a == 0xB {
            // JP V0, nnn
            Ok((CpuV { pc: (nnn + c.v[0]) as u16, ..c }, b, None))
        } else if a == 0xC {
            // RND Vx, kk
            Ok((CpuV { v: c.v.update(x, rnd & kk), pc: next, ..c }, b, None))
        } else if a == 0xD {
            // DRW Vx, Vy, n
            if c.i + n > 4096 {
                Err(Chip8Error::OutOfRange)
            } else {
                let rows: Seq<u8> = b.ram.subrange(c.i as int, c.i as int + n);
                Ok((
                    CpuV {
                        v: c.v.update(
                            15,
                            if draw_sprite_coll(b.fb, rows, vx, vy) { 1u8 } else { 0u8 },
                        ),
                        pc: next,
                        ..c
                    },
                    BusV { fb: draw_sprite_fb(b.fb, rows, vx, vy), ..b },
                    None,
                ))
            }
        } else if a == 0xE {
            if kk == 0x9E {
                // SKP Vx
                if vx as int >= 16 {
                    Err(Chip8Error::OutOfRange)
                } else {
                    Ok((CpuV { pc: if b.keys[vx as int] { skip } else { next }, ..c }, b, None))
                }
            } else if kk == 0xA1 {
                // SKNP Vx
                if vx as int >= 16 {
                    Err(Chip8Error::OutOfRange)
                } else {
                    Ok((CpuV { pc: if !b.keys[vx as int] { skip } else { next }, ..c }, b, None))
                }
            } else {
                Err(Chip8Error::UnknownOpcode)
            }
        } else if a == 0xF {
            if kk == 0x07 {
                // LD Vx, DT: the delay timer's computed value now
                Ok((
                    CpuV { v: c.v.update(x, delay_value(b.dt, b.dt_set_ms, now_ms)), pc: next, ..c },
                    b,
                    None,
                ))
            } else if kk == 0x0A {
                // LD Vx, K
                Ok((CpuV { pc: next, ..c }, b, Some(x as u8)))
            } else if kk == 0x15 {
                // LD DT, Vx: record the value and the set instant
                Ok((CpuV { pc: next, ..c }, BusV { dt: vx, dt_set_ms: now_ms, ..b }, None))
            } else if kk == 0x18 {
                // LD ST, Vx
                Ok((CpuV { pc: next, ..c }, BusV { st: vx, ..b }, None))
            } else if kk == 0x1E {
                // ADD I, Vx
                Ok((CpuV { i: ((c.i + vx) % 0x10000) as u16, pc: next, ..c }, b, None))
            } else if kk == 0x29 {
                // LD F, Vx
                Ok((CpuV { i: (vx * 5) as u16, pc: next, ..c }, b, None))
            } else if kk == 0x33 {
                // LD B, Vx
                if c.i + 3 > 4096 {
                    Err(Chip8Error::OutOfRange)
                } else {
                    Ok((
                        CpuV { pc: next, ..c },
                        BusV {
                            ram: b.ram.update(c.i as int, (vx / 100) as u8).update(
                                c.i as int + 1,
                                ((vx % 100) / 10) as u8,
                            ).update(c.i as int + 2, (vx % 10) as u8),
                            ..b
                        },
                        None,
                    ))
                }
            } else if kk == 0x55 {
                // LD [I], Vx
                if c.i + x + 1 > 4096 {
                    Err(Chip8Error::OutOfRange)
                } else {
                    Ok((
                        CpuV { pc: next, ..c },
                        BusV {
                            ram: Seq::new(
                                4096,
                                |ad: int|
                                    if c.i <= ad <= c.i + x {
                                        c.v[ad - c.i]
                                    } else {
                                        b.ram[ad]
                                    },
                            ),
                            ..b
                        },
                        None,
                    ))
                }
            } else if kk == 0x65 {
                // LD Vx, [I]
                if c.i + x + 1 > 4096 {
                    Err(Chip8Error::OutOfRange)
                } else {
                    Ok((
                        CpuV {
                            v: Seq::new(
                                16,
                                |r: int|
                                    if r <= x {
                                        b.ram[c.i + r]
                                    } else {
                                        c.v[r]
                                    },
                            ),
                            pc: next,
                            ..c
                        },
                        b,
                        None,
                    ))
                }
            } else {
                Err(Chip8Error::UnknownOpcode)
            }
        } else {
            Err(Chip8Error::UnknownOpcode)
        }
    }
}

/// Packages an exec step's result in the shape of [`spec_step_cpu`]'s
/// result.
pub open spec fn cpu_step_outcome(c2: CpuV, b2: BusV, r: Result<Option<u8>, Chip8Error>) -> Result<
    (CpuV, BusV, Option<u8>),
    Chip8Error,
> {
    match r {
        Ok(w) => Ok((c2, b2, w)),
        Err(e) => Err(e),
    }
}

pub struct Cpu {
    v: Vec<u8>,
    pc: u16,
    i: u16,
    ret_stack: Vec<u16>,
}

impl View for Cpu {
    type V = CpuV;

    closed spec fn view(&self) -> CpuV {
        CpuV { v: self.v@, pc: self.pc, i: self.i, stack: self.ret_stack@ }
    }
}

impl Cpu {
    pub open spec fn wf(&self) -> bool {
        self@.wf()
    }

    /// A fresh processor: registers zeroed, empty return stack, program
    /// counter at the program start.
    pub fn new() -> (r: Cpu)
        ensures
            r.wf(),
            r@.v == Seq::new(16, |k: int| 0u8),
            r@.pc == PROGRAM_START,
            r@.i == 0u16,
            r@.stack == Seq::<u16>::empty(),
    {
        let mut v: Vec<u8> = Vec::new();
        while v.len() < 16
            invariant
                v@.len() <= 16,
                forall|k: int| 0 <= k < v@.len() ==> v@[k] == 0u8,
            decreases 16 - v@.len(),
        {
            v.push(0);
        }
        proof {
            assert(v@ =~= Seq::new(16, |k: int| 0u8));
        }
        let ret_stack: Vec<u16> = Vec::new();
        proof {
            assert(ret_stack@ =~= Seq::<u16>::empty());
        }
        Cpu { v, pc: PROGRAM_START, i: 0, ret_stack }
    }

    /// Write one general-purpose register.
    pub fn write_reg_v(&mut self, index: u8, value: u8)
        requires
            old(self).wf(),
            index < 16,
        ensures
            final(self).wf(),
            final(self)@ == (CpuV { v: old(self)@.v.update(index as int, value), ..old(self)@ }),
    {
        self.v.set(index as usize, value);
    }

    /// Read one general-purpose register.
    pub fn read_reg_v(&mut self, index: u8) -> (r: u8)
        requires
            old(self).wf(),
            index < 16,
        ensures
            final(self)@ == old(self)@,
            r == old(self)@.v[index as int],
    {
        self.v[index as usize]
    }

    /// The current program counter.
    pub fn pc(&self) -> (r: u16)
        ensures
            r == self@.pc,
    {
        self.pc
    }

    /// XOR-draw `height` sprite rows read from the bus's memory at the
    /// index register, and set the flag register to 1 exactly when some
    /// pixel was turned OFF.
    fn draw_sprite(&mut self, bus: &mut Bus, x: u8, y: u8, height: u8)
        requires
            old(self).wf(),
            old(bus).wf(),
            old(self)@.i as int + height <= 4096,
        ensures
            final(self).wf(),
            final(bus).wf(),
            final(bus)@ == (BusV {
                fb: draw_sprite_fb(
                    old(bus)@.fb,
                    old(bus)@.ram.subrange(
                        old(self)@.i as int,
                        old(self)@.i as int + height as int,
                    ),
                    x,
                    y,
                ),
                ..old(bus)@
            }),
            final(self)@ == (CpuV {
                v: old(self)@.v.update(
                    15,
                    if draw_sprite_coll(
                        old(bus)@.fb,
                        old(bus)@.ram.subrange(
                            old(self)@.i as int,
                            old(self)@.i as int + height as int,
                        ),
                        x,
                        y,
                    ) {
                        1u8
                    } else {
                        0u8
                    },
                ),
                ..old(self)@
            }),
    {
        let mut rows: Vec<u8> = Vec::new();
        let mut k: u8 = 0;
        while k < height
            invariant
                self.wf(),
                bus.wf(),
                self@ == old(self)@,
                bus@ == old(bus)@,
                k <= height,
                self@.i as int + height <= 4096,
                rows@.len() == k as int,
                forall|t: int| 0 <= t < k ==> rows@[t] == bus@.ram[self@.i + t],
            decreases height - k,
        {
            let byte = bus.ram.read_byte(self.i + (k as u16));
            rows.push(byte);
            k = k + 1;
        }
        proof {
            assert(rows@ =~= old(bus)@.ram.subrange(
                old(self)@.i as int,
                old(self)@.i as int + height as int,
            ));
        }
        let coll = bus.display.draw_sprite(&rows, x, y);
        if coll {
            self.v.set(15, 1);
        } else {
            self.v.set(15, 0);
        }
    }

    /// Fetch, decode and execute exactly one instruction against the bus:
    /// one atomic transition of [`spec_step_cpu`], for some value of the
    /// drawn random byte. `now_ms` is the caller's clock; it must not run
    /// backwards past the last delay-timer set. `Ok(Some(x))` asks the
    /// caller to suspend stepping until a key press is written into
    /// register `x`; on an `Err` nothing changes and the machine must not
    /// be stepped past.
    pub fn run_opcode(&mut self, bus: &mut Bus, now_ms: u64) -> (r: Result<
        Option<u8>,
        Chip8Error,
    >)
        requires
            old(self).wf(),
            old(bus).wf(),
            now_ms >= old(bus)@.dt_set_ms,
        ensures
            final(self).wf(),
            final(bus).wf(),
            exists|rb: u8|
                spec_step_cpu(old(self)@, old(bus)@, now_ms, rb) == cpu_step_outcome(
                    final(self)@,
                    final(bus)@,
                    r,
                ),
            r matches Err(_) ==> final(self)@ == old(self)@ && final(bus)@ == old(bus)@,
    {
        let rnd: u8 = random_byte();
        if self.pc >= 4095 {
            proof {
                assert(spec_step_cpu(self@, bus@, now_ms, rnd) == cpu_step_outcome(
                    self@,
                    bus@,
                    Err(Chip8Error::OutOfRange),
                ));
            }
            return Err(Chip8Error::OutOfRange);
        }
        let hi = bus.ram.read_byte(self.pc);
        let lo = bus.ram.read_byte(self.pc + 1);
        let inst: u16 = (hi as u16) * 256 + (lo as u16);
        let a: u16 = inst / 0x1000;
        let x: usize = ((inst / 0x100) % 0x10) as usize;
        let y: usize = ((inst / 0x10) % 0x10) as usize;
        let n: u16 = inst % 0x10;
        let kk: u8 = (inst % 0x100) as u8;
        let nnn: u16 = inst % 0x1000;
        let next: u16 = self.pc + 2;
        let skip: u16 = self.pc + 4;
        let vx: u8 = self.v[x];
        let vy: u8 = self.v[y];
        proof {
            assert(inst == cpu_inst_at(self@, bus@.ram));
        }
        if inst == 0x00E0 {
            bus.display.clear();
            self.pc = next;
            proof {
                assert(spec_step_cpu(old(self)@, old(bus)@, now_ms, rnd) == cpu_step_outcome(
                    self@,
                    bus@,
                    Ok(None),
                ));
            }
            return Ok(None);
        } else if inst == 0x00EE {
            if self.ret_stack.len() == 0 {
                proof {
                    assert(spec_step_cpu(self@, bus@, now_ms, rnd) == cpu_step_outcome(
                        self@,
                        bus@,
                        Err(Chip8Error::StackUnderflow),
                    ));
                }
                return Err(Chip8Error::StackUnderflow);
            }
            let addr = self.ret_stack.pop().unwrap();
            self.pc = addr;
            proof {
                assert(spec_step_cpu(old(self)@, old(bus)@, now_ms, rnd) == cpu_step_outcome(
                    self@,
                    bus@,
                    Ok(None),
                ));
            }
            return Ok(None);
        } else if a == 0x1 {
            self.pc = nnn;
            proof {
                assert(spec_step_cpu(old(self)@, old(bus)@, now_ms, rnd) == cpu_step_outcome(
                    self@,
                    bus@,
                    Ok(None),
                ));
            }
            return Ok(None);
        } else if a == 0x2 {
            self.ret_stack.push(next);
            self.pc = nnn;
            proof {
                assert(spec_step_cpu(old(self)@, old(bus)@, now_ms, rnd) == cpu_step_outcome(
                    self@,
                    bus@,
                    Ok(None),
                ));
            }
            return Ok(None);
        } else if a == 0x3 {
            self.pc = if vx == kk { skip } else { next };
            proof {
                assert(spec_step_cpu(old(self)@, old(bus)@, now_ms, rnd) == cpu_step_outcome(
                    self@,
                    bus@,
                    Ok(None),
                ));
            }
            return Ok(None);
        } else if a == 0x4 {
            self.pc = if vx != kk { skip } else { next };
            proof {
                assert(spec_step_cpu(old(self)@, old(bus)@, now_ms, rnd) == cpu_step_outcome(
                    self@,
                    bus@,
                    Ok(None),
                ));
            }
            return Ok(None);
        } else if a == 0x5 {
            if n != 0 {
                proof {
                    assert(spec_step_cpu(self@, bus@, now_ms, rnd) == cpu_step_outcome(
                        self@,
                        bus@,
                        Err(Chip8Error::UnknownOpcode),
                    ));
                }
                return Err(Chip8Error::UnknownOpcode);
            }
            self.pc = if vx == vy { skip } else { next };
            proof {
                assert(spec_step_cpu(old(self)@, old(bus)@, now_ms, rnd) == cpu_step_outcome(
                    self@,
                    bus@,
                    Ok(None),
                ));
            }
            return Ok(None);
        } else if a == 0x6 {
            self.v.set(x, kk);
            self.pc = next;
            proof {
                assert(spec_step_cpu(old(self)@, old(bus)@, now_ms, rnd) == cpu_step_outcome(
                    self@,
                    bus@,
                    Ok(None),
                ));
            }
            return Ok(None);
        } else if a == 0x7 {
            let sum: u16 = vx as u16 + kk as u16;
            self.v.set(x, (sum % 256) as u8);
            self.pc = next;
            proof {
                assert(spec_step_cpu(old(self)@, old(bus)@, now_ms, rnd) == cpu_step_outcome(
                    self@,
                    bus@,
                    Ok(None),
                ));
            }
            return Ok(None);
        } else if a == 0x8 {
            if n == 0x0 {
                self.v.set(x, vy);
            } else if n == 0x1 {
                self.v.set(x, vx | vy);
            } else if n == 0x2 {
                self.v.set(x, vx & vy);
            } else if n == 0x3 {
                self.v.set(x, vx ^ vy);
            } else if n == 0x4 {
                let sum: u16 = vx as u16 + vy as u16;
                self.v.set(x, (sum % 256) as u8);
                self.v.set(15, if sum > 255 { 1 } else { 0 });
            } else if n == 0x5 {
                let diff: u16 = (vx as u16 + 256 - vy as u16) % 256;
                self.v.set(x, diff as u8);
                self.v.set(15, if vx >= vy { 1 } else { 0 });
            } else if n == 0x6 {
                self.v.set(15, vx % 2);
                self.v.set(x, vx / 2);
            } else if n == 0x7 {
                let diff: u16 = (vy as u16 + 256 - vx as u16) % 256;
                self.v.set(x, diff as u8);
                self.v.set(15, if vy >= vx { 1 } else { 0 });
            } else if n == 0xE {
                self.v.set(15, vx / 128);
                self.v.set(x, ((vx as u16 * 2) % 256) as u8);
            } else {
                proof {
                    assert(spec_step_cpu(self@, bus@, now_ms, rnd) == cpu_step_outcome(
                        self@,
                        bus@,
                        Err(Chip8Error::UnknownOpcode),
                    ));
                }
                return Err(Chip8Error::UnknownOpcode);
            }
            self.pc = next;
            proof {
                assert(spec_step_cpu(old(self)@, old(bus)@, now_ms, rnd) == cpu_step_outcome(
                    self@,
                    bus@,
                    Ok(None),
                ));
            }
            return Ok(None);
        } else if a == 0x9 {
            if n != 0 {
                proof {
                    assert(spec_step_cpu(self@, bus@, now_ms, rnd) == cpu_step_outcome(
                        self@,
                        bus@,
                        Err(Chip8Error::UnknownOpcode),
                    ));
                }
                return Err(Chip8Error::UnknownOpcode);
            }
            self.pc = if vx != vy { skip } else { next };
            proof {
                assert(spec_step_cpu(old(self)@, old(bus)@, now_ms, rnd) == cpu_step_outcome(
                    self@,
                    bus@,
                    Ok(None),
                ));
            }
            return Ok(None);
        } else if a == 0xA {
            self.i = nnn;
            self.pc = next;
            proof {
                assert(spec_step_cpu(old(self)@, old(bus)@, now_ms, rnd) == cpu_step_outcome(
                    self@,
                    bus@,
                    Ok(None),
                ));
            }
            return Ok(None);
        } else if a == 0xB {
            self.pc = nnn + (self.v[0] as u16);
            proof {
                assert(spec_step_cpu(old(self)@, old(bus)@, now_ms, rnd) == cpu_step_outcome(
                    self@,
                    bus@,
                    Ok(None),
                ));
            }
            return Ok(None);
        } else if a == 0xC {
            self.v.set(x, rnd & kk);
            self.pc = next;
            proof {
                assert(spec_step_cpu(old(self)@, old(bus)@, now_ms, rnd) == cpu_step_outcome(
                    self@,
                    bus@,
                    Ok(None),
                ));
            }
            return Ok(None);
        } else if a == 0xD {
            if self.i as usize + n as usize > 4096 {
                proof {
                    assert(spec_step_cpu(self@, bus@, now_ms, rnd) == cpu_step_outcome(
                        self@,
                        bus@,
                        Err(Chip8Error::OutOfRange),
                    ));
                }
                return Err(Chip8Error::OutOfRange);
            }
            self.draw_sprite(bus, vx, vy, n as u8);
            self.pc = next;
            proof {
                assert(spec_step_cpu(old(self)@, old(bus)@, now_ms, rnd) == cpu_step_outcome(
                    self@,
                    bus@,
                    Ok(None),
                ));
            }
            return Ok(None);
        } else if a == 0xE {
            if kk == 0x9E {
                if vx >= 16 {
                    proof {
                        assert(spec_step_cpu(self@, bus@, now_ms, rnd) == cpu_step_outcome(
                            self@,
                            bus@,
                            Err(Chip8Error::OutOfRange),
                        ));
                    }
                    return Err(Chip8Error::OutOfRange);
                }
                self.pc = if bus.input.key_pressed(vx) { skip } else { next };
                proof {
                    assert(spec_step_cpu(old(self)@, old(bus)@, now_ms, rnd) == cpu_step_outcome(
                        self@,
                        bus@,
                        Ok(None),
                    ));
                }
                return Ok(None);
            } else if kk == 0xA1 {
                if vx >= 16 {
                    proof {
                        assert(spec_step_cpu(self@, bus@, now_ms, rnd) == cpu_step_outcome(
                            self@,
                            bus@,
                            Err(Chip8Error::OutOfRange),
                        ));
                    }
                    return Err(Chip8Error::OutOfRange);
                }
                self.pc = if !bus.input.key_pressed(vx) { skip } else { next };
                proof {
                    assert(spec_step_cpu(old(self)@, old(bus)@, now_ms, rnd) == cpu_step_outcome(
                        self@,
                        bus@,
                        Ok(None),
                    ));
                }
                return Ok(None);
            } else {
                proof {
                    assert(spec_step_cpu(self@, bus@, now_ms, rnd) == cpu_step_outcome(
                        self@,
                        bus@,
                        Err(Chip8Error::UnknownOpcode),
                    ));
                }
                return Err(Chip8Error::UnknownOpcode);
            }
        } else if a == 0xF {
            if kk == 0x07 {
                let dt = bus.get_delay_timer(now_ms);
                self.v.set(x, dt);
                self.pc = next;
                proof {
                    assert(spec_step_cpu(old(self)@, old(bus)@, now_ms, rnd) == cpu_step_outcome(
                        self@,
                        bus@,
                        Ok(None),
                    ));
                }
                return Ok(None);
            } else if kk == 0x0A {
                self.pc = next;
                proof {
                    assert(spec_step_cpu(old(self)@, old(bus)@, now_ms, rnd) == cpu_step_outcome(
                        self@,
                        bus@,
                        Ok(Some(x as u8)),
                    ));
                }
                return Ok(Some(x as u8));
            } else if kk == 0x15 {
                bus.set_delay_timer(vx, now_ms);
                self.pc = next;
                proof {
                    assert(spec_step_cpu(old(self)@, old(bus)@, now_ms, rnd) == cpu_step_outcome(
                        self@,
                        bus@,
                        Ok(None),
                    ));
                }
                return Ok(None);
            } else if kk == 0x18 {
                bus.set_sound_timer(vx);
                self.pc = next;
                proof {
                    assert(spec_step_cpu(old(self)@, old(bus)@, now_ms, rnd) == cpu_step_outcome(
                        self@,
                        bus@,
                        Ok(None),
                    ));
                }
                return Ok(None);
            } else if kk == 0x1E {
                let s: u32 = self.i as u32 + vx as u32;
                self.i = (s % 0x10000) as u16;
                self.pc = next;
                proof {
                    assert(spec_step_cpu(old(self)@, old(bus)@, now_ms, rnd) == cpu_step_outcome(
                        self@,
                        bus@,
                        Ok(None),
                    ));
                }
                return Ok(None);
            } else if kk == 0x29 {
                self.i = (vx as u16) * 5;
                self.pc = next;
                proof {
                    assert(spec_step_cpu(old(self)@, old(bus)@, now_ms, rnd) == cpu_step_outcome(
                        self@,
                        bus@,
                        Ok(None),
                    ));
                }
                return Ok(None);
            } else if kk == 0x33 {
                if self.i as usize + 3 > 4096 {
                    proof {
                        assert(spec_step_cpu(self@, bus@, now_ms, rnd) == cpu_step_outcome(
                            self@,
                            bus@,
                            Err(Chip8Error::OutOfRange),
                        ));
                    }
                    return Err(Chip8Error::OutOfRange);
                }
                bus.ram.write_byte(self.i, vx / 100);
                bus.ram.write_byte(self.i + 1, (vx % 100) / 10);
                bus.ram.write_byte(self.i + 2, vx % 10);
                self.pc = next;
                proof {
                    assert(spec_step_cpu(old(self)@, old(bus)@, now_ms, rnd) == cpu_step_outcome(
                        self@,
                        bus@,
                        Ok(None),
                    ));
                }
                return Ok(None);
            } else if kk == 0x55 {
                if self.i as usize + x + 1 > 4096 {
                    proof {
                        assert(spec_step_cpu(self@, bus@, now_ms, rnd) == cpu_step_outcome(
                            self@,
                            bus@,
                            Err(Chip8Error::OutOfRange),
                        ));
                    }
                    return Err(Chip8Error::OutOfRange);
                }
                let mut j: usize = 0;
                while j <= x
                    invariant
                        self.wf(),
                        bus.wf(),
                        j <= x + 1,
                        x < 16,
                        self@.i as int + x + 1 <= 4096,
                        self@ == old(self)@,
                        bus@ == (BusV { ram: bus@.ram, ..old(bus)@ }),
                        bus@.ram.len() == 4096,
                        forall|ad: int|
                            self@.i <= ad < self@.i + j ==> bus@.ram[ad] == self@.v[ad - self@.i],
                        forall|ad: int|
                            0 <= ad < 4096 && !(self@.i <= ad < self@.i + j) ==> bus@.ram[ad]
                                == old(bus)@.ram[ad],
                    decreases x + 1 - j,
                {
                    let b = self.v[j];
                    bus.ram.write_byte(self.i + (j as u16), b);
                    j = j + 1;
                }
                self.pc = next;
                proof {
                    assert(bus@.ram =~= Seq::new(
                        4096,
                        |ad: int|
                            if old(self)@.i <= ad <= old(self)@.i + x {
                                old(self)@.v[ad - old(self)@.i]
                            } else {
                                old(bus)@.ram[ad]
                            },
                    ));
                    assert(spec_step_cpu(old(self)@, old(bus)@, now_ms, rnd) == cpu_step_outcome(
                        self@,
                        bus@,
                        Ok(None),
                    ));
                }
                return Ok(None);
            } else if kk == 0x65 {
                if self.i as usize + x + 1 > 4096 {
                    proof {
                        assert(spec_step_cpu(self@, bus@, now_ms, rnd) == cpu_step_outcome(
                            self@,
                            bus@,
                            Err(Chip8Error::OutOfRange),
                        ));
                    }
                    return Err(Chip8Error::OutOfRange);
                }
                let mut j: usize = 0;
                while j <= x
                    invariant
                        self.wf(),
                        bus.wf(),
                        j <= x + 1,
                        x < 16,
                        self@.i as int + x + 1 <= 4096,
                        bus@ == old(bus)@,
                        self@ == (CpuV { v: self@.v, ..old(self)@ }),
                        self@.v.len() == 16,
                        forall|t: int| 0 <= t < j ==> self@.v[t] == bus@.ram[self@.i + t],
                        forall|t: int| j <= t < 16 ==> self@.v[t] == old(self)@.v[t],
                    decreases x + 1 - j,
                {
                    let b = bus.ram.read_byte(self.i + (j as u16));
                    self.v.set(j, b);
                    j = j + 1;
                }
                self.pc = next;
                proof {
                    assert(self@.v =~= Seq::new(
                        16,
                        |t: int|
                            if t <= x {
                                old(bus)@.ram[old(self)@.i + t]
                            } else {
                                old(self)@.v[t]
                            },
                    ));
                    assert(spec_step_cpu(old(self)@, old(bus)@, now_ms, rnd) == cpu_step_outcome(
                        self@,
                        bus@,
                        Ok(None),
                    ));
                }
                return Ok(None);
            } else {
                proof {
                    assert(spec_step_cpu(self@, bus@, now_ms, rnd) == cpu_step_outcome(
                        self@,
                        bus@,
                        Err(Chip8Error::UnknownOpcode),
                    ));
                }
                return Err(Chip8Error::UnknownOpcode);
            }
        } else {
            proof {
                assert(spec_step_cpu(self@, bus@, now_ms, rnd) == cpu_step_outcome(
                    self@,
                    bus@,
                    Err(Chip8Error::UnknownOpcode),
                ));
            }
            return Err(Chip8Error::UnknownOpcode);
        }
    }
}

} // verus!

// The same instruction laws as the flat machine's, stated over this
// flavour's transition function: the two engines share the 35-entry table.

verus! {

/// Law: ADD Vx, kk stores (Vx + kk) mod 256 in Vx and never alters the
/// flag register — except when x is 15, where Vx is the flag register.
pub proof fn lemma_cpu_add_imm_wraps_preserves_flag(
    c: CpuV,
    b: BusV,
    now_ms: u64,
    rnd: u8,
    x: int,
    kk: u8,
)
    requires
        c.wf(),
        c.pc as int + 1 < 4096,
        b.ram.len() == 4096,
        0 <= x < 16,
        cpu_inst_at(c, b.ram) / 0x1000 == 0x7,
        (cpu_inst_at(c, b.ram) / 0x100) % 0x10 == x,
        cpu_inst_at(c, b.ram) % 0x100 == kk,
    ensures
        spec_step_cpu(c, b, now_ms, rnd) matches Ok((c2, b2, w)) && c2.v[x] == (c.v[x] + kk) % 256
            && (x != 15 ==> c2.v[15] == c.v[15]) && b2 == b && w is None,
{
}

/// Law: ADD Vx, Vy sets the flag to 1 iff Vx + Vy > 255, and stores
/// (Vx + Vy) mod 256 in Vx (the flag write wins when x is 15).
pub proof fn lemma_cpu_add_reg_carry(c: CpuV, b: BusV, now_ms: u64, rnd: u8, x: int, y: int)
    requires
        c.wf(),
        c.pc as int + 1 < 4096,
        b.ram.len() == 4096,
        0 <= x < 16,
        0 <= y < 16,
        cpu_inst_at(c, b.ram) / 0x1000 == 0x8,
        (cpu_inst_at(c, b.ram) / 0x100) % 0x10 == x,
        (cpu_inst_at(c, b.ram) / 0x10) % 0x10 == y,
        cpu_inst_at(c, b.ram) % 0x10 == 0x4,
    ensures
        spec_step_cpu(c, b, now_ms, rnd) matches Ok((c2, b2, w)) && c2.v[15] == (if c.v[x] + c.v[y]
            > 255 {
            1u8
        } else {
            0u8
        }) && (x != 15 ==> c2.v[x] == (c.v[x] + c.v[y]) % 256) && b2 == b && w is None,
{
}

/// Law: SUB Vx, Vy sets the flag to 1 iff Vx >= Vy (no borrow), storing
/// the wrapped difference in Vx (the flag write wins when x is 15).
pub proof fn lemma_cpu_sub_reg_no_borrow(c: CpuV, b: BusV, now_ms: u64, rnd: u8, x: int, y: int)
    requires
        c.wf(),
        c.pc as int + 1 < 4096,
        b.ram.len() == 4096,
        0 <= x < 16,
        0 <= y < 16,
        cpu_inst_at(c, b.ram) / 0x1000 == 0x8,
        (cpu_inst_at(c, b.ram) / 0x100) % 0x10 == x,
        (cpu_inst_at(c, b.ram) / 0x10) % 0x10 == y,
        cpu_inst_at(c, b.ram) % 0x10 == 0x5,
    ensures
        spec_step_cpu(c, b, now_ms, rnd) matches Ok((c2, b2, w)) && c2.v[15] == (if c.v[x] >= c.v[y]
            {
            1u8
        } else {
            0u8
        }) && (x != 15 ==> c2.v[x] == (c.v[x] + 256 - c.v[y]) % 256) && b2 == b && w is None,
{
}

/// Law: SHR Vx sets the flag to the pre-shift least-significant bit of Vx,
/// independent of the post-shift value, and halves Vx. When x is 15 the
/// shifted value overwrites the flag afterwards, so that case is left out.
pub proof fn lemma_cpu_shr_flag_is_lsb(c: CpuV, b: BusV, now_ms: u64, rnd: u8, x: int)
    requires
        c.wf(),
        c.pc as int + 1 < 4096,
        b.ram.len() == 4096,
        0 <= x < 16,
        cpu_inst_at(c, b.ram) / 0x1000 == 0x8,
        (cpu_inst_at(c, b.ram) / 0x100) % 0x10 == x,
        cpu_inst_at(c, b.ram) % 0x10 == 0x6,
    ensures
        spec_step_cpu(c, b, now_ms, rnd) matches Ok((c2, b2, w)) && c2.v[x] == c.v[x] / 2 && (x
            != 15 ==> c2.v[15] == c.v[x] % 2) && b2 == b && w is None,
{
}

/// Law: SHL Vx sets the flag to the pre-shift most-significant bit of Vx,
/// independent of the post-shift value, and doubles Vx modulo 256. When x
/// is 15 the shifted value overwrites the flag, so that case is left out.
pub proof fn lemma_cpu_shl_flag_is_msb(c: CpuV, b: BusV, now_ms: u64, rnd: u8, x: int)
    requires
        c.wf(),
        c.pc as int + 1 < 4096,
        b.ram.len() == 4096,
        0 <= x < 16,
        cpu_inst_at(c, b.ram) / 0x1000 == 0x8,
        (cpu_inst_at(c, b.ram) / 0x100) % 0x10 == x,
        cpu_inst_at(c, b.ram) % 0x10 == 0xE,
    ensures
        spec_step_cpu(c, b, now_ms, rnd) matches Ok((c2, b2, w)) && c2.v[x] == (c.v[x] * 2) % 256
            && (x != 15 ==> c2.v[15] == c.v[x] / 128) && b2 == b && w is None,
{
}

/// Law: CALL nnn followed immediately by RET brings the program counter to
/// exactly the call site plus 2, and leaves the call stack as it was.
pub proof fn lemma_cpu_call_then_ret(
    c: CpuV,
    b: BusV,
    now1: u64,
    rnd1: u8,
    now2: u64,
    rnd2: u8,
    nnn: int,
)
    requires
        c.wf(),
        c.pc as int + 1 < 4096,
        b.ram.len() == 4096,
        cpu_inst_at(c, b.ram) / 0x1000 == 0x2,
        cpu_inst_at(c, b.ram) % 0x1000 == nnn,
        nnn + 1 < 4096,
        b.ram[nnn] == 0x00,
        b.ram[nnn + 1] == 0xEE,
    ensures
        spec_step_cpu(c, b, now1, rnd1) matches Ok((c1, b1, w1)) && w1 is None && (spec_step_cpu(
            c1,
            b1,
            now2,
            rnd2,
        ) matches Ok((c2, b2, w2)) && w2 is None && c2.pc == c.pc + 2 && c2.stack == c.stack),
{
    let c1 = CpuV {
        stack: c.stack.push((c.pc + 2) as u16),
        pc: (cpu_inst_at(c, b.ram) % 0x1000) as u16,
        ..c
    };
    assert(spec_step_cpu(c, b, now1, rnd1) == Ok::<(CpuV, BusV, Option<u8>), Chip8Error>((
        c1,
        b,
        None,
    )));
    assert(cpu_inst_at(c1, b.ram) == 0x00EE);
    assert(c1.stack.len() == c.stack.len() + 1);
    assert(c1.stack.last() == (c.pc + 2) as u16);
    assert(c1.stack.drop_last() =~= c.stack);
}

/// Law: RET on a machine that never issued a CALL (its stack is empty)
/// fails with the stack-underflow condition.
pub proof fn lemma_cpu_ret_on_empty_stack(c: CpuV, b: BusV, now_ms: u64, rnd: u8)
    requires
        c.wf(),
        c.pc as int + 1 < 4096,
        b.ram.len() == 4096,
        cpu_inst_at(c, b.ram) == 0x00EE,
        c.stack.len() == 0,
    ensures
        spec_step_cpu(c, b, now_ms, rnd) == Err::<(CpuV, BusV, Option<u8>), Chip8Error>(
            Chip8Error::StackUnderflow,
        ),
{
}

} // verus!
