//! The flat CHIP-8 machine: memory, register file, index register, program
//! counter, call stack, framebuffer, input and the two timers in one owned
//! struct. One call to [`C8::run`] executes exactly one instruction; the
//! timers are driven by an external 60 Hz tick through [`C8::tick_60hz`].
//!
//! The whole instruction table is given a mathematical semantics by
//! [`spec_step`]: a function from machine state, key snapshot and one drawn
//! random byte to the next state, the wait-for-key request, or the fatal
//! condition. `run` is proved to realize `spec_step` for some drawn byte.

use vstd::prelude::*;
use crate::Chip8Error;
use crate::display::{draw_sprite_coll, draw_sprite_fb, Display};
use crate::fonts::{font_byte, spec_font_byte};
use crate::ram::Ram;
use crate::rng::random_byte;

verus! {

pub const WIDTH: usize = 64;

pub const HEIGHT: usize = 32;

pub const RAM_SIZE: usize = 4096;

/// The mathematical state of a machine: every component as a plain value.
pub ghost struct C8V {
    pub ram: Seq<u8>,
    pub v: Seq<u8>,
    pub fb: Seq<bool>,
    pub i: u16,
    pub dt: u8,
    pub st: u8,
    pub stack: Seq<u16>,
    pub pc: u16,
}

impl C8V {
    pub open spec fn wf(self) -> bool {
        self.ram.len() == 4096 && self.v.len() == 16 && self.fb.len() == 2048
    }
}

/// The 16-bit instruction word fetched at the program counter: two bytes,
/// most significant first.
pub open spec fn inst_at(m: C8V) -> int {
    m.ram[m.pc as int] * 0x100 + m.ram[m.pc as int + 1]
}

/// Memory after a load: the font table in the reserved area, the program
/// from 0x200 on, everything else untouched.
pub open spec fn load_ram_spec(ram: Seq<u8>, rom: Seq<u8>) -> Seq<u8> {
    Seq::new(
        4096,
        |a: int|
            if a < 80 {
                spec_font_byte(a)
            } else if 0x200 <= a < 0x200 + rom.len() {
                rom[a - 0x200]
            } else {
                ram[a]
            },
    )
}

/// One fetch-decode-execute step as a mathematical transition. `keys` is
/// the current input latch, `rnd` the byte the RND instruction draws. The
/// result pairs the next state with the wait-for-key request (`Some(x)`
/// asks the caller to stop stepping until a key press is written into
/// register `x`), or names the fatal condition, in which case the machine
/// does not change.
pub open spec fn spec_step(m: C8V, keys: Seq<bool>, rnd: u8) -> Result<
    (C8V, Option<u8>),
    Chip8Error,
> {
    if m.pc as int + 1 >= 4096 {
        Err(Chip8Error::OutOfRange)
    } else {
        let inst: int = inst_at(m);
        let a: int = inst / 0x1000;
        let x: int = (inst / 0x100) % 0x10;
        let y: int = (inst / 0x10) % 0x10;
        let n: int = inst % 0x10;
        let kk: u8 = (inst % 0x100) as u8;
        let nnn: int = inst % 0x1000;
        let next: u16 = (m.pc + 2) as u16;
        let skip: u16 = (m.pc + 4) as u16;
        let vx: u8 = m.v[x];
        let vy: u8 = m.v[y];
        if inst == 0x00E0 {
            // CLS: clear the framebuffer
            Ok((C8V { fb: Seq::new(2048, |p: int| false), pc: next, ..m }, None))
        } else if inst == 0x00EE {
            // RET: pop the return address pushed by CALL
            if m.stack.len() == 0 {
                Err(Chip8Error::StackUnderflow)
            } else {
                Ok((C8V { pc: m.stack.last(), stack: m.stack.drop_last(), ..m }, None))
            }
        } else if a == 0x1 {
            // JP nnn
            Ok((C8V { pc: nnn as u16, ..m }, None))
        } else if a == 0x2 {
            // CALL nnn: push the address of the next instruction
            Ok((C8V { stack: m.stack.push(next), pc: nnn as u16, ..m }, None))
        } else if a == 0x3 {
            // SE Vx, kk
            Ok((C8V { pc: if vx == kk { skip } else { next }, ..m }, None))
        } else if a == 0x4 {
            // SNE Vx, kk
            Ok((C8V { pc: if vx != kk { skip } else { next }, ..m }, None))
        } else if a == 0x5 {
            // SE Vx, Vy
            if n == 0 {
                Ok((C8V { pc: if vx == vy { skip } else { next }, ..m }, None))
            } else {
                Err(Chip8Error::UnknownOpcode)
            }
        } else if a == 0x6 {
            // LD Vx, kk
            Ok((C8V { v: m.v.update(x, kk), pc: next, ..m }, None))
        } else if a == 0x7 {
            // ADD Vx, kk: wraps modulo 256, the flag register is not touched
            Ok((C8V { v: m.v.update(x, ((vx + kk) % 256) as u8), pc: next, ..m }, None))
        } else if a == 0x8 {
            if n == 0x0 {
                // LD Vx, Vy
                Ok((C8V { v: m.v.update(x, vy), pc: next, ..m }, None))
            } else if n == 0x1 {
                // OR Vx, Vy
                Ok((C8V { v: m.v.update(x, vx | vy), pc: next, ..m }, None))
            } else if n == 0x2 {
                // AND Vx, Vy
                Ok((C8V { v: m.v.update(x, vx & vy), pc: next, ..m }, None))
            } else if n == 0x3 {
                // XOR Vx, Vy
                Ok((C8V { v: m.v.update(x, vx ^ vy), pc: next, ..m }, None))
            } else if n == 0x4 {
                // ADD Vx, Vy: the sum modulo 256, then the carry flag
                Ok((
                    C8V {
                        v: m.v.update(x, ((vx + vy) % 256) as u8).update(
                            15,
                            if vx + vy > 255 { 1u8 } else { 0u8 },
                        ),
                        pc: next,
                        ..m
                    },
                    None,
                ))
            } else if n == 0x5 {
                // SUB Vx, Vy: the difference modulo 256, flag 1 iff no borrow
                Ok((
                    C8V {
                        v: m.v.update(x, ((vx + 256 - vy) % 256) as u8).update(
                            15,
                            if vx >= vy { 1u8 } else { 0u8 },
                        ),
                        pc: next,
                        ..m
                    },
                    None,
                ))
            } else if n == 0x6 {
                // SHR Vx: the flag takes the pre-shift low bit first, then
                // Vx takes the shifted value (which wins when x is 15)
                Ok((
                    C8V {
                        v: m.v.update(15, (vx % 2) as u8).update(x, (vx / 2) as u8),
                        pc: next,
                        ..m
                    },
                    None,
                ))
            } else if n == 0x7 {
                // SUBN Vx, Vy: Vy - Vx modulo 256, flag 1 iff Vy >= Vx
                Ok((
                    C8V {
                        v: m.v.update(x, ((vy + 256 - vx) % 256) as u8).update(
                            15,
                            if vy >= vx { 1u8 } else { 0u8 },
                        ),
                        pc: next,
                        ..m
                    },
                    None,
                ))
            } else if n == 0xE {
                // SHL Vx: the flag takes the pre-shift high bit first
                Ok((
                    C8V {
                        v: m.v.update(15, (vx / 128) as u8).update(x, ((vx * 2) % 256) as u8),
                        pc: next,
                        ..m
                    },
                    None,
                ))
            } else {
                Err(Chip8Error::UnknownOpcode)
            }
        } else if a == 0x9 {
            // SNE Vx, Vy
            if n == 0 {
                Ok((C8V { pc: if vx != vy { skip } else { next }, ..m }, None))
            } else {
                Err(Chip8Error::UnknownOpcode)
            }
        } else if a == 0xA {
            // LD I, nnn
            Ok((C8V { i: nnn as u16, pc: next, ..m }, None))
        } else if a == 0xB {
            // JP V0, nnn: computed in full width, never truncated
            Ok((C8V { pc: (nnn + m.v[0]) as u16, ..m }, None))
        } else if a == 0xC {
            // RND Vx, kk
            Ok((C8V { v: m.v.update(x, rnd & kk), pc: next, ..m }, None))
        } else if a == 0xD {
            // DRW Vx, Vy, n: XOR-draw n rows read at I, flag 1 iff any
            // pixel was turned OFF anywhere in the sprite
            if m.i + n > 4096 {
                Err(Chip8Error::OutOfRange)
            } else {
                let rows: Seq<u8> = m.ram.subrange(m.i as int, m.i as int + n);
                Ok((
                    C8V {
                        fb: draw_sprite_fb(m.fb, rows, vx, vy),
                        v: m.v.update(
                            15,
                            if draw_sprite_coll(m.fb, rows, vx, vy) { 1u8 } else { 0u8 },
                        ),
                        pc: next,
                        ..m
                    },
                    None,
                ))
            }
        } else if a == 0xE {
            if kk == 0x9E {
                // SKP Vx
                if vx as int >= 16 {
                    Err(Chip8Error::OutOfRange)
                } else {
                    Ok((C8V { pc: if keys[vx as int] { skip } else { next }, ..m }, None))
                }
            } else if kk == 0xA1 {
                // SKNP Vx
                if vx as int >= 16 {
                    Err(Chip8Error::OutOfRange)
                } else {
                    Ok((C8V { pc: if !keys[vx as int] { skip } else { next }, ..m }, None))
                }
            } else {
                Err(Chip8Error::UnknownOpcode)
            }
        } else if a == 0xF {
            if kk == 0x07 {
                // LD Vx, DT
                Ok((C8V { v: m.v.update(x, m.dt), pc: next, ..m }, None))
            } else if kk == 0x0A {
                // LD Vx, K: suspend cooperatively; the caller writes the
                // next pressed key into register x and resumes stepping
                Ok((C8V { pc: next, ..m }, Some(x as u8)))
            } else if kk == 0x15 {
                // LD DT, Vx
                Ok((C8V { dt: vx, pc: next, ..m }, None))
            } else if kk == 0x18 {
                // LD ST, Vx
                Ok((C8V { st: vx, pc: next, ..m }, None))
            } else if kk == 0x1E {
                // ADD I, Vx: 16-bit wrapping
                Ok((C8V { i: ((m.i + vx) % 0x10000) as u16, pc: next, ..m }, None))
            } else if kk == 0x29 {
                // LD F, Vx: the glyph for digit Vx sits at Vx * 5
                Ok((C8V { i: (vx * 5) as u16, pc: next, ..m }, None))
            } else if kk == 0x33 {
                // LD B, Vx: hundreds, tens, ones at I, I+1, I+2
                if m.i + 3 > 4096 {
                    Err(Chip8Error::OutOfRange)
                } else {
                    Ok((
                        C8V {
                            ram: m.ram.update(m.i as int, (vx / 100) as u8).update(
                                m.i as int + 1,
                                ((vx % 100) / 10) as u8,
                            ).update(m.i as int + 2, (vx % 10) as u8),
                            pc: next,
                            ..m
                        },
                        None,
                    ))
                }
            } else if kk == 0x55 {
                // LD [I], Vx: store V0 through Vx inclusive at I
                if m.i + x + 1 > 4096 {
                    Err(Chip8Error::OutOfRange)
                } else {
                    Ok((
                        C8V {
                            ram: Seq::new(
                                4096,
                                |ad: int|
                                    if m.i <= ad <= m.i + x {
                                        m.v[ad - m.i]
                                    } else {
                                        m.ram[ad]
                                    },
                            ),
                            pc: next,
                            ..m
                        },
                        None,
                    ))
                }
            } else if kk == 0x65 {
                // LD Vx, [I]: load V0 through Vx inclusive from I
                if m.i + x + 1 > 4096 {
                    Err(Chip8Error::OutOfRange)
                } else {
                    Ok((
                        C8V {
                            v: Seq::new(
                                16,
                                |r: int|
                                    if r <= x {
                                        m.ram[m.i + r]
                                    } else {
                                        m.v[r]
                                    },
                            ),
                            pc: next,
                            ..m
                        },
                        None,
                    ))
                }
            } else {
                Err(Chip8Error::UnknownOpcode)
            }
        } else {
            Err(Chip8Error::UnknownOpcode)
        }
    }
}

/// Packages an exec step's result in the shape of [`spec_step`]'s result.
pub open spec fn step_outcome(m2: C8V, r: Result<Option<u8>, Chip8Error>) -> Result<
    (C8V, Option<u8>),
    Chip8Error,
> {
    match r {
        Ok(w) => Ok((m2, w)),
        Err(e) => Err(e),
    }
}

pub struct C8 {
    ram: Ram,
    v: Vec<u8>,
    pub display: Display,
    i: u16,
    pub dt: u8,
    pub st: u8,
    stack: Vec<u16>,
    pub pc: u16,
}

impl View for C8 {
    type V = C8V;

    closed spec fn view(&self) -> C8V {
        C8V {
            ram: self.ram@,
            v: self.v@,
            fb: self.display@,
            i: self.i,
            dt: self.dt,
            st: self.st,
            stack: self.stack@,
            pc: self.pc,
        }
    }
}

impl C8 {
    pub open spec fn wf(&self) -> bool {
        self@.wf()
    }

    /// A fresh machine: memory and registers zeroed, framebuffer off,
    /// empty call stack, program counter at the program start 0x200.
    pub fn new() -> (r: C8)
        ensures
            r.wf(),
            r@.ram == Seq::new(4096, |a: int| 0u8),
            r@.v == Seq::new(16, |k: int| 0u8),
            r@.fb == Seq::new(2048, |p: int| false),
            r@.i == 0u16,
            r@.dt == 0u8,
            r@.st == 0u8,
            r@.stack == Seq::<u16>::empty(),
            r@.pc == 0x200u16,
    {
        let mut v: Vec<u8> = Vec::new();
        while v.len() < 16
            invariant
                v@.len() <= 16,
                forall|k: int| 0 <= k < v@.len() ==> v@[k] == 0u8,
            decreases 16 - v@.len(),
        {
            v.push(0);
        }
        proof {
            assert(v@ =~= Seq::new(16, |k: int| 0u8));
        }
        let stack: Vec<u16> = Vec::new();
        proof {
            assert(stack@ =~= Seq::<u16>::empty());
        }
        C8 {
            ram: Ram::new(),
            v,
            display: Display::new(),
            i: 0,
            dt: 0,
            st: 0,
            stack,
            pc: 0x200,
        }
    }

    /// Read one general-purpose register.
    pub fn read_reg(&self, index: u8) -> (r: u8)
        requires
            self.wf(),
            index < 16,
        ensures
            r == self@.v[index as int],
    {
        self.v[index as usize]
    }

    /// Write one general-purpose register; the driving loop uses this to
    /// deliver the key value a wait-for-key instruction asked for.
    pub fn write_reg(&mut self, index: u8, value: u8)
        requires
            old(self).wf(),
            index < 16,
        ensures
            final(self).wf(),
            final(self)@ == (C8V { v: old(self)@.v.update(index as int, value), ..old(self)@ }),
    {
        self.v.set(index as usize, value);
    }

    /// Place the font table at 0x000 and the program at 0x200. A program
    /// longer than the 3584 bytes above the reserved area is a fatal load
    /// error and the machine is left unchanged, never truncated.
    pub fn load_ram(&mut self, rom: &Vec<u8>) -> (r: Result<(), Chip8Error>)
        requires
            old(self).wf(),
        ensures
            final(self).wf(),
            rom@.len() <= 3584 ==> r == Ok::<(), Chip8Error>(()) && final(self)@ == (C8V {
                ram: load_ram_spec(old(self)@.ram, rom@),
                ..old(self)@
            }),
            rom@.len() > 3584 ==> r == Err::<(), Chip8Error>(Chip8Error::LoadTooLarge)
                && final(self)@ == old(self)@,
    {
        if rom.len() > 3584 {
            return Err(Chip8Error::LoadTooLarge);
        }
        let ghost ram0 = self@.ram;
        let mut a: u16 = 0;
        while a < 80
            invariant
                self.wf(),
                a <= 80,
                self@ == (C8V { ram: self@.ram, ..old(self)@ }),
                self@.ram.len() == 4096,
                forall|ad: int| 0 <= ad < a ==> self@.ram[ad] == spec_font_byte(ad),
                forall|ad: int| a <= ad < 4096 ==> self@.ram[ad] == ram0[ad],
            decreases 80 - a,
        {
            let b = font_byte(a);
            self.ram.write_byte(a, b);
            a = a + 1;
        }
        let mut j: usize = 0;
        while j < rom.len()
            invariant
                self.wf(),
                j <= rom@.len(),
                rom@.len() <= 3584,
                self@ == (C8V { ram: self@.ram, ..old(self)@ }),
                self@.ram.len() == 4096,
                forall|ad: int| 0 <= ad < 80 ==> self@.ram[ad] == spec_font_byte(ad),
                forall|ad: int| 0x200 <= ad < 0x200 + j ==> self@.ram[ad] == rom@[ad - 0x200],
                forall|ad: int|
                    80 <= ad < 4096 && !(0x200 <= ad < 0x200 + j) ==> self@.ram[ad] == ram0[ad],
            decreases rom@.len() - j,
        {
            self.ram.write_byte(0x200 + (j as u16), rom[j]);
            j = j + 1;
        }
        proof {
            assert(self@.ram =~= load_ram_spec(ram0, rom@));
        }
        Ok(())
    }

    /// Decrement both timers on the external 60 Hz tick, stopping at zero;
    /// the returned flag says whether the tone generator should be playing
    /// (the sound timer was still running when the tick arrived).
    pub fn tick_60hz(&mut self) -> (tone: bool)
        requires
            old(self).wf(),
        ensures
            final(self).wf(),
            final(self)@ == (C8V {
                dt: if old(self)@.dt > 0 { (old(self)@.dt - 1) as u8 } else { 0u8 },
                st: if old(self)@.st > 0 { (old(self)@.st - 1) as u8 } else { 0u8 },
                ..old(self)@
            }),
            tone == (old(self)@.st > 0),
    {
        if self.dt > 0 {
            self.dt = self.dt - 1;
        }
        let tone = self.st > 0;
        if self.st > 0 {
            self.st = self.st - 1;
        }
        tone
    }

    /// Fetch, decode and execute exactly one instruction against the given
    /// key snapshot: one atomic transition of [`spec_step`], for some value
    /// of the drawn random byte. `Ok(Some(x))` asks the caller to suspend
    /// stepping until a key press is written into register `x`; on an
    /// `Err` the machine is unchanged and must not be stepped past.
    pub fn run(&mut self, key_press: &[bool; 16]) -> (r: Result<Option<u8>, Chip8Error>)
        requires
            old(self).wf(),
        ensures
            final(self).wf(),
            exists|rb: u8| spec_step(old(self)@, key_press@, rb) == step_outcome(final(self)@, r),
            r matches Err(_) ==> final(self)@ == old(self)@,
    {
        let rnd: u8 = random_byte();
        if self.pc >= 4095 {
            proof {
                assert(spec_step(self@, key_press@, rnd) == step_outcome(
                    self@,
                    Err(Chip8Error::OutOfRange),
                ));
            }
            return Err(Chip8Error::OutOfRange);
        }
        let hi = self.ram.read_byte(self.pc);
        let lo = self.ram.read_byte(self.pc + 1);
        let inst: u16 = (hi as u16) * 256 + (lo as u16);
        let a: u16 = inst / 0x1000;
        let x: usize = ((inst / 0x100) % 0x10) as usize;
        let y: usize = ((inst / 0x10) % 0x10) as usize;
        let n: u16 = inst % 0x10;
        let kk: u8 = (inst % 0x100) as u8;
        let nnn: u16 = inst % 0x1000;
        let next: u16 = self.pc + 2;
        let skip: u16 = self.pc + 4;
        let vx: u8 = self.v[x];
        let vy: u8 = self.v[y];
        proof {
            assert(inst == inst_at(self@));
        }
        if inst == 0x00E0 {
            self.display.clear();
            self.pc = next;
            proof {
                assert(spec_step(old(self)@, key_press@, rnd) == step_outcome(self@, Ok(None)));
            }
            return Ok(None);
        } else if inst == 0x00EE {
            if self.stack.len() == 0 {
                proof {
                    assert(spec_step(self@, key_press@, rnd) == step_outcome(
                        self@,
                        Err(Chip8Error::StackUnderflow),
                    ));
                }
                return Err(Chip8Error::StackUnderflow);
            }
            let addr = self.stack.pop().unwrap();
            self.pc = addr;
            proof {
                assert(spec_step(old(self)@, key_press@, rnd) == step_outcome(self@, Ok(None)));
            }
            return Ok(None);
        } else if a == 0x1 {
            self.pc = nnn;
            proof {
                assert(spec_step(old(self)@, key_press@, rnd) == step_outcome(self@, Ok(None)));
            }
            return Ok(None);
        } else if a == 0x2 {
            self.stack.push(next);
            self.pc = nnn;
            proof {
                assert(spec_step(old(self)@, key_press@, rnd) == step_outcome(self@, Ok(None)));
            }
            return Ok(None);
        } else if a == 0x3 {
            self.pc = if vx == kk { skip } else { next };
            proof {
                assert(spec_step(old(self)@, key_press@, rnd) == step_outcome(self@, Ok(None)));
            }
            return Ok(None);
        } else if a == 0x4 {
            self.pc = if vx != kk { skip } else { next };
            proof {
                assert(spec_step(old(self)@, key_press@, rnd) == step_outcome(self@, Ok(None)));
            }
            return Ok(None);
        } else if a == 0x5 {
            if n != 0 {
                proof {
                    assert(spec_step(self@, key_press@, rnd) == step_outcome(
                        self@,
                        Err(Chip8Error::UnknownOpcode),
                    ));
                }
                return Err(Chip8Error::UnknownOpcode);
            }
            self.pc = if vx == vy { skip } else { next };
            proof {
                assert(spec_step(old(self)@, key_press@, rnd) == step_outcome(self@, Ok(None)));
            }
            return Ok(None);
        } else if a == 0x6 {
            self.v.set(x, kk);
            self.pc = next;
            proof {
                assert(spec_step(old(self)@, key_press@, rnd) == step_outcome(self@, Ok(None)));
            }
            return Ok(None);
        } else if a == 0x7 {
            let sum: u16 = vx as u16 + kk as u16;
            self.v.set(x, (sum % 256) as u8);
            self.pc = next;
            proof {
                assert(spec_step(old(self)@, key_press@, rnd) == step_outcome(self@, Ok(None)));
            }
            return Ok(None);
        } else if a == 0x8 {
            if n == 0x0 {
                self.v.set(x, vy);
            } else if n == 0x1 {
                self.v.set(x, vx | vy);
            } else if n == 0x2 {
                self.v.set(x, vx & vy);
            } else if n == 0x3 {
                self.v.set(x, vx ^ vy);
            } else if n == 0x4 {
                let sum: u16 = vx as u16 + vy as u16;
                self.v.set(x, (sum % 256) as u8);
                self.v.set(15, if sum > 255 { 1 } else { 0 });
            } else if n == 0x5 {
                let diff: u16 = (vx as u16 + 256 - vy as u16) % 256;
                self.v.set(x, diff as u8);
                self.v.set(15, if vx >= vy { 1 } else { 0 });
            } else if n == 0x6 {
                self.v.set(15, vx % 2);
                self.v.set(x, vx / 2);
            } else if n == 0x7 {
                let diff: u16 = (vy as u16 + 256 - vx as u16) % 256;
                self.v.set(x, diff as u8);
                self.v.set(15, if vy >= vx { 1 } else { 0 });
            } else if n == 0xE {
                self.v.set(15, vx / 128);
                self.v.set(x, ((vx as u16 * 2) % 256) as u8);
            } else {
                proof {
                    assert(spec_step(self@, key_press@, rnd) == step_outcome(
                        self@,
                        Err(Chip8Error::UnknownOpcode),
                    ));
                }
                return Err(Chip8Error::UnknownOpcode);
            }
            self.pc = next;
            proof {
                assert(spec_step(old(self)@, key_press@, rnd) == step_outcome(self@, Ok(None)));
            }
            return Ok(None);
        } else if a == 0x9 {
            if n != 0 {
                proof {
                    assert(spec_step(self@, key_press@, rnd) == step_outcome(
                        self@,
                        Err(Chip8Error::UnknownOpcode),
                    ));
                }
                return Err(Chip8Error::UnknownOpcode);
            }
            self.pc = if vx != vy { skip } else { next };
            proof {
                assert(spec_step(old(self)@, key_press@, rnd) == step_outcome(self@, Ok(None)));
            }
            return Ok(None);
        } else if a == 0xA {
            self.i = nnn;
            self.pc = next;
            proof {
                assert(spec_step(old(self)@, key_press@, rnd) == step_outcome(self@, Ok(None)));
            }
            return Ok(None);
        } else if a == 0xB {
            self.pc = nnn + (self.v[0] as u16);
            proof {
                assert(spec_step(old(self)@, key_press@, rnd) == step_outcome(self@, Ok(None)));
            }
            return Ok(None);
        } else if a == 0xC {
            self.v.set(x, rnd & kk);
            self.pc = next;
            proof {
                assert(spec_step(old(self)@, key_press@, rnd) == step_outcome(self@, Ok(None)));
            }
            return Ok(None);
        } else if a == 0xD {
            if self.i as usize + n as usize > 4096 {
                proof {
                    assert(spec_step(self@, key_press@, rnd) == step_outcome(
                        self@,
                        Err(Chip8Error::OutOfRange),
                    ));
                }
                return Err(Chip8Error::OutOfRange);
            }
            let mut rows: Vec<u8> = Vec::new();
            let mut k: u16 = 0;
            while k < n
                invariant
                    self.wf(),
                    self@ == old(self)@,
                    k <= n,
                    self@.i as int + n <= 4096,
                    n < 16,
                    rows@.len() == k as int,
                    forall|t: int| 0 <= t < k ==> rows@[t] == self@.ram[self@.i + t],
                decreases n - k,
            {
                let b = self.ram.read_byte(self.i + k);
                rows.push(b);
                k = k + 1;
            }
            proof {
                assert(rows@ =~= old(self)@.ram.subrange(
                    old(self)@.i as int,
                    old(self)@.i as int + n,
                ));
            }
            let coll = self.display.draw_sprite(&rows, vx, vy);
            self.v.set(15, if coll { 1 } else { 0 });
            self.pc = next;
            proof {
                assert(spec_step(old(self)@, key_press@, rnd) == step_outcome(self@, Ok(None)));
            }
            return Ok(None);
        } else if a == 0xE {
            if kk == 0x9E {
                if vx >= 16 {
                    proof {
                        assert(spec_step(self@, key_press@, rnd) == step_outcome(
                            self@,
                            Err(Chip8Error::OutOfRange),
                        ));
                    }
                    return Err(Chip8Error::OutOfRange);
                }
                self.pc = if key_press[vx as usize] { skip } else { next };
                proof {
                    assert(spec_step(old(self)@, key_press@, rnd) == step_outcome(self@, Ok(None)));
                }
                return Ok(None);
            } else if kk == 0xA1 {
                if vx >= 16 {
                    proof {
                        assert(spec_step(self@, key_press@, rnd) == step_outcome(
                            self@,
                            Err(Chip8Error::OutOfRange),
                        ));
                    }
                    return Err(Chip8Error::OutOfRange);
                }
                self.pc = if !key_press[vx as usize] { skip } else { next };
                proof {
                    assert(spec_step(old(self)@, key_press@, rnd) == step_outcome(self@, Ok(None)));
                }
                return Ok(None);
            } else {
                proof {
                    assert(spec_step(self@, key_press@, rnd) == step_outcome(
                        self@,
                        Err(Chip8Error::UnknownOpcode),
                    ));
                }
                return Err(Chip8Error::UnknownOpcode);
            }
        } else if a == 0xF {
            if kk == 0x07 {
                self.v.set(x, self.dt);
                self.pc = next;
                proof {
                    assert(spec_step(old(self)@, key_press@, rnd) == step_outcome(self@, Ok(None)));
                }
                return Ok(None);
            } else if kk == 0x0A {
                self.pc = next;
                proof {
                    assert(spec_step(old(self)@, key_press@, rnd) == step_outcome(
                        self@,
                        Ok(Some(x as u8)),
                    ));
                }
                return Ok(Some(x as u8));
            } else if kk == 0x15 {
                self.dt = vx;
                self.pc = next;
                proof {
                    assert(spec_step(old(self)@, key_press@, rnd) == step_outcome(self@, Ok(None)));
                }
                return Ok(None);
            } else if kk == 0x18 {
                self.st = vx;
                self.pc = next;
                proof {
                    assert(spec_step(old(self)@, key_press@, rnd) == step_outcome(self@, Ok(None)));
                }
                return Ok(None);
            } else if kk == 0x1E {
                let s: u32 = self.i as u32 + vx as u32;
                self.i = (s % 0x10000) as u16;
                self.pc = next;
                proof {
                    assert(spec_step(old(self)@, key_press@, rnd) == step_outcome(self@, Ok(None)));
                }
                return Ok(None);
            } else if kk == 0x29 {
                self.i = (vx as u16) * 5;
                self.pc = next;
                proof {
                    assert(spec_step(old(self)@, key_press@, rnd) == step_outcome(self@, Ok(None)));
                }
                return Ok(None);
            } else if kk == 0x33 {
                if self.i as usize + 3 > 4096 {
                    proof {
                        assert(spec_step(self@, key_press@, rnd) == step_outcome(
                            self@,
                            Err(Chip8Error::OutOfRange),
                        ));
                    }
                    return Err(Chip8Error::OutOfRange);
                }
                self.ram.write_byte(self.i, vx / 100);
                self.ram.write_byte(self.i + 1, (vx % 100) / 10);
                self.ram.write_byte(self.i + 2, vx % 10);
                self.pc = next;
                proof {
                    assert(spec_step(old(self)@, key_press@, rnd) == step_outcome(self@, Ok(None)));
                }
                return Ok(None);
            } else if kk == 0x55 {
                if self.i as usize + x + 1 > 4096 {
                    proof {
                        assert(spec_step(self@, key_press@, rnd) == step_outcome(
                            self@,
                            Err(Chip8Error::OutOfRange),
                        ));
                    }
                    return Err(Chip8Error::OutOfRange);
                }
                let mut j: usize = 0;
                while j <= x
                    invariant
                        self.wf(),
                        j <= x + 1,
                        x < 16,
                        self@.i as int + x + 1 <= 4096,
                        self@ == (C8V { ram: self@.ram, ..old(self)@ }),
                        self@.ram.len() == 4096,
                        forall|ad: int|
                            self@.i <= ad < self@.i + j ==> self@.ram[ad] == self@.v[ad - self@.i],
                        forall|ad: int|
                            0 <= ad < 4096 && !(self@.i <= ad < self@.i + j) ==> self@.ram[ad]
                                == old(self)@.ram[ad],
                    decreases x + 1 - j,
                {
                    let b = self.v[j];
                    self.ram.write_byte(self.i + (j as u16), b);
                    j = j + 1;
                }
                self.pc = next;
                proof {
                    assert(self@.ram =~= Seq::new(
                        4096,
                        |ad: int|
                            if old(self)@.i <= ad <= old(self)@.i + x {
                                old(self)@.v[ad - old(self)@.i]
                            } else {
                                old(self)@.ram[ad]
                            },
                    ));
                    assert(spec_step(old(self)@, key_press@, rnd) == step_outcome(self@, Ok(None)));
                }
                return Ok(None);
            } else if kk == 0x65 {
                if self.i as usize + x + 1 > 4096 {
                    proof {
                        assert(spec_step(self@, key_press@, rnd) == step_outcome(
                            self@,
                            Err(Chip8Error::OutOfRange),
                        ));
                    }
                    return Err(Chip8Error::OutOfRange);
                }
                let mut j: usize = 0;
                while j <= x
                    invariant
                        self.wf(),
                        j <= x + 1,
                        x < 16,
                        self@.i as int + x + 1 <= 4096,
                        self@ == (C8V { v: self@.v, ..old(self)@ }),
                        self@.v.len() == 16,
                        forall|t: int| 0 <= t < j ==> self@.v[t] == self@.ram[self@.i + t],
                        forall|t: int| j <= t < 16 ==> self@.v[t] == old(self)@.v[t],
                    decreases x + 1 - j,
                {
                    let b = self.ram.read_byte(self.i + (j as u16));
                    self.v.set(j, b);
                    j = j + 1;
                }
                self.pc = next;
                proof {
                    assert(self@.v =~= Seq::new(
                        16,
                        |t: int|
                            if t <= x {
                                old(self)@.ram[old(self)@.i + t]
                            } else {
                                old(self)@.v[t]
                            },
                    ));
                    assert(spec_step(old(self)@, key_press@, rnd) == step_outcome(self@, Ok(None)));
                }
                return Ok(None);
            } else {
                proof {
                    assert(spec_step(self@, key_press@, rnd) == step_outcome(
                        self@,
                        Err(Chip8Error::UnknownOpcode),
                    ));
                }
                return Err(Chip8Error::UnknownOpcode);
            }
        } else {
            proof {
                assert(spec_step(self@, key_press@, rnd) == step_outcome(
                    self@,
                    Err(Chip8Error::UnknownOpcode),
                ));
            }
            return Err(Chip8Error::UnknownOpcode);
        }
    }
}

} // verus!

// The laws of the arithmetic, shift and control-flow instructions, stated
// once over the transition function and proved for every machine state.

verus! {

/// Law: ADD Vx, kk stores (Vx + kk) mod 256 in Vx and never alters the
/// flag register — except when x is 15, where Vx is the flag register.
pub proof fn lemma_add_imm_wraps_preserves_flag(
    m: C8V,
    keys: Seq<bool>,
    rnd: u8,
    x: int,
    kk: u8,
)
    requires
        m.wf(),
        m.pc as int + 1 < 4096,
        0 <= x < 16,
        inst_at(m) / 0x1000 == 0x7,
        (inst_at(m) / 0x100) % 0x10 == x,
        inst_at(m) % 0x100 == kk,
    ensures
        spec_step(m, keys, rnd) matches Ok((m2, w)) && m2.v[x] == (m.v[x] + kk) % 256 && (x != 15
            ==> m2.v[15] == m.v[15]) && w is None,
{
}

/// Law: ADD Vx, Vy sets the flag to 1 iff Vx + Vy > 255, and stores
/// (Vx + Vy) mod 256 in Vx (the flag write wins when x is 15).
pub proof fn lemma_add_reg_carry(m: C8V, keys: Seq<bool>, rnd: u8, x: int, y: int)
    requires
        m.wf(),
        m.pc as int + 1 < 4096,
        0 <= x < 16,
        0 <= y < 16,
        inst_at(m) / 0x1000 == 0x8,
        (inst_at(m) / 0x100) % 0x10 == x,
        (inst_at(m) / 0x10) % 0x10 == y,
        inst_at(m) % 0x10 == 0x4,
    ensures
        spec_step(m, keys, rnd) matches Ok((m2, w)) && m2.v[15] == (if m.v[x] + m.v[y] > 255 {
            1u8
        } else {
            0u8
        }) && (x != 15 ==> m2.v[x] == (m.v[x] + m.v[y]) % 256) && w is None,
{
}

/// Law: SUB Vx, Vy sets the flag to 1 iff Vx >= Vy (no borrow), storing
/// the wrapped difference in Vx (the flag write wins when x is 15).
pub proof fn lemma_sub_reg_no_borrow(m: C8V, keys: Seq<bool>, rnd: u8, x: int, y: int)
    requires
        m.wf(),
        m.pc as int + 1 < 4096,
        0 <= x < 16,
        0 <= y < 16,
        inst_at(m) / 0x1000 == 0x8,
        (inst_at(m) / 0x100) % 0x10 == x,
        (inst_at(m) / 0x10) % 0x10 == y,
        inst_at(m) % 0x10 == 0x5,
    ensures
        spec_step(m, keys, rnd) matches Ok((m2, w)) && m2.v[15] == (if m.v[x] >= m.v[y] {
            1u8
        } else {
            0u8
        }) && (x != 15 ==> m2.v[x] == (m.v[x] + 256 - m.v[y]) % 256) && w is None,
{
}

/// Law: SHR Vx sets the flag to the pre-shift least-significant bit of Vx,
/// independent of the post-shift value, and halves Vx. When x is 15 the
/// shifted value overwrites the flag afterwards, so that case is left out.
pub proof fn lemma_shr_flag_is_lsb(m: C8V, keys: Seq<bool>, rnd: u8, x: int)
    requires
        m.wf(),
        m.pc as int + 1 < 4096,
        0 <= x < 16,
        inst_at(m) / 0x1000 == 0x8,
        (inst_at(m) / 0x100) % 0x10 == x,
        inst_at(m) % 0x10 == 0x6,
    ensures
        spec_step(m, keys, rnd) matches Ok((m2, w)) && m2.v[x] == m.v[x] / 2 && (x != 15 ==> m2.v[
            15
        ] == m.v[x] % 2) && w is None,
{
}

/// Law: SHL Vx sets the flag to the pre-shift most-significant bit of Vx,
/// independent of the post-shift value, and doubles Vx modulo 256. When x
/// is 15 the shifted value overwrites the flag, so that case is left out.
pub proof fn lemma_shl_flag_is_msb(m: C8V, keys: Seq<bool>, rnd: u8, x: int)
    requires
        m.wf(),
        m.pc as int + 1 < 4096,
        0 <= x < 16,
        inst_at(m) / 0x1000 == 0x8,
        (inst_at(m) / 0x100) % 0x10 == x,
        inst_at(m) % 0x10 == 0xE,
    ensures
        spec_step(m, keys, rnd) matches Ok((m2, w)) && m2.v[x] == (m.v[x] * 2) % 256 && (x != 15
            ==> m2.v[15] == m.v[x] / 128) && w is None,
{
}

/// Law: CALL nnn followed immediately by RET brings the program counter to
/// exactly the call site plus 2, and leaves the call stack as it was.
pub proof fn lemma_call_then_ret(
    m: C8V,
    keys1: Seq<bool>,
    rnd1: u8,
    keys2: Seq<bool>,
    rnd2: u8,
    nnn: int,
)
    requires
        m.wf(),
        m.pc as int + 1 < 4096,
        inst_at(m) / 0x1000 == 0x2,
        inst_at(m) % 0x1000 == nnn,
        nnn + 1 < 4096,
        m.ram[nnn] == 0x00,
        m.ram[nnn + 1] == 0xEE,
    ensures
        spec_step(m, keys1, rnd1) matches Ok((m1, w1)) && w1 is None && (spec_step(
            m1,
            keys2,
            rnd2,
        ) matches Ok((m2, w2)) && w2 is None && m2.pc == m.pc + 2 && m2.stack == m.stack),
{
    let m1 = C8V {
        stack: m.stack.push((m.pc + 2) as u16),
        pc: (inst_at(m) % 0x1000) as u16,
        ..m
    };
    assert(spec_step(m, keys1, rnd1) == Ok::<(C8V, Option<u8>), Chip8Error>((m1, None)));
    assert(inst_at(m1) == 0x00EE);
    assert(m1.stack.len() == m.stack.len() + 1);
    assert(m1.stack.last() == (m.pc + 2) as u16);
    assert(m1.stack.drop_last() =~= m.stack);
}

/// Law: RET on a machine that never issued a CALL (its stack is empty)
/// fails with the stack-underflow condition.
pub proof fn lemma_ret_on_empty_stack(m: C8V, keys: Seq<bool>, rnd: u8)
    requires
        m.wf(),
        m.pc as int + 1 < 4096,
        inst_at(m) == 0x00EE,
        m.stack.len() == 0,
    ensures
        spec_step(m, keys, rnd) == Err::<(C8V, Option<u8>), Chip8Error>(Chip8Error::StackUnderflow),
{
}

} // verus!

