//! The layered machine: a [`Cpu`] over a [`Bus`]. The engine owns its
//! register and control state and borrows the bus for the duration of one
//! instruction; the driving loop polls keys into the bus's input latch,
//! steps the machine, and ticks the sound timer on its 60 Hz cadence.

use vstd::prelude::*;
use crate::Chip8Error;
use crate::bus::{Bus, BusV};
use crate::c8::load_ram_spec;
use crate::cpu::{cpu_step_outcome, spec_step_cpu, Cpu, PROGRAM_START};
use crate::fonts::{font_byte, spec_font_byte};

verus! {

pub struct Chip8 {
    pub bus: Bus,
    pub cpu: Cpu,
}

impl Chip8 {
    pub open spec fn wf(&self) -> bool {
        self.bus.wf() && self.cpu.wf()
    }

    /// A fresh machine: zeroed memory and registers, program counter at
    /// the program start, both timers stopped.
    pub fn new() -> (r: Chip8)
        ensures
            r.wf(),
            r.bus@.ram == Seq::new(4096, |a: int| 0u8),
            r.bus@.keys == Seq::new(16, |k: int| false),
            r.bus@.fb == Seq::new(2048, |p: int| false),
            r.bus@.dt == 0u8,
            r.bus@.st == 0u8,
            r.cpu@.v == Seq::new(16, |k: int| 0u8),
            r.cpu@.pc == PROGRAM_START,
            r.cpu@.i == 0u16,
            r.cpu@.stack == Seq::<u16>::empty(),
    {
        Chip8 { bus: Bus::new(), cpu: Cpu::new() }
    }

    /// Place the font table at 0x000 and the program at 0x200 in the bus's
    /// memory. A program longer than the 3584 bytes above the reserved
    /// area is a fatal load error and nothing is written, never truncated.
    pub fn load_rom(&mut self, data: &Vec<u8>) -> (r: Result<(), Chip8Error>)
        requires
            old(self).wf(),
        ensures
            final(self).wf(),
            data@.len() <= 3584 ==> r == Ok::<(), Chip8Error>(()) && final(self).bus@ == (BusV {
                ram: load_ram_spec(old(self).bus@.ram, data@),
                ..old(self).bus@
            }) && final(self).cpu@ == old(self).cpu@,
            data@.len() > 3584 ==> r == Err::<(), Chip8Error>(Chip8Error::LoadTooLarge)
                && final(self).bus@ == old(self).bus@ && final(self).cpu@ == old(self).cpu@,
    {
        if data.len() > 3584 {
            return Err(Chip8Error::LoadTooLarge);
        }
        let ghost ram0 = self.bus@.ram;
        let mut a: u16 = 0;
        while a < 80
            invariant
                self.wf(),
                a <= 80,
                self.cpu@ == old(self).cpu@,
                self.bus@ == (BusV { ram: self.bus@.ram, ..old(self).bus@ }),
                self.bus@.ram.len() == 4096,
                forall|ad: int| 0 <= ad < a ==> self.bus@.ram[ad] == spec_font_byte(ad),
                forall|ad: int| a <= ad < 4096 ==> self.bus@.ram[ad] == ram0[ad],
            decreases 80 - a,
        {
            let b = font_byte(a);
            self.bus.ram.write_byte(a, b);
            a = a + 1;
        }
        let mut j: usize = 0;
        while j < data.len()
            invariant
                self.wf(),
                j <= data@.len(),
                data@.len() <= 3584,
                self.cpu@ == old(self).cpu@,
                self.bus@ == (BusV { ram: self.bus@.ram, ..old(self).bus@ }),
                self.bus@.ram.len() == 4096,
                forall|ad: int| 0 <= ad < 80 ==> self.bus@.ram[ad] == spec_font_byte(ad),
                forall|ad: int| 0x200 <= ad < 0x200 + j ==> self.bus@.ram[ad] == data@[ad - 0x200],
                forall|ad: int|
                    80 <= ad < 4096 && !(0x200 <= ad < 0x200 + j) ==> self.bus@.ram[ad] == ram0[ad],
            decreases data@.len() - j,
        {
            self.bus.ram.write_byte(0x200 + (j as u16), data[j]);
            j = j + 1;
        }
        proof {
            assert(self.bus@.ram =~= load_ram_spec(ram0, data@));
        }
        Ok(())
    }

    /// Execute exactly one instruction: one atomic transition of
    /// [`spec_step_cpu`], for some value of the drawn random byte. The
    /// caller's clock `now_ms` must not run backwards past the last
    /// delay-timer set. `Ok(Some(x))` asks the caller to suspend stepping
    /// until a key press is written into register `x`.
    pub fn run_instruction(&mut self, now_ms: u64) -> (r: Result<Option<u8>, Chip8Error>)
        requires
            old(self).wf(),
            now_ms >= old(self).bus@.dt_set_ms,
        ensures
            final(self).wf(),
            exists|rb: u8|
                spec_step_cpu(old(self).cpu@, old(self).bus@, now_ms, rb) == cpu_step_outcome(
                    final(self).cpu@,
                    final(self).bus@,
                    r,
                ),
            r matches Err(_) ==> final(self).cpu@ == old(self).cpu@ && final(self).bus@ == old(
                self,
            ).bus@,
    {
        self.cpu.run_opcode(&mut self.bus, now_ms)
    }

    /// A snapshot of the bus's whole memory, for inspection.
    pub fn test_bus_ram(&self) -> (r: Vec<u8>)
        requires
            self.wf(),
        ensures
            r@ == self.bus@.ram,
    {
        let mut out: Vec<u8> = Vec::new();
        let mut a: u16 = 0;
        while a < 4096
            invariant
                self.wf(),
                a <= 4096,
                out@.len() == a as int,
                forall|t: int| 0 <= t < a ==> out@[t] == self.bus@.ram[t],
            decreases 4096 - a,
        {
            let b = self.bus.ram.read_byte(a);
            out.push(b);
            a = a + 1;
        }
        proof {
            assert(out@ =~= self.bus@.ram);
        }
        out
    }
}

} // verus!
