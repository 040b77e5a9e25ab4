//! The bus: memory, input latch, framebuffer and the timer pair, as the
//! layered machine's processor sees them. The delay timer here is computed
//! on read — setting it records the value and the current instant in
//! milliseconds, and reading it subtracts one tick per elapsed 16 ms,
//! floored at zero — so its observable value does not depend on how fast
//! instructions execute. The caller supplies the clock as a plain
//! millisecond count. The sound timer is driven by the external 60 Hz tick.

use vstd::prelude::*;
use crate::display::Display;
use crate::input::Input;
use crate::ram::Ram;

verus! {

/// The mathematical state of a bus.
pub ghost struct BusV {
    pub ram: Seq<u8>,
    pub keys: Seq<bool>,
    pub fb: Seq<bool>,
    pub dt: u8,
    pub dt_set_ms: u64,
    pub st: u8,
}

/// The delay timer's observable value at `now_ms`: the value it was set to,
/// minus one tick per whole 16 ms elapsed since the set, floored at zero.
pub open spec fn delay_value(dt: u8, set_ms: u64, now_ms: u64) -> u8 {
    let ticks = (now_ms - set_ms) / 16;
    if ticks >= dt {
        0u8
    } else {
        (dt - ticks) as u8
    }
}

pub struct Bus {
    pub ram: Ram,
    pub input: Input,
    pub display: Display,
    pub delay_timer: u8,
    pub delay_set_ms: u64,
    pub sound_timer: u8,
}

impl View for Bus {
    type V = BusV;

    open spec fn view(&self) -> BusV {
        BusV {
            ram: self.ram@,
            keys: self.input@,
            fb: self.display@,
            dt: self.delay_timer,
            dt_set_ms: self.delay_set_ms,
            st: self.sound_timer,
        }
    }
}

impl Bus {
    pub open spec fn wf(&self) -> bool {
        self@.ram.len() == 4096 && self@.keys.len() == 16 && self@.fb.len() == 2048
    }

    /// A fresh bus: zeroed memory, no key held, framebuffer off, both
    /// timers stopped.
    pub fn new() -> (r: Bus)
        ensures
            r.wf(),
            r@.ram == Seq::new(4096, |a: int| 0u8),
            r@.keys == Seq::new(16, |k: int| false),
            r@.fb == Seq::new(2048, |p: int| false),
            r@.dt == 0u8,
            r@.dt_set_ms == 0u64,
            r@.st == 0u8,
    {
        Bus {
            ram: Ram::new(),
            input: Input::new(),
            display: Display::new(),
            delay_timer: 0,
            delay_set_ms: 0,
            sound_timer: 0,
        }
    }

    /// Start the delay timer: store the target value and the instant of
    /// the set.
    pub fn set_delay_timer(&mut self, value: u8, now_ms: u64)
        requires
            old(self).wf(),
        ensures
            final(self).wf(),
            final(self)@ == (BusV { dt: value, dt_set_ms: now_ms, ..old(self)@ }),
    {
        self.delay_set_ms = now_ms;
        self.delay_timer = value;
    }

    /// The delay timer's value at `now_ms`, computed from the elapsed time
    /// since it was last set. The clock must not run backwards past the
    /// set instant.
    pub fn get_delay_timer(&self, now_ms: u64) -> (r: u8)
        requires
            self.wf(),
            now_ms >= self@.dt_set_ms,
        ensures
            r == delay_value(self@.dt, self@.dt_set_ms, now_ms),
    {
        let ms = now_ms - self.delay_set_ms;
        let ticks = ms / 16;
        if ticks >= self.delay_timer as u64 {
            0
        } else {
            self.delay_timer - (ticks as u8)
        }
    }

    /// Start the sound timer.
    pub fn set_sound_timer(&mut self, value: u8)
        requires
            old(self).wf(),
        ensures
            final(self).wf(),
            final(self)@ == (BusV { st: value, ..old(self)@ }),
    {
        self.sound_timer = value;
    }

    /// Decrement the sound timer on the external 60 Hz tick, stopping at
    /// zero; the returned flag gates the tone generator (it plays while the
    /// timer was still running when the tick arrived).
    pub fn tick_sound_60hz(&mut self) -> (tone: bool)
        requires
            old(self).wf(),
        ensures
            final(self).wf(),
            final(self)@ == (BusV {
                st: if old(self)@.st > 0 { (old(self)@.st - 1) as u8 } else { 0u8 },
                ..old(self)@
            }),
            tone == (old(self)@.st > 0),
    {
        let tone = self.sound_timer > 0;
        if self.sound_timer > 0 {
            self.sound_timer = self.sound_timer - 1;
        }
        tone
    }
}

} // verus!
