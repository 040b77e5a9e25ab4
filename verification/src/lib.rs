//! A verified CHIP-8 virtual machine: a fetch-decode-execute engine over a
//! flat 4096-byte memory, sixteen 8-bit registers, a 64x32 monochrome
//! framebuffer with XOR sprite drawing, a call stack, two timers and a
//! sixteen-key input latch.
//!
//! The crate holds two machine flavours that share the instruction
//! semantics: the flat [`c8::C8`] machine whose delay timer is driven by an
//! external 60 Hz tick, and the layered [`chip8::Chip8`] machine
//! ([`cpu::Cpu`] over [`bus::Bus`]) whose delay timer is computed on read
//! from an elapsed-time argument. Windowing, audio and ROM file reading are
//! the callers' concern: the engine consumes plain key states and hands out
//! plain pixel states.

use vstd::prelude::*;

pub mod bus;
pub mod c8;
pub mod chip8;
pub mod cpu;
pub mod display;
pub mod fonts;
pub mod input;
pub mod ram;
pub mod rng;

verus! {

/// Fatal conditions that end a machine instance: a program too large for the
/// space above the reserved area, a return with an empty call stack, an
/// opcode outside the 35-entry instruction table, or an access outside a
/// fixed-size domain (memory address or key number). No condition is
/// retried; the driving loop must not step past one.
///
/// Unrecognized opcodes are treated as fatal here, not as no-ops: the
/// permissive warn-and-continue variant is deliberately not offered, so the
/// two policies cannot be mixed.
#[derive(Clone, Copy, Debug, PartialEq, Eq, Structural)]
pub enum Chip8Error {
    LoadTooLarge,
    StackUnderflow,
    UnknownOpcode,
    OutOfRange,
}

} // verus!
