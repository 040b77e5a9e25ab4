//! The fixed font table: sixteen glyphs for the hex digits 0 through F,
//! five bytes each, stored at addresses 0x000 through 0x04F before a program
//! is loaded. The font-lookup instruction sets the index register to
//! `digit * 5`, so this 5-byte-per-glyph layout is a hard invariant.

use vstd::prelude::*;

verus! {

/// The five rows of the glyph for hex digit `d`, packed into one word with
/// the top row in the highest of the five bytes.
pub open spec fn spec_glyph(d: int) -> u64 {
    if d == 0x0 {
        0xF0909090F0
    } else if d == 0x1 {
        0x2060202070
    } else if d == 0x2 {
        0xF010F080F0
    } else if d == 0x3 {
        0xF010F010F0
    } else if d == 0x4 {
        0x9090F01010
    } else if d == 0x5 {
        0xF080F010F0
    } else if d == 0x6 {
        0xF080F090F0
    } else if d == 0x7 {
        0xF010204040
    } else if d == 0x8 {
        0xF090F090F0
    } else if d == 0x9 {
        0xF090F010F0
    } else if d == 0xA {
        0xF090F09090
    } else if d == 0xB {
        0xE090E090E0
    } else if d == 0xC {
        0xF0808080F0
    } else if d == 0xD {
        0xE0909090E0
    } else if d == 0xE {
        0xF080F080F0
    } else {
        0xF080F08080
    }
}

/// The font byte stored at address `a` (for 0 <= a < 80): row `a % 5` of
/// the glyph for digit `a / 5`.
pub open spec fn spec_font_byte(a: int) -> u8 {
    ((spec_glyph(a / 5) >> (((4 - a % 5) * 8) as u64)) & 0xFF) as u8
}

/// The byte the font table places at address `a`.
pub fn font_byte(a: u16) -> (r: u8)
    requires
        a < 80,
    ensures
        r == spec_font_byte(a as int),
{
    let d = a / 5;
    let row = a % 5;
    let g: u64 = if d == 0x0 {
        0xF0909090F0
    } else if d == 0x1 {
        0x2060202070
    } else if d == 0x2 {
        0xF010F080F0
    } else if d == 0x3 {
        0xF010F010F0
    } else if d == 0x4 {
        0x9090F01010
    } else if d == 0x5 {
        0xF080F010F0
    } else if d == 0x6 {
        0xF080F090F0
    } else if d == 0x7 {
        0xF010204040
    } else if d == 0x8 {
        0xF090F090F0
    } else if d == 0x9 {
        0xF090F010F0
    } else if d == 0xA {
        0xF090F09090
    } else if d == 0xB {
        0xE090E090E0
    } else if d == 0xC {
        0xF0808080F0
    } else if d == 0xD {
        0xE0909090E0
    } else if d == 0xE {
        0xF080F080F0
    } else {
        0xF080F08080
    };
    proof {
        assert(g == spec_glyph(a as int / 5));
    }
    let sh: u64 = (4 - row as u64) * 8;
    let b: u64 = (g >> sh) & 0xFF;
    proof {
        assert((g >> sh) & 0xFF < 256) by (bit_vector);
    }
    b as u8
}

} // verus!
