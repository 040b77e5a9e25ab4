//! Flat byte-addressable memory: 4096 bytes holding the font table and the
//! loaded program. Pure read and write; every access is bounded by the
//! callers, and an address at or past 4096 is a fatal condition there.

use vstd::prelude::*;

verus! {

pub struct Ram {
    mem: Vec<u8>,
}

impl View for Ram {
    type V = Seq<u8>;

    closed spec fn view(&self) -> Seq<u8> {
        self.mem@
    }
}

impl Ram {
    pub open spec fn wf(&self) -> bool {
        self@.len() == 4096
    }

    /// Fresh memory: 4096 zero bytes.
    pub fn new() -> (r: Ram)
        ensures
            r.wf(),
            r@ == Seq::new(4096, |a: int| 0u8),
    {
        let mut mem: Vec<u8> = Vec::new();
        while mem.len() < 4096
            invariant
                mem@.len() <= 4096,
                forall|k: int| 0 <= k < mem@.len() ==> mem@[k] == 0u8,
            decreases 4096 - mem@.len(),
        {
            mem.push(0);
        }
        proof {
            assert(mem@ =~= Seq::new(4096, |a: int| 0u8));
        }
        Ram { mem }
    }

    pub fn write_byte(&mut self, address: u16, value: u8)
        requires
            old(self).wf(),
            address < 4096,
        ensures
            final(self).wf(),
            final(self)@ == old(self)@.update(address as int, value),
    {
        self.mem.set(address as usize, value);
    }

    pub fn read_byte(&self, address: u16) -> (r: u8)
        requires
            self.wf(),
            address < 4096,
        ensures
            r == self@[address as int],
    {
        self.mem[address as usize]
    }
}

} // verus!
