//! The input latch: a snapshot of which of the sixteen logical keys are
//! held, fully replaced by the driving loop once per poll. The engine only
//! reads it.

use vstd::prelude::*;

verus! {

pub struct Input {
    keys: Vec<bool>,
}

impl View for Input {
    type V = Seq<bool>;

    closed spec fn view(&self) -> Seq<bool> {
        self.keys@
    }
}

impl Input {
    pub open spec fn wf(&self) -> bool {
        self@.len() == 16
    }

    /// A fresh latch: no key held.
    pub fn new() -> (r: Input)
        ensures
            r.wf(),
            r@ == Seq::new(16, |k: int| false),
    {
        let mut keys: Vec<bool> = Vec::new();
        while keys.len() < 16
            invariant
                keys@.len() <= 16,
                forall|k: int| 0 <= k < keys@.len() ==> keys@[k] == false,
            decreases 16 - keys@.len(),
        {
            keys.push(false);
        }
        proof {
            assert(keys@ =~= Seq::new(16, |k: int| false));
        }
        Input { keys }
    }

    /// Replace the whole latch with one poll's key states.
    pub fn set_all(&mut self, pressed: &[bool; 16])
        requires
            old(self).wf(),
        ensures
            final(self).wf(),
            final(self)@ == pressed@,
    {
        let mut k: usize = 0;
        while k < 16
            invariant
                self@.len() == 16,
                k <= 16,
                forall|j: int| 0 <= j < k ==> self@[j] == pressed@[j],
            decreases 16 - k,
        {
            self.keys.set(k, pressed[k]);
            k = k + 1;
        }
        proof {
            assert(self@ =~= pressed@);
        }
    }

    /// The lowest-numbered key held in a poll snapshot, if any: the driving
    /// loop resolves a wait-for-key suspension by writing it into the
    /// register the engine named.
    pub fn first_pressed(pressed: &[bool; 16]) -> (r: Option<u8>)
        ensures
            match r {
                Some(k) => k < 16 && pressed@[k as int] && forall|j: int|
                    0 <= j < k ==> !pressed@[j],
                None => forall|j: int| 0 <= j < 16 ==> !pressed@[j],
            },
    {
        let mut k: usize = 0;
        while k < 16
            invariant
                k <= 16,
                forall|j: int| 0 <= j < k ==> !pressed@[j],
            decreases 16 - k,
        {
            if pressed[k] {
                return Some(k as u8);
            }
            k = k + 1;
        }
        None
    }

    /// Whether key `key` is currently held.
    pub fn key_pressed(&self, key: u8) -> (r: bool)
        requires
            self.wf(),
            key < 16,
        ensures
            r == self@[key as int],
    {
        self.keys[key as usize]
    }
}

} // verus!
