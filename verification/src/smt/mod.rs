//! The abstract operators as formulas of a solver.
//!
//! Every operator has an encoding as bit-vector terms. Its contract says that,
//! under every assignment, the encoding denotes what the operator returns; the
//! checks in `verify` then ask the solver for values that an operator misses.

pub mod range;
pub mod range_check;
pub mod synth;
pub mod tnum;
pub mod violation;
pub mod verify;
pub mod word;

use vstd::arithmetic::power2::pow2;
use vstd::prelude::*;

use crate::interval;
use crate::text;
use crate::text::push_hex;
use crate::tnum::Tnum;

use word::{Assignment, Word};

verus! {

/// A symbolic value with its width and the prefix of its name.
pub struct Sym {
    pub name: String,
    pub bv: Word,
    pub width: u32,
}

impl Sym {
    /// A fresh variable of `width` bits.
    pub fn fresh(prefix: &str, width: u32) -> (s: Self)
        requires
            width > 0,
            !prefix@.contains('\0'),
        ensures
            s.name@ == prefix@,
            s.width == width,
            s.bv.bits() == width,
    {
        let mut name: String = String::new();
        name.append(prefix);
        assert(name@ =~= prefix@);
        Self { name, bv: Word::fresh(prefix, width), width }
    }

    /// A constant of `width` bits.
    pub fn const_u64(v: u64, width: u32) -> (s: Self)
        requires
            width > 0,
        ensures
            s.name@ == text::hex(v as nat),
            s.width == width,
            s.bv.bits() == width,
            v < pow2(width as nat) ==> forall|m: Assignment| #[trigger] s.bv.at(m) == v,
    {
        let mut name: String = String::new();
        push_hex(&mut name, v);
        assert(name@ =~= text::hex(v as nat));
        Self { name, bv: Word::constant(v, width), width }
    }
}

/// A symbolic tracked number: its known bits and its unknown ones.
pub struct SymTnum {
    pub value: Word,
    pub mask: Word,
}

impl SymTnum {
    pub open spec fn wf(self) -> bool {
        self.value.bits() == 64 && self.mask.bits() == 64
    }

    /// The tracked number that is denoted.
    pub open spec fn at(self, m: Assignment) -> Tnum {
        Tnum { value: self.value.word(m), mask: self.mask.word(m) }
    }
}

/// A symbolic interval: its bounds.
pub struct SymRange {
    pub lo: Word,
    pub hi: Word,
}

impl SymRange {
    pub open spec fn wf(self) -> bool {
        self.lo.bits() == 64 && self.hi.bits() == 64
    }

    /// The interval that is denoted.
    pub open spec fn at(self, m: Assignment) -> interval::Range {
        (self.lo.word(m), self.hi.word(m))
    }
}

} // verus!
