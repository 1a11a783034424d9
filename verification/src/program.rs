//! A program: a list of instructions.

use vstd::prelude::*;

use crate::instruction::Instruction;

verus! {

/// The place of an instruction in its program.
#[derive(Debug, Clone, Copy, PartialEq, Eq, PartialOrd, Ord, Hash)]
pub struct InsnIndex(pub usize);

/// A decoded program.
#[derive(Debug, Clone)]
pub struct Program {
    pub instructions: Vec<Instruction>,
}

impl View for Program {
    type V = Seq<Instruction>;

    open spec fn view(&self) -> Seq<Instruction> {
        self.instructions@
    }
}

impl Program {
    /// The program of some instructions.
    #[must_use]
    pub fn new(instructions: Vec<Instruction>) -> (p: Self)
        ensures
            p@ == instructions@,
    {
        Self { instructions }
    }

    /// The number of instructions.
    #[must_use]
    pub fn len(&self) -> (n: usize)
        ensures
            n == self@.len(),
    {
        self.instructions.len()
    }

    /// Whether there are no instructions.
    #[must_use]
    pub fn is_empty(&self) -> (b: bool)
        ensures
            b == (self@.len() == 0),
    {
        self.instructions.len() == 0
    }

    /// The instruction at an index, if there is one.
    #[must_use]
    pub fn get(&self, index: InsnIndex) -> (i: Option<&Instruction>)
        ensures
            match i {
                Some(insn) => index.0 < self@.len() && *insn == self@[index.0 as int],
                None => index.0 >= self@.len(),
            },
    {
        if index.0 < self.instructions.len() {
            Some(&self.instructions[index.0])
        } else {
            None
        }
    }
}

} // verus!
