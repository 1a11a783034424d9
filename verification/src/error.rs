//! The verdict of a verification, and why a program is rejected.

use vstd::prelude::*;

use crate::text;
use crate::text::push_dec;

verus! {

/// A rejection: the instruction at which it was found, and why.
#[derive(Debug, Clone, PartialEq, Eq)]
pub struct VerificationFailure {
    pub insn_idx: u32,
    pub message: String,
}

impl VerificationFailure {
    /// A rejection at an instruction.
    pub fn new(insn_idx: u32, message: &str) -> (f: Self)
        ensures
            f.insn_idx == insn_idx,
            f.message@ == message@,
    {
        let mut text: String = String::new();
        text.append(message);
        assert(text@ =~= message@);
        VerificationFailure { insn_idx, message: text }
    }

    /// The instruction at which the program was rejected.
    pub fn insn_idx(&self) -> (i: u32)
        ensures
            i == self.insn_idx,
    {
        self.insn_idx
    }

    pub open spec fn text(self) -> Seq<char> {
        "verification failed at insn "@ + text::dec(self.insn_idx as nat) + ": "@ + self.message@
    }

    /// The rejection as a line of text.
    pub fn to_text(&self) -> (s: String)
        ensures
            s@ == self.text(),
    {
        let mut s: String = String::new();
        s.append("verification failed at insn ");
        push_dec(&mut s, self.insn_idx as u64);
        s.append(": ");
        s.append(self.message.as_str());
        assert(s@ =~= self.text());
        s
    }
}

/// The verdict on a program.
#[derive(Debug, Clone, PartialEq, Eq)]
pub enum Verdict {
    Safe,
    Unsafe(VerificationFailure),
}

} // verus!
