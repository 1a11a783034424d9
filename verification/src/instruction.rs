//! The smallest instruction set: what a control-flow graph needs.

use vstd::prelude::*;

verus! {

/// A register.
///
/// - R0: the value that helpers and programs return
/// - R1 to R5: arguments, saved by the caller
/// - R6 to R9: saved by the callee
/// - R10: the frame pointer, which is only read
#[derive(Debug, Clone, Copy, PartialEq, Eq, Hash)]
pub enum Reg {
    R0,
    R1,
    R2,
    R3,
    R4,
    R5,
    R6,
    R7,
    R8,
    R9,
    R10,
}

/// An instruction.
#[derive(Debug, Clone, PartialEq, Eq)]
pub enum Instruction {
    /// `dst = imm`
    MovImm { dst: Reg, imm: i32 },
    /// `dst = src`
    MovReg { dst: Reg, src: Reg },
    /// `dst += imm`
    AddImm { dst: Reg, imm: i32 },
    /// `dst += src`
    AddReg { dst: Reg, src: Reg },
    /// `goto pc + offset`
    Jump { offset: i16 },
    /// `if dst == imm goto pc + offset`
    JumpEqImm { dst: Reg, imm: i32, offset: i16 },
    /// `exit`
    Exit,
}

} // verus!
