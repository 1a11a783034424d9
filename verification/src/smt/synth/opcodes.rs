//! The opcodes of the 64-bit register forms that a witness program can use.

use vstd::prelude::*;

verus! {

pub const ADD: u8 = 0x0f;

pub const SUB: u8 = 0x1f;

pub const AND: u8 = 0x5f;

pub const OR: u8 = 0x4f;

pub const XOR: u8 = 0xaf;

} // verus!
