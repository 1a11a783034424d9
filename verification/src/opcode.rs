//! Opcodes of the supported eBPF subset, in the kernel's UAPI encoding:
//! `code = class | operation | source`.
//!
//! ALU32 is the separate BPF_ALU class (0x04) beside BPF_ALU64 (0x07); its
//! results are truncated to 32 bits and zero-extended into the register.

use vstd::prelude::*;

verus! {

// ALU64 (class 0x07), immediate (BPF_K) and register (BPF_X) source

/// BPF_ALU64 | BPF_MOV | BPF_K.
pub const MOV_IMM: u8 = 0xb7;

// the two-slot 64-bit load, and the pseudo classes of its source field

/// BPF_LD | BPF_DW | BPF_IMM (two slots).
pub const LD_IMM64: u8 = 0x18;

pub const PSEUDO_MAP_FD: u8 = 1;

pub const PSEUDO_MAP_VALUE: u8 = 2;

// ALU64 operations

/// BPF_ALU64 | BPF_MOV | BPF_X.
pub const MOV_REG: u8 = 0xbf;

/// BPF_ALU64 | BPF_ADD | BPF_K.
pub const ADD_IMM: u8 = 0x07;

/// BPF_ALU64 | BPF_ADD | BPF_X.
pub const ADD_REG: u8 = 0x0f;

pub const SUB_IMM: u8 = 0x17;

pub const SUB_REG: u8 = 0x1f;

pub const AND_IMM: u8 = 0x57;

pub const AND_REG: u8 = 0x5f;

pub const OR_IMM: u8 = 0x47;

pub const OR_REG: u8 = 0x4f;

pub const XOR_IMM: u8 = 0xa7;

pub const XOR_REG: u8 = 0xaf;

pub const LSH_IMM: u8 = 0x67;

pub const LSH_REG: u8 = 0x6f;

pub const RSH_IMM: u8 = 0x77;

pub const RSH_REG: u8 = 0x7f;

pub const ARSH_IMM: u8 = 0xc7;

pub const ARSH_REG: u8 = 0xcf;

// ALU32 (class 0x04)

pub const ADD32_IMM: u8 = 0x04;

pub const ADD32_REG: u8 = 0x0c;

pub const SUB32_IMM: u8 = 0x14;

pub const SUB32_REG: u8 = 0x1c;

pub const AND32_IMM: u8 = 0x54;

pub const AND32_REG: u8 = 0x5c;

pub const OR32_IMM: u8 = 0x44;

pub const OR32_REG: u8 = 0x4c;

pub const XOR32_IMM: u8 = 0xa4;

pub const XOR32_REG: u8 = 0xac;

pub const LSH32_IMM: u8 = 0x64;

pub const LSH32_REG: u8 = 0x6c;

pub const RSH32_IMM: u8 = 0x74;

pub const RSH32_REG: u8 = 0x7c;

pub const ARSH32_IMM: u8 = 0xc4;

pub const ARSH32_REG: u8 = 0xcc;

// 8-byte load and store

/// BPF_LDX | BPF_MEM | BPF_DW, src_reg = R10.
pub const LD_STACK: u8 = 0x79;

/// BPF_STX | BPF_MEM | BPF_DW, dst_reg = R10.
pub const ST_STACK: u8 = 0x7b;

// jumps (class 0x05)

/// BPF_JA.
pub const JMP: u8 = 0x05;

/// BPF_JMP | BPF_JEQ | BPF_X.
pub const JEQ: u8 = 0x1d;

/// BPF_JMP | BPF_JEQ | BPF_K.
pub const JEQ_IMM: u8 = 0x15;

/// BPF_JMP | BPF_JNE | BPF_X.
pub const JNE: u8 = 0x5d;

/// BPF_JMP | BPF_JNE | BPF_K.
pub const JNE_IMM: u8 = 0x55;

/// BPF_JMP | BPF_JGT | BPF_X (unsigned).
pub const JGT: u8 = 0x2d;

/// BPF_JMP | BPF_JGT | BPF_K (unsigned).
pub const JGT_IMM: u8 = 0x25;

/// BPF_JMP | BPF_JGE | BPF_X (unsigned).
pub const JGE: u8 = 0x3d;

/// BPF_JMP | BPF_JGE | BPF_K (unsigned).
pub const JGE_IMM: u8 = 0x35;

/// BPF_JMP | BPF_JLT | BPF_X (unsigned).
pub const JLT: u8 = 0xad;

/// BPF_JMP | BPF_JLT | BPF_K (unsigned).
pub const JLT_IMM: u8 = 0xa5;

/// BPF_JMP | BPF_JLE | BPF_X (unsigned).
pub const JLE: u8 = 0xbd;

/// BPF_JMP | BPF_JLE | BPF_K (unsigned).
pub const JLE_IMM: u8 = 0xb5;

/// BPF_JMP | BPF_JSGT | BPF_X (signed).
pub const JSGT: u8 = 0x6d;

/// BPF_JMP | BPF_JSGT | BPF_K (signed).
pub const JSGT_IMM: u8 = 0x65;

/// BPF_JMP | BPF_JSGE | BPF_X (signed).
pub const JSGE: u8 = 0x7d;

/// BPF_JMP | BPF_JSGE | BPF_K (signed).
pub const JSGE_IMM: u8 = 0x75;

/// BPF_JMP | BPF_JSLT | BPF_X (signed).
pub const JSLT: u8 = 0xcd;

/// BPF_JMP | BPF_JSLT | BPF_K (signed).
pub const JSLT_IMM: u8 = 0xc5;

/// BPF_JMP | BPF_JSLE | BPF_X (signed).
pub const JSLE: u8 = 0xdd;

/// BPF_JMP | BPF_JSLE | BPF_K (signed).
pub const JSLE_IMM: u8 = 0xd5;

/// BPF_JMP | BPF_CALL — imm is the helper id.
pub const CALL: u8 = 0x85;

/// BPF_JMP | BPF_EXIT.
pub const EXIT: u8 = 0x95;

} // verus!
