//! Decoded eBPF instructions, and the decoder from the kernel's slot encoding.

use vstd::prelude::*;

use crate::opcode;
use crate::slot;
use crate::slot::{to_i32, to_u32, Slot};
use crate::text;
use crate::text::{push_dec, push_hex_fixed};

verus! {

/// The memory access width of a load or store (kernel BPF_SIZE).
#[derive(Debug, Clone, Copy, PartialEq, Eq, Structural)]
pub enum MemSize {
    B,
    H,
    W,
    DW,
}

impl MemSize {
    /// The width in bytes.
    pub open spec fn width(self) -> int {
        match self {
            MemSize::B => 1,
            MemSize::H => 2,
            MemSize::W => 4,
            MemSize::DW => 8,
        }
    }

    /// The kernel's two-bit size code.
    pub open spec fn code(self) -> int {
        match self {
            MemSize::W => 0,
            MemSize::H => 1,
            MemSize::B => 2,
            MemSize::DW => 3,
        }
    }

    pub fn bytes(self) -> (n: usize)
        ensures
            n == self.width(),
    {
        match self {
            MemSize::B => 1,
            MemSize::H => 2,
            MemSize::W => 4,
            MemSize::DW => 8,
        }
    }
}

/// BPF_LDX | BPF_MEM, or BPF_LDX | BPF_MEMSX for the sign-extending forms.
pub open spec fn load_op(size: MemSize, sign_extend: bool) -> u8 {
    ((if sign_extend { 0x81int } else { 0x61int }) + 8 * size.code()) as u8
}

/// BPF_STX | BPF_MEM.
pub open spec fn store_op(size: MemSize) -> u8 {
    (0x63 + 8 * size.code()) as u8
}

/// BPF_ST | BPF_MEM.
pub open spec fn store_imm_op(size: MemSize) -> u8 {
    (0x62 + 8 * size.code()) as u8
}

/// The supported eBPF subset. `base` of a memory access is the kernel's
/// src_reg in a load and dst_reg in a store.
#[allow(inconsistent_fields)]
#[derive(Debug, Clone, Copy, PartialEq, Eq, Structural)]
pub enum BpfInsn {
    // ALU64
    MovImm { dst: u8, imm: i32 },
    MovReg { dst: u8, src: u8 },
    AddImm { dst: u8, imm: i32 },
    AddReg { dst: u8, src: u8 },
    SubImm { dst: u8, imm: i32 },
    SubReg { dst: u8, src: u8 },
    AndImm { dst: u8, imm: i32 },
    AndReg { dst: u8, src: u8 },
    OrImm { dst: u8, imm: i32 },
    OrReg { dst: u8, src: u8 },
    XorImm { dst: u8, imm: i32 },
    XorReg { dst: u8, src: u8 },
    LshImm { dst: u8, imm: i32 },
    LshReg { dst: u8, src: u8 },
    RshImm { dst: u8, imm: i32 },
    RshReg { dst: u8, src: u8 },
    ArshImm { dst: u8, imm: i32 },
    ArshReg { dst: u8, src: u8 },
    // ALU32: truncating, zero-extended
    Add32Imm { dst: u8, imm: i32 },
    Add32Reg { dst: u8, src: u8 },
    Sub32Imm { dst: u8, imm: i32 },
    Sub32Reg { dst: u8, src: u8 },
    And32Imm { dst: u8, imm: i32 },
    And32Reg { dst: u8, src: u8 },
    Or32Imm { dst: u8, imm: i32 },
    Or32Reg { dst: u8, src: u8 },
    Xor32Imm { dst: u8, imm: i32 },
    Xor32Reg { dst: u8, src: u8 },
    Lsh32Imm { dst: u8, imm: i32 },
    Lsh32Reg { dst: u8, src: u8 },
    Rsh32Imm { dst: u8, imm: i32 },
    Rsh32Reg { dst: u8, src: u8 },
    Arsh32Imm { dst: u8, imm: i32 },
    Arsh32Reg { dst: u8, src: u8 },
    /// Load of `size` bytes at `base + offset`; `sign_extend` marks the
    /// sign-extending forms, the others zero-extend.
    LdMem { dst: u8, base: u8, offset: i16, size: MemSize, sign_extend: bool },
    /// Store of the low `size` bytes of `src` at `base + offset`.
    StMem { src: u8, base: u8, offset: i16, size: MemSize },
    /// Store of an immediate at `base + offset`.
    StMemImm { imm: i32, base: u8, offset: i16, size: MemSize },
    /// 64-bit constant. It takes two slots, and is followed in a decoded
    /// program by the marker `LdImm64Second`, so that every offset stays in
    /// slot units.
    LdImm64 { dst: u8, imm: u64 },
    /// Map by file descriptor, in two slots. The sizes and the map type are
    /// filled at load time (0 = ARRAY, 1 = RINGBUF); decoding yields 0.
    LdMapFd { dst: u8, fd: u32, key_size: u32, value_size: u32, map_type: u8 },
    /// Address inside a map's value, in two slots; the second holds the
    /// offset. The sizes are filled at load time.
    LdMapValue { dst: u8, fd: u32, offset: u32, key_size: u32, value_size: u32 },
    /// The second slot of a two-slot load: never executed, and no target of a
    /// jump. It carries the immediate of the slot.
    LdImm64Second { imm_hi: u32 },
    // compares of two registers: equality, unsigned, signed
    Jeq { dst: u8, src: u8, offset: i16 },
    Jne { dst: u8, src: u8, offset: i16 },
    Jgt { dst: u8, src: u8, offset: i16 },
    Jge { dst: u8, src: u8, offset: i16 },
    Jlt { dst: u8, src: u8, offset: i16 },
    Jle { dst: u8, src: u8, offset: i16 },
    Jsgt { dst: u8, src: u8, offset: i16 },
    Jsge { dst: u8, src: u8, offset: i16 },
    Jslt { dst: u8, src: u8, offset: i16 },
    Jsle { dst: u8, src: u8, offset: i16 },
    // compares with an immediate
    JeqImm { dst: u8, imm: i32, offset: i16 },
    JneImm { dst: u8, imm: i32, offset: i16 },
    JgtImm { dst: u8, imm: i32, offset: i16 },
    JgeImm { dst: u8, imm: i32, offset: i16 },
    JltImm { dst: u8, imm: i32, offset: i16 },
    JleImm { dst: u8, imm: i32, offset: i16 },
    JsgtImm { dst: u8, imm: i32, offset: i16 },
    JsgeImm { dst: u8, imm: i32, offset: i16 },
    JsltImm { dst: u8, imm: i32, offset: i16 },
    JsleImm { dst: u8, imm: i32, offset: i16 },
    Jmp { offset: i16 },
    /// Call of the helper `imm`.
    Call { imm: i32 },
    /// Call of a subprogram; its entry is at `pc + 1 + offset`.
    CallSub { offset: i32 },
    /// Call of a kernel function by its BTF id.
    CallKfunc { btf_id: i32 },
    Exit,
}

impl BpfInsn {
    /// The slot that encodes the instruction (of a two-slot load, the first).
    #[verifier::opaque]
    pub open spec fn slot(self) -> Slot {
        match self {
            BpfInsn::MovImm { dst, imm } => Slot { op: opcode::MOV_IMM, dst, src: 0, off: 0, imm },
            BpfInsn::MovReg { dst, src } => Slot { op: opcode::MOV_REG, dst, src, off: 0, imm: 0 },
            BpfInsn::AddImm { dst, imm } => Slot { op: opcode::ADD_IMM, dst, src: 0, off: 0, imm },
            BpfInsn::AddReg { dst, src } => Slot { op: opcode::ADD_REG, dst, src, off: 0, imm: 0 },
            BpfInsn::SubImm { dst, imm } => Slot { op: opcode::SUB_IMM, dst, src: 0, off: 0, imm },
            BpfInsn::SubReg { dst, src } => Slot { op: opcode::SUB_REG, dst, src, off: 0, imm: 0 },
            BpfInsn::AndImm { dst, imm } => Slot { op: opcode::AND_IMM, dst, src: 0, off: 0, imm },
            BpfInsn::AndReg { dst, src } => Slot { op: opcode::AND_REG, dst, src, off: 0, imm: 0 },
            BpfInsn::OrImm { dst, imm } => Slot { op: opcode::OR_IMM, dst, src: 0, off: 0, imm },
            BpfInsn::OrReg { dst, src } => Slot { op: opcode::OR_REG, dst, src, off: 0, imm: 0 },
            BpfInsn::XorImm { dst, imm } => Slot { op: opcode::XOR_IMM, dst, src: 0, off: 0, imm },
            BpfInsn::XorReg { dst, src } => Slot { op: opcode::XOR_REG, dst, src, off: 0, imm: 0 },
            BpfInsn::LshImm { dst, imm } => Slot { op: opcode::LSH_IMM, dst, src: 0, off: 0, imm },
            BpfInsn::LshReg { dst, src } => Slot { op: opcode::LSH_REG, dst, src, off: 0, imm: 0 },
            BpfInsn::RshImm { dst, imm } => Slot { op: opcode::RSH_IMM, dst, src: 0, off: 0, imm },
            BpfInsn::RshReg { dst, src } => Slot { op: opcode::RSH_REG, dst, src, off: 0, imm: 0 },
            BpfInsn::ArshImm { dst, imm } => Slot { op: opcode::ARSH_IMM, dst, src: 0, off: 0, imm },
            BpfInsn::ArshReg { dst, src } => Slot { op: opcode::ARSH_REG, dst, src, off: 0, imm: 0 },
            BpfInsn::Add32Imm { dst, imm } => Slot { op: opcode::ADD32_IMM, dst, src: 0, off: 0, imm },
            BpfInsn::Add32Reg { dst, src } => Slot { op: opcode::ADD32_REG, dst, src, off: 0, imm: 0 },
            BpfInsn::Sub32Imm { dst, imm } => Slot { op: opcode::SUB32_IMM, dst, src: 0, off: 0, imm },
            BpfInsn::Sub32Reg { dst, src } => Slot { op: opcode::SUB32_REG, dst, src, off: 0, imm: 0 },
            BpfInsn::And32Imm { dst, imm } => Slot { op: opcode::AND32_IMM, dst, src: 0, off: 0, imm },
            BpfInsn::And32Reg { dst, src } => Slot { op: opcode::AND32_REG, dst, src, off: 0, imm: 0 },
            BpfInsn::Or32Imm { dst, imm } => Slot { op: opcode::OR32_IMM, dst, src: 0, off: 0, imm },
            BpfInsn::Or32Reg { dst, src } => Slot { op: opcode::OR32_REG, dst, src, off: 0, imm: 0 },
            BpfInsn::Xor32Imm { dst, imm } => Slot { op: opcode::XOR32_IMM, dst, src: 0, off: 0, imm },
            BpfInsn::Xor32Reg { dst, src } => Slot { op: opcode::XOR32_REG, dst, src, off: 0, imm: 0 },
            BpfInsn::Lsh32Imm { dst, imm } => Slot { op: opcode::LSH32_IMM, dst, src: 0, off: 0, imm },
            BpfInsn::Lsh32Reg { dst, src } => Slot { op: opcode::LSH32_REG, dst, src, off: 0, imm: 0 },
            BpfInsn::Rsh32Imm { dst, imm } => Slot { op: opcode::RSH32_IMM, dst, src: 0, off: 0, imm },
            BpfInsn::Rsh32Reg { dst, src } => Slot { op: opcode::RSH32_REG, dst, src, off: 0, imm: 0 },
            BpfInsn::Arsh32Imm { dst, imm } => Slot { op: opcode::ARSH32_IMM, dst, src: 0, off: 0, imm },
            BpfInsn::Arsh32Reg { dst, src } => Slot { op: opcode::ARSH32_REG, dst, src, off: 0, imm: 0 },
            BpfInsn::LdMem { dst, base, offset, size, sign_extend } => Slot {
                op: load_op(size, sign_extend),
                dst,
                src: base,
                off: offset,
                imm: 0,
            },
            BpfInsn::StMem { src, base, offset, size } => Slot {
                op: store_op(size),
                dst: base,
                src,
                off: offset,
                imm: 0,
            },
            BpfInsn::StMemImm { imm, base, offset, size } => Slot {
                op: store_imm_op(size),
                dst: base,
                src: 0,
                off: offset,
                imm,
            },
            BpfInsn::LdImm64 { dst, imm } => Slot {
                op: opcode::LD_IMM64,
                dst,
                src: 0,
                off: 0,
                imm: slot::signed32(imm as int % 0x1_0000_0000),
            },
            BpfInsn::LdMapFd { dst, fd, .. } => Slot {
                op: opcode::LD_IMM64,
                dst,
                src: opcode::PSEUDO_MAP_FD,
                off: 0,
                imm: slot::signed32(fd as int),
            },
            BpfInsn::LdMapValue { dst, fd, .. } => Slot {
                op: opcode::LD_IMM64,
                dst,
                src: opcode::PSEUDO_MAP_VALUE,
                off: 0,
                imm: slot::signed32(fd as int),
            },
            BpfInsn::LdImm64Second { imm_hi } => Slot {
                op: 0,
                dst: 0,
                src: 0,
                off: 0,
                imm: slot::signed32(imm_hi as int),
            },
            BpfInsn::Jeq { dst, src, offset } => Slot { op: opcode::JEQ, dst, src, off: offset, imm: 0 },
            BpfInsn::Jne { dst, src, offset } => Slot { op: opcode::JNE, dst, src, off: offset, imm: 0 },
            BpfInsn::Jgt { dst, src, offset } => Slot { op: opcode::JGT, dst, src, off: offset, imm: 0 },
            BpfInsn::Jge { dst, src, offset } => Slot { op: opcode::JGE, dst, src, off: offset, imm: 0 },
            BpfInsn::Jlt { dst, src, offset } => Slot { op: opcode::JLT, dst, src, off: offset, imm: 0 },
            BpfInsn::Jle { dst, src, offset } => Slot { op: opcode::JLE, dst, src, off: offset, imm: 0 },
            BpfInsn::Jsgt { dst, src, offset } => Slot { op: opcode::JSGT, dst, src, off: offset, imm: 0 },
            BpfInsn::Jsge { dst, src, offset } => Slot { op: opcode::JSGE, dst, src, off: offset, imm: 0 },
            BpfInsn::Jslt { dst, src, offset } => Slot { op: opcode::JSLT, dst, src, off: offset, imm: 0 },
            BpfInsn::Jsle { dst, src, offset } => Slot { op: opcode::JSLE, dst, src, off: offset, imm: 0 },
            BpfInsn::JeqImm { dst, imm, offset } => Slot { op: opcode::JEQ_IMM, dst, src: 0, off: offset, imm },
            BpfInsn::JneImm { dst, imm, offset } => Slot { op: opcode::JNE_IMM, dst, src: 0, off: offset, imm },
            BpfInsn::JgtImm { dst, imm, offset } => Slot { op: opcode::JGT_IMM, dst, src: 0, off: offset, imm },
            BpfInsn::JgeImm { dst, imm, offset } => Slot { op: opcode::JGE_IMM, dst, src: 0, off: offset, imm },
            BpfInsn::JltImm { dst, imm, offset } => Slot { op: opcode::JLT_IMM, dst, src: 0, off: offset, imm },
            BpfInsn::JleImm { dst, imm, offset } => Slot { op: opcode::JLE_IMM, dst, src: 0, off: offset, imm },
            BpfInsn::JsgtImm { dst, imm, offset } => Slot { op: opcode::JSGT_IMM, dst, src: 0, off: offset, imm },
            BpfInsn::JsgeImm { dst, imm, offset } => Slot { op: opcode::JSGE_IMM, dst, src: 0, off: offset, imm },
            BpfInsn::JsltImm { dst, imm, offset } => Slot { op: opcode::JSLT_IMM, dst, src: 0, off: offset, imm },
            BpfInsn::JsleImm { dst, imm, offset } => Slot { op: opcode::JSLE_IMM, dst, src: 0, off: offset, imm },
            BpfInsn::Jmp { offset } => Slot { op: opcode::JMP, dst: 0, src: 0, off: offset, imm: 0 },
            BpfInsn::Call { imm } => Slot { op: opcode::CALL, dst: 0, src: 0, off: 0, imm },
            BpfInsn::CallSub { offset } => Slot { op: opcode::CALL, dst: 0, src: 1, off: 0, imm: offset },
            BpfInsn::CallKfunc { btf_id } => Slot { op: opcode::CALL, dst: 0, src: 2, off: 0, imm: btf_id },
            BpfInsn::Exit => Slot { op: opcode::EXIT, dst: 0, src: 0, off: 0, imm: 0 },
        }
    }

    /// A load that takes two slots.
    pub open spec fn is_wide(self) -> bool {
        self is LdImm64 || self is LdMapFd || self is LdMapValue
    }

    /// An instruction that is its one slot.
    pub open spec fn is_single(self) -> bool {
        !self.is_wide() && !(self is LdImm64Second)
    }

    /// Every register field names one of R0 to R10.
    pub open spec fn regs_valid(self) -> bool {
        self.slot().dst <= 10 && (self.is_wide() || self.slot().src <= 10)
    }

    /// A compare, in its register or its immediate form.
    pub open spec fn is_compare(self) -> bool {
        is_compare_op(self.slot().op)
    }

    /// Whether this instruction forks into a taken branch and a
    /// fall-through successor (all compares, register and immediate forms).
    pub fn is_conditional_branch(&self) -> (b: bool)
        ensures
            b == self.is_compare(),
    {
        reveal(BpfInsn::slot);
        match self {
            BpfInsn::Jeq { .. }
            | BpfInsn::Jne { .. }
            | BpfInsn::Jgt { .. }
            | BpfInsn::Jge { .. }
            | BpfInsn::Jlt { .. }
            | BpfInsn::Jle { .. }
            | BpfInsn::Jsgt { .. }
            | BpfInsn::Jsge { .. }
            | BpfInsn::Jslt { .. }
            | BpfInsn::Jsle { .. }
            | BpfInsn::JeqImm { .. }
            | BpfInsn::JneImm { .. }
            | BpfInsn::JgtImm { .. }
            | BpfInsn::JgeImm { .. }
            | BpfInsn::JltImm { .. }
            | BpfInsn::JleImm { .. }
            | BpfInsn::JsgtImm { .. }
            | BpfInsn::JsgeImm { .. }
            | BpfInsn::JsltImm { .. }
            | BpfInsn::JsleImm { .. } => true,
            _ => false,
        }
    }

    /// Whether this instruction decides where execution goes on: exit,
    /// unconditional jump or compare.
    pub fn is_control_flow(&self) -> (b: bool)
        ensures
            b == (self is Exit || self is Jmp || self.is_compare()),
    {
        match self {
            BpfInsn::Exit | BpfInsn::Jmp { .. } => true,
            _ => self.is_conditional_branch(),
        }
    }
}

/// A decode-level rejection. Decode failures are program rejections, never
/// internal errors.
#[derive(Debug, Clone, Copy, PartialEq, Eq)]
pub enum DecodeError {
    /// The opcode is not in the kernel's instruction table.
    UnknownOpcode { op: u8 },
    /// A valid kernel opcode that is not implemented.
    Unsupported { op: u8, reason: &'static str },
    /// A register field names a register above R10.
    InvalidRegister { reg: u8 },
    /// Non-zero reserved fields.
    ReservedFields { message: &'static str },
    /// A two-slot load without its second slot.
    LdImm64Truncated,
}

impl DecodeError {
    /// The text of the rejection.
    pub open spec fn text(self) -> Seq<char> {
        match self {
            DecodeError::UnknownOpcode { op } => "unknown opcode 0x"@ + text::hex_fixed(op as nat, 2),
            DecodeError::Unsupported { op, reason } => "unsupported instruction 0x"@ + text::hex_fixed(
                op as nat,
                2,
            ) + ": "@ + reason@,
            DecodeError::InvalidRegister { reg } => "R"@ + text::dec(reg as nat) + " is invalid"@,
            DecodeError::ReservedFields { message } => message@,
            DecodeError::LdImm64Truncated => "invalid bpf_ldimm64 insn (missing second slot)"@,
        }
    }

    /// The rejection as a message for people.
    pub fn message(&self) -> (s: String)
        ensures
            s@ == self.text(),
    {
        let mut s: String = String::new();
        match self {
            DecodeError::UnknownOpcode { op } => {
                s.append("unknown opcode 0x");
                push_hex_fixed(&mut s, *op as u64, 2);
            },
            DecodeError::Unsupported { op, reason } => {
                s.append("unsupported instruction 0x");
                push_hex_fixed(&mut s, *op as u64, 2);
                s.append(": ");
                s.append(reason);
            },
            DecodeError::InvalidRegister { reg } => {
                s.append("R");
                push_dec(&mut s, *reg as u64);
                s.append(" is invalid");
            },
            DecodeError::ReservedFields { message } => {
                s.append(message);
            },
            DecodeError::LdImm64Truncated => {
                s.append("invalid bpf_ldimm64 insn (missing second slot)");
            },
        }
        s
    }
}

// ── The decoding of one slot ────────────────────────────────────────────────

/// The implemented ALU opcodes: ADD, SUB, OR, AND, LSH, RSH, XOR and ARSH of
/// both widths, and MOV of 64 bits.
pub open spec fn is_alu_op(op: u8) -> bool {
    let operation = op / 16;
    ||| (op % 8 == 7 || op % 8 == 4) && (operation <= 1 || 4 <= operation <= 7 || operation == 0xa
        || operation == 0xc)
    ||| op % 8 == 7 && operation == 0xb
}

/// The compare opcodes.
pub open spec fn is_compare_op(op: u8) -> bool {
    let operation = op / 16;
    op % 8 == 5 && (1 <= operation <= 3 || 5 <= operation <= 7 || 0xa <= operation <= 0xd)
}

/// The memory access opcodes: loads, sign-extending loads and both stores.
pub open spec fn is_mem_op(op: u8) -> bool {
    (op / 32 == 3 && 1 <= op % 8 <= 3) || (op / 32 == 4 && op % 8 == 1)
}

/// The source bit of the opcode: set in the register (BPF_X) forms.
pub open spec fn is_x_op(op: u8) -> bool {
    op / 8 % 2 == 1
}

/// A register form reserves the immediate, an immediate form the source
/// register.
pub open spec fn source_reserved(s: Slot) -> bool {
    if is_x_op(s.op) { s.imm != 0 } else { s.src != 0 }
}

/// Why a valid kernel opcode is not implemented; `None` for an opcode that
/// is not in the kernel's table.
pub open spec fn unsupported(op: u8) -> Option<&'static str> {
    if op % 8 == 0 {
        Some("BPF_LD legacy absolute/indirect loads are not implemented")
    } else if op % 8 == 2 {
        Some("BPF_ST (store-immediate) is not implemented")
    } else if op % 8 == 6 {
        Some("BPF_JMP32 (32-bit compares) is not implemented")
    } else if op % 8 == 1 {
        Some("only 8-byte loads from the stack frame are implemented")
    } else if op % 8 == 3 {
        Some("only 8-byte stores to the stack frame are implemented")
    } else if op % 8 == 5 {
        if op == 0x45 || op == 0x4d {
            Some("BPF_JSET is not implemented")
        } else if op == 0x0d {
            Some("indirect jumps (BPF_JA|BPF_X) are not implemented")
        } else {
            None
        }
    } else if op / 16 == 2 || op / 16 == 3 || op / 16 == 9 {
        Some("MUL/DIV/MOD are not implemented")
    } else if op / 16 == 8 {
        Some("BPF_NEG is not implemented")
    } else if op / 16 == 0xd {
        Some("BPF_END is not implemented")
    } else if op / 16 == 0xb {
        Some("32-bit MOV (BPF_ALU | BPF_MOV) is not implemented")
    } else {
        None
    }
}

pub open spec fn reserved(message: &'static str) -> Option<DecodeError> {
    Some(DecodeError::ReservedFields { message })
}

/// The rejection of a slot that stands alone, if it is rejected: registers
/// first, then reserved fields, then the opcode.
pub open spec fn slot_error(s: Slot) -> Option<DecodeError> {
    if s.dst > 10 {
        Some(DecodeError::InvalidRegister { reg: s.dst })
    } else if s.src > 10 {
        Some(DecodeError::InvalidRegister { reg: s.src })
    } else if is_alu_op(s.op) {
        if !source_reserved(s) && s.off == 0 {
            None
        } else if s.op == opcode::MOV_IMM || s.op == opcode::MOV_REG {
            reserved("BPF_MOV uses reserved fields")
        } else {
            reserved("BPF_ALU uses reserved fields")
        }
    } else if is_compare_op(s.op) {
        if source_reserved(s) { reserved("BPF_JMP uses reserved fields") } else { None }
    } else if s.op == opcode::JMP {
        if s.src != 0 || s.dst != 0 || s.imm != 0 {
            reserved("BPF_JA uses reserved fields")
        } else {
            None
        }
    } else if s.op == opcode::CALL {
        if s.dst != 0 || s.off != 0 || s.src > 2 {
            reserved("BPF_CALL uses reserved fields")
        } else {
            None
        }
    } else if s.op == opcode::EXIT {
        if s.src != 0 || s.dst != 0 || s.imm != 0 {
            reserved("BPF_EXIT uses reserved fields")
        } else {
            None
        }
    } else if s.op == opcode::LD_IMM64 {
        Some(DecodeError::LdImm64Truncated)
    } else if is_mem_op(s.op) {
        if s.imm != 0 && s.op % 8 != 2 {
            reserved("memory access uses reserved fields")
        } else {
            None
        }
    } else {
        match unsupported(s.op) {
            Some(reason) => Some(DecodeError::Unsupported { op: s.op, reason }),
            None => Some(DecodeError::UnknownOpcode { op: s.op }),
        }
    }
}

/// The slot without the two fields that decoding ignores: the offset of an
/// exit and the source register of an immediate store.
pub open spec fn canonical(s: Slot) -> Slot {
    if s.op == opcode::EXIT {
        Slot { off: 0, ..s }
    } else if is_mem_op(s.op) && s.op % 8 == 2 {
        Slot { src: 0, ..s }
    } else {
        s
    }
}

/// What a slot that stands alone decodes to: the instruction that is encoded
/// by it.
#[verifier::opaque]
pub open spec fn decode_slot(s: Slot) -> Result<BpfInsn, DecodeError> {
    match slot_error(s) {
        Some(e) => Err(e),
        None => Ok(choose|i: BpfInsn| i.is_single() && #[trigger] i.slot() == canonical(s)),
    }
}

/// No two single-slot instructions have the same slot.
pub proof fn slot_injective(i: BpfInsn, j: BpfInsn)
    requires
        i.is_single(),
        j.is_single(),
        i.slot() == j.slot(),
    ensures
        i == j,
{
    reveal(BpfInsn::slot);
}

/// The slot of a single-slot instruction over R0 to R10 is accepted, and
/// leaves the ignored fields at zero.
pub proof fn lemma_slot_accepted(i: BpfInsn)
    requires
        i.is_single(),
        i.regs_valid(),
    ensures
        slot_error(i.slot()) is None,
        canonical(i.slot()) == i.slot(),
        i.slot().op != opcode::LD_IMM64,
{
    reveal(BpfInsn::slot);
}

/// The slot of a single-slot instruction over R0 to R10 decodes to that
/// instruction.
pub proof fn decode_slot_inverse(i: BpfInsn)
    requires
        i.is_single(),
        i.regs_valid(),
    ensures
        decode_slot(i.slot()) == Ok::<BpfInsn, DecodeError>(i),
{
    reveal(decode_slot);
    lemma_slot_accepted(i);
    let j = choose|j: BpfInsn| j.is_single() && #[trigger] j.slot() == canonical(i.slot());
    slot_injective(i, j);
}

/// The ALU instruction of a slot.
proof fn alu_witness(s: Slot) -> (i: BpfInsn)
    requires
        is_alu_op(s.op),
        !source_reserved(s),
        s.off == 0,
    ensures
        i.is_single(),
        i.slot() == s,
{
    reveal(BpfInsn::slot);
    let dst = s.dst;
    let src = s.src;
    let imm = s.imm;
    if s.op == opcode::MOV_IMM {
        BpfInsn::MovImm { dst, imm }
    } else if s.op == opcode::MOV_REG {
        BpfInsn::MovReg { dst, src }
    } else if s.op == opcode::ADD_IMM {
        BpfInsn::AddImm { dst, imm }
    } else if s.op == opcode::ADD_REG {
        BpfInsn::AddReg { dst, src }
    } else if s.op == opcode::SUB_IMM {
        BpfInsn::SubImm { dst, imm }
    } else if s.op == opcode::SUB_REG {
        BpfInsn::SubReg { dst, src }
    } else if s.op == opcode::AND_IMM {
        BpfInsn::AndImm { dst, imm }
    } else if s.op == opcode::AND_REG {
        BpfInsn::AndReg { dst, src }
    } else if s.op == opcode::OR_IMM {
        BpfInsn::OrImm { dst, imm }
    } else if s.op == opcode::OR_REG {
        BpfInsn::OrReg { dst, src }
    } else if s.op == opcode::XOR_IMM {
        BpfInsn::XorImm { dst, imm }
    } else if s.op == opcode::XOR_REG {
        BpfInsn::XorReg { dst, src }
    } else if s.op == opcode::LSH_IMM {
        BpfInsn::LshImm { dst, imm }
    } else if s.op == opcode::LSH_REG {
        BpfInsn::LshReg { dst, src }
    } else if s.op == opcode::RSH_IMM {
        BpfInsn::RshImm { dst, imm }
    } else if s.op == opcode::RSH_REG {
        BpfInsn::RshReg { dst, src }
    } else if s.op == opcode::ARSH_IMM {
        BpfInsn::ArshImm { dst, imm }
    } else if s.op == opcode::ARSH_REG {
        BpfInsn::ArshReg { dst, src }
    } else if s.op == opcode::ADD32_IMM {
        BpfInsn::Add32Imm { dst, imm }
    } else if s.op == opcode::ADD32_REG {
        BpfInsn::Add32Reg { dst, src }
    } else if s.op == opcode::SUB32_IMM {
        BpfInsn::Sub32Imm { dst, imm }
    } else if s.op == opcode::SUB32_REG {
        BpfInsn::Sub32Reg { dst, src }
    } else if s.op == opcode::AND32_IMM {
        BpfInsn::And32Imm { dst, imm }
    } else if s.op == opcode::AND32_REG {
        BpfInsn::And32Reg { dst, src }
    } else if s.op == opcode::OR32_IMM {
        BpfInsn::Or32Imm { dst, imm }
    } else if s.op == opcode::OR32_REG {
        BpfInsn::Or32Reg { dst, src }
    } else if s.op == opcode::XOR32_IMM {
        BpfInsn::Xor32Imm { dst, imm }
    } else if s.op == opcode::XOR32_REG {
        BpfInsn::Xor32Reg { dst, src }
    } else if s.op == opcode::LSH32_IMM {
        BpfInsn::Lsh32Imm { dst, imm }
    } else if s.op == opcode::LSH32_REG {
        BpfInsn::Lsh32Reg { dst, src }
    } else if s.op == opcode::RSH32_IMM {
        BpfInsn::Rsh32Imm { dst, imm }
    } else if s.op == opcode::RSH32_REG {
        BpfInsn::Rsh32Reg { dst, src }
    } else if s.op == opcode::ARSH32_IMM {
        BpfInsn::Arsh32Imm { dst, imm }
    } else {
        BpfInsn::Arsh32Reg { dst, src }
    }
}

/// The compare of a slot.
proof fn compare_witness(s: Slot) -> (i: BpfInsn)
    requires
        is_compare_op(s.op),
        !source_reserved(s),
    ensures
        i.is_single(),
        i.slot() == s,
{
    reveal(BpfInsn::slot);
    let dst = s.dst;
    let src = s.src;
    let imm = s.imm;
    let offset = s.off;
    if s.op == opcode::JEQ {
        BpfInsn::Jeq { dst, src, offset }
    } else if s.op == opcode::JNE {
        BpfInsn::Jne { dst, src, offset }
    } else if s.op == opcode::JGT {
        BpfInsn::Jgt { dst, src, offset }
    } else if s.op == opcode::JGE {
        BpfInsn::Jge { dst, src, offset }
    } else if s.op == opcode::JLT {
        BpfInsn::Jlt { dst, src, offset }
    } else if s.op == opcode::JLE {
        BpfInsn::Jle { dst, src, offset }
    } else if s.op == opcode::JSGT {
        BpfInsn::Jsgt { dst, src, offset }
    } else if s.op == opcode::JSGE {
        BpfInsn::Jsge { dst, src, offset }
    } else if s.op == opcode::JSLT {
        BpfInsn::Jslt { dst, src, offset }
    } else if s.op == opcode::JSLE {
        BpfInsn::Jsle { dst, src, offset }
    } else if s.op == opcode::JEQ_IMM {
        BpfInsn::JeqImm { dst, imm, offset }
    } else if s.op == opcode::JNE_IMM {
        BpfInsn::JneImm { dst, imm, offset }
    } else if s.op == opcode::JGT_IMM {
        BpfInsn::JgtImm { dst, imm, offset }
    } else if s.op == opcode::JGE_IMM {
        BpfInsn::JgeImm { dst, imm, offset }
    } else if s.op == opcode::JLT_IMM {
        BpfInsn::JltImm { dst, imm, offset }
    } else if s.op == opcode::JLE_IMM {
        BpfInsn::JleImm { dst, imm, offset }
    } else if s.op == opcode::JSGT_IMM {
        BpfInsn::JsgtImm { dst, imm, offset }
    } else if s.op == opcode::JSGE_IMM {
        BpfInsn::JsgeImm { dst, imm, offset }
    } else if s.op == opcode::JSLT_IMM {
        BpfInsn::JsltImm { dst, imm, offset }
    } else {
        BpfInsn::JsleImm { dst, imm, offset }
    }
}

/// Every slot that is not rejected encodes an instruction.
proof fn lemma_slot_decodable(s: Slot)
    requires
        slot_error(s) is None,
    ensures
        exists|i: BpfInsn| i.is_single() && #[trigger] i.slot() == canonical(s),
{
    let i = if is_alu_op(s.op) {
        alu_witness(s)
    } else if is_compare_op(s.op) {
        compare_witness(s)
    } else if s.op == opcode::JMP {
        BpfInsn::Jmp { offset: s.off }
    } else if s.op == opcode::CALL {
        if s.src == 0 {
            BpfInsn::Call { imm: s.imm }
        } else if s.src == 1 {
            BpfInsn::CallSub { offset: s.imm }
        } else {
            BpfInsn::CallKfunc { btf_id: s.imm }
        }
    } else if s.op == opcode::EXIT {
        BpfInsn::Exit
    } else {
        let code = s.op / 8 % 4;
        let size = if code == 0 {
            MemSize::W
        } else if code == 1 {
            MemSize::H
        } else if code == 2 {
            MemSize::B
        } else {
            MemSize::DW
        };
        if s.op % 8 == 1 {
            BpfInsn::LdMem {
                dst: s.dst,
                base: s.src,
                offset: s.off,
                size,
                sign_extend: s.op / 32 == 4,
            }
        } else if s.op % 8 == 2 {
            BpfInsn::StMemImm { imm: s.imm, base: s.dst, offset: s.off, size }
        } else {
            BpfInsn::StMem { src: s.src, base: s.dst, offset: s.off, size }
        }
    };
    assert(i.is_single() && i.slot() == canonical(s)) by {
        reveal(BpfInsn::slot);
    }
}

/// The first slot of a wide load does not decode alone.
pub proof fn lemma_decode_slot_alone(s: Slot)
    requires
        decode_slot(s) is Ok,
    ensures
        s.op != opcode::LD_IMM64,
{
    reveal(decode_slot);
}

/// What a slot decodes to is a single-slot instruction over R0 to R10.
pub proof fn lemma_decode_slot_valid(s: Slot)
    requires
        decode_slot(s) is Ok,
    ensures
        decode_slot(s)->Ok_0.is_single(),
        decode_slot(s)->Ok_0.regs_valid(),
        decode_slot(s)->Ok_0.slot() == canonical(s),
{
    reveal(decode_slot);
    lemma_slot_decodable(s);
}

/// Whether `op` is an implemented ALU opcode.
pub fn alu_op(op: u8) -> (b: bool)
    ensures
        b == is_alu_op(op),
{
    let operation: u8 = op / 16;
    ((op % 8 == 7 || op % 8 == 4) && (operation <= 1 || (4 <= operation && operation <= 7)
        || operation == 0xa || operation == 0xc)) || (op % 8 == 7 && operation == 0xb)
}

/// Whether `op` is a compare opcode.
pub fn compare_op(op: u8) -> (b: bool)
    ensures
        b == is_compare_op(op),
{
    let operation: u8 = op / 16;
    op % 8 == 5 && ((1 <= operation && operation <= 3) || (5 <= operation && operation <= 7) || (0xa
        <= operation && operation <= 0xd))
}

/// Whether `op` is a memory access opcode.
pub fn mem_op(op: u8) -> (b: bool)
    ensures
        b == is_mem_op(op),
{
    (op / 32 == 3 && 1 <= op % 8 && op % 8 <= 3) || (op / 32 == 4 && op % 8 == 1)
}

/// Is `op` one of the implemented ALU opcodes?
fn is_supported_alu(op: u8) -> (b: bool)
    ensures
        b == is_alu_op(op),
{
    match op {
        opcode::MOV_IMM
        | opcode::MOV_REG
        | opcode::ADD_IMM
        | opcode::ADD_REG
        | opcode::SUB_IMM
        | opcode::SUB_REG
        | opcode::AND_IMM
        | opcode::AND_REG
        | opcode::OR_IMM
        | opcode::OR_REG
        | opcode::XOR_IMM
        | opcode::XOR_REG
        | opcode::LSH_IMM
        | opcode::LSH_REG
        | opcode::RSH_IMM
        | opcode::RSH_REG
        | opcode::ARSH_IMM
        | opcode::ARSH_REG
        | opcode::ADD32_IMM
        | opcode::ADD32_REG
        | opcode::SUB32_IMM
        | opcode::SUB32_REG
        | opcode::AND32_IMM
        | opcode::AND32_REG
        | opcode::OR32_IMM
        | opcode::OR32_REG
        | opcode::XOR32_IMM
        | opcode::XOR32_REG
        | opcode::LSH32_IMM
        | opcode::LSH32_REG
        | opcode::RSH32_IMM
        | opcode::RSH32_REG
        | opcode::ARSH32_IMM
        | opcode::ARSH32_REG => true,
        _ => false,
    }
}

/// Reason for rejecting a valid kernel opcode that is not implemented.
fn unsupported_reason(op: u8) -> (reason: Option<&'static str>)
    ensures
        reason == unsupported(op),
{
    match op % 8 {
        0 => Some("BPF_LD legacy absolute/indirect loads are not implemented"),
        2 => Some("BPF_ST (store-immediate) is not implemented"),
        6 => Some("BPF_JMP32 (32-bit compares) is not implemented"),
        1 => Some("only 8-byte loads from the stack frame are implemented"),
        3 => Some("only 8-byte stores to the stack frame are implemented"),
        5 => match op {
            0x45 | 0x4d => Some("BPF_JSET is not implemented"),
            0x0d => Some("indirect jumps (BPF_JA|BPF_X) are not implemented"),
            _ => None,
        },
        _ => match op / 16 {
            2 | 3 | 9 => Some("MUL/DIV/MOD are not implemented"),
            8 => Some("BPF_NEG is not implemented"),
            0xd => Some("BPF_END is not implemented"),
            0xb => Some("32-bit MOV (BPF_ALU | BPF_MOV) is not implemented"),
            _ => None,
        },
    }
}

/// The ALU instruction of a slot whose fields obey its form.
fn alu_insn(s: Slot) -> (i: BpfInsn)
    requires
        is_alu_op(s.op),
        !source_reserved(s),
        s.off == 0,
    ensures
        i.is_single(),
        i.slot() == s,
{
    reveal(BpfInsn::slot);
    let dst: u8 = s.dst;
    let src: u8 = s.src;
    let imm: i32 = s.imm;
    match s.op {
        opcode::MOV_IMM => BpfInsn::MovImm { dst, imm },
        opcode::MOV_REG => BpfInsn::MovReg { dst, src },
        opcode::ADD_IMM => BpfInsn::AddImm { dst, imm },
        opcode::ADD_REG => BpfInsn::AddReg { dst, src },
        opcode::SUB_IMM => BpfInsn::SubImm { dst, imm },
        opcode::SUB_REG => BpfInsn::SubReg { dst, src },
        opcode::AND_IMM => BpfInsn::AndImm { dst, imm },
        opcode::AND_REG => BpfInsn::AndReg { dst, src },
        opcode::OR_IMM => BpfInsn::OrImm { dst, imm },
        opcode::OR_REG => BpfInsn::OrReg { dst, src },
        opcode::XOR_IMM => BpfInsn::XorImm { dst, imm },
        opcode::XOR_REG => BpfInsn::XorReg { dst, src },
        opcode::LSH_IMM => BpfInsn::LshImm { dst, imm },
        opcode::LSH_REG => BpfInsn::LshReg { dst, src },
        opcode::RSH_IMM => BpfInsn::RshImm { dst, imm },
        opcode::RSH_REG => BpfInsn::RshReg { dst, src },
        opcode::ARSH_IMM => BpfInsn::ArshImm { dst, imm },
        opcode::ARSH_REG => BpfInsn::ArshReg { dst, src },
        opcode::ADD32_IMM => BpfInsn::Add32Imm { dst, imm },
        opcode::ADD32_REG => BpfInsn::Add32Reg { dst, src },
        opcode::SUB32_IMM => BpfInsn::Sub32Imm { dst, imm },
        opcode::SUB32_REG => BpfInsn::Sub32Reg { dst, src },
        opcode::AND32_IMM => BpfInsn::And32Imm { dst, imm },
        opcode::AND32_REG => BpfInsn::And32Reg { dst, src },
        opcode::OR32_IMM => BpfInsn::Or32Imm { dst, imm },
        opcode::OR32_REG => BpfInsn::Or32Reg { dst, src },
        opcode::XOR32_IMM => BpfInsn::Xor32Imm { dst, imm },
        opcode::XOR32_REG => BpfInsn::Xor32Reg { dst, src },
        opcode::LSH32_IMM => BpfInsn::Lsh32Imm { dst, imm },
        opcode::LSH32_REG => BpfInsn::Lsh32Reg { dst, src },
        opcode::RSH32_IMM => BpfInsn::Rsh32Imm { dst, imm },
        opcode::RSH32_REG => BpfInsn::Rsh32Reg { dst, src },
        opcode::ARSH32_IMM => BpfInsn::Arsh32Imm { dst, imm },
        _ => BpfInsn::Arsh32Reg { dst, src },
    }
}

/// The compare of a slot whose fields obey its form.
fn compare_insn(s: Slot) -> (i: BpfInsn)
    requires
        is_compare_op(s.op),
        !source_reserved(s),
    ensures
        i.is_single(),
        i.slot() == s,
{
    reveal(BpfInsn::slot);
    let dst: u8 = s.dst;
    let src: u8 = s.src;
    let offset: i16 = s.off;
    let imm: i32 = s.imm;
    match s.op {
        opcode::JEQ => BpfInsn::Jeq { dst, src, offset },
        opcode::JNE => BpfInsn::Jne { dst, src, offset },
        opcode::JGT => BpfInsn::Jgt { dst, src, offset },
        opcode::JGE => BpfInsn::Jge { dst, src, offset },
        opcode::JLT => BpfInsn::Jlt { dst, src, offset },
        opcode::JLE => BpfInsn::Jle { dst, src, offset },
        opcode::JSGT => BpfInsn::Jsgt { dst, src, offset },
        opcode::JSGE => BpfInsn::Jsge { dst, src, offset },
        opcode::JSLT => BpfInsn::Jslt { dst, src, offset },
        opcode::JSLE => BpfInsn::Jsle { dst, src, offset },
        opcode::JEQ_IMM => BpfInsn::JeqImm { dst, imm, offset },
        opcode::JNE_IMM => BpfInsn::JneImm { dst, imm, offset },
        opcode::JGT_IMM => BpfInsn::JgtImm { dst, imm, offset },
        opcode::JGE_IMM => BpfInsn::JgeImm { dst, imm, offset },
        opcode::JLT_IMM => BpfInsn::JltImm { dst, imm, offset },
        opcode::JLE_IMM => BpfInsn::JleImm { dst, imm, offset },
        opcode::JSGT_IMM => BpfInsn::JsgtImm { dst, imm, offset },
        opcode::JSGE_IMM => BpfInsn::JsgeImm { dst, imm, offset },
        opcode::JSLT_IMM => BpfInsn::JsltImm { dst, imm, offset },
        _ => BpfInsn::JsleImm { dst, imm, offset },
    }
}

/// The memory access of a slot.
fn mem_insn(s: Slot) -> (i: BpfInsn)
    requires
        is_mem_op(s.op),
        s.imm == 0 || s.op % 8 == 2,
    ensures
        i.is_single(),
        i.slot() == canonical(s),
{
    reveal(BpfInsn::slot);
    let size: MemSize = match s.op / 8 % 4 {
        0 => MemSize::W,
        1 => MemSize::H,
        2 => MemSize::B,
        _ => MemSize::DW,
    };
    match s.op % 8 {
        1 => BpfInsn::LdMem {
            dst: s.dst,
            base: s.src,
            offset: s.off,
            size,
            sign_extend: s.op / 32 == 4,
        },
        2 => BpfInsn::StMemImm { imm: s.imm, base: s.dst, offset: s.off, size },
        _ => BpfInsn::StMem { src: s.src, base: s.dst, offset: s.off, size },
    }
}

/// Decode one 8-byte instruction.
///
/// The checks come in the kernel's order: register range first, then the
/// reserved fields of a known opcode, then the opcode. Valid kernel opcodes
/// that are not implemented are rejected as unsupported. A two-slot load is
/// truncated when it stands alone.
pub fn parse_insn(bytes: &[u8]) -> (r: Result<BpfInsn, DecodeError>)
    requires
        bytes@.len() >= 8,
    ensures
        r == decode_slot(Slot::of(bytes@.take(8))),
        match r {
            Ok(i) => i.is_single() && i.regs_valid() && i.slot() == canonical(
                Slot::of(bytes@.take(8)),
            ),
            Err(e) => slot_error(Slot::of(bytes@.take(8))) == Some(e),
        },
{
    reveal(decode_slot);
    let s: Slot = Slot::read(bytes);
    if s.dst > 10 {
        return Err(DecodeError::InvalidRegister { reg: s.dst });
    }
    if s.src > 10 {
        return Err(DecodeError::InvalidRegister { reg: s.src });
    }
    let is_x: bool = s.op / 8 % 2 == 1;
    let source_ok: bool = if is_x { s.imm == 0 } else { s.src == 0 };
    let insn: BpfInsn = match s.op {
        op if is_supported_alu(op) => {
            if !source_ok || s.off != 0 {
                let message: &'static str = if op == opcode::MOV_IMM || op == opcode::MOV_REG {
                    "BPF_MOV uses reserved fields"
                } else {
                    "BPF_ALU uses reserved fields"
                };
                return Err(DecodeError::ReservedFields { message });
            }
            alu_insn(s)
        },
        opcode::JEQ
        | opcode::JNE
        | opcode::JGT
        | opcode::JGE
        | opcode::JLT
        | opcode::JLE
        | opcode::JSGT
        | opcode::JSGE
        | opcode::JSLT
        | opcode::JSLE
        | opcode::JEQ_IMM
        | opcode::JNE_IMM
        | opcode::JGT_IMM
        | opcode::JGE_IMM
        | opcode::JLT_IMM
        | opcode::JLE_IMM
        | opcode::JSGT_IMM
        | opcode::JSGE_IMM
        | opcode::JSLT_IMM
        | opcode::JSLE_IMM => {
            if !source_ok {
                return Err(DecodeError::ReservedFields { message: "BPF_JMP uses reserved fields" });
            }
            compare_insn(s)
        },
        opcode::JMP => {
            if s.src != 0 || s.dst != 0 || s.imm != 0 {
                return Err(DecodeError::ReservedFields { message: "BPF_JA uses reserved fields" });
            }
            reveal(BpfInsn::slot);
            BpfInsn::Jmp { offset: s.off }
        },
        // dst_reg and off are reserved; src_reg selects helper, subprogram
        // or kernel function
        opcode::CALL => {
            if s.dst != 0 || s.off != 0 || s.src > 2 {
                return Err(DecodeError::ReservedFields { message: "BPF_CALL uses reserved fields" });
            }
            reveal(BpfInsn::slot);
            match s.src {
                0 => BpfInsn::Call { imm: s.imm },
                1 => BpfInsn::CallSub { offset: s.imm },
                _ => BpfInsn::CallKfunc { btf_id: s.imm },
            }
        },
        opcode::EXIT => {
            if s.src != 0 || s.dst != 0 || s.imm != 0 {
                return Err(DecodeError::ReservedFields { message: "BPF_EXIT uses reserved fields" });
            }
            reveal(BpfInsn::slot);
            BpfInsn::Exit
        },
        opcode::LD_IMM64 => {
            return Err(DecodeError::LdImm64Truncated);
        },
        op if (op / 32 == 3 && 1 <= op % 8 && op % 8 <= 3) || (op / 32 == 4 && op % 8 == 1) => {
            if s.imm != 0 && op % 8 != 2 {
                return Err(
                    DecodeError::ReservedFields { message: "memory access uses reserved fields" },
                );
            }
            mem_insn(s)
        },
        op => {
            return match unsupported_reason(op) {
                Some(reason) => Err(DecodeError::Unsupported { op, reason }),
                None => Err(DecodeError::UnknownOpcode { op }),
            };
        },
    };
    proof {
        assert(insn.slot() == canonical(s));
        let j = choose|j: BpfInsn| j.is_single() && #[trigger] j.slot() == canonical(s);
        slot_injective(insn, j);
    }
    Ok(insn)
}

// ── The decoding of a two-slot load and of a program ────────────────────────

/// What the two slots of a wide load decode to. The source field of the
/// first selects a constant, a map or an address inside a map's value.
#[verifier::opaque]
pub open spec fn decode_pair(first: Slot, second: Slot) -> Result<BpfInsn, DecodeError> {
    let lo = slot::unsigned32(first.imm);
    let hi = slot::unsigned32(second.imm);
    if first.dst > 10 {
        Err(DecodeError::InvalidRegister { reg: first.dst })
    } else if first.off != 0 {
        Err(DecodeError::ReservedFields { message: "BPF_LD uses reserved fields" })
    } else if second.op != 0 || second.dst != 0 || second.src != 0 || second.off != 0 {
        Err(DecodeError::ReservedFields { message: "invalid second part of bpf_ldimm64 insn" })
    } else if first.src == 0 {
        Ok(BpfInsn::LdImm64 { dst: first.dst, imm: (hi * 0x1_0000_0000 + lo) as u64 })
    } else if first.src == opcode::PSEUDO_MAP_FD {
        if hi != 0 {
            Err(
                DecodeError::ReservedFields {
                    message: "BPF_PSEUDO_MAP_FD uses the second slot as a reserved field",
                },
            )
        } else {
            Ok(
                BpfInsn::LdMapFd {
                    dst: first.dst,
                    fd: lo as u32,
                    key_size: 0,
                    value_size: 0,
                    map_type: 0,
                },
            )
        }
    } else if first.src == opcode::PSEUDO_MAP_VALUE {
        Ok(
            BpfInsn::LdMapValue {
                dst: first.dst,
                fd: lo as u32,
                offset: hi as u32,
                key_size: 0,
                value_size: 0,
            },
        )
    } else {
        Err(DecodeError::Unsupported { op: 0x18, reason: "unknown ldimm64 pseudo class" })
    }
}

/// Decode a two-slot load. The map forms carry sizes that the program loader
/// fills in from the map registry; decoding yields 0.
pub fn parse_ldimm64(first: &[u8], second: &[u8]) -> (r: Result<BpfInsn, DecodeError>)
    requires
        first@.len() == 8,
        second@.len() == 8,
    ensures
        r == decode_pair(Slot::of(first@), Slot::of(second@)),
        r is Ok ==> r->Ok_0.is_wide() && r->Ok_0.regs_valid(),
{
    proof {
        reveal(decode_pair);
        assert(first@.take(8) == first@);
        assert(second@.take(8) == second@);
    }
    let s: Slot = Slot::read(first);
    let t: Slot = Slot::read(second);
    let imm_lo: u32 = to_u32(s.imm);
    let imm_hi: u32 = to_u32(t.imm);
    let dst: u8 = s.dst;
    if dst > 10 {
        return Err(DecodeError::InvalidRegister { reg: dst });
    }
    if s.off != 0 {
        return Err(DecodeError::ReservedFields { message: "BPF_LD uses reserved fields" });
    }
    if t.op != 0 || t.dst != 0 || t.src != 0 || t.off != 0 {
        return Err(
            DecodeError::ReservedFields { message: "invalid second part of bpf_ldimm64 insn" },
        );
    }
    reveal(BpfInsn::slot);
    match s.src {
        0 => Ok(BpfInsn::LdImm64 { dst, imm: imm_hi as u64 * 0x1_0000_0000 + imm_lo as u64 }),
        opcode::PSEUDO_MAP_FD => {
            if imm_hi != 0 {
                return Err(
                    DecodeError::ReservedFields {
                        message: "BPF_PSEUDO_MAP_FD uses the second slot as a reserved field",
                    },
                );
            }
            Ok(BpfInsn::LdMapFd { dst, fd: imm_lo, key_size: 0, value_size: 0, map_type: 0 })
        },
        opcode::PSEUDO_MAP_VALUE => Ok(
            BpfInsn::LdMapValue { dst, fd: imm_lo, offset: imm_hi, key_size: 0, value_size: 0 },
        ),
        _ => Err(DecodeError::Unsupported { op: 0x18, reason: "unknown ldimm64 pseudo class" }),
    }
}

/// The two slots of a wide load are written with the opcodes that they have.
pub proof fn lemma_pair_ops(first: Slot, second: Slot)
    requires
        decode_pair(first, second) is Ok,
    ensures
        decode_pair(first, second)->Ok_0.is_wide(),
        decode_pair(first, second)->Ok_0.slot().op == opcode::LD_IMM64,
        second_marker(second).slot().op == 0,
{
    reveal(BpfInsn::slot);
    reveal(decode_pair);
}

/// The bytes of the `i`-th slot of a program.
pub open spec fn slot_bytes_at(bytes: Seq<u8>, i: int) -> Seq<u8> {
    bytes.subrange(8 * i, 8 * i + 8)
}

/// The marker of the second slot of a wide load.
pub open spec fn second_marker(second: Slot) -> BpfInsn {
    BpfInsn::LdImm64Second { imm_hi: slot::unsigned32(second.imm) as u32 }
}

/// Puts the instructions `head` in front of a decoded rest.
pub open spec fn prepend(
    head: Seq<BpfInsn>,
    rest: Result<Seq<BpfInsn>, (int, DecodeError)>,
) -> Result<Seq<BpfInsn>, (int, DecodeError)> {
    match rest {
        Ok(tail) => Ok(head + tail),
        Err(e) => Err(e),
    }
}

/// What the slots from `idx` on decode to: the instructions in order, or the
/// first slot that is rejected, with its rejection. Bytes behind the last
/// whole slot are ignored.
pub open spec fn decode_from(bytes: Seq<u8>, idx: int) -> Result<
    Seq<BpfInsn>,
    (int, DecodeError),
>
    decreases bytes.len() / 8 - idx,
{
    let count = bytes.len() / 8;
    let first = Slot::of(slot_bytes_at(bytes, idx));
    let second = Slot::of(slot_bytes_at(bytes, idx + 1));
    if idx >= count {
        Ok(seq![])
    } else if first.op == opcode::LD_IMM64 {
        if idx + 1 >= count {
            Err((idx, DecodeError::LdImm64Truncated))
        } else {
            match decode_pair(first, second) {
                Ok(i) => prepend(seq![i, second_marker(second)], decode_from(bytes, idx + 2)),
                Err(e) => Err((idx, e)),
            }
        }
    } else {
        match decode_slot(first) {
            Ok(i) => prepend(seq![i], decode_from(bytes, idx + 1)),
            Err(e) => Err((idx, e)),
        }
    }
}

/// Whether a decoding result is what a specification says.
pub open spec fn decodes_to(
    r: Result<Vec<BpfInsn>, (usize, DecodeError)>,
    expected: Result<Seq<BpfInsn>, (int, DecodeError)>,
) -> bool {
    match r {
        Ok(insns) => expected == Ok::<Seq<BpfInsn>, (int, DecodeError)>(insns@),
        Err(e) => expected == Err::<Seq<BpfInsn>, (int, DecodeError)>((e.0 as int, e.1)),
    }
}

/// Decode a whole program. A wide load decodes to the instruction and a
/// marker for its second slot, so that branch offsets stay in slot units. The
/// first decode error stops the decoding and carries the failing slot index.
pub fn decode_program(bytes: &[u8]) -> (r: Result<Vec<BpfInsn>, (usize, DecodeError)>)
    ensures
        decodes_to(r, decode_from(bytes@, 0)),
{
    let mut insns: Vec<BpfInsn> = Vec::new();
    let mut idx: usize = 0;
    let count: usize = bytes.len() / 8;
    proof {
        assert(prepend(insns@, decode_from(bytes@, 0)) == decode_from(bytes@, 0)) by {
            if let Ok(tail) = decode_from(bytes@, 0) {
                assert(insns@ + tail == tail);
            }
        }
    }
    while idx < count
        invariant
            count == bytes@.len() / 8,
            idx <= count,
            bytes@.len() <= usize::MAX,
            prepend(insns@, decode_from(bytes@, idx as int)) == decode_from(bytes@, 0),
        decreases count - idx,
    {
        let ghost before = insns@;
        let first: &[u8] = vstd::slice::slice_subrange(bytes, 8 * idx, 8 * idx + 8);
        proof {
            assert(first@ == slot_bytes_at(bytes@, idx as int));
            assert(first@.take(8) == first@);
        }
        if Slot::read(first).op == opcode::LD_IMM64 {
            if idx + 1 >= count {
                return Err((idx, DecodeError::LdImm64Truncated));
            }
            let second: &[u8] = vstd::slice::slice_subrange(bytes, 8 * idx + 8, 8 * idx + 16);
            proof {
                assert(second@ == slot_bytes_at(bytes@, idx + 1));
                assert(second@.take(8) == second@);
            }
            match parse_ldimm64(first, second) {
                Ok(insn) => {
                    let imm_hi: u32 = to_u32(Slot::read(second).imm);
                    let ghost head = seq![insn, BpfInsn::LdImm64Second { imm_hi }];
                    insns.push(insn);
                    insns.push(BpfInsn::LdImm64Second { imm_hi });
                    proof {
                        lemma_prepend_assoc(before, head, decode_from(bytes@, idx + 2));
                        assert(before + head == insns@);
                    }
                },
                Err(e) => {
                    return Err((idx, e));
                },
            }
            idx = idx + 2;
        } else {
            match parse_insn(first) {
                Ok(insn) => {
                    let ghost head = seq![insn];
                    insns.push(insn);
                    proof {
                        lemma_prepend_assoc(before, head, decode_from(bytes@, idx + 1));
                        assert(before + head == insns@);
                    }
                },
                Err(e) => {
                    return Err((idx, e));
                },
            }
            idx = idx + 1;
        }
    }
    proof {
        assert(insns@ + Seq::<BpfInsn>::empty() == insns@);
    }
    Ok(insns)
}

proof fn lemma_prepend_assoc(
    a: Seq<BpfInsn>,
    b: Seq<BpfInsn>,
    rest: Result<Seq<BpfInsn>, (int, DecodeError)>,
)
    ensures
        prepend(a, prepend(b, rest)) == prepend(a + b, rest),
{
    if let Ok(tail) = rest {
        assert(a + (b + tail) == (a + b) + tail);
    }
}

// ── The encoder ─────────────────────────────────────────────────────────────

/// The two-bit size code of an access.
fn size_code(size: MemSize) -> (c: u8)
    ensures
        c == size.code(),
{
    match size {
        MemSize::W => 0,
        MemSize::H => 1,
        MemSize::B => 2,
        MemSize::DW => 3,
    }
}

/// The slot of an instruction.
pub fn slot_of(insn: &BpfInsn) -> (s: Slot)
    ensures
        s == insn.slot(),
{
    reveal(BpfInsn::slot);
    match *insn {
        BpfInsn::MovImm { dst, imm } => Slot { op: opcode::MOV_IMM, dst, src: 0, off: 0, imm },
        BpfInsn::MovReg { dst, src } => Slot { op: opcode::MOV_REG, dst, src, off: 0, imm: 0 },
        BpfInsn::AddImm { dst, imm } => Slot { op: opcode::ADD_IMM, dst, src: 0, off: 0, imm },
        BpfInsn::AddReg { dst, src } => Slot { op: opcode::ADD_REG, dst, src, off: 0, imm: 0 },
        BpfInsn::SubImm { dst, imm } => Slot { op: opcode::SUB_IMM, dst, src: 0, off: 0, imm },
        BpfInsn::SubReg { dst, src } => Slot { op: opcode::SUB_REG, dst, src, off: 0, imm: 0 },
        BpfInsn::AndImm { dst, imm } => Slot { op: opcode::AND_IMM, dst, src: 0, off: 0, imm },
        BpfInsn::AndReg { dst, src } => Slot { op: opcode::AND_REG, dst, src, off: 0, imm: 0 },
        BpfInsn::OrImm { dst, imm } => Slot { op: opcode::OR_IMM, dst, src: 0, off: 0, imm },
        BpfInsn::OrReg { dst, src } => Slot { op: opcode::OR_REG, dst, src, off: 0, imm: 0 },
        BpfInsn::XorImm { dst, imm } => Slot { op: opcode::XOR_IMM, dst, src: 0, off: 0, imm },
        BpfInsn::XorReg { dst, src } => Slot { op: opcode::XOR_REG, dst, src, off: 0, imm: 0 },
        BpfInsn::LshImm { dst, imm } => Slot { op: opcode::LSH_IMM, dst, src: 0, off: 0, imm },
        BpfInsn::LshReg { dst, src } => Slot { op: opcode::LSH_REG, dst, src, off: 0, imm: 0 },
        BpfInsn::RshImm { dst, imm } => Slot { op: opcode::RSH_IMM, dst, src: 0, off: 0, imm },
        BpfInsn::RshReg { dst, src } => Slot { op: opcode::RSH_REG, dst, src, off: 0, imm: 0 },
        BpfInsn::ArshImm { dst, imm } => Slot { op: opcode::ARSH_IMM, dst, src: 0, off: 0, imm },
        BpfInsn::ArshReg { dst, src } => Slot { op: opcode::ARSH_REG, dst, src, off: 0, imm: 0 },
        BpfInsn::Add32Imm { dst, imm } => Slot { op: opcode::ADD32_IMM, dst, src: 0, off: 0, imm },
        BpfInsn::Add32Reg { dst, src } => Slot { op: opcode::ADD32_REG, dst, src, off: 0, imm: 0 },
        BpfInsn::Sub32Imm { dst, imm } => Slot { op: opcode::SUB32_IMM, dst, src: 0, off: 0, imm },
        BpfInsn::Sub32Reg { dst, src } => Slot { op: opcode::SUB32_REG, dst, src, off: 0, imm: 0 },
        BpfInsn::And32Imm { dst, imm } => Slot { op: opcode::AND32_IMM, dst, src: 0, off: 0, imm },
        BpfInsn::And32Reg { dst, src } => Slot { op: opcode::AND32_REG, dst, src, off: 0, imm: 0 },
        BpfInsn::Or32Imm { dst, imm } => Slot { op: opcode::OR32_IMM, dst, src: 0, off: 0, imm },
        BpfInsn::Or32Reg { dst, src } => Slot { op: opcode::OR32_REG, dst, src, off: 0, imm: 0 },
        BpfInsn::Xor32Imm { dst, imm } => Slot { op: opcode::XOR32_IMM, dst, src: 0, off: 0, imm },
        BpfInsn::Xor32Reg { dst, src } => Slot { op: opcode::XOR32_REG, dst, src, off: 0, imm: 0 },
        BpfInsn::Lsh32Imm { dst, imm } => Slot { op: opcode::LSH32_IMM, dst, src: 0, off: 0, imm },
        BpfInsn::Lsh32Reg { dst, src } => Slot { op: opcode::LSH32_REG, dst, src, off: 0, imm: 0 },
        BpfInsn::Rsh32Imm { dst, imm } => Slot { op: opcode::RSH32_IMM, dst, src: 0, off: 0, imm },
        BpfInsn::Rsh32Reg { dst, src } => Slot { op: opcode::RSH32_REG, dst, src, off: 0, imm: 0 },
        BpfInsn::Arsh32Imm { dst, imm } => Slot { op: opcode::ARSH32_IMM, dst, src: 0, off: 0, imm },
        BpfInsn::Arsh32Reg { dst, src } => Slot { op: opcode::ARSH32_REG, dst, src, off: 0, imm: 0 },
        BpfInsn::LdMem { dst, base, offset, size, sign_extend } => Slot {
            op: if sign_extend { 0x81 + 8 * size_code(size) } else { 0x61 + 8 * size_code(size) },
            dst,
            src: base,
            off: offset,
            imm: 0,
        },
        BpfInsn::StMem { src, base, offset, size } => Slot {
            op: 0x63 + 8 * size_code(size),
            dst: base,
            src,
            off: offset,
            imm: 0,
        },
        BpfInsn::StMemImm { imm, base, offset, size } => Slot {
            op: 0x62 + 8 * size_code(size),
            dst: base,
            src: 0,
            off: offset,
            imm,
        },
        BpfInsn::LdImm64 { dst, imm } => Slot {
            op: opcode::LD_IMM64,
            dst,
            src: 0,
            off: 0,
            imm: to_i32((imm % 0x1_0000_0000) as u32),
        },
        BpfInsn::LdMapFd { dst, fd, .. } => Slot {
            op: opcode::LD_IMM64,
            dst,
            src: opcode::PSEUDO_MAP_FD,
            off: 0,
            imm: to_i32(fd),
        },
        BpfInsn::LdMapValue { dst, fd, .. } => Slot {
            op: opcode::LD_IMM64,
            dst,
            src: opcode::PSEUDO_MAP_VALUE,
            off: 0,
            imm: to_i32(fd),
        },
        BpfInsn::LdImm64Second { imm_hi } => Slot {
            op: 0,
            dst: 0,
            src: 0,
            off: 0,
            imm: to_i32(imm_hi),
        },
        BpfInsn::Jeq { dst, src, offset } => Slot { op: opcode::JEQ, dst, src, off: offset, imm: 0 },
        BpfInsn::Jne { dst, src, offset } => Slot { op: opcode::JNE, dst, src, off: offset, imm: 0 },
        BpfInsn::Jgt { dst, src, offset } => Slot { op: opcode::JGT, dst, src, off: offset, imm: 0 },
        BpfInsn::Jge { dst, src, offset } => Slot { op: opcode::JGE, dst, src, off: offset, imm: 0 },
        BpfInsn::Jlt { dst, src, offset } => Slot { op: opcode::JLT, dst, src, off: offset, imm: 0 },
        BpfInsn::Jle { dst, src, offset } => Slot { op: opcode::JLE, dst, src, off: offset, imm: 0 },
        BpfInsn::Jsgt { dst, src, offset } => Slot { op: opcode::JSGT, dst, src, off: offset, imm: 0 },
        BpfInsn::Jsge { dst, src, offset } => Slot { op: opcode::JSGE, dst, src, off: offset, imm: 0 },
        BpfInsn::Jslt { dst, src, offset } => Slot { op: opcode::JSLT, dst, src, off: offset, imm: 0 },
        BpfInsn::Jsle { dst, src, offset } => Slot { op: opcode::JSLE, dst, src, off: offset, imm: 0 },
        BpfInsn::JeqImm { dst, imm, offset } => Slot { op: opcode::JEQ_IMM, dst, src: 0, off: offset, imm },
        BpfInsn::JneImm { dst, imm, offset } => Slot { op: opcode::JNE_IMM, dst, src: 0, off: offset, imm },
        BpfInsn::JgtImm { dst, imm, offset } => Slot { op: opcode::JGT_IMM, dst, src: 0, off: offset, imm },
        BpfInsn::JgeImm { dst, imm, offset } => Slot { op: opcode::JGE_IMM, dst, src: 0, off: offset, imm },
        BpfInsn::JltImm { dst, imm, offset } => Slot { op: opcode::JLT_IMM, dst, src: 0, off: offset, imm },
        BpfInsn::JleImm { dst, imm, offset } => Slot { op: opcode::JLE_IMM, dst, src: 0, off: offset, imm },
        BpfInsn::JsgtImm { dst, imm, offset } => Slot { op: opcode::JSGT_IMM, dst, src: 0, off: offset, imm },
        BpfInsn::JsgeImm { dst, imm, offset } => Slot { op: opcode::JSGE_IMM, dst, src: 0, off: offset, imm },
        BpfInsn::JsltImm { dst, imm, offset } => Slot { op: opcode::JSLT_IMM, dst, src: 0, off: offset, imm },
        BpfInsn::JsleImm { dst, imm, offset } => Slot { op: opcode::JSLE_IMM, dst, src: 0, off: offset, imm },
        BpfInsn::Jmp { offset } => Slot { op: opcode::JMP, dst: 0, src: 0, off: offset, imm: 0 },
        BpfInsn::Call { imm } => Slot { op: opcode::CALL, dst: 0, src: 0, off: 0, imm },
        BpfInsn::CallSub { offset } => Slot { op: opcode::CALL, dst: 0, src: 1, off: 0, imm: offset },
        BpfInsn::CallKfunc { btf_id } => Slot { op: opcode::CALL, dst: 0, src: 2, off: 0, imm: btf_id },
        BpfInsn::Exit => Slot { op: opcode::EXIT, dst: 0, src: 0, off: 0, imm: 0 },
    }
}

/// The bytes of a program: its slots one after the other.
pub open spec fn program_bytes(insns: Seq<BpfInsn>) -> Seq<u8> {
    Seq::new(8 * insns.len(), |k: int| insns[k / 8].slot().bytes()[k % 8])
}

/// A program in which every instruction names valid registers and every wide
/// load is followed by the marker that belongs to it, and no marker stands
/// elsewhere. Sizes that are filled in at load time are still 0.
pub open spec fn well_formed(insns: Seq<BpfInsn>) -> bool {
    forall|i: int| 0 <= i < insns.len() ==> well_formed_at(insns, i)
}

/// The part of [`well_formed`] that speaks of the `i`-th instruction.
pub open spec fn well_formed_at(insns: Seq<BpfInsn>, i: int) -> bool {
    let insn = insns[i];
    &&& insn.regs_valid()
    &&& insn.is_wide() ==> i + 1 < insns.len() && insns[i + 1] == marker_of(insn) && sizes_unset(
        insn,
    )
    &&& insn is LdImm64Second ==> 0 < i && insns[i - 1].is_wide()
}

/// The marker behind a wide load.
pub open spec fn marker_of(insn: BpfInsn) -> BpfInsn {
    let imm_hi: u32 = match insn {
        BpfInsn::LdImm64 { imm, .. } => (imm as int / 0x1_0000_0000) as u32,
        BpfInsn::LdMapValue { offset, .. } => offset,
        _ => 0,
    };
    BpfInsn::LdImm64Second { imm_hi }
}

/// The map sizes and the map type of a wide load are still 0.
pub open spec fn sizes_unset(insn: BpfInsn) -> bool {
    match insn {
        BpfInsn::LdMapFd { key_size, value_size, map_type, .. } => key_size == 0 && value_size == 0
            && map_type == 0,
        BpfInsn::LdMapValue { key_size, value_size, .. } => key_size == 0 && value_size == 0,
        _ => true,
    }
}

/// The `i`-th slot of an encoded program is the slot of its `i`-th
/// instruction.
pub proof fn lemma_program_slot(insns: Seq<BpfInsn>, i: int)
    requires
        0 <= i < insns.len(),
    ensures
        slot_bytes_at(program_bytes(insns), i) == insns[i].slot().bytes(),
{
    slot::lemma_slot_len(insns[i].slot());
    assert forall|k: int| 0 <= k < 8 implies program_bytes(insns).subrange(8 * i, 8 * i + 8)[k]
        == insns[i].slot().bytes()[k] by {
        assert((8 * i + k) / 8 == i && (8 * i + k) % 8 == k);
    }
    assert(slot_bytes_at(program_bytes(insns), i) =~= insns[i].slot().bytes());
}

/// The two slots of a wide load decode to that load.
proof fn lemma_decode_pair_inverse(insn: BpfInsn)
    requires
        insn.is_wide(),
        insn.regs_valid(),
        sizes_unset(insn),
    ensures
        insn.slot().fits(),
        marker_of(insn).slot().fits(),
        insn.slot().op == opcode::LD_IMM64,
        decode_pair(insn.slot(), marker_of(insn).slot()) == Ok::<BpfInsn, DecodeError>(insn),
        second_marker(marker_of(insn).slot()) == marker_of(insn),
{
    reveal(BpfInsn::slot);
    reveal(decode_pair);
}

/// Decoding the encoding of a well-formed program gives the program back,
/// from every instruction on that is no marker.
proof fn lemma_decode_encoded(insns: Seq<BpfInsn>, idx: int)
    requires
        well_formed(insns),
        0 <= idx <= insns.len(),
        idx < insns.len() ==> !(insns[idx] is LdImm64Second),
    ensures
        decode_from(program_bytes(insns), idx) == Ok::<Seq<BpfInsn>, (int, DecodeError)>(
            insns.skip(idx),
        ),
    decreases insns.len() - idx,
{
    let bytes = program_bytes(insns);
    assert(bytes.len() / 8 == insns.len());
    if idx < insns.len() {
        let insn = insns[idx];
        assert(well_formed_at(insns, idx));
        lemma_program_slot(insns, idx);
        if insn.is_wide() {
            let marker = insns[idx + 1];
            lemma_decode_pair_inverse(insn);
            slot::slot_round_trip(insn.slot());
            lemma_program_slot(insns, idx + 1);
            slot::slot_round_trip(marker.slot());
            if idx + 2 < insns.len() {
                assert(well_formed_at(insns, idx + 2));
            }
            lemma_decode_encoded(insns, idx + 2);
            assert(seq![insn, marker] + insns.skip(idx + 2) == insns.skip(idx));
        } else {
            lemma_slot_accepted(insn);
            decode_slot_inverse(insn);
            slot::slot_round_trip(insn.slot());
            if idx + 1 < insns.len() {
                assert(well_formed_at(insns, idx + 1));
            }
            lemma_decode_encoded(insns, idx + 1);
            assert(seq![insn] + insns.skip(idx + 1) == insns.skip(idx));
        }
    } else {
        assert(insns.skip(idx) == Seq::<BpfInsn>::empty());
    }
}

/// Encoding a well-formed program and decoding the bytes gives the program
/// back.
pub proof fn decode_inverts_encode(insns: Seq<BpfInsn>)
    requires
        well_formed(insns),
    ensures
        decode_from(program_bytes(insns), 0) == Ok::<Seq<BpfInsn>, (int, DecodeError)>(insns),
{
    if insns.len() > 0 {
        assert(well_formed_at(insns, 0));
    }
    lemma_decode_encoded(insns, 0);
    assert(insns.skip(0) == insns);
}

/// A slot that decodes, and that leaves the two ignored fields at zero, is
/// encoded back into the same bytes.
pub proof fn encode_inverts_decode(bytes: Seq<u8>, insn: BpfInsn)
    requires
        bytes.len() == 8,
        insn.is_single(),
        insn.slot() == canonical(Slot::of(bytes)),
        canonical(Slot::of(bytes)) == Slot::of(bytes),
    ensures
        insn.slot().bytes() == bytes,
{
    slot::bytes_round_trip(bytes);
}

} // verus!
