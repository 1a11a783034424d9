//! Typed building blocks of fuzz programs: builders that can only emit
//! decodable instructions, the encoder, and the pools of interesting values.

use vstd::prelude::*;

use crate::insn;
use crate::insn::{slot_of, BpfInsn, DecodeError, MemSize};
use crate::slot;
use crate::slot::Slot;

verus! {

// ── Encoder ─────────────────────────────────────────────────────────────────

/// Encode an instruction as its eight-byte slot (the first slot of a wide
/// load). Register forms leave the immediate at 0, immediate forms the source
/// register.
pub fn encode(insn: &BpfInsn) -> (bytes: [u8; 8])
    ensures
        bytes@ == insn.slot().bytes(),
{
    slot_of(insn).write()
}

/// Encode a program, slot by slot.
pub fn encode_program(insns: &[BpfInsn]) -> (bytes: Vec<u8>)
    ensures
        bytes@ == insn::program_bytes(insns@),
{
    let mut out: Vec<u8> = Vec::new();
    let mut i: usize = 0;
    while i < insns.len()
        invariant
            i <= insns@.len(),
            out@ == insn::program_bytes(insns@.take(i as int)),
        decreases insns@.len() - i,
    {
        let slot: [u8; 8] = encode(&insns[i]);
        let ghost before = out@;
        let mut k: usize = 0;
        proof {
            slot::lemma_slot_len(insns@[i as int].slot());
            assert(before + slot@.take(0) == before);
        }
        while k < 8
            invariant
                k <= 8,
                slot@.len() == 8,
                out@ == before + slot@.take(k as int),
            decreases 8 - k,
        {
            out.push(slot[k]);
            proof {
                assert(slot@.take(k + 1) == slot@.take(k as int).push(slot@[k as int]));
            }
            k = k + 1;
        }
        proof {
            assert(slot@.take(8) == slot@);
            lemma_program_push(insns@.take(i as int), insns@[i as int]);
            assert(insns@.take(i + 1) == insns@.take(i as int).push(insns@[i as int]));
        }
        i = i + 1;
    }
    proof {
        assert(insns@.take(i as int) == insns@);
    }
    out
}

/// Appending an instruction appends its slot.
pub proof fn lemma_program_push(insns: Seq<BpfInsn>, last: BpfInsn)
    ensures
        insn::program_bytes(insns.push(last)) == insn::program_bytes(insns) + last.slot().bytes(),
{
    slot::lemma_slot_len(last.slot());
    let all = insns.push(last);
    assert forall|k: int| 0 <= k < 8 * all.len() implies insn::program_bytes(all)[k] == (insn::program_bytes(
        insns,
    ) + last.slot().bytes())[k] by {
        if k < 8 * insns.len() {
            assert(k / 8 < insns.len());
        } else {
            assert(k / 8 == insns.len());
            assert(k % 8 == k - 8 * insns.len());
        }
    }
    assert(insn::program_bytes(all) =~= insn::program_bytes(insns) + last.slot().bytes());
}

/// Decoding what was encoded gives the instruction back, for every
/// single-slot instruction over R0 to R10.
pub proof fn parse_inverts_encode(insn: BpfInsn)
    requires
        insn.is_single(),
        insn.regs_valid(),
    ensures
        insn::decode_slot(Slot::of(insn.slot().bytes())) == Ok::<BpfInsn, DecodeError>(insn),
{
    slot::slot_round_trip(insn.slot());
    insn::decode_slot_inverse(insn);
}

// ── Typed builders ──────────────────────────────────────────────────────────

/// ALU64 with an immediate source (`BPF_K`).
pub fn mov_imm(dst: u8, imm: i32) -> (i: BpfInsn)
    ensures
        i == (BpfInsn::MovImm { dst, imm }),
{
    BpfInsn::MovImm { dst, imm }
}

/// ALU64 with an immediate source (`BPF_K`).
pub fn add_imm(dst: u8, imm: i32) -> (i: BpfInsn)
    ensures
        i == (BpfInsn::AddImm { dst, imm }),
{
    BpfInsn::AddImm { dst, imm }
}

/// ALU64 with an immediate source (`BPF_K`).
pub fn sub_imm(dst: u8, imm: i32) -> (i: BpfInsn)
    ensures
        i == (BpfInsn::SubImm { dst, imm }),
{
    BpfInsn::SubImm { dst, imm }
}

/// ALU64 with an immediate source (`BPF_K`).
pub fn and_imm(dst: u8, imm: i32) -> (i: BpfInsn)
    ensures
        i == (BpfInsn::AndImm { dst, imm }),
{
    BpfInsn::AndImm { dst, imm }
}

/// ALU64 with an immediate source (`BPF_K`).
pub fn or_imm(dst: u8, imm: i32) -> (i: BpfInsn)
    ensures
        i == (BpfInsn::OrImm { dst, imm }),
{
    BpfInsn::OrImm { dst, imm }
}

/// ALU64 with an immediate source (`BPF_K`).
pub fn xor_imm(dst: u8, imm: i32) -> (i: BpfInsn)
    ensures
        i == (BpfInsn::XorImm { dst, imm }),
{
    BpfInsn::XorImm { dst, imm }
}

/// ALU64 with an immediate source (`BPF_K`).
pub fn lsh_imm(dst: u8, imm: i32) -> (i: BpfInsn)
    ensures
        i == (BpfInsn::LshImm { dst, imm }),
{
    BpfInsn::LshImm { dst, imm }
}

/// ALU64 with an immediate source (`BPF_K`).
pub fn rsh_imm(dst: u8, imm: i32) -> (i: BpfInsn)
    ensures
        i == (BpfInsn::RshImm { dst, imm }),
{
    BpfInsn::RshImm { dst, imm }
}

/// ALU64 with an immediate source (`BPF_K`).
pub fn arsh_imm(dst: u8, imm: i32) -> (i: BpfInsn)
    ensures
        i == (BpfInsn::ArshImm { dst, imm }),
{
    BpfInsn::ArshImm { dst, imm }
}

/// ALU64 with a register source (`BPF_X`).
pub fn mov_reg(dst: u8, src: u8) -> (i: BpfInsn)
    ensures
        i == (BpfInsn::MovReg { dst, src }),
{
    BpfInsn::MovReg { dst, src }
}

/// ALU64 with a register source (`BPF_X`).
pub fn add_reg(dst: u8, src: u8) -> (i: BpfInsn)
    ensures
        i == (BpfInsn::AddReg { dst, src }),
{
    BpfInsn::AddReg { dst, src }
}

/// ALU64 with a register source (`BPF_X`).
pub fn sub_reg(dst: u8, src: u8) -> (i: BpfInsn)
    ensures
        i == (BpfInsn::SubReg { dst, src }),
{
    BpfInsn::SubReg { dst, src }
}

/// ALU64 with a register source (`BPF_X`).
pub fn and_reg(dst: u8, src: u8) -> (i: BpfInsn)
    ensures
        i == (BpfInsn::AndReg { dst, src }),
{
    BpfInsn::AndReg { dst, src }
}

/// ALU64 with a register source (`BPF_X`).
pub fn or_reg(dst: u8, src: u8) -> (i: BpfInsn)
    ensures
        i == (BpfInsn::OrReg { dst, src }),
{
    BpfInsn::OrReg { dst, src }
}

/// ALU64 with a register source (`BPF_X`).
pub fn xor_reg(dst: u8, src: u8) -> (i: BpfInsn)
    ensures
        i == (BpfInsn::XorReg { dst, src }),
{
    BpfInsn::XorReg { dst, src }
}

/// ALU64 with a register source (`BPF_X`).
pub fn lsh_reg(dst: u8, src: u8) -> (i: BpfInsn)
    ensures
        i == (BpfInsn::LshReg { dst, src }),
{
    BpfInsn::LshReg { dst, src }
}

/// ALU64 with a register source (`BPF_X`).
pub fn rsh_reg(dst: u8, src: u8) -> (i: BpfInsn)
    ensures
        i == (BpfInsn::RshReg { dst, src }),
{
    BpfInsn::RshReg { dst, src }
}

/// ALU64 with a register source (`BPF_X`).
pub fn arsh_reg(dst: u8, src: u8) -> (i: BpfInsn)
    ensures
        i == (BpfInsn::ArshReg { dst, src }),
{
    BpfInsn::ArshReg { dst, src }
}

/// ALU32 (truncating, zero-extending) with an immediate source.
pub fn add32_imm(dst: u8, imm: i32) -> (i: BpfInsn)
    ensures
        i == (BpfInsn::Add32Imm { dst, imm }),
{
    BpfInsn::Add32Imm { dst, imm }
}

/// ALU32 (truncating, zero-extending) with an immediate source.
pub fn sub32_imm(dst: u8, imm: i32) -> (i: BpfInsn)
    ensures
        i == (BpfInsn::Sub32Imm { dst, imm }),
{
    BpfInsn::Sub32Imm { dst, imm }
}

/// ALU32 (truncating, zero-extending) with an immediate source.
pub fn and32_imm(dst: u8, imm: i32) -> (i: BpfInsn)
    ensures
        i == (BpfInsn::And32Imm { dst, imm }),
{
    BpfInsn::And32Imm { dst, imm }
}

/// ALU32 (truncating, zero-extending) with an immediate source.
pub fn or32_imm(dst: u8, imm: i32) -> (i: BpfInsn)
    ensures
        i == (BpfInsn::Or32Imm { dst, imm }),
{
    BpfInsn::Or32Imm { dst, imm }
}

/// ALU32 (truncating, zero-extending) with an immediate source.
pub fn xor32_imm(dst: u8, imm: i32) -> (i: BpfInsn)
    ensures
        i == (BpfInsn::Xor32Imm { dst, imm }),
{
    BpfInsn::Xor32Imm { dst, imm }
}

/// ALU32 (truncating, zero-extending) with an immediate source.
pub fn lsh32_imm(dst: u8, imm: i32) -> (i: BpfInsn)
    ensures
        i == (BpfInsn::Lsh32Imm { dst, imm }),
{
    BpfInsn::Lsh32Imm { dst, imm }
}

/// ALU32 (truncating, zero-extending) with an immediate source.
pub fn rsh32_imm(dst: u8, imm: i32) -> (i: BpfInsn)
    ensures
        i == (BpfInsn::Rsh32Imm { dst, imm }),
{
    BpfInsn::Rsh32Imm { dst, imm }
}

/// ALU32 (truncating, zero-extending) with an immediate source.
pub fn arsh32_imm(dst: u8, imm: i32) -> (i: BpfInsn)
    ensures
        i == (BpfInsn::Arsh32Imm { dst, imm }),
{
    BpfInsn::Arsh32Imm { dst, imm }
}

/// ALU32 (truncating, zero-extending) with a register source.
pub fn add32_reg(dst: u8, src: u8) -> (i: BpfInsn)
    ensures
        i == (BpfInsn::Add32Reg { dst, src }),
{
    BpfInsn::Add32Reg { dst, src }
}

/// ALU32 (truncating, zero-extending) with a register source.
pub fn sub32_reg(dst: u8, src: u8) -> (i: BpfInsn)
    ensures
        i == (BpfInsn::Sub32Reg { dst, src }),
{
    BpfInsn::Sub32Reg { dst, src }
}

/// ALU32 (truncating, zero-extending) with a register source.
pub fn and32_reg(dst: u8, src: u8) -> (i: BpfInsn)
    ensures
        i == (BpfInsn::And32Reg { dst, src }),
{
    BpfInsn::And32Reg { dst, src }
}

/// ALU32 (truncating, zero-extending) with a register source.
pub fn or32_reg(dst: u8, src: u8) -> (i: BpfInsn)
    ensures
        i == (BpfInsn::Or32Reg { dst, src }),
{
    BpfInsn::Or32Reg { dst, src }
}

/// ALU32 (truncating, zero-extending) with a register source.
pub fn xor32_reg(dst: u8, src: u8) -> (i: BpfInsn)
    ensures
        i == (BpfInsn::Xor32Reg { dst, src }),
{
    BpfInsn::Xor32Reg { dst, src }
}

/// ALU32 (truncating, zero-extending) with a register source.
pub fn lsh32_reg(dst: u8, src: u8) -> (i: BpfInsn)
    ensures
        i == (BpfInsn::Lsh32Reg { dst, src }),
{
    BpfInsn::Lsh32Reg { dst, src }
}

/// ALU32 (truncating, zero-extending) with a register source.
pub fn rsh32_reg(dst: u8, src: u8) -> (i: BpfInsn)
    ensures
        i == (BpfInsn::Rsh32Reg { dst, src }),
{
    BpfInsn::Rsh32Reg { dst, src }
}

/// ALU32 (truncating, zero-extending) with a register source.
pub fn arsh32_reg(dst: u8, src: u8) -> (i: BpfInsn)
    ensures
        i == (BpfInsn::Arsh32Reg { dst, src }),
{
    BpfInsn::Arsh32Reg { dst, src }
}

/// Load an 8-byte stack slot into `dst`: `dst = *(u64 *)(r10 + offset)`.
pub fn ld_stack(dst: u8, offset: i16) -> (i: BpfInsn)
    ensures
        i == (BpfInsn::LdMem { dst, base: 10, offset, size: MemSize::DW, sign_extend: false }),
{
    BpfInsn::LdMem { dst, base: 10, offset, size: MemSize::DW, sign_extend: false }
}

/// Store `src` into an 8-byte stack slot: `*(u64 *)(r10 + offset) = src`.
pub fn st_stack(src: u8, offset: i16) -> (i: BpfInsn)
    ensures
        i == (BpfInsn::StMem { src, base: 10, offset, size: MemSize::DW }),
{
    BpfInsn::StMem { src, base: 10, offset, size: MemSize::DW }
}

/// Conditional compare with a register source (`BPF_J*_X`).
pub fn jeq(dst: u8, src: u8, offset: i16) -> (i: BpfInsn)
    ensures
        i == (BpfInsn::Jeq { dst, src, offset }),
{
    BpfInsn::Jeq { dst, src, offset }
}

/// Conditional compare with a register source (`BPF_J*_X`).
pub fn jne(dst: u8, src: u8, offset: i16) -> (i: BpfInsn)
    ensures
        i == (BpfInsn::Jne { dst, src, offset }),
{
    BpfInsn::Jne { dst, src, offset }
}

/// Conditional compare with a register source (`BPF_J*_X`).
pub fn jgt(dst: u8, src: u8, offset: i16) -> (i: BpfInsn)
    ensures
        i == (BpfInsn::Jgt { dst, src, offset }),
{
    BpfInsn::Jgt { dst, src, offset }
}

/// Conditional compare with a register source (`BPF_J*_X`).
pub fn jge(dst: u8, src: u8, offset: i16) -> (i: BpfInsn)
    ensures
        i == (BpfInsn::Jge { dst, src, offset }),
{
    BpfInsn::Jge { dst, src, offset }
}

/// Conditional compare with a register source (`BPF_J*_X`).
pub fn jlt(dst: u8, src: u8, offset: i16) -> (i: BpfInsn)
    ensures
        i == (BpfInsn::Jlt { dst, src, offset }),
{
    BpfInsn::Jlt { dst, src, offset }
}

/// Conditional compare with a register source (`BPF_J*_X`).
pub fn jle(dst: u8, src: u8, offset: i16) -> (i: BpfInsn)
    ensures
        i == (BpfInsn::Jle { dst, src, offset }),
{
    BpfInsn::Jle { dst, src, offset }
}

/// Conditional compare with a register source (`BPF_J*_X`).
pub fn jsgt(dst: u8, src: u8, offset: i16) -> (i: BpfInsn)
    ensures
        i == (BpfInsn::Jsgt { dst, src, offset }),
{
    BpfInsn::Jsgt { dst, src, offset }
}

/// Conditional compare with a register source (`BPF_J*_X`).
pub fn jsge(dst: u8, src: u8, offset: i16) -> (i: BpfInsn)
    ensures
        i == (BpfInsn::Jsge { dst, src, offset }),
{
    BpfInsn::Jsge { dst, src, offset }
}

/// Conditional compare with a register source (`BPF_J*_X`).
pub fn jslt(dst: u8, src: u8, offset: i16) -> (i: BpfInsn)
    ensures
        i == (BpfInsn::Jslt { dst, src, offset }),
{
    BpfInsn::Jslt { dst, src, offset }
}

/// Conditional compare with a register source (`BPF_J*_X`).
pub fn jsle(dst: u8, src: u8, offset: i16) -> (i: BpfInsn)
    ensures
        i == (BpfInsn::Jsle { dst, src, offset }),
{
    BpfInsn::Jsle { dst, src, offset }
}

/// Conditional compare with an immediate source (`BPF_J*_K`).
pub fn jeq_imm(dst: u8, imm: i32, offset: i16) -> (i: BpfInsn)
    ensures
        i == (BpfInsn::JeqImm { dst, imm, offset }),
{
    BpfInsn::JeqImm { dst, imm, offset }
}

/// Conditional compare with an immediate source (`BPF_J*_K`).
pub fn jne_imm(dst: u8, imm: i32, offset: i16) -> (i: BpfInsn)
    ensures
        i == (BpfInsn::JneImm { dst, imm, offset }),
{
    BpfInsn::JneImm { dst, imm, offset }
}

/// Conditional compare with an immediate source (`BPF_J*_K`).
pub fn jgt_imm(dst: u8, imm: i32, offset: i16) -> (i: BpfInsn)
    ensures
        i == (BpfInsn::JgtImm { dst, imm, offset }),
{
    BpfInsn::JgtImm { dst, imm, offset }
}

/// Conditional compare with an immediate source (`BPF_J*_K`).
pub fn jge_imm(dst: u8, imm: i32, offset: i16) -> (i: BpfInsn)
    ensures
        i == (BpfInsn::JgeImm { dst, imm, offset }),
{
    BpfInsn::JgeImm { dst, imm, offset }
}

/// Conditional compare with an immediate source (`BPF_J*_K`).
pub fn jlt_imm(dst: u8, imm: i32, offset: i16) -> (i: BpfInsn)
    ensures
        i == (BpfInsn::JltImm { dst, imm, offset }),
{
    BpfInsn::JltImm { dst, imm, offset }
}

/// Conditional compare with an immediate source (`BPF_J*_K`).
pub fn jle_imm(dst: u8, imm: i32, offset: i16) -> (i: BpfInsn)
    ensures
        i == (BpfInsn::JleImm { dst, imm, offset }),
{
    BpfInsn::JleImm { dst, imm, offset }
}

/// Conditional compare with an immediate source (`BPF_J*_K`).
pub fn jsgt_imm(dst: u8, imm: i32, offset: i16) -> (i: BpfInsn)
    ensures
        i == (BpfInsn::JsgtImm { dst, imm, offset }),
{
    BpfInsn::JsgtImm { dst, imm, offset }
}

/// Conditional compare with an immediate source (`BPF_J*_K`).
pub fn jsge_imm(dst: u8, imm: i32, offset: i16) -> (i: BpfInsn)
    ensures
        i == (BpfInsn::JsgeImm { dst, imm, offset }),
{
    BpfInsn::JsgeImm { dst, imm, offset }
}

/// Conditional compare with an immediate source (`BPF_J*_K`).
pub fn jslt_imm(dst: u8, imm: i32, offset: i16) -> (i: BpfInsn)
    ensures
        i == (BpfInsn::JsltImm { dst, imm, offset }),
{
    BpfInsn::JsltImm { dst, imm, offset }
}

/// Conditional compare with an immediate source (`BPF_J*_K`).
pub fn jsle_imm(dst: u8, imm: i32, offset: i16) -> (i: BpfInsn)
    ensures
        i == (BpfInsn::JsleImm { dst, imm, offset }),
{
    BpfInsn::JsleImm { dst, imm, offset }
}

/// Unconditional jump: `goto pc + 1 + offset`.
pub fn jmp(offset: i16) -> (i: BpfInsn)
    ensures
        i == (BpfInsn::Jmp { offset }),
{
    BpfInsn::Jmp { offset }
}

/// Helper call: `helper_id` is the kernel's id of the helper.
pub fn call(helper_id: i32) -> (i: BpfInsn)
    ensures
        i == (BpfInsn::Call { imm: helper_id }),
{
    BpfInsn::Call { imm: helper_id }
}

/// Program exit.
pub fn exit() -> (i: BpfInsn)
    ensures
        i == BpfInsn::Exit,
{
    BpfInsn::Exit
}

// ── Value pools ─────────────────────────────────────────────────────────────

/// Interesting 16-bit offsets, for branches and stack accesses alike.
pub const OFFSETS: [i16; 23] = [
    0, 1, 2, 4, 6, 8, 12, 16, 24, 32, 48, 64, 80, 128, 256, -1, -2, -4, -8, -12, -16, -32, -64,
];

/// Interesting 32-bit immediates, the boundary values among them.
pub const IMMEDIATES: [i32; 10] = [0, 1, 4, 8, 16, -1, -4, -16, i32::MIN, i32::MAX];

/// Large immediates that force an overflow of 32 or 64 bits on ADD and SUB.
pub const LARGE_IMMEDIATES: [i32; 8] = [
    1_000_000_000,
    -1_000_000_000,
    2_000_000_000,
    -2_000_000_000,
    i32::MAX,
    i32::MIN,
    0x7FFF_FFFF,
    -0x4000_0000,
];

/// Every register index, R0 to R10.
pub const REGS: [u8; 11] = [0, 1, 2, 3, 4, 5, 6, 7, 8, 9, 10];

/// Registers usable as operands of ALU operations and compares. R10 is the
/// read-only frame pointer, so it is left out.
pub const ALU_REGS: [u8; 10] = [0, 1, 2, 3, 4, 5, 6, 7, 8, 9];

/// The family of an opcode: the width of an ALU operation, the kind of a
/// compare, or what else the instruction does.
pub open spec fn family(insn: BpfInsn) -> &'static str {
    let op = insn.slot().op;
    if insn::is_alu_op(op) {
        if op % 8 == 7 { "alu64" } else { "alu32" }
    } else if insn::is_compare_op(op) {
        let relation = op / 16;
        if relation == 1 || relation == 5 {
            "cmp_eq"
        } else if relation == 2 || relation == 3 || relation == 0xa || relation == 0xb {
            "cmp_unsigned"
        } else {
            "cmp_signed"
        }
    } else {
        match insn {
            BpfInsn::LdMem { .. } | BpfInsn::StMem { .. } | BpfInsn::StMemImm { .. } => "stack",
            BpfInsn::Call { .. } => "helper",
            BpfInsn::CallSub { .. } | BpfInsn::CallKfunc { .. } => "call",
            BpfInsn::Jmp { .. } => "jmp",
            BpfInsn::Exit => "exit",
            _ => "ldimm64",
        }
    }
}

/// The opcode family of an instruction, coarser than the individual variants:
/// the dimension of the coverage statistics.
pub fn opcode_family(insn: &BpfInsn) -> (name: &'static str)
    ensures
        name == family(*insn),
{
    reveal(BpfInsn::slot);
    match insn {
        BpfInsn::MovImm { .. }
        | BpfInsn::MovReg { .. }
        | BpfInsn::AddImm { .. }
        | BpfInsn::AddReg { .. }
        | BpfInsn::SubImm { .. }
        | BpfInsn::SubReg { .. }
        | BpfInsn::AndImm { .. }
        | BpfInsn::AndReg { .. }
        | BpfInsn::OrImm { .. }
        | BpfInsn::OrReg { .. }
        | BpfInsn::XorImm { .. }
        | BpfInsn::XorReg { .. }
        | BpfInsn::LshImm { .. }
        | BpfInsn::LshReg { .. }
        | BpfInsn::RshImm { .. }
        | BpfInsn::RshReg { .. }
        | BpfInsn::ArshImm { .. }
        | BpfInsn::ArshReg { .. } => "alu64",
        BpfInsn::Add32Imm { .. }
        | BpfInsn::Add32Reg { .. }
        | BpfInsn::Sub32Imm { .. }
        | BpfInsn::Sub32Reg { .. }
        | BpfInsn::And32Imm { .. }
        | BpfInsn::And32Reg { .. }
        | BpfInsn::Or32Imm { .. }
        | BpfInsn::Or32Reg { .. }
        | BpfInsn::Xor32Imm { .. }
        | BpfInsn::Xor32Reg { .. }
        | BpfInsn::Lsh32Imm { .. }
        | BpfInsn::Lsh32Reg { .. }
        | BpfInsn::Rsh32Imm { .. }
        | BpfInsn::Rsh32Reg { .. }
        | BpfInsn::Arsh32Imm { .. }
        | BpfInsn::Arsh32Reg { .. } => "alu32",
        BpfInsn::Jeq { .. }
        | BpfInsn::JeqImm { .. }
        | BpfInsn::Jne { .. }
        | BpfInsn::JneImm { .. } => "cmp_eq",
        BpfInsn::Jgt { .. }
        | BpfInsn::JgtImm { .. }
        | BpfInsn::Jge { .. }
        | BpfInsn::JgeImm { .. }
        | BpfInsn::Jlt { .. }
        | BpfInsn::JltImm { .. }
        | BpfInsn::Jle { .. }
        | BpfInsn::JleImm { .. } => "cmp_unsigned",
        BpfInsn::Jsgt { .. }
        | BpfInsn::JsgtImm { .. }
        | BpfInsn::Jsge { .. }
        | BpfInsn::JsgeImm { .. }
        | BpfInsn::Jslt { .. }
        | BpfInsn::JsltImm { .. }
        | BpfInsn::Jsle { .. }
        | BpfInsn::JsleImm { .. } => "cmp_signed",
        BpfInsn::LdMem { .. } | BpfInsn::StMem { .. } | BpfInsn::StMemImm { .. } => "stack",
        BpfInsn::Call { .. } => "helper",
        BpfInsn::CallSub { .. } | BpfInsn::CallKfunc { .. } => "call",
        BpfInsn::Jmp { .. } => "jmp",
        BpfInsn::Exit => "exit",
        BpfInsn::LdImm64 { .. }
        | BpfInsn::LdMapFd { .. }
        | BpfInsn::LdMapValue { .. }
        | BpfInsn::LdImm64Second { .. } => "ldimm64",
    }
}

} // verus!
