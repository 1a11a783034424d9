//! The encoding of instructions, by their names: the number of an operation, its
//! class and its source make the opcode.

use vstd::prelude::*;

use crate::fuzz::insn_lib;
use crate::insn;
use crate::insn::{BpfInsn, DecodeError, MemSize};
use crate::slot::Slot;

verus! {

/// The slot of an operation, a compare or a jump: its number, its class, and a
/// register or an immediate as its source.
pub open spec fn written(
    number: int,
    class: int,
    dst: u8,
    src: Option<u8>,
    off: i16,
    imm: i32,
) -> Slot {
    Slot {
        op: (16 * number + class + (if src is Some { 8int } else { 0 })) as u8,
        dst,
        src: if src is Some {
            src->0
        } else {
            0
        },
        off,
        imm,
    }
}

/// The slot of a call: of a helper, a subprogram or a kernel function.
pub open spec fn called(kind: u8, imm: i32) -> Slot {
    Slot { op: 0x85, dst: 0, src: kind, off: 0, imm }
}

/// The slot of a memory access: its mode, its width and its class.
pub open spec fn accessed(
    mode: int,
    size: MemSize,
    class: int,
    dst: u8,
    src: u8,
    off: i16,
    imm: i32,
) -> Slot {
    let width = match size {
        MemSize::W => 0int,
        MemSize::H => 1,
        MemSize::B => 2,
        MemSize::DW => 3,
    };
    Slot { op: (32 * mode + 8 * width + class) as u8, dst, src, off, imm }
}

/// The slot of an instruction that takes one, by its name.
pub open spec fn slot_by_name(i: BpfInsn) -> Slot {
    match i {
        BpfInsn::AddImm { dst, imm } => written(0, 7, dst, None, 0, imm),
        BpfInsn::AddReg { dst, src } => written(0, 7, dst, Some(src), 0, 0),
        BpfInsn::SubImm { dst, imm } => written(1, 7, dst, None, 0, imm),
        BpfInsn::SubReg { dst, src } => written(1, 7, dst, Some(src), 0, 0),
        BpfInsn::OrImm { dst, imm } => written(4, 7, dst, None, 0, imm),
        BpfInsn::OrReg { dst, src } => written(4, 7, dst, Some(src), 0, 0),
        BpfInsn::AndImm { dst, imm } => written(5, 7, dst, None, 0, imm),
        BpfInsn::AndReg { dst, src } => written(5, 7, dst, Some(src), 0, 0),
        BpfInsn::LshImm { dst, imm } => written(6, 7, dst, None, 0, imm),
        BpfInsn::LshReg { dst, src } => written(6, 7, dst, Some(src), 0, 0),
        BpfInsn::RshImm { dst, imm } => written(7, 7, dst, None, 0, imm),
        BpfInsn::RshReg { dst, src } => written(7, 7, dst, Some(src), 0, 0),
        BpfInsn::XorImm { dst, imm } => written(10, 7, dst, None, 0, imm),
        BpfInsn::XorReg { dst, src } => written(10, 7, dst, Some(src), 0, 0),
        BpfInsn::ArshImm { dst, imm } => written(12, 7, dst, None, 0, imm),
        BpfInsn::ArshReg { dst, src } => written(12, 7, dst, Some(src), 0, 0),
        BpfInsn::MovImm { dst, imm } => written(11, 7, dst, None, 0, imm),
        BpfInsn::MovReg { dst, src } => written(11, 7, dst, Some(src), 0, 0),
        BpfInsn::Add32Imm { dst, imm } => written(0, 4, dst, None, 0, imm),
        BpfInsn::Add32Reg { dst, src } => written(0, 4, dst, Some(src), 0, 0),
        BpfInsn::Sub32Imm { dst, imm } => written(1, 4, dst, None, 0, imm),
        BpfInsn::Sub32Reg { dst, src } => written(1, 4, dst, Some(src), 0, 0),
        BpfInsn::Or32Imm { dst, imm } => written(4, 4, dst, None, 0, imm),
        BpfInsn::Or32Reg { dst, src } => written(4, 4, dst, Some(src), 0, 0),
        BpfInsn::And32Imm { dst, imm } => written(5, 4, dst, None, 0, imm),
        BpfInsn::And32Reg { dst, src } => written(5, 4, dst, Some(src), 0, 0),
        BpfInsn::Lsh32Imm { dst, imm } => written(6, 4, dst, None, 0, imm),
        BpfInsn::Lsh32Reg { dst, src } => written(6, 4, dst, Some(src), 0, 0),
        BpfInsn::Rsh32Imm { dst, imm } => written(7, 4, dst, None, 0, imm),
        BpfInsn::Rsh32Reg { dst, src } => written(7, 4, dst, Some(src), 0, 0),
        BpfInsn::Xor32Imm { dst, imm } => written(10, 4, dst, None, 0, imm),
        BpfInsn::Xor32Reg { dst, src } => written(10, 4, dst, Some(src), 0, 0),
        BpfInsn::Arsh32Imm { dst, imm } => written(12, 4, dst, None, 0, imm),
        BpfInsn::Arsh32Reg { dst, src } => written(12, 4, dst, Some(src), 0, 0),
        BpfInsn::JeqImm { dst, imm, offset } => written(1, 5, dst, None, offset, imm),
        BpfInsn::Jeq { dst, src, offset } => written(1, 5, dst, Some(src), offset, 0),
        BpfInsn::JgtImm { dst, imm, offset } => written(2, 5, dst, None, offset, imm),
        BpfInsn::Jgt { dst, src, offset } => written(2, 5, dst, Some(src), offset, 0),
        BpfInsn::JgeImm { dst, imm, offset } => written(3, 5, dst, None, offset, imm),
        BpfInsn::Jge { dst, src, offset } => written(3, 5, dst, Some(src), offset, 0),
        BpfInsn::JneImm { dst, imm, offset } => written(5, 5, dst, None, offset, imm),
        BpfInsn::Jne { dst, src, offset } => written(5, 5, dst, Some(src), offset, 0),
        BpfInsn::JsgtImm { dst, imm, offset } => written(6, 5, dst, None, offset, imm),
        BpfInsn::Jsgt { dst, src, offset } => written(6, 5, dst, Some(src), offset, 0),
        BpfInsn::JsgeImm { dst, imm, offset } => written(7, 5, dst, None, offset, imm),
        BpfInsn::Jsge { dst, src, offset } => written(7, 5, dst, Some(src), offset, 0),
        BpfInsn::JltImm { dst, imm, offset } => written(10, 5, dst, None, offset, imm),
        BpfInsn::Jlt { dst, src, offset } => written(10, 5, dst, Some(src), offset, 0),
        BpfInsn::JleImm { dst, imm, offset } => written(11, 5, dst, None, offset, imm),
        BpfInsn::Jle { dst, src, offset } => written(11, 5, dst, Some(src), offset, 0),
        BpfInsn::JsltImm { dst, imm, offset } => written(12, 5, dst, None, offset, imm),
        BpfInsn::Jslt { dst, src, offset } => written(12, 5, dst, Some(src), offset, 0),
        BpfInsn::JsleImm { dst, imm, offset } => written(13, 5, dst, None, offset, imm),
        BpfInsn::Jsle { dst, src, offset } => written(13, 5, dst, Some(src), offset, 0),
        BpfInsn::Jmp { offset } => written(0, 5, 0, None, offset, 0),
        BpfInsn::Call { imm } => called(0, imm),
        BpfInsn::CallSub { offset } => called(1, offset),
        BpfInsn::CallKfunc { btf_id } => called(2, btf_id),
        BpfInsn::Exit => written(9, 5, 0, None, 0, 0),
        BpfInsn::LdMem { dst, base, offset, size, sign_extend } => accessed(if sign_extend { 4 } else { 3 }, size, 1, dst, base, offset, 0),
        BpfInsn::StMem { src, base, offset, size } => accessed(3, size, 3, base, src, offset, 0),
        BpfInsn::StMemImm { imm, base, offset, size } => accessed(3, size, 2, base, 0, offset, imm),
        _ => i.slot(),
    }
}

/// An instruction is encoded by the number of its operation, its class, its source
/// and its fields.
#[verifier::rlimit(60)]
#[verifier::spinoff_prover]
pub proof fn encoding_by_name(i: BpfInsn)
    ensures
        i.slot() == slot_by_name(i),
{
    reveal(BpfInsn::slot);
}

/// The family of an instruction by its name.
pub open spec fn family_by_name(i: BpfInsn) -> &'static str {
    match i {
        BpfInsn::AddImm { .. }
        | BpfInsn::AddReg { .. }
        | BpfInsn::SubImm { .. }
        | BpfInsn::SubReg { .. }
        | BpfInsn::OrImm { .. }
        | BpfInsn::OrReg { .. }
        | BpfInsn::AndImm { .. }
        | BpfInsn::AndReg { .. }
        | BpfInsn::LshImm { .. }
        | BpfInsn::LshReg { .. }
        | BpfInsn::RshImm { .. }
        | BpfInsn::RshReg { .. }
        | BpfInsn::XorImm { .. }
        | BpfInsn::XorReg { .. }
        | BpfInsn::ArshImm { .. }
        | BpfInsn::ArshReg { .. }
        | BpfInsn::MovImm { .. }
        | BpfInsn::MovReg { .. } => "alu64",
        BpfInsn::Add32Imm { .. }
        | BpfInsn::Add32Reg { .. }
        | BpfInsn::Sub32Imm { .. }
        | BpfInsn::Sub32Reg { .. }
        | BpfInsn::Or32Imm { .. }
        | BpfInsn::Or32Reg { .. }
        | BpfInsn::And32Imm { .. }
        | BpfInsn::And32Reg { .. }
        | BpfInsn::Lsh32Imm { .. }
        | BpfInsn::Lsh32Reg { .. }
        | BpfInsn::Rsh32Imm { .. }
        | BpfInsn::Rsh32Reg { .. }
        | BpfInsn::Xor32Imm { .. }
        | BpfInsn::Xor32Reg { .. }
        | BpfInsn::Arsh32Imm { .. }
        | BpfInsn::Arsh32Reg { .. } => "alu32",
        BpfInsn::Jeq { .. }
        | BpfInsn::JeqImm { .. }
        | BpfInsn::Jne { .. }
        | BpfInsn::JneImm { .. } => "cmp_eq",
        BpfInsn::Jgt { .. }
        | BpfInsn::JgtImm { .. }
        | BpfInsn::Jge { .. }
        | BpfInsn::JgeImm { .. }
        | BpfInsn::Jlt { .. }
        | BpfInsn::JltImm { .. }
        | BpfInsn::Jle { .. }
        | BpfInsn::JleImm { .. } => "cmp_unsigned",
        BpfInsn::Jsgt { .. }
        | BpfInsn::JsgtImm { .. }
        | BpfInsn::Jsge { .. }
        | BpfInsn::JsgeImm { .. }
        | BpfInsn::Jslt { .. }
        | BpfInsn::JsltImm { .. }
        | BpfInsn::Jsle { .. }
        | BpfInsn::JsleImm { .. } => "cmp_signed",
        BpfInsn::LdMem { .. }
        | BpfInsn::StMem { .. }
        | BpfInsn::StMemImm { .. } => "stack",
        BpfInsn::Call { .. } => "helper",
        BpfInsn::CallSub { .. }
        | BpfInsn::CallKfunc { .. } => "call",
        BpfInsn::Jmp { .. } => "jmp",
        BpfInsn::Exit => "exit",
        BpfInsn::LdImm64 { .. }
        | BpfInsn::LdMapFd { .. }
        | BpfInsn::LdMapValue { .. }
        | BpfInsn::LdImm64Second { .. } => "ldimm64",
    }
}

/// Instructions of one kind are of one family.
#[verifier::rlimit(60)]
#[verifier::spinoff_prover]
pub proof fn families_by_name(i: BpfInsn)
    ensures
        insn_lib::family(i) == family_by_name(i),
{
    reveal(BpfInsn::slot);
}

/// The width of an access in bytes: its size code apart, each is twice the one
/// before.
pub proof fn widths_by_name(size: MemSize)
    ensures
        size.width() == match size {
            MemSize::B => 1int,
            MemSize::H => 2,
            MemSize::W => 4,
            MemSize::DW => 8,
        },
{
}

/// The opcode stands in the kernel's table, but for an operation that there is
/// none of here.
pub open spec fn is_foreign(op: u8) -> bool {
    let number = op / 16;
    let class = op % 8;
    ||| class == 0 || class == 1 || class == 2 || class == 3 || class == 6
    ||| class == 5 && (op == 0x45 || op == 0x4d || op == 0x0d)
    ||| (class == 4 || class == 7) && (number == 2 || number == 3 || number == 8 || number == 9
        || number == 13)
    ||| class == 4 && number == 11
}

/// Some instruction that takes one slot has the opcode.
pub open spec fn is_known(op: u8) -> bool {
    exists|i: BpfInsn| i.is_single() && (#[trigger] i.slot()).op == op
}

/// A slot is refused first for a register that does not exist; then, where its
/// opcode is that of an instruction, for fields that the instruction does not use;
/// and otherwise as half of a wide load, as foreign or as unknown.
pub proof fn refusals_by_field(s: Slot)
    ensures
        insn::slot_error(s) matches Some(DecodeError::InvalidRegister { reg }) ==> reg == (if s.dst
            > 10 {
            s.dst
        } else {
            s.src
        }) && reg > 10,
        insn::slot_error(s) is Some && insn::slot_error(s)->0 is InvalidRegister <==> s.dst > 10
            || s.src > 10,
        insn::slot_error(s) == Some(DecodeError::LdImm64Truncated) <==> s.dst <= 10 && s.src <= 10
            && s.op == 0x18,
        insn::slot_error(s) is Some && insn::slot_error(s)->0 is Unsupported ==> is_foreign(s.op)
            && insn::slot_error(s)->0->Unsupported_op == s.op,
        insn::slot_error(s) is Some && insn::slot_error(s)->0 is UnknownOpcode ==> !is_foreign(s.op)
            && insn::slot_error(s)->0->UnknownOpcode_op == s.op,
        is_known(s.op) && s.dst <= 10 && s.src <= 10 ==> insn::slot_error(s) is None
            || insn::slot_error(s)->0 is ReservedFields,
{
    if is_known(s.op) {
        let i = choose|i: BpfInsn| i.is_single() && (#[trigger] i.slot()).op == s.op;
        lemma_known(i);
    }
}

#[verifier::rlimit(60)]
#[verifier::spinoff_prover]
proof fn lemma_known(i: BpfInsn)
    requires
        i.is_single(),
    ensures
        ({
            let op = i.slot().op;
            ||| insn::is_alu_op(op)
            ||| insn::is_compare_op(op)
            ||| op == 0x05 || op == 0x85 || op == 0x95
            ||| insn::is_mem_op(op) && op != 0x18
        }),
{
    reveal(BpfInsn::slot);
}

} // verus!
