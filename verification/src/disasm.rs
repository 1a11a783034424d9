//! Rendering of instructions in a readable eBPF-like syntax. ALU32 forms use
//! the kernel's w-register notation, signed compares its s-prefix.

use vstd::prelude::*;

use crate::insn::{BpfInsn, MemSize};
use crate::text;
use crate::text::{push_dec, push_hex_fixed, push_plus, push_signed};

verus! {

/// A register, an operator and an immediate.
pub open spec fn reg_imm(prefix: &str, dst: u8, op: &str, imm: i32) -> Seq<char> {
    prefix@ + text::dec(dst as nat) + op@ + text::dec_signed(imm as int)
}

/// A register, an operator and a second register.
pub open spec fn reg_reg(prefix: &str, dst: u8, op: &str, src: u8) -> Seq<char> {
    prefix@ + text::dec(dst as nat) + op@ + text::dec(src as nat)
}

/// The target of a compare.
pub open spec fn goto(offset: i16) -> Seq<char> {
    " goto "@ + text::dec_plus(offset as int)
}

/// The memory operand `[rB+off]`.
pub open spec fn mem(base: u8, offset: i16) -> Seq<char> {
    "[r"@ + text::dec(base as nat) + text::dec_plus(offset as int) + "]"@
}

/// The width of a load that is not a full register.
pub open spec fn load_width(size: MemSize, sign_extend: bool) -> Seq<char> {
    match (size, sign_extend) {
        (MemSize::B, false) => "(u8)"@,
        (MemSize::H, false) => "(u16)"@,
        (MemSize::W, false) => "(u32)"@,
        (MemSize::B, true) => "(s8)"@,
        (MemSize::H, true) => "(s16)"@,
        (MemSize::W, true) => "(s32)"@,
        (MemSize::DW, _) => ""@,
    }
}

/// The width of a store; a full-width store has the prefix `full`.
pub open spec fn store_width(size: MemSize, full: &str) -> Seq<char> {
    match size {
        MemSize::B => "u8 "@,
        MemSize::H => "u16 "@,
        MemSize::W => "u32 "@,
        MemSize::DW => full@,
    }
}

/// The text of an instruction.
pub open spec fn disasm(insn: BpfInsn) -> Seq<char> {
    match insn {
        BpfInsn::MovImm { dst, imm } => reg_imm("r", dst, " = ", imm),
        BpfInsn::MovReg { dst, src } => reg_reg("r", dst, " = r", src),
        BpfInsn::AddImm { dst, imm } => reg_imm("r", dst, " += ", imm),
        BpfInsn::AddReg { dst, src } => reg_reg("r", dst, " += r", src),
        BpfInsn::SubImm { dst, imm } => reg_imm("r", dst, " -= ", imm),
        BpfInsn::SubReg { dst, src } => reg_reg("r", dst, " -= r", src),
        BpfInsn::AndImm { dst, imm } => reg_imm("r", dst, " &= ", imm),
        BpfInsn::AndReg { dst, src } => reg_reg("r", dst, " &= r", src),
        BpfInsn::OrImm { dst, imm } => reg_imm("r", dst, " |= ", imm),
        BpfInsn::OrReg { dst, src } => reg_reg("r", dst, " |= r", src),
        BpfInsn::XorImm { dst, imm } => reg_imm("r", dst, " ^= ", imm),
        BpfInsn::XorReg { dst, src } => reg_reg("r", dst, " ^= r", src),
        BpfInsn::LshImm { dst, imm } => reg_imm("r", dst, " <<= ", imm),
        BpfInsn::LshReg { dst, src } => reg_reg("r", dst, " <<= r", src),
        BpfInsn::RshImm { dst, imm } => reg_imm("r", dst, " >>= ", imm),
        BpfInsn::RshReg { dst, src } => reg_reg("r", dst, " >>= r", src),
        BpfInsn::ArshImm { dst, imm } => reg_imm("r", dst, " s>>= ", imm),
        BpfInsn::ArshReg { dst, src } => reg_reg("r", dst, " s>>= r", src),
        BpfInsn::Add32Imm { dst, imm } => reg_imm("w", dst, " += ", imm),
        BpfInsn::Add32Reg { dst, src } => reg_reg("w", dst, " += r", src),
        BpfInsn::Sub32Imm { dst, imm } => reg_imm("w", dst, " -= ", imm),
        BpfInsn::Sub32Reg { dst, src } => reg_reg("w", dst, " -= r", src),
        BpfInsn::And32Imm { dst, imm } => reg_imm("w", dst, " &= ", imm),
        BpfInsn::And32Reg { dst, src } => reg_reg("w", dst, " &= r", src),
        BpfInsn::Or32Imm { dst, imm } => reg_imm("w", dst, " |= ", imm),
        BpfInsn::Or32Reg { dst, src } => reg_reg("w", dst, " |= r", src),
        BpfInsn::Xor32Imm { dst, imm } => reg_imm("w", dst, " ^= ", imm),
        BpfInsn::Xor32Reg { dst, src } => reg_reg("w", dst, " ^= r", src),
        BpfInsn::Lsh32Imm { dst, imm } => reg_imm("w", dst, " <<= ", imm),
        BpfInsn::Lsh32Reg { dst, src } => reg_reg("w", dst, " <<= r", src),
        BpfInsn::Rsh32Imm { dst, imm } => reg_imm("w", dst, " >>= ", imm),
        BpfInsn::Rsh32Reg { dst, src } => reg_reg("w", dst, " >>= r", src),
        BpfInsn::Arsh32Imm { dst, imm } => reg_imm("w", dst, " s>>= ", imm),
        BpfInsn::Arsh32Reg { dst, src } => reg_reg("w", dst, " s>>= r", src),
        BpfInsn::LdMem { dst, base, offset, size, sign_extend } => "r"@ + text::dec(dst as nat) + " = "@
            + load_width(size, sign_extend) + mem(base, offset),
        BpfInsn::StMem { src, base, offset, size } => mem(base, offset) + " = "@ + store_width(
            size,
            "r",
        ) + text::dec(src as nat),
        BpfInsn::StMemImm { imm, base, offset, size } => mem(base, offset) + " = "@ + store_width(
            size,
            "",
        ) + text::dec_signed(imm as int),
        BpfInsn::LdImm64 { dst, imm } => "r"@ + text::dec(dst as nat) + " = 0x"@ + text::hex_fixed(
            imm as nat,
            16,
        ),
        BpfInsn::LdMapFd { dst, fd, .. } => "r"@ + text::dec(dst as nat) + " = map_fd("@ + text::dec(fd as nat)
            + ")"@,
        BpfInsn::LdMapValue { dst, fd, offset, .. } => "r"@ + text::dec(dst as nat) + " = map_value_fd("@
            + text::dec(fd as nat) + ")+"@ + text::dec(offset as nat),
        BpfInsn::LdImm64Second { imm_hi } => "(second slot of ldimm64, imm_hi="@ + text::dec(
            imm_hi as nat,
        ) + ")"@,
        BpfInsn::Jeq { dst, src, offset } => reg_reg("if r", dst, " == r", src) + goto(offset),
        BpfInsn::Jne { dst, src, offset } => reg_reg("if r", dst, " != r", src) + goto(offset),
        BpfInsn::Jgt { dst, src, offset } => reg_reg("if r", dst, " > r", src) + goto(offset),
        BpfInsn::Jge { dst, src, offset } => reg_reg("if r", dst, " >= r", src) + goto(offset),
        BpfInsn::Jlt { dst, src, offset } => reg_reg("if r", dst, " < r", src) + goto(offset),
        BpfInsn::Jle { dst, src, offset } => reg_reg("if r", dst, " <= r", src) + goto(offset),
        BpfInsn::Jsgt { dst, src, offset } => reg_reg("if r", dst, " s> r", src) + goto(offset),
        BpfInsn::Jsge { dst, src, offset } => reg_reg("if r", dst, " s>= r", src) + goto(offset),
        BpfInsn::Jslt { dst, src, offset } => reg_reg("if r", dst, " s< r", src) + goto(offset),
        BpfInsn::Jsle { dst, src, offset } => reg_reg("if r", dst, " s<= r", src) + goto(offset),
        BpfInsn::JeqImm { dst, imm, offset } => reg_imm("if r", dst, " == ", imm) + goto(offset),
        BpfInsn::JneImm { dst, imm, offset } => reg_imm("if r", dst, " != ", imm) + goto(offset),
        BpfInsn::JgtImm { dst, imm, offset } => reg_imm("if r", dst, " > ", imm) + goto(offset),
        BpfInsn::JgeImm { dst, imm, offset } => reg_imm("if r", dst, " >= ", imm) + goto(offset),
        BpfInsn::JltImm { dst, imm, offset } => reg_imm("if r", dst, " < ", imm) + goto(offset),
        BpfInsn::JleImm { dst, imm, offset } => reg_imm("if r", dst, " <= ", imm) + goto(offset),
        BpfInsn::JsgtImm { dst, imm, offset } => reg_imm("if r", dst, " s> ", imm) + goto(offset),
        BpfInsn::JsgeImm { dst, imm, offset } => reg_imm("if r", dst, " s>= ", imm) + goto(offset),
        BpfInsn::JsltImm { dst, imm, offset } => reg_imm("if r", dst, " s< ", imm) + goto(offset),
        BpfInsn::JsleImm { dst, imm, offset } => reg_imm("if r", dst, " s<= ", imm) + goto(offset),
        BpfInsn::Jmp { offset } => "goto "@ + text::dec_plus(offset as int),
        BpfInsn::Call { imm } => "call "@ + text::dec_signed(imm as int),
        BpfInsn::CallSub { offset } => "call subprog +"@ + text::dec_signed(offset as int),
        BpfInsn::CallKfunc { btf_id } => "call kfunc#"@ + text::dec_signed(btf_id as int),
        BpfInsn::Exit => "exit"@,
    }
}

fn push_reg_imm(s: &mut String, prefix: &str, dst: u8, op: &str, imm: i32)
    ensures
        final(s)@ == old(s)@ + reg_imm(prefix, dst, op, imm),
{
    s.append(prefix);
    push_dec(s, dst as u64);
    s.append(op);
    push_signed(s, imm as i64);
}

fn push_reg_reg(s: &mut String, prefix: &str, dst: u8, op: &str, src: u8)
    ensures
        final(s)@ == old(s)@ + reg_reg(prefix, dst, op, src),
{
    s.append(prefix);
    push_dec(s, dst as u64);
    s.append(op);
    push_dec(s, src as u64);
}

fn push_goto(s: &mut String, offset: i16)
    ensures
        final(s)@ == old(s)@ + goto(offset),
{
    s.append(" goto ");
    push_plus(s, offset as i64);
}

fn push_mem(s: &mut String, base: u8, offset: i16)
    ensures
        final(s)@ == old(s)@ + mem(base, offset),
{
    s.append("[r");
    push_dec(s, base as u64);
    push_plus(s, offset as i64);
    s.append("]");
}

fn push_load_width(s: &mut String, size: MemSize, sign_extend: bool)
    ensures
        final(s)@ == old(s)@ + load_width(size, sign_extend),
{
    match (size, sign_extend) {
        (MemSize::B, false) => s.append("(u8)"),
        (MemSize::H, false) => s.append("(u16)"),
        (MemSize::W, false) => s.append("(u32)"),
        (MemSize::B, true) => s.append("(s8)"),
        (MemSize::H, true) => s.append("(s16)"),
        (MemSize::W, true) => s.append("(s32)"),
        (MemSize::DW, _) => s.append(""),
    }
}

fn push_store_width(s: &mut String, size: MemSize, full: &str)
    ensures
        final(s)@ == old(s)@ + store_width(size, full),
{
    match size {
        MemSize::B => s.append("u8 "),
        MemSize::H => s.append("u16 "),
        MemSize::W => s.append("u32 "),
        MemSize::DW => s.append(full),
    }
}

/// Render a single instruction in a readable eBPF-like syntax.
pub fn disassemble(insn: &BpfInsn) -> (text: String)
    ensures
        text@ == disasm(*insn),
{
    let mut s: String = String::new();
    match *insn {
        BpfInsn::MovImm { dst, imm } => push_reg_imm(&mut s, "r", dst, " = ", imm),
        BpfInsn::MovReg { dst, src } => push_reg_reg(&mut s, "r", dst, " = r", src),
        BpfInsn::AddImm { dst, imm } => push_reg_imm(&mut s, "r", dst, " += ", imm),
        BpfInsn::AddReg { dst, src } => push_reg_reg(&mut s, "r", dst, " += r", src),
        BpfInsn::SubImm { dst, imm } => push_reg_imm(&mut s, "r", dst, " -= ", imm),
        BpfInsn::SubReg { dst, src } => push_reg_reg(&mut s, "r", dst, " -= r", src),
        BpfInsn::AndImm { dst, imm } => push_reg_imm(&mut s, "r", dst, " &= ", imm),
        BpfInsn::AndReg { dst, src } => push_reg_reg(&mut s, "r", dst, " &= r", src),
        BpfInsn::OrImm { dst, imm } => push_reg_imm(&mut s, "r", dst, " |= ", imm),
        BpfInsn::OrReg { dst, src } => push_reg_reg(&mut s, "r", dst, " |= r", src),
        BpfInsn::XorImm { dst, imm } => push_reg_imm(&mut s, "r", dst, " ^= ", imm),
        BpfInsn::XorReg { dst, src } => push_reg_reg(&mut s, "r", dst, " ^= r", src),
        BpfInsn::LshImm { dst, imm } => push_reg_imm(&mut s, "r", dst, " <<= ", imm),
        BpfInsn::LshReg { dst, src } => push_reg_reg(&mut s, "r", dst, " <<= r", src),
        BpfInsn::RshImm { dst, imm } => push_reg_imm(&mut s, "r", dst, " >>= ", imm),
        BpfInsn::RshReg { dst, src } => push_reg_reg(&mut s, "r", dst, " >>= r", src),
        BpfInsn::ArshImm { dst, imm } => push_reg_imm(&mut s, "r", dst, " s>>= ", imm),
        BpfInsn::ArshReg { dst, src } => push_reg_reg(&mut s, "r", dst, " s>>= r", src),
        BpfInsn::Add32Imm { dst, imm } => push_reg_imm(&mut s, "w", dst, " += ", imm),
        BpfInsn::Add32Reg { dst, src } => push_reg_reg(&mut s, "w", dst, " += r", src),
        BpfInsn::Sub32Imm { dst, imm } => push_reg_imm(&mut s, "w", dst, " -= ", imm),
        BpfInsn::Sub32Reg { dst, src } => push_reg_reg(&mut s, "w", dst, " -= r", src),
        BpfInsn::And32Imm { dst, imm } => push_reg_imm(&mut s, "w", dst, " &= ", imm),
        BpfInsn::And32Reg { dst, src } => push_reg_reg(&mut s, "w", dst, " &= r", src),
        BpfInsn::Or32Imm { dst, imm } => push_reg_imm(&mut s, "w", dst, " |= ", imm),
        BpfInsn::Or32Reg { dst, src } => push_reg_reg(&mut s, "w", dst, " |= r", src),
        BpfInsn::Xor32Imm { dst, imm } => push_reg_imm(&mut s, "w", dst, " ^= ", imm),
        BpfInsn::Xor32Reg { dst, src } => push_reg_reg(&mut s, "w", dst, " ^= r", src),
        BpfInsn::Lsh32Imm { dst, imm } => push_reg_imm(&mut s, "w", dst, " <<= ", imm),
        BpfInsn::Lsh32Reg { dst, src } => push_reg_reg(&mut s, "w", dst, " <<= r", src),
        BpfInsn::Rsh32Imm { dst, imm } => push_reg_imm(&mut s, "w", dst, " >>= ", imm),
        BpfInsn::Rsh32Reg { dst, src } => push_reg_reg(&mut s, "w", dst, " >>= r", src),
        BpfInsn::Arsh32Imm { dst, imm } => push_reg_imm(&mut s, "w", dst, " s>>= ", imm),
        BpfInsn::Arsh32Reg { dst, src } => push_reg_reg(&mut s, "w", dst, " s>>= r", src),
        BpfInsn::LdMem { dst, base, offset, size, sign_extend } => {
            s.append("r");
            push_dec(&mut s, dst as u64);
            s.append(" = ");
            push_load_width(&mut s, size, sign_extend);
            push_mem(&mut s, base, offset);
        },
        BpfInsn::StMem { src, base, offset, size } => {
            push_mem(&mut s, base, offset);
            s.append(" = ");
            push_store_width(&mut s, size, "r");
            push_dec(&mut s, src as u64);
        },
        BpfInsn::StMemImm { imm, base, offset, size } => {
            push_mem(&mut s, base, offset);
            s.append(" = ");
            push_store_width(&mut s, size, "");
            push_signed(&mut s, imm as i64);
        },
        BpfInsn::LdImm64 { dst, imm } => {
            s.append("r");
            push_dec(&mut s, dst as u64);
            s.append(" = 0x");
            push_hex_fixed(&mut s, imm, 16);
        },
        BpfInsn::LdMapFd { dst, fd, .. } => {
            s.append("r");
            push_dec(&mut s, dst as u64);
            s.append(" = map_fd(");
            push_dec(&mut s, fd as u64);
            s.append(")");
        },
        BpfInsn::LdMapValue { dst, fd, offset, .. } => {
            s.append("r");
            push_dec(&mut s, dst as u64);
            s.append(" = map_value_fd(");
            push_dec(&mut s, fd as u64);
            s.append(")+");
            push_dec(&mut s, offset as u64);
        },
        BpfInsn::LdImm64Second { imm_hi } => {
            s.append("(second slot of ldimm64, imm_hi=");
            push_dec(&mut s, imm_hi as u64);
            s.append(")");
        },
        BpfInsn::Jeq { dst, src, offset } => {
            push_reg_reg(&mut s, "if r", dst, " == r", src);
            push_goto(&mut s, offset);
        },
        BpfInsn::Jne { dst, src, offset } => {
            push_reg_reg(&mut s, "if r", dst, " != r", src);
            push_goto(&mut s, offset);
        },
        BpfInsn::Jgt { dst, src, offset } => {
            push_reg_reg(&mut s, "if r", dst, " > r", src);
            push_goto(&mut s, offset);
        },
        BpfInsn::Jge { dst, src, offset } => {
            push_reg_reg(&mut s, "if r", dst, " >= r", src);
            push_goto(&mut s, offset);
        },
        BpfInsn::Jlt { dst, src, offset } => {
            push_reg_reg(&mut s, "if r", dst, " < r", src);
            push_goto(&mut s, offset);
        },
        BpfInsn::Jle { dst, src, offset } => {
            push_reg_reg(&mut s, "if r", dst, " <= r", src);
            push_goto(&mut s, offset);
        },
        BpfInsn::Jsgt { dst, src, offset } => {
            push_reg_reg(&mut s, "if r", dst, " s> r", src);
            push_goto(&mut s, offset);
        },
        BpfInsn::Jsge { dst, src, offset } => {
            push_reg_reg(&mut s, "if r", dst, " s>= r", src);
            push_goto(&mut s, offset);
        },
        BpfInsn::Jslt { dst, src, offset } => {
            push_reg_reg(&mut s, "if r", dst, " s< r", src);
            push_goto(&mut s, offset);
        },
        BpfInsn::Jsle { dst, src, offset } => {
            push_reg_reg(&mut s, "if r", dst, " s<= r", src);
            push_goto(&mut s, offset);
        },
        BpfInsn::JeqImm { dst, imm, offset } => {
            push_reg_imm(&mut s, "if r", dst, " == ", imm);
            push_goto(&mut s, offset);
        },
        BpfInsn::JneImm { dst, imm, offset } => {
            push_reg_imm(&mut s, "if r", dst, " != ", imm);
            push_goto(&mut s, offset);
        },
        BpfInsn::JgtImm { dst, imm, offset } => {
            push_reg_imm(&mut s, "if r", dst, " > ", imm);
            push_goto(&mut s, offset);
        },
        BpfInsn::JgeImm { dst, imm, offset } => {
            push_reg_imm(&mut s, "if r", dst, " >= ", imm);
            push_goto(&mut s, offset);
        },
        BpfInsn::JltImm { dst, imm, offset } => {
            push_reg_imm(&mut s, "if r", dst, " < ", imm);
            push_goto(&mut s, offset);
        },
        BpfInsn::JleImm { dst, imm, offset } => {
            push_reg_imm(&mut s, "if r", dst, " <= ", imm);
            push_goto(&mut s, offset);
        },
        BpfInsn::JsgtImm { dst, imm, offset } => {
            push_reg_imm(&mut s, "if r", dst, " s> ", imm);
            push_goto(&mut s, offset);
        },
        BpfInsn::JsgeImm { dst, imm, offset } => {
            push_reg_imm(&mut s, "if r", dst, " s>= ", imm);
            push_goto(&mut s, offset);
        },
        BpfInsn::JsltImm { dst, imm, offset } => {
            push_reg_imm(&mut s, "if r", dst, " s< ", imm);
            push_goto(&mut s, offset);
        },
        BpfInsn::JsleImm { dst, imm, offset } => {
            push_reg_imm(&mut s, "if r", dst, " s<= ", imm);
            push_goto(&mut s, offset);
        },
        BpfInsn::Jmp { offset } => {
            s.append("goto ");
            push_plus(&mut s, offset as i64);
        },
        BpfInsn::Call { imm } => {
            s.append("call ");
            push_signed(&mut s, imm as i64);
        },
        BpfInsn::CallSub { offset } => {
            s.append("call subprog +");
            push_signed(&mut s, offset as i64);
        },
        BpfInsn::CallKfunc { btf_id } => {
            s.append("call kfunc#");
            push_signed(&mut s, btf_id as i64);
        },
        BpfInsn::Exit => s.append("exit"),
    }
    s
}

} // verus!
