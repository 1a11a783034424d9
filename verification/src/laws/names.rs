//! Instructions by name: what each reads and writes, and where control goes from
//! it. The laws are stated in these words.

use vstd::prelude::*;

use crate::insn::{BpfInsn, MemSize};

verus! {

/// Register `r` is read by the instruction: the operands that it computes with or
/// compares, the base of an access and the value that is stored, the arguments of a
/// call, and the result at an exit.
pub open spec fn reads(i: BpfInsn, r: int) -> bool {
    match i {
        BpfInsn::MovReg { src, .. } => r == src,
        BpfInsn::AddImm { dst, .. } => r == dst,
        BpfInsn::AddReg { dst, src } => r == dst || r == src,
        BpfInsn::SubImm { dst, .. } => r == dst,
        BpfInsn::SubReg { dst, src } => r == dst || r == src,
        BpfInsn::AndImm { dst, .. } => r == dst,
        BpfInsn::AndReg { dst, src } => r == dst || r == src,
        BpfInsn::OrImm { dst, .. } => r == dst,
        BpfInsn::OrReg { dst, src } => r == dst || r == src,
        BpfInsn::XorImm { dst, .. } => r == dst,
        BpfInsn::XorReg { dst, src } => r == dst || r == src,
        BpfInsn::LshImm { dst, .. } => r == dst,
        BpfInsn::LshReg { dst, src } => r == dst || r == src,
        BpfInsn::RshImm { dst, .. } => r == dst,
        BpfInsn::RshReg { dst, src } => r == dst || r == src,
        BpfInsn::ArshImm { dst, .. } => r == dst,
        BpfInsn::ArshReg { dst, src } => r == dst || r == src,
        BpfInsn::Add32Imm { dst, .. } => r == dst,
        BpfInsn::Add32Reg { dst, src } => r == dst || r == src,
        BpfInsn::Sub32Imm { dst, .. } => r == dst,
        BpfInsn::Sub32Reg { dst, src } => r == dst || r == src,
        BpfInsn::And32Imm { dst, .. } => r == dst,
        BpfInsn::And32Reg { dst, src } => r == dst || r == src,
        BpfInsn::Or32Imm { dst, .. } => r == dst,
        BpfInsn::Or32Reg { dst, src } => r == dst || r == src,
        BpfInsn::Xor32Imm { dst, .. } => r == dst,
        BpfInsn::Xor32Reg { dst, src } => r == dst || r == src,
        BpfInsn::Lsh32Imm { dst, .. } => r == dst,
        BpfInsn::Lsh32Reg { dst, src } => r == dst || r == src,
        BpfInsn::Rsh32Imm { dst, .. } => r == dst,
        BpfInsn::Rsh32Reg { dst, src } => r == dst || r == src,
        BpfInsn::Arsh32Imm { dst, .. } => r == dst,
        BpfInsn::Arsh32Reg { dst, src } => r == dst || r == src,
        BpfInsn::LdMem { base, .. } => r == base,
        BpfInsn::StMem { src, base, .. } => r == src || r == base,
        BpfInsn::StMemImm { base, .. } => r == base,
        BpfInsn::Jeq { dst, src, .. } => r == dst || r == src,
        BpfInsn::JeqImm { dst, .. } => r == dst,
        BpfInsn::Jne { dst, src, .. } => r == dst || r == src,
        BpfInsn::JneImm { dst, .. } => r == dst,
        BpfInsn::Jgt { dst, src, .. } => r == dst || r == src,
        BpfInsn::JgtImm { dst, .. } => r == dst,
        BpfInsn::Jge { dst, src, .. } => r == dst || r == src,
        BpfInsn::JgeImm { dst, .. } => r == dst,
        BpfInsn::Jlt { dst, src, .. } => r == dst || r == src,
        BpfInsn::JltImm { dst, .. } => r == dst,
        BpfInsn::Jle { dst, src, .. } => r == dst || r == src,
        BpfInsn::JleImm { dst, .. } => r == dst,
        BpfInsn::Jsgt { dst, src, .. } => r == dst || r == src,
        BpfInsn::JsgtImm { dst, .. } => r == dst,
        BpfInsn::Jsge { dst, src, .. } => r == dst || r == src,
        BpfInsn::JsgeImm { dst, .. } => r == dst,
        BpfInsn::Jslt { dst, src, .. } => r == dst || r == src,
        BpfInsn::JsltImm { dst, .. } => r == dst,
        BpfInsn::Jsle { dst, src, .. } => r == dst || r == src,
        BpfInsn::JsleImm { dst, .. } => r == dst,
        BpfInsn::Call { .. } => 1 <= r <= 5,
        BpfInsn::CallSub { .. } => 1 <= r <= 5,
        BpfInsn::CallKfunc { .. } => 1 <= r <= 5,
        BpfInsn::Exit => r == 0,
        _ => false,
    }
}

/// Register `r` is written by the instruction: the destination of a move, an
/// operation or a load; a call clobbers R0 to R5.
pub open spec fn writes(i: BpfInsn, r: int) -> bool {
    match i {
        BpfInsn::MovImm { dst, .. } => r == dst,
        BpfInsn::MovReg { dst, .. } => r == dst,
        BpfInsn::AddImm { dst, .. } => r == dst,
        BpfInsn::AddReg { dst, .. } => r == dst,
        BpfInsn::SubImm { dst, .. } => r == dst,
        BpfInsn::SubReg { dst, .. } => r == dst,
        BpfInsn::AndImm { dst, .. } => r == dst,
        BpfInsn::AndReg { dst, .. } => r == dst,
        BpfInsn::OrImm { dst, .. } => r == dst,
        BpfInsn::OrReg { dst, .. } => r == dst,
        BpfInsn::XorImm { dst, .. } => r == dst,
        BpfInsn::XorReg { dst, .. } => r == dst,
        BpfInsn::LshImm { dst, .. } => r == dst,
        BpfInsn::LshReg { dst, .. } => r == dst,
        BpfInsn::RshImm { dst, .. } => r == dst,
        BpfInsn::RshReg { dst, .. } => r == dst,
        BpfInsn::ArshImm { dst, .. } => r == dst,
        BpfInsn::ArshReg { dst, .. } => r == dst,
        BpfInsn::Add32Imm { dst, .. } => r == dst,
        BpfInsn::Add32Reg { dst, .. } => r == dst,
        BpfInsn::Sub32Imm { dst, .. } => r == dst,
        BpfInsn::Sub32Reg { dst, .. } => r == dst,
        BpfInsn::And32Imm { dst, .. } => r == dst,
        BpfInsn::And32Reg { dst, .. } => r == dst,
        BpfInsn::Or32Imm { dst, .. } => r == dst,
        BpfInsn::Or32Reg { dst, .. } => r == dst,
        BpfInsn::Xor32Imm { dst, .. } => r == dst,
        BpfInsn::Xor32Reg { dst, .. } => r == dst,
        BpfInsn::Lsh32Imm { dst, .. } => r == dst,
        BpfInsn::Lsh32Reg { dst, .. } => r == dst,
        BpfInsn::Rsh32Imm { dst, .. } => r == dst,
        BpfInsn::Rsh32Reg { dst, .. } => r == dst,
        BpfInsn::Arsh32Imm { dst, .. } => r == dst,
        BpfInsn::Arsh32Reg { dst, .. } => r == dst,
        BpfInsn::LdMem { dst, .. } => r == dst,
        BpfInsn::LdImm64 { dst, .. } => r == dst,
        BpfInsn::LdMapFd { dst, .. } => r == dst,
        BpfInsn::LdMapValue { dst, .. } => r == dst,
        BpfInsn::Call { .. } => 0 <= r <= 5,
        BpfInsn::CallSub { .. } => 0 <= r <= 5,
        BpfInsn::CallKfunc { .. } => 0 <= r <= 5,
        _ => false,
    }
}

/// The frame offset of a stack slot: slot 0 is at -8.
pub open spec fn frame_offset(k: int) -> int {
    -8 * (k + 1)
}

/// The offset is one of the 64 slots of the frame.
pub open spec fn names_slot(offset: int) -> bool {
    exists|k: int| 0 <= k < 64 && offset == #[trigger] frame_offset(k)
}

/// Stack slot `k` may be read by the instruction: by a load from the frame at the
/// slot, and by every load whose slot is not known.
pub open spec fn reads_stack(i: BpfInsn, k: int) -> bool {
    match i {
        BpfInsn::LdMem { base, offset, .. } => base != 10 || offset == frame_offset(k)
            || !names_slot(offset as int),
        _ => false,
    }
}

/// The whole of stack slot `k` is written by the instruction: by an eight-byte
/// store to the frame.
pub open spec fn writes_stack(i: BpfInsn, k: int) -> bool {
    match i {
        BpfInsn::StMem { base, offset, size, .. } => base == 10 && size == MemSize::DW && offset
            == frame_offset(k),
        BpfInsn::StMemImm { base, offset, size, .. } => base == 10 && size == MemSize::DW && offset
            == frame_offset(k),
        _ => false,
    }
}

/// The offset of a compare, by which its target is found.
pub open spec fn compare_offset(i: BpfInsn) -> Option<i16> {
    match i {
        BpfInsn::Jeq { offset, .. } => Some(offset),
        BpfInsn::JeqImm { offset, .. } => Some(offset),
        BpfInsn::Jne { offset, .. } => Some(offset),
        BpfInsn::JneImm { offset, .. } => Some(offset),
        BpfInsn::Jgt { offset, .. } => Some(offset),
        BpfInsn::JgtImm { offset, .. } => Some(offset),
        BpfInsn::Jge { offset, .. } => Some(offset),
        BpfInsn::JgeImm { offset, .. } => Some(offset),
        BpfInsn::Jlt { offset, .. } => Some(offset),
        BpfInsn::JltImm { offset, .. } => Some(offset),
        BpfInsn::Jle { offset, .. } => Some(offset),
        BpfInsn::JleImm { offset, .. } => Some(offset),
        BpfInsn::Jsgt { offset, .. } => Some(offset),
        BpfInsn::JsgtImm { offset, .. } => Some(offset),
        BpfInsn::Jsge { offset, .. } => Some(offset),
        BpfInsn::JsgeImm { offset, .. } => Some(offset),
        BpfInsn::Jslt { offset, .. } => Some(offset),
        BpfInsn::JsltImm { offset, .. } => Some(offset),
        BpfInsn::Jsle { offset, .. } => Some(offset),
        BpfInsn::JsleImm { offset, .. } => Some(offset),
        _ => None,
    }
}

/// Control may go from `a` to `b` inside one function: an exit ends it, a jump goes
/// to its target, a compare to its target or on, and the rest go on.
pub open spec fn flows(insns: Seq<BpfInsn>, a: int, b: int) -> bool {
    &&& 0 <= a < insns.len()
    &&& 0 <= b < insns.len()
    &&& match insns[a] {
        BpfInsn::Exit => false,
        BpfInsn::Jmp { offset } => b == a + 1 + offset,
        _ => b == a + 1 || (compare_offset(insns[a]) matches Some(offset) && b == a + 1 + offset),
    }
}

/// The instruction at `c` calls the subprogram that begins at `entry`.
pub open spec fn calls(insns: Seq<BpfInsn>, c: int, entry: int) -> bool {
    0 <= c < insns.len() && (insns[c] matches BpfInsn::CallSub { offset } && entry == c + 1 + offset)
}

/// `entry` begins the subprogram that holds `pc`: it is called, and nothing between
/// the two is.
pub open spec fn holds(insns: Seq<BpfInsn>, entry: int, pc: int) -> bool {
    &&& 0 < entry <= pc
    &&& exists|c: int| calls(insns, c, entry)
    &&& forall|c: int, e: int| entry < e <= pc ==> !(#[trigger] calls(insns, c, e))
}

/// The immediate operand of an operation, a move or a compare.
pub open spec fn imm_operand(i: BpfInsn) -> Option<i32> {
    match i {
        BpfInsn::MovImm { imm, .. } => Some(imm),
        BpfInsn::AddImm { imm, .. } => Some(imm),
        BpfInsn::SubImm { imm, .. } => Some(imm),
        BpfInsn::AndImm { imm, .. } => Some(imm),
        BpfInsn::OrImm { imm, .. } => Some(imm),
        BpfInsn::XorImm { imm, .. } => Some(imm),
        BpfInsn::LshImm { imm, .. } => Some(imm),
        BpfInsn::RshImm { imm, .. } => Some(imm),
        BpfInsn::ArshImm { imm, .. } => Some(imm),
        BpfInsn::Add32Imm { imm, .. } => Some(imm),
        BpfInsn::Sub32Imm { imm, .. } => Some(imm),
        BpfInsn::And32Imm { imm, .. } => Some(imm),
        BpfInsn::Or32Imm { imm, .. } => Some(imm),
        BpfInsn::Xor32Imm { imm, .. } => Some(imm),
        BpfInsn::Lsh32Imm { imm, .. } => Some(imm),
        BpfInsn::Rsh32Imm { imm, .. } => Some(imm),
        BpfInsn::Arsh32Imm { imm, .. } => Some(imm),
        BpfInsn::JeqImm { imm, .. } => Some(imm),
        BpfInsn::JneImm { imm, .. } => Some(imm),
        BpfInsn::JgtImm { imm, .. } => Some(imm),
        BpfInsn::JgeImm { imm, .. } => Some(imm),
        BpfInsn::JltImm { imm, .. } => Some(imm),
        BpfInsn::JleImm { imm, .. } => Some(imm),
        BpfInsn::JsgtImm { imm, .. } => Some(imm),
        BpfInsn::JsgeImm { imm, .. } => Some(imm),
        BpfInsn::JsltImm { imm, .. } => Some(imm),
        BpfInsn::JsleImm { imm, .. } => Some(imm),
        _ => None,
    }
}

/// The instruction with another immediate operand.
pub open spec fn with_imm(i: BpfInsn, imm: i32) -> BpfInsn {
    match i {
        BpfInsn::MovImm { dst, .. } => BpfInsn::MovImm { dst, imm },
        BpfInsn::AddImm { dst, .. } => BpfInsn::AddImm { dst, imm },
        BpfInsn::SubImm { dst, .. } => BpfInsn::SubImm { dst, imm },
        BpfInsn::AndImm { dst, .. } => BpfInsn::AndImm { dst, imm },
        BpfInsn::OrImm { dst, .. } => BpfInsn::OrImm { dst, imm },
        BpfInsn::XorImm { dst, .. } => BpfInsn::XorImm { dst, imm },
        BpfInsn::LshImm { dst, .. } => BpfInsn::LshImm { dst, imm },
        BpfInsn::RshImm { dst, .. } => BpfInsn::RshImm { dst, imm },
        BpfInsn::ArshImm { dst, .. } => BpfInsn::ArshImm { dst, imm },
        BpfInsn::Add32Imm { dst, .. } => BpfInsn::Add32Imm { dst, imm },
        BpfInsn::Sub32Imm { dst, .. } => BpfInsn::Sub32Imm { dst, imm },
        BpfInsn::And32Imm { dst, .. } => BpfInsn::And32Imm { dst, imm },
        BpfInsn::Or32Imm { dst, .. } => BpfInsn::Or32Imm { dst, imm },
        BpfInsn::Xor32Imm { dst, .. } => BpfInsn::Xor32Imm { dst, imm },
        BpfInsn::Lsh32Imm { dst, .. } => BpfInsn::Lsh32Imm { dst, imm },
        BpfInsn::Rsh32Imm { dst, .. } => BpfInsn::Rsh32Imm { dst, imm },
        BpfInsn::Arsh32Imm { dst, .. } => BpfInsn::Arsh32Imm { dst, imm },
        BpfInsn::JeqImm { dst, offset, .. } => BpfInsn::JeqImm { dst, imm, offset },
        BpfInsn::JneImm { dst, offset, .. } => BpfInsn::JneImm { dst, imm, offset },
        BpfInsn::JgtImm { dst, offset, .. } => BpfInsn::JgtImm { dst, imm, offset },
        BpfInsn::JgeImm { dst, offset, .. } => BpfInsn::JgeImm { dst, imm, offset },
        BpfInsn::JltImm { dst, offset, .. } => BpfInsn::JltImm { dst, imm, offset },
        BpfInsn::JleImm { dst, offset, .. } => BpfInsn::JleImm { dst, imm, offset },
        BpfInsn::JsgtImm { dst, offset, .. } => BpfInsn::JsgtImm { dst, imm, offset },
        BpfInsn::JsgeImm { dst, offset, .. } => BpfInsn::JsgeImm { dst, imm, offset },
        BpfInsn::JsltImm { dst, offset, .. } => BpfInsn::JsltImm { dst, imm, offset },
        BpfInsn::JsleImm { dst, offset, .. } => BpfInsn::JsleImm { dst, imm, offset },
        other => other,
    }
}

/// The register form of an operation or a move: its source, and its immediate form
/// with a number in place of the source.
pub open spec fn source_form(i: BpfInsn, imm: i32) -> Option<(u8, BpfInsn)> {
    match i {
        BpfInsn::MovReg { dst, src } => Some((src, BpfInsn::MovImm { dst, imm })),
        BpfInsn::AddReg { dst, src } => Some((src, BpfInsn::AddImm { dst, imm })),
        BpfInsn::SubReg { dst, src } => Some((src, BpfInsn::SubImm { dst, imm })),
        BpfInsn::AndReg { dst, src } => Some((src, BpfInsn::AndImm { dst, imm })),
        BpfInsn::OrReg { dst, src } => Some((src, BpfInsn::OrImm { dst, imm })),
        BpfInsn::XorReg { dst, src } => Some((src, BpfInsn::XorImm { dst, imm })),
        BpfInsn::LshReg { dst, src } => Some((src, BpfInsn::LshImm { dst, imm })),
        BpfInsn::RshReg { dst, src } => Some((src, BpfInsn::RshImm { dst, imm })),
        BpfInsn::ArshReg { dst, src } => Some((src, BpfInsn::ArshImm { dst, imm })),
        BpfInsn::Add32Reg { dst, src } => Some((src, BpfInsn::Add32Imm { dst, imm })),
        BpfInsn::Sub32Reg { dst, src } => Some((src, BpfInsn::Sub32Imm { dst, imm })),
        BpfInsn::And32Reg { dst, src } => Some((src, BpfInsn::And32Imm { dst, imm })),
        BpfInsn::Or32Reg { dst, src } => Some((src, BpfInsn::Or32Imm { dst, imm })),
        BpfInsn::Xor32Reg { dst, src } => Some((src, BpfInsn::Xor32Imm { dst, imm })),
        BpfInsn::Lsh32Reg { dst, src } => Some((src, BpfInsn::Lsh32Imm { dst, imm })),
        BpfInsn::Rsh32Reg { dst, src } => Some((src, BpfInsn::Rsh32Imm { dst, imm })),
        BpfInsn::Arsh32Reg { dst, src } => Some((src, BpfInsn::Arsh32Imm { dst, imm })),
        _ => None,
    }
}

/// The instruction with another code offset.
pub open spec fn with_target(i: BpfInsn, offset: i16) -> BpfInsn {
    match i {
        BpfInsn::Jmp { .. } => BpfInsn::Jmp { offset },
        BpfInsn::Jeq { dst, src, .. } => BpfInsn::Jeq { dst, src, offset },
        BpfInsn::JeqImm { dst, imm, .. } => BpfInsn::JeqImm { dst, imm, offset },
        BpfInsn::Jne { dst, src, .. } => BpfInsn::Jne { dst, src, offset },
        BpfInsn::JneImm { dst, imm, .. } => BpfInsn::JneImm { dst, imm, offset },
        BpfInsn::Jgt { dst, src, .. } => BpfInsn::Jgt { dst, src, offset },
        BpfInsn::JgtImm { dst, imm, .. } => BpfInsn::JgtImm { dst, imm, offset },
        BpfInsn::Jge { dst, src, .. } => BpfInsn::Jge { dst, src, offset },
        BpfInsn::JgeImm { dst, imm, .. } => BpfInsn::JgeImm { dst, imm, offset },
        BpfInsn::Jlt { dst, src, .. } => BpfInsn::Jlt { dst, src, offset },
        BpfInsn::JltImm { dst, imm, .. } => BpfInsn::JltImm { dst, imm, offset },
        BpfInsn::Jle { dst, src, .. } => BpfInsn::Jle { dst, src, offset },
        BpfInsn::JleImm { dst, imm, .. } => BpfInsn::JleImm { dst, imm, offset },
        BpfInsn::Jsgt { dst, src, .. } => BpfInsn::Jsgt { dst, src, offset },
        BpfInsn::JsgtImm { dst, imm, .. } => BpfInsn::JsgtImm { dst, imm, offset },
        BpfInsn::Jsge { dst, src, .. } => BpfInsn::Jsge { dst, src, offset },
        BpfInsn::JsgeImm { dst, imm, .. } => BpfInsn::JsgeImm { dst, imm, offset },
        BpfInsn::Jslt { dst, src, .. } => BpfInsn::Jslt { dst, src, offset },
        BpfInsn::JsltImm { dst, imm, .. } => BpfInsn::JsltImm { dst, imm, offset },
        BpfInsn::Jsle { dst, src, .. } => BpfInsn::Jsle { dst, src, offset },
        BpfInsn::JsleImm { dst, imm, .. } => BpfInsn::JsleImm { dst, imm, offset },
        other => other,
    }
}

/// The code offset of a jump or a compare.
pub open spec fn code_offset(i: BpfInsn) -> Option<i16> {
    match i {
        BpfInsn::Jmp { offset } => Some(offset),
        _ => compare_offset(i),
    }
}

} // verus!
