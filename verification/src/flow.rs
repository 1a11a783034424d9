//! Control flow of a decoded program. Branch offsets count from the next
//! instruction: the target of a branch at `pc` is `pc + 1 + offset`.

use vstd::prelude::*;

use crate::insn::BpfInsn;
use crate::slot::Slot;

verus! {

impl BpfInsn {
    /// The code offset of a jump or compare; other instructions have none.
    pub open spec fn jump_offset(self) -> Option<i16> {
        if self is Jmp || self.is_compare() { Some(self.slot().off) } else { None }
    }

    /// The same jump or compare with another code offset; other instructions
    /// stay as they are.
    #[verifier::opaque]
    pub open spec fn with_jump_offset(self, offset: i16) -> BpfInsn {
        match self {
            BpfInsn::Jmp { .. } => BpfInsn::Jmp { offset },
            BpfInsn::Jeq { dst, src, .. } => BpfInsn::Jeq { dst, src, offset },
            BpfInsn::Jne { dst, src, .. } => BpfInsn::Jne { dst, src, offset },
            BpfInsn::Jgt { dst, src, .. } => BpfInsn::Jgt { dst, src, offset },
            BpfInsn::Jge { dst, src, .. } => BpfInsn::Jge { dst, src, offset },
            BpfInsn::Jlt { dst, src, .. } => BpfInsn::Jlt { dst, src, offset },
            BpfInsn::Jle { dst, src, .. } => BpfInsn::Jle { dst, src, offset },
            BpfInsn::Jsgt { dst, src, .. } => BpfInsn::Jsgt { dst, src, offset },
            BpfInsn::Jsge { dst, src, .. } => BpfInsn::Jsge { dst, src, offset },
            BpfInsn::Jslt { dst, src, .. } => BpfInsn::Jslt { dst, src, offset },
            BpfInsn::Jsle { dst, src, .. } => BpfInsn::Jsle { dst, src, offset },
            BpfInsn::JeqImm { dst, imm, .. } => BpfInsn::JeqImm { dst, imm, offset },
            BpfInsn::JneImm { dst, imm, .. } => BpfInsn::JneImm { dst, imm, offset },
            BpfInsn::JgtImm { dst, imm, .. } => BpfInsn::JgtImm { dst, imm, offset },
            BpfInsn::JgeImm { dst, imm, .. } => BpfInsn::JgeImm { dst, imm, offset },
            BpfInsn::JltImm { dst, imm, .. } => BpfInsn::JltImm { dst, imm, offset },
            BpfInsn::JleImm { dst, imm, .. } => BpfInsn::JleImm { dst, imm, offset },
            BpfInsn::JsgtImm { dst, imm, .. } => BpfInsn::JsgtImm { dst, imm, offset },
            BpfInsn::JsgeImm { dst, imm, .. } => BpfInsn::JsgeImm { dst, imm, offset },
            BpfInsn::JsltImm { dst, imm, .. } => BpfInsn::JsltImm { dst, imm, offset },
            BpfInsn::JsleImm { dst, imm, .. } => BpfInsn::JsleImm { dst, imm, offset },
            other => other,
        }
    }
}

/// A jump or compare stays one with another offset.
proof fn lemma_jump_kind(insn: BpfInsn, offset: i16)
    ensures
        (insn.with_jump_offset(offset) is Jmp) == (insn is Jmp),
        insn is Jmp || insn.is_compare() ==> insn.with_jump_offset(offset).is_single()
            && insn.with_jump_offset(offset).slot() == (Slot { off: offset, ..insn.slot() }),
{
    reveal(BpfInsn::slot);
    reveal(BpfInsn::with_jump_offset);
}

/// Another offset changes the offset field of the slot and nothing else.
pub proof fn lemma_with_jump_offset(insn: BpfInsn, offset: i16)
    ensures
        ({
            let r = insn.with_jump_offset(offset);
            if insn.jump_offset() is Some {
                &&& r.jump_offset() == Some(offset)
                &&& r.slot() == (Slot { off: offset, ..insn.slot() })
                &&& (r is Jmp) == (insn is Jmp)
                &&& r.is_single()
            } else {
                r == insn
            }
        }),
{
    lemma_jump_kind(insn, offset);
    if insn.jump_offset() is None {
        assert(insn.with_jump_offset(offset) == insn) by {
            reveal(BpfInsn::slot);
            reveal(BpfInsn::with_jump_offset);
        }
    }
}

/// A branch with the offset that it has already is the same branch.
pub proof fn lemma_same_jump_offset(insn: BpfInsn)
    requires
        insn.jump_offset() is Some,
    ensures
        insn.with_jump_offset(insn.jump_offset()->0) == insn,
{
    reveal(BpfInsn::slot);
    reveal(BpfInsn::with_jump_offset);
}

/// The later of two offsets stands.
pub proof fn lemma_with_jump_offset_twice(insn: BpfInsn, a: i16, b: i16)
    ensures
        insn.with_jump_offset(a).with_jump_offset(b) == insn.with_jump_offset(b),
{
    reveal(BpfInsn::with_jump_offset);
}

/// The target of a branch at `pc`.
pub open spec fn target(pc: int, offset: int) -> int {
    pc + 1 + offset
}

/// The target of the branch at `pc`, where it lies in the program.
pub open spec fn jump_target(insns: Seq<BpfInsn>, pc: int) -> Seq<int> {
    match insns[pc].jump_offset() {
        Some(offset) if 0 <= target(pc, offset as int) < insns.len() => seq![
            target(pc, offset as int),
        ],
        _ => seq![],
    }
}

/// The next instruction, where there is one.
pub open spec fn fall_through(insns: Seq<BpfInsn>, pc: int) -> Seq<int> {
    if pc + 1 < insns.len() { seq![pc + 1] } else { seq![] }
}

/// The instructions that may execute behind `pc`: the fall-through first,
/// then the branch target. An exit has none, an unconditional jump only its
/// target; targets outside the program contribute nothing.
pub open spec fn successor_list(insns: Seq<BpfInsn>, pc: int) -> Seq<int> {
    match insns[pc] {
        BpfInsn::Exit => seq![],
        BpfInsn::Jmp { .. } => jump_target(insns, pc),
        _ => fall_through(insns, pc) + jump_target(insns, pc),
    }
}

/// The edges of the control flow graph.
pub open spec fn flow_edges(insns: Seq<BpfInsn>) -> spec_fn(int, int) -> bool {
    |a: int, b: int| 0 <= a < insns.len() && successor_list(insns, a).contains(b)
}

/// The code offset of a branch instruction, and `None` for everything else:
/// the offset of a memory access is a stack offset, and that of a call or an
/// exit is never re-based.
pub fn branch_offset(insn: &BpfInsn) -> (offset: Option<i16>)
    ensures
        offset == insn.jump_offset(),
{
    reveal(BpfInsn::slot);
    match *insn {
        BpfInsn::Jmp { offset } => Some(offset),
        BpfInsn::Jeq { offset, .. }
        | BpfInsn::Jne { offset, .. }
        | BpfInsn::Jgt { offset, .. }
        | BpfInsn::Jge { offset, .. }
        | BpfInsn::Jlt { offset, .. }
        | BpfInsn::Jle { offset, .. }
        | BpfInsn::Jsgt { offset, .. }
        | BpfInsn::Jsge { offset, .. }
        | BpfInsn::Jslt { offset, .. }
        | BpfInsn::Jsle { offset, .. }
        | BpfInsn::JeqImm { offset, .. }
        | BpfInsn::JneImm { offset, .. }
        | BpfInsn::JgtImm { offset, .. }
        | BpfInsn::JgeImm { offset, .. }
        | BpfInsn::JltImm { offset, .. }
        | BpfInsn::JleImm { offset, .. }
        | BpfInsn::JsgtImm { offset, .. }
        | BpfInsn::JsgeImm { offset, .. }
        | BpfInsn::JsltImm { offset, .. }
        | BpfInsn::JsleImm { offset, .. } => Some(offset),
        _ => None,
    }
}

/// The position `pc + 1 + offset`, where it lies in a program of `len`
/// instructions.
pub fn resolve(pc: u32, offset: i32, len: usize) -> (t: Option<u32>)
    requires
        len <= u32::MAX,
    ensures
        t == if 0 <= target(pc as int, offset as int) < len {
            Some(target(pc as int, offset as int) as u32)
        } else {
            None::<u32>
        },
{
    let t: i64 = pc as i64 + 1 + offset as i64;
    if 0 <= t && t < len as i64 {
        Some(t as u32)
    } else {
        None
    }
}

/// The successors of one instruction in the decoded CFG. Both sides of a
/// conditional branch are explored; out-of-range targets contribute nothing.
pub fn successors(insns: &[BpfInsn], pc: u32) -> (out: Vec<u32>)
    requires
        insns@.len() <= u32::MAX,
        pc < insns@.len(),
    ensures
        out@.map_values(|x: u32| x as int) == successor_list(insns@, pc as int),
{
    let mut out: Vec<u32> = Vec::new();
    let insn: BpfInsn = insns[pc as usize];
    if let BpfInsn::Exit = insn {
        proof {
            assert(out@.map_values(|x: u32| x as int) =~= successor_list(insns@, pc as int));
        }
        return out;
    }
    let mut falls: bool = true;
    if let BpfInsn::Jmp { .. } = insn {
        falls = false;
    }
    if falls && (pc as usize) + 1 < insns.len() {
        out.push(pc + 1);
    }
    if let Some(offset) = branch_offset(&insn) {
        if let Some(t) = resolve(pc, offset as i32, insns.len()) {
            out.push(t);
        }
    }
    proof {
        assert(out@.map_values(|x: u32| x as int) =~= successor_list(insns@, pc as int));
    }
    out
}

} // verus!
