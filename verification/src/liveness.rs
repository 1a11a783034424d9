//! Static liveness: which registers and stack slots may be read before each
//! instruction.
//!
//! A register is live before an instruction when some path from there reads it
//! before any instruction on the path writes it; a stack slot likewise. The
//! analysis solves
//!
//! ```text
//! out[i] = union of in[s] over the successors s of i
//! in[i]  = (out[i] without def[i]) with use[i]
//! ```
//!
//! to its least fixed point, starting from nothing.
//!
//! Accesses through a register other than the frame pointer have no statically
//! known slot: as a read they make every slot live, as a write they kill none.
//! So the masks over-approximate what is really read, and never erase state
//! that a later instruction needs.

use vstd::prelude::*;

use crate::cfg;
use crate::flow;
use crate::flow::{resolve, successors};
use crate::graph;
use crate::insn;
use crate::insn::{alu_op, compare_op, mem_op, slot_of, BpfInsn};
use crate::opcode;
use crate::slot::Slot;

verus! {

/// The registers R0 to R10.
pub const NUM_REGS: usize = 11;

/// The bytes of the stack frame.
pub const STACK_SIZE: usize = 512;

/// The eight-byte slots of the stack frame.
pub const STACK_SLOTS: usize = 64;

// ── What an instruction reads and writes ────────────────────────────────────

/// The instruction with this slot reads register `r`.
pub open spec fn reads_reg(s: Slot, r: int) -> bool {
    if s.op == opcode::CALL {
        1 <= r <= 5
    } else if s.op == opcode::EXIT {
        r == 0
    } else if insn::is_alu_op(s.op) {
        (s.op != opcode::MOV_IMM && s.op != opcode::MOV_REG && r == s.dst) || (insn::is_x_op(s.op)
            && r == s.src)
    } else if insn::is_compare_op(s.op) {
        r == s.dst || (insn::is_x_op(s.op) && r == s.src)
    } else if insn::is_mem_op(s.op) {
        if s.op % 8 == 1 { r == s.src } else { r == s.dst || (s.op % 8 == 3 && r == s.src) }
    } else {
        false
    }
}

/// The instruction with this slot writes register `r`: a call clobbers the
/// caller-saved R0 to R5.
pub open spec fn writes_reg(s: Slot, r: int) -> bool {
    if s.op == opcode::CALL {
        r <= 5
    } else {
        (insn::is_alu_op(s.op) || s.op == opcode::LD_IMM64 || (insn::is_mem_op(s.op) && s.op % 8
            == 1)) && r == s.dst
    }
}

/// The stack slot at the frame offset `off`, where it is aligned and lies in
/// the frame: slot 0 is at -8.
pub open spec fn slot_at(off: int) -> Option<int> {
    if -STACK_SIZE <= off < 0 && off % 8 == 0 { Some((-off - 1) / 8) } else { None }
}

/// The instruction with this slot may read stack slot `k`: a load does, unless
/// it is one from the frame pointer whose slot is known to be another.
pub open spec fn reads_slot(s: Slot, k: int) -> bool {
    insn::is_mem_op(s.op) && s.op % 8 == 1 && (s.src == 10 && slot_at(s.off as int) is Some
        ==> slot_at(s.off as int) == Some(k))
}

/// The instruction with this slot writes all of stack slot `k`: an eight-byte
/// store to the frame at a known slot.
pub open spec fn writes_slot(s: Slot, k: int) -> bool {
    (s.op == 0x7b || s.op == 0x7a) && s.dst == 10 && slot_at(s.off as int) == Some(k)
}

// ── Where control goes ──────────────────────────────────────────────────────

/// `t` is the entry of a called subprogram.
pub open spec fn is_entry(insns: Seq<BpfInsn>, t: int) -> bool {
    exists|pc: int| 0 <= pc < insns.len() && #[trigger] cfg::call_target(insns, pc) == Some(t)
}

/// The entry of the subprogram that holds the instruction at `i`: the last
/// one up to it; `None` in the main program.
pub open spec fn entry_at(insns: Seq<BpfInsn>, i: int) -> Option<int>
    decreases i,
{
    if i <= 0 {
        None
    } else if is_entry(insns, i) {
        Some(i)
    } else {
        entry_at(insns, i - 1)
    }
}

/// The edges along which liveness travels: an exit of a subprogram returns
/// behind each of its calls, a call goes to its entry, and the others to their
/// successors.
pub open spec fn live_edges(insns: Seq<BpfInsn>) -> spec_fn(int, int) -> bool {
    |a: int, b: int|
        0 <= a < insns.len() && 0 <= b < insns.len() && (match insns[a] {
            BpfInsn::Exit => entry_at(insns, a) is Some && b > 0 && cfg::call_target(insns, b - 1)
                == entry_at(insns, a),
            BpfInsn::CallSub { .. } => cfg::call_target(insns, a) == Some(b),
            _ => flow::successor_list(insns, a).contains(b),
        })
}

// ── Liveness ────────────────────────────────────────────────────────────────

/// `p` is a path that ends in a read, with no write in front of it.
pub open spec fn is_read_path(
    e: spec_fn(int, int) -> bool,
    reads: spec_fn(int) -> bool,
    writes: spec_fn(int) -> bool,
    p: Seq<int>,
) -> bool {
    &&& graph::is_path(e, p)
    &&& reads(p.last())
    &&& forall|i: int| 0 <= i < p.len() - 1 ==> !writes(#[trigger] p[i])
}

/// Some path from `pc` reads before it writes.
pub open spec fn live_before(
    e: spec_fn(int, int) -> bool,
    reads: spec_fn(int) -> bool,
    writes: spec_fn(int) -> bool,
    pc: int,
) -> bool {
    exists|p: Seq<int>| #[trigger] is_read_path(e, reads, writes, p) && p[0] == pc
}

pub open spec fn reg_reads(insns: Seq<BpfInsn>, r: int) -> spec_fn(int) -> bool {
    |i: int| 0 <= i < insns.len() && reads_reg(insns[i].slot(), r)
}

pub open spec fn reg_writes(insns: Seq<BpfInsn>, r: int) -> spec_fn(int) -> bool {
    |i: int| 0 <= i < insns.len() && writes_reg(insns[i].slot(), r)
}

pub open spec fn slot_reads(insns: Seq<BpfInsn>, k: int) -> spec_fn(int) -> bool {
    |i: int| 0 <= i < insns.len() && reads_slot(insns[i].slot(), k)
}

pub open spec fn slot_writes(insns: Seq<BpfInsn>, k: int) -> spec_fn(int) -> bool {
    |i: int| 0 <= i < insns.len() && writes_slot(insns[i].slot(), k)
}

/// Register `r` may be read before it is written, from `pc` on.
pub open spec fn reg_live(insns: Seq<BpfInsn>, pc: int, r: int) -> bool {
    live_before(live_edges(insns), reg_reads(insns, r), reg_writes(insns, r), pc)
}

/// Stack slot `k` may be read before it is written, from `pc` on.
pub open spec fn slot_live(insns: Seq<BpfInsn>, pc: int, k: int) -> bool {
    live_before(live_edges(insns), slot_reads(insns, k), slot_writes(insns, k), pc)
}

/// Bit `r` of a register mask.
pub open spec fn bit16(m: u16, r: int) -> bool {
    (m >> (r as u16)) & 1 == 1
}

/// Bit `k` of a slot mask.
pub open spec fn bit64(m: u64, k: int) -> bool {
    (m >> (k as u64)) & 1 == 1
}

/// A read at the node itself is a path.
proof fn lemma_live_read(
    e: spec_fn(int, int) -> bool,
    reads: spec_fn(int) -> bool,
    writes: spec_fn(int) -> bool,
    pc: int,
)
    requires
        reads(pc),
    ensures
        live_before(e, reads, writes, pc),
{
    let p = seq![pc];
    assert(is_read_path(e, reads, writes, p));
}

/// Liveness travels backward along an edge, unless the node writes.
proof fn lemma_live_step(
    e: spec_fn(int, int) -> bool,
    reads: spec_fn(int) -> bool,
    writes: spec_fn(int) -> bool,
    a: int,
    b: int,
)
    requires
        e(a, b),
        !writes(a),
        live_before(e, reads, writes, b),
    ensures
        live_before(e, reads, writes, a),
{
    let p = choose|p: Seq<int>| #[trigger] is_read_path(e, reads, writes, p) && p[0] == b;
    let q = seq![a] + p;
    assert(q.last() == p.last());
    assert forall|i: int| 0 <= i < q.len() - 1 implies e(#[trigger] q[i], q[i + 1]) by {
        if i > 0 {
            assert(e(p[i - 1], p[i - 1 + 1]));
        }
    }
    assert forall|i: int| 0 <= i < q.len() - 1 implies !writes(#[trigger] q[i]) by {
        if i > 0 {
            assert(!writes(p[i - 1]));
        }
    }
    assert(is_read_path(e, reads, writes, q));
}

/// What holds of every read, and travels backward, holds of every live node.
proof fn lemma_live_closed(
    e: spec_fn(int, int) -> bool,
    reads: spec_fn(int) -> bool,
    writes: spec_fn(int) -> bool,
    inside: spec_fn(int) -> bool,
    pc: int,
)
    requires
        forall|x: int| #[trigger] reads(x) ==> inside(x),
        forall|x: int, y: int| #[trigger] e(x, y) && !writes(x) && inside(y) ==> inside(x),
        live_before(e, reads, writes, pc),
    ensures
        inside(pc),
{
    let p = choose|p: Seq<int>| #[trigger] is_read_path(e, reads, writes, p) && p[0] == pc;
    lemma_path_closed(e, reads, writes, inside, p, 0);
}

proof fn lemma_path_closed(
    e: spec_fn(int, int) -> bool,
    reads: spec_fn(int) -> bool,
    writes: spec_fn(int) -> bool,
    inside: spec_fn(int) -> bool,
    p: Seq<int>,
    i: int,
)
    requires
        forall|x: int| #[trigger] reads(x) ==> inside(x),
        forall|x: int, y: int| #[trigger] e(x, y) && !writes(x) && inside(y) ==> inside(x),
        is_read_path(e, reads, writes, p),
        0 <= i < p.len(),
    ensures
        inside(p[i]),
    decreases p.len() - i,
{
    if i < p.len() - 1 {
        lemma_path_closed(e, reads, writes, inside, p, i + 1);
        assert(e(p[i], p[i + 1]));
    }
}

// ── Masks ───────────────────────────────────────────────────────────────────

proof fn lemma_bits16(a: u16, b: u16, r: u16)
    by (bit_vector)
    requires
        r < 16,
    ensures
        ((a | b) >> r) & 1 == 1 <==> ((a >> r) & 1 == 1 || (b >> r) & 1 == 1),
        ((a & !b) >> r) & 1 == 1 <==> ((a >> r) & 1 == 1 && !((b >> r) & 1 == 1)),
        (a | b) >= a,
        (0u16 >> r) & 1 == 0,
{
}

proof fn lemma_one16(k: u16, r: u16)
    by (bit_vector)
    requires
        r < 16,
        k < 16,
    ensures
        ((1u16 << k) >> r) & 1 == 1 <==> k == r,
{
}

proof fn lemma_bits64(a: u64, b: u64, r: u64)
    by (bit_vector)
    requires
        r < 64,
    ensures
        ((a | b) >> r) & 1 == 1 <==> ((a >> r) & 1 == 1 || (b >> r) & 1 == 1),
        ((a & !b) >> r) & 1 == 1 <==> ((a >> r) & 1 == 1 && !((b >> r) & 1 == 1)),
        (a | b) >= a,
        (0u64 >> r) & 1 == 0,
        (0xffff_ffff_ffff_ffffu64 >> r) & 1 == 1,
{
}

proof fn lemma_one64(k: u64, r: u64)
    by (bit_vector)
    requires
        r < 64,
        k < 64,
    ensures
        ((1u64 << k) >> r) & 1 == 1 <==> k == r,
{
}

/// A mask of registers stands for a set.
pub open spec fn mask_is(m: u16, set: spec_fn(int) -> bool) -> bool {
    forall|r: int| 0 <= r < 16 ==> #[trigger] bit16(m, r) == set(r)
}

/// A mask of slots stands for a set.
pub open spec fn slots_are(m: u64, set: spec_fn(int) -> bool) -> bool {
    forall|k: int| 0 <= k < 64 ==> #[trigger] bit64(m, k) == set(k)
}

/// The mask of one register.
fn reg_bit(reg: u8) -> (m: u16)
    requires
        reg < 16,
    ensures
        mask_is(m, |r: int| r == reg),
{
    let m: u16 = 1u16 << (reg as u16);
    proof {
        assert forall|r: int| 0 <= r < 16 implies #[trigger] bit16(m, r) == (r == reg) by {
            lemma_one16(reg as u16, r as u16);
        }
    }
    m
}

/// The mask of one slot.
fn slot_bit(k: u64) -> (m: u64)
    requires
        k < 64,
    ensures
        slots_are(m, |r: int| r == k),
{
    let m: u64 = 1u64 << k;
    proof {
        assert forall|r: int| 0 <= r < 64 implies #[trigger] bit64(m, r) == (r == k) by {
            lemma_one64(k, r as u64);
        }
    }
    m
}

/// The union of two register masks.
fn both(a: u16, b: u16) -> (m: u16)
    ensures
        mask_is(m, |r: int| bit16(a, r) || bit16(b, r)),
        m >= a,
{
    let m: u16 = a | b;
    proof {
        lemma_bits16(a, b, 0);
        assert forall|r: int| 0 <= r < 16 implies #[trigger] bit16(m, r) == (bit16(a, r) || bit16(
            b,
            r,
        )) by {
            lemma_bits16(a, b, r as u16);
        }
    }
    m
}

/// The union of two slot masks.
fn both_slots(a: u64, b: u64) -> (m: u64)
    ensures
        slots_are(m, |r: int| bit64(a, r) || bit64(b, r)),
        m >= a,
{
    let m: u64 = a | b;
    proof {
        lemma_bits64(a, b, 0);
        assert forall|r: int| 0 <= r < 64 implies #[trigger] bit64(m, r) == (bit64(a, r) || bit64(
            b,
            r,
        )) by {
            lemma_bits64(a, b, r as u64);
        }
    }
    m
}

/// What is live before an instruction, by what is live behind it.
fn transfer_regs(out: u16, def: u16, used: u16) -> (m: u16)
    ensures
        mask_is(m, |r: int| (bit16(out, r) && !bit16(def, r)) || bit16(used, r)),
{
    let m: u16 = (out & !def) | used;
    proof {
        assert forall|r: int| 0 <= r < 16 implies #[trigger] bit16(m, r) == ((bit16(out, r)
            && !bit16(def, r)) || bit16(used, r)) by {
            lemma_bits16(out & !def, used, r as u16);
            lemma_bits16(out, def, r as u16);
        }
    }
    m
}

fn transfer_slots(out: u64, def: u64, used: u64) -> (m: u64)
    ensures
        slots_are(m, |r: int| (bit64(out, r) && !bit64(def, r)) || bit64(used, r)),
{
    let m: u64 = (out & !def) | used;
    proof {
        assert forall|r: int| 0 <= r < 64 implies #[trigger] bit64(m, r) == ((bit64(out, r)
            && !bit64(def, r)) || bit64(used, r)) by {
            lemma_bits64(out & !def, used, r as u64);
            lemma_bits64(out, def, r as u64);
        }
    }
    m
}

// ── Uses and definitions ────────────────────────────────────────────────────

/// The registers and stack slots that an instruction reads and writes.
struct InsnUseDef {
    use_regs: u16,
    def_regs: u16,
    read_slots: u64,
    write_slots: u64,
}

/// The slot of an access to the frame.
fn fixed_slot(offset: i16) -> (k: Option<u64>)
    ensures
        match k {
            Some(k) => slot_at(offset as int) == Some(k as int) && k < 64,
            None => slot_at(offset as int) is None,
        },
{
    let off: i32 = offset as i32;
    if off >= 0 || off < -512 {
        return None;
    }
    let below: u64 = (-off) as u64;
    if below % 8 != 0 {
        return None;
    }
    Some((below - 1) / 8)
}

/// The stack slots that a load through `base` at `offset` may read.
fn read_slots_for(base: u8, offset: i16) -> (m: u64)
    ensures
        slots_are(
            m,
            |k: int|
                base == 10 && slot_at(offset as int) is Some ==> slot_at(offset as int) == Some(k),
        ),
{
    let every: u64 = 0xffff_ffff_ffff_ffff;
    proof {
        assert forall|k: int| 0 <= k < 64 implies #[trigger] bit64(every, k) by {
            lemma_bits64(every, every, k as u64);
        }
    }
    if base == 10 {
        match fixed_slot(offset) {
            Some(k) => slot_bit(k),
            None => every,
        }
    } else {
        every
    }
}

/// The stack slots that an eight-byte store through `base` at `offset`
/// definitely writes.
fn write_slots_for(base: u8, offset: i16) -> (m: u64)
    ensures
        slots_are(m, |k: int| base == 10 && slot_at(offset as int) == Some(k)),
{
    proof {
        assert forall|k: int| 0 <= k < 64 implies !(#[trigger] bit64(0, k)) by {
            lemma_bits64(0, 0, k as u64);
        }
    }
    if base == 10 {
        match fixed_slot(offset) {
            Some(k) => slot_bit(k),
            None => 0,
        }
    } else {
        0
    }
}

/// The mask of R`from` to R5.
fn args_mask(from: u8) -> (m: u16)
    requires
        from <= 1,
    ensures
        mask_is(m, |r: int| from <= r <= 5),
{
    let one: u16 = both(both(both(reg_bit(1), reg_bit(2)), both(reg_bit(3), reg_bit(4))), reg_bit(5));
    if from == 0 {
        both(one, reg_bit(0))
    } else {
        one
    }
}

/// What an instruction reads and writes.
fn use_def(insn: &BpfInsn) -> (ud: InsnUseDef)
    requires
        insn.regs_valid(),
    ensures
        mask_is(ud.use_regs, |r: int| reads_reg(insn.slot(), r)),
        mask_is(ud.def_regs, |r: int| writes_reg(insn.slot(), r)),
        slots_are(ud.read_slots, |k: int| reads_slot(insn.slot(), k)),
        slots_are(ud.write_slots, |k: int| writes_slot(insn.slot(), k)),
{
    let s: Slot = slot_of(insn);
    proof {
        assert(s.op == opcode::LD_IMM64 || s.src <= 10) by {
            reveal(BpfInsn::slot);
        }
        assert forall|r: int| 0 <= r < 16 implies !(#[trigger] bit16(0, r)) by {
            lemma_bits16(0, 0, r as u16);
        }
        assert forall|k: int| 0 <= k < 64 implies !(#[trigger] bit64(0, k)) by {
            lemma_bits64(0, 0, k as u64);
        }
    }
    let x: bool = s.op / 8 % 2 == 1;
    if s.op == opcode::CALL {
        InsnUseDef { use_regs: args_mask(1), def_regs: args_mask(0), read_slots: 0, write_slots: 0 }
    } else if s.op == opcode::EXIT {
        InsnUseDef { use_regs: reg_bit(0), def_regs: 0, read_slots: 0, write_slots: 0 }
    } else if alu_op(s.op) {
        let dst: u16 = if s.op == opcode::MOV_IMM || s.op == opcode::MOV_REG {
            0
        } else {
            reg_bit(s.dst)
        };
        let use_regs: u16 = if x {
            both(dst, reg_bit(s.src))
        } else {
            dst
        };
        InsnUseDef { use_regs, def_regs: reg_bit(s.dst), read_slots: 0, write_slots: 0 }
    } else if compare_op(s.op) {
        let use_regs: u16 = if x {
            both(reg_bit(s.dst), reg_bit(s.src))
        } else {
            reg_bit(s.dst)
        };
        InsnUseDef { use_regs, def_regs: 0, read_slots: 0, write_slots: 0 }
    } else if mem_op(s.op) {
        if s.op % 8 == 1 {
            InsnUseDef {
                use_regs: reg_bit(s.src),
                def_regs: reg_bit(s.dst),
                read_slots: read_slots_for(s.src, s.off),
                write_slots: 0,
            }
        } else {
            let use_regs: u16 = if s.op % 8 == 3 {
                both(reg_bit(s.dst), reg_bit(s.src))
            } else {
                reg_bit(s.dst)
            };
            let write_slots: u64 = if s.op == 0x7b || s.op == 0x7a {
                write_slots_for(s.dst, s.off)
            } else {
                0
            };
            InsnUseDef { use_regs, def_regs: 0, read_slots: 0, write_slots }
        }
    } else {
        let def_regs: u16 = if s.op == opcode::LD_IMM64 {
            reg_bit(s.dst)
        } else {
            0
        };
        InsnUseDef { use_regs: 0, def_regs, read_slots: 0, write_slots: 0 }
    }
}

// ── Successors ──────────────────────────────────────────────────────────────

/// The entry is the last one up to the instruction.
proof fn lemma_entry_at(insns: Seq<BpfInsn>, i: int, t: int)
    requires
        0 < t <= i,
        is_entry(insns, t),
        forall|u: int| t < u <= i ==> !#[trigger] is_entry(insns, u),
    ensures
        entry_at(insns, i) == Some(t),
    decreases i,
{
    if i > t {
        assert(!is_entry(insns, i));
        lemma_entry_at(insns, i - 1, t);
    }
}

proof fn lemma_no_entry(insns: Seq<BpfInsn>, i: int)
    requires
        forall|u: int| 0 < u <= i ==> !#[trigger] is_entry(insns, u),
    ensures
        entry_at(insns, i) is None,
    decreases i,
{
    if i > 0 {
        assert(!is_entry(insns, i));
        lemma_no_entry(insns, i - 1);
    }
}

/// The target of the call at `pc`.
fn call_entry(program: &[BpfInsn], pc: usize) -> (t: Option<i64>)
    requires
        pc < program@.len() <= u32::MAX,
    ensures
        match t {
            Some(t) => cfg::call_target(program@, pc as int) == Some(t as int),
            None => cfg::call_target(program@, pc as int) is None,
        },
{
    match program[pc] {
        BpfInsn::CallSub { offset } => Some(pc as i64 + 1 + offset as i64),
        _ => None,
    }
}

/// The entry of the subprogram that holds the instruction at `i`; `None` in
/// the main program.
fn subprog_entry_at(i: usize, program: &[BpfInsn]) -> (r: Option<i64>)
    requires
        i < program@.len() <= u32::MAX,
    ensures
        match r {
            Some(t) => entry_at(program@, i as int) == Some(t as int),
            None => entry_at(program@, i as int) is None,
        },
{
    let mut best: Option<i64> = None;
    let mut pc: usize = 0;
    while pc < program.len()
        invariant
            i < program@.len() <= u32::MAX,
            pc <= program@.len(),
            best matches Some(t) ==> 0 < t <= i && is_entry(program@, t as int),
            forall|q: int|
                0 <= q < pc ==> covered(#[trigger] cfg::call_target(program@, q), i as int, best),
        decreases program@.len() - pc,
    {
        if let Some(t) = call_entry(program, pc) {
            if 0 < t && t <= i as i64 {
                proof {
                    assert(is_entry(program@, t as int));
                }
                let larger: bool = match best {
                    Some(b) => b < t,
                    None => true,
                };
                if larger {
                    best = Some(t);
                }
            }
        }
        pc = pc + 1;
    }
    proof {
        assert forall|u: int| 0 < u <= i && #[trigger] is_entry(program@, u) implies best is Some
            && u <= best->0 by {
            let q = choose|q: int|
                0 <= q < program@.len() && #[trigger] cfg::call_target(program@, q) == Some(u);
            assert(covered(cfg::call_target(program@, q), i as int, best));
        }
        match best {
            Some(t) => {
                lemma_entry_at(program@, i as int, t as int);
            },
            None => {
                lemma_no_entry(program@, i as int);
            },
        }
    }
    best
}

/// An entry up to `i` is not behind the best one so far.
spec fn covered(t: Option<int>, i: int, best: Option<i64>) -> bool {
    t matches Some(u) ==> (0 < u <= i ==> best is Some && u <= best->0)
}

/// The static successors of the instruction at `i`; none outside the program.
fn static_successors(i: usize, program: &[BpfInsn]) -> (succ: Vec<u32>)
    requires
        program@.len() <= u32::MAX,
    ensures
        i >= program@.len() ==> succ@.len() == 0,
        forall|b: u32| #[trigger] succ@.contains(b) == live_edges(program@)(i as int, b as int),
{
    let mut succ: Vec<u32> = Vec::new();
    if i >= program.len() {
        return succ;
    }
    let ghost e = live_edges(program@);
    match program[i] {
        BpfInsn::Exit => {
            let entry: i64 = match subprog_entry_at(i, program) {
                Some(t) => t,
                None => {
                    return succ;
                },
            };
            let mut pc: usize = 0;
            while pc + 1 < program.len()
                invariant
                    i < program@.len() <= u32::MAX,
                    program@[i as int] is Exit,
                    pc < program@.len(),
                    e == live_edges(program@),
                    entry_at(program@, i as int) == Some(entry as int),
                    forall|b: u32| #[trigger]
                        succ@.contains(b) == (b <= pc && e(i as int, b as int)),
                decreases program@.len() - pc,
            {
                let ghost before = succ@;
                let calls: bool = match call_entry(program, pc) {
                    Some(t) => t == entry,
                    None => false,
                };
                if calls {
                    succ.push(pc as u32 + 1);
                }
                proof {
                    assert(e(i as int, pc + 1) == calls);
                    assert forall|b: u32| #[trigger]
                        succ@.contains(b) == (b <= pc + 1 && e(i as int, b as int)) by {
                        if calls {
                            lemma_contains_push(before, (pc + 1) as u32, b);
                        }
                    }
                }
                pc = pc + 1;
            }
            proof {
                assert forall|b: u32| #[trigger] succ@.contains(b) == e(i as int, b as int) by {}
            }
            succ
        },
        BpfInsn::CallSub { offset } => {
            if let Some(t) = resolve(i as u32, offset, program.len()) {
                succ.push(t);
                proof {
                    assert forall|b: u32| #[trigger] succ@.contains(b) == e(i as int, b as int) by {
                        lemma_contains_push(Seq::<u32>::empty(), t, b);
                        assert(succ@ =~= Seq::<u32>::empty().push(t));
                    }
                }
            }
            succ
        },
        _ => {
            let list: Vec<u32> = successors(program, i as u32);
            proof {
                let all = flow::successor_list(program@, i as int);
                assert forall|b: u32| #[trigger] list@.contains(b) == e(i as int, b as int) by {
                    if list@.contains(b) {
                        let k = choose|k: int| 0 <= k < list@.len() && list@[k] == b;
                        assert(all[k] == list@.map_values(|x: u32| x as int)[k]);
                        assert(all[k] == b as int);
                        assert(all.contains(all[k]));
                        lemma_successor_inside(program@, i as int, k);
                    }
                    if all.contains(b as int) {
                        let k = choose|k: int| 0 <= k < all.len() && all[k] == b as int;
                        assert(list@.map_values(|x: u32| x as int)[k] == list@[k] as int);
                        assert(list@[k] == b);
                    }
                }
            }
            list
        },
    }
}

proof fn lemma_successor_inside(insns: Seq<BpfInsn>, i: int, k: int)
    requires
        0 <= i < insns.len(),
        0 <= k < flow::successor_list(insns, i).len(),
    ensures
        0 <= flow::successor_list(insns, i)[k] < insns.len(),
{
}

proof fn lemma_contains_push(v: Seq<u32>, x: u32, b: u32)
    ensures
        v.push(x).contains(b) == (v.contains(b) || b == x),
{
    if b == x {
        assert(v.push(x)[v.len() as int] == b);
    }
    if v.contains(b) {
        let k = choose|k: int| 0 <= k < v.len() && v[k] == b;
        assert(v.push(x)[k] == b);
    }
}

// ── The analysis ────────────────────────────────────────────────────────────

/// The liveness of one program: for each instruction, the registers and stack
/// slots that may be read before it executes.
#[derive(Debug, Clone, PartialEq, Eq)]
pub struct Liveness {
    /// Bit `r` of entry `i` set: register `r` may be live before `i`.
    regs: Vec<u16>,
    /// Bit `k` of entry `i` set: stack slot `k` may be live before `i`.
    slots: Vec<u64>,
}

impl Liveness {
    /// The registers live before `pc`, as a mask.
    pub closed spec fn regs_mask(self, pc: int) -> u16 {
        if 0 <= pc < self.regs@.len() { self.regs@[pc] } else { 0 }
    }

    /// The stack slots live before `pc`, as a mask.
    pub closed spec fn slots_mask(self, pc: int) -> u64 {
        if 0 <= pc < self.slots@.len() { self.slots@[pc] } else { 0 }
    }

    /// Registers live before `pc` (bit `r` for register `r`); none outside the
    /// program.
    pub fn live_regs_before(&self, pc: u32) -> (m: u16)
        ensures
            m == self.regs_mask(pc as int),
    {
        if (pc as usize) < self.regs.len() {
            self.regs[pc as usize]
        } else {
            0
        }
    }

    /// Stack slots live before `pc` (bit `k` for slot `k`); none outside the
    /// program.
    pub fn live_stack_before(&self, pc: u32) -> (m: u64)
        ensures
            m == self.slots_mask(pc as int),
    {
        if (pc as usize) < self.slots.len() {
            self.slots[pc as usize]
        } else {
            0
        }
    }
}

/// The masks are exactly the live registers and slots before each instruction.
pub open spec fn is_liveness(insns: Seq<BpfInsn>, l: Liveness) -> bool {
    &&& forall|pc: int, r: int|
        0 <= pc < insns.len() && 0 <= r < 16 ==> #[trigger] bit16(l.regs_mask(pc), r) == reg_live(
            insns,
            pc,
            r,
        )
    &&& forall|pc: int, k: int|
        0 <= pc < insns.len() && 0 <= k < 64 ==> #[trigger] bit64(l.slots_mask(pc), k)
            == slot_live(insns, pc, k)
    &&& forall|pc: int|
        #![trigger l.regs_mask(pc)]
        #![trigger l.slots_mask(pc)]
        !(0 <= pc < insns.len()) ==> l.regs_mask(pc) == 0 && l.slots_mask(pc) == 0
}

/// What is missing to full masks.
spec fn missing(regs: Seq<u16>, slots: Seq<u64>) -> int
    decreases regs.len(),
{
    if regs.len() == 0 || slots.len() == 0 {
        0
    } else {
        missing(regs.drop_last(), slots.drop_last()) + (0xffff - regs.last()) + (
        0xffff_ffff_ffff_ffff - slots.last())
    }
}

proof fn lemma_missing(regs: Seq<u16>, slots: Seq<u64>)
    requires
        regs.len() == slots.len(),
    ensures
        missing(regs, slots) >= 0,
    decreases regs.len(),
{
    if regs.len() > 0 {
        lemma_missing(regs.drop_last(), slots.drop_last());
    }
}

proof fn lemma_missing_less(regs: Seq<u16>, slots: Seq<u64>, i: int, m: u16, n: u64)
    requires
        regs.len() == slots.len(),
        0 <= i < regs.len(),
        m >= regs[i],
        n >= slots[i],
    ensures
        missing(regs.update(i, m), slots.update(i, n)) == missing(regs, slots) - (m - regs[i]) - (n
            - slots[i]),
    decreases regs.len(),
{
    let a = regs.update(i, m);
    let b = slots.update(i, n);
    if i == regs.len() - 1 {
        assert(a.drop_last() =~= regs.drop_last());
        assert(b.drop_last() =~= slots.drop_last());
    } else {
        lemma_missing_less(regs.drop_last(), slots.drop_last(), i, m, n);
        assert(a.drop_last() =~= regs.drop_last().update(i, m));
        assert(b.drop_last() =~= slots.drop_last().update(i, n));
    }
}

/// Every bit that is set is justified by a path.
spec fn justified(insns: Seq<BpfInsn>, regs: Seq<u16>, slots: Seq<u64>) -> bool {
    &&& regs.len() == insns.len()
    &&& slots.len() == insns.len()
    &&& forall|pc: int, r: int|
        0 <= pc < insns.len() && 0 <= r < 16 && #[trigger] bit16(regs[pc], r) ==> reg_live(
            insns,
            pc,
            r,
        )
    &&& forall|pc: int, k: int|
        0 <= pc < insns.len() && 0 <= k < 64 && #[trigger] bit64(slots[pc], k) ==> slot_live(
            insns,
            pc,
            k,
        )
}

/// The equation of the instruction at `i` adds nothing.
spec fn settled_at(insns: Seq<BpfInsn>, regs: Seq<u16>, slots: Seq<u64>, i: int) -> bool {
    &&& forall|r: int|
        0 <= r < 16 && reads_reg(insns[i].slot(), r) ==> #[trigger] bit16(regs[i], r)
    &&& forall|b: int, r: int|
        #![trigger live_edges(insns)(i, b), bit16(regs[b], r)]
        0 <= r < 16 && live_edges(insns)(i, b) && bit16(regs[b], r) && !writes_reg(
            insns[i].slot(),
            r,
        ) ==> bit16(regs[i], r)
    &&& forall|k: int|
        0 <= k < 64 && reads_slot(insns[i].slot(), k) ==> #[trigger] bit64(slots[i], k)
    &&& forall|b: int, k: int|
        #![trigger live_edges(insns)(i, b), bit64(slots[b], k)]
        0 <= k < 64 && live_edges(insns)(i, b) && bit64(slots[b], k) && !writes_slot(
            insns[i].slot(),
            k,
        ) ==> bit64(slots[i], k)
}

/// When every equation holds, every live register and slot has its bit.
proof fn lemma_settled(insns: Seq<BpfInsn>, regs: Seq<u16>, slots: Seq<u64>)
    requires
        justified(insns, regs, slots),
        forall|i: int| 0 <= i < insns.len() ==> #[trigger] settled_at(insns, regs, slots, i),
    ensures
        forall|pc: int, r: int|
            0 <= pc < insns.len() && 0 <= r < 16 ==> #[trigger] bit16(regs[pc], r) == reg_live(
                insns,
                pc,
                r,
            ),
        forall|pc: int, k: int|
            0 <= pc < insns.len() && 0 <= k < 64 ==> #[trigger] bit64(slots[pc], k) == slot_live(
                insns,
                pc,
                k,
            ),
{
    let e = live_edges(insns);
    assert forall|pc: int, r: int|
        0 <= pc < insns.len() && 0 <= r < 16 && reg_live(insns, pc, r) implies #[trigger] bit16(
        regs[pc],
        r,
    ) by {
        let reads = reg_reads(insns, r);
        let writes = reg_writes(insns, r);
        let inside = |x: int| 0 <= x < insns.len() && bit16(regs[x], r);
        assert forall|x: int| #[trigger] reads(x) implies inside(x) by {
            assert(settled_at(insns, regs, slots, x));
        }
        assert forall|x: int, y: int| #[trigger] e(x, y) && !writes(x) && inside(y) implies inside(
            x,
        ) by {
            assert(settled_at(insns, regs, slots, x));
            assert(live_edges(insns)(x, y) && bit16(regs[y], r));
        }
        lemma_live_closed(e, reads, writes, inside, pc);
    }
    assert forall|pc: int, k: int|
        0 <= pc < insns.len() && 0 <= k < 64 && slot_live(insns, pc, k) implies #[trigger] bit64(
        slots[pc],
        k,
    ) by {
        let reads = slot_reads(insns, k);
        let writes = slot_writes(insns, k);
        let inside = |x: int| 0 <= x < insns.len() && bit64(slots[x], k);
        assert forall|x: int| #[trigger] reads(x) implies inside(x) by {
            assert(settled_at(insns, regs, slots, x));
        }
        assert forall|x: int, y: int| #[trigger] e(x, y) && !writes(x) && inside(y) implies inside(
            x,
        ) by {
            assert(settled_at(insns, regs, slots, x));
            assert(live_edges(insns)(x, y) && bit64(slots[y], k));
        }
        lemma_live_closed(e, reads, writes, inside, pc);
    }
}

/// The successors of every instruction.
fn all_successors(program: &[BpfInsn]) -> (adj: Vec<Vec<u32>>)
    requires
        program@.len() <= u32::MAX,
    ensures
        adj@.len() == program@.len(),
        forall|a: int, b: u32|
            0 <= a < program@.len() ==> #[trigger] adj@[a]@.contains(b) == live_edges(program@)(
                a,
                b as int,
            ),
{
    let mut adj: Vec<Vec<u32>> = Vec::new();
    let mut i: usize = 0;
    while i < program.len()
        invariant
            i <= program@.len() <= u32::MAX,
            adj@.len() == i,
            forall|a: int, b: u32|
                0 <= a < i ==> #[trigger] adj@[a]@.contains(b) == live_edges(program@)(a, b as int),
        decreases program@.len() - i,
    {
        let succ: Vec<u32> = static_successors(i, program);
        let ghost before = adj@;
        adj.push(succ);
        proof {
            assert forall|a: int, b: u32| 0 <= a < i + 1 implies #[trigger] adj@[a]@.contains(b)
                == live_edges(program@)(a, b as int) by {
                if a < i {
                    assert(adj@[a] == before[a]);
                }
            }
        }
        i = i + 1;
    }
    adj
}

/// The masks before the instruction at `i`, by those of its successors.
fn before_insn(
    program: &[BpfInsn],
    adj: &Vec<Vec<u32>>,
    regs: &Vec<u16>,
    slots: &Vec<u64>,
    i: usize,
) -> (r: (u16, u64))
    requires
        i < program@.len() <= u32::MAX,
        program@[i as int].regs_valid(),
        adj@.len() == program@.len(),
        regs@.len() == program@.len(),
        slots@.len() == program@.len(),
        forall|a: int, b: u32|
            0 <= a < program@.len() ==> #[trigger] adj@[a]@.contains(b) == live_edges(program@)(
                a,
                b as int,
            ),
    ensures
        forall|q: int|
            0 <= q < 16 ==> #[trigger] bit16(r.0, q) == (reads_reg(program@[i as int].slot(), q)
                || (!writes_reg(program@[i as int].slot(), q) && exists|b: int|
                #[trigger] live_edges(program@)(i as int, b) && bit16(regs@[b], q))),
        forall|k: int|
            0 <= k < 64 ==> #[trigger] bit64(r.1, k) == (reads_slot(program@[i as int].slot(), k)
                || (!writes_slot(program@[i as int].slot(), k) && exists|b: int|
                #[trigger] live_edges(program@)(i as int, b) && bit64(slots@[b], k))),
{
    let ud: InsnUseDef = use_def(&program[i]);
    let ghost e = live_edges(program@);
    let mut out_regs: u16 = 0;
    let mut out_slots: u64 = 0;
    let m: usize = adj[i].len();
    let ghost list = adj@[i as int]@;
    proof {
        assert forall|q: int| 0 <= q < 16 implies !(#[trigger] bit16(0, q)) by {
            lemma_bits16(0, 0, q as u16);
        }
        assert forall|k: int| 0 <= k < 64 implies !(#[trigger] bit64(0, k)) by {
            lemma_bits64(0, 0, k as u64);
        }
    }
    let mut j: usize = 0;
    while j < m
        invariant
            i < program@.len() <= u32::MAX,
            adj@.len() == program@.len(),
            regs@.len() == program@.len(),
            slots@.len() == program@.len(),
            list == adj@[i as int]@,
            m == list.len(),
            j <= m,
            e == live_edges(program@),
            forall|b: u32| #[trigger] list.contains(b) == e(i as int, b as int),
            forall|q: int|
                0 <= q < 16 ==> #[trigger] bit16(out_regs, q) == exists|t: int|
                    0 <= t < j && bit16(regs@[(#[trigger] list[t]) as int], q),
            forall|k: int|
                0 <= k < 64 ==> #[trigger] bit64(out_slots, k) == exists|t: int|
                    0 <= t < j && bit64(slots@[(#[trigger] list[t]) as int], k),
        decreases m - j,
    {
        let b: u32 = adj[i][j];
        proof {
            assert(list.contains(list[j as int]));
            assert(e(i as int, b as int));
        }
        let ghost old_regs = out_regs;
        let ghost old_slots = out_slots;
        out_regs = both(out_regs, regs[b as usize]);
        out_slots = both_slots(out_slots, slots[b as usize]);
        proof {
            assert forall|q: int| 0 <= q < 16 implies #[trigger] bit16(out_regs, q) == exists|t: int|
                0 <= t < j + 1 && bit16(regs@[(#[trigger] list[t]) as int], q) by {
                if bit16(old_regs, q) {
                    let t = choose|t: int|
                        0 <= t < j && bit16(regs@[(#[trigger] list[t]) as int], q);
                    assert(bit16(regs@[list[t] as int], q));
                }
                if bit16(regs@[b as int], q) {
                    assert(bit16(regs@[list[j as int] as int], q));
                }
            }
            assert forall|k: int| 0 <= k < 64 implies #[trigger] bit64(out_slots, k) == exists|
                t: int,
            |
                0 <= t < j + 1 && bit64(slots@[(#[trigger] list[t]) as int], k) by {
                if bit64(old_slots, k) {
                    let t = choose|t: int|
                        0 <= t < j && bit64(slots@[(#[trigger] list[t]) as int], k);
                    assert(bit64(slots@[list[t] as int], k));
                }
                if bit64(slots@[b as int], k) {
                    assert(bit64(slots@[list[j as int] as int], k));
                }
            }
        }
        j = j + 1;
    }
    let r: (u16, u64) = (
        transfer_regs(out_regs, ud.def_regs, ud.use_regs),
        transfer_slots(out_slots, ud.write_slots, ud.read_slots),
    );
    proof {
        let s = program@[i as int].slot();
        assert forall|q: int| 0 <= q < 16 implies #[trigger] bit16(r.0, q) == (reads_reg(s, q) || (
        !writes_reg(s, q) && exists|b: int| #[trigger] e(i as int, b) && bit16(regs@[b], q))) by {
            assert(bit16(ud.use_regs, q) == reads_reg(s, q));
            assert(bit16(ud.def_regs, q) == writes_reg(s, q));
            if exists|b: int| #[trigger] e(i as int, b) && bit16(regs@[b], q) {
                let b = choose|b: int| #[trigger] e(i as int, b) && bit16(regs@[b], q);
                assert(list.contains(b as u32));
                let t = choose|t: int| 0 <= t < list.len() && list[t] == b as u32;
                assert(bit16(regs@[list[t] as int], q));
            }
            if bit16(out_regs, q) {
                let t = choose|t: int| 0 <= t < j && bit16(regs@[(#[trigger] list[t]) as int], q);
                assert(list.contains(list[t]));
                assert(e(i as int, list[t] as int));
            }
        }
        assert forall|k: int| 0 <= k < 64 implies #[trigger] bit64(r.1, k) == (reads_slot(s, k) || (
        !writes_slot(s, k) && exists|b: int| #[trigger] e(i as int, b) && bit64(slots@[b], k))) by {
            assert(bit64(ud.read_slots, k) == reads_slot(s, k));
            assert(bit64(ud.write_slots, k) == writes_slot(s, k));
            if exists|b: int| #[trigger] e(i as int, b) && bit64(slots@[b], k) {
                let b = choose|b: int| #[trigger] e(i as int, b) && bit64(slots@[b], k);
                assert(list.contains(b as u32));
                let t = choose|t: int| 0 <= t < list.len() && list[t] == b as u32;
                assert(bit64(slots@[list[t] as int], k));
            }
            if bit64(out_slots, k) {
                let t = choose|t: int| 0 <= t < j && bit64(slots@[(#[trigger] list[t]) as int], k);
                assert(list.contains(list[t]));
                assert(e(i as int, list[t] as int));
            }
        }
    }
    r
}

/// Adding what an equation gives keeps every bit justified.
proof fn lemma_justified_step(
    insns: Seq<BpfInsn>,
    regs: Seq<u16>,
    slots: Seq<u64>,
    i: int,
    given: (u16, u64),
    m: u16,
    n: u64,
)
    requires
        justified(insns, regs, slots),
        0 <= i < insns.len(),
        forall|q: int|
            0 <= q < 16 ==> #[trigger] bit16(given.0, q) == (reads_reg(insns[i].slot(), q) || (
            !writes_reg(insns[i].slot(), q) && exists|b: int|
                #[trigger] live_edges(insns)(i, b) && bit16(regs[b], q))),
        forall|k: int|
            0 <= k < 64 ==> #[trigger] bit64(given.1, k) == (reads_slot(insns[i].slot(), k) || (
            !writes_slot(insns[i].slot(), k) && exists|b: int|
                #[trigger] live_edges(insns)(i, b) && bit64(slots[b], k))),
        mask_is(m, |q: int| bit16(regs[i], q) || bit16(given.0, q)),
        slots_are(n, |k: int| bit64(slots[i], k) || bit64(given.1, k)),
    ensures
        justified(insns, regs.update(i, m), slots.update(i, n)),
{
    let e = live_edges(insns);
    let a = regs.update(i, m);
    let c = slots.update(i, n);
    assert forall|pc: int, q: int|
        0 <= pc < insns.len() && 0 <= q < 16 && #[trigger] bit16(a[pc], q) implies reg_live(
        insns,
        pc,
        q,
    ) by {
        if pc == i && !bit16(regs[i], q) {
            let reads = reg_reads(insns, q);
            let writes = reg_writes(insns, q);
            assert(bit16(given.0, q));
            if reads_reg(insns[i].slot(), q) {
                lemma_live_read(e, reads, writes, i);
            } else {
                let b = choose|b: int| #[trigger] live_edges(insns)(i, b) && bit16(regs[b], q);
                assert(reg_live(insns, b, q));
                lemma_live_step(e, reads, writes, i, b);
            }
        } else {
            assert(bit16(regs[pc], q));
        }
    }
    assert forall|pc: int, k: int|
        0 <= pc < insns.len() && 0 <= k < 64 && #[trigger] bit64(c[pc], k) implies slot_live(
        insns,
        pc,
        k,
    ) by {
        if pc == i && !bit64(slots[i], k) {
            let reads = slot_reads(insns, k);
            let writes = slot_writes(insns, k);
            assert(bit64(given.1, k));
            if reads_slot(insns[i].slot(), k) {
                lemma_live_read(e, reads, writes, i);
            } else {
                let b = choose|b: int| #[trigger] live_edges(insns)(i, b) && bit64(slots[b], k);
                assert(slot_live(insns, b, k));
                lemma_live_step(e, reads, writes, i, b);
            }
        } else {
            assert(bit64(slots[pc], k));
        }
    }
}

/// Compute the liveness masks of a program by solving the dataflow equations
/// to a fixed point.
pub fn analyze(program: &[BpfInsn]) -> (l: Liveness)
    requires
        program@.len() <= u32::MAX,
        forall|i: int| 0 <= i < program@.len() ==> (#[trigger] program@[i]).regs_valid(),
    ensures
        is_liveness(program@, l),
{
    let n: usize = program.len();
    let adj: Vec<Vec<u32>> = all_successors(program);
    let mut regs: Vec<u16> = vec![0u16; n];
    let mut slots: Vec<u64> = vec![0u64; n];
    proof {
        assert forall|q: int| 0 <= q < 16 implies !(#[trigger] bit16(0, q)) by {
            lemma_bits16(0, 0, q as u16);
        }
        assert forall|k: int| 0 <= k < 64 implies !(#[trigger] bit64(0, k)) by {
            lemma_bits64(0, 0, k as u64);
        }
        assert(justified(program@, regs@, slots@));
    }
    let mut changed: bool = true;
    while changed
        invariant
            n == program@.len() <= u32::MAX,
            forall|i: int| 0 <= i < program@.len() ==> (#[trigger] program@[i]).regs_valid(),
            adj@.len() == n,
            forall|a: int, b: u32|
                0 <= a < n ==> #[trigger] adj@[a]@.contains(b) == live_edges(program@)(
                    a,
                    b as int,
                ),
            justified(program@, regs@, slots@),
            !changed ==> forall|i: int|
                0 <= i < n ==> #[trigger] settled_at(program@, regs@, slots@, i),
        decreases missing(regs@, slots@), (if changed { 1int } else { 0 }),
    {
        changed = false;
        let ghost regs0 = regs@;
        let ghost slots0 = slots@;
        let mut i: usize = 0;
        proof {
            lemma_missing(regs0, slots0);
        }
        while i < n
            invariant
                n == program@.len() <= u32::MAX,
                i <= n,
                forall|i: int| 0 <= i < program@.len() ==> (#[trigger] program@[i]).regs_valid(),
                adj@.len() == n,
                forall|a: int, b: u32|
                    0 <= a < n ==> #[trigger] adj@[a]@.contains(b) == live_edges(program@)(
                        a,
                        b as int,
                    ),
                justified(program@, regs@, slots@),
                missing(regs@, slots@) <= missing(regs0, slots0),
                changed ==> missing(regs@, slots@) < missing(regs0, slots0),
                !changed ==> regs@ == regs0 && slots@ == slots0,
                !changed ==> forall|j: int|
                    0 <= j < i ==> #[trigger] settled_at(program@, regs@, slots@, j),
            decreases n - i,
        {
            let given: (u16, u64) = before_insn(program, &adj, &regs, &slots, i);
            let more_regs: u16 = both(regs[i], given.0);
            let more_slots: u64 = both_slots(slots[i], given.1);
            let ghost old_regs = regs@;
            let ghost old_slots = slots@;
            proof {
                lemma_justified_step(
                    program@,
                    old_regs,
                    old_slots,
                    i as int,
                    given,
                    more_regs,
                    more_slots,
                );
                lemma_missing_less(old_regs, old_slots, i as int, more_regs, more_slots);
            }
            if more_regs != regs[i] || more_slots != slots[i] {
                changed = true;
                regs.set(i, more_regs);
                slots.set(i, more_slots);
            } else {
                proof {
                    lemma_settled_here(program@, old_regs, old_slots, i as int, given);
                }
            }
            i = i + 1;
        }
        proof {
            lemma_missing(regs@, slots@);
        }
    }
    proof {
        lemma_settled(program@, regs@, slots@);
    }
    Liveness { regs, slots }
}

/// Where an equation gives nothing new, it holds.
proof fn lemma_settled_here(
    insns: Seq<BpfInsn>,
    regs: Seq<u16>,
    slots: Seq<u64>,
    i: int,
    given: (u16, u64),
)
    requires
        0 <= i < insns.len(),
        forall|q: int|
            0 <= q < 16 ==> #[trigger] bit16(given.0, q) == (reads_reg(insns[i].slot(), q) || (
            !writes_reg(insns[i].slot(), q) && exists|b: int|
                #[trigger] live_edges(insns)(i, b) && bit16(regs[b], q))),
        forall|k: int|
            0 <= k < 64 ==> #[trigger] bit64(given.1, k) == (reads_slot(insns[i].slot(), k) || (
            !writes_slot(insns[i].slot(), k) && exists|b: int|
                #[trigger] live_edges(insns)(i, b) && bit64(slots[b], k))),
        mask_is(regs[i], |q: int| bit16(regs[i], q) || bit16(given.0, q)),
        slots_are(slots[i], |k: int| bit64(slots[i], k) || bit64(given.1, k)),
    ensures
        settled_at(insns, regs, slots, i),
{
    assert forall|q: int| 0 <= q < 16 && bit16(given.0, q) implies #[trigger] bit16(regs[i], q) by {}
    assert forall|k: int| 0 <= k < 64 && bit64(given.1, k) implies #[trigger] bit64(
        slots[i],
        k,
    ) by {}
    assert forall|q: int| 0 <= q < 16 && reads_reg(insns[i].slot(), q) implies #[trigger] bit16(
        regs[i],
        q,
    ) by {
        assert(bit16(given.0, q));
    }
    assert forall|b: int, q: int|
        #![trigger live_edges(insns)(i, b), bit16(regs[b], q)]
        0 <= q < 16 && live_edges(insns)(i, b) && bit16(regs[b], q) && !writes_reg(
            insns[i].slot(),
            q,
        ) implies bit16(regs[i], q) by {
        assert(bit16(given.0, q));
    }
    assert forall|k: int| 0 <= k < 64 && reads_slot(insns[i].slot(), k) implies #[trigger] bit64(
        slots[i],
        k,
    ) by {
        assert(bit64(given.1, k));
    }
    assert forall|b: int, k: int|
        #![trigger live_edges(insns)(i, b), bit64(slots[b], k)]
        0 <= k < 64 && live_edges(insns)(i, b) && bit64(slots[b], k) && !writes_slot(
            insns[i].slot(),
            k,
        ) implies bit64(slots[i], k) by {
        assert(bit64(given.1, k));
    }
}

} // verus!
