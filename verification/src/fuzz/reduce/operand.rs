//! Operand-level minimization.
//!
//! A program that is minimal in the number of its instructions may still hold
//! huge immediates, register sources where the immediate form would do, high
//! registers and large stack offsets. This module gives candidates for four
//! transforms, in a fixed order and with one change per candidate:
//!
//! - **immediate shrinking**: replace an immediate with a simpler value of
//!   strictly smaller magnitude;
//! - **register to immediate form**: an ALU instruction whose source register
//!   is a known constant takes the constant itself;
//! - **register lowering**: the highest used register is renamed to the
//!   lowest unused one (R0, the exit convention, and R10, the frame pointer,
//!   are never renamed);
//! - **stack-offset shrinking**: memory accesses move toward 0 in 8-byte
//!   steps.
//!
//! Every candidate is a proposal; the caller's oracle keeps the first one that
//! preserves the finding.

use vstd::prelude::*;

use crate::fuzz::reduce::ddmin::to_vec;
use crate::fuzz::reduce::fixup;
use crate::fuzz::reduce::fixup::decode_singles;
use crate::insn;
use crate::insn::{alu_op, compare_op, mem_op, slot_of, BpfInsn};
use crate::opcode;
use crate::slot;
use crate::slot::Slot;

verus! {

/// The interesting values, in order of preference.
pub const VALUE_POOL: [i32; 5] = [0, 1, -1, i32::MIN, i32::MAX];

/// One operand transform candidate: the pass name and the rewritten program,
/// with one single change.
pub type OperandCandidate = (&'static str, Vec<u8>);

// ── What the slots hold ─────────────────────────────────────────────────────

/// The slots of the instructions in a stream.
pub open spec fn slots_of(bytes: Seq<u8>) -> Seq<Slot> {
    fixup::singles(bytes).map_values(|i: BpfInsn| i.slot())
}

/// The instruction carries an immediate operand: the immediate forms of the
/// ALU instructions and of the compares. A register form reserves the field,
/// and the immediate of a call is the callee.
pub open spec fn carries_imm(s: Slot) -> bool {
    (insn::is_alu_op(s.op) || insn::is_compare_op(s.op)) && !insn::is_x_op(s.op)
}

/// A register form of an ALU instruction.
pub open spec fn is_x_form(s: Slot) -> bool {
    insn::is_alu_op(s.op) && insn::is_x_op(s.op)
}

/// A load, or a store of a register.
pub open spec fn is_access(s: Slot) -> bool {
    insn::is_mem_op(s.op) && s.op % 8 != 2
}

/// A load.
pub open spec fn is_load(s: Slot) -> bool {
    insn::is_mem_op(s.op) && s.op % 8 == 1
}

/// The instruction names the register `r`; the source field of a call is no
/// register. R0 also fills the fields that are not used.
pub open spec fn names(s: Slot, r: int) -> bool {
    s.op != opcode::CALL && (s.dst == r || s.src == r)
}

// ── The candidates ──────────────────────────────────────────────────────────

/// The magnitude of a number.
pub open spec fn magnitude(x: int) -> int {
    if x < 0 { -x } else { x }
}

/// The stream with another slot at `pc`.
pub open spec fn patched(bytes: Seq<u8>, pc: int, s: Slot) -> Seq<u8> {
    bytes.take(8 * pc) + s.bytes() + bytes.skip(8 * pc + 8)
}

/// The values of the pool among the first `k` that replace an immediate.
pub open spec fn smaller_imms(bytes: Seq<u8>, pc: int, s: Slot, k: int) -> Seq<
    (Seq<char>, Seq<u8>),
>
    decreases k,
{
    if k <= 0 {
        seq![]
    } else {
        let value = VALUE_POOL@[k - 1];
        let rest = smaller_imms(bytes, pc, s, k - 1);
        if magnitude(value as int) < magnitude(s.imm as int) {
            rest.push(("immediate"@, patched(bytes, pc, Slot { imm: value, ..s })))
        } else {
            rest
        }
    }
}

/// Immediate shrinking in the first `n` instructions.
pub open spec fn imm_candidates(bytes: Seq<u8>, slots: Seq<Slot>, n: int) -> Seq<
    (Seq<char>, Seq<u8>),
>
    decreases n,
{
    if n <= 0 {
        seq![]
    } else {
        imm_candidates(bytes, slots, n - 1) + if carries_imm(slots[n - 1]) {
            smaller_imms(bytes, n - 1, slots[n - 1], 5)
        } else {
            seq![]
        }
    }
}

/// The constant that register `r` is known to hold behind the first `n`
/// instructions, read in order. It is known where it was written by a 64-bit
/// move of an immediate, or of a register whose constant was known; a call
/// clobbers R0 to R5, and every other write clears it.
pub open spec fn known_const(slots: Seq<Slot>, n: int, r: int) -> Option<i32>
    decreases n,
{
    if n <= 0 {
        None
    } else {
        let s = slots[n - 1];
        if s.op == opcode::CALL {
            if r <= 5 { None } else { known_const(slots, n - 1, r) }
        } else if r != s.dst {
            known_const(slots, n - 1, r)
        } else if s.op == opcode::MOV_IMM {
            Some(s.imm)
        } else if s.op == opcode::MOV_REG {
            known_const(slots, n - 1, s.src as int)
        } else if insn::is_alu_op(s.op) || is_load(s) {
            None
        } else {
            known_const(slots, n - 1, r)
        }
    }
}

/// The immediate form of an ALU instruction with this operand.
pub open spec fn k_form(s: Slot, value: i32) -> Slot {
    Slot { op: (s.op - 8) as u8, src: 0, imm: value, ..s }
}

/// Known constants in place of source registers, in the first `n`
/// instructions.
pub open spec fn form_candidates(bytes: Seq<u8>, slots: Seq<Slot>, n: int) -> Seq<
    (Seq<char>, Seq<u8>),
>
    decreases n,
{
    if n <= 0 {
        seq![]
    } else {
        let s = slots[n - 1];
        let rest = form_candidates(bytes, slots, n - 1);
        let value = known_const(slots, n - 1, s.src as int);
        if is_x_form(s) && value is Some {
            rest.push(("alu-form"@, patched(bytes, n - 1, k_form(s, value->0))))
        } else {
            rest
        }
    }
}

/// Some instruction names the register `r`.
pub open spec fn is_used(slots: Seq<Slot>, r: int) -> bool {
    exists|i: int| 0 <= i < slots.len() && names(#[trigger] slots[i], r)
}

/// The highest used register up to `r`; 0 where there is none above R0.
pub open spec fn highest_used(slots: Seq<Slot>, r: int) -> int
    decreases r,
{
    if r <= 0 {
        0
    } else if is_used(slots, r) {
        r
    } else {
        highest_used(slots, r - 1)
    }
}

/// The lowest unused register from `r` on below `high`; `high` where there is
/// none.
pub open spec fn lowest_unused(slots: Seq<Slot>, r: int, high: int) -> int
    decreases high - r,
{
    if r >= high {
        high
    } else if !is_used(slots, r) {
        r
    } else {
        lowest_unused(slots, r + 1, high)
    }
}

/// The slot with one register renamed.
pub open spec fn renamed(s: Slot, from: int, to: u8) -> Slot {
    if s.op == opcode::CALL {
        s
    } else {
        Slot {
            dst: if s.dst == from { to } else { s.dst },
            src: if s.src == from { to } else { s.src },
            ..s
        }
    }
}

/// The bytes of a list of slots.
pub open spec fn slot_stream(slots: Seq<Slot>) -> Seq<u8>
    decreases slots.len(),
{
    if slots.len() == 0 {
        seq![]
    } else {
        slot_stream(slots.drop_last()) + slots.last().bytes()
    }
}

/// Every slot of the list with one register renamed.
pub open spec fn all_renamed(slots: Seq<Slot>, from: int, to: u8) -> Seq<Slot> {
    slots.map_values(|s: Slot| renamed(s, from, to))
}

/// Register lowering, where the highest used register of R1 to R9 has an
/// unused one below it.
pub open spec fn lowering_candidates(slots: Seq<Slot>) -> Seq<(Seq<char>, Seq<u8>)> {
    let from = highest_used(slots, 9);
    let to = lowest_unused(slots, 1, from);
    if to < from {
        seq![("reg-lower"@, slot_stream(all_renamed(slots, from, to as u8)))]
    } else {
        seq![]
    }
}

/// The offset `k` steps away from 0 on the side of `off`.
pub open spec fn step_offset(off: int, k: int) -> i16 {
    (if off < 0 { -8 * k } else { 8 * k }) as i16
}

/// The offsets of fewer than `k` steps, nearest to 0 first.
pub open spec fn nearer_offsets(bytes: Seq<u8>, pc: int, s: Slot, k: int) -> Seq<
    (Seq<char>, Seq<u8>),
>
    decreases k,
{
    if k <= 1 {
        seq![]
    } else {
        nearer_offsets(bytes, pc, s, k - 1).push(
            (
                "stack-offset"@,
                patched(bytes, pc, Slot { off: step_offset(s.off as int, k - 1), ..s }),
            ),
        )
    }
}

/// Stack-offset shrinking in the first `n` instructions.
pub open spec fn offset_candidates(bytes: Seq<u8>, slots: Seq<Slot>, n: int) -> Seq<
    (Seq<char>, Seq<u8>),
>
    decreases n,
{
    if n <= 0 {
        seq![]
    } else {
        offset_candidates(bytes, slots, n - 1) + if is_access(slots[n - 1]) {
            nearer_offsets(
                bytes,
                n - 1,
                slots[n - 1],
                magnitude(slots[n - 1].off as int) / 8,
            )
        } else {
            seq![]
        }
    }
}

/// All candidates of a stream that decodes slot by slot: immediates by
/// ascending index, then forms, then registers, then stack offsets.
pub open spec fn all_candidates(bytes: Seq<u8>) -> Seq<(Seq<char>, Seq<u8>)> {
    let slots = slots_of(bytes);
    let n = slots.len() as int;
    if fixup::decodes_singly(bytes) {
        imm_candidates(bytes, slots, n) + form_candidates(bytes, slots, n) + lowering_candidates(
            slots,
        ) + offset_candidates(bytes, slots, n)
    } else {
        seq![]
    }
}

/// The names and streams of a list of candidates.
pub open spec fn listed(v: Seq<OperandCandidate>) -> Seq<(Seq<char>, Seq<u8>)> {
    v.map_values(|c: OperandCandidate| (c.0@, c.1@))
}

// ── Execution ───────────────────────────────────────────────────────────────

/// The immediate of an instruction that carries one.
fn imm_of(s: &Slot) -> (imm: Option<i32>)
    ensures
        imm == if carries_imm(*s) {
            Some(s.imm)
        } else {
            None::<i32>
        },
{
    if (alu_op(s.op) || compare_op(s.op)) && s.op / 8 % 2 != 1 {
        Some(s.imm)
    } else {
        None
    }
}

/// The source register of a register-form ALU instruction.
fn x_form_source(s: &Slot) -> (src: Option<u8>)
    ensures
        src == if is_x_form(*s) {
            Some(s.src)
        } else {
            None::<u8>
        },
{
    if alu_op(s.op) && s.op / 8 % 2 == 1 {
        Some(s.src)
    } else {
        None
    }
}

/// The offset of a load or a store of a register.
fn stack_offset(s: &Slot) -> (off: Option<i16>)
    ensures
        off == if is_access(*s) {
            Some(s.off)
        } else {
            None::<i16>
        },
{
    if mem_op(s.op) && s.op % 8 != 2 {
        Some(s.off)
    } else {
        None
    }
}

fn abs16(x: i16) -> (m: u32)
    ensures
        m == magnitude(x as int),
{
    if x < 0 {
        (-(x as i32)) as u32
    } else {
        x as u32
    }
}

fn abs32(x: i32) -> (m: u32)
    ensures
        m == magnitude(x as int),
{
    if x < 0 {
        (-(x as i64)) as u32
    } else {
        x as u32
    }
}

/// Appends the bytes of a slot.
fn push_slot(out: &mut Vec<u8>, s: &Slot)
    ensures
        final(out)@ == old(out)@ + s.bytes(),
{
    let chunk: [u8; 8] = s.write();
    let ghost start = out@;
    proof {
        slot::lemma_slot_len(*s);
        assert(start + chunk@.take(0) == start);
    }
    let mut k: usize = 0;
    while k < 8
        invariant
            k <= 8,
            chunk@.len() == 8,
            out@ == start + chunk@.take(k as int),
        decreases 8 - k,
    {
        out.push(chunk[k]);
        k = k + 1;
        assert(out@ =~= start + chunk@.take(k as int));
    }
    assert(chunk@.take(8) == chunk@);
}

/// Replace one encoded instruction in the raw program.
fn patch(bytes: &[u8], pc: usize, s: &Slot) -> (out: Vec<u8>)
    requires
        8 * pc + 8 <= bytes@.len(),
    ensures
        out@ == patched(bytes@, pc as int, *s),
{
    let len: usize = bytes.len();
    let mut out: Vec<u8> = to_vec(vstd::slice::slice_subrange(bytes, 0, 8 * pc));
    proof {
        assert(out@ =~= bytes@.take(8 * pc));
    }
    push_slot(&mut out, s);
    let ghost head = out@;
    let mut k: usize = 8 * pc + 8;
    proof {
        assert(head + bytes@.subrange(8 * pc + 8, 8 * pc + 8) =~= head);
    }
    while k < len
        invariant
            len == bytes@.len(),
            8 * pc + 8 <= k <= bytes@.len(),
            out@ == head + bytes@.subrange(8 * pc + 8, k as int),
        decreases bytes@.len() - k,
    {
        out.push(bytes[k]);
        k = k + 1;
        assert(out@ =~= head + bytes@.subrange(8 * pc + 8, k as int));
    }
    proof {
        assert(bytes@.subrange(8 * pc + 8, k as int) =~= bytes@.skip(8 * pc + 8));
    }
    out
}

/// A list grows by one candidate.
proof fn lemma_listed_push(v: Seq<OperandCandidate>, c: OperandCandidate)
    ensures
        listed(v.push(c)) == listed(v).push((c.0@, c.1@)),
{
    assert(listed(v.push(c)) =~= listed(v).push((c.0@, c.1@)));
}

/// Immediate shrinking at one instruction.
fn push_imms(bytes: &[u8], pc: usize, s: &Slot, out: &mut Vec<OperandCandidate>)
    requires
        8 * pc + 8 <= bytes@.len(),
    ensures
        listed(final(out)@) == listed(old(out)@) + smaller_imms(bytes@, pc as int, *s, 5),
{
    let ghost start = listed(out@);
    let mut k: usize = 0;
    proof {
        assert(start + smaller_imms(bytes@, pc as int, *s, 0) =~= start);
    }
    while k < 5
        invariant
            k <= 5,
            8 * pc + 8 <= bytes@.len(),
            listed(out@) == start + smaller_imms(bytes@, pc as int, *s, k as int),
        decreases 5 - k,
    {
        let value: i32 = VALUE_POOL[k];
        if abs32(value) < abs32(s.imm) {
            let stream: Vec<u8> = patch(bytes, pc, &Slot { imm: value, ..*s });
            let ghost before = out@;
            let ghost c: OperandCandidate = ("immediate", stream);
            out.push(("immediate", stream));
            proof {
                lemma_listed_push(before, c);
                assert(listed(out@) =~= start + smaller_imms(bytes@, pc as int, *s, k + 1));
            }
        }
        k = k + 1;
    }
}

/// Stack-offset shrinking at one instruction.
fn push_offsets(bytes: &[u8], pc: usize, s: &Slot, out: &mut Vec<OperandCandidate>)
    requires
        8 * pc + 8 <= bytes@.len(),
    ensures
        listed(final(out)@) == listed(old(out)@) + nearer_offsets(
            bytes@,
            pc as int,
            *s,
            magnitude(s.off as int) / 8,
        ),
{
    let ghost start = listed(out@);
    let mag: u32 = abs16(s.off) / 8;
    let mut k: u32 = 1;
    proof {
        assert(start + nearer_offsets(bytes@, pc as int, *s, 1) =~= start);
        assert(start + nearer_offsets(bytes@, pc as int, *s, 0) =~= start);
    }
    while k < mag
        invariant
            1 <= k,
            k <= mag || k == 1,
            mag == magnitude(s.off as int) / 8,
            mag <= 4096,
            8 * pc + 8 <= bytes@.len(),
            listed(out@) == start + nearer_offsets(bytes@, pc as int, *s, k as int),
        decreases mag - k,
    {
        let step: i16 = (8 * k) as i16;
        let off: i16 = if s.off < 0 {
            -step
        } else {
            step
        };
        let stream: Vec<u8> = patch(bytes, pc, &Slot { off, ..*s });
        let ghost before = out@;
        let ghost c: OperandCandidate = ("stack-offset", stream);
        out.push(("stack-offset", stream));
        k = k + 1;
        proof {
            lemma_listed_push(before, c);
            assert(listed(out@) =~= start + nearer_offsets(bytes@, pc as int, *s, k as int));
        }
    }
}

/// The known constants behind one more instruction.
fn apply_def(known: &mut [Option<i32>; 11], s: &Slot, Ghost(slots): Ghost<Seq<Slot>>, Ghost(n): Ghost<
    int,
>)
    requires
        0 <= n < slots.len(),
        slots[n] == *s,
        s.dst <= 10,
        s.src <= 10,
        forall|r: int| 0 <= r < 11 ==> #[trigger] old(known)@[r] == known_const(slots, n, r),
    ensures
        forall|r: int| 0 <= r < 11 ==> #[trigger] final(known)@[r] == known_const(slots, n + 1, r),
{
    if s.op == opcode::CALL {
        let mut r: usize = 0;
        while r < 6
            invariant
                r <= 6,
                forall|q: int|
                    0 <= q < 11 ==> #[trigger] known@[q] == if q < r {
                        None
                    } else {
                        old(known)@[q]
                    },
            decreases 6 - r,
        {
            known.set(r, None);
            r = r + 1;
        }
        return;
    }
    let dst: usize = s.dst as usize;
    if s.op == opcode::MOV_IMM {
        known.set(dst, Some(s.imm));
    } else if s.op == opcode::MOV_REG {
        let v: Option<i32> = known[s.src as usize];
        known.set(dst, v);
    } else if alu_op(s.op) || (mem_op(s.op) && s.op % 8 == 1) {
        known.set(dst, None);
    }
}

/// Whether some instruction names the register `r`.
fn used(slots: &Vec<Slot>, r: u8) -> (b: bool)
    ensures
        b == is_used(slots@, r as int),
{
    let mut i: usize = 0;
    while i < slots.len()
        invariant
            i <= slots@.len(),
            forall|k: int| 0 <= k < i ==> !names(#[trigger] slots@[k], r as int),
        decreases slots@.len() - i,
    {
        if slots[i].op != opcode::CALL && (slots[i].dst == r || slots[i].src == r) {
            assert(names(slots@[i as int], r as int));
            return true;
        }
        i = i + 1;
    }
    false
}

/// The register-lowering pair: the highest used register of R1 to R9, and the
/// lowest unused one below it. `None` when every used register sits as low as
/// possible.
fn lowering_pair(slots: &Vec<Slot>) -> (pair: Option<(u8, u8)>)
    ensures
        ({
            let from = highest_used(slots@, 9);
            let to = lowest_unused(slots@, 1, from);
            pair == if to < from {
                Some((from as u8, to as u8))
            } else {
                None::<(u8, u8)>
            }
        }),
        pair matches Some((from, to)) ==> from == highest_used(slots@, 9) && to == lowest_unused(
            slots@,
            1,
            highest_used(slots@, 9),
        ) && 1 <= to < from <= 9,
{
    let mut high: u8 = 9;
    while high > 0 && !used(slots, high)
        invariant
            high <= 9,
            highest_used(slots@, high as int) == highest_used(slots@, 9),
        decreases high,
    {
        high = high - 1;
    }
    assert(high == highest_used(slots@, 9));
    let mut low: u8 = 1;
    while low < high && used(slots, low)
        invariant
            1 <= low,
            low <= high || low == 1,
            high <= 9,
            lowest_unused(slots@, low as int, high as int) == lowest_unused(
                slots@,
                1,
                high as int,
            ),
        decreases high - low,
    {
        low = low + 1;
    }
    if low < high {
        Some((high, low))
    } else {
        None
    }
}

/// The encoded program with register `from` renamed to `to`.
fn rename_reg(slots: &Vec<Slot>, from: u8, to: u8) -> (out: Vec<u8>)
    ensures
        out@ == slot_stream(all_renamed(slots@, from as int, to)),
{
    let ghost all = all_renamed(slots@, from as int, to);
    let mut out: Vec<u8> = Vec::new();
    let mut i: usize = 0;
    assert(all.take(0) == Seq::<Slot>::empty());
    while i < slots.len()
        invariant
            i <= slots@.len(),
            all == all_renamed(slots@, from as int, to),
            out@ == slot_stream(all.take(i as int)),
        decreases slots@.len() - i,
    {
        let s: Slot = slots[i];
        let r: Slot = if s.op == opcode::CALL {
            s
        } else {
            Slot {
                dst: if s.dst == from {
                    to
                } else {
                    s.dst
                },
                src: if s.src == from {
                    to
                } else {
                    s.src
                },
                ..s
            }
        };
        proof {
            assert(all[i as int] == r);
            assert(all.take(i + 1).drop_last() == all.take(i as int));
            assert(all.take(i + 1).last() == r);
        }
        push_slot(&mut out, &r);
        i = i + 1;
    }
    assert(all.take(i as int) == all);
    out
}

/// The slots of the instructions of a stream.
fn decode_slots(bytes: &[u8]) -> (r: Option<Vec<Slot>>)
    ensures
        (r is Some) == fixup::decodes_singly(bytes@),
        r is Some ==> r->0@ == slots_of(bytes@) && r->0@.len() == bytes@.len() / 8 && (forall|
            i: int,
        |
            0 <= i < r->0@.len() ==> (#[trigger] r->0@[i]).dst <= 10 && r->0@[i].src <= 10),
{
    let insns: Vec<BpfInsn> = match decode_singles(bytes) {
        Some(insns) => insns,
        None => {
            return None;
        },
    };
    proof {
        fixup::lemma_singles_are_single(bytes@);
    }
    let mut slots: Vec<Slot> = Vec::new();
    let mut i: usize = 0;
    while i < insns.len()
        invariant
            i <= insns@.len(),
            slots@.len() == i,
            fixup::all_single(insns@),
            forall|k: int| 0 <= k < i ==> #[trigger] slots@[k] == insns@[k].slot(),
            forall|k: int| 0 <= k < i ==> (#[trigger] slots@[k]).dst <= 10 && slots@[k].src <= 10,
        decreases insns@.len() - i,
    {
        assert(insns@[i as int].is_single() && insns@[i as int].regs_valid());
        slots.push(slot_of(&insns[i]));
        i = i + 1;
    }
    assert(slots@ =~= slots_of(bytes@));
    Some(slots)
}

/// All operand-minimization candidates for a program, in a fixed order:
/// immediate shrinking (by ascending index, pool order), register to
/// immediate form, register lowering, stack-offset shrinking. A program that
/// does not decode slot by slot has none.
pub fn operand_candidates(bytes: &[u8]) -> (out: Vec<OperandCandidate>)
    ensures
        listed(out@) == all_candidates(bytes@),
{
    let mut out: Vec<OperandCandidate> = Vec::new();
    assert(listed(out@) =~= Seq::<(Seq<char>, Seq<u8>)>::empty());
    let slots: Vec<Slot> = match decode_slots(bytes) {
        Some(slots) => slots,
        None => {
            return out;
        },
    };
    let n: usize = slots.len();
    let ghost all = slots@;
    let ghost imms = imm_candidates(bytes@, all, n as int);
    let ghost forms = form_candidates(bytes@, all, n as int);
    let ghost lower = lowering_candidates(all);
    let mut pc: usize = 0;
    while pc < n
        invariant
            pc <= n == slots@.len(),
            n == bytes@.len() / 8,
            all == slots@,
            listed(out@) == imm_candidates(bytes@, all, pc as int),
        decreases n - pc,
    {
        let ghost before = listed(out@);
        if imm_of(&slots[pc]).is_some() {
            push_imms(bytes, pc, &slots[pc], &mut out);
        } else {
            assert(before + Seq::<(Seq<char>, Seq<u8>)>::empty() =~= before);
        }
        pc = pc + 1;
    }
    assert(imms + form_candidates(bytes@, all, 0) =~= imms);
    let mut known: [Option<i32>; 11] = [
        None,
        None,
        None,
        None,
        None,
        None,
        None,
        None,
        None,
        None,
        None,
    ];
    pc = 0;
    while pc < n
        invariant
            pc <= n == slots@.len(),
            n == bytes@.len() / 8,
            all == slots@,
            forall|i: int| 0 <= i < n ==> (#[trigger] all[i]).dst <= 10 && all[i].src <= 10,
            listed(out@) == imms + form_candidates(bytes@, all, pc as int),
            forall|r: int| 0 <= r < 11 ==> #[trigger] known@[r] == known_const(all, pc as int, r),
        decreases n - pc,
    {
        let s: Slot = slots[pc];
        assert(all[pc as int] == s && s.src <= 10);
        if let Some(src) = x_form_source(&s) {
            if let Some(value) = known[src as usize] {
                assert(known@[src as int] == known_const(all, pc as int, src as int));
                let k: Slot = Slot { op: s.op - 8, src: 0, imm: value, ..s };
                let stream: Vec<u8> = patch(bytes, pc, &k);
                let ghost before = out@;
                let ghost c: OperandCandidate = ("alu-form", stream);
                out.push(("alu-form", stream));
                proof {
                    lemma_listed_push(before, c);
                    assert(listed(out@) =~= imms + form_candidates(bytes@, all, pc + 1));
                }
            } else {
                assert(known@[src as int] == known_const(all, pc as int, src as int));
            }
        }
        apply_def(&mut known, &s, Ghost(all), Ghost(pc as int));
        pc = pc + 1;
    }
    if let Some((from, to)) = lowering_pair(&slots) {
        let stream: Vec<u8> = rename_reg(&slots, from, to);
        let ghost before = out@;
        let ghost c: OperandCandidate = ("reg-lower", stream);
        out.push(("reg-lower", stream));
        proof {
            lemma_listed_push(before, c);
            assert(listed(out@) =~= imms + forms + lower);
        }
    } else {
        assert(listed(out@) =~= imms + forms + lower);
    }
    let ghost base = listed(out@);
    proof {
        assert(base + offset_candidates(bytes@, all, 0) =~= base);
    }
    pc = 0;
    while pc < n
        invariant
            pc <= n == slots@.len(),
            n == bytes@.len() / 8,
            all == slots@,
            listed(out@) == base + offset_candidates(bytes@, all, pc as int),
        decreases n - pc,
    {
        let ghost before = listed(out@);
        if stack_offset(&slots[pc]).is_some() {
            push_offsets(bytes, pc, &slots[pc], &mut out);
        }
        pc = pc + 1;
        proof {
            assert(listed(out@) =~= base + offset_candidates(bytes@, all, pc as int));
        }
    }
    out
}

// ── Laws ────────────────────────────────────────────────────────────────────

/// A candidate that is a valid instruction stream, as long as the program.
pub open spec fn is_program(bytes: Seq<u8>, c: (Seq<char>, Seq<u8>)) -> bool {
    fixup::decodes_singly(c.1) && c.1.len() == bytes.len()
}

/// All candidates of a list are valid instruction streams.
pub open spec fn all_programs(bytes: Seq<u8>, list: Seq<(Seq<char>, Seq<u8>)>) -> bool {
    forall|i: int| 0 <= i < list.len() ==> is_program(bytes, #[trigger] list[i])
}

/// A slot that decodes may take the place of another one.
proof fn lemma_patched(bytes: Seq<u8>, pc: int, s: Slot)
    requires
        fixup::decodes_singly(bytes),
        0 <= pc < bytes.len() / 8,
        s.fits(),
        insn::slot_error(s) is None,
    ensures
        fixup::decodes_singly(patched(bytes, pc, s)),
        patched(bytes, pc, s).len() == bytes.len(),
{
    let out = patched(bytes, pc, s);
    slot::lemma_slot_len(s);
    slot::slot_round_trip(s);
    assert(out.len() == bytes.len());
    assert forall|i: int| 0 <= i < out.len() / 8 implies (#[trigger] fixup::single_at(
        out,
        i,
    )) is Ok by {
        assert(fixup::single_at(bytes, i) is Ok);
        if i == pc {
            assert(insn::slot_bytes_at(out, i) =~= s.bytes());
            reveal(insn::decode_slot);
        } else {
            assert(insn::slot_bytes_at(out, i) =~= insn::slot_bytes_at(bytes, i));
        }
    }
}

/// The slots of a stream are accepted.
proof fn lemma_slots_accepted(bytes: Seq<u8>, i: int)
    requires
        fixup::decodes_singly(bytes),
        0 <= i < slots_of(bytes).len(),
    ensures
        slots_of(bytes).len() == bytes.len() / 8,
        insn::slot_error(slots_of(bytes)[i]) is None,
        slots_of(bytes)[i].dst <= 10,
        slots_of(bytes)[i].src <= 10,
{
    fixup::lemma_singles_are_single(bytes);
    let insn = fixup::singles(bytes)[i];
    assert(insn.is_single() && insn.regs_valid());
    insn::lemma_slot_accepted(insn);
}

proof fn lemma_imms_valid(bytes: Seq<u8>, pc: int, k: int)
    requires
        fixup::decodes_singly(bytes),
        0 <= pc < slots_of(bytes).len(),
        carries_imm(slots_of(bytes)[pc]),
    ensures
        all_programs(bytes, smaller_imms(bytes, pc, slots_of(bytes)[pc], k)),
    decreases k,
{
    if k > 0 {
        let s = slots_of(bytes)[pc];
        lemma_imms_valid(bytes, pc, k - 1);
        lemma_slots_accepted(bytes, pc);
        lemma_patched(bytes, pc, Slot { imm: VALUE_POOL@[k - 1], ..s });
    }
}

proof fn lemma_offsets_valid(bytes: Seq<u8>, pc: int, k: int)
    requires
        fixup::decodes_singly(bytes),
        0 <= pc < slots_of(bytes).len(),
        is_access(slots_of(bytes)[pc]),
    ensures
        all_programs(bytes, nearer_offsets(bytes, pc, slots_of(bytes)[pc], k)),
    decreases k,
{
    if k > 1 {
        let s = slots_of(bytes)[pc];
        lemma_offsets_valid(bytes, pc, k - 1);
        lemma_slots_accepted(bytes, pc);
        lemma_patched(bytes, pc, Slot { off: step_offset(s.off as int, k - 1), ..s });
    }
}

proof fn lemma_lists_valid(bytes: Seq<u8>, n: int)
    requires
        fixup::decodes_singly(bytes),
        n <= slots_of(bytes).len(),
    ensures
        all_programs(bytes, imm_candidates(bytes, slots_of(bytes), n)),
        all_programs(bytes, form_candidates(bytes, slots_of(bytes), n)),
        all_programs(bytes, offset_candidates(bytes, slots_of(bytes), n)),
    decreases n,
{
    if n > 0 {
        let slots = slots_of(bytes);
        let s = slots[n - 1];
        lemma_lists_valid(bytes, n - 1);
        lemma_slots_accepted(bytes, n - 1);
        if carries_imm(s) {
            lemma_imms_valid(bytes, n - 1, 5);
        }
        if is_access(s) {
            lemma_offsets_valid(bytes, n - 1, magnitude(s.off as int) / 8);
        }
        let value = known_const(slots, n - 1, s.src as int);
        if is_x_form(s) && value is Some {
            lemma_patched(bytes, n - 1, k_form(s, value->0));
        }
    }
}

/// The slots of a list stand one behind the other in its stream.
pub proof fn lemma_slot_stream(slots: Seq<Slot>, i: int)
    requires
        0 <= i <= slots.len(),
    ensures
        slot_stream(slots).len() == 8 * slots.len(),
        i < slots.len() ==> insn::slot_bytes_at(slot_stream(slots), i) == slots[i].bytes(),
    decreases slots.len(),
{
    if slots.len() > 0 {
        let rest = slots.drop_last();
        let last = slots.last();
        slot::lemma_slot_len(last);
        if i < rest.len() {
            lemma_slot_stream(rest, i);
            assert(insn::slot_bytes_at(slot_stream(slots), i) =~= insn::slot_bytes_at(
                slot_stream(rest),
                i,
            ));
        } else {
            lemma_slot_stream(rest, rest.len() as int);
            if i == rest.len() {
                assert(insn::slot_bytes_at(slot_stream(slots), i) =~= last.bytes());
            }
        }
    }
}

proof fn lemma_renamed_valid(bytes: Seq<u8>, from: int, to: u8)
    requires
        fixup::decodes_singly(bytes),
        1 <= to < from <= 9,
    ensures
        is_program(bytes, ("reg-lower"@, slot_stream(all_renamed(slots_of(bytes), from, to)))),
{
    let slots = slots_of(bytes);
    let all = all_renamed(slots, from, to);
    let out = slot_stream(all);
    lemma_slot_stream(all, all.len() as int);
    lemma_slots_accepted(bytes, 0);
    assert forall|i: int| 0 <= i < out.len() / 8 implies (#[trigger] fixup::single_at(
        out,
        i,
    )) is Ok by {
        lemma_slot_stream(all, i);
        lemma_slots_accepted(bytes, i);
        assert(all[i] == renamed(slots[i], from, to));
        slot::slot_round_trip(all[i]);
        reveal(insn::decode_slot);
    }
}

pub proof fn lemma_highest_range(slots: Seq<Slot>, r: int)
    requires
        r >= 0,
    ensures
        0 <= highest_used(slots, r) <= r,
    decreases r,
{
    if r > 0 {
        lemma_highest_range(slots, r - 1);
    }
}

pub proof fn lemma_lowest_range(slots: Seq<Slot>, r: int, high: int)
    requires
        r <= high,
    ensures
        r <= lowest_unused(slots, r, high) <= high,
    decreases high - r,
{
    if r < high {
        lemma_lowest_range(slots, r + 1, high);
    }
}

/// Every candidate is a valid instruction stream with as many instructions as
/// the program.
pub proof fn candidates_are_programs(bytes: Seq<u8>)
    ensures
        all_programs(bytes, all_candidates(bytes)),
{
    if fixup::decodes_singly(bytes) {
        let slots = slots_of(bytes);
        let n = slots.len() as int;
        lemma_lists_valid(bytes, n);
        let from = highest_used(slots, 9);
        let to = lowest_unused(slots, 1, from);
        lemma_highest_range(slots, 9);
        if to < from {
            lemma_lowest_range(slots, 1, from);
            lemma_renamed_valid(bytes, from, to as u8);
        }
    }
}

/// Renaming a register that is used to one that is not can be undone.
pub proof fn renaming_is_reversible(slots: Seq<Slot>, from: u8, to: u8)
    requires
        from > 0,
        !is_used(slots, to as int),
    ensures
        all_renamed(all_renamed(slots, from as int, to), to as int, from) == slots,
{
    let out = all_renamed(all_renamed(slots, from as int, to), to as int, from);
    assert forall|i: int| 0 <= i < slots.len() implies #[trigger] out[i] == slots[i] by {
        assert(!names(slots[i], to as int));
    }
    assert(out =~= slots);
}

} // verus!
