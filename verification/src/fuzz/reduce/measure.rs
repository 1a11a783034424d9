//! Why the reduction comes to an end: every candidate of every pass is
//! smaller than the program it is made from, in an order in which nothing
//! gets smaller for ever. First comes the length, then the number of branches
//! and register forms, then the immediates, the registers and the offsets.

use vstd::prelude::*;

use crate::fuzz::reduce::fixup;
use crate::fuzz::reduce::operand;
use crate::fuzz::reduce::passes;
use crate::insn;
use crate::insn::BpfInsn;
use crate::opcode;
use crate::slot;
use crate::slot::Slot;

verus! {

// ── The measure ─────────────────────────────────────────────────────────────

/// The slots of a stream as they stand.
pub open spec fn raw(bytes: Seq<u8>) -> Seq<Slot> {
    Seq::new((bytes.len() / 8) as nat, |i: int| Slot::of(insn::slot_bytes_at(bytes, i)))
}

/// The sum of a quantity over slots.
pub open spec fn total(slots: Seq<Slot>, f: spec_fn(Slot) -> nat) -> nat
    decreases slots.len(),
{
    if slots.len() == 0 {
        0
    } else {
        total(slots.drop_last(), f) + f(slots.last())
    }
}

/// Compares and register forms count one.
pub open spec fn choice() -> spec_fn(Slot) -> nat {
    |s: Slot| if insn::is_compare_op(s.op) || operand::is_x_form(s) { 1nat } else { 0nat }
}

/// Immediate operands count their magnitude.
pub open spec fn imm_size() -> spec_fn(Slot) -> nat {
    |s: Slot| if operand::carries_imm(s) { operand::magnitude(s.imm as int) as nat } else { 0nat }
}

/// Registers count their number.
pub open spec fn reg_size() -> spec_fn(Slot) -> nat {
    |s: Slot| if s.op == opcode::CALL { 0nat } else { (s.dst + s.src) as nat }
}

/// Offsets of memory accesses count their magnitude.
pub open spec fn off_size() -> spec_fn(Slot) -> nat {
    |s: Slot| if operand::is_access(s) { operand::magnitude(s.off as int) as nat } else { 0nat }
}

/// `a` is smaller than `b`.
pub open spec fn smaller(a: Seq<u8>, b: Seq<u8>) -> bool {
    let x = raw(a);
    let y = raw(b);
    ||| a.len() < b.len()
    ||| a.len() == b.len() && total(x, choice()) < total(y, choice())
    ||| a.len() == b.len() && total(x, choice()) == total(y, choice()) && total(x, imm_size())
        < total(y, imm_size())
    ||| a.len() == b.len() && total(x, choice()) == total(y, choice()) && total(x, imm_size())
        == total(y, imm_size()) && total(x, reg_size()) < total(y, reg_size())
    ||| a.len() == b.len() && total(x, choice()) == total(y, choice()) && total(x, imm_size())
        == total(y, imm_size()) && total(x, reg_size()) == total(y, reg_size()) && total(
        x,
        off_size(),
    ) < total(y, off_size())
}

// ── Sums ────────────────────────────────────────────────────────────────────

/// Another slot changes the sum by the difference.
proof fn lemma_total_update(slots: Seq<Slot>, i: int, s: Slot, f: spec_fn(Slot) -> nat)
    requires
        0 <= i < slots.len(),
    ensures
        total(slots.update(i, s), f) + f(slots[i]) == total(slots, f) + f(s),
    decreases slots.len(),
{
    let next = slots.update(i, s);
    if i == slots.len() - 1 {
        assert(next.drop_last() =~= slots.drop_last());
    } else {
        lemma_total_update(slots.drop_last(), i, s, f);
        assert(next.drop_last() =~= slots.drop_last().update(i, s));
    }
}

/// A sum of smaller terms is no larger, and smaller where a term is.
proof fn lemma_total_less(a: Seq<Slot>, b: Seq<Slot>, f: spec_fn(Slot) -> nat)
    requires
        a.len() == b.len(),
        forall|i: int| 0 <= i < a.len() ==> f(#[trigger] a[i]) <= f(b[i]),
    ensures
        total(a, f) <= total(b, f),
        (exists|i: int| 0 <= i < a.len() && f(#[trigger] a[i]) < f(b[i])) ==> total(a, f) < total(
            b,
            f,
        ),
    decreases a.len(),
{
    if a.len() > 0 {
        let x = a.drop_last();
        let y = b.drop_last();
        assert forall|i: int| 0 <= i < x.len() implies f(#[trigger] x[i]) <= f(y[i]) by {
            assert(f(a[i]) <= f(b[i]));
        }
        lemma_total_less(x, y, f);
        assert(f(a[a.len() - 1]) <= f(b[a.len() - 1]));
        if exists|i: int| 0 <= i < a.len() && f(#[trigger] a[i]) < f(b[i]) {
            let i = choose|i: int| 0 <= i < a.len() && f(#[trigger] a[i]) < f(b[i]);
            if i < a.len() - 1 {
                assert(f(x[i]) < f(y[i]));
            }
        }
    }
}

// ── The slots of a stream ───────────────────────────────────────────────────

/// A patched stream has the patched slot.
proof fn lemma_raw_patched(bytes: Seq<u8>, pc: int, s: Slot)
    requires
        bytes.len() % 8 == 0,
        0 <= pc < bytes.len() / 8,
        s.fits(),
    ensures
        operand::patched(bytes, pc, s).len() == bytes.len(),
        raw(operand::patched(bytes, pc, s)) == raw(bytes).update(pc, s),
{
    let out = operand::patched(bytes, pc, s);
    slot::lemma_slot_len(s);
    slot::slot_round_trip(s);
    assert(out.len() == bytes.len());
    assert forall|i: int| 0 <= i < bytes.len() / 8 implies #[trigger] raw(out)[i] == raw(
        bytes,
    ).update(pc, s)[i] by {
        if i == pc {
            assert(insn::slot_bytes_at(out, i) =~= s.bytes());
        } else {
            assert(insn::slot_bytes_at(out, i) =~= insn::slot_bytes_at(bytes, i));
        }
    }
    assert(raw(out) =~= raw(bytes).update(pc, s));
}

/// The decoded slot of a stream is its slot without the fields that decoding
/// ignores.
proof fn lemma_slots_of_raw(bytes: Seq<u8>, i: int)
    requires
        fixup::decodes_singly(bytes),
        0 <= i < bytes.len() / 8,
    ensures
        operand::slots_of(bytes).len() == bytes.len() / 8,
        raw(bytes).len() == bytes.len() / 8,
        operand::slots_of(bytes)[i] == insn::canonical(raw(bytes)[i]),
        operand::slots_of(bytes)[i].dst <= 10,
        operand::slots_of(bytes)[i].src <= 10,
{
    assert(fixup::single_at(bytes, i) is Ok);
    insn::lemma_decode_slot_valid(Slot::of(insn::slot_bytes_at(bytes, i)));
}

// ── Deletion ────────────────────────────────────────────────────────────────

/// Less stays where something is removed.
proof fn lemma_kept_fewer(removed: Set<int>, k: int, i: int)
    requires
        0 <= i < k,
        removed.contains(i),
    ensures
        fixup::kept(removed, k).len() < k,
    decreases k,
{
    fixup::lemma_kept(removed, k - 1);
    if i < k - 1 {
        lemma_kept_fewer(removed, k - 1, i);
    }
}

/// Deleting something makes a stream shorter.
pub proof fn deletion_shrinks(bytes: Seq<u8>, removed: Set<int>)
    requires
        removed != Set::<int>::empty(),
        fixup::deletion(bytes, removed) is Some,
    ensures
        fixup::deletion(bytes, removed)->0.len() < bytes.len(),
{
    assert(exists|i: int| removed.contains(i)) by {
        if forall|i: int| !removed.contains(i) {
            assert(removed =~= Set::<int>::empty());
        }
    }
    let i = choose|i: int| removed.contains(i);
    let all = fixup::singles(bytes);
    assert(0 <= i < all.len());
    lemma_kept_fewer(removed, all.len() as int, i);
    assert(all.len() == bytes.len() / 8);
}

// ── The passes ──────────────────────────────────────────────────────────────

/// Every decoded instruction is at most as much of a choice as its slot.
proof fn lemma_decoded_choice(bytes: Seq<u8>, idx: int, i: int)
    requires
        0 <= idx <= i < bytes.len() / 8,
        insn::decode_from(bytes, idx) is Ok,
    ensures
        insn::decode_from(bytes, idx)->Ok_0.len() == bytes.len() / 8 - idx,
        choice()(insn::decode_from(bytes, idx)->Ok_0[i - idx].slot()) <= choice()(raw(bytes)[i]),
        insn::decode_from(bytes, idx)->Ok_0[i - idx].is_compare() ==> choice()(raw(bytes)[i]) == 1,
    decreases bytes.len() / 8 - idx,
{
    passes::lemma_decode_len(bytes, idx);
    let first = Slot::of(insn::slot_bytes_at(bytes, idx));
    let second = Slot::of(insn::slot_bytes_at(bytes, idx + 1));
    let all = insn::decode_from(bytes, idx)->Ok_0;
    assert(raw(bytes)[i] == Slot::of(insn::slot_bytes_at(bytes, i)));
    if first.op == opcode::LD_IMM64 {
        let rest = insn::decode_from(bytes, idx + 2)->Ok_0;
        let pair = seq![insn::decode_pair(first, second)->Ok_0, insn::second_marker(second)];
        assert(all == pair + rest);
        if i >= idx + 2 {
            lemma_decoded_choice(bytes, idx + 2, i);
            assert(all[i - idx] == rest[i - (idx + 2)]);
        } else {
            assert(all[i - idx] == pair[i - idx]);
            insn::lemma_pair_ops(first, second);
        }
    } else {
        let rest = insn::decode_from(bytes, idx + 1)->Ok_0;
        let one = seq![insn::decode_slot(first)->Ok_0];
        assert(all == one + rest);
        if i >= idx + 1 {
            lemma_decoded_choice(bytes, idx + 1, i);
            assert(all[i - idx] == rest[i - (idx + 1)]);
        } else {
            assert(all[i - idx] == one[0]);
            insn::lemma_decode_slot_valid(first);
        }
    }
}

/// The opcode survives writing and reading.
proof fn lemma_raw_op(insns: Seq<BpfInsn>, i: int)
    requires
        0 <= i < insns.len(),
    ensures
        raw(insn::program_bytes(insns)).len() == insns.len(),
        raw(insn::program_bytes(insns))[i].op == insns[i].slot().op,
{
    insn::lemma_program_slot(insns, i);
    reveal(Slot::of);
    reveal(Slot::bytes);
}

/// A branch turned into a jump is one choice less.
proof fn lemma_jump_smaller(bytes: Seq<u8>, insns: Seq<BpfInsn>, pc: int, offset: i16)
    requires
        passes::program_of(bytes) == Some(insns),
        0 <= pc < insns.len(),
        insns[pc].is_compare(),
    ensures
        smaller(insn::program_bytes(insns.update(pc, BpfInsn::Jmp { offset })), bytes),
{
    let next = insns.update(pc, BpfInsn::Jmp { offset });
    let out = insn::program_bytes(next);
    let x = raw(out);
    let y = raw(bytes);
    let f = choice();
    passes::lemma_decode_len(bytes, 0);
    assert(out.len() == bytes.len());
    assert forall|i: int| 0 <= i < x.len() implies f(#[trigger] x[i]) <= f(y[i]) by {
        lemma_raw_op(next, i);
        lemma_decoded_choice(bytes, 0, i);
        if i == pc {
            reveal(BpfInsn::slot);
        }
    }
    lemma_raw_op(next, pc);
    lemma_decoded_choice(bytes, 0, pc);
    assert(f(x[pc]) < f(y[pc])) by {
        reveal(BpfInsn::slot);
    }
    lemma_total_less(x, y, f);
}

/// Every candidate of branch simplification is smaller.
proof fn lemma_sides_smaller(bytes: Seq<u8>, insns: Seq<BpfInsn>, n: int, k: int)
    requires
        passes::program_of(bytes) == Some(insns),
        n <= insns.len(),
        0 <= k < passes::dead_sides(bytes, insns, n).len(),
    ensures
        smaller(passes::dead_sides(bytes, insns, n)[k], bytes),
    decreases n,
{
    if n > 0 {
        let rest = passes::dead_sides(bytes, insns, n - 1);
        if k < rest.len() {
            lemma_sides_smaller(bytes, insns, n - 1, k);
        } else {
            let pc = n - 1;
            let c = passes::side_candidates(bytes, insns, pc)[k - rest.len()];
            if fixup::deletion(bytes, set![pc]) is Some {
                assert(set![pc].contains(pc));
                deletion_shrinks(bytes, set![pc]);
            }
            if insns[pc].is_compare() {
                lemma_jump_smaller(bytes, insns, pc, insns[pc].jump_offset()->0);
            }
        }
    }
}

/// Every candidate of the control-flow passes is smaller than the program.
pub proof fn cfg_candidates_shrink(bytes: Seq<u8>, anchor: Option<u32>)
    ensures
        passes::without_dead(bytes) matches Some(c) ==> c.len() < bytes.len(),
        passes::sliced(bytes, anchor) matches Some(c) ==> c.len() < bytes.len(),
        forall|k: int|
            0 <= k < passes::simplified(bytes).len() ==> smaller(
                #[trigger] passes::simplified(bytes)[k],
                bytes,
            ),
{
    if let Some(insns) = passes::program_of(bytes) {
        if passes::without_dead(bytes) is Some {
            deletion_shrinks(bytes, passes::dead_set(insns));
        }
        if let Some(a) = anchor {
            if passes::sliced(bytes, anchor) is Some {
                deletion_shrinks(bytes, passes::off_path(insns, a as int));
            }
        }
        assert forall|k: int| 0 <= k < passes::simplified(bytes).len() implies smaller(
            #[trigger] passes::simplified(bytes)[k],
            bytes,
        ) by {
            lemma_sides_smaller(bytes, insns, insns.len() as int, k);
        }
    }
}

// ── The operands ────────────────────────────────────────────────────────────

/// All candidates of a list are smaller than the program.
pub open spec fn all_smaller(bytes: Seq<u8>, list: Seq<(Seq<char>, Seq<u8>)>) -> bool {
    forall|k: int| 0 <= k < list.len() ==> smaller((#[trigger] list[k]).1, bytes)
}

/// The slot at `pc` changed: each sum changes by the difference.
proof fn lemma_patched_sums(bytes: Seq<u8>, pc: int, s: Slot)
    requires
        bytes.len() % 8 == 0,
        0 <= pc < bytes.len() / 8,
        s.fits(),
    ensures
        ({
            let out = operand::patched(bytes, pc, s);
            let x = raw(out);
            let y = raw(bytes);
            &&& out.len() == bytes.len()
            &&& total(x, choice()) + choice()(y[pc]) == total(y, choice()) + choice()(s)
            &&& total(x, imm_size()) + imm_size()(y[pc]) == total(y, imm_size()) + imm_size()(s)
            &&& total(x, reg_size()) + reg_size()(y[pc]) == total(y, reg_size()) + reg_size()(s)
            &&& total(x, off_size()) + off_size()(y[pc]) == total(y, off_size()) + off_size()(s)
        }),
{
    lemma_raw_patched(bytes, pc, s);
    let y = raw(bytes);
    lemma_total_update(y, pc, s, choice());
    lemma_total_update(y, pc, s, imm_size());
    lemma_total_update(y, pc, s, reg_size());
    lemma_total_update(y, pc, s, off_size());
}

proof fn lemma_imms_smaller(bytes: Seq<u8>, pc: int, k: int)
    requires
        fixup::decodes_singly(bytes),
        0 <= pc < bytes.len() / 8,
        operand::carries_imm(operand::slots_of(bytes)[pc]),
    ensures
        all_smaller(bytes, operand::smaller_imms(bytes, pc, operand::slots_of(bytes)[pc], k)),
    decreases k,
{
    if k > 0 {
        lemma_imms_smaller(bytes, pc, k - 1);
        lemma_slots_of_raw(bytes, pc);
        let s = operand::slots_of(bytes)[pc];
        lemma_patched_sums(bytes, pc, Slot { imm: operand::VALUE_POOL@[k - 1], ..s });
    }
}

proof fn lemma_offsets_smaller(bytes: Seq<u8>, pc: int, k: int)
    requires
        fixup::decodes_singly(bytes),
        0 <= pc < bytes.len() / 8,
        operand::is_access(operand::slots_of(bytes)[pc]),
        k <= operand::magnitude(operand::slots_of(bytes)[pc].off as int) / 8,
    ensures
        all_smaller(bytes, operand::nearer_offsets(bytes, pc, operand::slots_of(bytes)[pc], k)),
    decreases k,
{
    if k > 1 {
        lemma_offsets_smaller(bytes, pc, k - 1);
        lemma_slots_of_raw(bytes, pc);
        let s = operand::slots_of(bytes)[pc];
        let off = operand::step_offset(s.off as int, k - 1);
        assert(operand::magnitude(off as int) < operand::magnitude(s.off as int));
        lemma_patched_sums(bytes, pc, Slot { off, ..s });
    }
}

proof fn lemma_lists_smaller(bytes: Seq<u8>, n: int)
    requires
        fixup::decodes_singly(bytes),
        n <= bytes.len() / 8,
    ensures
        all_smaller(bytes, operand::imm_candidates(bytes, operand::slots_of(bytes), n)),
        all_smaller(bytes, operand::form_candidates(bytes, operand::slots_of(bytes), n)),
        all_smaller(bytes, operand::offset_candidates(bytes, operand::slots_of(bytes), n)),
    decreases n,
{
    if n > 0 {
        let slots = operand::slots_of(bytes);
        let s = slots[n - 1];
        lemma_lists_smaller(bytes, n - 1);
        lemma_slots_of_raw(bytes, n - 1);
        if operand::carries_imm(s) {
            lemma_imms_smaller(bytes, n - 1, 5);
        }
        if operand::is_access(s) {
            lemma_offsets_smaller(bytes, n - 1, operand::magnitude(s.off as int) / 8);
        }
        let value = operand::known_const(slots, n - 1, s.src as int);
        if operand::is_x_form(s) && value is Some {
            lemma_patched_sums(bytes, n - 1, operand::k_form(s, value->0));
        }
    }
}

proof fn lemma_renamed_smaller(bytes: Seq<u8>, from: int, to: u8)
    requires
        fixup::decodes_singly(bytes),
        1 <= to < from <= 9,
        operand::is_used(operand::slots_of(bytes), from),
    ensures
        smaller(
            operand::slot_stream(operand::all_renamed(operand::slots_of(bytes), from, to)),
            bytes,
        ),
{
    let slots = operand::slots_of(bytes);
    let all = operand::all_renamed(slots, from, to);
    let out = operand::slot_stream(all);
    let x = raw(out);
    let y = raw(bytes);
    operand::lemma_slot_stream(all, all.len() as int);
    lemma_slots_of_raw(bytes, 0);
    assert(out.len() == bytes.len());
    assert forall|i: int| 0 <= i < x.len() implies #[trigger] x[i] == all[i] by {
        operand::lemma_slot_stream(all, i);
        lemma_slots_of_raw(bytes, i);
        slot::slot_round_trip(all[i]);
    }
    assert forall|i: int| 0 <= i < x.len() implies choice()(#[trigger] x[i]) == choice()(y[i])
        && imm_size()(x[i]) == imm_size()(y[i]) && reg_size()(x[i]) <= reg_size()(y[i]) by {
        lemma_slots_of_raw(bytes, i);
        assert(all[i] == operand::renamed(slots[i], from, to));
    }
    lemma_total_less(x, y, choice());
    lemma_total_less(y, x, choice());
    lemma_total_less(x, y, imm_size());
    lemma_total_less(y, x, imm_size());
    let i = choose|i: int| 0 <= i < slots.len() && operand::names(#[trigger] slots[i], from);
    lemma_slots_of_raw(bytes, i);
    assert(all[i] == operand::renamed(slots[i], from, to));
    assert(reg_size()(x[i]) < reg_size()(y[i]));
    lemma_total_less(x, y, reg_size());
}

/// The highest used register is used.
proof fn lemma_highest_is_used(slots: Seq<Slot>, r: int)
    requires
        r >= 0,
    ensures
        operand::highest_used(slots, r) > 0 ==> operand::is_used(
            slots,
            operand::highest_used(slots, r),
        ),
    decreases r,
{
    if r > 0 {
        lemma_highest_is_used(slots, r - 1);
    }
}

/// Every candidate of operand minimization is smaller than the program.
pub proof fn operand_candidates_shrink(bytes: Seq<u8>)
    ensures
        all_smaller(bytes, operand::all_candidates(bytes)),
{
    if fixup::decodes_singly(bytes) {
        let slots = operand::slots_of(bytes);
        lemma_slots_of_raw(bytes, 0);
        lemma_lists_smaller(bytes, slots.len() as int);
        let from = operand::highest_used(slots, 9);
        let to = operand::lowest_unused(slots, 1, from);
        operand::lemma_highest_range(slots, 9);
        if to < from {
            operand::lemma_lowest_range(slots, 1, from);
            lemma_highest_is_used(slots, 9);
            lemma_renamed_smaller(bytes, from, to as u8);
        }
    }
}

} // verus!
