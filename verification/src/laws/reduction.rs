//! Reduction: what is left of a finding cannot be made simpler. Every smaller
//! immediate, every constant in place of a register, every lower register, every
//! nearer offset and every shorter program was put to the oracle and rejected.

use vstd::prelude::*;

use crate::fuzz::reduce::fixup;
use crate::fuzz::reduce::operand;
use crate::insn;
use crate::insn::BpfInsn;
use crate::laws::names;
use crate::opcode;
use crate::slot;
use crate::slot::Slot;

verus! {

// ── What operand minimization proposes ──────────────────────────────────────

/// The values that are simpler than others.
pub open spec fn is_simple(v: i32) -> bool {
    v == 0 || v == 1 || v == -1 || v == i32::MIN || v == i32::MAX
}

/// The distance of a number from 0.
pub open spec fn size(x: int) -> int {
    if x < 0 {
        -x
    } else {
        x
    }
}

/// The stream is among the candidates for the program.
pub open spec fn is_proposed(bytes: Seq<u8>, c: Seq<u8>) -> bool {
    exists|k: int|
        0 <= k < operand::all_candidates(bytes).len() && (#[trigger] operand::all_candidates(
            bytes,
        )[k]).1 == c
}

/// A program of single-slot instructions, and its slots.
proof fn lemma_slots(insns: Seq<BpfInsn>)
    requires
        fixup::all_single(insns),
        insns.len() > 0,
    ensures
        fixup::decodes_singly(insn::program_bytes(insns)),
        operand::slots_of(insn::program_bytes(insns)).len() == insns.len(),
        forall|i: int|
            0 <= i < insns.len() ==> #[trigger] operand::slots_of(insn::program_bytes(insns))[i]
                == insns[i].slot(),
        insn::program_bytes(insns).len() == 8 * insns.len(),
{
    fixup::lemma_singles_of_program(insns);
}

/// Another slot in the stream is another instruction in the program.
proof fn lemma_patch(insns: Seq<BpfInsn>, pc: int, i: BpfInsn)
    requires
        0 <= pc < insns.len(),
    ensures
        operand::patched(insn::program_bytes(insns), pc, i.slot()) == insn::program_bytes(
            insns.update(pc, i),
        ),
{
    let bytes = insn::program_bytes(insns);
    let a = operand::patched(bytes, pc, i.slot());
    let b = insn::program_bytes(insns.update(pc, i));
    slot::lemma_slot_len(i.slot());
    assert(a.len() == b.len());
    assert forall|k: int| 0 <= k < a.len() implies a[k] == b[k] by {
        if 8 * pc <= k < 8 * pc + 8 {
            assert(k / 8 == pc && k % 8 == k - 8 * pc);
        } else if k < 8 * pc {
            assert(k / 8 < pc);
        } else {
            assert(k / 8 > pc);
        }
    }
    assert(a =~= b);
}

/// The immediates by name.
#[verifier::rlimit(60)]
#[verifier::spinoff_prover]
proof fn lemma_imm(i: BpfInsn, v: i32)
    ensures
        (names::imm_operand(i) is Some) == (operand::carries_imm(i.slot()) && i.is_single()),
        names::imm_operand(i) matches Some(imm) ==> imm == i.slot().imm && names::with_imm(
            i,
            v,
        ).is_single() && names::with_imm(i, v).slot() == (Slot { imm: v, ..i.slot() }),
{
    reveal(BpfInsn::slot);
}

proof fn lemma_smaller(bytes: Seq<u8>, pc: int, s: Slot, n: int, k: int)
    requires
        0 <= k < n <= 5,
        operand::magnitude(operand::VALUE_POOL@[k] as int) < operand::magnitude(s.imm as int),
    ensures
        operand::smaller_imms(bytes, pc, s, n).contains(
            (
                "immediate"@,
                operand::patched(bytes, pc, Slot { imm: operand::VALUE_POOL@[k], ..s }),
            ),
        ),
    decreases n,
{
    let c = (
        "immediate"@,
        operand::patched(bytes, pc, Slot { imm: operand::VALUE_POOL@[k], ..s }),
    );
    let rest = operand::smaller_imms(bytes, pc, s, n - 1);
    let all = operand::smaller_imms(bytes, pc, s, n);
    if k < n - 1 {
        lemma_smaller(bytes, pc, s, n - 1, k);
        let j = choose|j: int| 0 <= j < rest.len() && rest[j] == c;
        assert(all[j] == c);
    } else {
        assert(all[rest.len() as int] == c);
    }
}

proof fn lemma_imm_listed(bytes: Seq<u8>, slots: Seq<Slot>, n: int, pc: int, k: int)
    requires
        0 <= pc < n <= slots.len(),
        0 <= k < 5,
        operand::carries_imm(slots[pc]),
        operand::magnitude(operand::VALUE_POOL@[k] as int) < operand::magnitude(
            slots[pc].imm as int,
        ),
    ensures
        operand::imm_candidates(bytes, slots, n).contains(
            (
                "immediate"@,
                operand::patched(bytes, pc, Slot { imm: operand::VALUE_POOL@[k], ..slots[pc] }),
            ),
        ),
    decreases n,
{
    let c = (
        "immediate"@,
        operand::patched(bytes, pc, Slot { imm: operand::VALUE_POOL@[k], ..slots[pc] }),
    );
    let rest = operand::imm_candidates(bytes, slots, n - 1);
    let all = operand::imm_candidates(bytes, slots, n);
    if pc < n - 1 {
        lemma_imm_listed(bytes, slots, n - 1, pc, k);
        let j = choose|j: int| 0 <= j < rest.len() && rest[j] == c;
        assert(all[j] == c);
    } else {
        lemma_smaller(bytes, pc, slots[pc], 5, k);
        let more = operand::smaller_imms(bytes, pc, slots[pc], 5);
        let j = choose|j: int| 0 <= j < more.len() && more[j] == c;
        assert(all[rest.len() + j] == c);
    }
}

/// An immediate operand can become any simple value that is nearer to 0.
pub proof fn smaller_immediates_are_proposed(insns: Seq<BpfInsn>, pc: int, v: i32)
    requires
        fixup::all_single(insns),
        0 <= pc < insns.len(),
        names::imm_operand(insns[pc]) is Some,
        is_simple(v),
        size(v as int) < size(names::imm_operand(insns[pc])->0 as int),
    ensures
        is_proposed(
            insn::program_bytes(insns),
            insn::program_bytes(insns.update(pc, names::with_imm(insns[pc], v))),
        ),
{
    let bytes = insn::program_bytes(insns);
    let slots = operand::slots_of(bytes);
    lemma_slots(insns);
    lemma_imm(insns[pc], v);
    assert(slots[pc] == insns[pc].slot());
    let k: int = if v == 0 {
        0
    } else if v == 1 {
        1
    } else if v == -1 {
        2
    } else if v == i32::MIN {
        3
    } else {
        4
    };
    assert(operand::VALUE_POOL@[k] == v) by {
        if k == 0 {} else if k == 1 {} else if k == 2 {} else if k == 3 {} else {}
    }
    lemma_imm_listed(bytes, slots, slots.len() as int, pc, k);
    lemma_patch(insns, pc, names::with_imm(insns[pc], v));
    let part = operand::imm_candidates(bytes, slots, slots.len() as int);
    let c = ("immediate"@, operand::patched(bytes, pc, Slot { imm: v, ..slots[pc] }));
    let j = choose|j: int| 0 <= j < part.len() && part[j] == c;
    assert(operand::all_candidates(bytes)[j] == c);
}

/// The number that register `r` holds in front of the instruction at `n`, where the
/// program shows it: it was moved there, or copied from a register with a known
/// number, and nothing else wrote it since.
pub open spec fn constant(insns: Seq<BpfInsn>, n: int, r: int) -> Option<i32>
    decreases n,
{
    if n <= 0 {
        None
    } else {
        match insns[n - 1] {
            BpfInsn::MovImm { dst, imm } => if r == dst {
                Some(imm)
            } else {
                constant(insns, n - 1, r)
            },
            BpfInsn::MovReg { dst, src } => if r == dst {
                constant(insns, n - 1, src as int)
            } else {
                constant(insns, n - 1, r)
            },
            i => if names::writes(i, r) {
                None
            } else {
                constant(insns, n - 1, r)
            },
        }
    }
}

/// What decides whether a constant stays known, by name.
#[verifier::rlimit(60)]
#[verifier::spinoff_prover]
proof fn lemma_def(i: BpfInsn, r: int)
    requires
        i.is_single(),
        r >= 0,
    ensures
        ({
            let s = i.slot();
            &&& (s.op == opcode::MOV_IMM) == (i is MovImm)
            &&& (s.op == opcode::MOV_REG) == (i is MovReg)
            &&& i is MovImm ==> s.dst == i->MovImm_dst && s.imm == i->MovImm_imm
            &&& i is MovReg ==> s.dst == i->MovReg_dst && s.src == i->MovReg_src
            &&& names::writes(i, r) == if s.op == opcode::CALL {
                r <= 5
            } else {
                r == s.dst && (insn::is_alu_op(s.op) || operand::is_load(s))
            }
        }),
{
    reveal(BpfInsn::slot);
}

proof fn lemma_constant(insns: Seq<BpfInsn>, slots: Seq<Slot>, n: int, r: int)
    requires
        fixup::all_single(insns),
        slots.len() == insns.len(),
        forall|i: int| 0 <= i < insns.len() ==> #[trigger] slots[i] == insns[i].slot(),
        n <= insns.len(),
        r >= 0,
    ensures
        operand::known_const(slots, n, r) == constant(insns, n, r),
    decreases n,
{
    if n > 0 {
        let i = insns[n - 1];
        assert(slots[n - 1] == i.slot());
        lemma_def(i, r);
        lemma_constant(insns, slots, n - 1, r);
        if i is MovReg {
            lemma_constant(insns, slots, n - 1, i->MovReg_src as int);
        }
    }
}

#[verifier::rlimit(60)]
#[verifier::spinoff_prover]
proof fn lemma_form(i: BpfInsn, v: i32)
    requires
        i.is_single(),
    ensures
        (names::source_form(i, v) is Some) == operand::is_x_form(i.slot()),
        names::source_form(i, v) matches Some(f) ==> f.0 == i.slot().src && f.1.is_single()
            && f.1.slot() == operand::k_form(i.slot(), v),
{
    reveal(BpfInsn::slot);
}

proof fn lemma_form_listed(bytes: Seq<u8>, slots: Seq<Slot>, n: int, pc: int, v: i32)
    requires
        0 <= pc < n <= slots.len(),
        operand::is_x_form(slots[pc]),
        operand::known_const(slots, pc, slots[pc].src as int) == Some(v),
    ensures
        operand::form_candidates(bytes, slots, n).contains(
            ("alu-form"@, operand::patched(bytes, pc, operand::k_form(slots[pc], v))),
        ),
    decreases n,
{
    let c = ("alu-form"@, operand::patched(bytes, pc, operand::k_form(slots[pc], v)));
    let rest = operand::form_candidates(bytes, slots, n - 1);
    let all = operand::form_candidates(bytes, slots, n);
    if pc < n - 1 {
        lemma_form_listed(bytes, slots, n - 1, pc, v);
        let j = choose|j: int| 0 <= j < rest.len() && rest[j] == c;
        assert(all[j] == c);
    } else {
        assert(all[rest.len() as int] == c);
    }
}

/// An operation on a register that holds a known number can take the number itself.
pub proof fn known_constants_are_proposed(insns: Seq<BpfInsn>, pc: int, v: i32)
    requires
        fixup::all_single(insns),
        0 <= pc < insns.len(),
        names::source_form(insns[pc], v) is Some,
        constant(insns, pc, (names::source_form(insns[pc], v)->0).0 as int) == Some(v),
    ensures
        is_proposed(
            insn::program_bytes(insns),
            insn::program_bytes(insns.update(pc, (names::source_form(insns[pc], v)->0).1)),
        ),
{
    let bytes = insn::program_bytes(insns);
    let slots = operand::slots_of(bytes);
    lemma_slots(insns);
    assert(insns[pc].is_single());
    lemma_form(insns[pc], v);
    assert(slots[pc] == insns[pc].slot());
    lemma_constant(insns, slots, pc, slots[pc].src as int);
    let n = slots.len() as int;
    lemma_form_listed(bytes, slots, n, pc, v);
    lemma_patch(insns, pc, (names::source_form(insns[pc], v)->0).1);
    let first = operand::imm_candidates(bytes, slots, n);
    let part = operand::form_candidates(bytes, slots, n);
    let c = ("alu-form"@, operand::patched(bytes, pc, operand::k_form(slots[pc], v)));
    let j = choose|j: int| 0 <= j < part.len() && part[j] == c;
    assert(operand::all_candidates(bytes)[first.len() + j] == c);
}

/// The access with another offset, and its offset: a load, or a store of a register.
pub open spec fn access_offset(i: BpfInsn) -> Option<i16> {
    match i {
        BpfInsn::LdMem { offset, .. } => Some(offset),
        BpfInsn::StMem { offset, .. } => Some(offset),
        _ => None,
    }
}

pub open spec fn with_access_offset(i: BpfInsn, offset: i16) -> BpfInsn {
    match i {
        BpfInsn::LdMem { dst, base, size, sign_extend, .. } => BpfInsn::LdMem {
            dst,
            base,
            offset,
            size,
            sign_extend,
        },
        BpfInsn::StMem { src, base, size, .. } => BpfInsn::StMem { src, base, offset, size },
        other => other,
    }
}

#[verifier::rlimit(60)]
#[verifier::spinoff_prover]
proof fn lemma_access(i: BpfInsn, off: i16)
    requires
        i.is_single(),
    ensures
        (access_offset(i) is Some) == operand::is_access(i.slot()),
        access_offset(i) matches Some(offset) ==> offset == i.slot().off && with_access_offset(
            i,
            off,
        ).is_single() && with_access_offset(i, off).slot() == (Slot { off, ..i.slot() }),
{
    reveal(BpfInsn::slot);
}

proof fn lemma_nearer(bytes: Seq<u8>, pc: int, s: Slot, n: int, k: int)
    requires
        1 <= k < n,
    ensures
        operand::nearer_offsets(bytes, pc, s, n).contains(
            (
                "stack-offset"@,
                operand::patched(bytes, pc, Slot { off: operand::step_offset(s.off as int, k), ..s }),
            ),
        ),
    decreases n,
{
    let c = (
        "stack-offset"@,
        operand::patched(bytes, pc, Slot { off: operand::step_offset(s.off as int, k), ..s }),
    );
    let rest = operand::nearer_offsets(bytes, pc, s, n - 1);
    let all = operand::nearer_offsets(bytes, pc, s, n);
    if k < n - 1 {
        lemma_nearer(bytes, pc, s, n - 1, k);
        let j = choose|j: int| 0 <= j < rest.len() && rest[j] == c;
        assert(all[j] == c);
    } else {
        assert(all[rest.len() as int] == c);
    }
}

proof fn lemma_offset_listed(bytes: Seq<u8>, slots: Seq<Slot>, n: int, pc: int, k: int)
    requires
        0 <= pc < n <= slots.len(),
        operand::is_access(slots[pc]),
        1 <= k < operand::magnitude(slots[pc].off as int) / 8,
    ensures
        operand::offset_candidates(bytes, slots, n).contains(
            (
                "stack-offset"@,
                operand::patched(
                    bytes,
                    pc,
                    Slot { off: operand::step_offset(slots[pc].off as int, k), ..slots[pc] },
                ),
            ),
        ),
    decreases n,
{
    let c = (
        "stack-offset"@,
        operand::patched(
            bytes,
            pc,
            Slot { off: operand::step_offset(slots[pc].off as int, k), ..slots[pc] },
        ),
    );
    let rest = operand::offset_candidates(bytes, slots, n - 1);
    let all = operand::offset_candidates(bytes, slots, n);
    if pc < n - 1 {
        lemma_offset_listed(bytes, slots, n - 1, pc, k);
        let j = choose|j: int| 0 <= j < rest.len() && rest[j] == c;
        assert(all[j] == c);
    } else {
        let m = operand::magnitude(slots[pc].off as int) / 8;
        lemma_nearer(bytes, pc, slots[pc], m, k);
        let more = operand::nearer_offsets(bytes, pc, slots[pc], m);
        let j = choose|j: int| 0 <= j < more.len() && more[j] == c;
        assert(all[rest.len() + j] == c);
    }
}

/// An access can move toward 0, in steps of eight bytes, on its own side.
pub proof fn nearer_offsets_are_proposed(insns: Seq<BpfInsn>, pc: int, off: i16)
    requires
        fixup::all_single(insns),
        0 <= pc < insns.len(),
        access_offset(insns[pc]) is Some,
        off % 8 == 0,
        off != 0,
        (off < 0) == (access_offset(insns[pc])->0 < 0),
        size(off as int) + 8 <= size(access_offset(insns[pc])->0 as int),
    ensures
        is_proposed(
            insn::program_bytes(insns),
            insn::program_bytes(insns.update(pc, with_access_offset(insns[pc], off))),
        ),
{
    let bytes = insn::program_bytes(insns);
    let slots = operand::slots_of(bytes);
    lemma_slots(insns);
    assert(insns[pc].is_single());
    lemma_access(insns[pc], off);
    assert(slots[pc] == insns[pc].slot());
    let n = slots.len() as int;
    let k = size(off as int) / 8;
    assert(operand::step_offset(slots[pc].off as int, k) == off);
    lemma_offset_listed(bytes, slots, n, pc, k);
    lemma_patch(insns, pc, with_access_offset(insns[pc], off));
    let first = operand::imm_candidates(bytes, slots, n) + operand::form_candidates(
        bytes,
        slots,
        n,
    ) + operand::lowering_candidates(slots);
    let part = operand::offset_candidates(bytes, slots, n);
    let c = ("stack-offset"@, operand::patched(bytes, pc, Slot { off, ..slots[pc] }));
    let j = choose|j: int| 0 <= j < part.len() && part[j] == c;
    assert(operand::all_candidates(bytes)[first.len() + j] == c);
}

/// The instruction names the register as an operand.
pub open spec fn mentions(i: BpfInsn, r: int) -> bool {
    !(i is Call) && !(i is CallSub) && !(i is CallKfunc) && (names::reads(i, r) || names::writes(
        i,
        r,
    ))
}

/// Some instruction of the program names the register.
pub open spec fn is_named(insns: Seq<BpfInsn>, r: int) -> bool {
    exists|i: int| 0 <= i < insns.len() && mentions(#[trigger] insns[i], r)
}

#[verifier::rlimit(60)]
#[verifier::spinoff_prover]
proof fn lemma_mentions(i: BpfInsn, r: int)
    requires
        i.is_single(),
        r >= 1,
    ensures
        operand::names(i.slot(), r) == mentions(i, r),
{
    reveal(BpfInsn::slot);
}

proof fn lemma_highest(slots: Seq<Slot>, r: int, high: int)
    requires
        1 <= high <= r,
        operand::is_used(slots, high),
        forall|q: int| high < q <= r ==> !(#[trigger] operand::is_used(slots, q)),
    ensures
        operand::highest_used(slots, r) == high,
    decreases r,
{
    if high < r {
        assert(!operand::is_used(slots, r));
        lemma_highest(slots, r - 1, high);
    }
}

proof fn lemma_lowest(slots: Seq<Slot>, r: int, low: int, high: int)
    requires
        r <= low < high,
        !operand::is_used(slots, low),
        forall|q: int| r <= q < low ==> #[trigger] operand::is_used(slots, q),
    ensures
        operand::lowest_unused(slots, r, high) == low,
    decreases high - r,
{
    if r < low {
        assert(operand::is_used(slots, r));
        lemma_lowest(slots, r + 1, low, high);
    }
}

/// The program `to` is `from` with the register `high` renamed to `low`.
pub open spec fn is_renamed(from: Seq<BpfInsn>, to: Seq<BpfInsn>, high: u8, low: u8) -> bool {
    &&& to.len() == from.len()
    &&& fixup::all_single(to)
    &&& forall|i: int|
        0 <= i < from.len() ==> {
            let (a, b) = (from[i].slot(), (#[trigger] to[i]).slot());
            if from[i] is Call || from[i] is CallSub || from[i] is CallKfunc {
                a == b
            } else {
                &&& a.op == b.op && a.off == b.off && a.imm == b.imm
                &&& b.dst == if a.dst == high {
                    low
                } else {
                    a.dst
                }
                &&& b.src == if a.src == high {
                    low
                } else {
                    a.src
                }
            }
        }
}

/// The highest of the registers R1 to R9 that the program names can take the place
/// of the lowest that it does not name.
pub proof fn lower_registers_are_proposed(
    insns: Seq<BpfInsn>,
    renamed: Seq<BpfInsn>,
    high: u8,
    low: u8,
)
    requires
        fixup::all_single(insns),
        insns.len() > 0,
        1 <= low < high <= 9,
        is_named(insns, high as int),
        forall|q: int| high < q <= 9 ==> !(#[trigger] is_named(insns, q)),
        !is_named(insns, low as int),
        forall|q: int| 1 <= q < low ==> #[trigger] is_named(insns, q),
        is_renamed(insns, renamed, high, low),
    ensures
        is_proposed(insn::program_bytes(insns), insn::program_bytes(renamed)),
{
    let bytes = insn::program_bytes(insns);
    let slots = operand::slots_of(bytes);
    lemma_slots(insns);
    let n = slots.len() as int;
    assert forall|q: int| 1 <= q <= 9 implies #[trigger] operand::is_used(slots, q) == is_named(
        insns,
        q,
    ) by {
        assert forall|i: int| 0 <= i < insns.len() implies operand::names(
            #[trigger] slots[i],
            q,
        ) == mentions(insns[i], q) by {
            assert(insns[i].is_single());
            lemma_mentions(insns[i], q);
        }
        if operand::is_used(slots, q) {
            let i = choose|i: int| 0 <= i < slots.len() && operand::names(#[trigger] slots[i], q);
            assert(mentions(insns[i], q));
        }
        if is_named(insns, q) {
            let i = choose|i: int| 0 <= i < insns.len() && mentions(#[trigger] insns[i], q);
            assert(operand::names(slots[i], q));
        }
    }
    assert(operand::is_used(slots, high as int));
    assert(!operand::is_used(slots, low as int));
    lemma_highest(slots, 9, high as int);
    lemma_lowest(slots, 1, low as int, high as int);
    let out = operand::all_renamed(slots, high as int, low);
    assert forall|i: int| 0 <= i < n implies out[i] == (#[trigger] renamed[i]).slot() by {
        assert(slots[i] == insns[i].slot());
        assert(insns[i].is_single());
        lemma_call_op(insns[i]);
    }
    let stream = operand::slot_stream(out);
    let expected = insn::program_bytes(renamed);
    operand::lemma_slot_stream(out, 0);
    assert forall|k: int| 0 <= k < stream.len() implies stream[k] == expected[k] by {
        operand::lemma_slot_stream(out, k / 8);
        assert(out[k / 8] == renamed[k / 8].slot());
        assert(insn::slot_bytes_at(stream, k / 8)[k % 8] == stream[k]);
    }
    assert(stream =~= expected);
    let first = operand::imm_candidates(bytes, slots, n) + operand::form_candidates(
        bytes,
        slots,
        n,
    );
    assert(operand::all_candidates(bytes)[first.len() as int] == ("reg-lower"@, stream));
}

proof fn lemma_call_op(i: BpfInsn)
    requires
        i.is_single(),
    ensures
        (i.slot().op == opcode::CALL) == (i is Call || i is CallSub || i is CallKfunc),
{
    reveal(BpfInsn::slot);
}

} // verus!
