//! Liveness: a register or a stack slot is live before an instruction exactly when
//! some execution from there on may read it before it is written.

use vstd::prelude::*;

use crate::cfg;
use crate::flow;
use crate::insn::BpfInsn;
use crate::laws::names;
use crate::liveness;
use crate::liveness::Liveness;

verus! {

/// Liveness travels from `b` back to `a`: control flows so, or a call enters its
/// subprogram, or an exit returns behind a call of the subprogram that it ends.
pub open spec fn precedes(insns: Seq<BpfInsn>, a: int, b: int) -> bool {
    &&& 0 <= a < insns.len()
    &&& 0 <= b < insns.len()
    &&& match insns[a] {
        BpfInsn::CallSub { offset } => b == a + 1 + offset,
        BpfInsn::Exit => exists|entry: int| #[trigger]
            names::holds(insns, entry, a) && names::calls(insns, b - 1, entry),
        _ => names::flows(insns, a, b),
    }
}

/// A way through the program that begins at `pc`.
pub open spec fn is_way(insns: Seq<BpfInsn>, pc: int, p: Seq<int>) -> bool {
    &&& p.len() > 0
    &&& p[0] == pc
    &&& forall|j: int| 0 <= j < p.len() ==> 0 <= #[trigger] p[j] < insns.len()
    &&& forall|j: int|
        #![trigger p[j]]
        0 <= j < p.len() - 1 ==> precedes(insns, p[j], p[j + 1])
}

/// A way at whose end register `r` is read, and on which nothing wrote it.
pub open spec fn reads_first(insns: Seq<BpfInsn>, pc: int, r: int, p: Seq<int>) -> bool {
    &&& is_way(insns, pc, p)
    &&& names::reads(insns[p.last()], r)
    &&& forall|j: int| 0 <= j < p.len() - 1 ==> !names::writes(insns[#[trigger] p[j]], r)
}

/// The same of a stack slot.
pub open spec fn reads_slot_first(insns: Seq<BpfInsn>, pc: int, k: int, p: Seq<int>) -> bool {
    &&& is_way(insns, pc, p)
    &&& names::reads_stack(insns[p.last()], k)
    &&& forall|j: int| 0 <= j < p.len() - 1 ==> !names::writes_stack(insns[#[trigger] p[j]], k)
}

/// The registers that an instruction reads, by its name.
#[verifier::rlimit(60)]
#[verifier::spinoff_prover]
pub proof fn read_registers_by_name(i: BpfInsn, r: int)
    ensures
        liveness::reads_reg(i.slot(), r) == names::reads(i, r),
{
    reveal(BpfInsn::slot);
}

/// The registers that an instruction writes, by its name.
#[verifier::rlimit(60)]
#[verifier::spinoff_prover]
pub proof fn written_registers_by_name(i: BpfInsn, r: int)
    requires
        r >= 0,
    ensures
        liveness::writes_reg(i.slot(), r) == names::writes(i, r),
{
    reveal(BpfInsn::slot);
}

/// The stack slots that an instruction reads and writes, by its name.
pub proof fn slots_by_name(i: BpfInsn, k: int)
    requires
        0 <= k < 64,
    ensures
        liveness::reads_slot(i.slot(), k) == names::reads_stack(i, k),
        liveness::writes_slot(i.slot(), k) == names::writes_stack(i, k),
{
    reveal(BpfInsn::slot);
    let off = i.slot().off as int;
    if liveness::slot_at(off) is Some {
        let j = liveness::slot_at(off)->0;
        assert(off == names::frame_offset(j));
        assert(names::names_slot(off));
    } else if names::names_slot(off) {
        let j = choose|j: int| 0 <= j < 64 && off == #[trigger] names::frame_offset(j);
        assert(off % 8 == 0);
    }
}

proof fn lemma_entry(insns: Seq<BpfInsn>, i: int, pc: int)
    requires
        0 <= i <= pc,
        forall|c: int, e: int| i < e <= pc ==> !(#[trigger] names::calls(insns, c, e)),
    ensures
        forall|entry: int|
            (liveness::entry_at(insns, i) == Some(entry)) == #[trigger] names::holds(
                insns,
                entry,
                pc,
            ),
    decreases i,
{
    if i > 0 {
        if liveness::is_entry(insns, i) {
            let c = choose|c: int|
                0 <= c < insns.len() && #[trigger] cfg::call_target(insns, c) == Some(i);
            assert(names::calls(insns, c, i));
            assert(names::holds(insns, i, pc));
            assert forall|entry: int| (liveness::entry_at(insns, i) == Some(entry))
                == #[trigger] names::holds(insns, entry, pc) by {
                if names::holds(insns, entry, pc) && entry != i {
                    if entry < i {
                        assert(!names::calls(insns, c, i));
                    } else {
                        let d = choose|d: int| names::calls(insns, d, entry);
                        assert(!names::calls(insns, d, entry));
                    }
                }
            }
        } else {
            assert forall|c: int, e: int| i - 1 < e <= pc implies !(#[trigger] names::calls(
                insns,
                c,
                e,
            )) by {
                if names::calls(insns, c, e) && e == i {
                    assert(cfg::call_target(insns, c) == Some(i));
                }
            }
            lemma_entry(insns, i - 1, pc);
        }
    } else {
        assert forall|entry: int| !(#[trigger] names::holds(insns, entry, pc)) by {
            if names::holds(insns, entry, pc) {
                let d = choose|d: int| names::calls(insns, d, entry);
                assert(!names::calls(insns, d, entry));
            }
        }
    }
}

/// Control flows as the names say.
pub proof fn flow_by_name(insns: Seq<BpfInsn>, a: int, b: int)
    ensures
        (flow::flow_edges(insns)(a, b)) == names::flows(insns, a, b),
{
    if 0 <= a < insns.len() {
        reveal(BpfInsn::slot);
        let list = flow::successor_list(insns, a);
        let fall = flow::fall_through(insns, a);
        let jump = flow::jump_target(insns, a);
        if list.contains(b) {
            let k = choose|k: int| 0 <= k < list.len() && list[k] == b;
            assert(names::flows(insns, a, b));
        }
        if names::flows(insns, a, b) {
            if b == a + 1 && !(insns[a] is Jmp) {
                assert(list[0] == b);
            } else {
                assert(jump == seq![b]);
                assert(list[list.len() - 1] == b);
            }
        }
    }
}

/// Liveness travels as the names say.
pub proof fn precedence_by_name(insns: Seq<BpfInsn>, a: int, b: int)
    ensures
        (liveness::live_edges(insns)(a, b)) == precedes(insns, a, b),
{
    if 0 <= a < insns.len() && 0 <= b < insns.len() {
        flow_by_name(insns, a, b);
        if insns[a] is Exit {
            lemma_entry(insns, a, a);
            if liveness::live_edges(insns)(a, b) {
                let entry = liveness::entry_at(insns, a)->0;
                assert(names::holds(insns, entry, a));
                assert(names::calls(insns, b - 1, entry));
            }
            if precedes(insns, a, b) {
                let entry = choose|entry: int| #[trigger]
                    names::holds(insns, entry, a) && names::calls(insns, b - 1, entry);
                assert(liveness::entry_at(insns, a) == Some(entry));
            }
        }
    }
}

proof fn lemma_way(
    insns: Seq<BpfInsn>,
    reads: spec_fn(int) -> bool,
    writes: spec_fn(int) -> bool,
    pc: int,
    p: Seq<int>,
)
    requires
        forall|x: int| #[trigger] reads(x) ==> 0 <= x < insns.len(),
    ensures
        (liveness::is_read_path(liveness::live_edges(insns), reads, writes, p) && p[0] == pc) == (
        is_way(insns, pc, p) && reads(p.last()) && forall|j: int|
            0 <= j < p.len() - 1 ==> !writes(#[trigger] p[j])),
{
    let e = liveness::live_edges(insns);
    assert forall|a: int, b: int| #[trigger] e(a, b) == precedes(insns, a, b) by {
        precedence_by_name(insns, a, b);
    }
    if liveness::is_read_path(e, reads, writes, p) && p[0] == pc {
        assert forall|j: int| #![trigger p[j]] 0 <= j < p.len() - 1 implies precedes(
            insns,
            p[j],
            p[j + 1],
        ) by {
            assert(e(p[j], p[j + 1]));
        }
        assert forall|j: int| 0 <= j < p.len() implies 0 <= #[trigger] p[j] < insns.len() by {
            if j < p.len() - 1 {
                assert(e(p[j], p[j + 1]));
            } else {
                assert(reads(p.last()));
            }
        }
    }
    if is_way(insns, pc, p) && reads(p.last()) && forall|j: int|
        0 <= j < p.len() - 1 ==> !writes(#[trigger] p[j]) {
        assert forall|i: int| #![trigger p[i]] 0 <= i < p.len() - 1 implies e(p[i], p[i + 1]) by {
            assert(precedes(insns, p[i], p[i + 1]));
        }
    }
}

/// Bit `r` of the register mask before `pc` is set exactly when register `r` may be
/// read from `pc` on before it is written.
pub proof fn registers_live_iff_read_first(insns: Seq<BpfInsn>, l: Liveness, pc: int, r: int)
    requires
        liveness::is_liveness(insns, l),
        0 <= pc < insns.len(),
        0 <= r <= 10,
    ensures
        ((l.regs_mask(pc) >> (r as u16)) & 1 == 1) == (exists|p: Seq<int>|
            reads_first(insns, pc, r, p)),
{
    let e = liveness::live_edges(insns);
    let reads = liveness::reg_reads(insns, r);
    let writes = liveness::reg_writes(insns, r);
    assert forall|i: int| 0 <= i < insns.len() implies #[trigger] reads(i) == names::reads(
        insns[i],
        r,
    ) && writes(i) == names::writes(insns[i], r) by {
        read_registers_by_name(insns[i], r);
        written_registers_by_name(insns[i], r);
    }
    assert(liveness::bit16(l.regs_mask(pc), r) == liveness::reg_live(insns, pc, r));
    assert forall|p: Seq<int>| #[trigger] reads_first(insns, pc, r, p) == (liveness::is_read_path(
        e,
        reads,
        writes,
        p,
    ) && p[0] == pc) by {
        lemma_way(insns, reads, writes, pc, p);
        if is_way(insns, pc, p) {
            assert(0 <= p[p.len() - 1] < insns.len());
            assert(reads(p.last()) == names::reads(insns[p.last()], r));
            assert forall|j: int| 0 <= j < p.len() implies writes(#[trigger] p[j]) == names::writes(
                insns[p[j]],
                r,
            ) by {
                assert(reads(p[j]) == names::reads(insns[p[j]], r));
            }
        }
    }
    if liveness::reg_live(insns, pc, r) {
        let p = choose|p: Seq<int>| #[trigger]
            liveness::is_read_path(e, reads, writes, p) && p[0] == pc;
        assert(reads_first(insns, pc, r, p));
    }
    if exists|p: Seq<int>| reads_first(insns, pc, r, p) {
        let p = choose|p: Seq<int>| reads_first(insns, pc, r, p);
        assert(liveness::is_read_path(e, reads, writes, p) && p[0] == pc);
    }
}

/// What an instruction reads is live before it: the value and the base of a store
/// among them.
pub proof fn read_registers_are_live(insns: Seq<BpfInsn>, l: Liveness, pc: int, r: int)
    requires
        liveness::is_liveness(insns, l),
        0 <= pc < insns.len(),
        0 <= r <= 10,
        names::reads(insns[pc], r),
    ensures
        (l.regs_mask(pc) >> (r as u16)) & 1 == 1,
{
    registers_live_iff_read_first(insns, l, pc, r);
    assert(reads_first(insns, pc, r, seq![pc]));
}

/// What an instruction writes without reading it is dead before it.
pub proof fn written_registers_are_dead(insns: Seq<BpfInsn>, l: Liveness, pc: int, r: int)
    requires
        liveness::is_liveness(insns, l),
        0 <= pc < insns.len(),
        0 <= r <= 10,
        names::writes(insns[pc], r),
        !names::reads(insns[pc], r),
    ensures
        (l.regs_mask(pc) >> (r as u16)) & 1 != 1,
{
    registers_live_iff_read_first(insns, l, pc, r);
    if exists|p: Seq<int>| reads_first(insns, pc, r, p) {
        let p = choose|p: Seq<int>| reads_first(insns, pc, r, p);
        if p.len() > 1 {
            assert(!names::writes(insns[p[0]], r));
        }
    }
}

/// Bit `k` of the slot mask before `pc` is set exactly when stack slot `k` may be
/// read from `pc` on before the whole of it is written.
pub proof fn slots_live_iff_read_first(insns: Seq<BpfInsn>, l: Liveness, pc: int, k: int)
    requires
        liveness::is_liveness(insns, l),
        0 <= pc < insns.len(),
        0 <= k < 64,
    ensures
        ((l.slots_mask(pc) >> (k as u64)) & 1 == 1) == (exists|p: Seq<int>|
            reads_slot_first(insns, pc, k, p)),
{
    let e = liveness::live_edges(insns);
    let reads = liveness::slot_reads(insns, k);
    let writes = liveness::slot_writes(insns, k);
    assert forall|i: int| 0 <= i < insns.len() implies #[trigger] reads(i) == names::reads_stack(
        insns[i],
        k,
    ) && writes(i) == names::writes_stack(insns[i], k) by {
        slots_by_name(insns[i], k);
    }
    assert(liveness::bit64(l.slots_mask(pc), k) == liveness::slot_live(insns, pc, k));
    assert forall|p: Seq<int>| #[trigger] reads_slot_first(insns, pc, k, p) == (
    liveness::is_read_path(e, reads, writes, p) && p[0] == pc) by {
        lemma_way(insns, reads, writes, pc, p);
        if is_way(insns, pc, p) {
            assert(0 <= p[p.len() - 1] < insns.len());
            assert(reads(p.last()) == names::reads_stack(insns[p.last()], k));
            assert forall|j: int| 0 <= j < p.len() implies writes(#[trigger] p[j])
                == names::writes_stack(insns[p[j]], k) by {
                assert(reads(p[j]) == names::reads_stack(insns[p[j]], k));
            }
        }
    }
    if liveness::slot_live(insns, pc, k) {
        let p = choose|p: Seq<int>| #[trigger]
            liveness::is_read_path(e, reads, writes, p) && p[0] == pc;
        assert(reads_slot_first(insns, pc, k, p));
    }
    if exists|p: Seq<int>| reads_slot_first(insns, pc, k, p) {
        let p = choose|p: Seq<int>| reads_slot_first(insns, pc, k, p);
        assert(liveness::is_read_path(e, reads, writes, p) && p[0] == pc);
    }
}

/// Outside the program nothing is live.
pub proof fn nothing_is_live_outside(insns: Seq<BpfInsn>, l: Liveness, pc: int)
    requires
        liveness::is_liveness(insns, l),
        pc < 0 || pc >= insns.len(),
    ensures
        l.regs_mask(pc) == 0,
        l.slots_mask(pc) == 0,
{
}

} // verus!
