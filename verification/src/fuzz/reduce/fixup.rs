//! Deletion of instructions with a fixup of branch offsets.
//!
//! Branch offsets are relative to the next instruction, so a raw deletion
//! would silently rewrite the program. Here any set of instructions is
//! deleted, every jump and compare is re-based, and everything else is left
//! as it is. A deletion that would let a branch escape (target removed or out
//! of range, offset beyond 16 bits) is refused.

use vstd::prelude::*;

use crate::flow;
use crate::flow::{branch_offset, resolve};
use crate::insn;
use crate::insn::{parse_insn, slot_of, BpfInsn, DecodeError};
use crate::slot;
use crate::slot::Slot;

verus! {

// ── Programs of single-slot instructions ────────────────────────────────────

/// What the `i`-th slot decodes to when it stands alone.
pub open spec fn single_at(bytes: Seq<u8>, i: int) -> Result<BpfInsn, DecodeError> {
    insn::decode_slot(Slot::of(insn::slot_bytes_at(bytes, i)))
}

/// A non-empty stream of whole slots, each of which decodes alone.
pub open spec fn decodes_singly(bytes: Seq<u8>) -> bool {
    &&& bytes.len() > 0
    &&& bytes.len() % 8 == 0
    &&& forall|i: int| 0 <= i < bytes.len() / 8 ==> (#[trigger] single_at(bytes, i)) is Ok
}

/// The instructions of such a stream.
pub open spec fn singles(bytes: Seq<u8>) -> Seq<BpfInsn> {
    Seq::new(bytes.len() / 8, |i: int| single_at(bytes, i)->Ok_0)
}

/// Single-slot instructions over R0 to R10.
pub open spec fn all_single(insns: Seq<BpfInsn>) -> bool {
    forall|i: int|
        0 <= i < insns.len() ==> (#[trigger] insns[i]).is_single() && insns[i].regs_valid()
}

/// The stream of such instructions decodes to them again.
pub proof fn lemma_singles_of_program(insns: Seq<BpfInsn>)
    requires
        all_single(insns),
    ensures
        insns.len() > 0 ==> decodes_singly(insn::program_bytes(insns)),
        singles(insn::program_bytes(insns)) == insns,
{
    let bytes = insn::program_bytes(insns);
    assert(bytes.len() == 8 * insns.len());
    assert(bytes.len() / 8 == insns.len());
    assert forall|i: int| 0 <= i < insns.len() implies (#[trigger] single_at(bytes, i)) == Ok::<
        BpfInsn,
        DecodeError,
    >(insns[i]) by {
        insn::lemma_program_slot(insns, i);
        slot::slot_round_trip(insns[i].slot());
        insn::decode_slot_inverse(insns[i]);
    }
    assert(singles(bytes) =~= insns);
}

/// What decodes alone is a single-slot instruction over R0 to R10.
pub proof fn lemma_singles_are_single(bytes: Seq<u8>)
    requires
        decodes_singly(bytes),
    ensures
        all_single(singles(bytes)),
{
    assert forall|i: int| 0 <= i < singles(bytes).len() implies (#[trigger] singles(
        bytes,
    )[i]).is_single() && singles(bytes)[i].regs_valid() by {
        assert(single_at(bytes, i) is Ok);
        insn::lemma_decode_slot_valid(Slot::of(insn::slot_bytes_at(bytes, i)));
    }
}

// ── The deletion ────────────────────────────────────────────────────────────

/// The set of indices in a list; order and repetition do not matter.
pub open spec fn index_set(list: Seq<u32>) -> Set<int> {
    Set::new(|i: int| 0 <= i <= u32::MAX && list.contains(i as u32))
}

/// The indices below `k` that are not removed, in ascending order.
pub open spec fn kept(removed: Set<int>, k: int) -> Seq<int>
    decreases k,
{
    if k <= 0 {
        seq![]
    } else if removed.contains(k - 1) {
        kept(removed, k - 1)
    } else {
        kept(removed, k - 1).push(k - 1)
    }
}

/// The new index of the instruction at `old`: how many in front of it stay.
pub open spec fn new_index(removed: Set<int>, old: int) -> int {
    kept(removed, old).len() as int
}

/// The offset of the branch at `old` behind the deletion.
pub open spec fn rebased_offset(insns: Seq<BpfInsn>, removed: Set<int>, old: int) -> int {
    let target = flow::target(old, insns[old].jump_offset()->0 as int);
    new_index(removed, target) - new_index(removed, old) - 1
}

/// The branch at `old` keeps its target: it lies in the program, stays, and
/// the new offset fits its field.
pub open spec fn rebasable_at(insns: Seq<BpfInsn>, removed: Set<int>, old: int) -> bool {
    insns[old].jump_offset() matches Some(offset) ==> {
        let target = flow::target(old, offset as int);
        &&& 0 <= target < insns.len()
        &&& !removed.contains(target)
        &&& i16::MIN <= rebased_offset(insns, removed, old) <= i16::MAX
    }
}

/// The instructions of `removed` lie in the program and can be deleted.
pub open spec fn deletable(insns: Seq<BpfInsn>, removed: Set<int>) -> bool {
    &&& forall|i: int| removed.contains(i) ==> 0 <= i < insns.len()
    &&& forall|old: int|
        0 <= old < insns.len() && !removed.contains(old) ==> #[trigger] rebasable_at(
            insns,
            removed,
            old,
        )
}

/// The instruction at `old` behind the deletion.
pub open spec fn rebased(insns: Seq<BpfInsn>, removed: Set<int>, old: int) -> BpfInsn {
    if insns[old].jump_offset() is Some {
        insns[old].with_jump_offset(rebased_offset(insns, removed, old) as i16)
    } else {
        insns[old]
    }
}

/// The program behind the deletion.
pub open spec fn deleted(insns: Seq<BpfInsn>, removed: Set<int>) -> Seq<BpfInsn> {
    let list = kept(removed, insns.len() as int);
    Seq::new(list.len(), |j: int| rebased(insns, removed, list[j]))
}

/// The byte stream behind a deletion, where it is not refused.
pub open spec fn deletion(bytes: Seq<u8>, removed: Set<int>) -> Option<Seq<u8>> {
    if decodes_singly(bytes) && deletable(singles(bytes), removed) {
        Some(insn::program_bytes(deleted(singles(bytes), removed)))
    } else {
        None
    }
}

// ── Facts about the kept indices ────────────────────────────────────────────

/// The kept indices are ascending, below `k` and not removed, and there are
/// at most `k`.
pub proof fn lemma_kept(removed: Set<int>, k: int)
    requires
        0 <= k,
    ensures
        kept(removed, k).len() <= k,
        forall|j: int|
            0 <= j < kept(removed, k).len() ==> 0 <= #[trigger] kept(removed, k)[j] < k
                && !removed.contains(kept(removed, k)[j]) && new_index(
                removed,
                kept(removed, k)[j],
            ) == j,
    decreases k,
{
    if k > 0 {
        lemma_kept(removed, k - 1);
    }
}

/// The kept indices below a bound are the first of those below a larger one.
pub proof fn lemma_kept_prefix(removed: Set<int>, a: int, b: int)
    requires
        0 <= a <= b,
    ensures
        kept(removed, a).len() <= kept(removed, b).len(),
        kept(removed, b).take(kept(removed, a).len() as int) == kept(removed, a),
    decreases b - a,
{
    if a < b {
        lemma_kept_prefix(removed, a, b - 1);
        let n = kept(removed, a).len() as int;
        assert(kept(removed, b).take(n) =~= kept(removed, b - 1).take(n));
    }
}

/// A kept index stands at its new index.
pub proof fn lemma_kept_at(removed: Set<int>, old: int, n: int)
    requires
        0 <= old < n,
        !removed.contains(old),
    ensures
        new_index(removed, old) < kept(removed, n).len(),
        kept(removed, n)[new_index(removed, old)] == old,
{
    lemma_kept_prefix(removed, old + 1, n);
    let list = kept(removed, n);
    assert(list.take(kept(removed, old + 1).len() as int)[new_index(removed, old)] == old);
}

/// Removing nothing keeps every index.
pub proof fn lemma_kept_none(removed: Set<int>, k: int)
    requires
        0 <= k,
        forall|i: int| 0 <= i < k ==> !removed.contains(i),
    ensures
        kept(removed, k) == Seq::new(k as nat, |i: int| i),
    decreases k,
{
    if k > 0 {
        lemma_kept_none(removed, k - 1);
        assert(kept(removed, k) =~= Seq::new(k as nat, |i: int| i));
    }
}

// ── Laws ────────────────────────────────────────────────────────────────────

/// The program behind a deletion is again one of single-slot instructions.
pub proof fn lemma_deleted_single(insns: Seq<BpfInsn>, removed: Set<int>)
    requires
        all_single(insns),
    ensures
        all_single(deleted(insns, removed)),
        deleted(insns, removed).len() == kept(removed, insns.len() as int).len(),
{
    lemma_kept(removed, insns.len() as int);
    let out = deleted(insns, removed);
    assert forall|j: int| 0 <= j < out.len() implies (#[trigger] out[j]).is_single()
        && out[j].regs_valid() by {
        let old = kept(removed, insns.len() as int)[j];
        assert(insns[old].is_single());
        flow::lemma_with_jump_offset(insns[old], rebased_offset(insns, removed, old) as i16);
    }
}

/// Every branch that stays leads to where its target went: the target of the
/// new branch is the new index of the old target.
pub proof fn deletion_keeps_targets(insns: Seq<BpfInsn>, removed: Set<int>, old: int)
    requires
        deletable(insns, removed),
        0 <= old < insns.len(),
        !removed.contains(old),
    ensures
        ({
            let out = deleted(insns, removed);
            let new = new_index(removed, old);
            &&& 0 <= new < out.len()
            &&& (out[new].jump_offset() is Some) == (insns[old].jump_offset() is Some)
            &&& insns[old].jump_offset() matches Some(offset) ==> flow::target(
                new,
                out[new].jump_offset()->0 as int,
            ) == new_index(removed, flow::target(old, offset as int))
        }),
{
    lemma_kept_at(removed, old, insns.len() as int);
    assert(rebasable_at(insns, removed, old));
    if insns[old].jump_offset() is Some {
        flow::lemma_with_jump_offset(insns[old], rebased_offset(insns, removed, old) as i16);
    }
}

/// Deleting nothing gives the same instructions back, where every branch
/// stays in the program.
pub proof fn empty_deletion_is_identity(insns: Seq<BpfInsn>)
    requires
        forall|i: int|
            0 <= i < insns.len() ==> (#[trigger] insns[i].jump_offset() matches Some(offset)
                ==> 0 <= flow::target(i, offset as int) < insns.len()),
    ensures
        deletable(insns, Set::empty()),
        deleted(insns, Set::empty()) == insns,
{
    let none = Set::<int>::empty();
    let n = insns.len() as int;
    assert forall|k: int| 0 <= k <= n implies #[trigger] new_index(none, k) == k by {
        lemma_kept_none(none, k);
    }
    lemma_kept_none(none, n);
    assert forall|i: int| 0 <= i < n implies #[trigger] rebasable_at(insns, none, i) && rebased(
        insns,
        none,
        i,
    ) == insns[i] by {
        if insns[i].jump_offset() is Some {
            let t = flow::target(i, insns[i].jump_offset()->0 as int);
            assert(new_index(none, t) == t && new_index(none, i) == i);
            flow::lemma_same_jump_offset(insns[i]);
        }
    }
    assert(deleted(insns, none) =~= insns) by {
        assert forall|j: int| 0 <= j < n implies deleted(insns, none)[j] == insns[j] by {
            assert(rebasable_at(insns, none, j));
        }
    }
}

/// What a second deletion removes, in indices of the first program.
pub open spec fn lifted(insns: Seq<BpfInsn>, first: Set<int>, second: Set<int>) -> Set<int> {
    Set::new(
        |i: int|
            first.contains(i) || (0 <= i < insns.len() && second.contains(new_index(first, i))),
    )
}

proof fn lemma_kept_lifted(insns: Seq<BpfInsn>, first: Set<int>, second: Set<int>, k: int)
    requires
        0 <= k <= insns.len(),
    ensures
        kept(lifted(insns, first, second), k) == kept(second, new_index(first, k)).map_values(
            |j: int| kept(first, insns.len() as int)[j],
        ),
    decreases k,
{
    let both = lifted(insns, first, second);
    let list = kept(first, insns.len() as int);
    let lift = |j: int| list[j];
    if k > 0 {
        lemma_kept_lifted(insns, first, second, k - 1);
        let below = new_index(first, k - 1);
        if first.contains(k - 1) {
            assert(both.contains(k - 1));
        } else {
            lemma_kept_at(first, k - 1, insns.len() as int);
            assert(new_index(first, k) == below + 1);
            assert(both.contains(k - 1) == second.contains(below));
            if !second.contains(below) {
                assert(kept(second, below + 1) == kept(second, below).push(below));
                assert(kept(second, below + 1).map_values(lift) =~= kept(second, below).map_values(
                    lift,
                ).push(k - 1));
            }
        }
    } else {
        assert(kept(second, 0).map_values(lift) =~= Seq::<int>::empty());
    }
}

/// Deleting in two steps is deleting both sets at once: the second step is
/// refused exactly where the joint deletion is, and the results are equal.
pub proof fn deletion_composes(insns: Seq<BpfInsn>, first: Set<int>, second: Set<int>)
    requires
        all_single(insns),
        deletable(insns, first),
        forall|i: int| second.contains(i) ==> 0 <= i < deleted(insns, first).len(),
    ensures
        deletable(deleted(insns, first), second) == deletable(
            insns,
            lifted(insns, first, second),
        ),
        deletable(deleted(insns, first), second) ==> deleted(deleted(insns, first), second)
            == deleted(insns, lifted(insns, first, second)),
{
    let n = insns.len() as int;
    let mid = deleted(insns, first);
    let m = mid.len() as int;
    let both = lifted(insns, first, second);
    let list = kept(first, n);
    lemma_kept(first, n);
    assert(m == new_index(first, n));
    // a kept instruction: its index, target and offset in all three programs
    assert forall|old: int| 0 <= old < n && !first.contains(old) implies ({
        let at = #[trigger] new_index(first, old);
        &&& 0 <= at < m
        &&& both.contains(old) == second.contains(at)
        &&& new_index(both, old) == new_index(second, at)
        &&& rebasable_at(mid, second, at) == rebasable_at(insns, both, old)
        &&& !second.contains(at) && rebasable_at(mid, second, at) ==> rebased(mid, second, at)
            == rebased(insns, both, old)
    }) by {
        let at = new_index(first, old);
        lemma_kept_at(first, old, n);
        lemma_kept_lifted(insns, first, second, old);
        deletion_keeps_targets(insns, first, old);
        assert(rebasable_at(insns, first, old));
        if insns[old].jump_offset() is Some {
            let target = flow::target(old, insns[old].jump_offset()->0 as int);
            let at_target = new_index(first, target);
            lemma_kept_at(first, target, n);
            lemma_kept_lifted(insns, first, second, target);
            assert(flow::target(at, mid[at].jump_offset()->0 as int) == at_target);
            assert(new_index(both, target) == new_index(second, at_target));
            assert(rebased_offset(mid, second, at) == rebased_offset(insns, both, old));
            flow::lemma_with_jump_offset_twice(
                insns[old],
                rebased_offset(insns, first, old) as i16,
                rebased_offset(insns, both, old) as i16,
            );
        }
    }
    if deletable(mid, second) {
        assert forall|old: int| 0 <= old < n && !both.contains(old) implies #[trigger] rebasable_at(
            insns,
            both,
            old,
        ) by {
            let at = new_index(first, old);
            assert(rebasable_at(mid, second, at));
        }
    }
    if deletable(insns, both) {
        assert forall|at: int| 0 <= at < m && !second.contains(at) implies #[trigger] rebasable_at(
            mid,
            second,
            at,
        ) by {
            let old = list[at];
            assert(new_index(first, old) == at);
            assert(rebasable_at(insns, both, old));
        }
    }
    if deletable(mid, second) {
        let lift = |j: int| list[j];
        lemma_kept_lifted(insns, first, second, n);
        let outer = kept(second, m);
        lemma_kept(second, m);
        assert(kept(both, n) == outer.map_values(lift));
        assert forall|j: int| 0 <= j < outer.len() implies rebased(mid, second, #[trigger] outer[j])
            == rebased(insns, both, kept(both, n)[j]) by {
            let at = outer[j];
            let old = list[at];
            assert(kept(both, n)[j] == old);
            assert(new_index(first, old) == at);
            assert(rebasable_at(mid, second, at));
        }
        assert(deleted(mid, second) =~= deleted(insns, both));
    }
}

/// The same of byte streams: deleting from what a deletion left is one
/// deletion from the first stream.
pub proof fn stream_deletion_composes(bytes: Seq<u8>, first: Set<int>, second: Set<int>)
    requires
        deletion(bytes, first) is Some,
        deletion(bytes, first)->0.len() > 0,
        forall|i: int| second.contains(i) ==> 0 <= i < deletion(bytes, first)->0.len() / 8,
    ensures
        deletion(deletion(bytes, first)->0, second) == deletion(
            bytes,
            lifted(singles(bytes), first, second),
        ),
{
    let insns = singles(bytes);
    lemma_singles_are_single(bytes);
    lemma_deleted_single(insns, first);
    let mid = deleted(insns, first);
    assert(deletion(bytes, first)->0.len() == 8 * mid.len());
    lemma_singles_of_program(mid);
    deletion_composes(insns, first, second);
}

// ── Execution ───────────────────────────────────────────────────────────────

/// Decodes a stream of slots that each stand alone.
pub fn decode_singles(bytes: &[u8]) -> (r: Option<Vec<BpfInsn>>)
    ensures
        (r is Some) == decodes_singly(bytes@),
        r is Some ==> r->0@ == singles(bytes@),
{
    if bytes.len() == 0 || bytes.len() % 8 != 0 {
        return None;
    }
    let count: usize = bytes.len() / 8;
    let mut insns: Vec<BpfInsn> = Vec::new();
    let mut i: usize = 0;
    while i < count
        invariant
            bytes@.len() <= usize::MAX,
            bytes@.len() % 8 == 0,
            count == bytes@.len() / 8,
            i <= count,
            insns@.len() == i,
            forall|k: int|
                0 <= k < i ==> (#[trigger] single_at(bytes@, k)) == Ok::<BpfInsn, DecodeError>(
                    insns@[k],
                ),
        decreases count - i,
    {
        let chunk: &[u8] = vstd::slice::slice_subrange(bytes, 8 * i, 8 * i + 8);
        proof {
            assert(chunk@.take(8) == insn::slot_bytes_at(bytes@, i as int));
        }
        match parse_insn(chunk) {
            Ok(insn) => {
                insns.push(insn);
            },
            Err(_) => {
                assert(single_at(bytes@, i as int) is Err);
                return None;
            },
        }
        i = i + 1;
    }
    proof {
        assert(insns@ =~= singles(bytes@));
    }
    Some(insns)
}

/// Marks the indices of a list; `None` when one lies outside.
fn mark(list: &[u32], n: usize) -> (r: Option<Vec<bool>>)
    requires
        n <= u32::MAX,
    ensures
        (r is Some) == (forall|i: int| index_set(list@).contains(i) ==> 0 <= i < n),
        r is Some ==> r->0@.len() == n && forall|i: int|
            0 <= i < n ==> #[trigger] r->0@[i] == index_set(list@).contains(i),
{
    let mut marks: Vec<bool> = vec![false; n];
    let mut k: usize = 0;
    while k < list.len()
        invariant
            k <= list@.len(),
            marks@.len() == n,
            n <= u32::MAX,
            forall|j: int| 0 <= j < k ==> #[trigger] list@[j] < n,
            forall|i: int|
                0 <= i < n ==> #[trigger] marks@[i] == list@.take(k as int).contains(i as u32),
        decreases list@.len() - k,
    {
        let i: u32 = list[k];
        if i as usize >= n {
            assert(index_set(list@).contains(i as int));
            return None;
        }
        let ghost before = list@.take(k as int);
        marks.set(i as usize, true);
        proof {
            let after = list@.take(k + 1);
            assert(after == before.push(i));
            assert forall|x: u32| after.contains(x) == (before.contains(x) || x == i) by {
                if before.contains(x) {
                    let j = choose|j: int| 0 <= j < before.len() && before[j] == x;
                    assert(after[j] == x);
                }
                if x == i {
                    assert(after[k as int] == i);
                }
            }
        }
        k = k + 1;
    }
    proof {
        assert(list@.take(k as int) == list@);
    }
    Some(marks)
}

/// Delete a set of instructions from a raw bytecode stream and re-base the
/// branch offsets.
///
/// `remove` may be unsorted and hold an index twice. A branch that stays and
/// whose target was removed, lies outside the program or can no longer be
/// expressed yields `None`, as does a stream that does not decode slot by
/// slot. The immediates of calls and the offsets of memory accesses are never
/// touched.
pub fn delete_insns(bytes: &[u8], remove: &[u32]) -> (out: Option<Vec<u8>>)
    requires
        bytes@.len() / 8 <= u32::MAX,
    ensures
        match out {
            Some(b) => deletion(bytes@, index_set(remove@)) == Some(b@),
            None => deletion(bytes@, index_set(remove@)) is None,
        },
{
    let ghost removed = index_set(remove@);
    let insns: Vec<BpfInsn> = match decode_singles(bytes) {
        Some(insns) => insns,
        None => {
            return None;
        },
    };
    let n: usize = insns.len();
    let marks: Vec<bool> = match mark(remove, n) {
        Some(marks) => marks,
        None => {
            return None;
        },
    };
    // old index to new index
    let mut places: Vec<u32> = Vec::new();
    let mut next: u32 = 0;
    let mut old: usize = 0;
    proof {
        lemma_kept(removed, n as int);
    }
    while old < n
        invariant
            old <= n <= u32::MAX,
            n == insns@.len() == marks@.len(),
            places@.len() == old,
            next == new_index(removed, old as int),
            next <= old,
            forall|i: int| 0 <= i < n ==> #[trigger] marks@[i] == removed.contains(i),
            forall|i: int| 0 <= i < old ==> #[trigger] places@[i] == new_index(removed, i),
        decreases n - old,
    {
        places.push(next);
        if !marks[old] {
            next = next + 1;
        }
        old = old + 1;
    }
    let ghost all = insns@;
    let mut out: Vec<u8> = Vec::new();
    let mut i: usize = 0;
    proof {
        assert(insn::program_bytes(Seq::<BpfInsn>::empty()) =~= Seq::<u8>::empty());
        assert(deleted_upto(all, removed, 0) =~= Seq::<BpfInsn>::empty());
    }
    while i < n
        invariant
            i <= n <= u32::MAX,
            n == insns@.len() == marks@.len() == places@.len(),
            all == insns@,
            decodes_singly(bytes@),
            all == singles(bytes@),
            removed == index_set(remove@),
            forall|k: int| removed.contains(k) ==> 0 <= k < n,
            forall|k: int| 0 <= k < n ==> #[trigger] marks@[k] == removed.contains(k),
            forall|k: int| 0 <= k < n ==> #[trigger] places@[k] == new_index(removed, k),
            forall|k: int|
                0 <= k < i && !removed.contains(k) ==> #[trigger] rebasable_at(all, removed, k),
            out@ == insn::program_bytes(deleted_upto(all, removed, i as int)),
        decreases n - i,
    {
        if !marks[i] {
            let insn: BpfInsn = insns[i];
            let mut slot: Slot = slot_of(&insn);
            if let Some(offset) = branch_offset(&insn) {
                let target: u32 = match resolve(i as u32, offset as i32, n) {
                    Some(t) => t,
                    None => {
                        assert(!rebasable_at(all, removed, i as int));
                        return None;
                    },
                };
                if marks[target as usize] {
                    assert(!rebasable_at(all, removed, i as int));
                    return None;
                }
                let moved: i64 = places[target as usize] as i64 - places[i] as i64 - 1;
                if moved < -0x8000 || moved > 0x7fff {
                    assert(!rebasable_at(all, removed, i as int));
                    return None;
                }
                slot.off = moved as i16;
                proof {
                    flow::lemma_with_jump_offset(insn, moved as i16);
                }
            }
            let chunk: [u8; 8] = slot.write();
            let ghost before = out@;
            append_slot(&mut out, &chunk);
            proof {
                let head = deleted_upto(all, removed, i as int);
                let last = rebased(all, removed, i as int);
                assert(rebasable_at(all, removed, i as int));
                assert(slot == last.slot());
                assert(deleted_upto(all, removed, i + 1) =~= head.push(last));
                crate::fuzz::insn_lib::lemma_program_push(head, last);
            }
        } else {
            proof {
                assert(deleted_upto(all, removed, i + 1) =~= deleted_upto(all, removed, i as int));
            }
        }
        i = i + 1;
    }
    proof {
        assert(deleted_upto(all, removed, n as int) =~= deleted(all, removed));
    }
    Some(out)
}

/// The part of the result that comes from the first `k` instructions.
spec fn deleted_upto(insns: Seq<BpfInsn>, removed: Set<int>, k: int) -> Seq<BpfInsn> {
    kept(removed, k).map_values(|old: int| rebased(insns, removed, old))
}

/// Appends the eight bytes of a slot.
fn append_slot(out: &mut Vec<u8>, chunk: &[u8; 8])
    ensures
        final(out)@ == old(out)@ + chunk@,
{
    let ghost head = out@;
    let mut k: usize = 0;
    proof {
        assert(head + chunk@.take(0) == head);
    }
    while k < 8
        invariant
            k <= 8,
            out@ == head + chunk@.take(k as int),
        decreases 8 - k,
    {
        out.push(chunk[k]);
        proof {
            assert(chunk@.take(k + 1) == chunk@.take(k as int).push(chunk@[k as int]));
        }
        k = k + 1;
    }
    proof {
        assert(chunk@.take(8) == chunk@);
    }
}

} // verus!
