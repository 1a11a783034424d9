//! Structural passes that shrink a program by its control flow alone.
//!
//! - **backward slice**: keep only instructions on a path to the failure
//!   anchor, and the exits, so that the program stays structurally valid;
//! - **dead-code elimination**: drop instructions unreachable from entry;
//! - **branch simplification**: a conditional branch with a statically dead
//!   side becomes the live side's unconditional jump, or is deleted.
//!
//! Passes give candidates; the caller's oracle keeps or discards each one.
//! Candidates come in a fixed order, by ascending instruction index.

use vstd::prelude::*;

use crate::concrete::ConcreteReport;
use crate::flow;
use crate::flow::{branch_offset, resolve, successors};
use crate::fuzz::insn_lib::encode_program;
use crate::fuzz::oracle::first_violation_pc;
use crate::fuzz::reduce::fixup;
use crate::fuzz::reduce::fixup::delete_insns;
use crate::graph;
use crate::graph::reach_from;
use crate::insn;
use crate::insn::{decode_program, BpfInsn};

verus! {

// ── The program and its live part ───────────────────────────────────────────

/// The program of a byte stream: whole slots, at least one, that decode.
pub open spec fn program_of(bytes: Seq<u8>) -> Option<Seq<BpfInsn>> {
    if bytes.len() > 0 && bytes.len() % 8 == 0 {
        match insn::decode_from(bytes, 0) {
            Ok(insns) => Some(insns),
            Err(_) => None,
        }
    } else {
        None
    }
}

/// The edges of the control flow without the edge to leave out.
pub open spec fn live_edges(insns: Seq<BpfInsn>, skip: Option<(u32, u32)>) -> spec_fn(
    int,
    int,
) -> bool {
    |a: int, b: int|
        flow::flow_edges(insns)(a, b) && !(skip is Some && (skip->0).0 == a && (skip->0).1 == b)
}

/// The instruction at `pc` is reachable from entry without that edge.
pub open spec fn live(insns: Seq<BpfInsn>, skip: Option<(u32, u32)>, pc: int) -> bool {
    0 <= pc < insns.len() && graph::reaches(live_edges(insns, skip), 0, pc)
}

/// The instructions that entry does not reach.
pub open spec fn dead_set(insns: Seq<BpfInsn>) -> Set<int> {
    Set::new(|i: int| 0 <= i < insns.len() && !live(insns, None, i))
}

/// The instructions on no path to the anchor, but for the exits.
pub open spec fn off_path(insns: Seq<BpfInsn>, anchor: int) -> Set<int> {
    Set::new(
        |i: int|
            0 <= i < insns.len() && !(insns[i] is Exit) && !graph::reaches(
                flow::flow_edges(insns),
                i,
                anchor,
            ),
    )
}

/// The stream without a set of instructions, where there is something to
/// remove and the deletion is valid.
pub open spec fn shrunk(bytes: Seq<u8>, removed: Set<int>) -> Option<Seq<u8>> {
    if removed == Set::<int>::empty() { None } else { fixup::deletion(bytes, removed) }
}

/// The candidates of one conditional branch: the unconditional jump where
/// the fall-through is dead without the branch, and the deletion where the
/// target is.
pub open spec fn side_candidates(bytes: Seq<u8>, insns: Seq<BpfInsn>, pc: int) -> Seq<Seq<u8>> {
    let offset = insns[pc].jump_offset()->0;
    let target = flow::target(pc, offset as int);
    if !insns[pc].is_compare() || !(0 <= target < insns.len()) {
        seq![]
    } else {
        let jump: Seq<Seq<u8>> = if pc + 1 < insns.len() && !live(
            insns,
            Some((pc as u32, (pc + 1) as u32)),
            pc + 1,
        ) {
            seq![insn::program_bytes(insns.update(pc, BpfInsn::Jmp { offset }))]
        } else {
            seq![]
        };
        let gone: Seq<Seq<u8>> = if !live(insns, Some((pc as u32, target as u32)), target) {
            match fixup::deletion(bytes, set![pc]) {
                Some(b) => seq![b],
                None => seq![],
            }
        } else {
            seq![]
        };
        jump + gone
    }
}

/// The candidates of the first `n` instructions, in order.
pub open spec fn dead_sides(bytes: Seq<u8>, insns: Seq<BpfInsn>, n: int) -> Seq<Seq<u8>>
    decreases n,
{
    if n <= 0 {
        seq![]
    } else {
        dead_sides(bytes, insns, n - 1) + side_candidates(bytes, insns, n - 1)
    }
}

/// Dead-code elimination, where the program has dead code that can be
/// deleted.
pub open spec fn without_dead(bytes: Seq<u8>) -> Option<Seq<u8>> {
    match program_of(bytes) {
        Some(insns) => shrunk(bytes, dead_set(insns)),
        None => None,
    }
}

/// The backward slice, where the anchor lies in the program and something off
/// its paths can be deleted.
pub open spec fn sliced(bytes: Seq<u8>, anchor: Option<u32>) -> Option<Seq<u8>> {
    match (program_of(bytes), anchor) {
        (Some(insns), Some(a)) if a < insns.len() => shrunk(bytes, off_path(insns, a as int)),
        _ => None,
    }
}

/// The candidates of branch simplification.
pub open spec fn simplified(bytes: Seq<u8>) -> Seq<Seq<u8>> {
    match program_of(bytes) {
        Some(insns) => dead_sides(bytes, insns, insns.len() as int),
        None => seq![],
    }
}

/// The bytes of an optional stream.
pub open spec fn stream(v: Option<Vec<u8>>) -> Option<Seq<u8>> {
    match v {
        Some(b) => Some(b@),
        None => None,
    }
}

/// Decoding gives one instruction per slot.
pub proof fn lemma_decode_len(bytes: Seq<u8>, idx: int)
    requires
        0 <= idx <= bytes.len() / 8,
        insn::decode_from(bytes, idx) is Ok,
    ensures
        insn::decode_from(bytes, idx)->Ok_0.len() == bytes.len() / 8 - idx,
    decreases bytes.len() / 8 - idx,
{
    if idx < bytes.len() / 8 {
        if idx + 2 <= bytes.len() / 8 && insn::decode_from(bytes, idx + 2) is Ok {
            lemma_decode_len(bytes, idx + 2);
        }
        if insn::decode_from(bytes, idx + 1) is Ok {
            lemma_decode_len(bytes, idx + 1);
        }
    }
}

// ── Execution ───────────────────────────────────────────────────────────────

/// Decode a stream of whole slots.
pub fn decode(bytes: &[u8]) -> (r: Option<Vec<BpfInsn>>)
    ensures
        match r {
            Some(insns) => program_of(bytes@) == Some(insns@) && insns@.len() == bytes@.len() / 8
                && insns@.len() > 0,
            None => program_of(bytes@) is None,
        },
{
    if bytes.len() == 0 || bytes.len() % 8 != 0 {
        return None;
    }
    match decode_program(bytes) {
        Ok(insns) => {
            proof {
                lemma_decode_len(bytes@, 0);
            }
            Some(insns)
        },
        Err(_) => None,
    }
}

/// The successors of each instruction, without the edge to leave out.
fn adjacency(insns: &[BpfInsn], skip: Option<(u32, u32)>) -> (adj: Vec<Vec<u32>>)
    requires
        insns@.len() <= u32::MAX,
    ensures
        adj@.len() == insns@.len(),
        forall|a: int, b: int| #[trigger]
            graph::list_edges(adj@)(a, b) == live_edges(insns@, skip)(a, b),
{
    let mut adj: Vec<Vec<u32>> = Vec::new();
    let mut pc: usize = 0;
    while pc < insns.len()
        invariant
            pc <= insns@.len() <= u32::MAX,
            adj@.len() == pc,
            forall|a: int, b: u32|
                0 <= a < pc ==> #[trigger] adj@[a]@.contains(b) == live_edges(insns@, skip)(
                    a,
                    b as int,
                ),
        decreases insns@.len() - pc,
    {
        let all: Vec<u32> = successors(insns, pc as u32);
        let ghost list = flow::successor_list(insns@, pc as int);
        let mut some: Vec<u32> = Vec::new();
        let mut k: usize = 0;
        while k < all.len()
            invariant
                k <= all@.len(),
                pc < insns@.len() <= u32::MAX,
                all@.map_values(|x: u32| x as int) == list,
                list == flow::successor_list(insns@, pc as int),
                forall|b: u32| #[trigger]
                    some@.contains(b) == (all@.take(k as int).contains(b) && live_edges(
                        insns@,
                        skip,
                    )(pc as int, b as int)),
            decreases all@.len() - k,
        {
            let next: u32 = all[k];
            let ghost before = some@;
            let cut: bool = match skip {
                Some((a, b)) => a as usize == pc && b == next,
                None => false,
            };
            if !cut {
                some.push(next);
            }
            proof {
                assert(list[k as int] == next as int);
                assert(list.contains(next as int));
                assert(all@.take(k + 1) == all@.take(k as int).push(next));
                assert forall|b: u32| #[trigger]
                    some@.contains(b) == (all@.take(k + 1).contains(b) && live_edges(insns@, skip)(
                        pc as int,
                        b as int,
                    )) by {
                    let taken = all@.take(k as int);
                    assert(taken.push(next).contains(b) == (taken.contains(b) || b == next)) by {
                        if b == next {
                            assert(taken.push(next)[k as int] == b);
                        }
                        if taken.contains(b) {
                            let j = choose|j: int| 0 <= j < taken.len() && taken[j] == b;
                            assert(taken.push(next)[j] == b);
                        }
                    }
                    if !cut {
                        assert(before.push(next).contains(b) == (before.contains(b) || b == next))
                            by {
                            if b == next {
                                assert(before.push(next)[before.len() as int] == b);
                            }
                            if before.contains(b) {
                                let j = choose|j: int| 0 <= j < before.len() && before[j] == b;
                                assert(before.push(next)[j] == b);
                            }
                        }
                    }
                }
            }
            k = k + 1;
        }
        proof {
            assert(all@.take(k as int) == all@);
            assert forall|b: u32| #[trigger]
                some@.contains(b) == live_edges(insns@, skip)(pc as int, b as int) by {
                if list.contains(b as int) {
                    let j = choose|j: int| 0 <= j < list.len() && list[j] == b as int;
                    assert(all@.map_values(|x: u32| x as int)[j] == all@[j] as int);
                    assert(all@[j] == b);
                }
            }
        }
        let ghost done = adj@;
        adj.push(some);
        proof {
            assert forall|a: int, b: u32| 0 <= a < pc + 1 implies #[trigger] adj@[a]@.contains(b)
                == live_edges(insns@, skip)(a, b as int) by {
                if a < pc {
                    assert(adj@[a] == done[a]);
                }
            }
        }
        pc = pc + 1;
    }
    proof {
        assert forall|a: int, b: int| #[trigger]
            graph::list_edges(adj@)(a, b) == live_edges(insns@, skip)(a, b) by {
            if 0 <= a < insns@.len() {
                if 0 <= b <= u32::MAX {
                    assert(adj@[a]@.contains(b as u32) == live_edges(insns@, skip)(
                        a,
                        (b as u32) as int,
                    ));
                } else {
                    assert(!flow::successor_list(insns@, a).contains(b));
                }
            }
        }
    }
    adj
}

/// Forward reachability from entry. `skip_edge` removes one edge from the
/// traversal: the test whether a side is dead.
fn reachable(insns: &[BpfInsn], skip_edge: Option<(u32, u32)>) -> (seen: Vec<bool>)
    requires
        insns@.len() <= u32::MAX,
    ensures
        seen@.len() == insns@.len(),
        forall|i: int| 0 <= i < seen@.len() ==> #[trigger] seen@[i] == live(insns@, skip_edge, i),
{
    let adj: Vec<Vec<u32>> = adjacency(insns, skip_edge);
    let seen: Vec<bool> = reach_from(&adj, 0);
    proof {
        assert forall|i: int| 0 <= i < seen@.len() implies #[trigger] seen@[i] == live(
            insns@,
            skip_edge,
            i,
        ) by {
            graph::reaches_same_edges(
                graph::list_edges(adj@),
                live_edges(insns@, skip_edge),
                0,
                i,
            );
        }
    }
    seen
}

/// The edges of the control flow, turned around.
pub open spec fn back_edges(insns: Seq<BpfInsn>) -> spec_fn(int, int) -> bool {
    |a: int, b: int| flow::flow_edges(insns)(b, a)
}

/// The predecessors of each instruction.
fn predecessors(insns: &[BpfInsn]) -> (preds: Vec<Vec<u32>>)
    requires
        insns@.len() <= u32::MAX,
    ensures
        preds@.len() == insns@.len(),
        forall|a: int, b: int| #[trigger]
            graph::list_edges(preds@)(a, b) == back_edges(insns@)(a, b),
{
    let adj: Vec<Vec<u32>> = adjacency(insns, None);
    let n: usize = insns.len();
    let mut preds: Vec<Vec<u32>> = Vec::new();
    let mut b: usize = 0;
    while b < n
        invariant
            b <= n == insns@.len() <= u32::MAX,
            adj@.len() == n,
            forall|x: int, y: int| #[trigger]
                graph::list_edges(adj@)(x, y) == live_edges(insns@, None)(x, y),
            preds@.len() == b,
            forall|y: int, x: u32|
                0 <= y < b ==> #[trigger] preds@[y]@.contains(x) == flow::flow_edges(insns@)(
                    x as int,
                    y,
                ),
        decreases n - b,
    {
        let mut list: Vec<u32> = Vec::new();
        let mut a: usize = 0;
        while a < n
            invariant
                a <= n == insns@.len() <= u32::MAX,
                b < n,
                adj@.len() == n,
                forall|x: int, y: int| #[trigger]
                    graph::list_edges(adj@)(x, y) == live_edges(insns@, None)(x, y),
                forall|x: u32| #[trigger]
                    list@.contains(x) == (x < a && flow::flow_edges(insns@)(x as int, b as int)),
            decreases n - a,
        {
            let ghost before = list@;
            let edge: bool = holds(&adj[a], b as u32);
            if edge {
                list.push(a as u32);
            }
            proof {
                assert(graph::list_edges(adj@)(a as int, b as int) == edge);
                assert forall|x: u32| #[trigger]
                    list@.contains(x) == (x < a + 1 && flow::flow_edges(insns@)(
                        x as int,
                        b as int,
                    )) by {
                    if edge {
                        assert(list@[before.len() as int] == a as u32);
                        if before.contains(x) {
                            let j = choose|j: int| 0 <= j < before.len() && before[j] == x;
                            assert(list@[j] == x);
                        }
                        if list@.contains(x) && x != a {
                            let j = choose|j: int| 0 <= j < list@.len() && list@[j] == x;
                            assert(before[j] == x);
                        }
                    }
                }
            }
            a = a + 1;
        }
        let ghost done = preds@;
        proof {
            assert forall|x: u32| #[trigger]
                list@.contains(x) == flow::flow_edges(insns@)(x as int, b as int) by {}
        }
        preds.push(list);
        proof {
            assert forall|y: int, x: u32| 0 <= y < b + 1 implies #[trigger] preds@[y]@.contains(x)
                == flow::flow_edges(insns@)(x as int, y) by {
                if y < b {
                    assert(preds@[y] == done[y]);
                }
            }
        }
        b = b + 1;
    }
    proof {
        assert forall|y: int, x: int| #[trigger]
            graph::list_edges(preds@)(y, x) == back_edges(insns@)(y, x) by {
            if 0 <= y < n && 0 <= x <= u32::MAX {
                assert(preds@[y]@.contains(x as u32) == flow::flow_edges(insns@)(
                    (x as u32) as int,
                    y,
                ));
            }
            if flow::flow_edges(insns@)(x, y) {
                let list = flow::successor_list(insns@, x);
                let j = choose|j: int| 0 <= j < list.len() && list[j] == y;
                assert(0 <= list[j] < n);
            }
        }
    }
    preds
}

fn holds(list: &Vec<u32>, x: u32) -> (b: bool)
    ensures
        b == list@.contains(x),
{
    let mut k: usize = 0;
    while k < list.len()
        invariant
            k <= list@.len(),
            forall|j: int| 0 <= j < k ==> list@[j] != x,
        decreases list@.len() - k,
    {
        if list[k] == x {
            return true;
        }
        k = k + 1;
    }
    false
}

/// Backward reachability: the instructions from which `anchor` is reachable.
fn backward_reachable(insns: &[BpfInsn], anchor: u32) -> (seen: Vec<bool>)
    requires
        insns@.len() <= u32::MAX,
        anchor < insns@.len(),
    ensures
        seen@.len() == insns@.len(),
        forall|i: int|
            0 <= i < seen@.len() ==> #[trigger] seen@[i] == graph::reaches(
                flow::flow_edges(insns@),
                i,
                anchor as int,
            ),
{
    let preds: Vec<Vec<u32>> = predecessors(insns);
    let seen: Vec<bool> = reach_from(&preds, anchor);
    proof {
        assert forall|i: int| 0 <= i < seen@.len() implies #[trigger] seen@[i] == graph::reaches(
            flow::flow_edges(insns@),
            i,
            anchor as int,
        ) by {
            graph::reaches_same_edges(
                graph::list_edges(preds@),
                back_edges(insns@),
                anchor as int,
                i,
            );
            graph::reaches_reversed(
                flow::flow_edges(insns@),
                back_edges(insns@),
                anchor as int,
                i,
            );
        }
    }
    seen
}

/// The indices whose mark is false, in ascending order.
fn unmarked(marks: &Vec<bool>) -> (list: Vec<u32>)
    requires
        marks@.len() <= u32::MAX,
    ensures
        fixup::index_set(list@) == Set::new(|i: int| 0 <= i < marks@.len() && !marks@[i]),
        (list@.len() == 0) == (fixup::index_set(list@) == Set::<int>::empty()),
{
    let mut list: Vec<u32> = Vec::new();
    let mut i: usize = 0;
    while i < marks.len()
        invariant
            i <= marks@.len() <= u32::MAX,
            forall|x: u32| #[trigger] list@.contains(x) == (x < i && !marks@[x as int]),
        decreases marks@.len() - i,
    {
        let ghost before = list@;
        if !marks[i] {
            list.push(i as u32);
        }
        proof {
            assert forall|x: u32| #[trigger] list@.contains(x) == (x < i + 1 && !marks@[x as int]) by {
                if !marks@[i as int] {
                    assert(list@[before.len() as int] == i as u32);
                    if before.contains(x) {
                        let j = choose|j: int| 0 <= j < before.len() && before[j] == x;
                        assert(list@[j] == x);
                    }
                    if list@.contains(x) && x != i {
                        let j = choose|j: int| 0 <= j < list@.len() && list@[j] == x;
                        assert(before[j] == x);
                    }
                }
            }
        }
        i = i + 1;
    }
    proof {
        let set = Set::new(|i: int| 0 <= i < marks@.len() && !marks@[i]);
        assert forall|i: int| fixup::index_set(list@).contains(i) == set.contains(i) by {
            if 0 <= i <= u32::MAX {
                assert(list@.contains(i as u32) == (i < marks@.len() && !marks@[i]));
            }
        }
        assert(fixup::index_set(list@) =~= set);
        if list@.len() > 0 {
            assert(list@.contains(list@[0]));
            assert(fixup::index_set(list@).contains(list@[0] as int));
        } else {
            assert(fixup::index_set(list@) =~= Set::<int>::empty());
        }
    }
    list
}

/// What the abstract verifier said of a program.
#[derive(Debug, Clone, Copy, PartialEq, Eq, Structural)]
pub enum MiniRun {
    /// It could not be run.
    Failed,
    /// It rejected the program at this instruction.
    Rejected { insn_idx: u32 },
    /// It accepted the program, or gave up on it.
    Passed,
}

/// The failure anchor of a program: the instruction at which the abstract
/// verifier rejected it, or the first concrete coverage violation where it did
/// not. `None` where neither exists: such programs get no slice.
pub fn failure_anchor(mini: MiniRun, report: Option<&ConcreteReport>) -> (anchor: Option<u32>)
    ensures
        anchor == match mini {
            MiniRun::Failed => None::<u32>,
            MiniRun::Rejected { insn_idx } => Some(insn_idx),
            MiniRun::Passed => match report {
                Some(r) if r.violations@.len() > 0 => Some(r.violations@[0].pc),
                _ => None::<u32>,
            },
        },
{
    match mini {
        MiniRun::Failed => None,
        MiniRun::Rejected { insn_idx } => Some(insn_idx),
        MiniRun::Passed => first_violation_pc(report),
    }
}

/// Dead-code elimination: delete every instruction unreachable from entry.
/// `None` when nothing is unreachable, or the deletion is invalid.
pub fn dead_code(bytes: &[u8]) -> (out: Option<Vec<u8>>)
    requires
        bytes@.len() / 8 <= u32::MAX,
    ensures
        stream(out) == without_dead(bytes@),
{
    let insns: Vec<BpfInsn> = match decode(bytes) {
        Some(insns) => insns,
        None => {
            return None;
        },
    };
    let seen: Vec<bool> = reachable(&insns, None);
    let remove: Vec<u32> = unmarked(&seen);
    proof {
        assert(fixup::index_set(remove@) =~= dead_set(insns@));
    }
    if remove.len() == 0 {
        return None;
    }
    delete_insns(bytes, &remove)
}

/// Backward slice: keep only instructions on a path to `anchor`, and every
/// exit. `None` when the anchor is missing or out of range, or nothing can be
/// removed.
pub fn slice_to_anchor(bytes: &[u8], anchor: Option<u32>) -> (out: Option<Vec<u8>>)
    requires
        bytes@.len() / 8 <= u32::MAX,
    ensures
        stream(out) == sliced(bytes@, anchor),
{
    let insns: Vec<BpfInsn> = match decode(bytes) {
        Some(insns) => insns,
        None => {
            return None;
        },
    };
    let a: u32 = match anchor {
        Some(a) => a,
        None => {
            return None;
        },
    };
    if a as usize >= insns.len() {
        return None;
    }
    let mut keep: Vec<bool> = backward_reachable(&insns, a);
    let mut i: usize = 0;
    while i < insns.len()
        invariant
            i <= insns@.len(),
            keep@.len() == insns@.len(),
            forall|k: int|
                0 <= k < insns@.len() ==> #[trigger] keep@[k] == (graph::reaches(
                    flow::flow_edges(insns@),
                    k,
                    a as int,
                ) || (k < i && insns@[k] is Exit)),
        decreases insns@.len() - i,
    {
        if matches!(insns[i], BpfInsn::Exit) {
            keep.set(i, true);
        }
        i = i + 1;
    }
    let remove: Vec<u32> = unmarked(&keep);
    proof {
        assert(fixup::index_set(remove@) =~= off_path(insns@, a as int));
    }
    if remove.len() == 0 {
        return None;
    }
    delete_insns(bytes, &remove)
}

/// The byte strings of a list.
pub open spec fn streams(v: Seq<Vec<u8>>) -> Seq<Seq<u8>> {
    v.map_values(|x: Vec<u8>| x@)
}

/// Adds the candidates of the branch at `pc`.
fn push_sides(bytes: &[u8], insns: &Vec<BpfInsn>, pc: u32, out: &mut Vec<Vec<u8>>)
    requires
        bytes@.len() / 8 <= u32::MAX,
        insns@.len() <= u32::MAX,
        pc < insns@.len(),
    ensures
        streams(final(out)@) == streams(old(out)@) + side_candidates(
            bytes@,
            insns@,
            pc as int,
        ),
{
    let ghost start = streams(out@);
    let insn: BpfInsn = insns[pc as usize];
    if !insn.is_conditional_branch() {
        assert(start + side_candidates(bytes@, insns@, pc as int) =~= start);
        return;
    }
    let offset: i16 = match branch_offset(&insn) {
        Some(offset) => offset,
        None => {
            return;
        },
    };
    let target: u32 = match resolve(pc, offset as i32, insns.len()) {
        Some(t) => t,
        None => {
            assert(start + side_candidates(bytes@, insns@, pc as int) =~= start);
            return;
        },
    };
    let ghost mut jump: Seq<Seq<u8>> = seq![];
    let ghost mut gone: Seq<Seq<u8>> = seq![];
    // the fall-through is dead: the branch always jumps
    if (pc as usize) + 1 < insns.len() && !reachable(insns, Some((pc, pc + 1)))[pc as usize + 1] {
        let mut rewritten: Vec<BpfInsn> = copy_insns(insns);
        rewritten.set(pc as usize, BpfInsn::Jmp { offset });
        let stream: Vec<u8> = encode_program(&rewritten);
        let ghost before = out@;
        proof {
            jump = seq![stream@];
        }
        out.push(stream);
        proof {
            assert(streams(out@) =~= streams(before) + jump);
        }
    }
    proof {
        assert(streams(out@) =~= start + jump);
    }
    // the target is dead: the branch never jumps
    if !reachable(insns, Some((pc, target)))[target as usize] {
        let list: Vec<u32> = vec![pc];
        proof {
            assert(list@[0] == pc);
            assert(fixup::index_set(list@) =~= set![pc as int]);
        }
        if let Some(stream) = delete_insns(bytes, &list) {
            let ghost before = out@;
            proof {
                gone = seq![stream@];
            }
            out.push(stream);
            proof {
                assert(streams(out@) =~= streams(before) + gone);
            }
        }
    }
    proof {
        assert(streams(out@) =~= start + jump + gone);
        assert(side_candidates(bytes@, insns@, pc as int) =~= jump + gone);
        assert(start + jump + gone =~= start + (jump + gone));
    }
}

fn copy_insns(insns: &Vec<BpfInsn>) -> (out: Vec<BpfInsn>)
    ensures
        out@ == insns@,
{
    let mut out: Vec<BpfInsn> = Vec::new();
    let mut i: usize = 0;
    while i < insns.len()
        invariant
            i <= insns@.len(),
            out@ == insns@.take(i as int),
        decreases insns@.len() - i,
    {
        out.push(insns[i]);
        i = i + 1;
        assert(out@ =~= insns@.take(i as int));
    }
    assert(insns@.take(i as int) =~= insns@);
    out
}

/// Branch simplification: the candidates of every conditional branch with a
/// statically dead side, that is one that entry does not reach without the
/// branch's own edge. A dead fall-through makes the branch an unconditional
/// jump; a dead target makes it deletable. Candidates come by ascending
/// instruction index.
pub fn simplify_dead_side(bytes: &[u8]) -> (out: Vec<Vec<u8>>)
    requires
        bytes@.len() / 8 <= u32::MAX,
    ensures
        streams(out@) == simplified(bytes@),
{
    let mut out: Vec<Vec<u8>> = Vec::new();
    assert(streams(out@) =~= Seq::<Seq<u8>>::empty());
    let insns: Vec<BpfInsn> = match decode(bytes) {
        Some(insns) => insns,
        None => {
            return out;
        },
    };
    let mut pc: usize = 0;
    while pc < insns.len()
        invariant
            pc <= insns@.len() <= u32::MAX,
            bytes@.len() / 8 <= u32::MAX,
            streams(out@) == dead_sides(bytes@, insns@, pc as int),
        decreases insns@.len() - pc,
    {
        push_sides(bytes, &insns, pc as u32, &mut out);
        pc = pc + 1;
    }
    out
}

// ── Laws ────────────────────────────────────────────────────────────────────

/// An edge between two instructions that stay is an edge between their new
/// places.
proof fn lemma_edge_stays(insns: Seq<BpfInsn>, removed: Set<int>, x: int, y: int)
    requires
        fixup::deletable(insns, removed),
        flow::flow_edges(insns)(x, y),
        !removed.contains(x),
        !removed.contains(y),
    ensures
        0 <= y < insns.len(),
        flow::flow_edges(fixup::deleted(insns, removed))(
            fixup::new_index(removed, x),
            fixup::new_index(removed, y),
        ),
{
    let n = insns.len() as int;
    let out = fixup::deleted(insns, removed);
    let list = flow::successor_list(insns, x);
    let k = choose|k: int| 0 <= k < list.len() && list[k] == y;
    assert(0 <= list[k] < n);
    let nx = fixup::new_index(removed, x);
    let ny = fixup::new_index(removed, y);
    fixup::deletion_keeps_targets(insns, removed, x);
    fixup::lemma_kept_at(removed, x, n);
    fixup::lemma_kept_at(removed, y, n);
    assert(out[nx] == fixup::rebased(insns, removed, x));
    flow::lemma_with_jump_offset(insns[x], fixup::rebased_offset(insns, removed, x) as i16);
    let there = flow::successor_list(out, nx);
    assert(BpfInsn::Exit.jump_offset() is None) by {
        reveal(BpfInsn::slot);
    }
    let jumps = insns[x].jump_offset() is Some && y == flow::target(
        x,
        insns[x].jump_offset()->0 as int,
    );
    if jumps {
        assert(flow::jump_target(out, nx) == seq![ny]);
        assert(there[there.len() - 1] == ny);
    } else {
        assert(y == x + 1);
        assert(fixup::kept(removed, x + 1) == fixup::kept(removed, x).push(x));
        assert(ny == nx + 1);
        assert(flow::fall_through(out, nx) == seq![ny]);
        assert(there[0] == ny);
    }
    assert(there.contains(ny));
}

/// An instruction that entry reaches keeps being reached when the dead ones
/// are deleted.
proof fn lemma_live_stays(insns: Seq<BpfInsn>, pc: int)
    requires
        fixup::deletable(insns, dead_set(insns)),
        live(insns, None, pc),
    ensures
        live(
            fixup::deleted(insns, dead_set(insns)),
            None,
            fixup::new_index(dead_set(insns), pc),
        ),
{
    let dead = dead_set(insns);
    let out = fixup::deleted(insns, dead);
    let e = live_edges(insns, None);
    let f = live_edges(out, None);
    let inside = |x: int|
        live(insns, None, x) && graph::reaches(f, 0, fixup::new_index(dead, x));
    assert(inside(0)) by {
        graph::reaches_refl(e, 0);
        assert(fixup::new_index(dead, 0) == 0);
        graph::reaches_refl(f, 0);
    }
    assert forall|x: int, y: int| inside(x) && #[trigger] e(x, y) implies inside(y) by {
        graph::reaches_step(e, 0, x, y);
        let list = flow::successor_list(insns, x);
        let k = choose|k: int| 0 <= k < list.len() && list[k] == y;
        assert(0 <= list[k] < insns.len());
        lemma_edge_stays(insns, dead, x, y);
        assert(f(fixup::new_index(dead, x), fixup::new_index(dead, y)));
        graph::reaches_step(f, 0, fixup::new_index(dead, x), fixup::new_index(dead, y));
    }
    graph::reaches_closed(e, inside, 0, pc);
    assert(!dead.contains(pc));
    fixup::lemma_kept_at(dead, pc, insns.len() as int);
}

/// Where every instruction is reached from entry, there is no dead code.
pub proof fn live_program_has_no_dead_code(bytes: Seq<u8>)
    requires
        program_of(bytes) matches Some(insns) ==> forall|i: int|
            0 <= i < insns.len() ==> #[trigger] live(insns, None, i),
    ensures
        without_dead(bytes) is None,
{
    if let Some(insns) = program_of(bytes) {
        assert(dead_set(insns) =~= Set::<int>::empty());
    }
}

/// Dead-code elimination leaves a smaller program of exactly the instructions
/// that entry reaches, in their order, so a second run finds nothing.
pub proof fn dead_code_is_complete(bytes: Seq<u8>)
    requires
        without_dead(bytes) is Some,
    ensures
        ({
            let insns = program_of(bytes)->0;
            let out = without_dead(bytes)->0;
            let stays = fixup::kept(dead_set(insns), insns.len() as int);
            &&& 0 < out.len() < bytes.len()
            &&& out.len() == 8 * stays.len()
            &&& forall|i: int|
                0 <= i < insns.len() ==> #[trigger] live(insns, None, i) == stays.contains(i)
            &&& forall|j: int, k: int| 0 <= j < k < stays.len() ==> stays[j] < stays[k]
            &&& program_of(out) == Some(fixup::deleted(insns, dead_set(insns)))
            &&& dead_set(fixup::deleted(insns, dead_set(insns))) == Set::<int>::empty()
            &&& without_dead(out) is None
        }),
{
    let insns = program_of(bytes)->0;
    let dead = dead_set(insns);
    lemma_program_is_singles(bytes);
    fixup::lemma_singles_are_single(bytes);
    let all = fixup::singles(bytes);
    let out = fixup::deleted(all, dead);
    fixup::lemma_deleted_single(all, dead);
    // the entry stays
    graph::reaches_refl(live_edges(all, None), 0);
    assert(!dead.contains(0));
    fixup::lemma_kept_at(dead, 0, all.len() as int);
    lemma_single_program(out);
    assert forall|j: int| 0 <= j < out.len() implies live(out, None, j) by {
        fixup::lemma_kept(dead, all.len() as int);
        let old = fixup::kept(dead, all.len() as int)[j];
        lemma_live_stays(all, old);
    }
    assert(dead_set(out) =~= Set::<int>::empty());
    let n = all.len() as int;
    let stays = fixup::kept(dead, n);
    fixup::lemma_kept(dead, n);
    assert forall|i: int| 0 <= i < n implies #[trigger] live(all, None, i) == stays.contains(i) by {
        if live(all, None, i) {
            fixup::lemma_kept_at(dead, i, n);
        }
        if stays.contains(i) {
            let j = choose|j: int| 0 <= j < stays.len() && stays[j] == i;
            assert(!dead.contains(stays[j]));
        }
    }
    lemma_kept_ascends(dead, n);
    crate::fuzz::reduce::measure::deletion_shrinks(bytes, dead);
}

proof fn lemma_kept_ascends(removed: Set<int>, n: int)
    requires
        0 <= n,
    ensures
        forall|j: int, k: int|
            0 <= j < k < fixup::kept(removed, n).len() ==> fixup::kept(removed, n)[j]
                < fixup::kept(removed, n)[k],
    decreases n,
{
    if n > 0 {
        lemma_kept_ascends(removed, n - 1);
        fixup::lemma_kept(removed, n - 1);
        let before = fixup::kept(removed, n - 1);
        let all = fixup::kept(removed, n);
        assert forall|j: int, k: int| 0 <= j < k < all.len() implies all[j] < all[k] by {
            assert(before[j] < n - 1);
            if k < before.len() {
                assert(all[k] == before[k]);
            }
        }
    }
}

/// A stream that decodes slot by slot decodes to the same instructions as a
/// whole.
pub proof fn lemma_program_is_singles(bytes: Seq<u8>)
    requires
        fixup::decodes_singly(bytes),
    ensures
        program_of(bytes) == Some(fixup::singles(bytes)),
{
    lemma_decode_singles(bytes, 0);
    assert(fixup::singles(bytes).skip(0) == fixup::singles(bytes));
}

proof fn lemma_decode_singles(bytes: Seq<u8>, idx: int)
    requires
        fixup::decodes_singly(bytes),
        0 <= idx <= bytes.len() / 8,
    ensures
        insn::decode_from(bytes, idx) == Ok::<Seq<BpfInsn>, (int, insn::DecodeError)>(
            fixup::singles(bytes).skip(idx),
        ),
    decreases bytes.len() / 8 - idx,
{
    let all = fixup::singles(bytes);
    if idx < bytes.len() / 8 {
        lemma_decode_singles(bytes, idx + 1);
        assert(fixup::single_at(bytes, idx) is Ok);
        insn::lemma_decode_slot_alone(crate::slot::Slot::of(insn::slot_bytes_at(bytes, idx)));
        assert(all.skip(idx) =~= seq![all[idx]] + all.skip(idx + 1));
    } else {
        assert(all.skip(idx) =~= Seq::<BpfInsn>::empty());
    }
}

/// The stream of single-slot instructions decodes to them as a whole.
pub proof fn lemma_single_program(insns: Seq<BpfInsn>)
    requires
        fixup::all_single(insns),
        insns.len() > 0,
    ensures
        program_of(insn::program_bytes(insns)) == Some(insns),
{
    fixup::lemma_singles_of_program(insns);
    lemma_program_is_singles(insn::program_bytes(insns));
}

} // verus!
