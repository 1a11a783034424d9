//! Path-sensitive exploration: every execution path is followed with a
//! worklist, states are remembered at prune points, and a path that arrives
//! in a state equal to one that has been fully explored ends there.
//!
//! What a state is, how an instruction changes it and when two states are
//! equal is the business of a [`Domain`]. This module decides what is explored,
//! remembered, pruned and rejected:
//!
//! - paths are processed depth first; of a branch the taken side comes first;
//! - at a prune point the arrival is cleaned to what is live and compared with
//!   the remembered states: an equal one that is fully explored ends the path,
//!   an identical one that is still being explored is an infinite loop;
//! - a remembered state counts the pending paths below it and is fully
//!   explored when there are none;
//! - every path must reach an exit with a scalar in R0;
//! - the number of steps, of remembered states and of visits to a loop head is
//!   bounded.

use vstd::prelude::*;

use crate::error::VerificationFailure;
use crate::flow;
use crate::flow::resolve;
use crate::insn::BpfInsn;
use crate::liveness;
use crate::liveness::{analyze, Liveness};
use crate::text;
use crate::text::push_dec;

pub mod run;
pub mod verdict;

verus! {

// ── Limits and heuristics ───────────────────────────────────────────────────

/// Bounds for the exploration: a program that exceeds one is rejected.
#[derive(Debug, Clone, Copy, PartialEq, Eq, Structural)]
pub struct VerifierLimits {
    /// Remembered states.
    pub max_states: usize,
    /// Steps of the worklist.
    pub max_steps: usize,
    /// Visits to one loop head. It stays below `max_states`, so that it is
    /// reported first for a loop that does not converge.
    pub max_loop_iterations: usize,
}

impl Default for VerifierLimits {
    fn default() -> (l: Self)
        ensures
            l == (VerifierLimits {
                max_states: 1024,
                max_steps: 100_000,
                max_loop_iterations: 256,
            }),
    {
        VerifierLimits { max_states: 1024, max_steps: 100_000, max_loop_iterations: 256 }
    }
}

/// A state is worth remembering: since the last one, at least two jumps and
/// eight instructions were processed.
pub open spec fn store_due(insns: int, jmps: int) -> bool {
    insns >= 8 && jmps >= 2
}

/// Inside a loop that is still being explored, states are remembered more
/// sparsely.
pub open spec fn store_throttled(insns: int, jmps: int) -> bool {
    insns < 100 && jmps < 20
}

/// A remembered state that misses much more often than it hits is forgotten.
pub open spec fn unhelpful(hits: int, misses: int) -> bool {
    misses > hits * 3 + 3
}

/// Whether a state is worth remembering.
pub fn is_store_due(insns: usize, jmps: usize) -> (b: bool)
    ensures
        b == store_due(insns as int, jmps as int),
{
    insns >= 8 && jmps >= 2
}

/// Whether states are remembered more sparsely inside a loop.
pub fn is_store_throttled(insns: usize, jmps: usize) -> (b: bool)
    ensures
        b == store_throttled(insns as int, jmps as int),
{
    insns < 100 && jmps < 20
}

fn is_unhelpful(hits: usize, misses: usize) -> (b: bool)
    ensures
        b == unhelpful(hits as int, misses as int),
{
    misses > 3 && (misses - 4) / 3 >= hits
}

/// The instructions at which states are remembered and compared: conditional
/// branches, and the targets of unconditional jumps.
pub open spec fn is_prune_point(insns: Seq<BpfInsn>, pc: int) -> bool {
    insns[pc].is_compare() || exists|i: int|
        0 <= i < insns.len() && (#[trigger] insns[i]) is Jmp && flow::target(
            i,
            insns[i].jump_offset()->0 as int,
        ) == pc
}

/// The prune points of a program.
pub fn compute_prune_points(program: &[BpfInsn]) -> (prune: Vec<bool>)
    requires
        program@.len() <= u32::MAX,
    ensures
        prune@.len() == program@.len(),
        forall|pc: int|
            0 <= pc < prune@.len() ==> #[trigger] prune@[pc] == is_prune_point(program@, pc),
{
    let n: usize = program.len();
    let mut prune: Vec<bool> = vec![false; n];
    let mut i: usize = 0;
    while i < n
        invariant
            i <= n == program@.len() <= u32::MAX,
            prune@.len() == n,
            forall|pc: int|
                0 <= pc < n ==> #[trigger] prune@[pc] == ((pc < i && program@[pc].is_compare())
                    || exists|k: int|
                    0 <= k < i && (#[trigger] program@[k]) is Jmp && flow::target(
                        k,
                        program@[k].jump_offset()->0 as int,
                    ) == pc),
        decreases n - i,
    {
        let ghost before = prune@;
        let insn: BpfInsn = program[i];
        if let BpfInsn::Jmp { offset } = insn {
            proof {
                assert(program@[i as int].jump_offset() == Some(offset)
                    && !program@[i as int].is_compare()) by {
                    reveal(BpfInsn::slot);
                }
            }
            if let Some(t) = resolve(i as u32, offset as i32, n) {
                prune.set(t as usize, true);
            }
        } else if insn.is_conditional_branch() {
            prune.set(i, true);
        }
        proof {
            assert forall|pc: int| 0 <= pc < n implies #[trigger] prune@[pc] == ((pc < i + 1
                && program@[pc].is_compare()) || exists|k: int|
                0 <= k < i + 1 && (#[trigger] program@[k]) is Jmp && flow::target(
                    k,
                    program@[k].jump_offset()->0 as int,
                ) == pc) by {
                if exists|k: int|
                    0 <= k < i && (#[trigger] program@[k]) is Jmp && flow::target(
                        k,
                        program@[k].jump_offset()->0 as int,
                    ) == pc {
                    let k = choose|k: int|
                        0 <= k < i && (#[trigger] program@[k]) is Jmp && flow::target(
                            k,
                            program@[k].jump_offset()->0 as int,
                        ) == pc;
                    assert(program@[k] is Jmp);
                }
                if program@[i as int] is Jmp && flow::target(
                    i as int,
                    program@[i as int].jump_offset()->0 as int,
                ) == pc {
                    assert(program@[i as int] is Jmp);
                }
            }
        }
        i = i + 1;
    }
    prune
}

// ── Remembered states and pending paths ─────────────────────────────────────

/// A remembered state.
pub struct Checkpoint<S> {
    /// The arrival state, cleaned to what is live.
    pub state: S,
    /// The remembered state that this path descended from.
    pub parent: Option<usize>,
    /// Paths still pending below this state.
    pub branches: usize,
    /// Arrivals that were equal, and arrivals that were not.
    pub hit_cnt: usize,
    pub miss_cnt: usize,
}

/// A path that arrives at `pc` with `state`; `last_cp` is the last remembered
/// state on it.
pub struct WorkItem<S> {
    pub pc: u32,
    pub state: S,
    pub last_cp: Option<usize>,
}

/// Parents come before their children.
pub open spec fn parents_ok<S>(cps: Seq<Checkpoint<S>>) -> bool {
    forall|k: int|
        0 <= k < cps.len() ==> ((#[trigger] cps[k]).parent matches Some(p) ==> p < k)
}

/// The remembered state `k` is on the chain that begins with `last`.
pub open spec fn on_chain<S>(cps: Seq<Checkpoint<S>>, last: Option<usize>, k: int) -> bool
    decreases (if last is Some { last->0 + 1 } else { 0 }),
{
    match last {
        Some(i) => i == k || (i < cps.len() && (cps[i as int].parent matches Some(p) ==> p < i)
            && on_chain(cps, cps[i as int].parent, k)),
        None => false,
    }
}

/// How many of these paths are below the remembered state `k`.
pub open spec fn pending<S>(cps: Seq<Checkpoint<S>>, work: Seq<WorkItem<S>>, k: int) -> nat
    decreases work.len(),
{
    if work.len() == 0 {
        0
    } else {
        pending(cps, work.drop_last(), k) + (if on_chain(cps, work.last().last_cp, k) {
            1nat
        } else {
            0nat
        })
    }
}

/// `b` remembers what `a` does, in the same order, and perhaps more.
pub open spec fn extends<S>(a: Seq<Checkpoint<S>>, b: Seq<Checkpoint<S>>) -> bool {
    a.len() <= b.len() && forall|k: int|
        0 <= k < a.len() ==> (#[trigger] a[k]).parent == b[k].parent && a[k].state == b[k].state
}

proof fn lemma_chain_extends<S>(
    a: Seq<Checkpoint<S>>,
    b: Seq<Checkpoint<S>>,
    last: Option<usize>,
    k: int,
)
    requires
        extends(a, b),
        parents_ok(a),
        last matches Some(i) ==> i < a.len(),
    ensures
        on_chain(a, last, k) == on_chain(b, last, k),
        on_chain(a, last, k) ==> 0 <= k < a.len(),
    decreases (if last is Some { last->0 + 1 } else { 0 }),
{
    if let Some(i) = last {
        assert(a[i as int].parent == b[i as int].parent);
        lemma_chain_extends(a, b, a[i as int].parent, k);
    }
}

/// Every path begins at a remembered state, or at none.
pub open spec fn work_ok<S>(cps: Seq<Checkpoint<S>>, work: Seq<WorkItem<S>>) -> bool {
    forall|w: int|
        0 <= w < work.len() ==> ((#[trigger] work[w]).last_cp matches Some(i) ==> i < cps.len())
}

proof fn lemma_pending_extends<S>(
    a: Seq<Checkpoint<S>>,
    b: Seq<Checkpoint<S>>,
    work: Seq<WorkItem<S>>,
    k: int,
)
    requires
        extends(a, b),
        parents_ok(a),
        work_ok(a, work),
    ensures
        pending(a, work, k) == pending(b, work, k),
        pending(a, work, k) <= work.len(),
        !(0 <= k < a.len()) ==> pending(a, work, k) == 0,
    decreases work.len(),
{
    if work.len() > 0 {
        assert(work_ok(a, work.drop_last())) by {
            assert forall|w: int| 0 <= w < work.drop_last().len() implies ((
            #[trigger] work.drop_last()[w]).last_cp matches Some(i) ==> i < a.len()) by {
                assert(work.drop_last()[w] == work[w]);
            }
        }
        lemma_pending_extends(a, b, work.drop_last(), k);
        assert(work[work.len() - 1] == work.last());
        lemma_chain_extends(a, b, work.last().last_cp, k);
    }
}

/// Every remembered state counts the paths below it.
pub open spec fn counts_ok<S>(cps: Seq<Checkpoint<S>>, work: Seq<WorkItem<S>>) -> bool {
    forall|k: int|
        0 <= k < cps.len() ==> (#[trigger] cps[k]).branches == pending(cps, work, k)
}

/// One more path below every state of a chain.
fn add_branch<S>(cps: &mut Vec<Checkpoint<S>>, last_cp: Option<usize>)
    requires
        parents_ok(old(cps)@),
        last_cp matches Some(i) ==> i < old(cps)@.len(),
        forall|k: int|
            0 <= k < old(cps)@.len() && #[trigger] on_chain(old(cps)@, last_cp, k)
                ==> old(cps)@[k].branches < usize::MAX,
    ensures
        extends(old(cps)@, final(cps)@),
        final(cps)@.len() == old(cps)@.len(),
        run::same_memory(old(cps)@, final(cps)@),
        forall|k: int|
            0 <= k < old(cps)@.len() ==> (#[trigger] final(cps)@[k]).branches
                == old(cps)@[k].branches + (if on_chain(old(cps)@, last_cp, k) {
                1int
            } else {
                0
            }),
{
    let ghost start = cps@;
    let mut last: Option<usize> = last_cp;
    while last.is_some()
        invariant
            parents_ok(start),
            cps@.len() == start.len(),
            extends(start, cps@),
            run::same_memory(start, cps@),
            last matches Some(i) ==> i < start.len(),
            forall|k: int|
                0 <= k < start.len() && #[trigger] on_chain(start, last_cp, k)
                    ==> start[k].branches < usize::MAX,
            forall|k: int| #[trigger]
                on_chain(start, last, k) ==> on_chain(start, last_cp, k),
            forall|k: int|
                0 <= k < start.len() ==> (#[trigger] cps@[k]).branches == start[k].branches + (
                if on_chain(start, last_cp, k) && !on_chain(start, last, k) {
                    1int
                } else {
                    0
                }),
        decreases (if last is Some { last->0 + 1 } else { 0 }),
    {
        let i: usize = last.unwrap();
        proof {
            lemma_chain_below(start, last, i as int);
            assert(on_chain(start, last, i as int));
            assert(start[i as int].parent == cps@[i as int].parent);
        }
        let parent: Option<usize> = cps[i].parent;
        let branches: usize = cps[i].branches;
        let ghost before = cps@;
        cps[i].branches = branches + 1;
        proof {
            assert(cps@[i as int].branches == before[i as int].branches + 1);
            assert(forall|k: int|
                0 <= k < before.len() && k != i ==> #[trigger] cps@[k] == before[k]);
            assert forall|k: int| 0 <= k < start.len() implies (#[trigger] cps@[k]).branches
                == start[k].branches + (if on_chain(start, last_cp, k) && !on_chain(
                start,
                parent,
                k,
            ) {
                1int
            } else {
                0
            }) by {
                assert(on_chain(start, last, k) == (k == i || on_chain(start, parent, k)));
                if k != i {
                    assert(cps@[k] == before[k]);
                }
            }
        }
        last = parent;
    }
}

/// The chain behind a state lies in front of it.
proof fn lemma_chain_below<S>(cps: Seq<Checkpoint<S>>, last: Option<usize>, i: int)
    requires
        parents_ok(cps),
        last == Some(i as usize),
        0 <= i < cps.len(),
        i <= usize::MAX,
    ensures
        forall|k: int| #[trigger]
            on_chain(cps, cps[i].parent, k) ==> k < i && on_chain(cps, last, k),
        !on_chain(cps, cps[i].parent, i),
{
    assert forall|k: int| #[trigger] on_chain(cps, cps[i].parent, k) implies k < i && on_chain(
        cps,
        last,
        k,
    ) by {
        lemma_chain_bound(cps, cps[i].parent, k);
    }
    if on_chain(cps, cps[i].parent, i) {
        lemma_chain_bound(cps, cps[i].parent, i);
    }
}

proof fn lemma_chain_bound<S>(cps: Seq<Checkpoint<S>>, last: Option<usize>, k: int)
    requires
        parents_ok(cps),
        last matches Some(i) ==> i < cps.len(),
        on_chain(cps, last, k),
    ensures
        0 <= k <= last->0,
    decreases (if last is Some { last->0 + 1 } else { 0 }),
{
    let i = last->0;
    if i != k {
        lemma_chain_bound(cps, cps[i as int].parent, k);
    }
}

/// One path less below every state of a chain.
fn drop_branch<S>(cps: &mut Vec<Checkpoint<S>>, last_cp: Option<usize>)
    requires
        parents_ok(old(cps)@),
        last_cp matches Some(i) ==> i < old(cps)@.len(),
        forall|k: int|
            0 <= k < old(cps)@.len() && #[trigger] on_chain(old(cps)@, last_cp, k)
                ==> old(cps)@[k].branches > 0,
    ensures
        extends(old(cps)@, final(cps)@),
        final(cps)@.len() == old(cps)@.len(),
        run::same_memory(old(cps)@, final(cps)@),
        forall|k: int|
            0 <= k < old(cps)@.len() ==> (#[trigger] final(cps)@[k]).branches
                == old(cps)@[k].branches - (if on_chain(old(cps)@, last_cp, k) {
                1int
            } else {
                0
            }),
{
    let ghost start = cps@;
    let mut last: Option<usize> = last_cp;
    while last.is_some()
        invariant
            parents_ok(start),
            cps@.len() == start.len(),
            extends(start, cps@),
            run::same_memory(start, cps@),
            last matches Some(i) ==> i < start.len(),
            forall|k: int|
                0 <= k < start.len() && #[trigger] on_chain(start, last_cp, k)
                    ==> start[k].branches > 0,
            forall|k: int| #[trigger]
                on_chain(start, last, k) ==> on_chain(start, last_cp, k),
            forall|k: int|
                0 <= k < start.len() ==> (#[trigger] cps@[k]).branches == start[k].branches - (
                if on_chain(start, last_cp, k) && !on_chain(start, last, k) {
                    1int
                } else {
                    0
                }),
        decreases (if last is Some { last->0 + 1 } else { 0 }),
    {
        let i: usize = last.unwrap();
        proof {
            lemma_chain_below(start, last, i as int);
            assert(on_chain(start, last, i as int));
            assert(start[i as int].parent == cps@[i as int].parent);
        }
        let parent: Option<usize> = cps[i].parent;
        let branches: usize = cps[i].branches;
        let ghost before = cps@;
        cps[i].branches = branches - 1;
        proof {
            assert(cps@[i as int].branches == before[i as int].branches - 1);
            assert(forall|k: int|
                0 <= k < before.len() && k != i ==> #[trigger] cps@[k] == before[k]);
            assert forall|k: int| 0 <= k < start.len() implies (#[trigger] cps@[k]).branches
                == start[k].branches - (if on_chain(start, last_cp, k) && !on_chain(
                start,
                parent,
                k,
            ) {
                1int
            } else {
                0
            }) by {
                assert(on_chain(start, last, k) == (k == i || on_chain(start, parent, k)));
                if k != i {
                    assert(cps@[k] == before[k]);
                }
            }
        }
        last = parent;
    }
}

// ── The domain ──────────────────────────────────────────────────────────────

/// How two states are compared.
#[derive(Debug, Clone, Copy, PartialEq, Eq, Structural)]
pub enum ExactLevel {
    /// The arrival is at most what was explored.
    NotExact,
    /// The two are identical.
    Exact,
}

/// What R0 holds at an exit.
#[derive(Debug, Clone, Copy, PartialEq, Eq, Structural)]
pub enum ExitValue {
    Uninit,
    Scalar,
    /// A pointer, which is no return value.
    Other,
}

/// The abstract states and what is done with them.
pub struct Domain<S, C, L, Q, N, R> {
    /// The state at entry.
    pub initial: S,
    /// Forgets the registers and stack slots that are not in the masks.
    pub clean: C,
    /// Whether two states may be the same turn of a loop.
    pub maybe_looping: L,
    /// Whether a remembered state covers an arrival, for the live registers.
    pub equal: Q,
    /// The states behind an instruction, or why it is rejected.
    pub successors: N,
    /// What R0 holds.
    pub exit_value: R,
}

impl<
    S: Copy,
    C: Fn(&S, u16, u64) -> S,
    L: Fn(&S, &S) -> bool,
    Q: Fn(&S, &S, ExactLevel, u16) -> bool,
    N: Fn(u32, &BpfInsn, &S) -> Result<Vec<(u32, S)>, VerificationFailure>,
    R: Fn(&S) -> ExitValue,
> Domain<S, C, L, Q, N, R> {
    /// Every operation can be called on every state.
    pub open spec fn callable(&self) -> bool {
        &&& forall|s: &S, r: u16, k: u64| #[trigger] call_requires(self.clean, (s, r, k))
        &&& forall|a: &S, b: &S| #[trigger] call_requires(self.maybe_looping, (a, b))
        &&& forall|a: &S, b: &S, x: ExactLevel, r: u16| #[trigger]
            call_requires(self.equal, (a, b, x, r))
        &&& forall|pc: u32, i: &BpfInsn, s: &S| #[trigger]
            call_requires(self.successors, (pc, i, s))
        &&& forall|s: &S| #[trigger] call_requires(self.exit_value, (s,))
    }

    /// `c` is `s`, cleaned to what is live before `pc`.
    pub open spec fn cleans(&self, live: Liveness, pc: int, s: S, c: S) -> bool {
        call_ensures(self.clean, (&s, live.regs_mask(pc), live.slots_mask(pc)), c)
    }

    /// The states behind the instruction are these.
    pub open spec fn leads_to(&self, pc: u32, insn: BpfInsn, s: S, next: Seq<(u32, S)>) -> bool {
        exists|v: Vec<(u32, S)>|
            v@ == next && #[trigger] call_ensures(self.successors, (pc, &insn, &s), Ok(v))
    }

    /// The remembered state covers the arrival.
    pub open spec fn covers(&self, live: Liveness, pc: int, stored: S, arrival: S) -> bool {
        call_ensures(
            self.equal,
            (&stored, &arrival, ExactLevel::NotExact, live.regs_mask(pc)),
            true,
        )
    }
}

// ── What was explored ───────────────────────────────────────────────────────

/// What became of a path that arrived somewhere.
pub enum Outcome<S> {
    /// An earlier visit covers it.
    Pruned { by: int },
    /// It ended in an exit.
    Exited,
    /// It went on to these states.
    Expanded { next: Seq<(u32, S)> },
}

/// One arrival.
pub struct Visit<S> {
    pub pc: u32,
    pub state: S,
    pub outcome: Outcome<S>,
    /// The state was remembered.
    pub stored: bool,
}

/// An instruction that counts as a jump.
pub open spec fn is_jump(insn: BpfInsn) -> bool {
    insn is Exit || insn is Jmp || insn.is_compare() || insn is Call
}

/// The jumps among the first `i` arrivals; pruned ones are not processed.
pub open spec fn jumps<S>(program: Seq<BpfInsn>, log: Seq<Visit<S>>, i: int) -> nat
    decreases i,
{
    if i <= 0 {
        0
    } else {
        jumps(program, log, i - 1) + (if !(log[i - 1].outcome is Pruned) && is_jump(
            program[log[i - 1].pc as int],
        ) {
            1nat
        } else {
            0nat
        })
    }
}

/// The last of the first `i` arrivals that was remembered; -1 where there is
/// none.
pub open spec fn last_stored<S>(log: Seq<Visit<S>>, i: int) -> int
    decreases i,
{
    if i <= 0 {
        -1
    } else if log[i - 1].stored {
        i - 1
    } else {
        last_stored(log, i - 1)
    }
}

/// How many arrivals were remembered.
pub open spec fn stored_count<S>(log: Seq<Visit<S>>) -> nat
    decreases log.len(),
{
    if log.len() == 0 {
        0
    } else {
        stored_count(log.drop_last()) + (if log.last().stored { 1nat } else { 0nat })
    }
}

/// What is remembered: states at prune points when one is due, and all of
/// those unless they are throttled.
pub open spec fn store_rule<S>(program: Seq<BpfInsn>, log: Seq<Visit<S>>, i: int) -> bool {
    let v = log[i];
    let last = last_stored(log, i);
    let insns = i - last;
    let jmps = jumps(program, log, i) - jumps(program, log, last);
    &&& v.stored ==> !(v.outcome is Pruned) && is_prune_point(program, v.pc as int) && store_due(
        insns,
        jmps,
    )
    &&& !v.stored && !(v.outcome is Pruned) && is_prune_point(program, v.pc as int) && store_due(
        insns,
        jmps,
    ) ==> store_throttled(insns, jmps)
}

/// A longer log has the same beginning.
proof fn lemma_counts_prefix<S>(
    program: Seq<BpfInsn>,
    log: Seq<Visit<S>>,
    v: Visit<S>,
    i: int,
)
    requires
        i <= log.len(),
    ensures
        jumps(program, log.push(v), i) == jumps(program, log, i),
        last_stored(log.push(v), i) == last_stored(log, i),
        -1 <= last_stored(log, i) < i || (i <= 0 && last_stored(log, i) == -1),
    decreases i,
{
    if i > 0 {
        lemma_counts_prefix(program, log, v, i - 1);
        assert(log.push(v)[i - 1] == log[i - 1]);
    }
}

/// One more arrival keeps the rule of the earlier ones.
proof fn lemma_store_rule<S>(program: Seq<BpfInsn>, log: Seq<Visit<S>>, v: Visit<S>)
    requires
        forall|i: int| 0 <= i < log.len() ==> #[trigger] store_rule(program, log, i),
        store_rule(program, log.push(v), log.len() as int),
    ensures
        forall|i: int|
            0 <= i < log.push(v).len() ==> #[trigger] store_rule(program, log.push(v), i),
        stored_count(log.push(v)) == stored_count(log) + (if v.stored {
            1nat
        } else {
            0nat
        }),
{
    let all = log.push(v);
    assert(all.drop_last() =~= log);
    assert forall|i: int| 0 <= i < all.len() implies #[trigger] store_rule(program, all, i) by {
        if i < log.len() {
            assert(store_rule(program, log, i));
            assert(all[i] == log[i]);
            lemma_counts_prefix(program, log, v, i);
            lemma_counts_prefix(program, log, v, last_stored(log, i));
        }
    }
}

/// The state at `pc` was visited, or waits to be.
pub open spec fn met<S>(log: Seq<Visit<S>>, work: Seq<WorkItem<S>>, pc: u32, state: S) -> bool {
    ||| exists|k: int|
        0 <= k < log.len() && (#[trigger] log[k]).pc == pc && log[k].state == state
    ||| exists|w: int|
        0 <= w < work.len() && (#[trigger] work[w]).pc == pc && work[w].state == state
}

/// An earlier visit at the same place, which was not pruned itself, covers the
/// arrival.
pub open spec fn pruned_rightly<
    S: Copy,
    C: Fn(&S, u16, u64) -> S,
    L: Fn(&S, &S) -> bool,
    Q: Fn(&S, &S, ExactLevel, u16) -> bool,
    N: Fn(u32, &BpfInsn, &S) -> Result<Vec<(u32, S)>, VerificationFailure>,
    R: Fn(&S) -> ExitValue,
>(
    domain: Domain<S, C, L, Q, N, R>,
    live: Liveness,
    log: Seq<Visit<S>>,
    i: int,
    by: int,
) -> bool {
    &&& 0 <= by < i
    &&& log[by].pc == log[i].pc
    &&& !(log[by].outcome is Pruned)
    &&& exists|a: S, b: S| #[trigger]
        domain.cleans(live, log[i].pc as int, log[by].state, a) && #[trigger] domain.cleans(
            live,
            log[i].pc as int,
            log[i].state,
            b,
        ) && domain.covers(live, log[i].pc as int, a, b)
}

/// The `i`-th arrival is accounted for.
pub open spec fn visit_ok<
    S: Copy,
    C: Fn(&S, u16, u64) -> S,
    L: Fn(&S, &S) -> bool,
    Q: Fn(&S, &S, ExactLevel, u16) -> bool,
    N: Fn(u32, &BpfInsn, &S) -> Result<Vec<(u32, S)>, VerificationFailure>,
    R: Fn(&S) -> ExitValue,
>(
    domain: Domain<S, C, L, Q, N, R>,
    program: Seq<BpfInsn>,
    live: Liveness,
    log: Seq<Visit<S>>,
    work: Seq<WorkItem<S>>,
    i: int,
) -> bool {
    let v = log[i];
    &&& v.pc < program.len()
    &&& match v.outcome {
        Outcome::Pruned { by } => pruned_rightly(domain, live, log, i, by),
        Outcome::Exited => program[v.pc as int] is Exit && call_ensures(
            domain.exit_value,
            (&v.state,),
            ExitValue::Scalar,
        ),
        Outcome::Expanded { next } => {
            &&& !(program[v.pc as int] is Exit)
            &&& domain.leads_to(v.pc, program[v.pc as int], v.state, next)
            &&& forall|j: int|
                0 <= j < next.len() ==> met(log, work, (#[trigger] next[j]).0, next[j].1)
        },
    }
}

/// Every arrival is accounted for.
pub open spec fn all_ok<
    S: Copy,
    C: Fn(&S, u16, u64) -> S,
    L: Fn(&S, &S) -> bool,
    Q: Fn(&S, &S, ExactLevel, u16) -> bool,
    N: Fn(u32, &BpfInsn, &S) -> Result<Vec<(u32, S)>, VerificationFailure>,
    R: Fn(&S) -> ExitValue,
>(
    domain: Domain<S, C, L, Q, N, R>,
    program: Seq<BpfInsn>,
    live: Liveness,
    log: Seq<Visit<S>>,
    work: Seq<WorkItem<S>>,
) -> bool {
    forall|i: int|
        0 <= i < log.len() ==> #[trigger] visit_ok(domain, program, live, log, work, i)
}

/// The visits at `pc` that were not pruned.
pub open spec fn visits<S>(log: Seq<Visit<S>>, pc: int) -> nat
    decreases log.len(),
{
    if log.len() == 0 {
        0
    } else {
        visits(log.drop_last(), pc) + (if log.last().pc == pc && !(log.last().outcome is Pruned) {
            1nat
        } else {
            0nat
        })
    }
}

/// `list` holds the cleaned states of the visits at `pc` that were not
/// pruned, in order.
pub open spec fn is_record<
    S: Copy,
    C: Fn(&S, u16, u64) -> S,
    L: Fn(&S, &S) -> bool,
    Q: Fn(&S, &S, ExactLevel, u16) -> bool,
    N: Fn(u32, &BpfInsn, &S) -> Result<Vec<(u32, S)>, VerificationFailure>,
    R: Fn(&S) -> ExitValue,
>(
    domain: Domain<S, C, L, Q, N, R>,
    live: Liveness,
    log: Seq<Visit<S>>,
    pc: int,
    list: Seq<S>,
) -> bool
    decreases log.len(),
{
    if log.len() == 0 {
        list.len() == 0
    } else if log.last().pc == pc && !(log.last().outcome is Pruned) {
        list.len() > 0 && domain.cleans(live, pc, log.last().state, list.last()) && is_record(
            domain,
            live,
            log.drop_last(),
            pc,
            list.drop_last(),
        )
    } else {
        is_record(domain, live, log.drop_last(), pc, list)
    }
}

/// The whole exploration: its arrivals are steps from the beginning until no
/// path is pending. It begins at entry, every arrival is accounted for, and the
/// bounds were kept.
pub open spec fn explored<
    S: Copy,
    C: Fn(&S, u16, u64) -> S,
    L: Fn(&S, &S) -> bool,
    Q: Fn(&S, &S, ExactLevel, u16) -> bool,
    N: Fn(u32, &BpfInsn, &S) -> Result<Vec<(u32, S)>, VerificationFailure>,
    R: Fn(&S) -> ExitValue,
>(
    domain: Domain<S, C, L, Q, N, R>,
    program: Seq<BpfInsn>,
    loop_heads: Seq<u32>,
    limits: VerifierLimits,
    live: Liveness,
    log: Seq<Visit<S>>,
) -> bool {
    &&& exists|moments: Seq<run::Moment<S>>| #[trigger]
        domain.is_run(program, loop_heads, limits, live, log, moments)
            && moments.last().work.len() == 0
    &&& 0 < log.len() <= limits.max_steps
    &&& log[0].pc == 0
    &&& log[0].state == domain.initial
    &&& all_ok(domain, program, live, log, Seq::<WorkItem<S>>::empty())
    &&& forall|i: int| 0 <= i < log.len() ==> #[trigger] store_rule(program, log, i)
    &&& forall|pc: u32| #[trigger]
        loop_heads.contains(pc) && pc < program.len() ==> visits(log, pc as int)
            <= limits.max_loop_iterations
}

/// Meeting a state outlasts the visit of a pending path.
proof fn lemma_met_popped<S>(
    log: Seq<Visit<S>>,
    work: Seq<WorkItem<S>>,
    v: Visit<S>,
    pc: u32,
    state: S,
)
    requires
        work.len() > 0,
        v.pc == work.last().pc,
        v.state == work.last().state,
        met(log, work, pc, state),
    ensures
        met(log.push(v), work.drop_last(), pc, state),
{
    let all = log.push(v);
    if exists|k: int|
        0 <= k < log.len() && (#[trigger] log[k]).pc == pc && log[k].state == state {
        let k = choose|k: int|
            0 <= k < log.len() && (#[trigger] log[k]).pc == pc && log[k].state == state;
        assert(all[k] == log[k]);
    } else {
        let w = choose|w: int|
            0 <= w < work.len() && (#[trigger] work[w]).pc == pc && work[w].state == state;
        if w < work.len() - 1 {
            assert(work.drop_last()[w] == work[w]);
        } else {
            assert(all[log.len() as int] == v);
        }
    }
}

/// One more arrival, which took a path from the worklist, keeps the earlier
/// ones accounted for.
proof fn lemma_all_ok_popped<
    S: Copy,
    C: Fn(&S, u16, u64) -> S,
    L: Fn(&S, &S) -> bool,
    Q: Fn(&S, &S, ExactLevel, u16) -> bool,
    N: Fn(u32, &BpfInsn, &S) -> Result<Vec<(u32, S)>, VerificationFailure>,
    R: Fn(&S) -> ExitValue,
>(
    domain: Domain<S, C, L, Q, N, R>,
    program: Seq<BpfInsn>,
    live: Liveness,
    log: Seq<Visit<S>>,
    work: Seq<WorkItem<S>>,
    v: Visit<S>,
    more: Seq<WorkItem<S>>,
)
    requires
        all_ok(domain, program, live, log, work),
        work.len() > 0,
        v.pc == work.last().pc,
        v.state == work.last().state,
        visit_ok(domain, program, live, log.push(v), work.drop_last() + more, log.len() as int),
    ensures
        all_ok(domain, program, live, log.push(v), work.drop_last() + more),
{
    let all = log.push(v);
    let left = work.drop_last() + more;
    assert forall|i: int| 0 <= i < all.len() implies #[trigger] visit_ok(
        domain,
        program,
        live,
        all,
        left,
        i,
    ) by {
        if i < log.len() {
            assert(visit_ok(domain, program, live, log, work, i));
            assert(all[i] == log[i]);
            match log[i].outcome {
                Outcome::Pruned { by } => {
                    assert(all[by] == log[by]);
                    assert(pruned_rightly(domain, live, log, i, by));
                    let (a, b) = choose|a: S, b: S| #[trigger]
                        domain.cleans(live, log[i].pc as int, log[by].state, a)
                            && #[trigger] domain.cleans(live, log[i].pc as int, log[i].state, b)
                            && domain.covers(live, log[i].pc as int, a, b);
                    assert(domain.cleans(live, all[i].pc as int, all[by].state, a));
                    assert(domain.cleans(live, all[i].pc as int, all[i].state, b));
                },
                Outcome::Exited => {},
                Outcome::Expanded { next } => {
                    assert forall|j: int| 0 <= j < next.len() implies met(
                        all,
                        left,
                        (#[trigger] next[j]).0,
                        next[j].1,
                    ) by {
                        lemma_met_popped(log, work, v, next[j].0, next[j].1);
                        lemma_met_more(all, work.drop_last(), more, next[j].0, next[j].1);
                    }
                },
            }
        }
    }
}

proof fn lemma_met_more<S>(
    log: Seq<Visit<S>>,
    work: Seq<WorkItem<S>>,
    more: Seq<WorkItem<S>>,
    pc: u32,
    state: S,
)
    requires
        met(log, work, pc, state),
    ensures
        met(log, work + more, pc, state),
{
    if exists|w: int|
        0 <= w < work.len() && (#[trigger] work[w]).pc == pc && work[w].state == state {
        let w = choose|w: int|
            0 <= w < work.len() && (#[trigger] work[w]).pc == pc && work[w].state == state;
        assert((work + more)[w] == work[w]);
    }
}

// ── Steps of the exploration ────────────────────────────────────────────────

/// How an arrival compares with the remembered states of its place.
enum Arrival {
    /// It is identical to one that is still being explored.
    Looping,
    /// This one is fully explored and covers it.
    Covered { cp: usize },
    /// It is new; it may be worth remembering, and these are not any more.
    New { store: bool, evict: Vec<usize> },
}

/// The same states with the same pending paths; only the statistics differ.
spec fn same_paths<S>(a: Seq<Checkpoint<S>>, b: Seq<Checkpoint<S>>) -> bool {
    &&& extends(a, b)
    &&& a.len() == b.len()
    &&& forall|k: int| 0 <= k < a.len() ==> (#[trigger] b[k]).branches == a[k].branches
}

/// Compares an arrival with the remembered states in `list`.
fn compare<
    S: Copy,
    C: Fn(&S, u16, u64) -> S,
    L: Fn(&S, &S) -> bool,
    Q: Fn(&S, &S, ExactLevel, u16) -> bool,
    N: Fn(u32, &BpfInsn, &S) -> Result<Vec<(u32, S)>, VerificationFailure>,
    R: Fn(&S) -> ExitValue,
>(
    domain: &Domain<S, C, L, Q, N, R>,
    live_regs: u16,
    cps: &mut Vec<Checkpoint<S>>,
    list: &Vec<usize>,
    arrival: &S,
    due: bool,
    throttled: bool,
) -> (r: Arrival)
    requires
        domain.callable(),
        forall|j: int| 0 <= j < list@.len() ==> (#[trigger] list@[j]) < old(cps)@.len(),
    ensures
        same_paths(old(cps)@, final(cps)@),
        match r {
            Arrival::Looping => exists|j: int|
                0 <= j < list@.len() && domain.passes_first(
                    live_regs,
                    old(cps)@,
                    list@,
                    *arrival,
                    j,
                ) && domain.repeats(live_regs, old(cps)@[(#[trigger] list@[j]) as int], *arrival),
            Arrival::Covered { cp } => exists|j: int|
                0 <= j < list@.len() && domain.passes_first(
                    live_regs,
                    old(cps)@,
                    list@,
                    *arrival,
                    j,
                ) && domain.settles(live_regs, old(cps)@[(#[trigger] list@[j]) as int], *arrival)
                    && list@[j] == cp && final(cps)@ == run::with_hit(
                    run::tally(old(cps)@, list@, due, throttled, j),
                    cp as int,
                ),
            Arrival::New { store, evict } => {
                let n = list@.len() as int;
                &&& store == run::still_due(old(cps)@, list@, due, throttled, n)
                &&& domain.passes_first(live_regs, old(cps)@, list@, *arrival, n)
                &&& final(cps)@ == run::tally(old(cps)@, list@, due, throttled, n)
                &&& evict@ == run::forgotten(old(cps)@, list@, due, throttled, n)
            },
        },
{
    let mut store: bool = due;
    let mut evict: Vec<usize> = Vec::new();
    let ghost start = cps@;
    let mut j: usize = 0;
    while j < list.len()
        invariant
            domain.callable(),
            j <= list@.len(),
            start == old(cps)@,
            forall|t: int| 0 <= t < list@.len() ==> (#[trigger] list@[t]) < start.len(),
            cps@ == run::tally(start, list@, due, throttled, j as int),
            evict@ == run::forgotten(start, list@, due, throttled, j as int),
            store == run::still_due(start, list@, due, throttled, j as int),
            domain.passes_first(live_regs, start, list@, *arrival, j as int),
        decreases list@.len() - j,
    {
        let i: usize = list[j];
        let ghost before = cps@;
        proof {
            run::lemma_tally(start, list@, due, throttled, j as int);
            assert(list@[j as int] == i);
            assert(start[i as int].state == cps@[i as int].state);
            assert(cps@[i as int].branches == start[i as int].branches);
        }
        if cps[i].branches > 0 {
            if (domain.maybe_looping)(&cps[i].state, arrival) && (domain.equal)(
                &cps[i].state,
                arrival,
                ExactLevel::Exact,
                live_regs,
            ) {
                assert(domain.repeats(live_regs, start[list@[j as int] as int], *arrival));
                assert(same_paths(start, cps@));
                return Arrival::Looping;
            }
            if throttled {
                store = false;
            }
        } else if (domain.equal)(&cps[i].state, arrival, ExactLevel::NotExact, live_regs) {
            let hits: usize = cps[i].hit_cnt.saturating_add(1);
            cps[i].hit_cnt = hits;
            proof {
                assert(forall|k: int|
                    0 <= k < before.len() && k != i ==> #[trigger] cps@[k] == before[k]);
                assert(cps@ =~= run::with_hit(before, i as int));
                assert(domain.settles(live_regs, start[list@[j as int] as int], *arrival));
                assert(same_paths(start, cps@));
            }
            return Arrival::Covered { cp: i };
        }
        proof {
            assert(domain.passes(live_regs, start[i as int], *arrival));
            assert(store == run::still_due(start, list@, due, throttled, j + 1)) by {
                if start[i as int].branches > 0 {
                    assert(start[list@[j as int] as int].branches > 0);
                }
                if run::still_due(start, list@, due, throttled, j as int) && throttled && exists|
                    t: int,
                |
                    0 <= t < j + 1 && start[(#[trigger] list@[t]) as int].branches > 0 {
                    let t = choose|t: int|
                        0 <= t < j + 1 && start[(#[trigger] list@[t]) as int].branches > 0;
                    assert(t == j);
                }
                if due && throttled && exists|t: int|
                    0 <= t < j && start[(#[trigger] list@[t]) as int].branches > 0 {
                    let t = choose|t: int|
                        0 <= t < j && start[(#[trigger] list@[t]) as int].branches > 0;
                    assert(0 <= t < j + 1 && start[list@[t] as int].branches > 0);
                }
            }
        }
        if store {
            let misses: usize = cps[i].miss_cnt.saturating_add(1);
            cps[i].miss_cnt = misses;
        }
        proof {
            assert(forall|k: int|
                0 <= k < before.len() && k != i ==> #[trigger] cps@[k] == before[k]);
            assert(cps@ =~= run::tally(start, list@, due, throttled, j + 1));
        }
        if is_unhelpful(cps[i].hit_cnt, cps[i].miss_cnt) {
            evict.push(i);
        }
        j = j + 1;
    }
    proof {
        run::lemma_tally(start, list@, due, throttled, j as int);
        assert(same_paths(start, cps@));
    }
    Arrival::New { store, evict }
}

fn holds(list: &Vec<usize>, x: usize) -> (b: bool)
    ensures
        b == list@.contains(x),
{
    let mut k: usize = 0;
    while k < list.len()
        invariant
            k <= list@.len(),
            forall|j: int| 0 <= j < k ==> list@[j] != x,
        decreases list@.len() - k,
    {
        if list[k] == x {
            return true;
        }
        k = k + 1;
    }
    false
}

/// The entries of `list` that are not in `evict`, in order.
fn retain(list: &Vec<usize>, evict: &Vec<usize>) -> (out: Vec<usize>)
    ensures
        out@ == list@.filter(|x: usize| !evict@.contains(x)),
{
    let mut out: Vec<usize> = Vec::new();
    let ghost keep = |x: usize| !evict@.contains(x);
    let mut i: usize = 0;
    proof {
        assert(list@.take(0).filter(keep) =~= Seq::<usize>::empty()) by {
            reveal(Seq::filter);
        }
    }
    while i < list.len()
        invariant
            i <= list@.len(),
            keep == (|x: usize| !evict@.contains(x)),
            out@ == list@.take(i as int).filter(keep),
        decreases list@.len() - i,
    {
        let x: usize = list[i];
        proof {
            assert(list@.take(i + 1) =~= list@.take(i as int).push(x));
            reveal(Seq::filter);
            assert(list@.take(i + 1).drop_last() =~= list@.take(i as int));
        }
        if !holds(evict, x) {
            out.push(x);
        }
        i = i + 1;
    }
    assert(list@.take(i as int) =~= list@);
    out
}

/// The paths that go on to the states of `next`: the first is taken first, so
/// it is put last.
pub open spec fn paths<S>(next: Seq<(u32, S)>, last_cp: Option<usize>) -> Seq<WorkItem<S>> {
    Seq::new(
        next.len(),
        |j: int|
            WorkItem {
                pc: next[next.len() - 1 - j].0,
                state: next[next.len() - 1 - j].1,
                last_cp,
            },
    )
}

/// Puts the paths to the states of `next` on the worklist, and counts them.
fn push_paths<S: Copy>(
    work: &mut Vec<WorkItem<S>>,
    cps: &mut Vec<Checkpoint<S>>,
    next: &Vec<(u32, S)>,
    last_cp: Option<usize>,
)
    requires
        parents_ok(old(cps)@),
        work_ok(old(cps)@, old(work)@),
        counts_ok(old(cps)@, old(work)@),
        last_cp matches Some(i) ==> i < old(cps)@.len(),
    ensures
        extends(old(cps)@, final(cps)@),
        final(cps)@.len() == old(cps)@.len(),
        parents_ok(final(cps)@),
        work_ok(final(cps)@, final(work)@),
        counts_ok(final(cps)@, final(work)@),
        final(work)@ == old(work)@ + paths(next@, last_cp),
        run::same_memory(old(cps)@, final(cps)@),
{
    let ghost all = paths(next@, last_cp);
    let n: usize = next.len();
    let mut j: usize = 0;
    proof {
        assert(old(work)@ + all.take(0) =~= old(work)@);
    }
    while j < n
        invariant
            n == next@.len(),
            j <= n,
            all == paths(next@, last_cp),
            extends(old(cps)@, cps@),
            cps@.len() == old(cps)@.len(),
            run::same_memory(old(cps)@, cps@),
            parents_ok(cps@),
            work_ok(cps@, work@),
            counts_ok(cps@, work@),
            last_cp matches Some(i) ==> i < cps@.len(),
            work@ == old(work)@ + all.take(j as int),
        decreases n - j,
    {
        let (pc, state): (u32, S) = next[n - 1 - j];
        let ghost before = work@;
        let ghost cps0 = cps@;
        let ghost item = WorkItem { pc, state, last_cp };
        work.push(WorkItem { pc, state, last_cp });
        proof {
            assert(work@ == before.push(item));
            assert(work@.drop_last() =~= before);
            assert(work@.len() <= usize::MAX) by {
                assert(work.len() == work@.len());
            }
            assert forall|k: int| 0 <= k < cps0.len() && #[trigger] on_chain(cps0, last_cp, k)
                implies cps0[k].branches < usize::MAX by {
                lemma_pending_extends(cps0, cps0, before, k);
                assert(cps0[k].branches == pending(cps0, before, k));
            }
        }
        add_branch(cps, last_cp);
        proof {
            lemma_pushed(cps0, cps@, before, item);
            assert(all.take(j + 1) =~= all.take(j as int).push(all[j as int]));
            assert(work@ =~= old(work)@ + all.take(j + 1));
        }
        j = j + 1;
    }
    assert(all.take(n as int) =~= all);
}

/// One more path, counted on its chain.
proof fn lemma_pushed<S>(
    a: Seq<Checkpoint<S>>,
    b: Seq<Checkpoint<S>>,
    work: Seq<WorkItem<S>>,
    item: WorkItem<S>,
)
    requires
        parents_ok(a),
        extends(a, b),
        a.len() == b.len(),
        work_ok(a, work),
        counts_ok(a, work),
        item.last_cp matches Some(i) ==> i < a.len(),
        forall|k: int|
            0 <= k < a.len() ==> (#[trigger] b[k]).branches == a[k].branches + (if on_chain(
                a,
                item.last_cp,
                k,
            ) {
                1int
            } else {
                0
            }),
    ensures
        parents_ok(b),
        work_ok(b, work.push(item)),
        counts_ok(b, work.push(item)),
{
    lemma_parents_extend(a, b);
    let all = work.push(item);
    assert(all.drop_last() =~= work);
    assert forall|k: int| 0 <= k < b.len() implies (#[trigger] b[k]).branches == pending(
        b,
        all,
        k,
    ) by {
        lemma_pending_extends(a, b, work, k);
        lemma_chain_extends(a, b, item.last_cp, k);
        assert(a[k].branches == pending(a, work, k));
    }
    assert forall|w: int| 0 <= w < all.len() implies ((#[trigger] all[w]).last_cp matches Some(i)
        ==> i < b.len()) by {
        if w < work.len() {
            assert(all[w] == work[w]);
        }
    }
}

proof fn lemma_parents_extend<S>(a: Seq<Checkpoint<S>>, b: Seq<Checkpoint<S>>)
    requires
        parents_ok(a),
        extends(a, b),
        a.len() == b.len(),
    ensures
        parents_ok(b),
{
    assert forall|k: int| 0 <= k < b.len() implies ((#[trigger] b[k]).parent matches Some(p) ==> p
        < k) by {
        assert(a[k].parent == b[k].parent);
    }
}

/// The path that was taken from the worklist is counted no longer.
proof fn lemma_popped<S>(
    a: Seq<Checkpoint<S>>,
    b: Seq<Checkpoint<S>>,
    c: Seq<Checkpoint<S>>,
    work: Seq<WorkItem<S>>,
)
    requires
        parents_ok(a),
        work.len() > 0,
        work_ok(a, work),
        counts_ok(a, work),
        // `b` is `a` with at most one more state, without paths
        extends(a, b),
        parents_ok(b),
        forall|k: int|
            0 <= k < b.len() ==> (#[trigger] b[k]).branches == if k < a.len() {
                a[k].branches as int
            } else {
                0
            },
        // `c` is `b` with the chain of the path counted down
        extends(b, c),
        b.len() == c.len(),
        forall|k: int|
            0 <= k < b.len() ==> (#[trigger] c[k]).branches == b[k].branches - (if on_chain(
                b,
                work.last().last_cp,
                k,
            ) {
                1int
            } else {
                0
            }),
    ensures
        parents_ok(c),
        work_ok(c, work.drop_last()),
        counts_ok(c, work.drop_last()),
{
    let rest = work.drop_last();
    lemma_parents_extend(b, c);
    lemma_extends_trans(a, b, c);
    assert(work_ok(a, rest)) by {
        assert forall|w: int| 0 <= w < rest.len() implies ((#[trigger] rest[w]).last_cp matches Some(
            i,
        ) ==> i < a.len()) by {
            assert(rest[w] == work[w]);
        }
    }
    assert forall|k: int| 0 <= k < c.len() implies (#[trigger] c[k]).branches == pending(
        c,
        rest,
        k,
    ) by {
        lemma_pending_extends(a, c, rest, k);
        assert(work[work.len() - 1] == work.last());
        lemma_chain_extends(a, b, work.last().last_cp, k);
        if k < a.len() {
            assert(a[k].branches == pending(a, work, k));
            assert(b[k].branches == a[k].branches);
        }
    }
    assert forall|w: int| 0 <= w < rest.len() implies ((#[trigger] rest[w]).last_cp matches Some(i)
        ==> i < c.len()) by {
        assert(rest[w] == work[w]);
    }
}

/// The chain of the path that was taken is counted.
proof fn lemma_chain_counted<S>(a: Seq<Checkpoint<S>>, b: Seq<Checkpoint<S>>, work: Seq<WorkItem<S>>)
    requires
        parents_ok(a),
        work.len() > 0,
        work_ok(a, work),
        counts_ok(a, work),
        extends(a, b),
        forall|k: int|
            0 <= k < b.len() ==> (#[trigger] b[k]).branches == if k < a.len() {
                a[k].branches as int
            } else {
                0
            },
    ensures
        work.last().last_cp matches Some(i) ==> i < b.len(),
        forall|k: int|
            0 <= k < b.len() && #[trigger] on_chain(b, work.last().last_cp, k) ==> b[k].branches
                > 0,
{
    assert(work[work.len() - 1] == work.last());
    assert forall|k: int| 0 <= k < b.len() && #[trigger] on_chain(b, work.last().last_cp, k)
        implies b[k].branches > 0 by {
        lemma_chain_extends(a, b, work.last().last_cp, k);
        assert(a[k].branches == pending(a, work, k));
        assert(b[k].branches == a[k].branches);
    }
}

proof fn lemma_extends_trans<S>(
    a: Seq<Checkpoint<S>>,
    b: Seq<Checkpoint<S>>,
    c: Seq<Checkpoint<S>>,
)
    requires
        extends(a, b),
        extends(b, c),
    ensures
        extends(a, c),
{
    assert forall|k: int| 0 <= k < a.len() implies (#[trigger] a[k]).parent == c[k].parent
        && a[k].state == c[k].state by {
        assert(a[k].parent == b[k].parent && b[k].parent == c[k].parent);
        assert(b[k].state == c[k].state);
    }
}

// ── Rejections ──────────────────────────────────────────────────────────────

/// A message with a number in the middle.
pub open spec fn counted(before: Seq<char>, n: int, behind: Seq<char>) -> Seq<char> {
    before + text::dec(n as nat) + behind
}

fn failure(pc: u32, before: &str, n: usize, behind: &str) -> (e: VerificationFailure)
    ensures
        e.insn_idx == pc,
        e.message@ == counted(before@, n as int, behind@),
{
    let mut s: String = String::new();
    s.append(before);
    push_dec(&mut s, n as u64);
    s.append(behind);
    assert(s@ =~= counted(before@, n as int, behind@));
    VerificationFailure::new(pc, s.as_str())
}

/// The exploration arrives where the program is rejected for the reason `e`: a
/// bound was exceeded, control left the program, a loop makes no progress, an
/// exit has no scalar in R0, or an instruction is rejected by the domain.
pub open spec fn rejects<
    S: Copy,
    C: Fn(&S, u16, u64) -> S,
    L: Fn(&S, &S) -> bool,
    Q: Fn(&S, &S, ExactLevel, u16) -> bool,
    N: Fn(u32, &BpfInsn, &S) -> Result<Vec<(u32, S)>, VerificationFailure>,
    R: Fn(&S) -> ExitValue,
>(
    domain: Domain<S, C, L, Q, N, R>,
    program: Seq<BpfInsn>,
    loop_heads: Seq<u32>,
    limits: VerifierLimits,
    e: VerificationFailure,
) -> bool {
    exists|live: Liveness, log: Seq<Visit<S>>, moments: Seq<run::Moment<S>>|
        liveness::is_liveness(program, live) && #[trigger] domain.is_run(
            program,
            loop_heads,
            limits,
            live,
            log,
            moments,
        ) && domain.stops(program, loop_heads, limits, live, log, moments.last(), e)
}

// ── The exploration ─────────────────────────────────────────────────────────

/// Every remembered state is the cleaned state of a visit that was not pruned.
spec fn remembered<
    S: Copy,
    C: Fn(&S, u16, u64) -> S,
    L: Fn(&S, &S) -> bool,
    Q: Fn(&S, &S, ExactLevel, u16) -> bool,
    N: Fn(u32, &BpfInsn, &S) -> Result<Vec<(u32, S)>, VerificationFailure>,
    R: Fn(&S) -> ExitValue,
>(
    domain: Domain<S, C, L, Q, N, R>,
    live: Liveness,
    cps: Seq<Checkpoint<S>>,
    log: Seq<Visit<S>>,
    origin: Seq<int>,
) -> bool {
    &&& origin.len() == cps.len()
    &&& forall|k: int|
        0 <= k < cps.len() ==> origin_ok(domain, live, cps[k].state, log, #[trigger] origin[k])
}

spec fn origin_ok<
    S: Copy,
    C: Fn(&S, u16, u64) -> S,
    L: Fn(&S, &S) -> bool,
    Q: Fn(&S, &S, ExactLevel, u16) -> bool,
    N: Fn(u32, &BpfInsn, &S) -> Result<Vec<(u32, S)>, VerificationFailure>,
    R: Fn(&S) -> ExitValue,
>(
    domain: Domain<S, C, L, Q, N, R>,
    live: Liveness,
    state: S,
    log: Seq<Visit<S>>,
    o: int,
) -> bool {
    &&& 0 <= o < log.len()
    &&& !(log[o].outcome is Pruned)
    &&& domain.cleans(live, log[o].pc as int, log[o].state, state)
}

/// The list of a place names remembered states of that place.
spec fn list_ok<S>(list: Seq<usize>, pc: int, log: Seq<Visit<S>>, origin: Seq<int>) -> bool {
    forall|j: int|
        0 <= j < list.len() ==> (#[trigger] list[j]) < origin.len() && log[origin[list[j] as int]].pc
            == pc
}

spec fn lists_ok<S>(visited: Seq<Vec<usize>>, log: Seq<Visit<S>>, origin: Seq<int>) -> bool {
    forall|pc: int| 0 <= pc < visited.len() ==> list_ok((#[trigger] visited[pc])@, pc, log, origin)
}

/// What was recorded of each place.
spec fn records_ok<
    S: Copy,
    C: Fn(&S, u16, u64) -> S,
    L: Fn(&S, &S) -> bool,
    Q: Fn(&S, &S, ExactLevel, u16) -> bool,
    N: Fn(u32, &BpfInsn, &S) -> Result<Vec<(u32, S)>, VerificationFailure>,
    R: Fn(&S) -> ExitValue,
>(
    domain: Domain<S, C, L, Q, N, R>,
    live: Liveness,
    log: Seq<Visit<S>>,
    analyzed: Seq<Vec<S>>,
    iters: Seq<usize>,
    loop_heads: Seq<u32>,
    limits: VerifierLimits,
) -> bool {
    &&& forall|pc: int|
        0 <= pc < analyzed.len() ==> is_record(domain, live, log, pc, (#[trigger] analyzed[pc])@)
    &&& forall|pc: int|
        0 <= pc < iters.len() && loop_heads.contains(pc as u32) ==> (#[trigger] iters[pc])
            == visits(log, pc) && iters[pc] <= limits.max_loop_iterations
}

/// The lists, as they are held.
spec fn lists_are(lists: Seq<Seq<usize>>, visited: Seq<Vec<usize>>) -> bool {
    lists.len() == visited.len() && forall|pc: int|
        0 <= pc < lists.len() ==> #[trigger] lists[pc] == visited[pc]@
}

/// What is pending and remembered, as it is held.
spec fn is_moment<S>(
    m: run::Moment<S>,
    work: Seq<WorkItem<S>>,
    cps: Seq<Checkpoint<S>>,
    visited: Seq<Vec<usize>>,
) -> bool {
    m.work == work && m.cps == cps && lists_are(m.lists, visited)
}

fn is_head(loop_heads: &[u32], pc: u32) -> (b: bool)
    ensures
        b == loop_heads@.contains(pc),
{
    let mut i: usize = 0;
    while i < loop_heads.len()
        invariant
            i <= loop_heads@.len(),
            forall|k: int| 0 <= k < i ==> loop_heads@[k] != pc,
        decreases loop_heads@.len() - i,
    {
        if loop_heads[i] == pc {
            return true;
        }
        i = i + 1;
    }
    false
}

/// A longer log keeps what is remembered and listed.
proof fn lemma_log_grows<
    S: Copy,
    C: Fn(&S, u16, u64) -> S,
    L: Fn(&S, &S) -> bool,
    Q: Fn(&S, &S, ExactLevel, u16) -> bool,
    N: Fn(u32, &BpfInsn, &S) -> Result<Vec<(u32, S)>, VerificationFailure>,
    R: Fn(&S) -> ExitValue,
>(
    domain: Domain<S, C, L, Q, N, R>,
    live: Liveness,
    cps: Seq<Checkpoint<S>>,
    log: Seq<Visit<S>>,
    origin: Seq<int>,
    visited: Seq<Vec<usize>>,
    v: Visit<S>,
)
    requires
        remembered(domain, live, cps, log, origin),
        lists_ok(visited, log, origin),
    ensures
        remembered(domain, live, cps, log.push(v), origin),
        lists_ok(visited, log.push(v), origin),
{
    let all = log.push(v);
    assert forall|k: int| 0 <= k < cps.len() implies origin_ok(
        domain,
        live,
        cps[k].state,
        all,
        #[trigger] origin[k],
    ) by {
        assert(origin_ok(domain, live, cps[k].state, log, origin[k]));
        assert(all[origin[k]] == log[origin[k]]);
    }
    assert forall|pc: int| 0 <= pc < visited.len() implies list_ok(
        (#[trigger] visited[pc])@,
        pc,
        all,
        origin,
    ) by {
        let list = visited[pc]@;
        assert(list_ok(list, pc, log, origin));
        assert forall|j: int| 0 <= j < list.len() implies (#[trigger] list[j]) < origin.len()
            && all[origin[list[j] as int]].pc == pc by {
            let k = list[j] as int;
            assert(list[j] < origin.len() && log[origin[k]].pc == pc);
            assert(origin_ok(domain, live, cps[k].state, log, origin[k]));
            assert(all[origin[k]] == log[origin[k]]);
        }
    }
}

/// A pruned visit adds nothing to the records.
proof fn lemma_records_pruned<
    S: Copy,
    C: Fn(&S, u16, u64) -> S,
    L: Fn(&S, &S) -> bool,
    Q: Fn(&S, &S, ExactLevel, u16) -> bool,
    N: Fn(u32, &BpfInsn, &S) -> Result<Vec<(u32, S)>, VerificationFailure>,
    R: Fn(&S) -> ExitValue,
>(
    domain: Domain<S, C, L, Q, N, R>,
    live: Liveness,
    log: Seq<Visit<S>>,
    analyzed: Seq<Vec<S>>,
    iters: Seq<usize>,
    loop_heads: Seq<u32>,
    limits: VerifierLimits,
    v: Visit<S>,
)
    requires
        records_ok(domain, live, log, analyzed, iters, loop_heads, limits),
        v.outcome is Pruned,
    ensures
        records_ok(domain, live, log.push(v), analyzed, iters, loop_heads, limits),
{
    let all = log.push(v);
    assert(all.drop_last() =~= log);
    assert forall|pc: int| 0 <= pc < analyzed.len() implies is_record(
        domain,
        live,
        all,
        pc,
        (#[trigger] analyzed[pc])@,
    ) by {
        assert(is_record(domain, live, log, pc, analyzed[pc]@));
    }
    assert forall|pc: int| 0 <= pc < iters.len() && loop_heads.contains(pc as u32) implies (
    #[trigger] iters[pc]) == visits(all, pc) && iters[pc] <= limits.max_loop_iterations by {
        assert(iters[pc] == visits(log, pc));
    }
}

/// A visit that was not pruned adds its cleaned state to the record of its
/// place, and one to the visits of a loop head.
proof fn lemma_records_kept<
    S: Copy,
    C: Fn(&S, u16, u64) -> S,
    L: Fn(&S, &S) -> bool,
    Q: Fn(&S, &S, ExactLevel, u16) -> bool,
    N: Fn(u32, &BpfInsn, &S) -> Result<Vec<(u32, S)>, VerificationFailure>,
    R: Fn(&S) -> ExitValue,
>(
    domain: Domain<S, C, L, Q, N, R>,
    live: Liveness,
    log: Seq<Visit<S>>,
    analyzed: Seq<Vec<S>>,
    iters: Seq<usize>,
    loop_heads: Seq<u32>,
    limits: VerifierLimits,
    v: Visit<S>,
    cleaned: S,
    analyzed2: Seq<Vec<S>>,
    iters2: Seq<usize>,
)
    requires
        records_ok(domain, live, log, analyzed, iters, loop_heads, limits),
        !(v.outcome is Pruned),
        v.pc < analyzed.len(),
        v.pc < iters.len(),
        domain.cleans(live, v.pc as int, v.state, cleaned),
        analyzed2.len() == analyzed.len(),
        analyzed2[v.pc as int]@ == analyzed[v.pc as int]@.push(cleaned),
        forall|pc: int|
            0 <= pc < analyzed.len() && pc != v.pc ==> #[trigger] analyzed2[pc] == analyzed[pc],
        iters2.len() == iters.len(),
        forall|pc: int|
            0 <= pc < iters.len() && pc != v.pc ==> #[trigger] iters2[pc] == iters[pc],
        loop_heads.contains(v.pc) ==> iters2[v.pc as int] == iters[v.pc as int] + 1
            && iters2[v.pc as int] <= limits.max_loop_iterations,
    ensures
        records_ok(domain, live, log.push(v), analyzed2, iters2, loop_heads, limits),
{
    let all = log.push(v);
    assert(all.drop_last() =~= log);
    assert forall|pc: int| 0 <= pc < analyzed2.len() implies is_record(
        domain,
        live,
        all,
        pc,
        (#[trigger] analyzed2[pc])@,
    ) by {
        assert(is_record(domain, live, log, pc, analyzed[pc]@));
        if pc == v.pc {
            assert(analyzed2[pc]@.drop_last() =~= analyzed[pc]@);
        } else {
            assert(analyzed2[pc] == analyzed[pc]);
        }
    }
    assert forall|pc: int| 0 <= pc < iters2.len() && loop_heads.contains(pc as u32) implies (
    #[trigger] iters2[pc]) == visits(all, pc) && iters2[pc] <= limits.max_loop_iterations by {
        assert(iters[pc] == visits(log, pc));
        if pc != v.pc {
            assert(iters2[pc] == iters[pc]);
        }
    }
}

/// Explores a program: follows every path until none is left. The result is
/// the number of remembered states, and the cleaned states that were analyzed
/// at each instruction, in order.
#[verifier::rlimit(60)]
#[verifier::spinoff_prover]
fn verify_mini_core<
    S: Copy,
    C: Fn(&S, u16, u64) -> S,
    L: Fn(&S, &S) -> bool,
    Q: Fn(&S, &S, ExactLevel, u16) -> bool,
    N: Fn(u32, &BpfInsn, &S) -> Result<Vec<(u32, S)>, VerificationFailure>,
    R: Fn(&S) -> ExitValue,
>(
    program: &[BpfInsn],
    loop_heads: &[u32],
    limits: &VerifierLimits,
    domain: &Domain<S, C, L, Q, N, R>,
) -> (r: Result<(usize, Vec<Vec<S>>), VerificationFailure>)
    requires
        program@.len() <= u32::MAX,
        forall|i: int| 0 <= i < program@.len() ==> (#[trigger] program@[i]).regs_valid(),
        domain.callable(),
    ensures
        match r {
            Ok((count, analyzed)) => exists|live: Liveness, log: Seq<Visit<S>>|
                liveness::is_liveness(program@, live) && #[trigger] explored(
                    *domain,
                    program@,
                    loop_heads@,
                    *limits,
                    live,
                    log,
                ) && count == stored_count(log) && count <= limits.max_states && analyzed@.len() == program@.len() && forall|
                    pc: int,
                |
                    0 <= pc < analyzed@.len() ==> is_record(
                        *domain,
                        live,
                        log,
                        pc,
                        (#[trigger] analyzed@[pc])@,
                    ),
            Err(e) => rejects(*domain, program@, loop_heads@, *limits, e),
        },
{
    let live: Liveness = analyze(program);
    let prune_points: Vec<bool> = compute_prune_points(program);
    let n: usize = program.len();
    let mut worklist: Vec<WorkItem<S>> = Vec::new();
    let first: S = domain.initial;
    worklist.push(WorkItem { pc: 0, state: first, last_cp: None });
    let mut checkpoints: Vec<Checkpoint<S>> = Vec::new();
    let mut visited: Vec<Vec<usize>> = Vec::new();
    let mut analyzed: Vec<Vec<S>> = Vec::new();
    let mut loop_iters: Vec<usize> = Vec::new();
    let mut i: usize = 0;
    while i < n
        invariant
            i <= n,
            visited@.len() == i,
            analyzed@.len() == i,
            loop_iters@.len() == i,
            forall|k: int| 0 <= k < i ==> (#[trigger] visited@[k])@.len() == 0,
            forall|k: int| 0 <= k < i ==> (#[trigger] analyzed@[k])@.len() == 0,
            forall|k: int| 0 <= k < i ==> #[trigger] loop_iters@[k] == 0,
        decreases n - i,
    {
        visited.push(Vec::new());
        analyzed.push(Vec::new());
        loop_iters.push(0);
        i = i + 1;
    }
    let mut steps: usize = 0;
    let mut insn_processed: usize = 0;
    let mut jmps_processed: usize = 0;
    let mut prev_insn_processed: usize = 0;
    let mut prev_jmps_processed: usize = 0;
    let ghost mut log: Seq<Visit<S>> = seq![];
    let ghost mut origin: Seq<int> = seq![];
    let ghost mut moments: Seq<run::Moment<S>> = seq![domain.start(program@)];
    proof {
        let m = moments.last();
        assert(m.work =~= worklist@);
        assert(m.cps =~= checkpoints@);
        assert forall|pc: int| 0 <= pc < m.lists.len() implies #[trigger] m.lists[pc]
            == visited@[pc]@ by {
            assert(visited@[pc]@.len() == 0);
            assert(m.lists[pc] =~= visited@[pc]@);
        }
        assert(is_moment(m, worklist@, checkpoints@, visited@));
        assert(domain.is_run(program@, loop_heads@, *limits, live, log, moments));
        assert(counts_ok(checkpoints@, worklist@));
        assert(work_ok(checkpoints@, worklist@));
        assert(all_ok(*domain, program@, live, log, worklist@));
        assert(remembered(*domain, live, checkpoints@, log, origin));
        assert(lists_ok(visited@, log, origin));
        assert(records_ok(
            *domain,
            live,
            log,
            analyzed@,
            loop_iters@,
            loop_heads@,
            *limits,
        ));
    }
    while worklist.len() > 0
        invariant
            n == program@.len() <= u32::MAX,
            forall|i: int| 0 <= i < program@.len() ==> (#[trigger] program@[i]).regs_valid(),
            domain.callable(),
            liveness::is_liveness(program@, live),
            prune_points@.len() == n,
            forall|pc: int|
                0 <= pc < n ==> #[trigger] prune_points@[pc] == is_prune_point(program@, pc),
            visited@.len() == n,
            analyzed@.len() == n,
            loop_iters@.len() == n,
            parents_ok(checkpoints@),
            work_ok(checkpoints@, worklist@),
            counts_ok(checkpoints@, worklist@),
            checkpoints@.len() <= limits.max_states,
            steps == log.len(),
            steps <= limits.max_steps,
            insn_processed == steps,
            jmps_processed == jumps(program@, log, log.len() as int),
            jmps_processed <= steps,
            prev_insn_processed == last_stored(log, log.len() as int) + 1,
            prev_insn_processed <= insn_processed,
            prev_jmps_processed == jumps(program@, log, last_stored(log, log.len() as int)),
            prev_jmps_processed <= jmps_processed,
            checkpoints@.len() == stored_count(log),
            forall|i: int| 0 <= i < log.len() ==> #[trigger] store_rule(program@, log, i),
            all_ok(*domain, program@, live, log, worklist@),
            domain.is_run(program@, loop_heads@, *limits, live, log, moments),
            is_moment(moments.last(), worklist@, checkpoints@, visited@),
            remembered(*domain, live, checkpoints@, log, origin),
            lists_ok(visited@, log, origin),
            records_ok(*domain, live, log, analyzed@, loop_iters@, loop_heads@, *limits),
            log.len() == 0 ==> worklist@.len() == 1 && worklist@[0].pc == 0 && worklist@[0].state
                == domain.initial,
            log.len() > 0 ==> log[0].pc == 0 && log[0].state == domain.initial,
        decreases limits.max_steps - steps,
    {
        let ghost work0 = worklist@;
        let ghost cps0 = checkpoints@;
        let ghost m = moments.last();
        let item: WorkItem<S> = worklist.pop().unwrap();
        proof {
            assert(worklist@ =~= work0.drop_last());
            assert(item == work0.last());
            assert(work0[work0.len() - 1] == item);
        }
        let pc: u32 = item.pc;
        if steps >= limits.max_steps {
            let e: VerificationFailure = failure(
                pc,
                "verification complexity limit exceeded (max_steps ",
                limits.max_steps,
                ")",
            );
            assert(domain.stops(program@, loop_heads@, *limits, live, log, m, e));
            return Err(e);
        }
        steps = steps + 1;
        let at: usize = pc as usize;
        if at >= n {
            let e: VerificationFailure = VerificationFailure::new(
                pc,
                "internal error: pc out of program range",
            );
            assert(domain.stops(program@, loop_heads@, *limits, live, log, m, e));
            return Err(e);
        }
        let insn: BpfInsn = program[at];
        insn_processed = insn_processed + 1;
        let live_regs: u16 = live.live_regs_before(pc);
        let live_stack: u64 = live.live_stack_before(pc);
        let state: S = item.state;
        let cleaned: S = (domain.clean)(&state, live_regs, live_stack);
        assert(domain.cleans(live, pc as int, state, cleaned));
        let mut item_last_cp: Option<usize> = item.last_cp;
        let ghost mut stored = false;
        let ghost insns0 = insn_processed - prev_insn_processed;
        let ghost jmps0 = jmps_processed - prev_jmps_processed;
        if prune_points[at] {
            let insns: usize = insn_processed - prev_insn_processed;
            let jmps: usize = jmps_processed - prev_jmps_processed;
            let due: bool = is_store_due(insns, jmps);
            let throttled: bool = is_store_throttled(insns, jmps);
            let ghost list0 = visited@[at as int]@;
            proof {
                assert(list_ok(list0, at as int, log, origin));
                assert(m.lists[at as int] == list0);
                assert(due == run::due_now(program@, log));
                assert(throttled == run::throttled_now(program@, log));
            }
            match compare(
                domain,
                live_regs,
                &mut checkpoints,
                &visited[at],
                &cleaned,
                due,
                throttled,
            ) {
                Arrival::Looping => {
                    let e: VerificationFailure = failure(
                        pc,
                        "infinite loop detected at insn ",
                        at,
                        "",
                    );
                    proof {
                        let j = choose|j: int|
                            0 <= j < list0.len() && domain.passes_first(
                                live_regs,
                                cps0,
                                list0,
                                cleaned,
                                j,
                            ) && domain.repeats(
                                live_regs,
                                cps0[(#[trigger] list0[j]) as int],
                                cleaned,
                            );
                        assert(domain.is_stuck(program@, live, m, cleaned, j));
                        assert(domain.stops(program@, loop_heads@, *limits, live, log, m, e));
                    }
                    return Err(e);
                },
                Arrival::Covered { cp } => {
                    let ghost compared = checkpoints@;
                    let ghost covering = choose|j: int|
                        0 <= j < list0.len() && domain.passes_first(
                            live_regs,
                            cps0,
                            list0,
                            cleaned,
                            j,
                        ) && domain.settles(live_regs, cps0[(#[trigger] list0[j]) as int], cleaned)
                            && list0[j] == cp && compared == run::with_hit(
                            run::tally(cps0, list0, due, throttled, j),
                            cp as int,
                        );
                    proof {
                        lemma_parents_extend(cps0, compared);
                        lemma_chain_counted(cps0, compared, work0);
                    }
                    drop_branch(&mut checkpoints, item.last_cp);
                    proof {
                        lemma_popped(cps0, compared, checkpoints@, work0);
                        lemma_extends_trans(cps0, compared, checkpoints@);
                        let by = origin[cp as int];
                        assert(origin_ok(*domain, live, cps0[cp as int].state, log, by));
                        assert(list0[covering] < origin.len() && log[origin[list0[covering] as int]].pc
                            == at);
                        let v = Visit {
                            pc,
                            state,
                            outcome: Outcome::<S>::Pruned { by },
                            stored: false,
                        };
                        let all = log.push(v);
                        let none = Seq::<WorkItem<S>>::empty();
                        assert(work0.drop_last() + none =~= work0.drop_last());
                        assert(domain.settles(live_regs, cps0[list0[covering] as int], cleaned));
                        lemma_pruned_visit(
                            *domain,
                            program@,
                            live,
                            log,
                            work0.drop_last() + none,
                            v,
                            by,
                            cps0[cp as int].state,
                            cleaned,
                        );
                        lemma_all_ok_popped(*domain, program@, live, log, work0, v, none);
                        lemma_remembered_states(
                            *domain,
                            live,
                            cps0,
                            checkpoints@,
                            log,
                            origin,
                        );
                        lemma_log_grows(
                            *domain,
                            live,
                            checkpoints@,
                            log,
                            origin,
                            visited@,
                            v,
                        );
                        lemma_records_pruned(
                            *domain,
                            live,
                            log,
                            analyzed@,
                            loop_iters@,
                            loop_heads@,
                            *limits,
                            v,
                        );
                        assert(all[log.len() as int] == v);
                        lemma_store_rule(program@, log, v);
                        lemma_counters(program@, log, v);
                        let b = run::Moment {
                            work: worklist@,
                            cps: checkpoints@,
                            lists: m.lists,
                        };
                        domain.lemma_run_pruned(
                            program@,
                            loop_heads@,
                            *limits,
                            live,
                            log,
                            moments,
                            v,
                            b,
                            cleaned,
                            covering,
                        );
                        moments = moments.push(b);
                        log = all;
                    }
                    continue;
                },
                Arrival::New { store, evict } => {
                    let mut list: Vec<usize> = retain(&visited[at], &evict);
                    proof {
                        lemma_retained(visited@[at as int]@, evict@, list@, at as int, log, origin);
                    }
                    let ghost compared = checkpoints@;
                    proof {
                        lemma_parents_extend(cps0, compared);
                    }
                    if store {
                        let cp_idx: usize = checkpoints.len();
                        checkpoints.push(
                            Checkpoint {
                                state: cleaned,
                                parent: item.last_cp,
                                branches: 0,
                                hit_cnt: 0,
                                miss_cnt: 0,
                            },
                        );
                        list.push(cp_idx);
                        prev_insn_processed = insn_processed;
                        prev_jmps_processed = jmps_processed;
                        item_last_cp = Some(cp_idx);
                        proof {
                            stored = true;
                        }
                    }
                    visited.set(at, list);
                    proof {
                        assert(extends(cps0, checkpoints@));
                        assert(parents_ok(checkpoints@)) by {
                            assert forall|k: int| 0 <= k < checkpoints@.len() implies ((
                            #[trigger] checkpoints@[k]).parent matches Some(p) ==> p < k) by {
                                if k < compared.len() {
                                    assert(checkpoints@[k] == compared[k]);
                                }
                            }
                        }
                    }
                },
            }
        }
        let ghost cps1 = checkpoints@;
        let ghost iters0 = loop_iters@;
        proof {
            assert(domain.is_new(program@, live, log, m, cleaned, stored));
            assert(cps1 =~= domain.memory(program@, log, m, cleaned, stored));
            assert(lists_are(domain.lists(program@, log, m, stored), visited@));
        }
        if is_head(loop_heads, pc) {
            proof {
                lemma_visits_bound(log, pc as int);
            }
            let iters: usize = loop_iters[at];
            if iters >= limits.max_loop_iterations {
                let e: VerificationFailure = failure(
                    pc,
                    "back-edge exceeds max loops (",
                    limits.max_loop_iterations,
                    ") — the loop does not converge",
                );
                assert(domain.fails(program@, loop_heads@, *limits, log, m, stored, e));
                return Err(e);
            }
            loop_iters.set(at, iters + 1);
        }
        if checkpoints.len() > limits.max_states {
            let e: VerificationFailure = failure(
                pc,
                "verification complexity limit exceeded (max_states ",
                limits.max_states,
                ")",
            );
            assert(domain.fails(program@, loop_heads@, *limits, log, m, stored, e));
            return Err(e);
        }
        let ghost analyzed0 = analyzed@;
        analyzed[at].push(cleaned);
        if insn.is_control_flow() || matches!(insn, BpfInsn::Call { .. }) {
            jmps_processed = jmps_processed + 1;
        }
        let exits: bool = matches!(insn, BpfInsn::Exit);
        let mut next: Vec<(u32, S)> = Vec::new();
        if exits {
            match (domain.exit_value)(&state) {
                ExitValue::Uninit => {
                    let e: VerificationFailure = VerificationFailure::new(
                        pc,
                        "r0 is uninitialized at exit",
                    );
                    assert(domain.fails(program@, loop_heads@, *limits, log, m, stored, e));
                    return Err(e);
                },
                ExitValue::Other => {
                    let e: VerificationFailure = VerificationFailure::new(
                        pc,
                        "r0 is not a scalar value at exit",
                    );
                    assert(domain.fails(program@, loop_heads@, *limits, log, m, stored, e));
                    return Err(e);
                },
                ExitValue::Scalar => {},
            }
        } else {
            match (domain.successors)(pc, &insn, &state) {
                Ok(list) => {
                    next = list;
                },
                Err(e) => {
                    assert(domain.fails(program@, loop_heads@, *limits, log, m, stored, e));
                    return Err(e);
                },
            }
        }
        proof {
            lemma_chain_counted(cps0, cps1, work0);
        }
        drop_branch(&mut checkpoints, item.last_cp);
        let ghost cps2 = checkpoints@;
        proof {
            lemma_popped(cps0, cps1, cps2, work0);
            lemma_extends_trans(cps0, cps1, cps2);
        }
        push_paths(&mut worklist, &mut checkpoints, &next, item_last_cp);
        proof {
            lemma_extends_trans(cps1, cps2, checkpoints@);
            let more = paths(next@, item_last_cp);
            let outcome = if exits {
                Outcome::<S>::Exited
            } else {
                Outcome::<S>::Expanded { next: next@ }
            };
            let v = Visit { pc, state, outcome, stored };
            let all = log.push(v);
            assert(all[log.len() as int] == v);
            if exits {
                assert(more =~= Seq::<WorkItem<S>>::empty());
            } else {
                assert(domain.leads_to(pc, program@[pc as int], state, next@));
                assert forall|j: int| 0 <= j < next@.len() implies met(
                    all,
                    worklist@,
                    (#[trigger] next@[j]).0,
                    next@[j].1,
                ) by {
                    let w = work0.len() - 1 + (next@.len() - 1 - j);
                    assert(worklist@[w] == more[next@.len() - 1 - j]);
                }
            }
            assert(worklist@ == work0.drop_last() + more);
            assert(visit_ok(*domain, program@, live, all, worklist@, log.len() as int));
            lemma_all_ok_popped(*domain, program@, live, log, work0, v, more);
            lemma_records_kept(
                *domain,
                live,
                log,
                analyzed0,
                iters0,
                loop_heads@,
                *limits,
                v,
                cleaned,
                analyzed@,
                loop_iters@,
            );
            if stored {
                let k = cps0.len() as int;
                assert(cps1[k].state == cleaned);
                assert(cps1[k].parent == checkpoints@[k].parent);
            }
            lemma_stored(
                *domain,
                live,
                cps0,
                checkpoints@,
                log,
                origin,
                visited@,
                v,
                cleaned,
                stored,
            );
            let last = last_stored(log, log.len() as int);
            assert(store_rule(program@, all, log.len() as int)) by {
                lemma_counts_prefix(program@, log, v, log.len() as int);
                lemma_counts_prefix(program@, log, v, last);
                assert(insns0 == log.len() - last);
                assert(jmps0 == jumps(program@, log, log.len() as int) - jumps(
                    program@,
                    log,
                    last,
                ));
            }
            lemma_store_rule(program@, log, v);
            lemma_counters(program@, log, v);
            assert(is_jump(program@[pc as int]) == (insn is Exit || insn is Jmp
                || insn.is_compare() || insn is Call));
            let b = run::Moment {
                work: worklist@,
                cps: checkpoints@,
                lists: domain.lists(program@, log, m, stored),
            };
            assert(work0.drop_last() + Seq::<WorkItem<S>>::empty() =~= work0.drop_last());
            domain.lemma_run_new(
                program@,
                loop_heads@,
                *limits,
                live,
                log,
                moments,
                v,
                b,
                cleaned,
            );
            moments = moments.push(b);
            if stored {
                origin = origin.push(log.len() as int);
            }
            log = all;
        }
    }
    proof {
        assert(worklist@ =~= Seq::<WorkItem<S>>::empty());
        assert forall|pc: u32| #[trigger] loop_heads@.contains(pc) && pc < program@.len() implies
            visits(log, pc as int) <= limits.max_loop_iterations by {
            assert(loop_iters@[pc as int] == visits(log, pc as int));
        }
        assert(explored(*domain, program@, loop_heads@, *limits, live, log));
    }
    Ok((checkpoints.len(), analyzed))
}

/// The counters behind one more arrival.
proof fn lemma_counters<S>(program: Seq<BpfInsn>, log: Seq<Visit<S>>, v: Visit<S>)
    ensures
        ({
            let all = log.push(v);
            let n = log.len() as int;
            let last = last_stored(log, n);
            &&& jumps(program, all, n + 1) == jumps(program, log, n) + (if !(v.outcome is Pruned)
                && is_jump(program[v.pc as int]) {
                1nat
            } else {
                0nat
            })
            &&& last_stored(all, n + 1) == if v.stored {
                n
            } else {
                last
            }
            &&& jumps(program, all, n) == jumps(program, log, n)
            &&& jumps(program, all, last) == jumps(program, log, last)
            &&& jumps(program, log, last) <= jumps(program, log, n)
            &&& last < n
        }),
{
    let n = log.len() as int;
    let last = last_stored(log, n);
    lemma_counts_prefix(program, log, v, n);
    lemma_counts_prefix(program, log, v, last);
    lemma_jumps_grow(program, log, last, n);
    assert(log.push(v)[n] == v);
}

proof fn lemma_jumps_grow<S>(program: Seq<BpfInsn>, log: Seq<Visit<S>>, a: int, b: int)
    requires
        a <= b,
    ensures
        jumps(program, log, a) <= jumps(program, log, b),
    decreases b - a,
{
    if a < b {
        lemma_jumps_grow(program, log, a, b - 1);
    }
}

/// There are at most as many visits as arrivals.
proof fn lemma_visits_bound<S>(log: Seq<Visit<S>>, pc: int)
    ensures
        visits(log, pc) <= log.len(),
    decreases log.len(),
{
    if log.len() > 0 {
        lemma_visits_bound(log.drop_last(), pc);
    }
}

/// An arrival that an earlier visit covers is accounted for.
proof fn lemma_pruned_visit<
    S: Copy,
    C: Fn(&S, u16, u64) -> S,
    L: Fn(&S, &S) -> bool,
    Q: Fn(&S, &S, ExactLevel, u16) -> bool,
    N: Fn(u32, &BpfInsn, &S) -> Result<Vec<(u32, S)>, VerificationFailure>,
    R: Fn(&S) -> ExitValue,
>(
    domain: Domain<S, C, L, Q, N, R>,
    program: Seq<BpfInsn>,
    live: Liveness,
    log: Seq<Visit<S>>,
    work: Seq<WorkItem<S>>,
    v: Visit<S>,
    by: int,
    a: S,
    b: S,
)
    requires
        v.pc < program.len(),
        v.outcome == (Outcome::<S>::Pruned { by }),
        origin_ok(domain, live, a, log, by),
        log[by].pc == v.pc,
        domain.cleans(live, v.pc as int, v.state, b),
        domain.covers(live, v.pc as int, a, b),
    ensures
        visit_ok(domain, program, live, log.push(v), work, log.len() as int),
{
    let all = log.push(v);
    let i = log.len() as int;
    assert(all[by] == log[by]);
    assert(all[i] == v);
    assert(domain.cleans(live, all[i].pc as int, all[by].state, a));
    assert(domain.cleans(live, all[i].pc as int, all[i].state, b));
    assert(pruned_rightly(domain, live, all, i, by));
}

/// The same states stay remembered.
proof fn lemma_remembered_states<
    S: Copy,
    C: Fn(&S, u16, u64) -> S,
    L: Fn(&S, &S) -> bool,
    Q: Fn(&S, &S, ExactLevel, u16) -> bool,
    N: Fn(u32, &BpfInsn, &S) -> Result<Vec<(u32, S)>, VerificationFailure>,
    R: Fn(&S) -> ExitValue,
>(
    domain: Domain<S, C, L, Q, N, R>,
    live: Liveness,
    a: Seq<Checkpoint<S>>,
    b: Seq<Checkpoint<S>>,
    log: Seq<Visit<S>>,
    origin: Seq<int>,
)
    requires
        remembered(domain, live, a, log, origin),
        extends(a, b),
        a.len() == b.len(),
    ensures
        remembered(domain, live, b, log, origin),
{
    assert forall|k: int| 0 <= k < b.len() implies origin_ok(
        domain,
        live,
        b[k].state,
        log,
        #[trigger] origin[k],
    ) by {
        assert(origin_ok(domain, live, a[k].state, log, origin[k]));
        assert(a[k].state == b[k].state);
    }
}

/// A list without some entries is still one of its place.
proof fn lemma_retained<S>(
    list: Seq<usize>,
    evict: Seq<usize>,
    out: Seq<usize>,
    pc: int,
    log: Seq<Visit<S>>,
    origin: Seq<int>,
)
    requires
        list_ok(list, pc, log, origin),
        out == list.filter(|x: usize| !evict.contains(x)),
    ensures
        list_ok(out, pc, log, origin),
{
    let keep = |x: usize| !evict.contains(x);
    assert forall|j: int| 0 <= j < out.len() implies (#[trigger] out[j]) < origin.len()
        && log[origin[out[j] as int]].pc == pc by {
        list.lemma_filter_contains_rev(keep, out[j]);
        let k = choose|k: int| 0 <= k < list.len() && list[k] == out[j];
        assert(list[k] < origin.len() && log[origin[list[k] as int]].pc == pc);
    }
}

/// The visit is remembered, where it was stored.
proof fn lemma_stored<
    S: Copy,
    C: Fn(&S, u16, u64) -> S,
    L: Fn(&S, &S) -> bool,
    Q: Fn(&S, &S, ExactLevel, u16) -> bool,
    N: Fn(u32, &BpfInsn, &S) -> Result<Vec<(u32, S)>, VerificationFailure>,
    R: Fn(&S) -> ExitValue,
>(
    domain: Domain<S, C, L, Q, N, R>,
    live: Liveness,
    a: Seq<Checkpoint<S>>,
    b: Seq<Checkpoint<S>>,
    log: Seq<Visit<S>>,
    origin: Seq<int>,
    visited: Seq<Vec<usize>>,
    v: Visit<S>,
    cleaned: S,
    stored: bool,
)
    requires
        remembered(domain, live, a, log, origin),
        extends(a, b),
        b.len() == a.len() + (if stored {
            1int
        } else {
            0
        }),
        stored ==> b[a.len() as int].state == cleaned,
        !(v.outcome is Pruned),
        domain.cleans(live, v.pc as int, v.state, cleaned),
        forall|pc: int|
            0 <= pc < visited.len() ==> list_or_new(
                (#[trigger] visited[pc])@,
                pc,
                log,
                origin,
                stored && pc == v.pc,
            ),
    ensures
        remembered(
            domain,
            live,
            b,
            log.push(v),
            if stored {
                origin.push(log.len() as int)
            } else {
                origin
            },
        ),
        lists_ok(
            visited,
            log.push(v),
            if stored {
                origin.push(log.len() as int)
            } else {
                origin
            },
        ),
{
    let all = log.push(v);
    let o = if stored { origin.push(log.len() as int) } else { origin };
    assert forall|k: int| 0 <= k < b.len() implies origin_ok(
        domain,
        live,
        b[k].state,
        all,
        #[trigger] o[k],
    ) by {
        if k < a.len() {
            assert(origin_ok(domain, live, a[k].state, log, origin[k]));
            assert(o[k] == origin[k]);
            assert(all[o[k]] == log[o[k]]);
            assert(a[k].state == b[k].state);
        } else {
            assert(all[log.len() as int] == v);
        }
    }
    assert forall|pc: int| 0 <= pc < visited.len() implies list_ok(
        (#[trigger] visited[pc])@,
        pc,
        all,
        o,
    ) by {
        let list = visited[pc]@;
        assert(list_or_new(list, pc, log, origin, stored && pc == v.pc));
        assert forall|j: int| 0 <= j < list.len() implies (#[trigger] list[j]) < o.len()
            && all[o[list[j] as int]].pc == pc by {
            let k = list[j] as int;
            if k < origin.len() {
                assert(log[origin[k]].pc == pc);
                assert(origin_ok(domain, live, a[k].state, log, origin[k]));
                assert(all[o[k]] == log[o[k]]);
            } else {
                assert(all[log.len() as int] == v);
            }
        }
    }
}

/// The list of a place, in which the state that is being stored may stand.
spec fn list_or_new<S>(
    list: Seq<usize>,
    pc: int,
    log: Seq<Visit<S>>,
    origin: Seq<int>,
    fresh: bool,
) -> bool {
    forall|j: int|
        0 <= j < list.len() ==> ((#[trigger] list[j]) < origin.len() && log[origin[list[j] as int]].pc
            == pc) || (fresh && list[j] == origin.len())
}

/// Path-sensitive verification with the default limits. `loop_heads` are the
/// targets of back edges. The result is the number of remembered states.
pub fn verify_mini<
    S: Copy,
    C: Fn(&S, u16, u64) -> S,
    L: Fn(&S, &S) -> bool,
    Q: Fn(&S, &S, ExactLevel, u16) -> bool,
    N: Fn(u32, &BpfInsn, &S) -> Result<Vec<(u32, S)>, VerificationFailure>,
    R: Fn(&S) -> ExitValue,
>(
    program: &[BpfInsn],
    loop_heads: &[u32],
    domain: &Domain<S, C, L, Q, N, R>,
) -> (r: Result<usize, VerificationFailure>)
    requires
        program@.len() <= u32::MAX,
        forall|i: int| 0 <= i < program@.len() ==> (#[trigger] program@[i]).regs_valid(),
        domain.callable(),
    ensures
        match r {
            Ok(count) => exists|live: Liveness, log: Seq<Visit<S>>|
                liveness::is_liveness(program@, live) && #[trigger] explored(
                    *domain,
                    program@,
                    loop_heads@,
                    default_limits(),
                    live,
                    log,
                ) && count == stored_count(log) && count <= default_limits().max_states,
            Err(e) => rejects(*domain, program@, loop_heads@, default_limits(), e),
        },
{
    let limits: VerifierLimits = VerifierLimits::default();
    assert(limits == default_limits());
    verify_mini_with_limits(program, loop_heads, &limits, domain)
}

/// The default limits.
pub open spec fn default_limits() -> VerifierLimits {
    VerifierLimits { max_states: 1024, max_steps: 100_000, max_loop_iterations: 256 }
}

/// [`verify_mini`] with explicit limits.
pub fn verify_mini_with_limits<
    S: Copy,
    C: Fn(&S, u16, u64) -> S,
    L: Fn(&S, &S) -> bool,
    Q: Fn(&S, &S, ExactLevel, u16) -> bool,
    N: Fn(u32, &BpfInsn, &S) -> Result<Vec<(u32, S)>, VerificationFailure>,
    R: Fn(&S) -> ExitValue,
>(
    program: &[BpfInsn],
    loop_heads: &[u32],
    limits: &VerifierLimits,
    domain: &Domain<S, C, L, Q, N, R>,
) -> (r: Result<usize, VerificationFailure>)
    requires
        program@.len() <= u32::MAX,
        forall|i: int| 0 <= i < program@.len() ==> (#[trigger] program@[i]).regs_valid(),
        domain.callable(),
    ensures
        match r {
            Ok(count) => exists|live: Liveness, log: Seq<Visit<S>>|
                liveness::is_liveness(program@, live) && #[trigger] explored(
                    *domain,
                    program@,
                    loop_heads@,
                    *limits,
                    live,
                    log,
                ) && count == stored_count(log) && count <= limits.max_states,
            Err(e) => rejects(*domain, program@, loop_heads@, *limits, e),
        },
{
    match verify_mini_core(program, loop_heads, limits, domain) {
        Ok((count, _)) => Ok(count),
        Err(e) => Err(e),
    }
}

/// [`verify_mini_with_limits`] that also returns the abstract states that were
/// analyzed at each instruction, cleaned to what is live there.
pub fn verify_mini_with_states<
    S: Copy,
    C: Fn(&S, u16, u64) -> S,
    L: Fn(&S, &S) -> bool,
    Q: Fn(&S, &S, ExactLevel, u16) -> bool,
    N: Fn(u32, &BpfInsn, &S) -> Result<Vec<(u32, S)>, VerificationFailure>,
    R: Fn(&S) -> ExitValue,
>(
    program: &[BpfInsn],
    loop_heads: &[u32],
    limits: &VerifierLimits,
    domain: &Domain<S, C, L, Q, N, R>,
) -> (r: Result<(usize, Vec<Vec<S>>), VerificationFailure>)
    requires
        program@.len() <= u32::MAX,
        forall|i: int| 0 <= i < program@.len() ==> (#[trigger] program@[i]).regs_valid(),
        domain.callable(),
    ensures
        match r {
            Ok((count, analyzed)) => exists|live: Liveness, log: Seq<Visit<S>>|
                liveness::is_liveness(program@, live) && #[trigger] explored(
                    *domain,
                    program@,
                    loop_heads@,
                    *limits,
                    live,
                    log,
                ) && count == stored_count(log) && count <= limits.max_states && analyzed@.len() == program@.len() && forall|
                    pc: int,
                |
                    0 <= pc < analyzed@.len() ==> is_record(
                        *domain,
                        live,
                        log,
                        pc,
                        (#[trigger] analyzed@[pc])@,
                    ),
            Err(e) => rejects(*domain, program@, loop_heads@, *limits, e),
        },
{
    verify_mini_core(program, loop_heads, limits, domain)
}

// ── Laws ────────────────────────────────────────────────────────────────────

/// A remembered state has no pending paths below it exactly when its count is
/// zero: then it is fully explored.
pub proof fn explored_when_count_is_zero<S>(
    cps: Seq<Checkpoint<S>>,
    work: Seq<WorkItem<S>>,
    k: int,
)
    requires
        counts_ok(cps, work),
        0 <= k < cps.len(),
    ensures
        (cps[k].branches == 0) == (forall|w: int|
            0 <= w < work.len() ==> !on_chain(cps, (#[trigger] work[w]).last_cp, k)),
{
    assert(cps[k].branches == pending(cps, work, k));
    lemma_pending_zero(cps, work, k);
}

proof fn lemma_pending_zero<S>(cps: Seq<Checkpoint<S>>, work: Seq<WorkItem<S>>, k: int)
    ensures
        (pending(cps, work, k) == 0) == (forall|w: int|
            0 <= w < work.len() ==> !on_chain(cps, (#[trigger] work[w]).last_cp, k)),
    decreases work.len(),
{
    if work.len() > 0 {
        let rest = work.drop_last();
        lemma_pending_zero(cps, rest, k);
        if pending(cps, work, k) == 0 {
            assert forall|w: int| 0 <= w < work.len() implies !on_chain(
                cps,
                (#[trigger] work[w]).last_cp,
                k,
            ) by {
                if w < rest.len() {
                    assert(rest[w] == work[w]);
                }
            }
        } else if on_chain(cps, work.last().last_cp, k) {
            assert(on_chain(cps, work[work.len() - 1].last_cp, k));
        } else {
            let w = choose|w: int|
                0 <= w < rest.len() && on_chain(cps, (#[trigger] rest[w]).last_cp, k);
            assert(work[w] == rest[w]);
        }
    }
}

/// Whatever was explored, every state behind an arrival that was not pruned
/// was arrived at too: nothing is left out.
pub proof fn exploration_is_closed<
    S: Copy,
    C: Fn(&S, u16, u64) -> S,
    L: Fn(&S, &S) -> bool,
    Q: Fn(&S, &S, ExactLevel, u16) -> bool,
    N: Fn(u32, &BpfInsn, &S) -> Result<Vec<(u32, S)>, VerificationFailure>,
    R: Fn(&S) -> ExitValue,
>(
    domain: Domain<S, C, L, Q, N, R>,
    program: Seq<BpfInsn>,
    loop_heads: Seq<u32>,
    limits: VerifierLimits,
    live: Liveness,
    log: Seq<Visit<S>>,
    i: int,
    next: Seq<(u32, S)>,
    j: int,
)
    requires
        explored(domain, program, loop_heads, limits, live, log),
        0 <= i < log.len(),
        log[i].outcome == (Outcome::Expanded { next }),
        0 <= j < next.len(),
    ensures
        next[j].0 < program.len(),
        exists|k: int|
            0 <= k < log.len() && (#[trigger] log[k]).pc == next[j].0 && log[k].state == next[j].1,
{
    let none = Seq::<WorkItem<S>>::empty();
    assert(visit_ok(domain, program, live, log, none, i));
    assert(met(log, none, next[j].0, next[j].1));
    let k = choose|k: int|
        0 <= k < log.len() && (#[trigger] log[k]).pc == next[j].0 && log[k].state == next[j].1;
    assert(visit_ok(domain, program, live, log, none, k));
}

} // verus!
