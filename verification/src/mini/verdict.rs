//! The verdict of an exploration is determined by the program, the limits and
//! the domain.

use vstd::prelude::*;

use super::run::Moment;
use super::{Checkpoint, Domain, ExactLevel, ExitValue, Outcome, VerifierLimits, Visit, WorkItem};

use crate::error::VerificationFailure;
use crate::insn::BpfInsn;
use crate::liveness;
use crate::liveness::Liveness;

verus! {

/// The two reasons are the same.
pub open spec fn same_failure(a: VerificationFailure, b: VerificationFailure) -> bool {
    a.insn_idx == b.insn_idx && a.message@ == b.message@
}

/// The two arrivals are the same, but for which visit covers a pruned one.
pub open spec fn same_visit<S>(a: Visit<S>, b: Visit<S>) -> bool {
    &&& a.pc == b.pc
    &&& a.state == b.state
    &&& a.stored == b.stored
    &&& match (a.outcome, b.outcome) {
        (Outcome::Pruned { .. }, Outcome::Pruned { .. }) => true,
        (Outcome::Exited, Outcome::Exited) => true,
        (Outcome::Expanded { next }, Outcome::Expanded { next: other }) => next == other,
        _ => false,
    }
}

/// The same arrivals.
pub open spec fn same_log<S>(a: Seq<Visit<S>>, b: Seq<Visit<S>>) -> bool {
    a.len() == b.len() && forall|i: int| 0 <= i < a.len() ==> same_visit(#[trigger] a[i], b[i])
}

/// The same masks.
spec fn same_masks(a: Liveness, b: Liveness) -> bool {
    forall|pc: int| #[trigger]
        a.regs_mask(pc) == b.regs_mask(pc) && a.slots_mask(pc) == b.slots_mask(pc)
}

// ── Masks ───────────────────────────────────────────────────────────────────

proof fn lemma_regs_equal(a: u16, b: u16, r: u16)
    requires
        r <= 16,
        forall|k: int| 0 <= k < 16 ==> #[trigger] liveness::bit16(a, k) == liveness::bit16(b, k),
    ensures
        a >> r == b >> r,
    decreases 16 - r,
{
    if r < 16 {
        let n: u16 = (r + 1) as u16;
        lemma_regs_equal(a, b, n);
        assert(liveness::bit16(a, r as int) == liveness::bit16(b, r as int));
        assert(a >> r == b >> r) by (bit_vector)
            requires
                r < 16,
                n == r + 1,
                a >> n == b >> n,
                ((a >> r) & 1 == 1) == ((b >> r) & 1 == 1),
        ;
    } else {
        assert(a >> 16u16 == b >> 16u16) by (bit_vector);
    }
}

proof fn lemma_slots_equal(a: u64, b: u64, r: u64)
    requires
        r <= 64,
        forall|k: int| 0 <= k < 64 ==> #[trigger] liveness::bit64(a, k) == liveness::bit64(b, k),
    ensures
        a >> r == b >> r,
    decreases 64 - r,
{
    if r < 64 {
        let n: u64 = (r + 1) as u64;
        lemma_slots_equal(a, b, n);
        assert(liveness::bit64(a, r as int) == liveness::bit64(b, r as int));
        assert(a >> r == b >> r) by (bit_vector)
            requires
                r < 64,
                n == r + 1,
                a >> n == b >> n,
                ((a >> r) & 1 == 1) == ((b >> r) & 1 == 1),
        ;
    } else {
        assert(a >> 64u64 == b >> 64u64) by (bit_vector);
    }
}

/// A program has one liveness.
proof fn lemma_same_masks(program: Seq<BpfInsn>, a: Liveness, b: Liveness)
    requires
        liveness::is_liveness(program, a),
        liveness::is_liveness(program, b),
    ensures
        same_masks(a, b),
{
    assert forall|pc: int| #[trigger]
        a.regs_mask(pc) == b.regs_mask(pc) && a.slots_mask(pc) == b.slots_mask(pc) by {
        if 0 <= pc < program.len() {
            let (x, y) = (a.regs_mask(pc), b.regs_mask(pc));
            assert forall|r: int| 0 <= r < 16 implies #[trigger] liveness::bit16(x, r)
                == liveness::bit16(y, r) by {}
            lemma_regs_equal(x, y, 0);
            let (u, v) = (a.slots_mask(pc), b.slots_mask(pc));
            assert forall|k: int| 0 <= k < 64 implies #[trigger] liveness::bit64(u, k)
                == liveness::bit64(v, k) by {}
            lemma_slots_equal(u, v, 0);
            assert(x >> 0u16 == x && y >> 0u16 == y && u >> 0u64 == u && v >> 0u64 == v)
                by (bit_vector);
        } else {
            assert(a.regs_mask(pc) == 0 && a.slots_mask(pc) == 0);
            assert(b.regs_mask(pc) == 0 && b.slots_mask(pc) == 0);
        }
    }
}

// ── Logs ────────────────────────────────────────────────────────────────────

/// The counters see no difference between the same arrivals.
proof fn lemma_same_counters<S>(
    program: Seq<BpfInsn>,
    a: Seq<Visit<S>>,
    b: Seq<Visit<S>>,
    i: int,
)
    requires
        same_log(a, b),
        i <= a.len(),
    ensures
        super::jumps(program, a, i) == super::jumps(program, b, i),
        super::last_stored(a, i) == super::last_stored(b, i),
        super::last_stored(a, i) <= a.len(),
    decreases i,
{
    if i > 0 {
        lemma_same_counters(program, a, b, i - 1);
        assert(same_visit(a[i - 1], b[i - 1]));
    }
}

proof fn lemma_same_visits<S>(a: Seq<Visit<S>>, b: Seq<Visit<S>>, pc: int)
    requires
        same_log(a, b),
    ensures
        super::visits(a, pc) == super::visits(b, pc),
        super::stored_count(a) == super::stored_count(b),
    decreases a.len(),
{
    if a.len() > 0 {
        assert(same_visit(a[a.len() - 1], b[b.len() - 1]));
        assert forall|i: int| 0 <= i < a.drop_last().len() implies same_visit(
            #[trigger] a.drop_last()[i],
            b.drop_last()[i],
        ) by {
            assert(same_visit(a[i], b[i]));
        }
        lemma_same_visits(a.drop_last(), b.drop_last(), pc);
    }
}

proof fn lemma_same_due<S>(program: Seq<BpfInsn>, a: Seq<Visit<S>>, b: Seq<Visit<S>>)
    requires
        same_log(a, b),
    ensures
        super::run::due_now(program, a) == super::run::due_now(program, b),
        super::run::throttled_now(program, a) == super::run::throttled_now(program, b),
{
    let n = a.len() as int;
    lemma_same_counters(program, a, b, n);
    lemma_same_counters(program, a, b, super::last_stored(a, n));
}

// ── Counts ──────────────────────────────────────────────────────────────────

proof fn lemma_same_chain<S>(
    a: Seq<Checkpoint<S>>,
    b: Seq<Checkpoint<S>>,
    last: Option<usize>,
    k: int,
)
    requires
        super::run::same_memory(a, b),
    ensures
        super::on_chain(a, last, k) == super::on_chain(b, last, k),
    decreases (if last is Some { last->0 + 1 } else { 0 }),
{
    if let Some(i) = last {
        if i < a.len() {
            assert(a[i as int].parent == b[i as int].parent);
            if a[i as int].parent matches Some(p) ==> p < i {
                lemma_same_chain(a, b, a[i as int].parent, k);
            }
        }
    }
}

proof fn lemma_same_pending<S>(
    a: Seq<Checkpoint<S>>,
    b: Seq<Checkpoint<S>>,
    work: Seq<WorkItem<S>>,
    k: int,
)
    requires
        super::run::same_memory(a, b),
    ensures
        super::pending(a, work, k) == super::pending(b, work, k),
    decreases work.len(),
{
    if work.len() > 0 {
        lemma_same_pending(a, b, work.drop_last(), k);
        lemma_same_chain(a, b, work.last().last_cp, k);
    }
}

/// The memory and the pending paths determine the counts.
proof fn lemma_same_states<S>(
    x: Seq<Checkpoint<S>>,
    a: Seq<Checkpoint<S>>,
    b: Seq<Checkpoint<S>>,
    work: Seq<WorkItem<S>>,
)
    requires
        super::run::same_memory(x, a),
        super::run::same_memory(x, b),
        super::counts_ok(a, work),
        super::counts_ok(b, work),
    ensures
        a == b,
{
    assert(super::run::same_memory(a, b));
    assert forall|k: int| 0 <= k < a.len() implies a[k] == b[k] by {
        lemma_same_pending(a, b, work, k);
        assert(a[k].branches == super::pending(a, work, k));
        assert(b[k].branches == super::pending(b, work, k));
        assert(b[k].state == a[k].state);
    }
    assert(a =~= b);
}

// ── Steps ───────────────────────────────────────────────────────────────────

impl<
    S: Copy,
    C: Fn(&S, u16, u64) -> S,
    L: Fn(&S, &S) -> bool,
    Q: Fn(&S, &S, ExactLevel, u16) -> bool,
    N: Fn(u32, &BpfInsn, &S) -> Result<Vec<(u32, S)>, VerificationFailure>,
    R: Fn(&S) -> ExitValue,
> Domain<S, C, L, Q, N, R> {
    /// Every operation has one result for the same arguments.
    pub open spec fn is_function(&self) -> bool {
        &&& forall|s: &S, r: u16, k: u64, a: S, b: S| #[trigger]
            call_ensures(self.clean, (s, r, k), a) && #[trigger] call_ensures(
                self.clean,
                (s, r, k),
                b,
            ) ==> a == b
        &&& forall|s: &S, t: &S, a: bool, b: bool| #[trigger]
            call_ensures(self.maybe_looping, (s, t), a) && #[trigger] call_ensures(
                self.maybe_looping,
                (s, t),
                b,
            ) ==> a == b
        &&& forall|s: &S, t: &S, x: ExactLevel, r: u16, a: bool, b: bool| #[trigger]
            call_ensures(self.equal, (s, t, x, r), a) && #[trigger] call_ensures(
                self.equal,
                (s, t, x, r),
                b,
            ) ==> a == b
        &&& forall|s: &S, a: ExitValue, b: ExitValue| #[trigger]
            call_ensures(self.exit_value, (s,), a) && #[trigger] call_ensures(
                self.exit_value,
                (s,),
                b,
            ) ==> a == b
        &&& forall|
            pc: u32,
            i: &BpfInsn,
            s: &S,
            a: Result<Vec<(u32, S)>, VerificationFailure>,
            b: Result<Vec<(u32, S)>, VerificationFailure>,
        | #[trigger]
            call_ensures(self.successors, (pc, i, s), a) && #[trigger] call_ensures(
                self.successors,
                (pc, i, s),
                b,
            ) ==> match (a, b) {
                (Ok(x), Ok(y)) => x@ == y@,
                (Err(x), Err(y)) => same_failure(x, y),
                _ => false,
            }
    }

    /// A remembered state repeats, settles or passes, and only one of these.
    proof fn lemma_one_way(&self, regs: u16, cp: Checkpoint<S>, arrival: S)
        requires
            self.is_function(),
        ensures
            !(self.repeats(regs, cp, arrival) && self.settles(regs, cp, arrival)),
            !(self.passes(regs, cp, arrival) && self.settles(regs, cp, arrival)),
            !(self.passes(regs, cp, arrival) && self.repeats(regs, cp, arrival)),
    {
    }

    /// The comparison ends at one place in one way.
    proof fn lemma_one_place(
        &self,
        program: Seq<BpfInsn>,
        a: Liveness,
        b: Liveness,
        m: Moment<S>,
        c: S,
    )
        requires
            self.is_function(),
            same_masks(a, b),
        ensures
            forall|i: int, j: int| #[trigger]
                self.is_settled(program, a, m, c, i) && #[trigger] self.is_settled(
                    program,
                    b,
                    m,
                    c,
                    j,
                ) ==> i == j,
            forall|i: int, j: int|
                !(#[trigger] self.is_settled(program, a, m, c, i) && #[trigger] self.is_stuck(
                    program,
                    b,
                    m,
                    c,
                    j,
                )),
    {
        let pc = m.work.last().pc as int;
        let list = m.lists[pc];
        assert(a.regs_mask(pc) == b.regs_mask(pc));
        let regs = a.regs_mask(pc);
        assert forall|i: int, j: int| #[trigger]
            self.is_settled(program, a, m, c, i) && #[trigger] self.is_settled(
                program,
                b,
                m,
                c,
                j,
            ) implies i == j by {
            self.lemma_one_way(regs, m.cps[list[i] as int], c);
            self.lemma_one_way(regs, m.cps[list[j] as int], c);
        }
        assert forall|i: int, j: int|
            !(#[trigger] self.is_settled(program, a, m, c, i) && #[trigger] self.is_stuck(
                program,
                b,
                m,
                c,
                j,
            )) by {
            if self.is_settled(program, a, m, c, i) && self.is_stuck(program, b, m, c, j) {
                self.lemma_one_way(regs, m.cps[list[i] as int], c);
                self.lemma_one_way(regs, m.cps[list[j] as int], c);
            }
        }
    }

    /// A new arrival neither ends nor is stuck.
    proof fn lemma_new_is_new(
        &self,
        program: Seq<BpfInsn>,
        a: Liveness,
        b: Liveness,
        log: Seq<Visit<S>>,
        m: Moment<S>,
        c: S,
        stored: bool,
    )
        requires
            self.is_function(),
            same_masks(a, b),
            self.is_new(program, a, log, m, c, stored),
        ensures
            forall|j: int| !(#[trigger] self.is_settled(program, b, m, c, j)),
            forall|j: int| !(#[trigger] self.is_stuck(program, b, m, c, j)),
    {
        let pc = m.work.last().pc as int;
        let list = m.lists[pc];
        assert(a.regs_mask(pc) == b.regs_mask(pc));
        let regs = a.regs_mask(pc);
        assert forall|j: int| !(#[trigger] self.is_settled(program, b, m, c, j)) by {
            self.lemma_one_way(regs, m.cps[list[j] as int], c);
        }
        assert forall|j: int| !(#[trigger] self.is_stuck(program, b, m, c, j)) by {
            self.lemma_one_way(regs, m.cps[list[j] as int], c);
        }
    }

    /// A moment has one step.
    proof fn lemma_one_step(
        &self,
        program: Seq<BpfInsn>,
        loop_heads: Seq<u32>,
        limits: VerifierLimits,
        a: Liveness,
        b: Liveness,
        log: Seq<Visit<S>>,
        other: Seq<Visit<S>>,
        m: Moment<S>,
        v: Visit<S>,
        w: Visit<S>,
        x: Moment<S>,
        y: Moment<S>,
    )
        requires
            self.is_function(),
            same_masks(a, b),
            same_log(log, other),
            self.step(program, loop_heads, limits, a, log, m, v, x),
            self.step(program, loop_heads, limits, b, other, m, w, y),
        ensures
            same_visit(v, w),
            x == y,
    {
        let item = m.work.last();
        let pc = item.pc as int;
        assert(a.regs_mask(pc) == b.regs_mask(pc));
        lemma_same_due(program, log, other);
        let c = choose|c: S| #[trigger]
            self.cleans(a, pc, item.state, c) && if v.outcome is Pruned {
                exists|j: int| #[trigger] self.step_pruned(program, a, log, m, v, x, c, j)
            } else {
                self.step_new(program, loop_heads, limits, a, log, m, v, x, c)
            };
        let d = choose|c: S| #[trigger]
            self.cleans(b, pc, item.state, c) && if w.outcome is Pruned {
                exists|j: int| #[trigger] self.step_pruned(program, b, other, m, w, y, c, j)
            } else {
                self.step_new(program, loop_heads, limits, b, other, m, w, y, c)
            };
        assert(c == d);
        self.lemma_one_place(program, a, b, m, c);
        if v.outcome is Pruned {
            let i = choose|j: int| #[trigger] self.step_pruned(program, a, log, m, v, x, c, j);
            assert(self.is_settled(program, a, m, c, i));
            if !(w.outcome is Pruned) {
                self.lemma_new_is_new(program, b, a, other, m, c, w.stored);
            }
            let j = choose|j: int| #[trigger] self.step_pruned(program, b, other, m, w, y, c, j);
            assert(self.is_settled(program, b, m, c, j));
            let list = m.lists[pc];
            lemma_same_states(
                super::run::with_hit(
                    super::run::tally(
                        m.cps,
                        list,
                        super::run::due_now(program, log),
                        super::run::throttled_now(program, log),
                        j,
                    ),
                    list[j] as int,
                ),
                x.cps,
                y.cps,
                x.work,
            );
        } else {
            if w.outcome is Pruned {
                let j = choose|j: int| #[trigger]
                    self.step_pruned(program, b, other, m, w, y, c, j);
                assert(self.is_settled(program, b, m, c, j));
                self.lemma_new_is_new(program, a, b, log, m, c, v.stored);
            }
            assert(v.stored == w.stored);
            lemma_same_visits(log, other, pc);
            assert(x.work == y.work);
            assert(x.lists == y.lists);
            lemma_same_states(
                self.memory(program, log, m, c, v.stored),
                x.cps,
                y.cps,
                x.work,
            );
        }
    }

    /// A moment with a step is no place to stop.
    proof fn lemma_step_or_stop(
        &self,
        program: Seq<BpfInsn>,
        loop_heads: Seq<u32>,
        limits: VerifierLimits,
        a: Liveness,
        b: Liveness,
        log: Seq<Visit<S>>,
        other: Seq<Visit<S>>,
        m: Moment<S>,
        v: Visit<S>,
        x: Moment<S>,
        e: VerificationFailure,
    )
        requires
            self.is_function(),
            same_masks(a, b),
            same_log(log, other),
            self.step(program, loop_heads, limits, a, log, m, v, x),
        ensures
            !self.stops(program, loop_heads, limits, b, other, m, e),
    {
        if self.stops(program, loop_heads, limits, b, other, m, e) {
            let item = m.work.last();
            let pc = item.pc as int;
            assert(a.regs_mask(pc) == b.regs_mask(pc));
            lemma_same_due(program, log, other);
            lemma_same_visits(log, other, pc);
            let c = choose|c: S| #[trigger]
                self.cleans(a, pc, item.state, c) && if v.outcome is Pruned {
                    exists|j: int| #[trigger] self.step_pruned(program, a, log, m, v, x, c, j)
                } else {
                    self.step_new(program, loop_heads, limits, a, log, m, v, x, c)
                };
            assert(self.cleans(a, pc, item.state, c));
            let d = choose|c: S| #[trigger]
                self.cleans(b, pc, item.state, c) && ((exists|j: int| #[trigger]
                    self.is_stuck(program, b, m, c, j) && e.insn_idx == item.pc && e.message@
                        == super::counted("infinite loop detected at insn "@, pc, ""@)) || (exists|
                    stored: bool,
                | #[trigger]
                    self.is_new(program, b, other, m, c, stored) && self.fails(
                        program,
                        loop_heads,
                        limits,
                        other,
                        m,
                        stored,
                        e,
                    )));
            assert(c == d);
            if v.outcome is Pruned {
                let i = choose|j: int| #[trigger] self.step_pruned(program, a, log, m, v, x, c, j);
                assert(self.is_settled(program, a, m, c, i));
                self.lemma_one_place(program, a, b, m, c);
                if exists|stored: bool| #[trigger] self.is_new(program, b, other, m, c, stored) {
                    let stored = choose|stored: bool| #[trigger]
                        self.is_new(program, b, other, m, c, stored);
                    self.lemma_new_is_new(program, b, a, other, m, c, stored);
                }
            } else {
                self.lemma_new_is_new(program, a, b, log, m, c, v.stored);
                let stored = choose|stored: bool| #[trigger]
                    self.is_new(program, b, other, m, c, stored) && self.fails(
                        program,
                        loop_heads,
                        limits,
                        other,
                        m,
                        stored,
                        e,
                    );
                assert(stored == v.stored);
            }
        }
    }

    /// A moment stops for one reason.
    proof fn lemma_one_stop(
        &self,
        program: Seq<BpfInsn>,
        loop_heads: Seq<u32>,
        limits: VerifierLimits,
        a: Liveness,
        b: Liveness,
        log: Seq<Visit<S>>,
        other: Seq<Visit<S>>,
        m: Moment<S>,
        e: VerificationFailure,
        f: VerificationFailure,
    )
        requires
            self.is_function(),
            same_masks(a, b),
            same_log(log, other),
            self.stops(program, loop_heads, limits, a, log, m, e),
            self.stops(program, loop_heads, limits, b, other, m, f),
        ensures
            same_failure(e, f),
    {
        let item = m.work.last();
        let pc = item.pc as int;
        assert(a.regs_mask(pc) == b.regs_mask(pc));
        lemma_same_due(program, log, other);
        lemma_same_visits(log, other, pc);
        if log.len() < limits.max_steps && pc < program.len() {
            let c = choose|c: S| #[trigger]
                self.cleans(a, pc, item.state, c) && ((exists|j: int| #[trigger]
                    self.is_stuck(program, a, m, c, j) && e.insn_idx == item.pc && e.message@
                        == super::counted("infinite loop detected at insn "@, pc, ""@)) || (
                exists|stored: bool| #[trigger]
                    self.is_new(program, a, log, m, c, stored) && self.fails(
                        program,
                        loop_heads,
                        limits,
                        log,
                        m,
                        stored,
                        e,
                    )));
            let d = choose|c: S| #[trigger]
                self.cleans(b, pc, item.state, c) && ((exists|j: int| #[trigger]
                    self.is_stuck(program, b, m, c, j) && f.insn_idx == item.pc && f.message@
                        == super::counted("infinite loop detected at insn "@, pc, ""@)) || (
                exists|stored: bool| #[trigger]
                    self.is_new(program, b, other, m, c, stored) && self.fails(
                        program,
                        loop_heads,
                        limits,
                        other,
                        m,
                        stored,
                        f,
                    )));
            assert(c == d);
            if exists|stored: bool| #[trigger] self.is_new(program, a, log, m, c, stored) {
                let stored = choose|stored: bool| #[trigger]
                    self.is_new(program, a, log, m, c, stored);
                self.lemma_new_is_new(program, a, b, log, m, c, stored);
                self.lemma_new_is_new(program, a, a, log, m, c, stored);
            }
            if exists|stored: bool| #[trigger] self.is_new(program, b, other, m, c, stored) {
                let stored = choose|stored: bool| #[trigger]
                    self.is_new(program, b, other, m, c, stored);
                self.lemma_new_is_new(program, b, a, other, m, c, stored);
                self.lemma_new_is_new(program, b, b, other, m, c, stored);
            }
        }
    }

    /// Two runs agree as far as both go.
    proof fn lemma_runs_agree(
        &self,
        program: Seq<BpfInsn>,
        loop_heads: Seq<u32>,
        limits: VerifierLimits,
        a: Liveness,
        b: Liveness,
        log: Seq<Visit<S>>,
        other: Seq<Visit<S>>,
        ms: Seq<Moment<S>>,
        ns: Seq<Moment<S>>,
        n: int,
    )
        requires
            self.is_function(),
            same_masks(a, b),
            self.is_run(program, loop_heads, limits, a, log, ms),
            self.is_run(program, loop_heads, limits, b, other, ns),
            0 <= n <= log.len(),
            n <= other.len(),
        ensures
            same_log(log.take(n), other.take(n)),
            ms[n] == ns[n],
        decreases n,
    {
        if n > 0 {
            let i = n - 1;
            self.lemma_runs_agree(program, loop_heads, limits, a, b, log, other, ms, ns, i);
            assert(self.step_at(program, loop_heads, limits, a, log, ms, i));
            assert(self.step_at(program, loop_heads, limits, b, other, ns, i));
            self.lemma_one_step(
                program,
                loop_heads,
                limits,
                a,
                b,
                log.take(i),
                other.take(i),
                ms[i],
                log[i],
                other[i],
                ms[n],
                ns[n],
            );
            assert forall|k: int| 0 <= k < n implies same_visit(
                #[trigger] log.take(n)[k],
                other.take(n)[k],
            ) by {
                if k < i {
                    assert(same_visit(log.take(i)[k], other.take(i)[k]));
                }
            }
        }
    }
}

/// The verdict is determined: where every operation of the domain has one result
/// for the same arguments, a program that is explored is not rejected, two
/// explorations make the same arrivals and remember as many states, and two
/// rejections give the same reason.
pub proof fn verdict_is_determined<
    S: Copy,
    C: Fn(&S, u16, u64) -> S,
    L: Fn(&S, &S) -> bool,
    Q: Fn(&S, &S, ExactLevel, u16) -> bool,
    N: Fn(u32, &BpfInsn, &S) -> Result<Vec<(u32, S)>, VerificationFailure>,
    R: Fn(&S) -> ExitValue,
>(
    domain: Domain<S, C, L, Q, N, R>,
    program: Seq<BpfInsn>,
    loop_heads: Seq<u32>,
    limits: VerifierLimits,
)
    requires
        domain.is_function(),
    ensures
        forall|a: Liveness, b: Liveness, log: Seq<Visit<S>>, other: Seq<Visit<S>>|
            liveness::is_liveness(program, a) && liveness::is_liveness(program, b)
                && #[trigger] super::explored(domain, program, loop_heads, limits, a, log)
                && #[trigger] super::explored(domain, program, loop_heads, limits, b, other)
                ==> same_log(log, other) && super::stored_count(log) == super::stored_count(other),
        forall|a: Liveness, log: Seq<Visit<S>>, e: VerificationFailure|
            liveness::is_liveness(program, a) && #[trigger] super::explored(
                domain,
                program,
                loop_heads,
                limits,
                a,
                log,
            ) ==> !(#[trigger] super::rejects(domain, program, loop_heads, limits, e)),
        forall|e: VerificationFailure, f: VerificationFailure| #[trigger]
            super::rejects(domain, program, loop_heads, limits, e) && #[trigger] super::rejects(
                domain,
                program,
                loop_heads,
                limits,
                f,
            ) ==> same_failure(e, f),
{
    assert forall|a: Liveness, b: Liveness, log: Seq<Visit<S>>, other: Seq<Visit<S>>|
        liveness::is_liveness(program, a) && liveness::is_liveness(program, b)
            && #[trigger] super::explored(domain, program, loop_heads, limits, a, log)
            && #[trigger] super::explored(
            domain,
            program,
            loop_heads,
            limits,
            b,
            other,
        ) implies same_log(log, other) && super::stored_count(log) == super::stored_count(
        other,
    ) by {
        lemma_same_masks(program, a, b);
        let ms = choose|ms: Seq<Moment<S>>| #[trigger]
            domain.is_run(program, loop_heads, limits, a, log, ms) && ms.last().work.len() == 0;
        let ns = choose|ms: Seq<Moment<S>>| #[trigger]
            domain.is_run(program, loop_heads, limits, b, other, ms) && ms.last().work.len() == 0;
        let n = if log.len() < other.len() { log.len() as int } else { other.len() as int };
        domain.lemma_runs_agree(program, loop_heads, limits, a, b, log, other, ms, ns, n);
        if log.len() < other.len() {
            assert(domain.step_at(program, loop_heads, limits, b, other, ns, n));
        } else if other.len() < log.len() {
            assert(domain.step_at(program, loop_heads, limits, a, log, ms, n));
        }
        assert(log.take(n) =~= log);
        assert(other.take(n) =~= other);
        lemma_same_visits(log, other, 0);
    }
    assert forall|a: Liveness, log: Seq<Visit<S>>, e: VerificationFailure|
        liveness::is_liveness(program, a) && #[trigger] super::explored(
            domain,
            program,
            loop_heads,
            limits,
            a,
            log,
        ) implies !(#[trigger] super::rejects(domain, program, loop_heads, limits, e)) by {
        if super::rejects(domain, program, loop_heads, limits, e) {
            let (b, other, ns) = choose|
                live: Liveness,
                log: Seq<Visit<S>>,
                moments: Seq<Moment<S>>,
            |
                liveness::is_liveness(program, live) && #[trigger] domain.is_run(
                    program,
                    loop_heads,
                    limits,
                    live,
                    log,
                    moments,
                ) && domain.stops(program, loop_heads, limits, live, log, moments.last(), e);
            lemma_same_masks(program, a, b);
            let ms = choose|ms: Seq<Moment<S>>| #[trigger]
                domain.is_run(program, loop_heads, limits, a, log, ms) && ms.last().work.len()
                    == 0;
            let n = if log.len() < other.len() { log.len() as int } else { other.len() as int };
            domain.lemma_runs_agree(program, loop_heads, limits, a, b, log, other, ms, ns, n);
            if log.len() < other.len() {
                assert(domain.step_at(program, loop_heads, limits, b, other, ns, n));
            } else if other.len() < log.len() {
                assert(domain.step_at(program, loop_heads, limits, a, log, ms, n));
                assert(other.take(n) =~= other);
                domain.lemma_step_or_stop(
                    program,
                    loop_heads,
                    limits,
                    a,
                    b,
                    log.take(n),
                    other,
                    ms[n],
                    log[n],
                    ms[n + 1],
                    e,
                );
            }
        }
    }
    assert forall|e: VerificationFailure, f: VerificationFailure| #[trigger]
        super::rejects(domain, program, loop_heads, limits, e) && #[trigger] super::rejects(
            domain,
            program,
            loop_heads,
            limits,
            f,
        ) implies same_failure(e, f) by {
        let (a, log, ms) = choose|
            live: Liveness,
            log: Seq<Visit<S>>,
            moments: Seq<Moment<S>>,
        |
            liveness::is_liveness(program, live) && #[trigger] domain.is_run(
                program,
                loop_heads,
                limits,
                live,
                log,
                moments,
            ) && domain.stops(program, loop_heads, limits, live, log, moments.last(), e);
        let (b, other, ns) = choose|
            live: Liveness,
            log: Seq<Visit<S>>,
            moments: Seq<Moment<S>>,
        |
            liveness::is_liveness(program, live) && #[trigger] domain.is_run(
                program,
                loop_heads,
                limits,
                live,
                log,
                moments,
            ) && domain.stops(program, loop_heads, limits, live, log, moments.last(), f);
        lemma_same_masks(program, a, b);
        let n = if log.len() < other.len() { log.len() as int } else { other.len() as int };
        domain.lemma_runs_agree(program, loop_heads, limits, a, b, log, other, ms, ns, n);
        domain.lemma_runs_agree(program, loop_heads, limits, b, a, other, log, ns, ms, n);
        if log.len() < other.len() {
            assert(domain.step_at(program, loop_heads, limits, b, other, ns, n));
            assert(log.take(n) =~= log);
            domain.lemma_step_or_stop(
                program,
                loop_heads,
                limits,
                b,
                a,
                other.take(n),
                log,
                ns[n],
                other[n],
                ns[n + 1],
                e,
            );
        } else if other.len() < log.len() {
            assert(domain.step_at(program, loop_heads, limits, a, log, ms, n));
            assert(other.take(n) =~= other);
            domain.lemma_step_or_stop(
                program,
                loop_heads,
                limits,
                a,
                b,
                log.take(n),
                other,
                ms[n],
                log[n],
                ms[n + 1],
                f,
            );
        } else {
            assert(log.take(n) =~= log);
            assert(other.take(n) =~= other);
            domain.lemma_one_stop(
                program,
                loop_heads,
                limits,
                a,
                b,
                log,
                other,
                ms[n],
                e,
                f,
            );
        }
    }
}

} // verus!
