//! The exploration as a sequence of steps: what is pending and remembered at
//! each moment, which step comes next, and why none does.

use vstd::prelude::*;

use super::{Checkpoint, Domain, ExactLevel, ExitValue, Outcome, VerifierLimits, Visit, WorkItem};

use crate::error::VerificationFailure;
use crate::insn::BpfInsn;
use crate::liveness::Liveness;

verus! {

/// What is pending and remembered at some moment.
pub struct Moment<S> {
    /// The pending paths; the last is taken next.
    pub work: Seq<WorkItem<S>>,
    /// Every state that was remembered.
    pub cps: Seq<Checkpoint<S>>,
    /// The remembered states that are compared at each place.
    pub lists: Seq<Seq<usize>>,
}

// ── Statistics ──────────────────────────────────────────────────────────────

/// One more, up to the largest number.
pub open spec fn one_more(n: usize) -> usize {
    if n == usize::MAX { n } else { (n + 1) as usize }
}

/// A state is due to be remembered, and the first `n` of the list do not hold it
/// back: one that is still being explored does while states are throttled.
pub open spec fn still_due<S>(
    cps: Seq<Checkpoint<S>>,
    list: Seq<usize>,
    due: bool,
    throttled: bool,
    n: int,
) -> bool {
    due && !(throttled && exists|t: int|
        0 <= t < n && cps[(#[trigger] list[t]) as int].branches > 0)
}

/// The remembered states when the first `n` of the list did not match an
/// arrival: each counts a miss, where a state is due.
pub open spec fn tally<S>(
    cps: Seq<Checkpoint<S>>,
    list: Seq<usize>,
    due: bool,
    throttled: bool,
    n: int,
) -> Seq<Checkpoint<S>>
    decreases n,
{
    if n <= 0 {
        cps
    } else {
        let before = tally(cps, list, due, throttled, n - 1);
        let k = list[n - 1] as int;
        if still_due(cps, list, due, throttled, n) {
            before.update(
                k,
                Checkpoint { miss_cnt: one_more(before[k].miss_cnt), ..before[k] },
            )
        } else {
            before
        }
    }
}

/// Those of the first `n` that turned out unhelpful.
pub open spec fn forgotten<S>(
    cps: Seq<Checkpoint<S>>,
    list: Seq<usize>,
    due: bool,
    throttled: bool,
    n: int,
) -> Seq<usize>
    decreases n,
{
    if n <= 0 {
        seq![]
    } else {
        let before = forgotten(cps, list, due, throttled, n - 1);
        let now = tally(cps, list, due, throttled, n)[list[n - 1] as int];
        if super::unhelpful(now.hit_cnt as int, now.miss_cnt as int) {
            before.push(list[n - 1])
        } else {
            before
        }
    }
}

/// The list without those that turned out unhelpful.
pub open spec fn retained<S>(
    cps: Seq<Checkpoint<S>>,
    list: Seq<usize>,
    due: bool,
    throttled: bool,
) -> Seq<usize> {
    let gone = forgotten(cps, list, due, throttled, list.len() as int);
    list.filter(|x: usize| !gone.contains(x))
}

/// The remembered state `k` counts a hit.
pub open spec fn with_hit<S>(cps: Seq<Checkpoint<S>>, k: int) -> Seq<Checkpoint<S>> {
    cps.update(k, Checkpoint { hit_cnt: one_more(cps[k].hit_cnt), ..cps[k] })
}

/// The same remembered states with the same statistics; the pending paths below
/// them may differ.
pub open spec fn same_memory<S>(a: Seq<Checkpoint<S>>, b: Seq<Checkpoint<S>>) -> bool {
    a.len() == b.len() && forall|k: int|
        0 <= k < a.len() ==> (#[trigger] b[k]).state == a[k].state && b[k].parent == a[k].parent
            && b[k].hit_cnt == a[k].hit_cnt && b[k].miss_cnt == a[k].miss_cnt
}

/// Behind these arrivals a state is due to be remembered.
pub open spec fn due_now<S>(program: Seq<BpfInsn>, log: Seq<Visit<S>>) -> bool {
    let n = log.len() as int;
    let last = super::last_stored(log, n);
    super::store_due(
        n - last,
        super::jumps(program, log, n) - super::jumps(program, log, last),
    )
}

/// Behind these arrivals states are throttled.
pub open spec fn throttled_now<S>(program: Seq<BpfInsn>, log: Seq<Visit<S>>) -> bool {
    let n = log.len() as int;
    let last = super::last_stored(log, n);
    super::store_throttled(
        n - last,
        super::jumps(program, log, n) - super::jumps(program, log, last),
    )
}

// ── Steps ───────────────────────────────────────────────────────────────────

impl<
    S: Copy,
    C: Fn(&S, u16, u64) -> S,
    L: Fn(&S, &S) -> bool,
    Q: Fn(&S, &S, ExactLevel, u16) -> bool,
    N: Fn(u32, &BpfInsn, &S) -> Result<Vec<(u32, S)>, VerificationFailure>,
    R: Fn(&S) -> ExitValue,
> Domain<S, C, L, Q, N, R> {
    /// The arrival is the same turn of a loop as a state that is still being
    /// explored.
    pub open spec fn repeats(&self, regs: u16, cp: Checkpoint<S>, arrival: S) -> bool {
        cp.branches > 0 && call_ensures(self.maybe_looping, (&cp.state, &arrival), true)
            && call_ensures(self.equal, (&cp.state, &arrival, ExactLevel::Exact, regs), true)
    }

    /// A state that is fully explored covers the arrival.
    pub open spec fn settles(&self, regs: u16, cp: Checkpoint<S>, arrival: S) -> bool {
        cp.branches == 0 && call_ensures(
            self.equal,
            (&cp.state, &arrival, ExactLevel::NotExact, regs),
            true,
        )
    }

    /// Neither of the two.
    pub open spec fn passes(&self, regs: u16, cp: Checkpoint<S>, arrival: S) -> bool {
        if cp.branches > 0 {
            call_ensures(self.maybe_looping, (&cp.state, &arrival), false) || call_ensures(
                self.equal,
                (&cp.state, &arrival, ExactLevel::Exact, regs),
                false,
            )
        } else {
            call_ensures(self.equal, (&cp.state, &arrival, ExactLevel::NotExact, regs), false)
        }
    }

    /// The arrival passes the first `n` of the list.
    pub open spec fn passes_first(
        &self,
        regs: u16,
        cps: Seq<Checkpoint<S>>,
        list: Seq<usize>,
        arrival: S,
        n: int,
    ) -> bool {
        forall|t: int|
            0 <= t < n ==> self.passes(regs, cps[(#[trigger] list[t]) as int], arrival)
    }

    /// The next arrival, cleaned to `c`, is new: it is at no prune point, or it
    /// passes every state that is compared there. It is remembered where a state
    /// is due and none holds it back.
    pub open spec fn is_new(
        &self,
        program: Seq<BpfInsn>,
        live: Liveness,
        log: Seq<Visit<S>>,
        m: Moment<S>,
        c: S,
        stored: bool,
    ) -> bool {
        let pc = m.work.last().pc as int;
        let list = m.lists[pc];
        if super::is_prune_point(program, pc) {
            self.passes_first(live.regs_mask(pc), m.cps, list, c, list.len() as int) && stored
                == still_due(
                m.cps,
                list,
                due_now(program, log),
                throttled_now(program, log),
                list.len() as int,
            )
        } else {
            !stored
        }
    }

    /// The next arrival, cleaned to `c`, ends where the `j`-th of the states that
    /// are compared there covers it.
    pub open spec fn is_settled(
        &self,
        program: Seq<BpfInsn>,
        live: Liveness,
        m: Moment<S>,
        c: S,
        j: int,
    ) -> bool {
        let pc = m.work.last().pc as int;
        let list = m.lists[pc];
        &&& super::is_prune_point(program, pc)
        &&& 0 <= j < list.len()
        &&& self.passes_first(live.regs_mask(pc), m.cps, list, c, j)
        &&& self.settles(live.regs_mask(pc), m.cps[list[j] as int], c)
    }

    /// The next arrival, cleaned to `c`, is the same turn of a loop as the `j`-th
    /// of the states that are compared there.
    pub open spec fn is_stuck(
        &self,
        program: Seq<BpfInsn>,
        live: Liveness,
        m: Moment<S>,
        c: S,
        j: int,
    ) -> bool {
        let pc = m.work.last().pc as int;
        let list = m.lists[pc];
        &&& super::is_prune_point(program, pc)
        &&& 0 <= j < list.len()
        &&& self.passes_first(live.regs_mask(pc), m.cps, list, c, j)
        &&& self.repeats(live.regs_mask(pc), m.cps[list[j] as int], c)
    }

    /// The step that ends a covered path.
    pub open spec fn step_pruned(
        &self,
        program: Seq<BpfInsn>,
        live: Liveness,
        log: Seq<Visit<S>>,
        a: Moment<S>,
        v: Visit<S>,
        b: Moment<S>,
        c: S,
        j: int,
    ) -> bool {
        let list = a.lists[a.work.last().pc as int];
        &&& self.is_settled(program, live, a, c, j)
        &&& !v.stored
        &&& b.lists == a.lists
        &&& b.work == a.work.drop_last()
        &&& same_memory(
            with_hit(
                tally(a.cps, list, due_now(program, log), throttled_now(program, log), j),
                list[j] as int,
            ),
            b.cps,
        )
    }

    /// The memory behind a new arrival that was cleaned to `c`.
    pub open spec fn memory(
        &self,
        program: Seq<BpfInsn>,
        log: Seq<Visit<S>>,
        a: Moment<S>,
        c: S,
        stored: bool,
    ) -> Seq<Checkpoint<S>> {
        let item = a.work.last();
        let list = a.lists[item.pc as int];
        let seen = if super::is_prune_point(program, item.pc as int) {
            tally(
                a.cps,
                list,
                due_now(program, log),
                throttled_now(program, log),
                list.len() as int,
            )
        } else {
            a.cps
        };
        if stored {
            seen.push(
                Checkpoint {
                    state: c,
                    parent: item.last_cp,
                    branches: 0,
                    hit_cnt: 0,
                    miss_cnt: 0,
                },
            )
        } else {
            seen
        }
    }

    /// The lists behind a new arrival.
    pub open spec fn lists(
        &self,
        program: Seq<BpfInsn>,
        log: Seq<Visit<S>>,
        a: Moment<S>,
        stored: bool,
    ) -> Seq<Seq<usize>> {
        let pc = a.work.last().pc as int;
        if super::is_prune_point(program, pc) {
            let kept = retained(
                a.cps,
                a.lists[pc],
                due_now(program, log),
                throttled_now(program, log),
            );
            a.lists.update(
                pc,
                if stored {
                    kept.push(a.cps.len() as usize)
                } else {
                    kept
                },
            )
        } else {
            a.lists
        }
    }

    /// The step that follows a new arrival, which was cleaned to `c`.
    pub open spec fn step_new(
        &self,
        program: Seq<BpfInsn>,
        loop_heads: Seq<u32>,
        limits: VerifierLimits,
        live: Liveness,
        log: Seq<Visit<S>>,
        a: Moment<S>,
        v: Visit<S>,
        b: Moment<S>,
        c: S,
    ) -> bool {
        let item = a.work.last();
        let pc = item.pc as int;
        let last_cp = if v.stored { Some(a.cps.len() as usize) } else { item.last_cp };
        &&& self.is_new(program, live, log, a, c, v.stored)
        &&& loop_heads.contains(item.pc) ==> super::visits(log, pc) < limits.max_loop_iterations
        &&& a.cps.len() + (if v.stored { 1int } else { 0 }) <= limits.max_states
        &&& match v.outcome {
            Outcome::Pruned { .. } => false,
            Outcome::Exited => {
                &&& program[pc] is Exit
                &&& call_ensures(self.exit_value, (&item.state,), ExitValue::Scalar)
                &&& b.work == a.work.drop_last()
            },
            Outcome::Expanded { next } => {
                &&& !(program[pc] is Exit)
                &&& self.leads_to(item.pc, program[pc], item.state, next)
                &&& b.work == a.work.drop_last() + super::paths(next, last_cp)
            },
        }
        &&& b.lists == self.lists(program, log, a, v.stored)
        &&& same_memory(self.memory(program, log, a, c, v.stored), b.cps)
    }

    /// Behind the arrivals of `log` and at the moment `a`, the path that is taken
    /// next arrives as `v` says, and `b` is the moment behind it. Every remembered
    /// state counts the pending paths below it.
    pub open spec fn step(
        &self,
        program: Seq<BpfInsn>,
        loop_heads: Seq<u32>,
        limits: VerifierLimits,
        live: Liveness,
        log: Seq<Visit<S>>,
        a: Moment<S>,
        v: Visit<S>,
        b: Moment<S>,
    ) -> bool {
        let item = a.work.last();
        &&& a.work.len() > 0
        &&& log.len() < limits.max_steps
        &&& item.pc < program.len()
        &&& v.pc == item.pc
        &&& v.state == item.state
        &&& super::counts_ok(b.cps, b.work)
        &&& exists|c: S| #[trigger]
            self.cleans(live, item.pc as int, item.state, c) && if v.outcome is Pruned {
                exists|j: int| #[trigger]
                    self.step_pruned(program, live, log, a, v, b, c, j)
            } else {
                self.step_new(program, loop_heads, limits, live, log, a, v, b, c)
            }
    }

    /// The moment at which the exploration begins.
    pub open spec fn start(&self, program: Seq<BpfInsn>) -> Moment<S> {
        Moment {
            work: seq![WorkItem { pc: 0, state: self.initial, last_cp: None }],
            cps: seq![],
            lists: Seq::new(program.len(), |pc: int| Seq::<usize>::empty()),
        }
    }

    /// The `i`-th arrival is the step between two moments.
    pub open spec fn step_at(
        &self,
        program: Seq<BpfInsn>,
        loop_heads: Seq<u32>,
        limits: VerifierLimits,
        live: Liveness,
        log: Seq<Visit<S>>,
        moments: Seq<Moment<S>>,
        i: int,
    ) -> bool {
        self.step(
            program,
            loop_heads,
            limits,
            live,
            log.take(i),
            moments[i],
            log[i],
            moments[i + 1],
        )
    }

    /// The arrivals of `log` are steps from the beginning, with these moments
    /// between them.
    pub open spec fn is_run(
        &self,
        program: Seq<BpfInsn>,
        loop_heads: Seq<u32>,
        limits: VerifierLimits,
        live: Liveness,
        log: Seq<Visit<S>>,
        moments: Seq<Moment<S>>,
    ) -> bool {
        &&& moments.len() == log.len() + 1
        &&& moments[0] == self.start(program)
        &&& forall|i: int|
            0 <= i < log.len() ==> #[trigger] self.step_at(
                program,
                loop_heads,
                limits,
                live,
                log,
                moments,
                i,
            )
    }

    // ── Rejections ──────────────────────────────────────────────────────────
    /// Why a new arrival does not go on: its loop does not converge, too many
    /// states are remembered, an exit has no scalar in R0, or the instruction is
    /// rejected.
    pub open spec fn fails(
        &self,
        program: Seq<BpfInsn>,
        loop_heads: Seq<u32>,
        limits: VerifierLimits,
        log: Seq<Visit<S>>,
        m: Moment<S>,
        stored: bool,
        e: VerificationFailure,
    ) -> bool {
        let item = m.work.last();
        let pc = item.pc as int;
        if loop_heads.contains(item.pc) && super::visits(log, pc) >= limits.max_loop_iterations {
            e.insn_idx == item.pc && e.message@ == super::counted(
                "back-edge exceeds max loops ("@,
                limits.max_loop_iterations as int,
                ") — the loop does not converge"@,
            )
        } else if m.cps.len() + (if stored { 1int } else { 0 }) > limits.max_states {
            e.insn_idx == item.pc && e.message@ == super::counted(
                "verification complexity limit exceeded (max_states "@,
                limits.max_states as int,
                ")"@,
            )
        } else if program[pc] is Exit {
            e.insn_idx == item.pc && ((e.message@ == "r0 is uninitialized at exit"@
                && call_ensures(self.exit_value, (&item.state,), ExitValue::Uninit)) || (e.message@
                == "r0 is not a scalar value at exit"@ && call_ensures(
                self.exit_value,
                (&item.state,),
                ExitValue::Other,
            )))
        } else {
            call_ensures(self.successors, (item.pc, &program[pc], &item.state), Err(e))
        }
    }

    /// Behind the arrivals of `log` and at the moment `m`, the program is rejected
    /// for the reason `e`.
    pub open spec fn stops(
        &self,
        program: Seq<BpfInsn>,
        loop_heads: Seq<u32>,
        limits: VerifierLimits,
        live: Liveness,
        log: Seq<Visit<S>>,
        m: Moment<S>,
        e: VerificationFailure,
    ) -> bool {
        let item = m.work.last();
        let pc = item.pc as int;
        m.work.len() > 0 && if log.len() >= limits.max_steps {
            e.insn_idx == item.pc && e.message@ == super::counted(
                "verification complexity limit exceeded (max_steps "@,
                limits.max_steps as int,
                ")"@,
            )
        } else if pc >= program.len() {
            e.insn_idx == item.pc && e.message@ == "internal error: pc out of program range"@
        } else {
            exists|c: S| #[trigger]
                self.cleans(live, pc, item.state, c) && ((exists|j: int| #[trigger]
                    self.is_stuck(program, live, m, c, j) && e.insn_idx == item.pc && e.message@
                        == super::counted("infinite loop detected at insn "@, pc, ""@)) || (
                exists|stored: bool| #[trigger]
                    self.is_new(program, live, log, m, c, stored) && self.fails(
                        program,
                        loop_heads,
                        limits,
                        log,
                        m,
                        stored,
                        e,
                    )))
        }
    }

    /// A run goes on with the end of a covered path.
    pub(super) proof fn lemma_run_pruned(
        &self,
        program: Seq<BpfInsn>,
        loop_heads: Seq<u32>,
        limits: VerifierLimits,
        live: Liveness,
        log: Seq<Visit<S>>,
        moments: Seq<Moment<S>>,
        v: Visit<S>,
        b: Moment<S>,
        c: S,
        j: int,
    )
        requires
            self.is_run(program, loop_heads, limits, live, log, moments),
            moments.last().work.len() > 0,
            log.len() < limits.max_steps,
            v.pc == moments.last().work.last().pc < program.len(),
            v.state == moments.last().work.last().state,
            v.outcome is Pruned,
            !v.stored,
            super::counts_ok(b.cps, b.work),
            self.cleans(live, v.pc as int, v.state, c),
            super::is_prune_point(program, v.pc as int),
            0 <= j < moments.last().lists[v.pc as int].len(),
            self.passes_first(
                live.regs_mask(v.pc as int),
                moments.last().cps,
                moments.last().lists[v.pc as int],
                c,
                j,
            ),
            self.settles(
                live.regs_mask(v.pc as int),
                moments.last().cps[moments.last().lists[v.pc as int][j] as int],
                c,
            ),
            b.lists == moments.last().lists,
            b.work == moments.last().work.drop_last(),
            same_memory(
                with_hit(
                    tally(
                        moments.last().cps,
                        moments.last().lists[v.pc as int],
                        due_now(program, log),
                        throttled_now(program, log),
                        j,
                    ),
                    moments.last().lists[v.pc as int][j] as int,
                ),
                b.cps,
            ),
        ensures
            self.is_run(program, loop_heads, limits, live, log.push(v), moments.push(b)),
    {
        assert(self.step_pruned(program, live, log, moments.last(), v, b, c, j));
        self.lemma_run_grows(program, loop_heads, limits, live, log, moments, v, b);
    }

    /// A run goes on with a new arrival.
    pub(super) proof fn lemma_run_new(
        &self,
        program: Seq<BpfInsn>,
        loop_heads: Seq<u32>,
        limits: VerifierLimits,
        live: Liveness,
        log: Seq<Visit<S>>,
        moments: Seq<Moment<S>>,
        v: Visit<S>,
        b: Moment<S>,
        c: S,
    )
        requires
            self.is_run(program, loop_heads, limits, live, log, moments),
            moments.last().work.len() > 0,
            log.len() < limits.max_steps,
            v.pc == moments.last().work.last().pc < program.len(),
            v.state == moments.last().work.last().state,
            super::counts_ok(b.cps, b.work),
            self.cleans(live, v.pc as int, v.state, c),
            self.is_new(program, live, log, moments.last(), c, v.stored),
            loop_heads.contains(v.pc) ==> super::visits(log, v.pc as int)
                < limits.max_loop_iterations,
            moments.last().cps.len() + (if v.stored { 1int } else { 0 }) <= limits.max_states,
            match v.outcome {
                Outcome::Pruned { .. } => false,
                Outcome::Exited => program[v.pc as int] is Exit && call_ensures(
                    self.exit_value,
                    (&v.state,),
                    ExitValue::Scalar,
                ) && b.work == moments.last().work.drop_last(),
                Outcome::Expanded { next } => !(program[v.pc as int] is Exit) && self.leads_to(
                    v.pc,
                    program[v.pc as int],
                    v.state,
                    next,
                ) && b.work == moments.last().work.drop_last() + super::paths(
                    next,
                    if v.stored {
                        Some(moments.last().cps.len() as usize)
                    } else {
                        moments.last().work.last().last_cp
                    },
                ),
            },
            b.lists == self.lists(program, log, moments.last(), v.stored),
            same_memory(self.memory(program, log, moments.last(), c, v.stored), b.cps),
        ensures
            self.is_run(program, loop_heads, limits, live, log.push(v), moments.push(b)),
    {
        assert(self.step_new(program, loop_heads, limits, live, log, moments.last(), v, b, c));
        self.lemma_run_grows(program, loop_heads, limits, live, log, moments, v, b);
    }

    /// One more step makes a longer run.
    proof fn lemma_run_grows(
        &self,
        program: Seq<BpfInsn>,
        loop_heads: Seq<u32>,
        limits: VerifierLimits,
        live: Liveness,
        log: Seq<Visit<S>>,
        moments: Seq<Moment<S>>,
        v: Visit<S>,
        b: Moment<S>,
    )
        requires
            self.is_run(program, loop_heads, limits, live, log, moments),
            self.step(program, loop_heads, limits, live, log, moments.last(), v, b),
        ensures
            self.is_run(program, loop_heads, limits, live, log.push(v), moments.push(b)),
    {
        let all = log.push(v);
        let ms = moments.push(b);
        assert forall|i: int| 0 <= i < all.len() implies #[trigger] self.step_at(
            program,
            loop_heads,
            limits,
            live,
            all,
            ms,
            i,
        ) by {
            if i < log.len() {
                assert(self.step_at(program, loop_heads, limits, live, log, moments, i));
                assert(all.take(i) =~= log.take(i));
                assert(ms[i] == moments[i] && ms[i + 1] == moments[i + 1]);
            } else {
                assert(all.take(i) =~= log);
            }
        }
    }
}

/// Misses leave the states and the paths below them as they are.
pub(super) proof fn lemma_tally<S>(
    cps: Seq<Checkpoint<S>>,
    list: Seq<usize>,
    due: bool,
    throttled: bool,
    n: int,
)
    requires
        forall|t: int| 0 <= t < list.len() ==> (#[trigger] list[t]) < cps.len(),
        0 <= n <= list.len(),
    ensures
        tally(cps, list, due, throttled, n).len() == cps.len(),
        forall|k: int|
            0 <= k < cps.len() ==> (#[trigger] tally(cps, list, due, throttled, n)[k]).branches
                == cps[k].branches && tally(cps, list, due, throttled, n)[k].state == cps[k].state
                && tally(cps, list, due, throttled, n)[k].parent == cps[k].parent,
    decreases n,
{
    if n > 0 {
        lemma_tally(cps, list, due, throttled, n - 1);
        let before = tally(cps, list, due, throttled, n - 1);
        let now = tally(cps, list, due, throttled, n);
        let at = list[n - 1] as int;
        assert(list[n - 1] < cps.len());
        assert forall|k: int| 0 <= k < cps.len() implies (#[trigger] now[k]).branches
            == cps[k].branches && now[k].state == cps[k].state && now[k].parent
            == cps[k].parent by {
            assert(before[k].branches == cps[k].branches);
            if k == at {
            } else {
                assert(now[k] == before[k]);
            }
        }
    }
}

} // verus!
