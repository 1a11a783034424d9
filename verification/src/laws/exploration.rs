//! Exploration: what an accepted program was checked for.

use vstd::prelude::*;

use crate::error::VerificationFailure;
use crate::insn::BpfInsn;
use crate::liveness::Liveness;
use crate::mini;
use crate::mini::{Domain, ExactLevel, ExitValue, Outcome, VerifierLimits, Visit, WorkItem};

verus! {

/// Every state lies below itself.
#[verifier::opaque]
pub open spec fn is_reflexive<S>(below: spec_fn(u32, S, S) -> bool) -> bool {
    forall|pc: u32, s: S| #[trigger] below(pc, s, s)
}

/// What lies below a state lies below what that lies below.
#[verifier::opaque]
pub open spec fn is_transitive<S>(below: spec_fn(u32, S, S) -> bool) -> bool {
    forall|pc: u32, r: S, s: S, t: S| #[trigger]
        below(pc, r, s) && #[trigger] below(pc, s, t) ==> below(pc, r, t)
}

/// A state that the domain says is covered, once both are cleaned, lies below.
#[verifier::opaque]
pub open spec fn holds_what_is_covered<
    S: Copy,
    C: Fn(&S, u16, u64) -> S,
    L: Fn(&S, &S) -> bool,
    Q: Fn(&S, &S, ExactLevel, u16) -> bool,
    N: Fn(u32, &BpfInsn, &S) -> Result<Vec<(u32, S)>, VerificationFailure>,
    R: Fn(&S) -> ExitValue,
>(
    domain: Domain<S, C, L, Q, N, R>,
    live: Liveness,
    below: spec_fn(u32, S, S) -> bool,
) -> bool {
    forall|pc: u32, s: S, t: S, a: S, b: S| #[trigger]
        domain.cleans(live, pc as int, t, a) && #[trigger] domain.cleans(live, pc as int, s, b)
            && domain.covers(live, pc as int, a, b) ==> below(pc, s, t)
}

/// The place and its state lie below one of the bounds.
#[verifier::opaque]
pub open spec fn is_bounded<S>(
    below: spec_fn(u32, S, S) -> bool,
    place: (u32, S),
    bounds: Seq<(u32, S)>,
) -> bool {
    exists|i: int|
        0 <= i < bounds.len() && (#[trigger] bounds[i]).0 == place.0 && below(
            place.0,
            place.1,
            bounds[i].1,
        )
}

/// What an instruction leads to from a state lies below what it leads to from a
/// state above.
#[verifier::opaque]
pub open spec fn is_kept_by_steps<
    S: Copy,
    C: Fn(&S, u16, u64) -> S,
    L: Fn(&S, &S) -> bool,
    Q: Fn(&S, &S, ExactLevel, u16) -> bool,
    N: Fn(u32, &BpfInsn, &S) -> Result<Vec<(u32, S)>, VerificationFailure>,
    R: Fn(&S) -> ExitValue,
>(
    domain: Domain<S, C, L, Q, N, R>,
    program: Seq<BpfInsn>,
    below: spec_fn(u32, S, S) -> bool,
) -> bool {
    forall|pc: u32, s: S, t: S, after: Seq<(u32, S)>, bounds: Seq<(u32, S)>, j: int|
        #![trigger domain.leads_to(pc, program[pc as int], s, after), domain.leads_to(pc, program[pc as int], t, bounds), is_bounded(below, after[j], bounds)]
        pc < program.len() && below(pc, s, t) && 0 <= j < after.len() && domain.leads_to(
            pc,
            program[pc as int],
            t,
            bounds,
        ) && domain.leads_to(pc, program[pc as int], s, after) ==> is_bounded(
            below,
            after[j],
            bounds,
        )
}

/// Below is an order on the states of each place that agrees with the domain.
pub open spec fn simulates<
    S: Copy,
    C: Fn(&S, u16, u64) -> S,
    L: Fn(&S, &S) -> bool,
    Q: Fn(&S, &S, ExactLevel, u16) -> bool,
    N: Fn(u32, &BpfInsn, &S) -> Result<Vec<(u32, S)>, VerificationFailure>,
    R: Fn(&S) -> ExitValue,
>(
    domain: Domain<S, C, L, Q, N, R>,
    program: Seq<BpfInsn>,
    live: Liveness,
    below: spec_fn(u32, S, S) -> bool,
) -> bool {
    &&& is_reflexive(below)
    &&& is_transitive(below)
    &&& holds_what_is_covered(domain, live, below)
    &&& is_kept_by_steps(domain, program, below)
}

/// `run` is an execution: it begins at entry, and each state is one that the
/// instruction before it leads to. No exit is passed.
pub open spec fn is_execution<
    S: Copy,
    C: Fn(&S, u16, u64) -> S,
    L: Fn(&S, &S) -> bool,
    Q: Fn(&S, &S, ExactLevel, u16) -> bool,
    N: Fn(u32, &BpfInsn, &S) -> Result<Vec<(u32, S)>, VerificationFailure>,
    R: Fn(&S) -> ExitValue,
>(
    domain: Domain<S, C, L, Q, N, R>,
    program: Seq<BpfInsn>,
    run: Seq<(u32, S)>,
) -> bool {
    &&& run.len() > 0
    &&& run[0] == (0u32, domain.initial)
    &&& forall|i: int| #![trigger run[i]] 0 <= i < run.len() - 1 ==> steps_to(domain, program, run[i], run[i + 1])
}

/// The instruction at the first place leads to the second.
pub open spec fn steps_to<
    S: Copy,
    C: Fn(&S, u16, u64) -> S,
    L: Fn(&S, &S) -> bool,
    Q: Fn(&S, &S, ExactLevel, u16) -> bool,
    N: Fn(u32, &BpfInsn, &S) -> Result<Vec<(u32, S)>, VerificationFailure>,
    R: Fn(&S) -> ExitValue,
>(
    domain: Domain<S, C, L, Q, N, R>,
    program: Seq<BpfInsn>,
    a: (u32, S),
    b: (u32, S),
) -> bool {
    &&& a.0 < program.len()
    &&& !(program[a.0 as int] is Exit)
    &&& exists|after: Seq<(u32, S)>, j: int|
        #[trigger] domain.leads_to(a.0, program[a.0 as int], a.1, after) && 0 <= j < after.len()
            && #[trigger] after[j] == b
}

/// The place and its state lie below an arrival that was followed.
pub open spec fn is_covered<S>(
    log: Seq<Visit<S>>,
    below: spec_fn(u32, S, S) -> bool,
    place: (u32, S),
) -> bool {
    exists|k: int|
        0 <= k < log.len() && (#[trigger] log[k]).pc == place.0 && !(log[k].outcome is Pruned) && below(
            place.0,
            place.1,
            log[k].state,
        )
}

proof fn lemma_below<
    S: Copy,
    C: Fn(&S, u16, u64) -> S,
    L: Fn(&S, &S) -> bool,
    Q: Fn(&S, &S, ExactLevel, u16) -> bool,
    N: Fn(u32, &BpfInsn, &S) -> Result<Vec<(u32, S)>, VerificationFailure>,
    R: Fn(&S) -> ExitValue,
>(
    domain: Domain<S, C, L, Q, N, R>,
    live: Liveness,
    below: spec_fn(u32, S, S) -> bool,
    pc: u32,
    r: S,
    s: S,
    t: S,
    a: S,
    b: S,
)
    requires
        is_transitive(below),
        holds_what_is_covered(domain, live, below),
        below(pc, r, s),
        domain.cleans(live, pc as int, t, a),
        domain.cleans(live, pc as int, s, b),
        domain.covers(live, pc as int, a, b),
    ensures
        below(pc, r, t),
{
    assert(below(pc, s, t)) by {
        reveal(holds_what_is_covered);
    }
    reveal(is_transitive);
}

proof fn lemma_bounded<
    S: Copy,
    C: Fn(&S, u16, u64) -> S,
    L: Fn(&S, &S) -> bool,
    Q: Fn(&S, &S, ExactLevel, u16) -> bool,
    N: Fn(u32, &BpfInsn, &S) -> Result<Vec<(u32, S)>, VerificationFailure>,
    R: Fn(&S) -> ExitValue,
>(
    domain: Domain<S, C, L, Q, N, R>,
    program: Seq<BpfInsn>,
    below: spec_fn(u32, S, S) -> bool,
    pc: u32,
    s: S,
    t: S,
    after: Seq<(u32, S)>,
    bounds: Seq<(u32, S)>,
    j: int,
) -> (i: int)
    requires
        is_kept_by_steps(domain, program, below),
        pc < program.len(),
        below(pc, s, t),
        domain.leads_to(pc, program[pc as int], s, after),
        domain.leads_to(pc, program[pc as int], t, bounds),
        0 <= j < after.len(),
    ensures
        0 <= i < bounds.len(),
        bounds[i].0 == after[j].0,
        below(after[j].0, after[j].1, bounds[i].1),
{
    assert(is_bounded(below, after[j], bounds)) by {
        reveal(is_kept_by_steps);
    }
    reveal(is_bounded);
    choose|i: int|
        0 <= i < bounds.len() && (#[trigger] bounds[i]).0 == after[j].0 && below(
            after[j].0,
            after[j].1,
            bounds[i].1,
        )
}

proof fn lemma_met<
    S: Copy,
    C: Fn(&S, u16, u64) -> S,
    L: Fn(&S, &S) -> bool,
    Q: Fn(&S, &S, ExactLevel, u16) -> bool,
    N: Fn(u32, &BpfInsn, &S) -> Result<Vec<(u32, S)>, VerificationFailure>,
    R: Fn(&S) -> ExitValue,
>(
    domain: Domain<S, C, L, Q, N, R>,
    program: Seq<BpfInsn>,
    loop_heads: Seq<u32>,
    limits: VerifierLimits,
    live: Liveness,
    log: Seq<Visit<S>>,
    below: spec_fn(u32, S, S) -> bool,
    k: int,
    place: (u32, S),
)
    requires
        mini::explored(domain, program, loop_heads, limits, live, log),
        simulates(domain, program, live, below),
        0 <= k < log.len(),
        log[k].pc == place.0,
        below(place.0, place.1, log[k].state),
    ensures
        is_covered(log, below, place),
        place.0 < program.len(),
{
    let none = Seq::<WorkItem<S>>::empty();
    assert(mini::visit_ok(domain, program, live, log, none, k));
    if let Outcome::Pruned { by } = log[k].outcome {
        assert(mini::pruned_rightly(domain, live, log, k, by));
        let (a, b) = choose|a: S, b: S| #[trigger]
            domain.cleans(live, log[k].pc as int, log[by].state, a) && #[trigger] domain.cleans(
                live,
                log[k].pc as int,
                log[k].state,
                b,
            ) && domain.covers(live, log[k].pc as int, a, b);
        lemma_below(
            domain,
            live,
            below,
            place.0,
            place.1,
            log[k].state,
            log[by].state,
            a,
            b,
        );
        assert(log[by].pc == place.0);
    }
}

/// Where a program is accepted, every execution stays in it, and lies below an
/// arrival that was followed, so that what was checked of that arrival holds of the
/// execution.
pub proof fn accepted_programs_cover_every_execution<
    S: Copy,
    C: Fn(&S, u16, u64) -> S,
    L: Fn(&S, &S) -> bool,
    Q: Fn(&S, &S, ExactLevel, u16) -> bool,
    N: Fn(u32, &BpfInsn, &S) -> Result<Vec<(u32, S)>, VerificationFailure>,
    R: Fn(&S) -> ExitValue,
>(
    domain: Domain<S, C, L, Q, N, R>,
    program: Seq<BpfInsn>,
    loop_heads: Seq<u32>,
    limits: VerifierLimits,
    live: Liveness,
    log: Seq<Visit<S>>,
    below: spec_fn(u32, S, S) -> bool,
    run: Seq<(u32, S)>,
)
    requires
        mini::explored(domain, program, loop_heads, limits, live, log),
        simulates(domain, program, live, below),
        is_execution(domain, program, run),
    ensures
        run.last().0 < program.len(),
        is_covered(log, below, run.last()),
    decreases run.len(),
{
    if run.len() == 1 {
        assert(below(0, domain.initial, domain.initial)) by {
            reveal(is_reflexive);
        }
        lemma_met(domain, program, loop_heads, limits, live, log, below, 0, run.last());
    } else {
        let init = run.drop_last();
        assert(is_execution(domain, program, init)) by {
            assert forall|i: int| 0 <= i < init.len() - 1 implies steps_to(
                domain,
                program,
                #[trigger] init[i],
                init[i + 1],
            ) by {
                assert(run[i] == init[i] && run[i + 1] == init[i + 1]);
            }
        }
        accepted_programs_cover_every_execution(
            domain,
            program,
            loop_heads,
            limits,
            live,
            log,
            below,
            init,
        );
        let n = run.len() - 2;
        let a = run[n];
        let b = run[n + 1];
        assert(init.last() == a && run.last() == b);
        assert(steps_to(domain, program, a, b));
        let k = choose|k: int|
            0 <= k < log.len() && (#[trigger] log[k]).pc == a.0 && !(log[k].outcome is Pruned)
                && below(a.0, a.1, log[k].state);
        let none = Seq::<WorkItem<S>>::empty();
        assert(mini::visit_ok(domain, program, live, log, none, k));
        let (after, j) = choose|after: Seq<(u32, S)>, j: int|
            #[trigger] domain.leads_to(a.0, program[a.0 as int], a.1, after) && 0 <= j < after.len()
                && #[trigger] after[j] == b;
        let bound = log[k].outcome->next;
        assert(domain.leads_to(a.0, program[a.0 as int], log[k].state, bound));
        let i = lemma_bounded(
            domain,
            program,
            below,
            a.0,
            a.1,
            log[k].state,
            after,
            bound,
            j,
        );
        mini::exploration_is_closed(domain, program, loop_heads, limits, live, log, k, bound, i);
        let m = choose|m: int|
            0 <= m < log.len() && (#[trigger] log[m]).pc == bound[i].0 && log[m].state == bound[i].1;
        lemma_met(domain, program, loop_heads, limits, live, log, below, m, b);
    }
}

/// What was checked of an arrival that was followed: at an exit R0 holds a number,
/// elsewhere the domain lets the instruction pass.
pub proof fn followed_arrivals_were_checked<
    S: Copy,
    C: Fn(&S, u16, u64) -> S,
    L: Fn(&S, &S) -> bool,
    Q: Fn(&S, &S, ExactLevel, u16) -> bool,
    N: Fn(u32, &BpfInsn, &S) -> Result<Vec<(u32, S)>, VerificationFailure>,
    R: Fn(&S) -> ExitValue,
>(
    domain: Domain<S, C, L, Q, N, R>,
    program: Seq<BpfInsn>,
    loop_heads: Seq<u32>,
    limits: VerifierLimits,
    live: Liveness,
    log: Seq<Visit<S>>,
    k: int,
)
    requires
        mini::explored(domain, program, loop_heads, limits, live, log),
        0 <= k < log.len(),
        !(log[k].outcome is Pruned),
    ensures
        log[k].pc < program.len(),
        program[log[k].pc as int] is Exit ==> call_ensures(
            domain.exit_value,
            (&log[k].state,),
            ExitValue::Scalar,
        ),
        !(program[log[k].pc as int] is Exit) ==> exists|v: Vec<(u32, S)>| #[trigger]
            call_ensures(
                domain.successors,
                (log[k].pc, &program[log[k].pc as int], &log[k].state),
                Ok(v),
            ),
{
    let none = Seq::<WorkItem<S>>::empty();
    assert(mini::visit_ok(domain, program, live, log, none, k));
    if let Outcome::Expanded { next } = log[k].outcome {
        let v = choose|v: Vec<(u32, S)>|
            v@ == next && #[trigger] call_ensures(
                domain.successors,
                (log[k].pc, &program[log[k].pc as int], &log[k].state),
                Ok(v),
            );
        assert(call_ensures(
            domain.successors,
            (log[k].pc, &program[log[k].pc as int], &log[k].state),
            Ok(v),
        ));
    }
}

/// An accepted program was explored within the bounds: no more arrivals than steps
/// are allowed, and no more at a loop head than turns are.
pub proof fn accepted_programs_kept_the_bounds<
    S: Copy,
    C: Fn(&S, u16, u64) -> S,
    L: Fn(&S, &S) -> bool,
    Q: Fn(&S, &S, ExactLevel, u16) -> bool,
    N: Fn(u32, &BpfInsn, &S) -> Result<Vec<(u32, S)>, VerificationFailure>,
    R: Fn(&S) -> ExitValue,
>(
    domain: Domain<S, C, L, Q, N, R>,
    program: Seq<BpfInsn>,
    loop_heads: Seq<u32>,
    limits: VerifierLimits,
    live: Liveness,
    log: Seq<Visit<S>>,
    head: u32,
    at: Seq<int>,
)
    requires
        mini::explored(domain, program, loop_heads, limits, live, log),
        loop_heads.contains(head),
        forall|i: int| 0 <= i < at.len() ==> 0 <= #[trigger] at[i] < log.len(),
        forall|i: int|
            0 <= i < at.len() ==> log[#[trigger] at[i]].pc == head && !(log[at[i]].outcome
                is Pruned),
        forall|i: int, j: int| 0 <= i < j < at.len() ==> #[trigger] at[i] < #[trigger] at[j],
    ensures
        log.len() <= limits.max_steps,
        at.len() <= limits.max_loop_iterations,
{
    lemma_counted(log, head as int, at);
    if at.len() > 0 {
        let none = Seq::<WorkItem<S>>::empty();
        assert(mini::visit_ok(domain, program, live, log, none, at[0]));
        assert(log[at[0]].pc == head);
    }
}

proof fn lemma_counted<S>(log: Seq<Visit<S>>, head: int, at: Seq<int>)
    requires
        forall|i: int| 0 <= i < at.len() ==> 0 <= #[trigger] at[i] < log.len(),
        forall|i: int|
            0 <= i < at.len() ==> log[#[trigger] at[i]].pc == head && !(log[at[i]].outcome
                is Pruned),
        forall|i: int, j: int| 0 <= i < j < at.len() ==> #[trigger] at[i] < #[trigger] at[j],
    ensures
        at.len() <= mini::visits(log, head),
    decreases log.len(),
{
    if log.len() == 0 {
        if at.len() > 0 {
            assert(0 <= at[0] < log.len());
        }
    } else {
        let rest = log.drop_last();
        if at.len() > 0 && at.last() == log.len() - 1 {
            let fewer = at.drop_last();
            assert forall|i: int| 0 <= i < fewer.len() implies 0 <= #[trigger] fewer[i]
                < rest.len() by {
                assert(at[i] < at[at.len() - 1]);
            }
            assert forall|i: int| 0 <= i < fewer.len() implies rest[#[trigger] fewer[i]].pc == head
                && !(rest[fewer[i]].outcome is Pruned) by {
                assert(fewer[i] == at[i]);
                assert(0 <= fewer[i] < rest.len());
                assert(rest[fewer[i]] == log[at[i]]);
            }
            assert forall|i: int, j: int| 0 <= i < j < fewer.len() implies #[trigger] fewer[i]
                < #[trigger] fewer[j] by {
                assert(at[i] < at[j]);
            }
            lemma_counted(rest, head, fewer);
            assert(log[at[at.len() - 1]].pc == head);
        } else {
            assert forall|i: int| 0 <= i < at.len() implies 0 <= #[trigger] at[i] < rest.len() by {
                if i < at.len() - 1 {
                    assert(at[i] < at[at.len() - 1]);
                }
                assert(at[at.len() - 1] < log.len());
            }
            assert forall|i: int| 0 <= i < at.len() implies rest[#[trigger] at[i]].pc == head && !(
            rest[at[i]].outcome is Pruned) by {
                assert(rest[at[i]] == log[at[i]]);
            }
            lemma_counted(rest, head, at);
        }
    }
}

} // verus!
