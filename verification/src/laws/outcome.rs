//! Reduction, continued: deletions by name, the control-flow passes by name, and what
//! holds of the program that is left.

use vstd::prelude::*;

use crate::flow;
use crate::fuzz::reduce::ddmin;
use crate::fuzz::reduce::ddmin::OracleCache;
use crate::fuzz::reduce::determined;
use crate::fuzz::reduce::driver;
use crate::fuzz::reduce::driver::Point;
use crate::fuzz::reduce::fixup;
use crate::fuzz::reduce::measure;
use crate::fuzz::reduce::operand;
use crate::fuzz::reduce::passes;
use crate::graph;
use crate::insn;
use crate::insn::BpfInsn;
use crate::laws::liveness::flow_by_name;
use crate::laws::names;
use crate::laws::reduction;

verus! {

// ── Deletions ───────────────────────────────────────────────────────────────

/// `stays` lists instructions of a program of `n`, in their order.
pub open spec fn in_order(stays: Seq<int>, n: int) -> bool {
    &&& forall|j: int| 0 <= j < stays.len() ==> 0 <= #[trigger] stays[j] < n
    &&& forall|j: int, k: int| 0 <= j < k < stays.len() ==> stays[j] < stays[k]
}

/// The instruction at place `j` of what stays keeps its target: it is no branch, or
/// the branch leads to the new place of the instruction to which it led.
pub open spec fn keeps_target(
    insns: Seq<BpfInsn>,
    stays: Seq<int>,
    out: Seq<BpfInsn>,
    j: int,
) -> bool {
    let i = insns[stays[j]];
    match names::code_offset(i) {
        None => out[j] == i,
        Some(offset) => exists|m: int|
            0 <= m < stays.len() && #[trigger] stays[m] == stays[j] + 1 + offset && i16::MIN <= m - j
                - 1 <= i16::MAX && out[j] == names::with_target(i, (m - j - 1) as i16),
    }
}

/// `out` is what stays, with every branch led to the same instruction as before.
pub open spec fn is_left(insns: Seq<BpfInsn>, stays: Seq<int>, out: Seq<BpfInsn>) -> bool {
    &&& in_order(stays, insns.len() as int)
    &&& out.len() == stays.len()
    &&& forall|j: int| 0 <= j < stays.len() ==> #[trigger] keeps_target(insns, stays, out, j)
}

/// What does not stay.
pub open spec fn rest(stays: Seq<int>, n: int) -> Set<int> {
    Set::new(|i: int| 0 <= i < n && !stays.contains(i))
}

proof fn lemma_kept(stays: Seq<int>, n: int, k: int)
    requires
        in_order(stays, n),
        0 <= k <= n,
    ensures
        fixup::kept(rest(stays, n), k).len() <= stays.len(),
        forall|j: int|
            0 <= j < fixup::kept(rest(stays, n), k).len() ==> fixup::kept(rest(stays, n), k)[j]
                == #[trigger] stays[j],
        forall|j: int|
            0 <= j < stays.len() ==> (#[trigger] stays[j] < k) == (j < fixup::kept(
                rest(stays, n),
                k,
            ).len()),
    decreases k,
{
    if k > 0 {
        lemma_kept(stays, n, k - 1);
        let r = rest(stays, n);
        let below = fixup::kept(r, k - 1);
        if r.contains(k - 1) {
            assert forall|j: int| 0 <= j < stays.len() implies #[trigger] stays[j] != k - 1 by {
                if stays[j] == k - 1 {
                    assert(stays.contains(k - 1));
                }
            }
        } else {
            let j = choose|j: int| 0 <= j < stays.len() && stays[j] == k - 1;
            assert(j >= below.len());
            if j > below.len() {
                assert(stays[below.len() as int] < stays[j]);
                assert(stays[below.len() as int] < k - 1);
            }
        }
    }
}

/// The code offsets by name.
#[verifier::rlimit(60)]
#[verifier::spinoff_prover]
pub proof fn branch_offsets_by_name(i: BpfInsn, offset: i16)
    ensures
        i.jump_offset() == names::code_offset(i),
        i.with_jump_offset(offset) == names::with_target(i, offset),
{
    reveal(BpfInsn::slot);
    reveal(BpfInsn::with_jump_offset);
}

/// A deletion leaves what stays, in its order, with every branch led to the same
/// instruction as before.
pub proof fn deletion_leads_branches_on(
    insns: Seq<BpfInsn>,
    stays: Seq<int>,
    out: Seq<BpfInsn>,
)
    requires
        fixup::all_single(insns),
        insns.len() > 0,
        is_left(insns, stays, out),
    ensures
        fixup::deletion(insn::program_bytes(insns), rest(stays, insns.len() as int)) == Some(
            insn::program_bytes(out),
        ),
{
    let n = insns.len() as int;
    let r = rest(stays, n);
    fixup::lemma_singles_of_program(insns);
    lemma_kept(stays, n, n);
    let list = fixup::kept(r, n);
    assert(list =~= stays) by {
        if list.len() < stays.len() {
            assert(stays[list.len() as int] < n);
        }
    }
    assert forall|j: int| 0 <= j < stays.len() implies fixup::rebasable_at(
        insns,
        r,
        #[trigger] stays[j],
    ) && fixup::rebased(insns, r, stays[j]) == out[j] by {
        assert(keeps_target(insns, stays, out, j));
        let i = insns[stays[j]];
        branch_offsets_by_name(i, 0);
        lemma_new_place(stays, n, j);
        if let Some(offset) = names::code_offset(i) {
            let m = choose|m: int|
                0 <= m < stays.len() && #[trigger] stays[m] == stays[j] + 1 + offset && i16::MIN <= m
                    - j - 1 <= i16::MAX && out[j] == names::with_target(i, (m - j - 1) as i16);
            lemma_new_place(stays, n, m);
            branch_offsets_by_name(i, (m - j - 1) as i16);
            assert(stays.contains(stays[m]));
        }
    }
    assert forall|old: int| 0 <= old < n && !r.contains(old) implies #[trigger] fixup::rebasable_at(
        insns,
        r,
        old,
    ) by {
        let j = choose|j: int| 0 <= j < stays.len() && stays[j] == old;
        assert(fixup::rebasable_at(insns, r, stays[j]));
    }
    assert(fixup::deletable(insns, r));
    assert(fixup::deleted(insns, r) =~= out);
}

/// The new place of what stays.
proof fn lemma_new_place(stays: Seq<int>, n: int, j: int)
    requires
        in_order(stays, n),
        0 <= j < stays.len(),
    ensures
        fixup::new_index(rest(stays, n), stays[j]) == j,
{
    let k = stays[j];
    lemma_kept(stays, n, k);
    let list = fixup::kept(rest(stays, n), k);
    if list.len() > j {
        assert(stays[j] < k);
    }
    if list.len() < j {
        assert(stays[list.len() as int] < stays[j]);
    }
}

/// A deletion is refused where a branch that stays would lose its target.
pub proof fn deletion_without_target_is_refused(insns: Seq<BpfInsn>, stays: Seq<int>, j: int)
    requires
        fixup::all_single(insns),
        insns.len() > 0,
        in_order(stays, insns.len() as int),
        0 <= j < stays.len(),
        names::code_offset(insns[stays[j]]) matches Some(offset) && !stays.contains(
            stays[j] + 1 + offset,
        ),
    ensures
        fixup::deletion(insn::program_bytes(insns), rest(stays, insns.len() as int)) is None,
{
    let n = insns.len() as int;
    let r = rest(stays, n);
    fixup::lemma_singles_of_program(insns);
    branch_offsets_by_name(insns[stays[j]], 0);
    assert(stays.contains(stays[j]));
    assert(!fixup::rebasable_at(insns, r, stays[j]));
}

/// A list of indices stands for their set, whatever their order and however often
/// each occurs.
pub proof fn index_lists_are_sets(list: Seq<u32>, i: u32)
    ensures
        fixup::index_set(list).contains(i as int) == list.contains(i),
        forall|k: int| fixup::index_set(list).contains(k) ==> 0 <= k <= u32::MAX,
{
}

// ── The control-flow passes ─────────────────────────────────────────────────

/// A walk along the flow of control, none of whose steps is `skip`.
pub open spec fn is_walk(insns: Seq<BpfInsn>, skip: Option<(int, int)>, p: Seq<int>) -> bool {
    &&& p.len() > 0
    &&& forall|j: int|
        #![trigger p[j]]
        0 <= j < p.len() - 1 ==> names::flows(insns, p[j], p[j + 1]) && skip != Some(
            (p[j], p[j + 1]),
        )
}

/// Control can get from `a` to `b`.
pub open spec fn can_get(insns: Seq<BpfInsn>, skip: Option<(int, int)>, a: int, b: int) -> bool {
    exists|p: Seq<int>| #[trigger] is_walk(insns, skip, p) && p[0] == a && p.last() == b
}

proof fn lemma_walks(e: spec_fn(int, int) -> bool, insns: Seq<BpfInsn>, skip: Option<(int, int)>)
    requires
        forall|a: int, b: int| #[trigger]
            e(a, b) == (names::flows(insns, a, b) && skip != Some((a, b))),
    ensures
        forall|a: int, b: int| #[trigger] graph::reaches(e, a, b) == can_get(insns, skip, a, b),
{
    assert forall|p: Seq<int>| #[trigger] graph::is_path(e, p) == is_walk(insns, skip, p) by {
        if graph::is_path(e, p) {
            assert forall|j: int| #![trigger p[j]] 0 <= j < p.len() - 1 implies names::flows(
                insns,
                p[j],
                p[j + 1],
            ) && skip != Some((p[j], p[j + 1])) by {
                assert(e(p[j], p[j + 1]));
            }
        }
        if is_walk(insns, skip, p) {
            assert forall|i: int| #![trigger p[i]] 0 <= i < p.len() - 1 implies e(p[i], p[i + 1]) by {
                assert(names::flows(insns, p[i], p[i + 1]));
            }
        }
    }
    assert forall|a: int, b: int| #[trigger] graph::reaches(e, a, b) == can_get(insns, skip, a, b) by {
        if graph::reaches(e, a, b) {
            let p = choose|p: Seq<int>| #[trigger]
                graph::is_path(e, p) && p[0] == a && p.last() == b;
            assert(is_walk(insns, skip, p));
        }
        if can_get(insns, skip, a, b) {
            let p = choose|p: Seq<int>| #[trigger]
                is_walk(insns, skip, p) && p[0] == a && p.last() == b;
            assert(graph::is_path(e, p));
        }
    }
}

/// What is live is what control can get to from the first instruction.
pub proof fn live_is_what_control_reaches(
    insns: Seq<BpfInsn>,
    skip: Option<(u32, u32)>,
    pc: int,
)
    ensures
        passes::live(insns, skip, pc) == (0 <= pc < insns.len() && can_get(
            insns,
            match skip {
                Some((a, b)) => Some((a as int, b as int)),
                None => None,
            },
            0,
            pc,
        )),
{
    let e = passes::live_edges(insns, skip);
    let s: Option<(int, int)> = match skip {
        Some((a, b)) => Some((a as int, b as int)),
        None => None,
    };
    assert forall|a: int, b: int| #[trigger] e(a, b) == (names::flows(insns, a, b) && s != Some(
        (a, b),
    )) by {
        flow_by_name(insns, a, b);
    }
    lemma_walks(e, insns, s);
    assert(graph::reaches(e, 0, pc) == can_get(insns, s, 0, pc));
}

/// Dead-code elimination leaves exactly what control can get to.
pub proof fn dead_code_leaves_what_control_reaches(
    insns: Seq<BpfInsn>,
    stays: Seq<int>,
    out: Seq<BpfInsn>,
)
    requires
        fixup::all_single(insns),
        stays.len() < insns.len(),
        is_left(insns, stays, out),
        forall|i: int|
            0 <= i < insns.len() ==> #[trigger] stays.contains(i) == can_get(insns, None, 0, i),
    ensures
        passes::without_dead(insn::program_bytes(insns)) == Some(insn::program_bytes(out)),
{
    let n = insns.len() as int;
    passes::lemma_single_program(insns);
    let dead = passes::dead_set(insns);
    assert forall|i: int| dead.contains(i) == rest(stays, n).contains(i) by {
        live_is_what_control_reaches(insns, None, i);
    }
    assert(dead =~= rest(stays, n));
    deletion_leads_branches_on(insns, stays, out);
    lemma_something_goes(stays, n);
}

proof fn lemma_something_goes(stays: Seq<int>, n: int)
    requires
        in_order(stays, n),
        stays.len() < n,
    ensures
        rest(stays, n) != Set::<int>::empty(),
{
    if rest(stays, n) == Set::<int>::empty() {
        lemma_kept(stays, n, n);
        fixup::lemma_kept_none(rest(stays, n), n);
        assert(fixup::kept(rest(stays, n), n).len() == n);
    }
}

/// Where control can get to every instruction, there is no dead code.
pub proof fn reached_programs_have_no_dead_code(insns: Seq<BpfInsn>)
    requires
        fixup::all_single(insns),
        insns.len() > 0,
        forall|i: int| 0 <= i < insns.len() ==> #[trigger] can_get(insns, None, 0, i),
    ensures
        passes::without_dead(insn::program_bytes(insns)) is None,
{
    passes::lemma_single_program(insns);
    assert forall|i: int| 0 <= i < insns.len() implies #[trigger] passes::live(insns, None, i) by {
        live_is_what_control_reaches(insns, None, i);
        assert(can_get(insns, None, 0, i));
    }
    passes::live_program_has_no_dead_code(insn::program_bytes(insns));
}

/// A slice leaves exactly what control can get from to the anchor, and the exits.
pub proof fn slice_leaves_the_ways_to_the_anchor(
    insns: Seq<BpfInsn>,
    anchor: u32,
    stays: Seq<int>,
    out: Seq<BpfInsn>,
)
    requires
        fixup::all_single(insns),
        anchor < insns.len(),
        stays.len() < insns.len(),
        is_left(insns, stays, out),
        forall|i: int|
            0 <= i < insns.len() ==> #[trigger] stays.contains(i) == (insns[i] is Exit || can_get(
                insns,
                None,
                i,
                anchor as int,
            )),
    ensures
        passes::sliced(insn::program_bytes(insns), Some(anchor)) == Some(insn::program_bytes(out)),
{
    let n = insns.len() as int;
    passes::lemma_single_program(insns);
    let e = flow::flow_edges(insns);
    let none: Option<(int, int)> = None;
    assert forall|a: int, b: int| #[trigger] e(a, b) == (names::flows(insns, a, b) && none != Some(
        (a, b),
    )) by {
        flow_by_name(insns, a, b);
    }
    lemma_walks(e, insns, none);
    let off = passes::off_path(insns, anchor as int);
    assert forall|i: int| off.contains(i) == rest(stays, n).contains(i) by {
        assert(graph::reaches(e, i, anchor as int) == can_get(insns, none, i, anchor as int));
    }
    assert(off =~= rest(stays, n));
    deletion_leads_branches_on(insns, stays, out);
    lemma_something_goes(stays, n);
}

/// Without an anchor in the program there is no slice.
pub proof fn no_anchor_no_slice(bytes: Seq<u8>, insns: Seq<BpfInsn>, anchor: u32)
    requires
        passes::program_of(bytes) == Some(insns),
        anchor >= insns.len(),
    ensures
        passes::sliced(bytes, None) is None,
        passes::sliced(bytes, Some(anchor)) is None,
{
}

proof fn lemma_side_listed(bytes: Seq<u8>, insns: Seq<BpfInsn>, n: int, pc: int, c: Seq<u8>)
    requires
        0 <= pc < n <= insns.len(),
        passes::side_candidates(bytes, insns, pc).contains(c),
    ensures
        passes::dead_sides(bytes, insns, n).contains(c),
    decreases n,
{
    let before = passes::dead_sides(bytes, insns, n - 1);
    let here = passes::side_candidates(bytes, insns, n - 1);
    let all = passes::dead_sides(bytes, insns, n);
    if pc < n - 1 {
        lemma_side_listed(bytes, insns, n - 1, pc, c);
        let j = choose|j: int| 0 <= j < before.len() && before[j] == c;
        assert(all[j] == c);
    } else {
        let j = choose|j: int| 0 <= j < here.len() && here[j] == c;
        assert(all[before.len() + j] == c);
    }
}

/// A compare whose fall-through control gets to in no other way can become a jump.
pub proof fn dead_fall_through_becomes_a_jump(insns: Seq<BpfInsn>, pc: int, offset: i16)
    requires
        fixup::all_single(insns),
        insns.len() <= u32::MAX,
        0 <= pc < insns.len() - 1,
        names::compare_offset(insns[pc]) == Some(offset),
        0 <= pc + 1 + offset < insns.len(),
        !can_get(insns, Some((pc, pc + 1)), 0, pc + 1),
    ensures
        passes::simplified(insn::program_bytes(insns)).contains(
            insn::program_bytes(insns.update(pc, BpfInsn::Jmp { offset })),
        ),
{
    let bytes = insn::program_bytes(insns);
    passes::lemma_single_program(insns);
    branch_offsets_by_name(insns[pc], 0);
    live_is_what_control_reaches(insns, Some((pc as u32, (pc + 1) as u32)), pc + 1);
    let c = insn::program_bytes(insns.update(pc, BpfInsn::Jmp { offset }));
    compares_by_name(insns[pc]);
    assert(passes::side_candidates(bytes, insns, pc)[0] == c);
    lemma_side_listed(bytes, insns, insns.len() as int, pc, c);
}

/// A compare whose target control gets to in no other way can be deleted.
pub proof fn dead_target_lets_the_compare_go(insns: Seq<BpfInsn>, pc: int, offset: i16, c: Seq<u8>)
    requires
        fixup::all_single(insns),
        insns.len() <= u32::MAX,
        0 <= pc < insns.len(),
        names::compare_offset(insns[pc]) == Some(offset),
        0 <= pc + 1 + offset < insns.len(),
        !can_get(insns, Some((pc, pc + 1 + offset)), 0, pc + 1 + offset),
        fixup::deletion(insn::program_bytes(insns), set![pc]) == Some(c),
    ensures
        passes::simplified(insn::program_bytes(insns)).contains(c),
{
    let bytes = insn::program_bytes(insns);
    passes::lemma_single_program(insns);
    branch_offsets_by_name(insns[pc], 0);
    let t = pc + 1 + offset;
    live_is_what_control_reaches(insns, Some((pc as u32, t as u32)), t);
    compares_by_name(insns[pc]);
    let here = passes::side_candidates(bytes, insns, pc);
    assert(here[here.len() - 1] == c);
    lemma_side_listed(bytes, insns, insns.len() as int, pc, c);
}

/// The compares by name.
#[verifier::rlimit(60)]
#[verifier::spinoff_prover]
pub proof fn compares_by_name(i: BpfInsn)
    ensures
        i.is_compare() == (names::compare_offset(i) is Some),
{
    reveal(BpfInsn::slot);
}

// ── What is left ────────────────────────────────────────────────────────────

/// The oracle rejects the program, whenever it is asked.
pub open spec fn rejects<F: FnMut(&[u8]) -> bool>(oracle: F, c: Seq<u8>) -> bool {
    ddmin::says(oracle, c, false) && !ddmin::says(oracle, c, true)
}

proof fn lemma_rejected<F: FnMut(&[u8]) -> bool>(oracle: F, cache: OracleCache, c: Seq<u8>)
    requires
        determined::gives_one_answer(oracle),
        cache.answers(oracle),
        cache.remembers(c, false),
    ensures
        rejects(oracle, c),
{
    let i = choose|i: int|
        0 <= i < cache.results@.len() && (#[trigger] cache.results@[i]).0@ == c
            && cache.results@[i].1 == false;
    assert(ddmin::says(oracle, cache.results@[i].0@, cache.results@[i].1));
}

proof fn lemma_none_rejected(
    a: OracleCache,
    b: OracleCache,
    bytes: Seq<u8>,
    list: Seq<Seq<u8>>,
    n: int,
    k: int,
)
    requires
        driver::none_applied(a, b, bytes, list, n),
        0 <= k < n,
        b.max_checks == 0,
    ensures
        list[k] == bytes || b.remembers(list[k], false),
    decreases n,
{
    let m = choose|m: OracleCache|
        driver::none_applied(a, m, bytes, list, n - 1) && #[trigger] driver::is_applied(
            m,
            b,
            bytes,
            list[n - 1],
            false,
        );
    driver::lemma_applied_extends(m, b, bytes, list[n - 1], false);
    if k < n - 1 {
        lemma_none_rejected(a, m, bytes, list, n - 1, k);
        if list[k] != bytes {
            ddmin::lemma_remembers_grows(m, b, list[k], false);
        }
    } else if list[k] != bytes {
        if ddmin::checked(m, b, list[k], Some(false)) {
            ddmin::lemma_check_extends(m, b, list[k], Some(false));
        }
    }
}

/// The last cycle of a run, of whose passes nothing came.
proof fn lemma_last_cycle<A: Fn(&[u8]) -> Option<u32>>(
    anchor: A,
    original: Seq<u8>,
    budget: usize,
    p: Point,
) -> (r: (Option<u32>, Point, Point, Point))
    requires
        driver::is_outcome(anchor, original, budget, p),
    ensures
        ({
            let (at, w, x, y) = r;
            let bytes = p.program;
            &&& driver::anchored(anchor, bytes, at)
            &&& driver::none_applied(
                w.cache,
                x.cache,
                bytes,
                driver::cfg_candidates(bytes, at),
                driver::cfg_candidates(bytes, at).len() as int,
            )
            &&& ddmin::minimized(bytes, x.cache, y.cache, Some(bytes)) || ddmin::minimized(
                bytes,
                x.cache,
                y.cache,
                None,
            )
            &&& driver::none_applied(
                y.cache,
                p.cache,
                bytes,
                driver::operand_streams(bytes),
                driver::operand_streams(bytes).len() as int,
            )
            &&& x.cache.results@.is_prefix_of(p.cache.results@)
            &&& y.cache.results@.is_prefix_of(p.cache.results@)
            &&& x.cache.max_checks == p.cache.max_checks
            &&& y.cache.max_checks == p.cache.max_checks
        }),
{
    let points = choose|points: Seq<Point>| #[trigger]
        driver::is_run(anchor, points) && driver::is_start(points[0], original, budget)
            && driver::is_cycle(anchor, points.last(), p) && p.program == points.last().program
            && p.timeline == points.last().timeline;
    let w = points.last();
    let (x, y) = choose|x: Point, y: Point| #[trigger]
        driver::cfg_pass(anchor, w, x) && #[trigger] driver::ddmin_pass(x, y)
            && driver::operand_pass(y, p);
    let (at, r1) = choose|at: Option<u32>, r: Option<Seq<u8>>| #[trigger]
        driver::anchored(anchor, w.program, at) && #[trigger] driver::first_taken(
            w.cache,
            x.cache,
            w.program,
            driver::cfg_candidates(w.program, at),
            r,
        ) && x == w.behind("cfg"@, r, x.cache);
    let r2 = choose|r: Option<Seq<u8>>| #[trigger]
        ddmin::minimized(x.program, x.cache, y.cache, r) && y == x.behind("ddmin"@, r, y.cache);
    let r3 = choose|r: Option<Seq<u8>>| #[trigger]
        driver::first_taken(
            y.cache,
            p.cache,
            y.program,
            driver::operand_streams(y.program),
            r,
        ) && p == y.behind("operand"@, r, p.cache);
    assert(w.timeline.len() <= x.timeline.len() <= y.timeline.len() <= p.timeline.len());
    assert(x.program == w.program && y.program == x.program);
    determined::lemma_ddmin_extends(x, y);
    determined::lemma_operand_extends(y, p);
    driver::lemma_prefixes(x.cache, y.cache, p.cache);
    assert(r1 is None) by {
        if let Some(next) = r1 {
            lemma_taken_differs(
                w.cache,
                x.cache,
                w.program,
                driver::cfg_candidates(w.program, at),
                next,
            );
        }
    }
    assert(r3 is None) by {
        if let Some(next) = r3 {
            lemma_taken_differs(
                y.cache,
                p.cache,
                y.program,
                driver::operand_streams(y.program),
                next,
            );
        }
    }
    (at, w, x, y)
}

proof fn lemma_taken_differs(
    a: OracleCache,
    b: OracleCache,
    bytes: Seq<u8>,
    list: Seq<Seq<u8>>,
    next: Seq<u8>,
)
    requires
        driver::first_taken(a, b, bytes, list, Some(next)),
    ensures
        next != bytes,
{
}

/// The run over a finding: an oracle that gives one answer, no limit on the
/// evaluations, and the point at which it ends.
pub open spec fn is_full_run<F: FnMut(&[u8]) -> bool, A: Fn(&[u8]) -> Option<u32>>(
    oracle: F,
    anchor: A,
    original: Seq<u8>,
    p: Point,
) -> bool {
    &&& determined::gives_one_answer(oracle)
    &&& driver::is_outcome(anchor, original, 0, p)
    &&& p.cache.max_checks == 0
    &&& p.cache.answers(oracle)
}

/// Every operand candidate for the program that is left is rejected.
pub proof fn every_operand_candidate_is_rejected<
    F: FnMut(&[u8]) -> bool,
    A: Fn(&[u8]) -> Option<u32>,
>(oracle: F, anchor: A, original: Seq<u8>, p: Point, c: Seq<u8>)
    requires
        is_full_run(oracle, anchor, original, p),
        reduction::is_proposed(p.program, c),
    ensures
        rejects(oracle, c),
{
    let (at, w, x, y) = lemma_last_cycle(anchor, original, 0, p);
    let bytes = p.program;
    let list = driver::operand_streams(bytes);
    let k = choose|k: int|
        0 <= k < operand::all_candidates(bytes).len() && (#[trigger] operand::all_candidates(
            bytes,
        )[k]).1 == c;
    assert(list[k] == c);
    measure::operand_candidates_shrink(bytes);
    assert(measure::smaller(operand::all_candidates(bytes)[k].1, bytes));
    lemma_none_rejected(y.cache, p.cache, bytes, list, list.len() as int, k);
    lemma_rejected(oracle, p.cache, c);
}

/// No immediate of the program that is left can become a simple value nearer to 0.
pub proof fn no_smaller_immediate_is_accepted<
    F: FnMut(&[u8]) -> bool,
    A: Fn(&[u8]) -> Option<u32>,
>(
    oracle: F,
    anchor: A,
    original: Seq<u8>,
    p: Point,
    insns: Seq<BpfInsn>,
    pc: int,
    v: i32,
)
    requires
        is_full_run(oracle, anchor, original, p),
        fixup::all_single(insns),
        p.program == insn::program_bytes(insns),
        0 <= pc < insns.len(),
        names::imm_operand(insns[pc]) is Some,
        v == 0 || v == 1 || v == -1 || v == i32::MIN || v == i32::MAX,
        reduction::size(v as int) < reduction::size(names::imm_operand(insns[pc])->0 as int),
    ensures
        rejects(oracle, insn::program_bytes(insns.update(pc, names::with_imm(insns[pc], v)))),
{
    reduction::smaller_immediates_are_proposed(insns, pc, v);
    every_operand_candidate_is_rejected(
        oracle,
        anchor,
        original,
        p,
        insn::program_bytes(insns.update(pc, names::with_imm(insns[pc], v))),
    );
}

/// No register of the program that is left that holds a known number can be replaced
/// by the number.
pub proof fn no_known_constant_is_accepted<
    F: FnMut(&[u8]) -> bool,
    A: Fn(&[u8]) -> Option<u32>,
>(
    oracle: F,
    anchor: A,
    original: Seq<u8>,
    p: Point,
    insns: Seq<BpfInsn>,
    pc: int,
    v: i32,
)
    requires
        is_full_run(oracle, anchor, original, p),
        fixup::all_single(insns),
        p.program == insn::program_bytes(insns),
        0 <= pc < insns.len(),
        names::source_form(insns[pc], v) is Some,
        reduction::constant(insns, pc, (names::source_form(insns[pc], v)->0).0 as int) == Some(v),
    ensures
        rejects(
            oracle,
            insn::program_bytes(insns.update(pc, (names::source_form(insns[pc], v)->0).1)),
        ),
{
    reduction::known_constants_are_proposed(insns, pc, v);
    every_operand_candidate_is_rejected(
        oracle,
        anchor,
        original,
        p,
        insn::program_bytes(insns.update(pc, (names::source_form(insns[pc], v)->0).1)),
    );
}

/// No access of the program that is left can move nearer to 0 on its side.
pub proof fn no_nearer_offset_is_accepted<
    F: FnMut(&[u8]) -> bool,
    A: Fn(&[u8]) -> Option<u32>,
>(
    oracle: F,
    anchor: A,
    original: Seq<u8>,
    p: Point,
    insns: Seq<BpfInsn>,
    pc: int,
    off: i16,
)
    requires
        is_full_run(oracle, anchor, original, p),
        fixup::all_single(insns),
        p.program == insn::program_bytes(insns),
        0 <= pc < insns.len(),
        reduction::access_offset(insns[pc]) is Some,
        off % 8 == 0,
        off != 0,
        (off < 0) == (reduction::access_offset(insns[pc])->0 < 0),
        reduction::size(off as int) + 8 <= reduction::size(
            reduction::access_offset(insns[pc])->0 as int,
        ),
    ensures
        rejects(
            oracle,
            insn::program_bytes(insns.update(pc, reduction::with_access_offset(insns[pc], off))),
        ),
{
    reduction::nearer_offsets_are_proposed(insns, pc, off);
    every_operand_candidate_is_rejected(
        oracle,
        anchor,
        original,
        p,
        insn::program_bytes(insns.update(pc, reduction::with_access_offset(insns[pc], off))),
    );
}

/// The highest register of the program that is left cannot take a lower free place.
pub proof fn no_lower_register_is_accepted<
    F: FnMut(&[u8]) -> bool,
    A: Fn(&[u8]) -> Option<u32>,
>(
    oracle: F,
    anchor: A,
    original: Seq<u8>,
    p: Point,
    insns: Seq<BpfInsn>,
    renamed: Seq<BpfInsn>,
    high: u8,
    low: u8,
)
    requires
        is_full_run(oracle, anchor, original, p),
        fixup::all_single(insns),
        insns.len() > 0,
        p.program == insn::program_bytes(insns),
        1 <= low < high <= 9,
        reduction::is_named(insns, high as int),
        forall|q: int| high < q <= 9 ==> !(#[trigger] reduction::is_named(insns, q)),
        !reduction::is_named(insns, low as int),
        forall|q: int| 1 <= q < low ==> #[trigger] reduction::is_named(insns, q),
        reduction::is_renamed(insns, renamed, high, low),
    ensures
        rejects(oracle, insn::program_bytes(renamed)),
{
    reduction::lower_registers_are_proposed(insns, renamed, high, low);
    every_operand_candidate_is_rejected(
        oracle,
        anchor,
        original,
        p,
        insn::program_bytes(renamed),
    );
}

/// No instruction of the program that is left can be deleted, where the oracle
/// accepts that program: what stays without it is rejected.
pub proof fn no_deletion_is_accepted<F: FnMut(&[u8]) -> bool, A: Fn(&[u8]) -> Option<u32>>(
    oracle: F,
    anchor: A,
    original: Seq<u8>,
    p: Point,
    insns: Seq<BpfInsn>,
    i: int,
    out: Seq<BpfInsn>,
)
    requires
        is_full_run(oracle, anchor, original, p),
        ddmin::says(oracle, p.program, true),
        fixup::all_single(insns),
        2 <= insns.len() <= u32::MAX,
        p.program == insn::program_bytes(insns),
        0 <= i < insns.len(),
        is_left(
            insns,
            Seq::new((insns.len() - 1) as nat, |j: int| if j < i {
                j
            } else {
                j + 1
            }),
            out,
        ),
    ensures
        rejects(oracle, insn::program_bytes(out)),
{
    let n = insns.len() as int;
    let bytes = p.program;
    let stays = Seq::new((n - 1) as nat, |j: int| if j < i {
        j
    } else {
        j + 1
    });
    let (at, w, x, y) = lemma_last_cycle(anchor, original, 0, p);
    assert(bytes.len() == 8 * n);
    if ddmin::minimized(bytes, x.cache, y.cache, None) {
        ddmin::lemma_check_extends(x.cache, y.cache, bytes, Some(false));
        ddmin::lemma_remembers_grows(y.cache, p.cache, bytes, false);
        lemma_rejected(oracle, p.cache, bytes);
    } else {
        ddmin::lemma_minimized(bytes, x.cache, y.cache, Some(bytes));
        assert(ddmin::one_minimal(y.cache, bytes));
        assert(ddmin::essential(y.cache, bytes, i));
        deletion_leads_branches_on(insns, stays, out);
        assert(rest(stays, n) =~= set![i]) by {
            assert forall|k: int| rest(stays, n).contains(k) == set![i].contains(k) by {
                if 0 <= k < n && k != i {
                    if k < i {
                        assert(stays[k] == k);
                    } else {
                        assert(stays[k - 1] == k);
                    }
                }
            }
        }
        ddmin::lemma_remembers_grows(y.cache, p.cache, insn::program_bytes(out), false);
        lemma_rejected(oracle, p.cache, insn::program_bytes(out));
    }
}

/// No candidate of the control-flow passes is accepted for the program that is left:
/// not the one without dead code, nor the slice, nor a simpler branch.
pub proof fn no_cut_is_accepted<F: FnMut(&[u8]) -> bool, A: Fn(&[u8]) -> Option<u32>>(
    oracle: F,
    anchor: A,
    original: Seq<u8>,
    p: Point,
    c: Seq<u8>,
)
    requires
        is_full_run(oracle, anchor, original, p),
    ensures
        passes::without_dead(p.program) == Some(c) ==> rejects(oracle, c),
        passes::simplified(p.program).contains(c) ==> rejects(oracle, c),
        exists|at: Option<u32>| #[trigger]
            driver::anchored(anchor, p.program, at) && (passes::sliced(p.program, at) == Some(c)
                ==> rejects(oracle, c)),
{
    let (at, w, x, y) = lemma_last_cycle(anchor, original, 0, p);
    let bytes = p.program;
    let list = driver::cfg_candidates(bytes, at);
    measure::cfg_candidates_shrink(bytes, at);
    let dead = driver::optional(passes::without_dead(bytes));
    let slice = driver::optional(passes::sliced(bytes, at));
    let both = driver::optional(driver::dead_then_sliced(bytes, at));
    let sides = passes::simplified(bytes);
    if passes::without_dead(bytes) == Some(c) {
        assert(list[0] == c);
        lemma_listed_rejected(oracle, w.cache, x.cache, p.cache, bytes, list, 0);
    }
    if passes::sliced(bytes, at) == Some(c) {
        assert(list[dead.len() as int] == c);
        lemma_listed_rejected(oracle, w.cache, x.cache, p.cache, bytes, list, dead.len() as int);
    }
    if sides.contains(c) {
        let j = choose|j: int| 0 <= j < sides.len() && sides[j] == c;
        let k = dead.len() + slice.len() + both.len() + j;
        assert(list[k] == c);
        assert(measure::smaller(sides[j], bytes));
        lemma_listed_rejected(oracle, w.cache, x.cache, p.cache, bytes, list, k);
    }
    assert(driver::anchored(anchor, bytes, at));
}

proof fn lemma_listed_rejected<F: FnMut(&[u8]) -> bool>(
    oracle: F,
    a: OracleCache,
    b: OracleCache,
    last: OracleCache,
    bytes: Seq<u8>,
    list: Seq<Seq<u8>>,
    k: int,
)
    requires
        determined::gives_one_answer(oracle),
        last.answers(oracle),
        b.max_checks == 0,
        b.results@.is_prefix_of(last.results@),
        driver::none_applied(a, b, bytes, list, list.len() as int),
        0 <= k < list.len(),
        measure::smaller(list[k], bytes),
    ensures
        rejects(oracle, list[k]),
{
    lemma_none_rejected(a, b, bytes, list, list.len() as int, k);
    ddmin::lemma_remembers_grows(b, last, list[k], false);
    lemma_rejected(oracle, last, list[k]);
}

} // verus!
