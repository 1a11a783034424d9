//! The reducer: replay and invariant, deletion, delta debugging, control-flow
//! passes and operand minimization composed into one run.
//!
//! Each cycle runs the control-flow passes (dead code, slice, branch
//! simplification), then delta debugging, then operand minimization; cycles
//! repeat until a whole cycle makes no progress. Every candidate is validated
//! by the oracle, and the reduced program is evaluated once more at the end:
//! it must still exhibit the finding.

use vstd::prelude::*;

use crate::fuzz::oracle::ConcreteSide;
use crate::fuzz::reduce::ddmin;
use crate::fuzz::reduce::ddmin::{to_vec, OracleCache};
use crate::fuzz::reduce::measure;
use crate::fuzz::reduce::operand;
use crate::fuzz::reduce::operand::{operand_candidates, OperandCandidate};
use crate::fuzz::reduce::passes;
use crate::fuzz::reduce::passes::{dead_code, simplify_dead_side, slice_to_anchor};
use crate::fuzz::reduce::replay;
use crate::fuzz::reduce::replay::{load_and_replay, Baseline, Invariant, ReduceError, Sides};
use crate::text;
use crate::text::push_dec;

verus! {

/// The reducer configuration.
#[derive(Debug, Clone)]
pub struct ReduceConfig {
    /// Oracle checks at most; 0 is no limit.
    pub budget: usize,
    /// Consult the kernel for every evaluation.
    pub kernel: bool,
    /// The kernel runs with unprivileged-equivalent rules.
    pub strict: bool,
    /// The share of a guest that gives the kernel verdicts, in place of the
    /// host.
    pub qemu_dir: Option<String>,
}

/// The pass that produced a program, and the number of instructions behind
/// it.
pub type TimelineEntry = (String, usize);

/// The result of one reduction.
#[derive(Debug, Clone, PartialEq, Eq)]
pub struct ReduceReport {
    pub name: String,
    pub label: String,
    pub original_insns: usize,
    pub final_insns: usize,
    pub timeline: Vec<TimelineEntry>,
    pub checks: usize,
    pub hits: usize,
    pub budget: usize,
    pub final_mini: String,
    pub final_kernel: String,
}

// ── The candidates of a cycle ───────────────────────────────────────────────

/// A list of one or none.
pub open spec fn optional(c: Option<Seq<u8>>) -> Seq<Seq<u8>> {
    match c {
        Some(b) => seq![b],
        None => seq![],
    }
}

/// The slice of what dead-code elimination leaves.
pub open spec fn dead_then_sliced(bytes: Seq<u8>, anchor: Option<u32>) -> Option<Seq<u8>> {
    match passes::without_dead(bytes) {
        Some(d) => passes::sliced(d, anchor),
        None => None,
    }
}

/// The candidates of the control-flow passes, in the order in which they are
/// tried.
pub open spec fn cfg_candidates(bytes: Seq<u8>, anchor: Option<u32>) -> Seq<Seq<u8>> {
    optional(passes::without_dead(bytes)) + optional(passes::sliced(bytes, anchor)) + optional(
        dead_then_sliced(bytes, anchor),
    ) + passes::simplified(bytes)
}

/// The candidates of operand minimization.
pub open spec fn operand_streams(bytes: Seq<u8>) -> Seq<Seq<u8>> {
    operand::all_candidates(bytes).map_values(|c: (Seq<char>, Seq<u8>)| c.1)
}

/// Every candidate of both lists is smaller than the program.
proof fn lemma_candidates_shrink(bytes: Seq<u8>, anchor: Option<u32>)
    ensures
        forall|k: int|
            0 <= k < cfg_candidates(bytes, anchor).len() ==> measure::smaller(
                #[trigger] cfg_candidates(bytes, anchor)[k],
                bytes,
            ),
        forall|k: int|
            0 <= k < operand_streams(bytes).len() ==> measure::smaller(
                #[trigger] operand_streams(bytes)[k],
                bytes,
            ),
{
    measure::cfg_candidates_shrink(bytes, anchor);
    measure::operand_candidates_shrink(bytes);
    if let Some(d) = passes::without_dead(bytes) {
        measure::cfg_candidates_shrink(d, anchor);
    }
    let list = cfg_candidates(bytes, anchor);
    assert forall|k: int| 0 <= k < list.len() implies measure::smaller(#[trigger] list[k], bytes) by {
        let n = list.len() - passes::simplified(bytes).len();
        if k >= n {
            assert(list[k] == passes::simplified(bytes)[k - n]);
        }
    }
    assert forall|k: int| 0 <= k < operand_streams(bytes).len() implies measure::smaller(
        #[trigger] operand_streams(bytes)[k],
        bytes,
    ) by {
        assert(measure::smaller(operand::all_candidates(bytes)[k].1, bytes));
    }
}

fn push_optional(list: &mut Vec<Vec<u8>>, c: Option<Vec<u8>>)
    ensures
        passes::streams(final(list)@) == passes::streams(old(list)@) + optional(passes::stream(c)),
{
    let ghost before = list@;
    let ghost view = passes::stream(c);
    match c {
        Some(b) => {
            list.push(b);
        },
        None => {},
    }
    assert(passes::streams(list@) =~= passes::streams(before) + optional(view));
}

fn append_streams(list: &mut Vec<Vec<u8>>, tail: Vec<Vec<u8>>)
    ensures
        passes::streams(final(list)@) == passes::streams(old(list)@) + passes::streams(tail@),
{
    let ghost before = list@;
    let mut rest: Vec<Vec<u8>> = tail;
    list.append(&mut rest);
    assert(passes::streams(list@) =~= passes::streams(before) + passes::streams(tail@));
}

/// The candidates of the control-flow passes.
fn cfg_list(bytes: &[u8], anchor: Option<u32>) -> (list: Vec<Vec<u8>>)
    requires
        bytes@.len() / 8 <= u32::MAX,
    ensures
        passes::streams(list@) == cfg_candidates(bytes@, anchor),
{
    let mut list: Vec<Vec<u8>> = Vec::new();
    assert(passes::streams(list@) =~= Seq::<Seq<u8>>::empty());
    push_optional(&mut list, dead_code(bytes));
    push_optional(&mut list, slice_to_anchor(bytes, anchor));
    proof {
        measure::cfg_candidates_shrink(bytes@, anchor);
    }
    let both: Option<Vec<u8>> = match dead_code(bytes) {
        Some(d) => slice_to_anchor(&d, anchor),
        None => None,
    };
    push_optional(&mut list, both);
    append_streams(&mut list, simplify_dead_side(bytes));
    assert(passes::streams(list@) =~= cfg_candidates(bytes@, anchor));
    list
}

/// The candidates of operand minimization.
fn operand_list(bytes: &[u8]) -> (list: Vec<Vec<u8>>)
    ensures
        passes::streams(list@) == operand_streams(bytes@),
{
    let all: Vec<OperandCandidate> = operand_candidates(bytes);
    let mut list: Vec<Vec<u8>> = Vec::new();
    let mut i: usize = 0;
    while i < all.len()
        invariant
            i <= all@.len(),
            list@.len() == i,
            forall|k: int| 0 <= k < i ==> (#[trigger] list@[k])@ == all@[k].1@,
        decreases all@.len() - i,
    {
        list.push(to_vec(&all[i].1));
        i = i + 1;
    }
    proof {
        assert forall|k: int| 0 <= k < list@.len() implies #[trigger] passes::streams(list@)[k]
            == operand_streams(bytes@)[k] by {
            assert(operand::listed(all@)[k] == (all@[k].0@, all@[k].1@));
        }
        assert(operand::listed(all@).len() == all@.len());
        assert(passes::streams(list@) =~= operand_streams(bytes@));
    }
    list
}

// ── One candidate ───────────────────────────────────────────────────────────

/// Nothing came of a candidate: it is the program itself, or the oracle
/// rejected it, or the budget was spent.
pub open spec fn tried(cache: OracleCache, bytes: Seq<u8>, c: Seq<u8>) -> bool {
    c == bytes || cache.remembers(c, false) || cache.spent()
}

/// Nothing came of any candidate of a list.
pub open spec fn all_tried(cache: OracleCache, bytes: Seq<u8>, list: Seq<Seq<u8>>) -> bool {
    forall|k: int| 0 <= k < list.len() ==> tried(cache, bytes, #[trigger] list[k])
}

proof fn lemma_tried_grows<F: FnMut(&[u8]) -> bool>(
    a: OracleCache,
    b: OracleCache,
    oracle: F,
    bytes: Seq<u8>,
    list: Seq<Seq<u8>>,
)
    requires
        a.wf(),
        ddmin::grown(a, b, oracle),
        all_tried(a, bytes, list),
    ensures
        all_tried(b, bytes, list),
{
    assert forall|k: int| 0 <= k < list.len() implies tried(b, bytes, #[trigger] list[k]) by {
        let c = list[k];
        assert(tried(a, bytes, c));
        if a.remembers(c, false) {
            ddmin::lemma_remembers_grows(a, b, c, false);
        }
    }
}

/// The candidate `c` is tried on a program: the cache `a` becomes `b`, and `ok` is
/// whether it is taken. It must differ from the program and be accepted.
pub open spec fn is_applied(
    a: OracleCache,
    b: OracleCache,
    bytes: Seq<u8>,
    c: Seq<u8>,
    ok: bool,
) -> bool {
    if c == bytes {
        !ok && b == a
    } else if ok {
        ddmin::checked(a, b, c, Some(true))
    } else {
        ddmin::checked(a, b, c, Some(false)) || ddmin::checked(a, b, c, None)
    }
}

/// The first `k` candidates of a list are tried in their order, and none is taken.
pub open spec fn none_applied(
    a: OracleCache,
    b: OracleCache,
    bytes: Seq<u8>,
    list: Seq<Seq<u8>>,
    k: int,
) -> bool
    decreases k,
{
    if k <= 0 {
        b == a
    } else {
        exists|m: OracleCache|
            none_applied(a, m, bytes, list, k - 1) && #[trigger] is_applied(
                m,
                b,
                bytes,
                list[k - 1],
                false,
            )
    }
}

/// `r` is the first candidate of the list that is taken.
pub open spec fn first_taken(
    a: OracleCache,
    b: OracleCache,
    bytes: Seq<u8>,
    list: Seq<Seq<u8>>,
    r: Option<Seq<u8>>,
) -> bool {
    match r {
        Some(next) => exists|k: int, m: OracleCache| #[trigger]
            none_applied(a, m, bytes, list, k) && 0 <= k < list.len() && list[k] == next
                && is_applied(m, b, bytes, next, true),
        None => none_applied(a, b, bytes, list, list.len() as int),
    }
}

/// One candidate that is tried adds itself to the cache or nothing.
pub proof fn lemma_applied_extends(
    a: OracleCache,
    b: OracleCache,
    bytes: Seq<u8>,
    c: Seq<u8>,
    ok: bool,
)
    requires
        is_applied(a, b, bytes, c, ok),
    ensures
        b.max_checks == a.max_checks,
        a.results@.is_prefix_of(b.results@),
        forall|k: int|
            a.results@.len() <= k < b.results@.len() ==> (#[trigger] b.results@[k]).0@ == c
                && b.results@[k].1 == ok,
{
    if c == bytes {
        assert(a.results@ =~= b.results@.take(a.results@.len() as int));
    } else if ok {
        ddmin::lemma_check_extends(a, b, c, Some(true));
    } else if ddmin::checked(a, b, c, Some(false)) {
        ddmin::lemma_check_extends(a, b, c, Some(false));
    } else {
        ddmin::lemma_check_extends(a, b, c, None);
    }
}

/// Candidates that are tried and not taken add only rejected ones to the cache.
pub proof fn lemma_none_extends(
    a: OracleCache,
    b: OracleCache,
    bytes: Seq<u8>,
    list: Seq<Seq<u8>>,
    n: int,
)
    requires
        none_applied(a, b, bytes, list, n),
        n <= list.len(),
    ensures
        b.max_checks == a.max_checks,
        a.results@.is_prefix_of(b.results@),
        forall|k: int|
            a.results@.len() <= k < b.results@.len() ==> list.contains(
                (#[trigger] b.results@[k]).0@,
            ) && !b.results@[k].1,
    decreases n,
{
    if n <= 0 {
        assert(a.results@ =~= b.results@.take(a.results@.len() as int));
    } else {
        let m = choose|m: OracleCache|
            none_applied(a, m, bytes, list, n - 1) && #[trigger] is_applied(
                m,
                b,
                bytes,
                list[n - 1],
                false,
            );
        lemma_none_extends(a, m, bytes, list, n - 1);
        lemma_applied_extends(m, b, bytes, list[n - 1], false);
        lemma_prefixes(a, m, b);
        assert forall|k: int| a.results@.len() <= k < b.results@.len() implies list.contains(
            (#[trigger] b.results@[k]).0@,
        ) && !b.results@[k].1 by {
            if k < m.results@.len() {
                assert(b.results@[k] == m.results@[k]);
            } else {
                assert(list.contains(list[n - 1]));
            }
        }
    }
}

pub proof fn lemma_prefixes(a: OracleCache, b: OracleCache, c: OracleCache)
    requires
        a.results@.is_prefix_of(b.results@),
        b.results@.is_prefix_of(c.results@),
    ensures
        a.results@.is_prefix_of(c.results@),
{
    assert forall|i: int| 0 <= i < a.results@.len() implies a.results@[i] == c.results@[i] by {
        assert(b.results@[i] == a.results@[i]);
        assert(c.results@[i] == b.results@[i]);
    }
    assert(a.results@ =~= c.results@.take(a.results@.len() as int));
}

/// What trying a list adds to the cache: candidates, of which at most the one that
/// is taken was accepted.
pub proof fn lemma_taken_extends(
    a: OracleCache,
    b: OracleCache,
    bytes: Seq<u8>,
    list: Seq<Seq<u8>>,
    r: Option<Seq<u8>>,
)
    requires
        first_taken(a, b, bytes, list, r),
    ensures
        b.max_checks == a.max_checks,
        a.results@.is_prefix_of(b.results@),
        forall|k: int|
            a.results@.len() <= k < b.results@.len() ==> list.contains(
                (#[trigger] b.results@[k]).0@,
            ) && (b.results@[k].1 ==> r == Some(b.results@[k].0@)),
{
    match r {
        Some(next) => {
            let (n, m) = choose|n: int, m: OracleCache| #[trigger]
                none_applied(a, m, bytes, list, n) && 0 <= n < list.len() && list[n] == next
                    && is_applied(m, b, bytes, next, true);
            lemma_none_extends(a, m, bytes, list, n);
            lemma_applied_extends(m, b, bytes, next, true);
            lemma_prefixes(a, m, b);
            assert forall|k: int| a.results@.len() <= k < b.results@.len() implies list.contains(
                (#[trigger] b.results@[k]).0@,
            ) && (b.results@[k].1 ==> r == Some(b.results@[k].0@)) by {
                if k < m.results@.len() {
                    assert(b.results@[k] == m.results@[k]);
                } else {
                    assert(list.contains(list[n]));
                }
            }
        },
        None => {
            lemma_none_extends(a, b, bytes, list, list.len() as int);
        },
    }
}

/// Try one candidate: it must differ from the current program and pass the
/// oracle.
fn apply<F: FnMut(&[u8]) -> bool>(
    current: &[u8],
    candidate: &Vec<u8>,
    cache: &mut OracleCache,
    oracle: &mut F,
) -> (r: bool)
    requires
        old(cache).wf(),
        ddmin::askable(*old(oracle)),
    ensures
        *final(oracle) == *old(oracle),
        ddmin::grown(*old(cache), *final(cache), *old(oracle)),
        is_applied(*old(cache), *final(cache), current@, candidate@, r),
        r ==> candidate@ != current@ && final(cache).remembers(candidate@, true),
        !r ==> tried(*final(cache), current@, candidate@),
{
    if ddmin::same_bytes(candidate, current) {
        proof {
            assert(old(cache).results@.is_prefix_of(cache.results@));
        }
        return false;
    }
    let answer: Option<bool> = cache.check(candidate, oracle);
    proof {
        ddmin::lemma_checked(*old(cache), *cache, *old(oracle), candidate@, answer);
    }
    match answer {
        Some(true) => true,
        _ => false,
    }
}

/// Try candidates in order; the first that passes is taken.
fn first_applied<F: FnMut(&[u8]) -> bool>(
    current: &[u8],
    list: &Vec<Vec<u8>>,
    cache: &mut OracleCache,
    oracle: &mut F,
) -> (r: Option<Vec<u8>>)
    requires
        old(cache).wf(),
        ddmin::askable(*old(oracle)),
    ensures
        *final(oracle) == *old(oracle),
        ddmin::grown(*old(cache), *final(cache), *old(oracle)),
        first_taken(
            *old(cache),
            *final(cache),
            current@,
            passes::streams(list@),
            passes::stream(r),
        ),
        match r {
            Some(next) => {
                &&& passes::streams(list@).contains(next@)
                &&& next@ != current@
                &&& final(cache).remembers(next@, true)
            },
            None => all_tried(*final(cache), current@, passes::streams(list@)),
        },
{
    let ghost all = passes::streams(list@);
    let mut i: usize = 0;
    proof {
        ddmin::lemma_grown_refl(*cache, *old(oracle));
    }
    while i < list.len()
        invariant
            i <= list@.len(),
            all == passes::streams(list@),
            old(cache).wf(),
            ddmin::askable(*oracle),
            *oracle == *old(oracle),
            ddmin::grown(*old(cache), *cache, *old(oracle)),
            all_tried(*cache, current@, all.take(i as int)),
            none_applied(*old(cache), *cache, current@, all, i as int),
        decreases list@.len() - i,
    {
        let ghost before = *cache;
        let ok: bool = apply(current, &list[i], cache, oracle);
        proof {
            ddmin::lemma_grown_trans(*old(cache), before, *cache, *old(oracle));
            lemma_tried_grows(before, *cache, *old(oracle), current@, all.take(i as int));
            assert(all[i as int] == list@[i as int]@);
            assert(none_applied(*old(cache), before, current@, all, i as int));
        }
        if ok {
            assert(all.contains(all[i as int]));
            return Some(to_vec(&list[i]));
        }
        proof {
            assert(is_applied(before, *cache, current@, all[i + 1 - 1], false));
            assert(none_applied(*old(cache), *cache, current@, all, i + 1));
            assert(all.take(i + 1) =~= all.take(i as int).push(all[i as int]));
        }
        i = i + 1;
    }
    assert(all.take(i as int) =~= all);
    None
}

pub open spec fn insns_of(bytes: Seq<u8>) -> int {
    bytes.len() as int / 8
}

/// The number of instructions of a program.
pub fn insn_count(bytes: &[u8]) -> (n: usize)
    ensures
        n == insns_of(bytes@),
{
    bytes.len() / 8
}

// ── The timeline ────────────────────────────────────────────────────────────

/// What a timeline tells: the passes, and how many instructions each left.
pub open spec fn told(timeline: Seq<TimelineEntry>) -> Seq<(Seq<char>, int)> {
    timeline.map_values(|e: TimelineEntry| (e.0@, e.1 as int))
}

/// A point of the run: the program, the timeline up to it, and the cache.
pub struct Point {
    pub program: Seq<u8>,
    pub timeline: Seq<(Seq<char>, int)>,
    pub cache: OracleCache,
}

impl Point {
    /// The point behind a pass that made `r`. A pass that makes nothing new leaves
    /// no trace in the timeline.
    pub open spec fn behind(self, pass: Seq<char>, r: Option<Seq<u8>>, cache: OracleCache) -> Point {
        match r {
            Some(next) => if next != self.program {
                Point { program: next, timeline: self.timeline.push((pass, insns_of(next))), cache }
            } else {
                Point { cache, ..self }
            },
            None => Point { cache, ..self },
        }
    }
}

/// The control-flow passes lead from `p` to `q`.
pub open spec fn cfg_pass<A: Fn(&[u8]) -> Option<u32>>(anchor: A, p: Point, q: Point) -> bool {
    exists|at: Option<u32>, r: Option<Seq<u8>>| #[trigger]
        anchored(anchor, p.program, at) && #[trigger] first_taken(
            p.cache,
            q.cache,
            p.program,
            cfg_candidates(p.program, at),
            r,
        ) && q == p.behind("cfg"@, r, q.cache)
}

/// Delta debugging leads from `p` to `q`.
pub open spec fn ddmin_pass(p: Point, q: Point) -> bool {
    exists|r: Option<Seq<u8>>| #[trigger]
        ddmin::minimized(p.program, p.cache, q.cache, r) && q == p.behind("ddmin"@, r, q.cache)
}

/// Operand minimization leads from `p` to `q`.
pub open spec fn operand_pass(p: Point, q: Point) -> bool {
    exists|r: Option<Seq<u8>>| #[trigger]
        first_taken(p.cache, q.cache, p.program, operand_streams(p.program), r) && q == p.behind(
            "operand"@,
            r,
            q.cache,
        )
}

/// A whole cycle of the passes leads from `p` to `q`.
pub open spec fn is_cycle<A: Fn(&[u8]) -> Option<u32>>(anchor: A, p: Point, q: Point) -> bool {
    exists|x: Point, y: Point| #[trigger]
        cfg_pass(anchor, p, x) && #[trigger] ddmin_pass(x, y) && operand_pass(y, q)
}

/// Cycles behind each other, each with progress.
pub open spec fn is_run<A: Fn(&[u8]) -> Option<u32>>(anchor: A, points: Seq<Point>) -> bool {
    &&& points.len() > 0
    &&& forall|i: int|
        0 < i < points.len() ==> is_cycle(anchor, points[i - 1], #[trigger] points[i])
            && points[i - 1].timeline.len() < points[i].timeline.len()
}

/// The point at which a run starts.
pub open spec fn is_start(p: Point, original: Seq<u8>, budget: usize) -> bool {
    &&& p.program == original
    &&& p.timeline == seq![("start"@, insns_of(original))]
    &&& p.cache.results@.len() == 0
    &&& p.cache.max_checks == budget
    &&& p.cache.checks == 0
    &&& p.cache.hits == 0
}

/// `p` is where a run from `original` ends: cycles run as long as they make
/// progress, and the last one makes none.
pub open spec fn is_outcome<A: Fn(&[u8]) -> Option<u32>>(
    anchor: A,
    original: Seq<u8>,
    budget: usize,
    p: Point,
) -> bool {
    exists|points: Seq<Point>| #[trigger]
        is_run(anchor, points) && is_start(points[0], original, budget) && is_cycle(
            anchor,
            points.last(),
            p,
        ) && p.program == points.last().program && p.timeline == points.last().timeline
}

/// One more cycle makes a longer run.
proof fn lemma_run_pushed<A: Fn(&[u8]) -> Option<u32>>(anchor: A, points: Seq<Point>, next: Point)
    requires
        is_run(anchor, points),
        is_cycle(anchor, points.last(), next),
        points.last().timeline.len() < next.timeline.len(),
    ensures
        is_run(anchor, points.push(next)),
{
    let all = points.push(next);
    assert forall|i: int| 0 < i < all.len() implies is_cycle(anchor, all[i - 1], #[trigger] all[i])
        && all[i - 1].timeline.len() < all[i].timeline.len() by {
        if i < points.len() {
            assert(is_cycle(anchor, points[i - 1], points[i]));
        }
    }
}

// ── What is evaluated ───────────────────────────────────────────────────────

/// `c` is `bytes` or what some pass proposes for it.
pub open spec fn is_candidate<A: Fn(&[u8]) -> Option<u32>>(
    anchor: A,
    bytes: Seq<u8>,
    c: Seq<u8>,
) -> bool {
    ||| exists|at: Option<u32>| #[trigger]
        anchored(anchor, bytes, at) && cfg_candidates(bytes, at).contains(c)
    ||| ddmin::reduced_from(bytes, c)
    ||| operand_streams(bytes).contains(c)
}

/// `c` is a candidate for the original program or for one that was accepted.
pub open spec fn is_proposed<A: Fn(&[u8]) -> Option<u32>>(
    anchor: A,
    original: Seq<u8>,
    cache: OracleCache,
    c: Seq<u8>,
) -> bool {
    exists|p: Seq<u8>|
        (p == original || cache.remembers(p, true)) && #[trigger] is_candidate(anchor, p, c)
}

/// The evaluations were spent on candidates alone.
pub open spec fn all_proposed<A: Fn(&[u8]) -> Option<u32>>(
    anchor: A,
    original: Seq<u8>,
    cache: OracleCache,
) -> bool {
    forall|k: int|
        0 <= k < cache.results@.len() ==> is_proposed(
            anchor,
            original,
            cache,
            (#[trigger] cache.results@[k]).0@,
        )
}

/// A pass adds candidates for its program, and it leaves nothing longer than what
/// was accepted.
proof fn lemma_pass_adds<A: Fn(&[u8]) -> Option<u32>>(
    anchor: A,
    original: Seq<u8>,
    a: OracleCache,
    b: OracleCache,
    before: Seq<u8>,
    after: Seq<u8>,
)
    requires
        all_proposed(anchor, original, a),
        ddmin::best_since(0, a, before),
        a.results@.is_prefix_of(b.results@),
        before == original || a.remembers(before, true),
        after.len() <= before.len(),
        forall|k: int|
            a.results@.len() <= k < b.results@.len() ==> is_candidate(
                anchor,
                before,
                (#[trigger] b.results@[k]).0@,
            ) && (b.results@[k].1 ==> after.len() <= b.results@[k].0@.len()),
    ensures
        all_proposed(anchor, original, b),
        ddmin::best_since(0, b, after),
{
    if before != original {
        ddmin::lemma_remembers_grows(a, b, before, true);
    }
    assert forall|k: int| 0 <= k < b.results@.len() implies is_proposed(
        anchor,
        original,
        b,
        (#[trigger] b.results@[k]).0@,
    ) by {
        let c = b.results@[k].0@;
        if k < a.results@.len() {
            assert(b.results@[k] == a.results@[k]);
            let p = choose|p: Seq<u8>|
                (p == original || a.remembers(p, true)) && #[trigger] is_candidate(anchor, p, c);
            if p != original {
                ddmin::lemma_remembers_grows(a, b, p, true);
            }
            assert(is_candidate(anchor, p, c));
        } else {
            assert(is_candidate(anchor, before, c));
        }
    }
    assert forall|k: int|
        0 <= k < b.results@.len() && (#[trigger] b.results@[k]).1 implies after.len()
        <= b.results@[k].0@.len() by {
        if k < a.results@.len() {
            assert(b.results@[k] == a.results@[k]);
        }
    }
}

fn note(timeline: &mut Vec<TimelineEntry>, pass: &str, current: &[u8])
    ensures
        final(timeline)@.len() == old(timeline)@.len() + 1,
        final(timeline)@.drop_last() == old(timeline)@,
        final(timeline)@.last().0@ == pass@,
        final(timeline)@.last().1 == insns_of(current@),
        told(final(timeline)@) == told(old(timeline)@).push((pass@, insns_of(current@))),
{
    let mut name: String = String::new();
    name.append(pass);
    assert(name@ =~= pass@);
    timeline.push((name, insn_count(current)));
    assert(timeline@.drop_last() =~= old(timeline)@);
    assert(told(timeline@) =~= told(old(timeline)@).push((pass@, insns_of(current@))));
}

// ── The run ─────────────────────────────────────────────────────────────────

/// What stands at every point of the run: the program is the original or was
/// accepted by the oracle, it is no longer, and the cache is that of this
/// oracle.
pub open spec fn reducing<F: FnMut(&[u8]) -> bool>(
    original: Seq<u8>,
    current: Seq<u8>,
    cache: OracleCache,
    oracle: F,
) -> bool {
    &&& cache.wf()
    &&& cache.answers(oracle)
    &&& current.len() <= original.len()
    &&& current == original || cache.remembers(current, true)
}

/// A whole cycle on `bytes` makes no progress.
pub open spec fn is_fixpoint(cache: OracleCache, bytes: Seq<u8>, anchor: Option<u32>) -> bool {
    &&& all_tried(cache, bytes, cfg_candidates(bytes, anchor))
    &&& all_tried(cache, bytes, operand_streams(bytes))
    &&& bytes.len() >= 16 && !cache.spent() ==> cache.remembers(bytes, false)
        || ddmin::one_minimal(cache, bytes)
}

/// `a` may be the failure anchor of these bytes.
pub open spec fn anchored<A: Fn(&[u8]) -> Option<u32>>(
    anchor: A,
    bytes: Seq<u8>,
    a: Option<u32>,
) -> bool {
    exists|b: &[u8]| b@ == bytes && #[trigger] call_ensures(anchor, (b,), a)
}

fn ask_anchor<A: Fn(&[u8]) -> Option<u32>>(anchor: &A, bytes: &[u8]) -> (a: Option<u32>)
    requires
        forall|b: &[u8]| #[trigger] call_requires(*anchor, (b,)),
    ensures
        anchored(*anchor, bytes@, a),
{
    let a: Option<u32> = anchor(bytes);
    assert(call_ensures(*anchor, (bytes,), a));
    a
}

/// The point that the variables of a run stand for.
spec fn point(current: Vec<u8>, timeline: Vec<TimelineEntry>, cache: OracleCache) -> Point {
    Point { program: current@, timeline: told(timeline@), cache }
}

/// What holds at every point of a run.
spec fn is_good<F: FnMut(&[u8]) -> bool, A: Fn(&[u8]) -> Option<u32>>(
    oracle: F,
    anchor: A,
    original: Seq<u8>,
    p: Point,
) -> bool {
    &&& reducing(original, p.program, p.cache, oracle)
    &&& ddmin::best_since(0, p.cache, p.program)
    &&& all_proposed(anchor, original, p.cache)
}

/// What a pass does to a point: it makes the program smaller, or it leaves the
/// program and the timeline.
spec fn has_moved(p: Point, q: Point, moved: bool) -> bool {
    if moved {
        measure::smaller(q.program, p.program) && p.timeline.len() < q.timeline.len()
    } else {
        q.program == p.program && q.timeline == p.timeline
    }
}

/// A pass over a list of candidates keeps what holds.
proof fn lemma_list_pass<F: FnMut(&[u8]) -> bool, A: Fn(&[u8]) -> Option<u32>>(
    oracle: F,
    anchor: A,
    original: Seq<u8>,
    p: Point,
    list: Seq<Seq<u8>>,
    pass: Seq<char>,
    r: Option<Seq<u8>>,
    cache: OracleCache,
)
    requires
        is_good(oracle, anchor, original, p),
        ddmin::grown(p.cache, cache, oracle),
        first_taken(p.cache, cache, p.program, list, r),
        r matches Some(next) ==> list.contains(next) && next != p.program && cache.remembers(
            next,
            true,
        ),
        forall|k: int| 0 <= k < list.len() ==> measure::smaller(#[trigger] list[k], p.program),
        forall|c: Seq<u8>| list.contains(c) ==> #[trigger] is_candidate(anchor, p.program, c),
    ensures
        is_good(oracle, anchor, original, p.behind(pass, r, cache)),
        has_moved(p, p.behind(pass, r, cache), r is Some),
{
    let q = p.behind(pass, r, cache);
    lemma_taken_extends(p.cache, cache, p.program, list, r);
    if let Some(next) = r {
        let k = choose|k: int| 0 <= k < list.len() && list[k] == next;
        assert(measure::smaller(list[k], p.program));
    }
    lemma_pass_adds(anchor, original, p.cache, cache, p.program, q.program);
    lemma_reducing_grows(original, p.program, p.cache, cache, oracle);
}

/// The control-flow passes, with the anchor that was asked for.
fn run_cfg<F: FnMut(&[u8]) -> bool, A: Fn(&[u8]) -> Option<u32>>(
    current: &mut Vec<u8>,
    timeline: &mut Vec<TimelineEntry>,
    cache: &mut OracleCache,
    oracle: &mut F,
    anchor: &A,
    Ghost(original): Ghost<Seq<u8>>,
) -> (r: (Option<u32>, bool))
    requires
        old(current)@.len() / 8 <= u32::MAX,
        ddmin::askable(*old(oracle)),
        forall|b: &[u8]| #[trigger] call_requires(*anchor, (b,)),
        is_good(
            *old(oracle),
            *anchor,
            original,
            point(*old(current), *old(timeline), *old(cache)),
        ),
    ensures
        *final(oracle) == *old(oracle),
        ddmin::grown(*old(cache), *final(cache), *old(oracle)),
        is_good(
            *old(oracle),
            *anchor,
            original,
            point(*final(current), *final(timeline), *final(cache)),
        ),
        cfg_pass(
            *anchor,
            point(*old(current), *old(timeline), *old(cache)),
            point(*final(current), *final(timeline), *final(cache)),
        ),
        has_moved(
            point(*old(current), *old(timeline), *old(cache)),
            point(*final(current), *final(timeline), *final(cache)),
            r.1,
        ),
        anchored(*anchor, old(current)@, r.0),
        !r.1 ==> all_tried(*final(cache), old(current)@, cfg_candidates(old(current)@, r.0)),
{
    let at: Option<u32> = ask_anchor(anchor, current);
    let list: Vec<Vec<u8>> = cfg_list(current, at);
    let taken: Option<Vec<u8>> = first_applied(current, &list, cache, oracle);
    let ghost p = point(*old(current), *old(timeline), *old(cache));
    let ghost made = passes::stream(taken);
    proof {
        let all = cfg_candidates(p.program, at);
        lemma_candidates_shrink(p.program, at);
        assert(anchored(*anchor, p.program, at));
        assert(first_taken(p.cache, *cache, p.program, all, made));
        lemma_list_pass(*oracle, *anchor, original, p, all, "cfg"@, made, *cache);
        assert(cfg_pass(*anchor, p, p.behind("cfg"@, made, *cache)));
    }
    match taken {
        Some(next) => {
            note(timeline, "cfg", &next);
            *current = next;
            (at, true)
        },
        None => (at, false),
    }
}

/// Delta debugging.
fn run_ddmin<F: FnMut(&[u8]) -> bool, A: Fn(&[u8]) -> Option<u32>>(
    current: &mut Vec<u8>,
    timeline: &mut Vec<TimelineEntry>,
    cache: &mut OracleCache,
    oracle: &mut F,
    Ghost(anchor): Ghost<A>,
    Ghost(original): Ghost<Seq<u8>>,
) -> (moved: bool)
    requires
        old(current)@.len() / 8 <= u32::MAX,
        ddmin::askable(*old(oracle)),
        is_good(
            *old(oracle),
            anchor,
            original,
            point(*old(current), *old(timeline), *old(cache)),
        ),
    ensures
        *final(oracle) == *old(oracle),
        ddmin::grown(*old(cache), *final(cache), *old(oracle)),
        is_good(
            *old(oracle),
            anchor,
            original,
            point(*final(current), *final(timeline), *final(cache)),
        ),
        ddmin_pass(
            point(*old(current), *old(timeline), *old(cache)),
            point(*final(current), *final(timeline), *final(cache)),
        ),
        has_moved(
            point(*old(current), *old(timeline), *old(cache)),
            point(*final(current), *final(timeline), *final(cache)),
            moved,
        ),
        !moved && old(current)@.len() >= 16 && !final(cache).spent() ==> final(cache).remembers(
            old(current)@,
            false,
        ) || ddmin::one_minimal(*final(cache), old(current)@),
{
    let smaller: Option<Vec<u8>> = ddmin::ddmin(current, cache, oracle);
    let ghost p = point(*old(current), *old(timeline), *old(cache));
    let ghost made = passes::stream(smaller);
    proof {
        let q = p.behind("ddmin"@, made, *cache);
        assert(q.cache == *cache);
        assert(ddmin::minimized(p.program, p.cache, q.cache, made));
        assert(ddmin_pass(p, q));
        if made is None {
            lemma_none_accepted(p.program, p.cache, *cache);
        }
        lemma_pass_adds(anchor, original, p.cache, *cache, p.program, q.program);
        lemma_reducing_grows(original, p.program, p.cache, *cache, *oracle);
    }
    if let Some(next) = smaller {
        if !ddmin::same_bytes(&next, current) {
            note(timeline, "ddmin", &next);
            *current = next;
            return true;
        }
    }
    false
}

/// Nothing is accepted where the program itself is rejected.
proof fn lemma_none_accepted(bytes: Seq<u8>, a: OracleCache, b: OracleCache)
    requires
        ddmin::minimized(bytes, a, b, None),
    ensures
        forall|k: int|
            a.results@.len() <= k < b.results@.len() ==> !(#[trigger] b.results@[k]).1,
{
    ddmin::lemma_check_extends(a, b, bytes, Some(false));
}

/// Operand minimization.
fn run_operands<F: FnMut(&[u8]) -> bool, A: Fn(&[u8]) -> Option<u32>>(
    current: &mut Vec<u8>,
    timeline: &mut Vec<TimelineEntry>,
    cache: &mut OracleCache,
    oracle: &mut F,
    Ghost(anchor): Ghost<A>,
    Ghost(original): Ghost<Seq<u8>>,
) -> (moved: bool)
    requires
        ddmin::askable(*old(oracle)),
        is_good(
            *old(oracle),
            anchor,
            original,
            point(*old(current), *old(timeline), *old(cache)),
        ),
    ensures
        *final(oracle) == *old(oracle),
        ddmin::grown(*old(cache), *final(cache), *old(oracle)),
        is_good(
            *old(oracle),
            anchor,
            original,
            point(*final(current), *final(timeline), *final(cache)),
        ),
        operand_pass(
            point(*old(current), *old(timeline), *old(cache)),
            point(*final(current), *final(timeline), *final(cache)),
        ),
        has_moved(
            point(*old(current), *old(timeline), *old(cache)),
            point(*final(current), *final(timeline), *final(cache)),
            moved,
        ),
        !moved ==> all_tried(*final(cache), old(current)@, operand_streams(old(current)@)),
{
    let list: Vec<Vec<u8>> = operand_list(current);
    let taken: Option<Vec<u8>> = first_applied(current, &list, cache, oracle);
    let ghost p = point(*old(current), *old(timeline), *old(cache));
    let ghost made = passes::stream(taken);
    proof {
        let all = operand_streams(p.program);
        lemma_candidates_shrink(p.program, None);
        assert(first_taken(p.cache, *cache, p.program, all, made));
        lemma_list_pass(*oracle, anchor, original, p, all, "operand"@, made, *cache);
        assert(operand_pass(p, p.behind("operand"@, made, *cache)));
    }
    match taken {
        Some(next) => {
            note(timeline, "operand", &next);
            *current = next;
            true
        },
        None => false,
    }
}

/// Runs the passes until a whole cycle makes no progress. `anchor` tells the
/// failure anchor of a program.
pub fn reduce_program<F: FnMut(&[u8]) -> bool, A: Fn(&[u8]) -> Option<u32>>(
    original: &[u8],
    budget: usize,
    oracle: &mut F,
    anchor: &A,
) -> (r: (Vec<u8>, Vec<TimelineEntry>, OracleCache))
    requires
        original@.len() / 8 <= u32::MAX,
        ddmin::askable(*old(oracle)),
        forall|b: &[u8]| #[trigger] call_requires(*anchor, (b,)),
    ensures
        *final(oracle) == *old(oracle),
        reducing(original@, r.0@, r.2, *old(oracle)),
        r.2.max_checks == budget,
        is_outcome(
            *anchor,
            original@,
            budget,
            (Point { program: r.0@, timeline: told(r.1@), cache: r.2 }),
        ),
        ddmin::best_since(0, r.2, r.0@),
        all_proposed(*anchor, original@, r.2),
        exists|a: Option<u32>| #[trigger] anchored(*anchor, r.0@, a) && is_fixpoint(r.2, r.0@, a),
{
    let mut cache: OracleCache = OracleCache::new(budget);
    let mut current: Vec<u8> = to_vec(original);
    let mut timeline: Vec<TimelineEntry> = Vec::new();
    note(&mut timeline, "start", original);
    let ghost mut points: Seq<Point> = seq![point(current, timeline, cache)];
    assert(told(timeline@) =~= seq![("start"@, insns_of(original@))]);
    loop
        invariant_except_break
            points.last() == point(current, timeline, cache),
        invariant
            original@.len() / 8 <= u32::MAX,
            ddmin::askable(*oracle),
            *oracle == *old(oracle),
            forall|b: &[u8]| #[trigger] call_requires(*anchor, (b,)),
            cache.max_checks == budget,
            is_good(*oracle, *anchor, original@, point(current, timeline, cache)),
            is_run(*anchor, points),
            is_start(points[0], original@, budget),
        ensures
            is_cycle(*anchor, points.last(), point(current, timeline, cache)),
            points.last().program == current@,
            points.last().timeline == told(timeline@),
            exists|a: Option<u32>| #[trigger]
                anchored(*anchor, current@, a) && is_fixpoint(cache, current@, a),
        decreases
                current@.len(),
                measure::total(measure::raw(current@), measure::choice()),
                measure::total(measure::raw(current@), measure::imm_size()),
                measure::total(measure::raw(current@), measure::reg_size()),
                measure::total(measure::raw(current@), measure::off_size()),
    {
        let ghost begun = current@;
        let ghost p0 = points.last();
        let (at, cut): (Option<u32>, bool) = run_cfg(
            &mut current,
            &mut timeline,
            &mut cache,
            oracle,
            anchor,
            Ghost(original@),
        );
        let ghost p1 = point(current, timeline, cache);
        let shortened: bool = run_ddmin::<F, A>(
            &mut current,
            &mut timeline,
            &mut cache,
            oracle,
            Ghost(*anchor),
            Ghost(original@),
        );
        let ghost p2 = point(current, timeline, cache);
        let simplified: bool = run_operands::<F, A>(
            &mut current,
            &mut timeline,
            &mut cache,
            oracle,
            Ghost(*anchor),
            Ghost(original@),
        );
        let ghost p3 = point(current, timeline, cache);
        proof {
            assert(cfg_pass(*anchor, p0, p1) && ddmin_pass(p1, p2));
            assert(is_cycle(*anchor, p0, p3));
        }
        if !cut && !shortened && !simplified {
            proof {
                ddmin::lemma_grown_trans(p1.cache, p2.cache, cache, *oracle);
                lemma_tried_grows(p1.cache, cache, *oracle, begun, cfg_candidates(begun, at));
                lemma_still_minimal(p2.cache, cache, *oracle, begun);
                assert(is_fixpoint(cache, current@, at));
            }
            break;
        }
        proof {
            lemma_run_pushed(*anchor, points, p3);
            points = points.push(p3);
        }
    }
    (current, timeline, cache)
}

/// A cache that has only grown serves the program still.
proof fn lemma_reducing_grows<F: FnMut(&[u8]) -> bool>(
    original: Seq<u8>,
    current: Seq<u8>,
    a: OracleCache,
    b: OracleCache,
    oracle: F,
)
    requires
        reducing(original, current, a, oracle),
        ddmin::grown(a, b, oracle),
    ensures
        reducing(original, current, b, oracle),
{
    if current != original {
        ddmin::lemma_remembers_grows(a, b, current, true);
    }
}

/// A cache that has only grown keeps a program minimal, or rejected.
proof fn lemma_still_minimal<F: FnMut(&[u8]) -> bool>(
    a: OracleCache,
    b: OracleCache,
    oracle: F,
    bytes: Seq<u8>,
)
    requires
        ddmin::grown(a, b, oracle),
    ensures
        a.remembers(bytes, false) ==> b.remembers(bytes, false),
        ddmin::one_minimal(a, bytes) ==> ddmin::one_minimal(b, bytes),
        a.wf() && a.spent() ==> b.spent(),
{
    if a.remembers(bytes, false) {
        ddmin::lemma_remembers_grows(a, b, bytes, false);
    }
    if ddmin::one_minimal(a, bytes) {
        assert forall|i: int| 0 <= i < bytes.len() / 8 implies #[trigger] ddmin::essential(
            b,
            bytes,
            i,
        ) by {
            assert(ddmin::essential(a, bytes, i));
            if let Some(fewer) = crate::fuzz::reduce::fixup::deletion(bytes, set![i]) {
                ddmin::lemma_remembers_grows(a, b, fewer, false);
            }
        }
    }
}

// ── Reports ─────────────────────────────────────────────────────────────────

pub open spec fn concrete_text(side: ConcreteSide) -> Seq<char> {
    match side {
        ConcreteSide::Safe => "Safe"@,
        ConcreteSide::Unsafe => "Unsafe"@,
        ConcreteSide::Inconclusive => "Inconclusive"@,
    }
}

fn concrete_str(side: ConcreteSide) -> (s: &'static str)
    ensures
        s@ == concrete_text(side),
{
    match side {
        ConcreteSide::Safe => "Safe",
        ConcreteSide::Unsafe => "Unsafe",
        ConcreteSide::Inconclusive => "Inconclusive",
    }
}

/// The finding that was expected: its class, or the direction of the flip.
pub open spec fn expected_text(kept: Invariant, sides: Sides) -> Seq<char> {
    match kept {
        Invariant::Classification { finding, .. } => finding.label()@,
        Invariant::VerdictFlip { .. } => "verdict-flip "@ + sides.mini.label()@,
    }
}

/// A human-readable label of the expected finding.
pub fn label_of(baseline: &Baseline, sides: &Sides) -> (s: String)
    ensures
        s@ == expected_text(baseline.invariant, *sides),
{
    let mut s: String = String::new();
    match baseline.invariant {
        Invariant::Classification { finding, .. } => {
            s.append(finding.name());
        },
        Invariant::VerdictFlip { .. } => {
            s.append("verdict-flip ");
            s.append(sides.mini.name());
        },
    }
    assert(s@ =~= expected_text(baseline.invariant, *sides));
    s
}

pub open spec fn summary_text(sides: Sides) -> Seq<char> {
    "mini "@ + sides.mini.label()@ + " kernel "@ + sides.kernel.label()@ + " concrete "@
        + concrete_text(sides.concrete)
}

/// The sides of a program on one line.
pub fn side_summary(sides: &Sides) -> (s: String)
    ensures
        s@ == summary_text(*sides),
{
    let mut s: String = String::new();
    s.append("mini ");
    s.append(sides.mini.name());
    s.append(" kernel ");
    s.append(sides.kernel.name());
    s.append(" concrete ");
    s.append(concrete_str(sides.concrete));
    assert(s@ =~= summary_text(*sides));
    s
}

/// How a character stands in a quoted text.
pub open spec fn escaped_char(c: char) -> Seq<char> {
    if c == '"' {
        seq!['\\', '"']
    } else if c == '\\' {
        seq!['\\', '\\']
    } else if c == '\n' {
        seq!['\\', 'n']
    } else {
        seq![c]
    }
}

/// A text as it stands between quotes.
pub open spec fn escaped(s: Seq<char>) -> Seq<char>
    decreases s.len(),
{
    if s.len() == 0 {
        seq![]
    } else {
        escaped(s.drop_last()) + escaped_char(s.last())
    }
}

/// Escape a text for a quoted string.
pub fn json_escape(s: &str) -> (out: String)
    ensures
        out@ == escaped(s@),
{
    let v: Vec<char> = text::chars_of(s);
    let mut out: String = String::new();
    let mut i: usize = 0;
    assert(v@.take(0) == Seq::<char>::empty());
    while i < v.len()
        invariant
            i <= v@.len(),
            out@ == escaped(v@.take(i as int)),
        decreases v@.len() - i,
    {
        let c: char = v[i];
        let ghost before = out@;
        proof {
            assert(v@.take(i + 1).drop_last() == v@.take(i as int));
            assert(v@.take(i + 1).last() == c);
        }
        if c == '"' || c == '\\' {
            out.push('\\');
            out.push(c);
        } else if c == '\n' {
            out.push('\\');
            out.push('n');
        } else {
            out.push(c);
        }
        assert(out@ =~= before + escaped_char(c));
        i = i + 1;
    }
    assert(v@.take(i as int) == v@);
    out
}

/// A line with a number.
pub open spec fn number_line(key: Seq<char>, n: int) -> Seq<char> {
    "  \""@ + key + "\": "@ + text::dec(n as nat) + ",\n"@
}

/// A line of the timeline.
pub open spec fn entry_line(e: TimelineEntry, last: bool) -> Seq<char> {
    "    {\"pass\": \""@ + e.0@ + "\", \"insns\": "@ + text::dec(e.1 as nat) + "}"@ + (if last {
        ""@
    } else {
        ","@
    }) + "\n"@
}

/// The first `n` lines of the timeline.
pub open spec fn entry_lines(timeline: Seq<TimelineEntry>, n: int) -> Seq<char>
    decreases n,
{
    if n <= 0 {
        seq![]
    } else {
        entry_lines(timeline, n - 1) + entry_line(timeline[n - 1], n == timeline.len())
    }
}

/// The note at the end of a report.
pub const DETERMINISM_NOTE: &'static str =
    "  \"determinism_note\": \"kernel outcomes are host-dependent; the rand-verifier side is deterministic\"\n}\n";

/// The report of a reduction as JSON.
pub open spec fn json_text(
    label: Seq<char>,
    name: Seq<char>,
    original: int,
    reduced: int,
    timeline: Seq<TimelineEntry>,
    cache: OracleCache,
    strict: bool,
) -> Seq<char> {
    "{\n  \"finding\": \""@ + label + "\",\n  \"name\": \""@ + escaped(name) + "\",\n"@
        + number_line("original_insns"@, original) + number_line("final_insns"@, reduced)
        + "  \"timeline\": [\n"@ + entry_lines(timeline, timeline.len() as int) + "  ],\n"@
        + number_line("checks"@, cache.checks as int) + number_line("hits"@, cache.hits as int)
        + number_line("budget"@, cache.max_checks as int) + "  \"strict\": "@ + (if strict {
        "true"@
    } else {
        "false"@
    }) + ",\n"@ + DETERMINISM_NOTE@
}

fn push_number_line(s: &mut String, key: &str, n: usize)
    ensures
        final(s)@ == old(s)@ + number_line(key@, n as int),
{
    let ghost before = s@;
    s.append("  \"");
    s.append(key);
    s.append("\": ");
    push_dec(s, n as u64);
    s.append(",\n");
    assert(s@ =~= before + number_line(key@, n as int));
}

fn push_entry(s: &mut String, e: &TimelineEntry, last: bool)
    ensures
        final(s)@ == old(s)@ + entry_line(*e, last),
{
    let ghost before = s@;
    s.append("    {\"pass\": \"");
    s.append(e.0.as_str());
    s.append("\", \"insns\": ");
    push_dec(s, e.1 as u64);
    s.append("}");
    s.append(
        if last {
            ""
        } else {
            ","
        },
    );
    s.append("\n");
    assert(s@ =~= before + entry_line(*e, last));
}

/// The report of a reduction as JSON, written by hand.
pub fn reduce_json(
    baseline: &Baseline,
    original: &[u8],
    reduced: &[u8],
    timeline: &Vec<TimelineEntry>,
    cache: &OracleCache,
    strict: bool,
) -> (s: String)
    ensures
        s@ == json_text(
            baseline.spec.label@,
            baseline.spec.name@,
            insns_of(original@),
            insns_of(reduced@),
            timeline@,
            *cache,
            strict,
        ),
{
    let mut s: String = String::new();
    s.append("{\n  \"finding\": \"");
    s.append(baseline.spec.label.as_str());
    s.append("\",\n  \"name\": \"");
    s.append(json_escape(baseline.spec.name.as_str()).as_str());
    s.append("\",\n");
    push_number_line(&mut s, "original_insns", insn_count(original));
    push_number_line(&mut s, "final_insns", insn_count(reduced));
    s.append("  \"timeline\": [\n");
    let ghost head = s@;
    let mut i: usize = 0;
    assert(head + entry_lines(timeline@, 0) =~= head);
    while i < timeline.len()
        invariant
            i <= timeline@.len(),
            s@ == head + entry_lines(timeline@, i as int),
        decreases timeline@.len() - i,
    {
        push_entry(&mut s, &timeline[i], i + 1 == timeline.len());
        i = i + 1;
        assert(s@ =~= head + entry_lines(timeline@, i as int));
    }
    s.append("  ],\n");
    push_number_line(&mut s, "checks", cache.checks);
    push_number_line(&mut s, "hits", cache.hits);
    push_number_line(&mut s, "budget", cache.max_checks);
    s.append("  \"strict\": ");
    s.append(
        if strict {
            "true"
        } else {
            "false"
        },
    );
    s.append(",\n");
    s.append(DETERMINISM_NOTE);
    assert(s@ =~= json_text(
        baseline.spec.label@,
        baseline.spec.name@,
        insns_of(original@),
        insns_of(reduced@),
        timeline@,
        *cache,
        strict,
    ));
    s
}

// ── A whole finding ─────────────────────────────────────────────────────────

/// A reduced finding: the report, the program, and the report as JSON.
#[derive(Debug)]
pub struct Reduction {
    pub report: ReduceReport,
    pub program: Vec<u8>,
    pub json: String,
}

/// The answer of the oracle of a finding on a program: whether its sides can
/// be derived and still exhibit the finding.
pub open spec fn judged<E: Fn(&[u8]) -> Result<Sides, ReduceError>>(
    evaluate: &E,
    base: &Baseline,
    strict: bool,
    bytes: Seq<u8>,
    b: bool,
) -> bool {
    exists|r: Result<Sides, ReduceError>| #[trigger]
        replay::derives(*evaluate, bytes, r) && b == (r is Ok && base.invariant.holds(
            base.spec.name@,
            r->Ok_0,
            strict,
        ))
}

/// Every verdict in the cache is one of the oracle of the finding.
pub open spec fn all_judged<E: Fn(&[u8]) -> Result<Sides, ReduceError>>(
    evaluate: E,
    base: Baseline,
    strict: bool,
    cache: OracleCache,
) -> bool {
    forall|i: int|
        0 <= i < cache.results@.len() ==> judged(
            &evaluate,
            &base,
            strict,
            (#[trigger] cache.results@[i]).0@,
            cache.results@[i].1,
        )
}

/// A run of the passes ends at this point. Its program was accepted by the oracle
/// of the finding, or is the original one; nothing that was accepted is shorter,
/// only candidates were evaluated, and a whole cycle of the passes makes nothing
/// smaller of it.
pub open spec fn is_reduction<
    E: Fn(&[u8]) -> Result<Sides, ReduceError>,
    A: Fn(&[u8]) -> Option<u32>,
>(
    evaluate: E,
    anchor: A,
    base: Baseline,
    config: ReduceConfig,
    original: Seq<u8>,
    end: Point,
) -> bool {
    let (reduced, cache) = (end.program, end.cache);
    &&& cache.wf()
    &&& cache.max_checks == config.budget
    &&& all_judged(evaluate, base, config.strict, cache)
    &&& is_outcome(anchor, original, config.budget, end)
    &&& reduced.len() <= original.len()
    &&& reduced == original || cache.remembers(reduced, true)
    &&& ddmin::best_since(0, cache, reduced)
    &&& all_proposed(anchor, original, cache)
    &&& exists|a: Option<u32>| #[trigger]
        anchored(anchor, reduced, a) && is_fixpoint(cache, reduced, a)
}

/// The report speaks of this reduction.
pub open spec fn is_report(
    report: ReduceReport,
    base: Baseline,
    original: Seq<u8>,
    reduced: Seq<u8>,
    cache: OracleCache,
    sides: Sides,
) -> bool {
    &&& report.name@ == base.spec.name@
    &&& report.label@ == base.spec.label@
    &&& report.original_insns == insns_of(original)
    &&& report.final_insns == insns_of(reduced)
    &&& report.checks == cache.checks
    &&& report.hits == cache.hits
    &&& report.budget == cache.max_checks
    &&& report.final_mini@ == sides.mini.label()@
    &&& report.final_kernel@ == sides.kernel.label()@
}

/// `red` is a reduction of the loaded finding: the program that is left still
/// exhibits it, as its re-derived sides show.
pub open spec fn reduces<
    E: Fn(&[u8]) -> Result<Sides, ReduceError>,
    A: Fn(&[u8]) -> Option<u32>,
>(
    evaluate: E,
    anchor: A,
    base: Baseline,
    original: Seq<u8>,
    config: ReduceConfig,
    red: Reduction,
) -> bool {
    exists|cache: OracleCache, sides: Sides| #[trigger]
        is_report(red.report, base, original, red.program@, cache, sides) && is_reduction(
            evaluate,
            anchor,
            base,
            config,
            original,
            (Point { program: red.program@, timeline: told(red.report.timeline@), cache }),
        ) && replay::derives(evaluate, red.program@, Ok(sides)) && base.invariant.holds(
            base.spec.name@,
            sides,
            config.strict,
        ) && red.json@ == json_text(
            base.spec.label@,
            base.spec.name@,
            insns_of(original),
            insns_of(red.program@),
            red.report.timeline@,
            cache,
            config.strict,
        )
}

/// `e` is what ends the reduction of a loaded finding: the final re-check
/// could not be made, or it failed.
pub open spec fn final_failure<
    E: Fn(&[u8]) -> Result<Sides, ReduceError>,
    A: Fn(&[u8]) -> Option<u32>,
>(
    evaluate: E,
    anchor: A,
    base: Baseline,
    original: Seq<u8>,
    config: ReduceConfig,
    e: ReduceError,
) -> bool {
    exists|end: Point| #[trigger]
        is_reduction(evaluate, anchor, base, config, original, end) && ({
            ||| replay::derives(evaluate, end.program, Err(e))
            ||| exists|sides: Sides|
                replay::derives(evaluate, end.program, Ok(sides)) && !(#[trigger] base.invariant.holds(
                    base.spec.name@,
                    sides,
                    config.strict,
                )) && (match e {
                    ReduceError::FinalCheckFailed { expected, actual } => expected@
                        == expected_text(base.invariant, sides) && actual@ == summary_text(sides),
                    _ => false,
                })
        })
}

fn clone_text(s: &str) -> (t: String)
    ensures
        t@ == s@,
{
    let mut t: String = String::new();
    t.append(s);
    assert(t@ =~= s@);
    t
}

/// Reduce one finding, given by its record and its program as they were read.
/// `evaluate` derives the sides of a program, `anchor` its failure anchor. The
/// classification survives every step, by the oracle, and the final re-check;
/// the artifacts are left to the caller.
pub fn reduce_finding<
    E: Fn(&[u8]) -> Result<Sides, ReduceError>,
    A: Fn(&[u8]) -> Option<u32>,
>(
    meta: Result<String, String>,
    prog: Result<Vec<u8>, String>,
    prog_path: &str,
    evaluate: &E,
    anchor: &A,
    config: &ReduceConfig,
) -> (r: Result<Reduction, ReduceError>)
    requires
        prog matches Ok(bytes) ==> bytes@.len() / 8 <= u32::MAX,
        forall|b: &[u8]| #[trigger] call_requires(*evaluate, (b,)),
        forall|b: &[u8]| #[trigger] call_requires(*anchor, (b,)),
    ensures
        match r {
            Ok(red) => exists|base: Baseline, original: Vec<u8>|
                #![trigger replay::loaded(meta, prog, prog_path@, Ok((base.spec, original)))]
                replay::loaded(meta, prog, prog_path@, Ok((base.spec, original)))
                    && replay::is_baseline(base, original@, *evaluate, config.strict) && reduces(
                    *evaluate,
                    *anchor,
                    base,
                    original@,
                    *config,
                    red,
                ),
            Err(e) => {
                ||| replay::refused(meta, prog, prog_path@, *evaluate, config.strict, e)
                ||| exists|base: Baseline, original: Vec<u8>|
                    #![trigger replay::loaded(meta, prog, prog_path@, Ok((base.spec, original)))]
                    replay::loaded(meta, prog, prog_path@, Ok((base.spec, original)))
                        && replay::is_baseline(base, original@, *evaluate, config.strict)
                        && final_failure(*evaluate, *anchor, base, original@, *config, e)
            },
        },
{
    let strict: bool = config.strict;
    let (baseline, original): (Baseline, Vec<u8>) = match load_and_replay(
        meta,
        prog,
        prog_path,
        evaluate,
        strict,
    ) {
        Ok(pair) => pair,
        Err(e) => {
            return Err(e);
        },
    };
    let base: &Baseline = &baseline;
    let mut oracle = |bytes: &[u8]| -> (b: bool)
        ensures
            judged(evaluate, base, strict, bytes@, b),
        {
            let sides: Result<Sides, ReduceError> = replay::derive_sides(evaluate, bytes);
            match sides {
                Ok(sides) => base.invariant.preserves(
                    base.spec.name.as_str(),
                    &sides,
                    strict,
                ),
                Err(_) => false,
            }
        };
    let ghost asked = oracle;
    let (current, timeline, cache): (Vec<u8>, Vec<TimelineEntry>, OracleCache) = reduce_program(
        &original,
        config.budget,
        &mut oracle,
        anchor,
    );
    proof {
        assert forall|i: int| 0 <= i < cache.results@.len() implies judged(
            evaluate,
            &baseline,
            strict,
            (#[trigger] cache.results@[i]).0@,
            cache.results@[i].1,
        ) by {
            assert(ddmin::says(asked, cache.results@[i].0@, cache.results@[i].1));
        }
        assert(all_judged(*evaluate, baseline, strict, cache));
        assert(is_reduction(
            *evaluate,
            *anchor,
            baseline,
            *config,
            original@,
            (Point { program: current@, timeline: told(timeline@), cache }),
        ));
    }
    let final_sides: Sides = match replay::derive_sides(evaluate, &current) {
        Ok(sides) => sides,
        Err(e) => {
            return Err(e);
        },
    };
    if !baseline.invariant.preserves(baseline.spec.name.as_str(), &final_sides, strict) {
        return Err(
            ReduceError::FinalCheckFailed {
                expected: label_of(&baseline, &final_sides),
                actual: side_summary(&final_sides),
            },
        );
    }
    let json: String = reduce_json(&baseline, &original, &current, &timeline, &cache, strict);
    let report: ReduceReport = ReduceReport {
        name: clone_text(baseline.spec.name.as_str()),
        label: clone_text(baseline.spec.label.as_str()),
        original_insns: insn_count(&original),
        final_insns: insn_count(&current),
        timeline,
        checks: cache.checks,
        hits: cache.hits,
        budget: config.budget,
        final_mini: clone_text(final_sides.mini.name()),
        final_kernel: clone_text(final_sides.kernel.name()),
    };
    let red: Reduction = Reduction { report, program: current, json };
    proof {
        assert(is_report(
            red.report,
            baseline,
            original@,
            red.program@,
            cache,
            final_sides,
        ));
    }
    Ok(red)
}

// ── Laws ────────────────────────────────────────────────────────────────────

proof fn lemma_escaped_first(s: Seq<char>)
    requires
        s.len() > 0,
    ensures
        escaped(s) == escaped_char(s[0]) + escaped(s.drop_first()),
    decreases s.len(),
{
    if s.len() == 1 {
        assert(s.drop_last() =~= Seq::<char>::empty());
        assert(s.drop_first() =~= Seq::<char>::empty());
        assert(escaped(s) =~= escaped_char(s[0]) + escaped(s.drop_first()));
    } else {
        lemma_escaped_first(s.drop_last());
        assert(s.drop_last().drop_first() =~= s.drop_first().drop_last());
        assert(escaped(s) =~= escaped_char(s[0]) + escaped(s.drop_first()));
    }
}

/// Escaping loses nothing: no two texts are escaped alike.
pub proof fn escaping_is_injective(a: Seq<char>, b: Seq<char>)
    requires
        escaped(a) == escaped(b),
    ensures
        a == b,
    decreases a.len(),
{
    if a.len() > 0 {
        lemma_escaped_first(a);
    }
    if b.len() > 0 {
        lemma_escaped_first(b);
    }
    if a.len() > 0 && b.len() > 0 {
        let p = escaped_char(a[0]);
        let q = escaped_char(b[0]);
        let x = escaped(a.drop_first());
        let y = escaped(b.drop_first());
        assert((p + x)[0] == p[0] && (q + y)[0] == q[0]);
        if p.len() == 2 {
            assert((p + x)[1] == p[1]);
        }
        if q.len() == 2 {
            assert((q + y)[1] == q[1]);
        }
        assert(a[0] == b[0]);
        assert(x =~= (p + x).skip(p.len() as int));
        assert(y =~= (q + y).skip(q.len() as int));
        escaping_is_injective(a.drop_first(), b.drop_first());
        assert(a =~= seq![a[0]] + a.drop_first());
        assert(b =~= seq![b[0]] + b.drop_first());
        assert(a == b);
    } else if a.len() > 0 {
        assert(escaped(a).len() >= escaped_char(a[0]).len() > 0);
        assert(escaped(b).len() == 0);
    } else if b.len() > 0 {
        assert(escaped(b).len() >= escaped_char(b[0]).len() > 0);
        assert(escaped(a).len() == 0);
    } else {
        assert(a =~= b);
    }
}

} // verus!
