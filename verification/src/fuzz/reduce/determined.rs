//! What a reduction gives is determined: two runs on one program, with an oracle
//! and an anchor that give one answer each, evaluate the same candidates in the
//! same order and leave the same program.

use vstd::prelude::*;

use crate::fuzz::reduce::ddmin;
use crate::fuzz::reduce::ddmin::{OracleCache, Round, Stage};
use crate::fuzz::reduce::driver;
use crate::fuzz::reduce::driver::Point;

verus! {

/// Two caches tell the same: the same evaluations with the same verdicts in the
/// same order, and the same counts.
pub open spec fn alike(a: OracleCache, b: OracleCache) -> bool {
    &&& a.max_checks == b.max_checks
    &&& a.checks == b.checks
    &&& a.hits == b.hits
    &&& a.results@.len() == b.results@.len()
    &&& forall|i: int|
        0 <= i < a.results@.len() ==> (#[trigger] a.results@[i]).0@ == b.results@[i].0@
            && a.results@[i].1 == b.results@[i].1
}

/// The oracle gives one answer on each program.
pub open spec fn gives_one_answer<F: FnMut(&[u8]) -> bool>(oracle: F) -> bool {
    forall|c: Seq<u8>, x: bool, y: bool| #[trigger]
        ddmin::says(oracle, c, x) && #[trigger] ddmin::says(oracle, c, y) ==> x == y
}

/// Every program has one failure anchor.
pub open spec fn gives_one_anchor<A: Fn(&[u8]) -> Option<u32>>(anchor: A) -> bool {
    forall|c: Seq<u8>, x: Option<u32>, y: Option<u32>| #[trigger]
        driver::anchored(anchor, c, x) && #[trigger] driver::anchored(anchor, c, y) ==> x == y
}

// ── Checks ──────────────────────────────────────────────────────────────────

/// The verdicts of the cache are those of `v`.
spec fn honest(a: OracleCache, v: spec_fn(Seq<u8>) -> bool) -> bool {
    forall|i: int|
        0 <= i < a.results@.len() ==> (#[trigger] a.results@[i]).1 == v(a.results@[i].0@)
}

proof fn lemma_honest<F: FnMut(&[u8]) -> bool>(oracle: F, a: OracleCache)
    requires
        gives_one_answer(oracle),
        a.answers(oracle),
    ensures
        honest(a, |c: Seq<u8>| ddmin::says(oracle, c, true)),
{
    let v = |c: Seq<u8>| ddmin::says(oracle, c, true);
    assert forall|i: int| 0 <= i < a.results@.len() implies (#[trigger] a.results@[i]).1 == v(
        a.results@[i].0@,
    ) by {
        assert(ddmin::says(oracle, a.results@[i].0@, a.results@[i].1));
    }
}

proof fn lemma_honest_before(a: OracleCache, b: OracleCache, v: spec_fn(Seq<u8>) -> bool)
    requires
        a.results@.is_prefix_of(b.results@),
        honest(b, v),
    ensures
        honest(a, v),
{
    assert forall|i: int| 0 <= i < a.results@.len() implies (#[trigger] a.results@[i]).1 == v(
        a.results@[i].0@,
    ) by {
        assert(b.results@[i] == a.results@[i]);
    }
}

proof fn lemma_alike_remembers(a: OracleCache, b: OracleCache, c: Seq<u8>, r: bool)
    requires
        alike(a, b),
    ensures
        a.remembers(c, r) == b.remembers(c, r),
{
    if a.remembers(c, r) {
        let i = choose|i: int|
            0 <= i < a.results@.len() && (#[trigger] a.results@[i]).0@ == c && a.results@[i].1 == r;
        assert(b.results@[i].0@ == c);
    }
    if b.remembers(c, r) {
        let i = choose|i: int|
            0 <= i < b.results@.len() && (#[trigger] b.results@[i]).0@ == c && b.results@[i].1 == r;
        assert(a.results@[i].0@ == b.results@[i].0@);
    }
}

proof fn lemma_remembered(a: OracleCache, c: Seq<u8>, r: bool, v: spec_fn(Seq<u8>) -> bool)
    requires
        honest(a, v),
        a.remembers(c, r),
    ensures
        r == v(c),
{
    let i = choose|i: int|
        0 <= i < a.results@.len() && (#[trigger] a.results@[i]).0@ == c && a.results@[i].1 == r;
    assert(a.results@[i].1 == v(a.results@[i].0@));
}

/// One check from like caches gives the same answer and like caches.
proof fn lemma_check(
    a1: OracleCache,
    b1: OracleCache,
    r1: Option<bool>,
    a2: OracleCache,
    b2: OracleCache,
    r2: Option<bool>,
    c: Seq<u8>,
    v: spec_fn(Seq<u8>) -> bool,
)
    requires
        alike(a1, a2),
        ddmin::checked(a1, b1, c, r1),
        ddmin::checked(a2, b2, c, r2),
        honest(b1, v),
        honest(b2, v),
    ensures
        r1 == r2,
        alike(b1, b2),
{
    ddmin::lemma_check_extends(a1, b1, c, r1);
    ddmin::lemma_check_extends(a2, b2, c, r2);
    lemma_alike_remembers(a1, a2, c, true);
    lemma_alike_remembers(a1, a2, c, false);
    if r1 is Some {
        lemma_remembered(b1, c, r1->0, v);
    }
    if r2 is Some {
        lemma_remembered(b2, c, r2->0, v);
    }
    assert forall|i: int| 0 <= i < b1.results@.len() implies (#[trigger] b1.results@[i]).0@
        == b2.results@[i].0@ && b1.results@[i].1 == b2.results@[i].1 by {
        if i < a1.results@.len() {
            assert(b1.results@[i] == a1.results@[i]);
            assert(b2.results@[i] == a2.results@[i]);
        } else {
            assert(b2.results@[i].0@ == c);
        }
    }
}

// ── The search ──────────────────────────────────────────────────────────────

proof fn lemma_try(
    bytes: Seq<u8>,
    r: Round,
    chunk: int,
    a1: OracleCache,
    b1: OracleCache,
    x1: Option<bool>,
    a2: OracleCache,
    b2: OracleCache,
    x2: Option<bool>,
    v: spec_fn(Seq<u8>) -> bool,
)
    requires
        alike(a1, a2),
        ddmin::is_try(bytes, r, chunk, a1, b1, x1),
        ddmin::is_try(bytes, r, chunk, a2, b2, x2),
        honest(b1, v),
        honest(b2, v),
    ensures
        x1 == x2,
        alike(b1, b2),
{
    if let Some(c) = r.candidate(bytes, chunk) {
        lemma_check(a1, b1, x1, a2, b2, x2, c, v);
    }
}

/// The last of some tries of which nothing came.
proof fn lemma_last_try(bytes: Seq<u8>, r: Round, k: int, a: OracleCache, b: OracleCache) -> (m:
    OracleCache)
    requires
        ddmin::nothing_came(bytes, r, k, a, b),
        k > 0,
    ensures
        m.max_checks == b.max_checks,
        ddmin::nothing_came(bytes, r, k - 1, a, m),
        ddmin::is_try(bytes, r, k - 1, m, b, Some(false)),
        m.results@.is_prefix_of(b.results@),
{
    let m = choose|m: OracleCache|
        ddmin::nothing_came(bytes, r, k - 1, a, m) && #[trigger] ddmin::is_try(
            bytes,
            r,
            k - 1,
            m,
            b,
            Some(false),
        );
    ddmin::lemma_try_extends(bytes, r, k - 1, m, b, Some(false));
    m
}

proof fn lemma_same(a: OracleCache)
    ensures
        a.results@.is_prefix_of(a.results@),
        alike(a, a),
{
    assert(a.results@ =~= a.results@.take(a.results@.len() as int));
}

proof fn lemma_nothing_extends(bytes: Seq<u8>, r: Round, k: int, a: OracleCache, b: OracleCache)
    requires
        ddmin::nothing_came(bytes, r, k, a, b),
    ensures
        b.max_checks == a.max_checks,
        a.results@.is_prefix_of(b.results@),
    decreases k,
{
    if k > 0 {
        let m = lemma_last_try(bytes, r, k, a, b);
        lemma_nothing_extends(bytes, r, k - 1, a, m);
        driver::lemma_prefixes(a, m, b);
    } else {
        lemma_same(a);
    }
}

proof fn lemma_nothing(
    bytes: Seq<u8>,
    r: Round,
    k: int,
    a1: OracleCache,
    b1: OracleCache,
    a2: OracleCache,
    b2: OracleCache,
    v: spec_fn(Seq<u8>) -> bool,
)
    requires
        alike(a1, a2),
        ddmin::nothing_came(bytes, r, k, a1, b1),
        ddmin::nothing_came(bytes, r, k, a2, b2),
        honest(b1, v),
        honest(b2, v),
    ensures
        alike(b1, b2),
    decreases k,
{
    if k > 0 {
        let m1 = lemma_last_try(bytes, r, k, a1, b1);
        let m2 = lemma_last_try(bytes, r, k, a2, b2);
        lemma_honest_before(m1, b1, v);
        lemma_honest_before(m2, b2, v);
        lemma_nothing(bytes, r, k - 1, a1, m1, a2, m2, v);
        lemma_try(bytes, r, k - 1, m1, b1, Some(false), m2, b2, Some(false), v);
    }
}

/// Nothing came of a chunk of which something comes: that cannot be.
proof fn lemma_not_both(
    bytes: Seq<u8>,
    r: Round,
    chunk: int,
    a1: OracleCache,
    b1: OracleCache,
    x: Option<bool>,
    k: int,
    a2: OracleCache,
    b2: OracleCache,
    v: spec_fn(Seq<u8>) -> bool,
)
    requires
        alike(a1, a2),
        ddmin::ends_at(bytes, r, chunk, a1, b1, x),
        x != Some(false),
        ddmin::nothing_came(bytes, r, k, a2, b2),
        honest(b1, v),
        honest(b2, v),
    ensures
        k <= chunk,
    decreases k,
{
    if k > chunk {
        let m2 = lemma_last_try(bytes, r, k, a2, b2);
        lemma_honest_before(m2, b2, v);
        if k > chunk + 1 {
            lemma_not_both(bytes, r, chunk, a1, b1, x, k - 1, a2, m2, v);
        } else {
            let m1 = choose|m1: OracleCache| #[trigger]
                ddmin::nothing_came(bytes, r, chunk, a1, m1) && ddmin::is_try(
                    bytes,
                    r,
                    chunk,
                    m1,
                    b1,
                    x,
                );
            ddmin::lemma_try_extends(bytes, r, chunk, m1, b1, x);
            lemma_honest_before(m1, b1, v);
            lemma_nothing(bytes, r, chunk, a1, m1, a2, m2, v);
            lemma_try(bytes, r, chunk, m1, b1, x, m2, b2, Some(false), v);
        }
    }
}

/// The tries before the chunk at which a round ends.
proof fn lemma_before_end(
    bytes: Seq<u8>,
    r: Round,
    chunk: int,
    a: OracleCache,
    b: OracleCache,
    x: Option<bool>,
) -> (m: OracleCache)
    requires
        ddmin::ends_at(bytes, r, chunk, a, b, x),
    ensures
        b.max_checks == a.max_checks,
        ddmin::nothing_came(bytes, r, chunk, a, m),
        ddmin::is_try(bytes, r, chunk, m, b, x),
        m.results@.is_prefix_of(b.results@),
        a.results@.is_prefix_of(b.results@),
{
    let m = choose|m: OracleCache| #[trigger]
        ddmin::nothing_came(bytes, r, chunk, a, m) && ddmin::is_try(bytes, r, chunk, m, b, x);
    ddmin::lemma_try_extends(bytes, r, chunk, m, b, x);
    lemma_nothing_extends(bytes, r, chunk, a, m);
    driver::lemma_prefixes(a, m, b);
    m
}

proof fn lemma_ends(
    bytes: Seq<u8>,
    r: Round,
    chunk1: int,
    a1: OracleCache,
    b1: OracleCache,
    x1: Option<bool>,
    chunk2: int,
    a2: OracleCache,
    b2: OracleCache,
    x2: Option<bool>,
    v: spec_fn(Seq<u8>) -> bool,
)
    requires
        alike(a1, a2),
        ddmin::ends_at(bytes, r, chunk1, a1, b1, x1),
        ddmin::ends_at(bytes, r, chunk2, a2, b2, x2),
        x1 != Some(false),
        x2 != Some(false),
        honest(b1, v),
        honest(b2, v),
    ensures
        chunk1 == chunk2,
        x1 == x2,
        alike(b1, b2),
{
    let m1 = lemma_before_end(bytes, r, chunk1, a1, b1, x1);
    let m2 = lemma_before_end(bytes, r, chunk2, a2, b2, x2);
    lemma_honest_before(m1, b1, v);
    lemma_honest_before(m2, b2, v);
    lemma_not_both(bytes, r, chunk1, a1, b1, x1, chunk2, a2, m2, v);
    lemma_not_both(bytes, r, chunk2, a2, b2, x2, chunk1, a1, m1, v);
    lemma_nothing(bytes, r, chunk1, a1, m1, a2, m2, v);
    lemma_try(bytes, r, chunk1, m1, b1, x1, m2, b2, x2, v);
}

/// The chunk that goes in a round.
spec fn goes(bytes: Seq<u8>, x: Stage, y: Stage, chunk: int) -> bool {
    ddmin::ends_at(bytes, x.round, chunk, x.cache, y.cache, Some(true)) && y.round == (Round {
        keep: x.round.without(chunk),
        n: if x.round.n > 2 {
            x.round.n - 1
        } else {
            2
        },
    })
}

proof fn lemma_next_goes(bytes: Seq<u8>, x: Stage, y: Stage)
    requires
        ddmin::is_next_stage(bytes, x, y),
    ensures
        y.cache.max_checks == x.cache.max_checks,
        (exists|chunk: int| goes(bytes, x, y, chunk)) || (x.round.n < x.round.keep.len()
            && ddmin::nothing_came(bytes, x.round, x.round.n, x.cache, y.cache) && y.round == (
        Round {
            keep: x.round.keep,
            n: if 2 * x.round.n < x.round.keep.len() {
                2 * x.round.n
            } else {
                x.round.keep.len() as int
            },
        })),
        x.cache.results@.is_prefix_of(y.cache.results@),
{
    if exists|chunk: int| #[trigger]
        ddmin::ends_at(bytes, x.round, chunk, x.cache, y.cache, Some(true)) && y.round == (Round {
            keep: x.round.without(chunk),
            n: if x.round.n > 2 {
                x.round.n - 1
            } else {
                2
            },
        }) {
        let chunk = choose|chunk: int| #[trigger]
            ddmin::ends_at(bytes, x.round, chunk, x.cache, y.cache, Some(true)) && y.round == (
            Round {
                keep: x.round.without(chunk),
                n: if x.round.n > 2 {
                    x.round.n - 1
                } else {
                    2
                },
            });
        assert(goes(bytes, x, y, chunk));
        let m = lemma_before_end(bytes, x.round, chunk, x.cache, y.cache, Some(true));
    } else {
        lemma_nothing_extends(bytes, x.round, x.round.n, x.cache, y.cache);
    }
}

/// Two stages tell the same.
spec fn same_stage(x: Stage, y: Stage) -> bool {
    x.round == y.round && alike(x.cache, y.cache)
}

proof fn lemma_next(
    bytes: Seq<u8>,
    x1: Stage,
    y1: Stage,
    x2: Stage,
    y2: Stage,
    v: spec_fn(Seq<u8>) -> bool,
)
    requires
        same_stage(x1, x2),
        ddmin::is_next_stage(bytes, x1, y1),
        ddmin::is_next_stage(bytes, x2, y2),
        honest(y1.cache, v),
        honest(y2.cache, v),
    ensures
        same_stage(y1, y2),
{
    lemma_next_goes(bytes, x1, y1);
    lemma_next_goes(bytes, x2, y2);
    let (r, n) = (x1.round, x1.round.n);
    let some1 = exists|chunk: int| goes(bytes, x1, y1, chunk);
    let some2 = exists|chunk: int| goes(bytes, x2, y2, chunk);
    let c1 = choose|chunk: int| goes(bytes, x1, y1, chunk);
    let c2 = choose|chunk: int| goes(bytes, x2, y2, chunk);
    let (a1, b1) = (x1.cache, y1.cache);
    let (a2, b2) = (x2.cache, y2.cache);
    if some1 && some2 {
        lemma_ends(bytes, r, c1, a1, b1, Some(true), c2, a2, b2, Some(true), v);
    } else if some1 {
        lemma_not_both(bytes, r, c1, a1, b1, Some(true), n, a2, b2, v);
    } else if some2 {
        lemma_mirrored(a1, a2);
        lemma_not_both(bytes, r, c2, a2, b2, Some(true), n, a1, b1, v);
    } else {
        lemma_nothing(bytes, r, n, a1, b1, a2, b2, v);
    }
}

proof fn lemma_mirrored(a: OracleCache, b: OracleCache)
    requires
        alike(a, b),
    ensures
        alike(b, a),
{
    assert forall|i: int| 0 <= i < b.results@.len() implies (#[trigger] b.results@[i]).0@
        == a.results@[i].0@ && b.results@[i].1 == a.results@[i].1 by {
        assert(a.results@[i].0@ == b.results@[i].0@);
    }
}

/// A search that goes on does not end.
proof fn lemma_next_or_end(
    bytes: Seq<u8>,
    x1: Stage,
    y1: Stage,
    x2: Stage,
    b2: OracleCache,
    v: spec_fn(Seq<u8>) -> bool,
)
    requires
        same_stage(x1, x2),
        ddmin::is_next_stage(bytes, x1, y1),
        honest(y1.cache, v),
        honest(b2, v),
    ensures
        !ddmin::is_end(bytes, x2, b2),
{
    if ddmin::is_end(bytes, x2, b2) {
        lemma_next_goes(bytes, x1, y1);
        lemma_mirrored(x1.cache, x2.cache);
        let (r, n) = (x1.round, x1.round.n);
        let (a1, b1, a2) = (x1.cache, y1.cache, x2.cache);
        let goes_on = exists|chunk: int| goes(bytes, x1, y1, chunk);
        let c1 = choose|chunk: int| goes(bytes, x1, y1, chunk);
        if exists|chunk: int| #[trigger] ddmin::ends_at(bytes, x2.round, chunk, a2, b2, None) {
            let c2 = choose|chunk: int| #[trigger]
                ddmin::ends_at(bytes, x2.round, chunk, a2, b2, None);
            if goes_on {
                lemma_ends(bytes, r, c1, a1, b1, Some(true), c2, a2, b2, None, v);
            } else {
                lemma_not_both(bytes, r, c2, a2, b2, None, n, a1, b1, v);
            }
        } else if goes_on {
            lemma_not_both(bytes, r, c1, a1, b1, Some(true), n, a2, b2, v);
        }
    }
}

proof fn lemma_end_extends(bytes: Seq<u8>, x: Stage, b: OracleCache)
    requires
        ddmin::is_end(bytes, x, b),
    ensures
        b.max_checks == x.cache.max_checks,
        x.cache.results@.is_prefix_of(b.results@),
{
    if x.round.keep.len() < 2 || x.cache.spent() {
        lemma_same(b);
    } else if exists|chunk: int| #[trigger]
        ddmin::ends_at(bytes, x.round, chunk, x.cache, b, None) {
        let chunk = choose|chunk: int| #[trigger]
            ddmin::ends_at(bytes, x.round, chunk, x.cache, b, None);
        let m = lemma_before_end(bytes, x.round, chunk, x.cache, b, None);
    } else {
        lemma_nothing_extends(bytes, x.round, x.round.n, x.cache, b);
    }
}

proof fn lemma_end(
    bytes: Seq<u8>,
    x1: Stage,
    b1: OracleCache,
    x2: Stage,
    b2: OracleCache,
    v: spec_fn(Seq<u8>) -> bool,
)
    requires
        same_stage(x1, x2),
        ddmin::is_end(bytes, x1, b1),
        ddmin::is_end(bytes, x2, b2),
        honest(b1, v),
        honest(b2, v),
    ensures
        alike(b1, b2),
{
    let r = x1.round;
    let (a1, a2) = (x1.cache, x2.cache);
    lemma_mirrored(a1, a2);
    if r.keep.len() >= 2 && !a1.spent() {
        let ends1 = exists|chunk: int| #[trigger] ddmin::ends_at(bytes, r, chunk, a1, b1, None);
        let ends2 = exists|chunk: int| #[trigger] ddmin::ends_at(bytes, r, chunk, a2, b2, None);
        let c1 = choose|chunk: int| #[trigger] ddmin::ends_at(bytes, r, chunk, a1, b1, None);
        let c2 = choose|chunk: int| #[trigger] ddmin::ends_at(bytes, r, chunk, a2, b2, None);
        if ends1 && ends2 {
            lemma_ends(bytes, r, c1, a1, b1, None, c2, a2, b2, None, v);
        } else if ends1 {
            lemma_not_both(bytes, r, c1, a1, b1, None, r.n, a2, b2, v);
        } else if ends2 {
            lemma_not_both(bytes, r, c2, a2, b2, None, r.n, a1, b1, v);
        } else {
            lemma_nothing(bytes, r, r.n, a1, b1, a2, b2, v);
        }
    }
}

proof fn lemma_stage_extends(bytes: Seq<u8>, a: OracleCache, stages: Seq<Stage>, i: int, j: int)
    requires
        ddmin::is_search(bytes, a, stages),
        0 <= i <= j < stages.len(),
    ensures
        stages[i].cache.max_checks == stages[j].cache.max_checks,
        stages[i].cache.results@.is_prefix_of(stages[j].cache.results@),
    decreases j - i,
{
    if i < j {
        lemma_stage_extends(bytes, a, stages, i, j - 1);
        assert(ddmin::is_next_stage(bytes, stages[j - 1], stages[j]));
        lemma_next_goes(bytes, stages[j - 1], stages[j]);
        driver::lemma_prefixes(stages[i].cache, stages[j - 1].cache, stages[j].cache);
    } else {
        lemma_same(stages[i].cache);
    }
}

proof fn lemma_stages(
    bytes: Seq<u8>,
    a1: OracleCache,
    s1: Seq<Stage>,
    a2: OracleCache,
    s2: Seq<Stage>,
    i: int,
    v: spec_fn(Seq<u8>) -> bool,
)
    requires
        alike(a1, a2),
        ddmin::is_search(bytes, a1, s1),
        ddmin::is_search(bytes, a2, s2),
        0 <= i < s1.len(),
        i < s2.len(),
        honest(s1[i].cache, v),
        honest(s2[i].cache, v),
    ensures
        same_stage(s1[i], s2[i]),
    decreases i,
{
    if i > 0 {
        lemma_stage_extends(bytes, a1, s1, i - 1, i);
        lemma_stage_extends(bytes, a2, s2, i - 1, i);
        lemma_honest_before(s1[i - 1].cache, s1[i].cache, v);
        lemma_honest_before(s2[i - 1].cache, s2[i].cache, v);
        lemma_stages(bytes, a1, s1, a2, s2, i - 1, v);
        assert(ddmin::is_next_stage(bytes, s1[i - 1], s1[i]));
        assert(ddmin::is_next_stage(bytes, s2[i - 1], s2[i]));
        lemma_next(bytes, s1[i - 1], s1[i], s2[i - 1], s2[i], v);
    }
}

/// One search does not go on where the other ends.
proof fn lemma_not_longer(
    bytes: Seq<u8>,
    a1: OracleCache,
    s1: Seq<Stage>,
    b1: OracleCache,
    a2: OracleCache,
    s2: Seq<Stage>,
    b2: OracleCache,
    v: spec_fn(Seq<u8>) -> bool,
)
    requires
        alike(a1, a2),
        ddmin::is_search(bytes, a1, s1),
        ddmin::is_end(bytes, s1.last(), b1),
        ddmin::is_search(bytes, a2, s2),
        ddmin::is_end(bytes, s2.last(), b2),
        honest(b1, v),
        honest(b2, v),
    ensures
        s1.len() <= s2.len(),
{
    if s1.len() > s2.len() {
        let i = s2.len() - 1;
        lemma_end_extends(bytes, s1.last(), b1);
        lemma_end_extends(bytes, s2.last(), b2);
        lemma_honest_before(s1.last().cache, b1, v);
        lemma_honest_before(s2.last().cache, b2, v);
        lemma_stage_extends(bytes, a1, s1, i, s1.len() - 1);
        lemma_stage_extends(bytes, a1, s1, i + 1, s1.len() - 1);
        lemma_honest_before(s1[i].cache, s1.last().cache, v);
        lemma_honest_before(s1[i + 1].cache, s1.last().cache, v);
        lemma_stages(bytes, a1, s1, a2, s2, i, v);
        assert(ddmin::is_next_stage(bytes, s1[i + 1 - 1], s1[i + 1]));
        lemma_next_or_end(bytes, s1[i], s1[i + 1], s2[i], b2, v);
    }
}

proof fn lemma_searched(
    bytes: Seq<u8>,
    a1: OracleCache,
    b1: OracleCache,
    out1: Seq<u8>,
    a2: OracleCache,
    b2: OracleCache,
    out2: Seq<u8>,
    v: spec_fn(Seq<u8>) -> bool,
)
    requires
        alike(a1, a2),
        ddmin::searched(bytes, a1, b1, out1),
        ddmin::searched(bytes, a2, b2, out2),
        honest(b1, v),
        honest(b2, v),
    ensures
        out1 == out2,
        alike(b1, b2),
{
    let s1 = choose|s: Seq<Stage>| #[trigger]
        ddmin::is_search(bytes, a1, s) && ddmin::is_end(bytes, s.last(), b1) && out1
            == s.last().round.program(bytes);
    let s2 = choose|s: Seq<Stage>| #[trigger]
        ddmin::is_search(bytes, a2, s) && ddmin::is_end(bytes, s.last(), b2) && out2
            == s.last().round.program(bytes);
    lemma_not_longer(bytes, a1, s1, b1, a2, s2, b2, v);
    lemma_mirrored(a1, a2);
    lemma_not_longer(bytes, a2, s2, b2, a1, s1, b1, v);
    lemma_end_extends(bytes, s1.last(), b1);
    lemma_end_extends(bytes, s2.last(), b2);
    lemma_honest_before(s1.last().cache, b1, v);
    lemma_honest_before(s2.last().cache, b2, v);
    lemma_stages(bytes, a1, s1, a2, s2, s1.len() - 1, v);
    lemma_end(bytes, s1.last(), b1, s2.last(), b2, v);
}

proof fn lemma_searched_extends(bytes: Seq<u8>, a: OracleCache, b: OracleCache, out: Seq<u8>)
    requires
        ddmin::searched(bytes, a, b, out),
    ensures
        b.max_checks == a.max_checks,
        a.results@.is_prefix_of(b.results@),
{
    let s = choose|s: Seq<Stage>| #[trigger]
        ddmin::is_search(bytes, a, s) && ddmin::is_end(bytes, s.last(), b) && out
            == s.last().round.program(bytes);
    lemma_stage_extends(bytes, a, s, 0, s.len() - 1);
    lemma_end_extends(bytes, s.last(), b);
    driver::lemma_prefixes(a, s.last().cache, b);
}

/// The check of the program with which delta debugging begins, and its answer.
proof fn lemma_first_check(
    bytes: Seq<u8>,
    a: OracleCache,
    b: OracleCache,
    r: Option<Seq<u8>>,
) -> (x: (OracleCache, Option<bool>))
    requires
        ddmin::minimized(bytes, a, b, r),
        bytes.len() >= 16,
    ensures
        b.max_checks == a.max_checks,
        ddmin::checked(a, x.0, bytes, x.1),
        a.results@.is_prefix_of(b.results@),
        x.0.results@.is_prefix_of(b.results@),
        match x.1 {
            None => x.0 == b && r == Some(bytes),
            Some(false) => x.0 == b && r is None,
            Some(true) => r is Some && ddmin::searched(bytes, x.0, b, r->0),
        },
{
    if ddmin::checked(a, b, bytes, None) && r == Some(bytes) {
        ddmin::lemma_check_extends(a, b, bytes, None);
        lemma_same(b);
        (b, None)
    } else if ddmin::checked(a, b, bytes, Some(false)) && r is None {
        ddmin::lemma_check_extends(a, b, bytes, Some(false));
        lemma_same(b);
        (b, Some(false))
    } else {
        let m = choose|m: OracleCache| #[trigger]
            ddmin::checked(a, m, bytes, Some(true)) && ddmin::searched(bytes, m, b, r->0);
        ddmin::lemma_check_extends(a, m, bytes, Some(true));
        lemma_searched_extends(bytes, m, b, r->0);
        driver::lemma_prefixes(a, m, b);
        (m, Some(true))
    }
}

proof fn lemma_minimized_extends(
    bytes: Seq<u8>,
    a: OracleCache,
    b: OracleCache,
    r: Option<Seq<u8>>,
)
    requires
        ddmin::minimized(bytes, a, b, r),
    ensures
        b.max_checks == a.max_checks,
        a.results@.is_prefix_of(b.results@),
{
    if bytes.len() >= 16 {
        let x = lemma_first_check(bytes, a, b, r);
    } else {
        lemma_same(a);
    }
}

proof fn lemma_minimized(
    bytes: Seq<u8>,
    a1: OracleCache,
    b1: OracleCache,
    r1: Option<Seq<u8>>,
    a2: OracleCache,
    b2: OracleCache,
    r2: Option<Seq<u8>>,
    v: spec_fn(Seq<u8>) -> bool,
)
    requires
        alike(a1, a2),
        ddmin::minimized(bytes, a1, b1, r1),
        ddmin::minimized(bytes, a2, b2, r2),
        honest(b1, v),
        honest(b2, v),
    ensures
        r1 == r2,
        alike(b1, b2),
{
    if bytes.len() >= 16 {
        let (m1, x1) = lemma_first_check(bytes, a1, b1, r1);
        let (m2, x2) = lemma_first_check(bytes, a2, b2, r2);
        lemma_honest_before(m1, b1, v);
        lemma_honest_before(m2, b2, v);
        lemma_check(a1, m1, x1, a2, m2, x2, bytes, v);
        if x1 == Some(true) {
            lemma_searched(bytes, m1, b1, r1->0, m2, b2, r2->0, v);
        }
    }
}

/// Delta debugging is deterministic: from like caches, and with an oracle that
/// gives one answer, it leaves the same program and like caches.
pub proof fn search_is_determined<F: FnMut(&[u8]) -> bool>(
    oracle: F,
    bytes: Seq<u8>,
    a1: OracleCache,
    b1: OracleCache,
    r1: Option<Seq<u8>>,
    a2: OracleCache,
    b2: OracleCache,
    r2: Option<Seq<u8>>,
)
    requires
        gives_one_answer(oracle),
        alike(a1, a2),
        ddmin::minimized(bytes, a1, b1, r1),
        ddmin::minimized(bytes, a2, b2, r2),
        b1.answers(oracle),
        b2.answers(oracle),
    ensures
        r1 == r2,
        alike(b1, b2),
{
    lemma_honest(oracle, b1);
    lemma_honest(oracle, b2);
    lemma_minimized(
        bytes,
        a1,
        b1,
        r1,
        a2,
        b2,
        r2,
        |c: Seq<u8>| ddmin::says(oracle, c, true),
    );
}

// ── The run ─────────────────────────────────────────────────────────────────

proof fn lemma_applied(
    bytes: Seq<u8>,
    c: Seq<u8>,
    a1: OracleCache,
    b1: OracleCache,
    ok1: bool,
    a2: OracleCache,
    b2: OracleCache,
    ok2: bool,
    v: spec_fn(Seq<u8>) -> bool,
)
    requires
        alike(a1, a2),
        driver::is_applied(a1, b1, bytes, c, ok1),
        driver::is_applied(a2, b2, bytes, c, ok2),
        honest(b1, v),
        honest(b2, v),
    ensures
        ok1 == ok2,
        alike(b1, b2),
{
    if c != bytes {
        let x1: Option<bool> = if ok1 {
            Some(true)
        } else if ddmin::checked(a1, b1, c, None) {
            None
        } else {
            Some(false)
        };
        let x2: Option<bool> = if ok2 {
            Some(true)
        } else if ddmin::checked(a2, b2, c, None) {
            None
        } else {
            Some(false)
        };
        lemma_check(a1, b1, x1, a2, b2, x2, c, v);
    }
}

/// The last of some candidates of which none is taken.
proof fn lemma_last_applied(
    bytes: Seq<u8>,
    list: Seq<Seq<u8>>,
    k: int,
    a: OracleCache,
    b: OracleCache,
) -> (m: OracleCache)
    requires
        driver::none_applied(a, b, bytes, list, k),
        k > 0,
    ensures
        driver::none_applied(a, m, bytes, list, k - 1),
        driver::is_applied(m, b, bytes, list[k - 1], false),
        m.results@.is_prefix_of(b.results@),
{
    let m = choose|m: OracleCache|
        driver::none_applied(a, m, bytes, list, k - 1) && #[trigger] driver::is_applied(
            m,
            b,
            bytes,
            list[k - 1],
            false,
        );
    driver::lemma_applied_extends(m, b, bytes, list[k - 1], false);
    m
}

proof fn lemma_none_applied(
    bytes: Seq<u8>,
    list: Seq<Seq<u8>>,
    k: int,
    a1: OracleCache,
    b1: OracleCache,
    a2: OracleCache,
    b2: OracleCache,
    v: spec_fn(Seq<u8>) -> bool,
)
    requires
        alike(a1, a2),
        driver::none_applied(a1, b1, bytes, list, k),
        driver::none_applied(a2, b2, bytes, list, k),
        honest(b1, v),
        honest(b2, v),
    ensures
        alike(b1, b2),
    decreases k,
{
    if k > 0 {
        let m1 = lemma_last_applied(bytes, list, k, a1, b1);
        let m2 = lemma_last_applied(bytes, list, k, a2, b2);
        lemma_honest_before(m1, b1, v);
        lemma_honest_before(m2, b2, v);
        lemma_none_applied(bytes, list, k - 1, a1, m1, a2, m2, v);
        lemma_applied(bytes, list[k - 1], m1, b1, false, m2, b2, false, v);
    }
}

/// The candidate with the number `n` is the first that is taken; `m` is the cache
/// before it.
spec fn taken_at(
    bytes: Seq<u8>,
    list: Seq<Seq<u8>>,
    n: int,
    a: OracleCache,
    m: OracleCache,
    b: OracleCache,
) -> bool {
    &&& 0 <= n < list.len()
    &&& driver::none_applied(a, m, bytes, list, n)
    &&& driver::is_applied(m, b, bytes, list[n], true)
    &&& m.results@.is_prefix_of(b.results@)
}

/// The candidates before the one that is taken are not more than those of which
/// none is taken.
proof fn lemma_taken_late(
    bytes: Seq<u8>,
    list: Seq<Seq<u8>>,
    n: int,
    a1: OracleCache,
    m1: OracleCache,
    b1: OracleCache,
    k: int,
    a2: OracleCache,
    b2: OracleCache,
    v: spec_fn(Seq<u8>) -> bool,
)
    requires
        alike(a1, a2),
        taken_at(bytes, list, n, a1, m1, b1),
        driver::none_applied(a2, b2, bytes, list, k),
        honest(b1, v),
        honest(b2, v),
    ensures
        k <= n,
    decreases k,
{
    if k > n {
        let m2 = lemma_last_applied(bytes, list, k, a2, b2);
        lemma_honest_before(m2, b2, v);
        if k > n + 1 {
            lemma_taken_late(bytes, list, n, a1, m1, b1, k - 1, a2, m2, v);
        } else {
            lemma_honest_before(m1, b1, v);
            lemma_none_applied(bytes, list, n, a1, m1, a2, m2, v);
            lemma_applied(bytes, list[n], m1, b1, true, m2, b2, false, v);
        }
    }
}

/// Where a candidate is taken, it is one with a number.
proof fn lemma_taken_at(
    bytes: Seq<u8>,
    list: Seq<Seq<u8>>,
    a: OracleCache,
    b: OracleCache,
    next: Seq<u8>,
) -> (x: (int, OracleCache))
    requires
        driver::first_taken(a, b, bytes, list, Some(next)),
    ensures
        taken_at(bytes, list, x.0, a, x.1, b),
        list[x.0] == next,
{
    let (n, m) = choose|n: int, m: OracleCache| #[trigger]
        driver::none_applied(a, m, bytes, list, n) && 0 <= n < list.len() && list[n] == next
            && driver::is_applied(m, b, bytes, next, true);
    driver::lemma_applied_extends(m, b, bytes, next, true);
    (n, m)
}

proof fn lemma_first_taken(
    bytes: Seq<u8>,
    list: Seq<Seq<u8>>,
    a1: OracleCache,
    b1: OracleCache,
    r1: Option<Seq<u8>>,
    a2: OracleCache,
    b2: OracleCache,
    r2: Option<Seq<u8>>,
    v: spec_fn(Seq<u8>) -> bool,
)
    requires
        alike(a1, a2),
        driver::first_taken(a1, b1, bytes, list, r1),
        driver::first_taken(a2, b2, bytes, list, r2),
        honest(b1, v),
        honest(b2, v),
    ensures
        r1 == r2,
        alike(b1, b2),
{
    lemma_mirrored(a1, a2);
    let all = list.len() as int;
    if r1 is Some && r2 is Some {
        let (n1, m1) = lemma_taken_at(bytes, list, a1, b1, r1->0);
        let (n2, m2) = lemma_taken_at(bytes, list, a2, b2, r2->0);
        lemma_honest_before(m1, b1, v);
        lemma_honest_before(m2, b2, v);
        lemma_taken_late(bytes, list, n1, a1, m1, b1, n2, a2, m2, v);
        lemma_taken_late(bytes, list, n2, a2, m2, b2, n1, a1, m1, v);
        lemma_none_applied(bytes, list, n1, a1, m1, a2, m2, v);
        lemma_applied(bytes, list[n1], m1, b1, true, m2, b2, true, v);
    } else if r1 is Some {
        let (n1, m1) = lemma_taken_at(bytes, list, a1, b1, r1->0);
        lemma_taken_late(bytes, list, n1, a1, m1, b1, all, a2, b2, v);
    } else if r2 is Some {
        let (n2, m2) = lemma_taken_at(bytes, list, a2, b2, r2->0);
        lemma_taken_late(bytes, list, n2, a2, m2, b2, all, a1, b1, v);
    } else {
        lemma_none_applied(bytes, list, all, a1, b1, a2, b2, v);
    }
}

/// Two points tell the same.
pub open spec fn same_point(p: Point, q: Point) -> bool {
    p.program == q.program && p.timeline == q.timeline && alike(p.cache, q.cache)
}

pub proof fn lemma_cfg_extends<A: Fn(&[u8]) -> Option<u32>>(anchor: A, p: Point, q: Point)
    requires
        driver::cfg_pass(anchor, p, q),
    ensures
        p.cache.max_checks == q.cache.max_checks,
        p.cache.results@.is_prefix_of(q.cache.results@),
{
    let (at, r) = choose|at: Option<u32>, r: Option<Seq<u8>>| #[trigger]
        driver::anchored(anchor, p.program, at) && #[trigger] driver::first_taken(
            p.cache,
            q.cache,
            p.program,
            driver::cfg_candidates(p.program, at),
            r,
        ) && q == p.behind("cfg"@, r, q.cache);
    driver::lemma_taken_extends(
        p.cache,
        q.cache,
        p.program,
        driver::cfg_candidates(p.program, at),
        r,
    );
}

pub proof fn lemma_ddmin_extends(p: Point, q: Point)
    requires
        driver::ddmin_pass(p, q),
    ensures
        p.cache.max_checks == q.cache.max_checks,
        p.cache.results@.is_prefix_of(q.cache.results@),
{
    let r = choose|r: Option<Seq<u8>>| #[trigger]
        ddmin::minimized(p.program, p.cache, q.cache, r) && q == p.behind("ddmin"@, r, q.cache);
    lemma_minimized_extends(p.program, p.cache, q.cache, r);
}

pub proof fn lemma_operand_extends(p: Point, q: Point)
    requires
        driver::operand_pass(p, q),
    ensures
        p.cache.max_checks == q.cache.max_checks,
        p.cache.results@.is_prefix_of(q.cache.results@),
{
    let list = driver::operand_streams(p.program);
    let r = choose|r: Option<Seq<u8>>| #[trigger]
        driver::first_taken(p.cache, q.cache, p.program, list, r) && q == p.behind(
            "operand"@,
            r,
            q.cache,
        );
    driver::lemma_taken_extends(p.cache, q.cache, p.program, list, r);
}

proof fn lemma_cfg<A: Fn(&[u8]) -> Option<u32>>(
    anchor: A,
    p1: Point,
    q1: Point,
    p2: Point,
    q2: Point,
    v: spec_fn(Seq<u8>) -> bool,
)
    requires
        gives_one_anchor(anchor),
        same_point(p1, p2),
        driver::cfg_pass(anchor, p1, q1),
        driver::cfg_pass(anchor, p2, q2),
        honest(q1.cache, v),
        honest(q2.cache, v),
    ensures
        same_point(q1, q2),
{
    let (at1, r1) = choose|at: Option<u32>, r: Option<Seq<u8>>| #[trigger]
        driver::anchored(anchor, p1.program, at) && #[trigger] driver::first_taken(
            p1.cache,
            q1.cache,
            p1.program,
            driver::cfg_candidates(p1.program, at),
            r,
        ) && q1 == p1.behind("cfg"@, r, q1.cache);
    let (at2, r2) = choose|at: Option<u32>, r: Option<Seq<u8>>| #[trigger]
        driver::anchored(anchor, p2.program, at) && #[trigger] driver::first_taken(
            p2.cache,
            q2.cache,
            p2.program,
            driver::cfg_candidates(p2.program, at),
            r,
        ) && q2 == p2.behind("cfg"@, r, q2.cache);
    assert(at1 == at2);
    lemma_first_taken(
        p1.program,
        driver::cfg_candidates(p1.program, at1),
        p1.cache,
        q1.cache,
        r1,
        p2.cache,
        q2.cache,
        r2,
        v,
    );
}

proof fn lemma_ddmin(
    p1: Point,
    q1: Point,
    p2: Point,
    q2: Point,
    v: spec_fn(Seq<u8>) -> bool,
)
    requires
        same_point(p1, p2),
        driver::ddmin_pass(p1, q1),
        driver::ddmin_pass(p2, q2),
        honest(q1.cache, v),
        honest(q2.cache, v),
    ensures
        same_point(q1, q2),
{
    let r1 = choose|r: Option<Seq<u8>>| #[trigger]
        ddmin::minimized(p1.program, p1.cache, q1.cache, r) && q1 == p1.behind(
            "ddmin"@,
            r,
            q1.cache,
        );
    let r2 = choose|r: Option<Seq<u8>>| #[trigger]
        ddmin::minimized(p2.program, p2.cache, q2.cache, r) && q2 == p2.behind(
            "ddmin"@,
            r,
            q2.cache,
        );
    lemma_minimized(p1.program, p1.cache, q1.cache, r1, p2.cache, q2.cache, r2, v);
}

proof fn lemma_operand(
    p1: Point,
    q1: Point,
    p2: Point,
    q2: Point,
    v: spec_fn(Seq<u8>) -> bool,
)
    requires
        same_point(p1, p2),
        driver::operand_pass(p1, q1),
        driver::operand_pass(p2, q2),
        honest(q1.cache, v),
        honest(q2.cache, v),
    ensures
        same_point(q1, q2),
{
    let list = driver::operand_streams(p1.program);
    let r1 = choose|r: Option<Seq<u8>>| #[trigger]
        driver::first_taken(p1.cache, q1.cache, p1.program, list, r) && q1 == p1.behind(
            "operand"@,
            r,
            q1.cache,
        );
    let r2 = choose|r: Option<Seq<u8>>| #[trigger]
        driver::first_taken(p2.cache, q2.cache, p2.program, list, r) && q2 == p2.behind(
            "operand"@,
            r,
            q2.cache,
        );
    lemma_first_taken(p1.program, list, p1.cache, q1.cache, r1, p2.cache, q2.cache, r2, v);
}

/// The points between the passes of a cycle.
proof fn lemma_within<A: Fn(&[u8]) -> Option<u32>>(anchor: A, p: Point, q: Point) -> (x: (
    Point,
    Point,
))
    requires
        driver::is_cycle(anchor, p, q),
    ensures
        driver::cfg_pass(anchor, p, x.0),
        driver::ddmin_pass(x.0, x.1),
        driver::operand_pass(x.1, q),
        p.cache.results@.is_prefix_of(q.cache.results@),
        x.0.cache.results@.is_prefix_of(q.cache.results@),
        x.1.cache.results@.is_prefix_of(q.cache.results@),
{
    let (x, y) = choose|x: Point, y: Point| #[trigger]
        driver::cfg_pass(anchor, p, x) && #[trigger] driver::ddmin_pass(x, y)
            && driver::operand_pass(y, q);
    lemma_cfg_extends(anchor, p, x);
    lemma_ddmin_extends(x, y);
    lemma_operand_extends(y, q);
    driver::lemma_prefixes(x.cache, y.cache, q.cache);
    driver::lemma_prefixes(p.cache, x.cache, q.cache);
    (x, y)
}

proof fn lemma_cycle<A: Fn(&[u8]) -> Option<u32>>(
    anchor: A,
    p1: Point,
    q1: Point,
    p2: Point,
    q2: Point,
    v: spec_fn(Seq<u8>) -> bool,
)
    requires
        gives_one_anchor(anchor),
        same_point(p1, p2),
        driver::is_cycle(anchor, p1, q1),
        driver::is_cycle(anchor, p2, q2),
        honest(q1.cache, v),
        honest(q2.cache, v),
    ensures
        same_point(q1, q2),
{
    let (x1, y1) = lemma_within(anchor, p1, q1);
    let (x2, y2) = lemma_within(anchor, p2, q2);
    lemma_honest_before(x1.cache, q1.cache, v);
    lemma_honest_before(y1.cache, q1.cache, v);
    lemma_honest_before(x2.cache, q2.cache, v);
    lemma_honest_before(y2.cache, q2.cache, v);
    lemma_cfg(anchor, p1, x1, p2, x2, v);
    lemma_ddmin(x1, y1, x2, y2, v);
    lemma_operand(y1, q1, y2, q2, v);
}

proof fn lemma_run_extends<A: Fn(&[u8]) -> Option<u32>>(
    anchor: A,
    points: Seq<Point>,
    i: int,
    j: int,
)
    requires
        driver::is_run(anchor, points),
        0 <= i <= j < points.len(),
    ensures
        points[i].cache.results@.is_prefix_of(points[j].cache.results@),
    decreases j - i,
{
    if i < j {
        lemma_run_extends(anchor, points, i, j - 1);
        assert(driver::is_cycle(anchor, points[j - 1], points[j]));
        let x = lemma_within(anchor, points[j - 1], points[j]);
        driver::lemma_prefixes(points[i].cache, points[j - 1].cache, points[j].cache);
    } else {
        lemma_same(points[i].cache);
    }
}

proof fn lemma_points<A: Fn(&[u8]) -> Option<u32>>(
    anchor: A,
    s1: Seq<Point>,
    s2: Seq<Point>,
    i: int,
    v: spec_fn(Seq<u8>) -> bool,
)
    requires
        gives_one_anchor(anchor),
        driver::is_run(anchor, s1),
        driver::is_run(anchor, s2),
        same_point(s1[0], s2[0]),
        0 <= i < s1.len(),
        i < s2.len(),
        honest(s1[i].cache, v),
        honest(s2[i].cache, v),
    ensures
        same_point(s1[i], s2[i]),
    decreases i,
{
    if i > 0 {
        lemma_run_extends(anchor, s1, i - 1, i);
        lemma_run_extends(anchor, s2, i - 1, i);
        lemma_honest_before(s1[i - 1].cache, s1[i].cache, v);
        lemma_honest_before(s2[i - 1].cache, s2[i].cache, v);
        lemma_points(anchor, s1, s2, i - 1, v);
        assert(driver::is_cycle(anchor, s1[i - 1], s1[i]));
        assert(driver::is_cycle(anchor, s2[i - 1], s2[i]));
        lemma_cycle(anchor, s1[i - 1], s1[i], s2[i - 1], s2[i], v);
    }
}

/// The cycles that lead to the end of a run.
spec fn leads_to<A: Fn(&[u8]) -> Option<u32>>(anchor: A, s: Seq<Point>, p: Point) -> bool {
    &&& driver::is_run(anchor, s)
    &&& driver::is_cycle(anchor, s.last(), p)
    &&& p.program == s.last().program
    &&& p.timeline == s.last().timeline
}

/// One run does not go on where the other ends.
proof fn lemma_run_not_longer<A: Fn(&[u8]) -> Option<u32>>(
    anchor: A,
    s1: Seq<Point>,
    p1: Point,
    s2: Seq<Point>,
    p2: Point,
    v: spec_fn(Seq<u8>) -> bool,
)
    requires
        gives_one_anchor(anchor),
        leads_to(anchor, s1, p1),
        leads_to(anchor, s2, p2),
        same_point(s1[0], s2[0]),
        honest(p1.cache, v),
        honest(p2.cache, v),
    ensures
        s1.len() <= s2.len(),
        honest(s1.last().cache, v),
        honest(s2.last().cache, v),
{
    let x1 = lemma_within(anchor, s1.last(), p1);
    let x2 = lemma_within(anchor, s2.last(), p2);
    lemma_honest_before(s1.last().cache, p1.cache, v);
    lemma_honest_before(s2.last().cache, p2.cache, v);
    if s1.len() > s2.len() {
        let i = s2.len() - 1;
        lemma_run_extends(anchor, s1, i, s1.len() - 1);
        lemma_run_extends(anchor, s1, i + 1, s1.len() - 1);
        lemma_honest_before(s1[i].cache, s1.last().cache, v);
        lemma_honest_before(s1[i + 1].cache, s1.last().cache, v);
        lemma_points(anchor, s1, s2, i, v);
        assert(driver::is_cycle(anchor, s1[i + 1 - 1], s1[i + 1]));
        lemma_cycle(anchor, s1[i], s1[i + 1], s2[i], p2, v);
    }
}

/// A reduction is deterministic: with an oracle and an anchor that give one answer
/// each, two runs on one program with one budget leave the same program, tell the
/// same timeline and made the same evaluations.
pub proof fn reduction_is_determined<F: FnMut(&[u8]) -> bool, A: Fn(&[u8]) -> Option<u32>>(
    oracle: F,
    anchor: A,
    original: Seq<u8>,
    budget: usize,
    p1: Point,
    p2: Point,
)
    requires
        gives_one_answer(oracle),
        gives_one_anchor(anchor),
        driver::is_outcome(anchor, original, budget, p1),
        driver::is_outcome(anchor, original, budget, p2),
        p1.cache.answers(oracle),
        p2.cache.answers(oracle),
    ensures
        same_point(p1, p2),
{
    let v = |c: Seq<u8>| ddmin::says(oracle, c, true);
    lemma_honest(oracle, p1.cache);
    lemma_honest(oracle, p2.cache);
    let s1 = choose|s: Seq<Point>| #[trigger]
        driver::is_run(anchor, s) && driver::is_start(s[0], original, budget) && driver::is_cycle(
            anchor,
            s.last(),
            p1,
        ) && p1.program == s.last().program && p1.timeline == s.last().timeline;
    let s2 = choose|s: Seq<Point>| #[trigger]
        driver::is_run(anchor, s) && driver::is_start(s[0], original, budget) && driver::is_cycle(
            anchor,
            s.last(),
            p2,
        ) && p2.program == s.last().program && p2.timeline == s.last().timeline;
    assert(same_point(s1[0], s2[0]) && same_point(s2[0], s1[0]));
    lemma_run_not_longer(anchor, s1, p1, s2, p2, v);
    lemma_run_not_longer(anchor, s2, p2, s1, p1, v);
    lemma_points(anchor, s1, s2, s1.len() - 1, v);
    lemma_cycle(anchor, s1.last(), p1, s2.last(), p2, v);
}

} // verus!
