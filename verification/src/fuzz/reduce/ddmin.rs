//! Delta debugging over instruction deletion: chunks of the program are
//! removed, with a granularity that halves down to single instructions, and
//! every removal that preserves the reduction invariant is kept.
//!
//! The oracle is the expensive step. A cache never evaluates the same bytes
//! twice, and a budget caps the evaluations; when it is spent, the best
//! program so far is returned.

use vstd::prelude::*;

use crate::fuzz::reduce::fixup;
use crate::fuzz::reduce::fixup::delete_insns;
use crate::fuzz::reduce::passes;

verus! {

/// The oracle may answer `verdict` on these bytes. (An oracle that is a
/// function gives one answer.)
pub open spec fn says<F: FnMut(&[u8]) -> bool>(oracle: F, bytes: Seq<u8>, verdict: bool) -> bool {
    exists|b: &[u8]| b@ == bytes && #[trigger] call_ensures(oracle, (b,), verdict)
}

/// The oracle can be asked about any bytes.
pub open spec fn askable<F: FnMut(&[u8]) -> bool>(oracle: F) -> bool {
    forall|b: &[u8]| #[trigger] call_requires(oracle, (b,))
}

/// Evaluations of the oracle, and the budget for them, shared by all passes
/// of one run.
pub struct OracleCache {
    /// The evaluated bytes with their verdicts, in order of evaluation.
    pub results: Vec<(Vec<u8>, bool)>,
    /// The budget; 0 is no limit.
    pub max_checks: usize,
    /// Oracle evaluations performed (cache misses).
    pub checks: usize,
    /// Cache hits (evaluations avoided).
    pub hits: usize,
}

impl OracleCache {
    /// No bytes were evaluated twice, every evaluation is remembered, and the
    /// budget was kept.
    pub open spec fn wf(&self) -> bool {
        &&& self.checks == self.results@.len()
        &&& self.max_checks > 0 ==> self.checks <= self.max_checks
        &&& forall|i: int, j: int|
            0 <= i < j < self.results@.len() ==> #[trigger] self.results@[i].0@
                != #[trigger] self.results@[j].0@
    }

    /// Every remembered verdict is one that the oracle gives.
    pub open spec fn answers<F: FnMut(&[u8]) -> bool>(&self, oracle: F) -> bool {
        self.answers_since(0, oracle)
    }

    /// Every verdict behind the first `from` is one that the oracle gives.
    pub open spec fn answers_since<F: FnMut(&[u8]) -> bool>(&self, from: int, oracle: F) -> bool {
        forall|i: int|
            from <= i < self.results@.len() ==> says(
                oracle,
                (#[trigger] self.results@[i]).0@,
                self.results@[i].1,
            )
    }

    /// These bytes have this verdict in the cache.
    pub open spec fn remembers(&self, bytes: Seq<u8>, verdict: bool) -> bool {
        exists|i: int|
            0 <= i < self.results@.len() && (#[trigger] self.results@[i]).0@ == bytes
                && self.results@[i].1 == verdict
    }

    /// These bytes were evaluated.
    pub open spec fn knows(&self, bytes: Seq<u8>) -> bool {
        self.remembers(bytes, true) || self.remembers(bytes, false)
    }

    /// The budget is spent.
    pub open spec fn spent(&self) -> bool {
        self.max_checks > 0 && self.checks >= self.max_checks
    }

    /// An empty cache. `max_checks == 0` means "unlimited".
    pub fn new(max_checks: usize) -> (cache: Self)
        ensures
            cache.wf(),
            cache.results@.len() == 0,
            cache.max_checks == max_checks,
            cache.checks == 0,
            cache.hits == 0,
    {
        Self { results: Vec::new(), max_checks, checks: 0, hits: 0 }
    }

    /// Whether the budget is exhausted.
    pub fn budget_exhausted(&self) -> (b: bool)
        ensures
            b == self.spent(),
    {
        self.max_checks > 0 && self.checks >= self.max_checks
    }

    /// The verdict that is remembered of these bytes.
    fn lookup(&self, bytes: &[u8]) -> (r: Option<bool>)
        requires
            self.wf(),
        ensures
            match r {
                Some(v) => self.remembers(bytes@, v),
                None => !self.knows(bytes@),
            },
    {
        let mut i: usize = 0;
        while i < self.results.len()
            invariant
                i <= self.results@.len(),
                forall|k: int| 0 <= k < i ==> (#[trigger] self.results@[k]).0@ != bytes@,
            decreases self.results@.len() - i,
        {
            if same_bytes(&self.results[i].0, bytes) {
                return Some(self.results[i].1);
            }
            i = i + 1;
        }
        None
    }

    /// Evaluate `bytes` through the oracle, memoized. Returns `None` when the
    /// budget is exhausted and the bytes are not known yet.
    pub fn check<F: FnMut(&[u8]) -> bool>(&mut self, bytes: &[u8], oracle: &mut F) -> (r: Option<
        bool,
    >)
        requires
            old(self).wf(),
            askable(*old(oracle)),
        ensures
            *final(oracle) == *old(oracle),
            final(self).wf(),
            final(self).max_checks == old(self).max_checks,
            old(self).answers(*old(oracle)) ==> final(self).answers(*old(oracle)),
            checked(*old(self), *final(self), bytes@, r),
            !old(self).knows(bytes@) && r is Some ==> says(*old(oracle), bytes@, r->0),
            r is Some ==> final(self).remembers(bytes@, r->0),
    {
        if let Some(result) = self.lookup(bytes) {
            self.hits = self.hits.saturating_add(1);
            return Some(result);
        }
        if self.budget_exhausted() {
            return None;
        }
        let result: bool = oracle(bytes);
        proof {
            assert(says(*old(oracle), bytes@, result));
        }
        let ghost before = self.results@;
        self.results.push((to_vec(bytes), result));
        assert(self.results.len() <= usize::MAX);
        self.checks = self.checks + 1;
        proof {
            let last = self.results@.len() - 1;
            assert(self.results@.drop_last() =~= before);
            assert forall|i: int| 0 <= i < last implies before[i].0@ != bytes@ by {
                if before[i].0@ == bytes@ {
                    assert(old(self).remembers(bytes@, before[i].1));
                }
            }
            assert(self.results@[last].0@ == bytes@);
            assert forall|i: int, j: int| 0 <= i < j < self.results@.len() implies (
            #[trigger] self.results@[i].0@) != (#[trigger] self.results@[j].0@) by {
                if j < last {
                    assert(before[i].0@ != before[j].0@);
                } else {
                    assert(before[i].0@ != bytes@);
                }
            }
        }
        Some(result)
    }
}

/// One check: the cache `a` becomes `b`, and `r` is the answer. Known bytes are
/// looked up, others are evaluated while the budget lasts.
pub open spec fn checked(a: OracleCache, b: OracleCache, bytes: Seq<u8>, r: Option<bool>) -> bool {
    &&& b.max_checks == a.max_checks
    &&& if a.knows(bytes) {
        &&& r is Some && a.remembers(bytes, r->0)
        &&& b.results == a.results
        &&& b.checks == a.checks
        &&& b.hits == if a.hits < usize::MAX {
            a.hits + 1
        } else {
            usize::MAX as int
        }
    } else if a.spent() {
        r is None && b == a
    } else {
        &&& r is Some
        &&& b.results@.len() == a.results@.len() + 1
        &&& b.results@.drop_last() == a.results@
        &&& b.results@.last().0@ == bytes
        &&& b.results@.last().1 == r->0
        &&& b.checks == a.checks + 1
        &&& b.hits == a.hits
    }
}

/// Whether two byte strings are equal.
pub fn same_bytes(a: &[u8], b: &[u8]) -> (same: bool)
    ensures
        same == (a@ == b@),
{
    if a.len() != b.len() {
        return false;
    }
    let mut i: usize = 0;
    while i < a.len()
        invariant
            a@.len() == b@.len(),
            i <= a@.len(),
            forall|k: int| 0 <= k < i ==> a@[k] == b@[k],
        decreases a@.len() - i,
    {
        if a[i] != b[i] {
            return false;
        }
        i = i + 1;
    }
    assert(a@ =~= b@);
    true
}

/// A copy of a byte string.
pub fn to_vec(bytes: &[u8]) -> (v: Vec<u8>)
    ensures
        v@ == bytes@,
{
    let mut v: Vec<u8> = Vec::new();
    let mut i: usize = 0;
    while i < bytes.len()
        invariant
            i <= bytes@.len(),
            v@ == bytes@.take(i as int),
        decreases bytes@.len() - i,
    {
        v.push(bytes[i]);
        proof {
            assert(bytes@.take(i + 1) == bytes@.take(i as int).push(bytes@[i as int]));
        }
        i = i + 1;
    }
    assert(bytes@.take(i as int) == bytes@);
    v
}

// ── The search ──────────────────────────────────────────────────────────────

/// `keep` lists instructions of a program of `len`, ascending.
pub open spec fn ascending(keep: Seq<u32>, len: int) -> bool {
    &&& forall|i: int, j: int| 0 <= i < j < keep.len() ==> keep[i] < keep[j]
    &&& forall|i: int| 0 <= i < keep.len() ==> #[trigger] keep[i] < len
}

/// What is removed when only `keep` stays.
pub open spec fn complement(keep: Seq<u32>, len: int) -> Set<int> {
    Set::new(|i: int| 0 <= i < len && !keep.contains(i as u32))
}

/// The first `k` of `keep` that lie outside the chunk with this number.
pub open spec fn outside_chunk(keep: Seq<u32>, granularity: int, chunk: int, k: int) -> Seq<u32>
    decreases k,
{
    if k <= 0 {
        seq![]
    } else if (k - 1) / granularity == chunk {
        outside_chunk(keep, granularity, chunk, k - 1)
    } else {
        outside_chunk(keep, granularity, chunk, k - 1).push(keep[k - 1])
    }
}

/// The deletion of one more instruction of `bytes` is refused, or the oracle
/// was asked and rejected it.
pub open spec fn essential(cache: OracleCache, bytes: Seq<u8>, i: int) -> bool {
    fixup::deletion(bytes, set![i]) matches Some(smaller) ==> cache.remembers(smaller, false)
}

/// No single instruction of `bytes` can be removed.
pub open spec fn one_minimal(cache: OracleCache, bytes: Seq<u8>) -> bool {
    forall|i: int| 0 <= i < bytes.len() / 8 ==> #[trigger] essential(cache, bytes, i)
}

/// `out` is `bytes` itself or what a deletion leaves of it.
pub open spec fn reduced_from(bytes: Seq<u8>, out: Seq<u8>) -> bool {
    out == bytes || exists|removed: Set<int>| #[trigger] fixup::deletion(bytes, removed) == Some(out)
}

/// Of the programs that the oracle accepted since the first `from` evaluations,
/// none is shorter than `out`.
pub open spec fn best_since(from: int, cache: OracleCache, out: Seq<u8>) -> bool {
    forall|k: int|
        from <= k < cache.results@.len() && (#[trigger] cache.results@[k]).1 ==> out.len()
            <= cache.results@[k].0@.len()
}

/// All that was evaluated since the first `from` evaluations is `bytes` or what a
/// deletion leaves of it.
pub open spec fn all_reduced(bytes: Seq<u8>, from: int, cache: OracleCache) -> bool {
    forall|k: int|
        from <= k < cache.results@.len() ==> reduced_from(bytes, (#[trigger] cache.results@[k]).0@)
}

// ── The rounds ──────────────────────────────────────────────────────────────

/// One round of the search: the instructions that are kept, and in how many
/// chunks they are split.
pub struct Round {
    pub keep: Seq<u32>,
    pub n: int,
}

impl Round {
    /// The size of a chunk.
    pub open spec fn granularity(self) -> int {
        (self.keep.len() - 1) / self.n + 1
    }

    /// What is kept without a chunk.
    pub open spec fn without(self, chunk: int) -> Seq<u32> {
        outside_chunk(self.keep, self.granularity(), chunk, self.keep.len() as int)
    }

    /// The program without a chunk; none where the chunk is empty or the deletion
    /// is refused.
    pub open spec fn candidate(self, bytes: Seq<u8>, chunk: int) -> Option<Seq<u8>> {
        if self.without(chunk).len() == self.keep.len() {
            None
        } else {
            fixup::deletion(bytes, complement(self.without(chunk), bytes.len() as int / 8))
        }
    }

    /// The program of what is kept.
    pub open spec fn program(self, bytes: Seq<u8>) -> Seq<u8> {
        if self.keep.len() == bytes.len() / 8 {
            bytes
        } else {
            fixup::deletion(bytes, complement(self.keep, bytes.len() as int / 8))->0
        }
    }
}

/// A chunk is tried: the cache `a` becomes `b`, and `answer` is what the oracle
/// says of the program without the chunk. Nothing comes of a chunk without a
/// candidate.
pub open spec fn is_try(
    bytes: Seq<u8>,
    r: Round,
    chunk: int,
    a: OracleCache,
    b: OracleCache,
    answer: Option<bool>,
) -> bool {
    match r.candidate(bytes, chunk) {
        Some(c) => checked(a, b, c, answer),
        None => answer == Some(false) && b == a,
    }
}

/// The first `k` chunks are tried in their order, and nothing comes of them.
pub open spec fn nothing_came(
    bytes: Seq<u8>,
    r: Round,
    k: int,
    a: OracleCache,
    b: OracleCache,
) -> bool
    decreases k,
{
    if k <= 0 {
        b == a
    } else {
        exists|m: OracleCache|
            nothing_came(bytes, r, k - 1, a, m) && #[trigger] is_try(
                bytes,
                r,
                k - 1,
                m,
                b,
                Some(false),
            )
    }
}

/// This chunk is the first of which something else comes: it can be left out, or
/// the budget does not reach for it.
pub open spec fn ends_at(
    bytes: Seq<u8>,
    r: Round,
    chunk: int,
    a: OracleCache,
    b: OracleCache,
    answer: Option<bool>,
) -> bool {
    &&& 0 <= chunk < r.n
    &&& exists|m: OracleCache| #[trigger]
        nothing_came(bytes, r, chunk, a, m) && is_try(bytes, r, chunk, m, b, answer)
}

/// A round, and the cache with which it begins.
pub struct Stage {
    pub round: Round,
    pub cache: OracleCache,
}

/// The round behind a round: without the first chunk that can go and with one
/// chunk fewer, or with twice as many chunks. A round is begun only while the
/// budget lasts.
pub open spec fn is_next_stage(bytes: Seq<u8>, x: Stage, y: Stage) -> bool {
    let (keep, n) = (x.round.keep, x.round.n);
    &&& keep.len() >= 2
    &&& !x.cache.spent()
    &&& {
        ||| exists|chunk: int| #[trigger]
            ends_at(bytes, x.round, chunk, x.cache, y.cache, Some(true)) && y.round == (Round {
                keep: x.round.without(chunk),
                n: if n > 2 {
                    n - 1
                } else {
                    2
                },
            })
        ||| n < keep.len() && nothing_came(bytes, x.round, n, x.cache, y.cache) && y.round == (
        Round {
            keep,
            n: if 2 * n < keep.len() {
                2 * n
            } else {
                keep.len() as int
            },
        })
    }
}

/// The rounds of a search that begins with the cache `a`, from the whole program
/// in two chunks.
pub open spec fn is_search(bytes: Seq<u8>, a: OracleCache, stages: Seq<Stage>) -> bool {
    &&& stages.len() > 0
    &&& stages[0] == (Stage {
        round: Round { keep: Seq::new((bytes.len() / 8) as nat, |k: int| k as u32), n: 2 },
        cache: a,
    })
    &&& forall|i: int|
        0 < i < stages.len() ==> is_next_stage(bytes, stages[i - 1], #[trigger] stages[i])
}

/// The search ends in this round, with the cache `b`: the round is not begun, or
/// the budget does not reach for one of its chunks, or no instruction can go.
pub open spec fn is_end(bytes: Seq<u8>, x: Stage, b: OracleCache) -> bool {
    let (keep, n) = (x.round.keep, x.round.n);
    if keep.len() < 2 || x.cache.spent() {
        b == x.cache
    } else {
        ||| exists|chunk: int| #[trigger] ends_at(bytes, x.round, chunk, x.cache, b, None)
        ||| n >= keep.len() && nothing_came(bytes, x.round, n, x.cache, b)
    }
}

/// `out` is what a search leaves of `bytes`; it turns the cache `a` into `b`.
pub open spec fn searched(bytes: Seq<u8>, a: OracleCache, b: OracleCache, out: Seq<u8>) -> bool {
    exists|stages: Seq<Stage>| #[trigger]
        is_search(bytes, a, stages) && is_end(bytes, stages.last(), b) && out
            == stages.last().round.program(bytes)
}

/// What delta debugging makes of `bytes` and of the cache `a`: a program of one
/// instruction stays, and so does one for which the budget does not reach; there
/// is no result when the input itself is rejected.
pub open spec fn minimized(
    bytes: Seq<u8>,
    a: OracleCache,
    b: OracleCache,
    r: Option<Seq<u8>>,
) -> bool {
    if bytes.len() < 16 {
        r == Some(bytes) && b == a
    } else {
        ||| checked(a, b, bytes, None) && r == Some(bytes)
        ||| checked(a, b, bytes, Some(false)) && r is None
        ||| r is Some && exists|m: OracleCache| #[trigger]
            checked(a, m, bytes, Some(true)) && searched(bytes, m, b, r->0)
    }
}

/// One more round makes a longer search.
proof fn lemma_search_pushed(bytes: Seq<u8>, a: OracleCache, stages: Seq<Stage>, next: Stage)
    requires
        is_search(bytes, a, stages),
        is_next_stage(bytes, stages.last(), next),
    ensures
        is_search(bytes, a, stages.push(next)),
{
    let all = stages.push(next);
    assert forall|i: int| 0 < i < all.len() implies is_next_stage(
        bytes,
        all[i - 1],
        #[trigger] all[i],
    ) by {
        if i < stages.len() {
            assert(is_next_stage(bytes, stages[i - 1], stages[i]));
        }
    }
}

/// The part of `keep` outside a chunk.
fn without_chunk(keep: &Vec<u32>, granularity: usize, chunk: usize) -> (rest: Vec<u32>)
    requires
        granularity > 0,
    ensures
        rest@ == outside_chunk(keep@, granularity as int, chunk as int, keep@.len() as int),
{
    let mut rest: Vec<u32> = Vec::new();
    let mut i: usize = 0;
    while i < keep.len()
        invariant
            granularity > 0,
            i <= keep@.len(),
            rest@ == outside_chunk(keep@, granularity as int, chunk as int, i as int),
        decreases keep@.len() - i,
    {
        if i / granularity != chunk {
            rest.push(keep[i]);
        }
        i = i + 1;
    }
    rest
}

/// The indices below `len` that are not in `keep`.
fn removed_by(keep: &Vec<u32>, len: usize) -> (removed: Vec<u32>)
    requires
        len <= u32::MAX,
    ensures
        fixup::index_set(removed@) =~= complement(keep@, len as int),
{
    let mut removed: Vec<u32> = Vec::new();
    let mut i: usize = 0;
    while i < len
        invariant
            i <= len <= u32::MAX,
            fixup::index_set(removed@) =~= complement(keep@, i as int),
        decreases len - i,
    {
        let present: bool = contains(keep, i as u32);
        let ghost before = removed@;
        if !present {
            removed.push(i as u32);
        }
        proof {
            assert forall|x: u32| removed@.contains(x) == (before.contains(x) || (!present && x
                == i)) by {
                if before.contains(x) {
                    let k = choose|k: int| 0 <= k < before.len() && before[k] == x;
                    assert(removed@[k] == x);
                }
                if !present && x == i {
                    assert(removed@[removed@.len() - 1] == x);
                }
            }
            assert(fixup::index_set(removed@) =~= complement(keep@, i + 1)) by {
                assert forall|x: int| fixup::index_set(removed@).contains(x) == complement(
                    keep@,
                    i + 1,
                ).contains(x) by {
                    assert(fixup::index_set(before).contains(x) == complement(
                        keep@,
                        i as int,
                    ).contains(x));
                }
            }
        }
        i = i + 1;
    }
    removed
}

fn contains(list: &Vec<u32>, x: u32) -> (b: bool)
    ensures
        b == list@.contains(x),
{
    let mut i: usize = 0;
    while i < list.len()
        invariant
            i <= list@.len(),
            forall|k: int| 0 <= k < i ==> list@[k] != x,
        decreases list@.len() - i,
    {
        if list[i] == x {
            return true;
        }
        i = i + 1;
    }
    false
}

/// Leaving a chunk out keeps the list ascending and can only shorten it.
proof fn lemma_outside_chunk(keep: Seq<u32>, granularity: int, chunk: int, k: int, len: int)
    requires
        ascending(keep, len),
        0 <= k <= keep.len(),
        granularity > 0,
    ensures
        ({
            let rest = outside_chunk(keep, granularity, chunk, k);
            &&& rest.len() <= k
            &&& ascending(rest, len)
            &&& forall|i: int|
                0 <= i < rest.len() ==> exists|j: int|
                    0 <= j < k && keep[j] == #[trigger] rest[i]
        }),
    decreases k,
{
    if k > 0 {
        lemma_outside_chunk(keep, granularity, chunk, k - 1, len);
        let head = outside_chunk(keep, granularity, chunk, k - 1);
        let rest = outside_chunk(keep, granularity, chunk, k);
        if (k - 1) / granularity != chunk {
            assert(rest == head.push(keep[k - 1]));
            assert forall|i: int, j: int| 0 <= i < j < rest.len() implies rest[i] < rest[j] by {
                if j == head.len() {
                    let m = choose|m: int| 0 <= m < k - 1 && keep[m] == head[i];
                    assert(keep[m] < keep[k - 1]);
                }
            }
            assert forall|i: int| 0 <= i < rest.len() implies exists|j: int|
                0 <= j < k && keep[j] == #[trigger] rest[i] by {
                if i < head.len() {
                    let m = choose|m: int| 0 <= m < k - 1 && keep[m] == head[i];
                    assert(keep[m] == rest[i]);
                } else {
                    assert(keep[k - 1] == rest[i]);
                }
            }
        } else {
            assert forall|i: int| 0 <= i < rest.len() implies exists|j: int|
                0 <= j < k && keep[j] == #[trigger] rest[i] by {
                let m = choose|m: int| 0 <= m < k - 1 && keep[m] == head[i];
                assert(keep[m] == rest[i]);
            }
        }
    }
}

/// With chunks of one, a chunk is one instruction.
proof fn lemma_outside_single(keep: Seq<u32>, chunk: int, k: int)
    requires
        0 <= k <= keep.len(),
        0 <= chunk,
    ensures
        outside_chunk(keep, 1, chunk, k) == if chunk < k {
            keep.take(k).remove(chunk)
        } else {
            keep.take(k)
        },
    decreases k,
{
    if k > 0 {
        lemma_outside_single(keep, chunk, k - 1);
        assert((k - 1) / 1 == k - 1);
        assert(keep.take(k) =~= keep.take(k - 1).push(keep[k - 1]));
        if chunk < k - 1 {
            assert(keep.take(k).remove(chunk) =~= keep.take(k - 1).remove(chunk).push(
                keep[k - 1],
            ));
        } else if chunk == k - 1 {
            assert(keep.take(k).remove(chunk) =~= keep.take(k - 1));
        }
    } else {
        assert(keep.take(0) =~= Seq::<u32>::empty());
    }
}

/// The kept indices of the complement are the list itself.
proof fn lemma_kept_complement(keep: Seq<u32>, len: int, k: int)
    requires
        ascending(keep, len),
        0 <= k <= len <= u32::MAX + 1,
    ensures
        fixup::kept(complement(keep, len), k).len() <= keep.len(),
        forall|j: int|
            0 <= j < fixup::kept(complement(keep, len), k).len() ==> fixup::kept(
                complement(keep, len),
                k,
            )[j] == #[trigger] keep[j],
        forall|j: int|
            0 <= j < keep.len() ==> (#[trigger] keep[j] < k) == (j < fixup::kept(
                complement(keep, len),
                k,
            ).len()),
    decreases k,
{
    if k > 0 {
        lemma_kept_complement(keep, len, k - 1);
        let r = complement(keep, len);
        let below = fixup::kept(r, k - 1);
        if r.contains(k - 1) {
            assert forall|j: int| 0 <= j < keep.len() implies #[trigger] keep[j] != k - 1 by {
                if keep[j] == k - 1 {
                    assert(keep.contains((k - 1) as u32));
                }
            }
        } else {
            let j = choose|j: int| 0 <= j < keep.len() && keep[j] == (k - 1) as u32;
            assert(keep[j] == k - 1);
            assert(j >= below.len());
            if j > below.len() {
                assert(keep[below.len() as int] < keep[j]);
                assert(keep[below.len() as int] < k - 1);
            }
            assert(j == below.len());
        }
    } else {
        assert(fixup::kept(complement(keep, len), 0).len() == 0);
    }
}

/// Removing the `j`-th kept instruction of `bytes` is the deletion of
/// instruction `j` from the reduced program.
proof fn lemma_single_step(bytes: Seq<u8>, best: Seq<u8>, keep: Seq<u32>, len: int, j: int)
    requires
        len == bytes.len() / 8,
        len <= u32::MAX,
        ascending(keep, len),
        0 <= j < keep.len(),
        fixup::deletion(bytes, complement(keep, len)) == Some(best),
    ensures
        best.len() == 8 * keep.len(),
        fixup::deletion(best, set![j]) == fixup::deletion(bytes, complement(keep.remove(j), len)),
{
    let r = complement(keep, len);
    let insns = fixup::singles(bytes);
    lemma_kept_complement(keep, len, len);
    let list = fixup::kept(r, len);
    assert(list.len() == keep.len()) by {
        if list.len() < keep.len() {
            assert(keep[list.len() as int] < len);
        }
    }
    fixup::lemma_singles_are_single(bytes);
    fixup::lemma_deleted_single(insns, r);
    assert(best.len() == 8 * keep.len());
    fixup::stream_deletion_composes(bytes, r, set![j]);
    let both = fixup::lifted(insns, r, set![j]);
    assert(both =~= complement(keep.remove(j), len)) by {
        assert forall|i: int| both.contains(i) == complement(keep.remove(j), len).contains(i) by {
            if 0 <= i < len {
                let rest = keep.remove(j);
                if !r.contains(i) {
                    fixup::lemma_kept_at(r, i, len);
                    let at = fixup::new_index(r, i);
                    assert(list[at] == i);
                    assert(keep[at] == i);
                    if at != j {
                        if at < j {
                            assert(rest[at] == i as u32);
                        } else {
                            assert(rest[at - 1] == i as u32);
                        }
                    } else if rest.contains(i as u32) {
                        let m = choose|m: int| 0 <= m < rest.len() && rest[m] == i as u32;
                        if m < j {
                            assert(keep[m] == i && keep[m] < keep[j]);
                        } else {
                            assert(keep[m + 1] == i && keep[j] < keep[m + 1]);
                        }
                    }
                } else if rest.contains(i as u32) {
                    let m = choose|m: int| 0 <= m < rest.len() && rest[m] == i as u32;
                    if m < j {
                        assert(keep[m] == i as u32);
                    } else {
                        assert(keep[m + 1] == i as u32);
                    }
                }
            }
        }
    }
}

/// A cache that has only grown remembers what it remembered.
pub proof fn lemma_remembers_grows(a: OracleCache, b: OracleCache, bytes: Seq<u8>, v: bool)
    requires
        a.results@.is_prefix_of(b.results@),
        a.remembers(bytes, v),
    ensures
        b.remembers(bytes, v),
{
    let i = choose|i: int|
        0 <= i < a.results@.len() && (#[trigger] a.results@[i]).0@ == bytes && a.results@[i].1
            == v;
    assert(b.results@[i] == a.results@[i]);
}

/// `b` is `a` after some evaluations.
pub open spec fn grown<F: FnMut(&[u8]) -> bool>(a: OracleCache, b: OracleCache, oracle: F) -> bool {
    &&& b.wf()
    &&& b.max_checks == a.max_checks
    &&& a.results@.is_prefix_of(b.results@)
    &&& b.answers_since(a.results@.len() as int, oracle)
    &&& a.answers(oracle) ==> b.answers(oracle)
}

/// One check grows the cache.
pub proof fn lemma_checked<F: FnMut(&[u8]) -> bool>(
    a: OracleCache,
    b: OracleCache,
    oracle: F,
    bytes: Seq<u8>,
    r: Option<bool>,
)
    requires
        b.wf(),
        a.answers(oracle) ==> b.answers(oracle),
        checked(a, b, bytes, r),
        !a.knows(bytes) && r is Some ==> says(oracle, bytes, r->0),
    ensures
        grown(a, b, oracle),
{
    lemma_check_extends(a, b, bytes, r);
}

/// One check adds the checked bytes to the cache or nothing.
pub proof fn lemma_check_extends(a: OracleCache, b: OracleCache, bytes: Seq<u8>, r: Option<bool>)
    requires
        checked(a, b, bytes, r),
    ensures
        b.max_checks == a.max_checks,
        a.results@.is_prefix_of(b.results@),
        forall|k: int|
            a.results@.len() <= k < b.results@.len() ==> (#[trigger] b.results@[k]).0@ == bytes
                && Some(b.results@[k].1) == r,
        r is Some ==> b.remembers(bytes, r->0),
{
    if b.results@.len() > a.results@.len() {
        assert forall|i: int| 0 <= i < a.results@.len() implies a.results@[i] == b.results@[i] by {
            assert(b.results@.drop_last()[i] == b.results@[i]);
        }
        assert(b.results@[b.results@.len() - 1] == b.results@.last());
    }
    assert(a.results@ =~= b.results@.take(a.results@.len() as int));
}

/// A cache is its own beginning.
pub proof fn lemma_grown_refl<F: FnMut(&[u8]) -> bool>(a: OracleCache, oracle: F)
    requires
        a.wf(),
    ensures
        grown(a, a, oracle),
{
    assert(a.results@ =~= a.results@.take(a.results@.len() as int));
}

/// Growing twice is growing.
pub proof fn lemma_grown_trans<F: FnMut(&[u8]) -> bool>(
    a: OracleCache,
    b: OracleCache,
    c: OracleCache,
    oracle: F,
)
    requires
        grown(a, b, oracle),
        grown(b, c, oracle),
    ensures
        grown(a, c, oracle),
{
    assert(a.results@.is_prefix_of(c.results@)) by {
        assert(a.results@ =~= c.results@.take(a.results@.len() as int)) by {
            assert forall|i: int| 0 <= i < a.results@.len() implies a.results@[i]
                == c.results@[i] by {
                assert(b.results@[i] == a.results@[i]);
            }
        }
    }
    assert forall|i: int| a.results@.len() <= i < c.results@.len() implies says(
        oracle,
        (#[trigger] c.results@[i]).0@,
        c.results@[i].1,
    ) by {
        if i < b.results@.len() {
            assert(c.results@[i] == b.results@[i]);
        }
    }
}

/// Leaving the `j`-th of `keep` out was refused or rejected.
spec fn single_tried(cache: OracleCache, bytes: Seq<u8>, keep: Seq<u32>, len: int, j: int) -> bool {
    fixup::deletion(bytes, complement(keep.remove(j), len)) matches Some(smaller)
        ==> cache.remembers(smaller, false)
}

/// How the removal of a chunk went.
enum Attempt {
    /// The instructions that stay, and the program of them.
    Accepted(Vec<u32>, Vec<u8>),
    Rejected,
    Spent,
}

impl Attempt {
    /// What the oracle said.
    spec fn answer(self) -> Option<bool> {
        match self {
            Attempt::Accepted(..) => Some(true),
            Attempt::Rejected => Some(false),
            Attempt::Spent => None,
        }
    }
}

/// Tries to leave one chunk of `keep` out.
fn try_chunk<F: FnMut(&[u8]) -> bool>(
    bytes: &[u8],
    len: usize,
    keep: &Vec<u32>,
    granularity: usize,
    chunk: usize,
    cache: &mut OracleCache,
    oracle: &mut F,
    Ghost(round): Ghost<Round>,
) -> (r: Attempt)
    requires
        len == bytes@.len() / 8,
        len <= u32::MAX,
        granularity > 0,
        ascending(keep@, len as int),
        granularity == round.granularity(),
        round.keep == keep@,
        old(cache).wf(),
        askable(*old(oracle)),
    ensures
        *final(oracle) == *old(oracle),
        grown(*old(cache), *final(cache), *old(oracle)),
        is_try(bytes@, round, chunk as int, *old(cache), *final(cache), r.answer()),
        match r {
            Attempt::Accepted(k, b) => {
                &&& ascending(k@, len as int)
                &&& k@.len() < keep@.len()
                &&& fixup::deletion(bytes@, complement(k@, len as int)) == Some(b@)
                &&& b@.len() == 8 * k@.len()
                &&& b@.len() <= bytes@.len()
                &&& final(cache).remembers(b@, true)
                &&& k@ == round.without(chunk as int)
            },
            Attempt::Rejected => true,
            Attempt::Spent => *final(cache) == *old(cache) && old(cache).spent(),
        },
{
    let candidate: Vec<u32> = without_chunk(keep, granularity, chunk);
    proof {
        let k = keep@.len() as int;
        lemma_outside_chunk(keep@, granularity as int, chunk as int, k, len as int);
    }
    if candidate.len() == keep.len() {
        // an empty chunk
        return Attempt::Rejected;
    }
    let removed: Vec<u32> = removed_by(&candidate, len);
    match delete_insns(bytes, &removed) {
        // the deletion breaks a jump
        None => Attempt::Rejected,
        Some(candidate_bytes) => {
            let answer: Option<bool> = cache.check(&candidate_bytes, oracle);
            proof {
                lemma_checked(*old(cache), *cache, *old(oracle), candidate_bytes@, answer);
            }
            match answer {
                Some(true) => {
                    proof {
                        lemma_candidate_len(bytes@, candidate@, len as int);
                    }
                    Attempt::Accepted(candidate, candidate_bytes)
                },
                Some(false) => Attempt::Rejected,
                None => Attempt::Spent,
            }
        },
    }
}

/// What stays of the program at each point of the search.
spec fn stands(bytes: Seq<u8>, len: int, keep: Seq<u32>, best: Seq<u8>, whole: bool) -> bool {
    &&& ascending(keep, len)
    &&& keep.len() <= len
    &&& best.len() <= bytes.len()
    &&& if whole {
        best == bytes && keep == Seq::new(len as nat, |k: int| k as u32)
    } else {
        &&& fixup::deletion(bytes, complement(keep, len)) == Some(best)
        &&& best.len() == 8 * keep.len()
        &&& keep.len() < len
    }
}

/// When every single instruction of `keep` was tried, the program is
/// one-minimal.
proof fn lemma_all_tried(
    cache: OracleCache,
    bytes: Seq<u8>,
    len: int,
    keep: Seq<u32>,
    best: Seq<u8>,
    whole: bool,
)
    requires
        len == bytes.len() / 8,
        len <= u32::MAX,
        stands(bytes, len, keep, best, whole),
        forall|j: int| 0 <= j < keep.len() ==> #[trigger] single_tried(cache, bytes, keep, len, j),
    ensures
        one_minimal(cache, best),
{
    assert forall|j: int| 0 <= j < best.len() / 8 implies #[trigger] essential(cache, best, j) by {
        assert(single_tried(cache, bytes, keep, len, j));
        if whole {
            lemma_whole_step(len, j);
        } else {
            lemma_single_step(bytes, best, keep, len, j);
        }
    }
}

/// Delta debugging over instruction indices: chunks of `ceil(len / n)` are
/// left out for n = 2, 4, 8, .. down to single instructions, and every removal
/// that the oracle accepts is kept. Returns the smallest program found, from
/// which no single instruction can be removed when the budget allows; when it
/// does not, the best program so far.
///
/// `None` comes exactly when the oracle rejects the input.
pub fn ddmin<F: FnMut(&[u8]) -> bool>(
    bytes: &[u8],
    cache: &mut OracleCache,
    oracle: &mut F,
) -> (r: Option<Vec<u8>>)
    requires
        bytes@.len() / 8 <= u32::MAX,
        old(cache).wf(),
        askable(*old(oracle)),
    ensures
        *final(oracle) == *old(oracle),
        grown(*old(cache), *final(cache), *old(oracle)),
        minimized(bytes@, *old(cache), *final(cache), passes::stream(r)),
        bytes@.len() >= 16 ==> (r is None) == final(cache).remembers(bytes@, false),
        all_reduced(bytes@, old(cache).results@.len() as int, *final(cache)),
        r matches Some(out) ==> {
            &&& reduced_from(bytes@, out@)
            &&& out@ != bytes@ ==> out@.len() < bytes@.len()
            &&& bytes@.len() >= 16 && !final(cache).remembers(out@, true) ==> out@ == bytes@
                && old(cache).spent() && !old(cache).knows(bytes@)
            &&& out@.len() >= 16 && !final(cache).spent() ==> one_minimal(*final(cache), out@)
            &&& bytes@.len() >= 16 && out@ != bytes@ ==> final(cache).remembers(bytes@, true)
            &&& best_since(old(cache).results@.len() as int, *final(cache), out@)
        },
{
    let len: usize = bytes.len() / 8;
    if len < 2 {
        proof {
            lemma_grown_refl(*cache, *old(oracle));
        }
        return Some(to_vec(bytes));
    }
    let answer: Option<bool> = cache.check(bytes, oracle);
    proof {
        lemma_checked(*old(cache), *cache, *old(oracle), bytes@, answer);
        lemma_check_extends(*old(cache), *cache, bytes@, answer);
    }
    match answer {
        Some(true) => {},
        Some(false) => {
            return None;
        },
        None => {
            return Some(to_vec(bytes));
        },
    }
    let ghost first = *cache;
    let mut keep: Vec<u32> = Vec::new();
    let mut i: usize = 0;
    while i < len
        invariant
            i <= len <= u32::MAX,
            keep@.len() == i,
            forall|k: int| 0 <= k < i ==> #[trigger] keep@[k] == k,
        decreases len - i,
    {
        keep.push(i as u32);
        i = i + 1;
    }
    let mut best: Vec<u8> = to_vec(bytes);
    let mut n: usize = 2;
    let ghost mut whole = true;
    proof {
        assert(keep@ =~= Seq::new(len as nat, |k: int| k as u32));
        lemma_grown_refl(first, *old(oracle));
    }
    let ghost mut stages: Seq<Stage> = seq![
        Stage { round: Round { keep: keep@, n: 2 }, cache: first },
    ];
    while keep.len() >= 2 && !cache.budget_exhausted()
        invariant_except_break
            stages.last() == (Stage { round: Round { keep: keep@, n: n as int }, cache: *cache }),
        invariant
            len == bytes@.len() / 8,
            bytes@.len() <= usize::MAX,
            2 <= len <= u32::MAX,
            askable(*oracle),
            *oracle == *old(oracle),
            checked(*old(cache), first, bytes@, Some(true)),
            grown(*old(cache), first, *old(oracle)),
            grown(first, *cache, *old(oracle)),
            first.remembers(bytes@, true),
            n >= 2,
            stands(bytes@, len as int, keep@, best@, whole),
            cache.remembers(best@, true),
            is_search(bytes@, first, stages),
            stages.last().round.keep == keep@,
        ensures
            is_end(bytes@, stages.last(), *cache),
        decreases keep@.len(), keep@.len() - n,
    {
        let granularity: usize = (keep.len() - 1) / n + 1;
        let ghost keep0 = keep@;
        let ghost stage = stages.last();
        let ghost round = stage.round;
        assert(granularity == round.granularity());
        let mut reduced: bool = false;
        let mut chunk: usize = 0;
        while chunk < n && !reduced
            invariant
                len == bytes@.len() / 8,
                2 <= len <= u32::MAX,
                granularity > 0,
                chunk <= n,
                askable(*oracle),
                *oracle == *old(oracle),
                checked(*old(cache), first, bytes@, Some(true)),
                grown(*old(cache), first, *old(oracle)),
                grown(first, *cache, *old(oracle)),
                first.remembers(bytes@, true),
                stands(bytes@, len as int, keep@, best@, whole),
                cache.remembers(best@, true),
                reduced ==> keep@.len() < keep0.len(),
                !reduced ==> keep@ == keep0,
                round == (Round { keep: keep0, n: n as int }),
                granularity == round.granularity(),
                stage.round == round,
                stages.last() == stage,
                keep0.len() >= 2,
                !stage.cache.spent(),
                is_search(bytes@, first, stages),
                !reduced ==> nothing_came(bytes@, round, chunk as int, stage.cache, *cache),
                reduced ==> ends_at(bytes@, round, chunk - 1, stage.cache, *cache, Some(true))
                    && keep@ == round.without(chunk - 1),
            decreases n - chunk,
        {
            let ghost before = *cache;
            let ghost here = chunk as int;
            match try_chunk(bytes, len, &keep, granularity, chunk, cache, oracle, Ghost(round)) {
                Attempt::Accepted(fewer, smaller) => {
                    keep = fewer;
                    best = smaller;
                    reduced = true;
                    proof {
                        whole = false;
                        lemma_grown_trans(first, before, *cache, *old(oracle));
                        assert(nothing_came(bytes@, round, here, stage.cache, before));
                        assert(ends_at(bytes@, round, here, stage.cache, *cache, Some(true)));
                    }
                },
                Attempt::Rejected => {
                    proof {
                        lemma_grown_trans(first, before, *cache, *old(oracle));
                        lemma_remembers_grows(before, *cache, best@, true);
                        assert(nothing_came(bytes@, round, here, stage.cache, before));
                        assert(is_try(bytes@, round, here + 1 - 1, before, *cache, Some(false)));
                        assert(nothing_came(bytes@, round, here + 1, stage.cache, *cache));
                    }
                },
                Attempt::Spent => {
                    proof {
                        assert(nothing_came(bytes@, round, here, stage.cache, before));
                        assert(ends_at(bytes@, round, here, stage.cache, *cache, None));
                        assert(is_end(bytes@, stages.last(), *cache));
                        lemma_search_result(
                            *old(cache),
                            first,
                            *cache,
                            *old(oracle),
                            bytes@,
                            keep@,
                            best@,
                            whole,
                            stages,
                        );
                    }
                    return Some(best);
                },
            }
            chunk = chunk + 1;
        }
        if reduced {
            n = if n > 2 { n - 1 } else { 2 };
            proof {
                let next = Stage { round: Round { keep: keep@, n: n as int }, cache: *cache };
                assert(ends_at(bytes@, round, chunk - 1, stage.cache, next.cache, Some(true)));
                assert(is_next_stage(bytes@, stage, next));
                lemma_search_pushed(bytes@, first, stages, next);
                stages = stages.push(next);
            }
        } else if n >= keep.len() {
            proof {
                assert(is_end(bytes@, stages.last(), *cache));
            }
            break;
        } else {
            let doubled: usize = n * 2;
            n = if doubled < keep.len() { doubled } else { keep.len() };
            proof {
                let next = Stage { round: Round { keep: keep@, n: n as int }, cache: *cache };
                assert(is_next_stage(bytes@, stage, next));
                lemma_search_pushed(bytes@, first, stages, next);
                stages = stages.push(next);
            }
        }
    }
    proof {
        lemma_search_result(
            *old(cache),
            first,
            *cache,
            *old(oracle),
            bytes@,
            keep@,
            best@,
            whole,
            stages,
        );
    }
    Some(best)
}

/// What follows of the result when the search is over.
proof fn lemma_search_result<F: FnMut(&[u8]) -> bool>(
    a: OracleCache,
    first: OracleCache,
    b: OracleCache,
    oracle: F,
    bytes: Seq<u8>,
    keep: Seq<u32>,
    best: Seq<u8>,
    whole: bool,
    stages: Seq<Stage>,
)
    requires
        16 <= bytes.len(),
        bytes.len() / 8 <= u32::MAX,
        checked(a, first, bytes, Some(true)),
        grown(a, first, oracle),
        grown(first, b, oracle),
        first.remembers(bytes, true),
        stands(bytes, bytes.len() as int / 8, keep, best, whole),
        is_search(bytes, first, stages),
        is_end(bytes, stages.last(), b),
        stages.last().round.keep == keep,
    ensures
        grown(a, b, oracle),
        minimized(bytes, a, b, Some(best)),
        !b.remembers(bytes, false),
        b.remembers(bytes, true),
        all_reduced(bytes, a.results@.len() as int, b),
        reduced_from(bytes, best),
        best != bytes ==> best.len() < bytes.len(),
        best_since(a.results@.len() as int, b, best),
        best.len() >= 16 && !b.spent() ==> one_minimal(b, best),
{
    lemma_grown_trans(a, first, b, oracle);
    lemma_result_facts(first, b, bytes);
    lemma_remembers_grows(first, b, bytes, true);
    assert(best == stages.last().round.program(bytes));
    assert(searched(bytes, first, b, best));
    assert(minimized(bytes, a, b, Some(best)));
    lemma_minimized(bytes, a, b, Some(best));
}

// ── Laws ────────────────────────────────────────────────────────────────────

/// What a search has come to: the program of the round is one that a deletion
/// leaves, and nothing that was accepted since is shorter.
spec fn is_sound(bytes: Seq<u8>, from: int, x: Stage) -> bool {
    let len = bytes.len() as int / 8;
    &&& ascending(x.round.keep, len)
    &&& x.round.keep.len() <= len
    &&& x.round.n > 0
    &&& if x.round.keep.len() == len {
        x.round.keep == Seq::new(len as nat, |k: int| k as u32)
    } else {
        fixup::deletion(bytes, complement(x.round.keep, len)) is Some
    }
    &&& 0 <= from <= x.cache.results@.len()
    &&& all_reduced(bytes, from, x.cache)
    &&& best_since(from, x.cache, x.round.program(bytes))
}

/// The length of the program of a round.
proof fn lemma_program_len(bytes: Seq<u8>, r: Round)
    requires
        bytes.len() / 8 <= u32::MAX,
        ascending(r.keep, bytes.len() as int / 8),
        r.keep.len() < bytes.len() / 8 ==> fixup::deletion(
            bytes,
            complement(r.keep, bytes.len() as int / 8),
        ) is Some,
        r.keep.len() <= bytes.len() / 8,
    ensures
        r.keep.len() < bytes.len() / 8 ==> r.program(bytes).len() == 8 * r.keep.len(),
        r.program(bytes).len() >= 8 * r.keep.len(),
{
    if r.keep.len() < bytes.len() / 8 {
        lemma_candidate_len(bytes, r.keep, bytes.len() as int / 8);
    }
}

/// What one try adds to the cache.
pub proof fn lemma_try_extends(
    bytes: Seq<u8>,
    r: Round,
    chunk: int,
    a: OracleCache,
    b: OracleCache,
    answer: Option<bool>,
)
    requires
        is_try(bytes, r, chunk, a, b, answer),
    ensures
        b.max_checks == a.max_checks,
        a.results@.is_prefix_of(b.results@),
        forall|k: int|
            a.results@.len() <= k < b.results@.len() ==> Some((#[trigger] b.results@[k]).0@)
                == r.candidate(bytes, chunk) && Some(b.results@[k].1) == answer,
{
    match r.candidate(bytes, chunk) {
        Some(c) => {
            lemma_check_extends(a, b, c, answer);
        },
        None => {
            assert(a.results@ =~= b.results@.take(a.results@.len() as int));
        },
    }
}

/// A try of which nothing came keeps what was best.
proof fn lemma_try_keeps(
    bytes: Seq<u8>,
    from: int,
    r: Round,
    chunk: int,
    a: OracleCache,
    b: OracleCache,
    answer: Option<bool>,
    out: Seq<u8>,
)
    requires
        is_try(bytes, r, chunk, a, b, answer),
        answer != Some(true),
        0 <= from <= a.results@.len(),
        all_reduced(bytes, from, a),
        best_since(from, a, out),
    ensures
        a.results@.is_prefix_of(b.results@),
        all_reduced(bytes, from, b),
        best_since(from, b, out),
{
    lemma_try_extends(bytes, r, chunk, a, b, answer);
    lemma_extended(bytes, from, r, chunk, a, b);
    assert forall|k: int|
        from <= k < b.results@.len() && (#[trigger] b.results@[k]).1 implies out.len()
        <= b.results@[k].0@.len() by {
        if k < a.results@.len() {
            assert(b.results@[k] == a.results@[k]);
        }
    }
}

/// What a try adds is left by a deletion.
proof fn lemma_extended(
    bytes: Seq<u8>,
    from: int,
    r: Round,
    chunk: int,
    a: OracleCache,
    b: OracleCache,
)
    requires
        0 <= from <= a.results@.len(),
        all_reduced(bytes, from, a),
        a.results@.is_prefix_of(b.results@),
        forall|k: int|
            a.results@.len() <= k < b.results@.len() ==> Some((#[trigger] b.results@[k]).0@)
                == r.candidate(bytes, chunk),
    ensures
        all_reduced(bytes, from, b),
{
    assert forall|k: int| from <= k < b.results@.len() implies reduced_from(
        bytes,
        (#[trigger] b.results@[k]).0@,
    ) by {
        if k < a.results@.len() {
            assert(b.results@[k] == a.results@[k]);
        } else {
            assert(fixup::deletion(
                bytes,
                complement(r.without(chunk), bytes.len() as int / 8),
            ) == Some(b.results@[k].0@));
        }
    }
}

/// Tries of which nothing came keep what was best.
proof fn lemma_nothing_keeps(
    bytes: Seq<u8>,
    from: int,
    r: Round,
    k: int,
    a: OracleCache,
    b: OracleCache,
    out: Seq<u8>,
)
    requires
        nothing_came(bytes, r, k, a, b),
        0 <= from <= a.results@.len(),
        all_reduced(bytes, from, a),
        best_since(from, a, out),
    ensures
        from <= b.results@.len(),
        all_reduced(bytes, from, b),
        best_since(from, b, out),
    decreases k,
{
    if k > 0 {
        let m = choose|m: OracleCache|
            nothing_came(bytes, r, k - 1, a, m) && #[trigger] is_try(
                bytes,
                r,
                k - 1,
                m,
                b,
                Some(false),
            );
        lemma_nothing_keeps(bytes, from, r, k - 1, a, m, out);
        lemma_try_keeps(bytes, from, r, k - 1, m, b, Some(false), out);
    }
}

/// The candidates of which nothing came were rejected.
proof fn lemma_nothing_tried(
    bytes: Seq<u8>,
    r: Round,
    k: int,
    a: OracleCache,
    b: OracleCache,
    j: int,
)
    requires
        nothing_came(bytes, r, k, a, b),
        0 <= j < k,
    ensures
        r.candidate(bytes, j) matches Some(c) ==> b.remembers(c, false),
    decreases k,
{
    let m = choose|m: OracleCache|
        nothing_came(bytes, r, k - 1, a, m) && #[trigger] is_try(
            bytes,
            r,
            k - 1,
            m,
            b,
            Some(false),
        );
    lemma_try_extends(bytes, r, k - 1, m, b, Some(false));
    if let Some(c) = r.candidate(bytes, j) {
        if j < k - 1 {
            lemma_nothing_tried(bytes, r, k - 1, a, m, j);
            lemma_remembers_grows(m, b, c, false);
        } else {
            lemma_check_extends(m, b, c, Some(false));
        }
    }
}

/// Where nothing came of single instructions, the program is one-minimal.
proof fn lemma_round_minimal(bytes: Seq<u8>, from: int, x: Stage, b: OracleCache)
    requires
        bytes.len() / 8 <= u32::MAX,
        is_sound(bytes, from, x),
        2 <= x.round.keep.len() <= x.round.n,
        nothing_came(bytes, x.round, x.round.n, x.cache, b),
    ensures
        one_minimal(b, x.round.program(bytes)),
{
    let len = bytes.len() as int / 8;
    let (keep, n) = (x.round.keep, x.round.n);
    let out = x.round.program(bytes);
    assert((keep.len() - 1) / n == 0) by (nonlinear_arith)
        requires
            0 <= keep.len() - 1 < n,
    ;
    lemma_program_len(bytes, x.round);
    assert forall|j: int| 0 <= j < keep.len() implies #[trigger] single_tried(
        b,
        bytes,
        keep,
        len,
        j,
    ) by {
        lemma_outside_single(keep, j, keep.len() as int);
        assert(keep.take(keep.len() as int) =~= keep);
        assert(x.round.without(j) == keep.remove(j));
        lemma_nothing_tried(bytes, x.round, n, x.cache, b, j);
    }
    lemma_all_tried(b, bytes, len, keep, out, keep.len() == len);
}

/// Every round of a search is sound.
proof fn lemma_stage_sound(bytes: Seq<u8>, a: OracleCache, from: int, stages: Seq<Stage>, i: int)
    requires
        bytes.len() / 8 <= u32::MAX,
        is_search(bytes, a, stages),
        0 <= i < stages.len(),
        0 <= from <= a.results@.len(),
        all_reduced(bytes, from, a),
        best_since(from, a, bytes),
    ensures
        is_sound(bytes, from, stages[i]),
    decreases i,
{
    let len = bytes.len() as int / 8;
    if i > 0 {
        lemma_stage_sound(bytes, a, from, stages, i - 1);
        let (x, y) = (stages[i - 1], stages[i]);
        assert(is_next_stage(bytes, x, y));
        let out = x.round.program(bytes);
        if exists|chunk: int| #[trigger]
            ends_at(bytes, x.round, chunk, x.cache, y.cache, Some(true)) && y.round.keep
                == x.round.without(chunk) && y.round.n > 0 {
            let chunk = choose|chunk: int| #[trigger]
                ends_at(bytes, x.round, chunk, x.cache, y.cache, Some(true)) && y.round.keep
                    == x.round.without(chunk) && y.round.n > 0;
            let m = choose|m: OracleCache| #[trigger]
                nothing_came(bytes, x.round, chunk, x.cache, m) && is_try(
                    bytes,
                    x.round,
                    chunk,
                    m,
                    y.cache,
                    Some(true),
                );
            lemma_nothing_keeps(bytes, from, x.round, chunk, x.cache, m, out);
            lemma_try_extends(bytes, x.round, chunk, m, y.cache, Some(true));
            lemma_extended(bytes, from, x.round, chunk, m, y.cache);
            assert((x.round.keep.len() - 1) / x.round.n >= 0) by (nonlinear_arith)
                requires
                    x.round.keep.len() >= 1,
                    x.round.n > 0,
            ;
            lemma_outside_chunk(
                x.round.keep,
                x.round.granularity(),
                chunk,
                x.round.keep.len() as int,
                len,
            );
            lemma_program_len(bytes, x.round);
            lemma_program_len(bytes, y.round);
            let next = y.round.program(bytes);
            assert(x.round.candidate(bytes, chunk) == Some(next));
            assert forall|k: int|
                from <= k < y.cache.results@.len() && (#[trigger] y.cache.results@[k]).1
                implies next.len() <= y.cache.results@[k].0@.len() by {
                if k < m.results@.len() {
                    assert(y.cache.results@[k] == m.results@[k]);
                }
            }
        } else {
            lemma_nothing_keeps(bytes, from, x.round, x.round.n, x.cache, y.cache, out);
        }
    }
}

/// The best program so far: of all the programs that the search asked about and
/// the oracle accepted, none is shorter than the one that is left. So it is also
/// where the budget ends the search.
pub proof fn search_leaves_the_best(
    bytes: Seq<u8>,
    a: OracleCache,
    b: OracleCache,
    out: Seq<u8>,
)
    requires
        bytes.len() / 8 <= u32::MAX,
        minimized(bytes, a, b, Some(out)),
    ensures
        best_since(a.results@.len() as int, b, out),
{
    lemma_minimized(bytes, a, b, Some(out));
}

/// The budget is spent on the program and on what deletions leave of it: on
/// nothing else.
pub proof fn search_asks_about_deletions(
    bytes: Seq<u8>,
    a: OracleCache,
    b: OracleCache,
    r: Option<Seq<u8>>,
)
    requires
        bytes.len() / 8 <= u32::MAX,
        minimized(bytes, a, b, r),
    ensures
        all_reduced(bytes, a.results@.len() as int, b),
{
    lemma_minimized(bytes, a, b, r);
}

pub proof fn lemma_minimized(bytes: Seq<u8>, a: OracleCache, b: OracleCache, r: Option<Seq<u8>>)
    requires
        bytes.len() / 8 <= u32::MAX,
        minimized(bytes, a, b, r),
    ensures
        all_reduced(bytes, a.results@.len() as int, b),
        r matches Some(out) ==> best_since(a.results@.len() as int, b, out),
        r matches Some(out) ==> out.len() >= 16 && !b.spent() ==> one_minimal(b, out),
{
    let from = a.results@.len() as int;
    if bytes.len() >= 16 {
        if checked(a, b, bytes, None) && r == Some(bytes) {
            lemma_check_extends(a, b, bytes, None);
        } else if checked(a, b, bytes, Some(false)) && r is None {
            lemma_check_extends(a, b, bytes, Some(false));
        } else {
            let out = r->0;
            let m = choose|m: OracleCache| #[trigger]
                checked(a, m, bytes, Some(true)) && searched(bytes, m, b, out);
            lemma_check_extends(a, m, bytes, Some(true));
            let stages = choose|stages: Seq<Stage>| #[trigger]
                is_search(bytes, m, stages) && is_end(bytes, stages.last(), b) && out
                    == stages.last().round.program(bytes);
            let x = stages.last();
            lemma_stage_sound(bytes, m, from, stages, stages.len() - 1);
            if x.round.keep.len() >= 2 && !x.cache.spent() {
                if exists|chunk: int| #[trigger]
                    ends_at(bytes, x.round, chunk, x.cache, b, None) {
                    let chunk = choose|chunk: int| #[trigger]
                        ends_at(bytes, x.round, chunk, x.cache, b, None);
                    let w = choose|w: OracleCache| #[trigger]
                        nothing_came(bytes, x.round, chunk, x.cache, w) && is_try(
                            bytes,
                            x.round,
                            chunk,
                            w,
                            b,
                            None,
                        );
                    lemma_nothing_keeps(bytes, from, x.round, chunk, x.cache, w, out);
                    lemma_try_keeps(bytes, from, x.round, chunk, w, b, None, out);
                } else {
                    lemma_nothing_keeps(bytes, from, x.round, x.round.n, x.cache, b, out);
                    lemma_round_minimal(bytes, from, x, b);
                }
            } else {
                lemma_program_len(bytes, x.round);
            }
        }
    }
}

/// With an oracle that gives one answer and an unlimited budget, no single
/// instruction can be removed any more from what the search leaves: its deletion
/// is refused, or the oracle rejects what it leaves.
pub proof fn search_leaves_nothing_to_remove<F: FnMut(&[u8]) -> bool>(
    oracle: F,
    bytes: Seq<u8>,
    a: OracleCache,
    b: OracleCache,
    out: Seq<u8>,
    i: int,
)
    requires
        bytes.len() / 8 <= u32::MAX,
        forall|c: Seq<u8>, x: bool, y: bool| #[trigger]
            says(oracle, c, x) && #[trigger] says(oracle, c, y) ==> x == y,
        b.max_checks == 0,
        b.answers(oracle),
        minimized(bytes, a, b, Some(out)),
        out.len() >= 16,
        0 <= i < out.len() / 8,
    ensures
        fixup::deletion(out, set![i]) matches Some(c) ==> says(oracle, c, false) && !says(
            oracle,
            c,
            true,
        ),
{
    lemma_minimized(bytes, a, b, Some(out));
    assert(essential(b, out, i));
    if let Some(c) = fixup::deletion(out, set![i]) {
        let k = choose|k: int|
            0 <= k < b.results@.len() && (#[trigger] b.results@[k]).0@ == c && b.results@[k].1
                == false;
        assert(says(oracle, b.results@[k].0@, b.results@[k].1));
    }
}

/// Leaving one instruction of the whole program out.
proof fn lemma_whole_step(len: int, j: int)
    requires
        0 <= j < len <= u32::MAX,
    ensures
        complement(Seq::new(len as nat, |k: int| k as u32).remove(j), len) == set![j],
{
    let all = Seq::new(len as nat, |k: int| k as u32);
    let rest = all.remove(j);
    assert forall|i: int| complement(rest, len).contains(i) == set![j].contains(i) by {
        if 0 <= i < len {
            if i < j {
                assert(rest[i] == i as u32);
            } else if i > j {
                assert(rest[i - 1] == i as u32);
            } else if rest.contains(j as u32) {
                let m = choose|m: int| 0 <= m < rest.len() && rest[m] == j as u32;
                assert(m < j ==> rest[m] == m as u32);
                assert(m >= j ==> rest[m] == (m + 1) as u32);
            }
        }
    }
    assert(complement(rest, len) =~= set![j]);
}

/// The length of what stays.
proof fn lemma_candidate_len(bytes: Seq<u8>, keep: Seq<u32>, len: int)
    requires
        len == bytes.len() / 8,
        len <= u32::MAX,
        ascending(keep, len),
        fixup::deletion(bytes, complement(keep, len)) is Some,
    ensures
        fixup::deletion(bytes, complement(keep, len))->0.len() == 8 * keep.len(),
        8 * keep.len() <= bytes.len(),
{
    let r = complement(keep, len);
    lemma_kept_complement(keep, len, len);
    let list = fixup::kept(r, len);
    if list.len() < keep.len() {
        assert(keep[list.len() as int] < len);
    }
    fixup::lemma_kept(r, len);
    fixup::lemma_singles_are_single(bytes);
    fixup::lemma_deleted_single(fixup::singles(bytes), r);
}

/// A cache without repetitions holds one verdict for each byte string.
proof fn lemma_one_verdict(cache: OracleCache, bytes: Seq<u8>)
    requires
        cache.wf(),
        cache.remembers(bytes, true),
    ensures
        !cache.remembers(bytes, false),
{
    if cache.remembers(bytes, false) {
        let i = choose|i: int|
            0 <= i < cache.results@.len() && (#[trigger] cache.results@[i]).0@ == bytes
                && cache.results@[i].1 == true;
        let j = choose|j: int|
            0 <= j < cache.results@.len() && (#[trigger] cache.results@[j]).0@ == bytes
                && cache.results@[j].1 == false;
        if i < j {
            assert(cache.results@[i].0@ != cache.results@[j].0@);
        } else if j < i {
            assert(cache.results@[j].0@ != cache.results@[i].0@);
        }
    }
}

/// What is remembered at the start is not remembered otherwise at the end.
proof fn lemma_result_facts(first: OracleCache, last: OracleCache, bytes: Seq<u8>)
    requires
        last.wf(),
        first.results@.is_prefix_of(last.results@),
        first.remembers(bytes, true),
    ensures
        !last.remembers(bytes, false),
{
    lemma_remembers_grows(first, last, bytes, true);
    lemma_one_verdict(last, bytes);
}

} // verus!
