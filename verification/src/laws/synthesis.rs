//! Precision witnesses: the search reports every gap that it samples.

use vstd::prelude::*;

use crate::interval;
use crate::interval::Range;
use crate::smt::synth;
use crate::smt::synth::PrecisionWitness;
use crate::smt::verify;
use crate::smt::violation;
use crate::text;

verus! {

/// How far an interval reaches; an interval with bounds in the wrong order counts as
/// the widest.
pub open spec fn reach(r: Range) -> int {
    if r.0 <= r.1 {
        r.1 - r.0
    } else {
        0xffff_ffff_ffff_ffff
    }
}

/// The number behind `x`.
pub open spec fn following(x: u64) -> u64 {
    let a = x ^ (x << 13u64);
    let b = a ^ (a >> 7u64);
    b ^ (b << 17u64)
}

/// The number behind `k` others.
pub open spec fn nth(x: u64, k: nat) -> u64
    decreases k,
{
    if k == 0 {
        x
    } else {
        following(nth(x, (k - 1) as nat))
    }
}

/// The low `width` bits of a number.
pub open spec fn low(x: u64, width: u32) -> int {
    if width >= 64 {
        x as int
    } else {
        x as int % (1u64 << width) as int
    }
}

/// The interval between two numbers of `width` bits.
pub open spec fn is_between(r: Range, x: u64, y: u64, width: u32) -> bool {
    &&& r.0 <= r.1
    &&& (r.0 == low(x, width) && r.1 == low(y, width)) || (r.0 == low(y, width) && r.1 == low(
        x,
        width,
    ))
}

/// One sampled pair of operands: the number in front of it, the operands, and what
/// the two operations return on them.
pub struct Sample {
    pub from: u64,
    pub a: Range,
    pub b: Range,
    pub old: Range,
    pub new: Range,
}

impl Sample {
    /// The candidate is strictly more precise here.
    pub open spec fn is_gap(self) -> bool {
        reach(self.new) < reach(self.old)
    }

    /// The operands lie between four numbers one behind the other; a gap takes two
    /// more, for its members.
    pub open spec fn next(self) -> u64 {
        nth(self.from, if self.is_gap() { 6 } else { 4 })
    }
}

/// The operands are the sampled ones, and the results those of the operations.
pub open spec fn is_sample<F: Fn(Range, Range) -> Range, G: Fn(Range, Range) -> Range>(
    old_op: F,
    new_op: G,
    width: u32,
    s: Sample,
) -> bool {
    &&& is_between(s.a, nth(s.from, 1), nth(s.from, 2), width)
    &&& is_between(s.b, nth(s.from, 3), nth(s.from, 4), width)
    &&& call_ensures(old_op, (s.a, s.b), s.old)
    &&& call_ensures(new_op, (s.a, s.b), s.new)
}

/// How many of the first `k` samples are gaps.
pub open spec fn gaps_among(samples: Seq<Sample>, k: int) -> int
    decreases k,
{
    if k <= 0 {
        0
    } else {
        gaps_among(samples, k - 1) + if samples[k - 1].is_gap() {
            1int
        } else {
            0
        }
    }
}

/// The witness tells this gap: the operands, members of them, the results and how
/// far these reach.
pub open spec fn reports(w: PrecisionWitness, operator: Seq<char>, width: u32, s: Sample) -> bool {
    &&& w.operator@ == operator
    &&& w.input_class@ == "width-"@ + text::dec(width as nat)
    &&& w.inputs@ == violation::two_inputs(s.a, s.b)
    &&& s.a.0 <= w.concrete.0 <= s.a.1
    &&& s.b.0 <= w.concrete.1 <= s.b.1
    &&& w.concrete.0 == s.a.0 + nth(s.from, 5) as int % (s.a.1 - s.a.0 + 1)
    &&& w.concrete.1 == s.b.0 + nth(s.from, 6) as int % (s.b.1 - s.b.0 + 1)
    &&& w.old_result == s.old
    &&& w.new_result == s.new
    &&& w.old_width == reach(s.old)
    &&& w.new_width == reach(s.new)
}

/// The samples of a search from the number `from` on, and what it reports of them:
/// every gap, in the order in which they come, up to `limit`.
pub open spec fn is_search<F: Fn(Range, Range) -> Range, G: Fn(Range, Range) -> Range>(
    old_op: F,
    new_op: G,
    operator: Seq<char>,
    width: u32,
    limit: int,
    rounds: int,
    from: u64,
    samples: Seq<Sample>,
    out: Seq<PrecisionWitness>,
) -> bool {
    &&& forall|k: int|
        0 <= k < samples.len() ==> is_sample(old_op, new_op, width, #[trigger] samples[k])
    &&& forall|k: int|
        0 <= k < samples.len() ==> (#[trigger] samples[k]).from == if k == 0 {
            from
        } else {
            samples[k - 1].next()
        }
    &&& samples.len() <= rounds
    &&& out.len() == gaps_among(samples, samples.len() as int)
    &&& forall|k: int|
        0 <= k < samples.len() && (#[trigger] samples[k]).is_gap() ==> 0 <= gaps_among(samples, k)
            < out.len() && reports(out[gaps_among(samples, k)], operator, width, samples[k])
    &&& samples.len() == rounds || out.len() >= limit
    &&& out.len() <= limit || out.len() <= 1
}

proof fn lemma_numbers(x: u64)
    ensures
        verify::shifted_once(x) == following(x),
        nth(x, 0) == x,
        nth(x, 1) == following(x),
        nth(x, 2) == following(nth(x, 1)),
        nth(x, 3) == following(nth(x, 2)),
        nth(x, 4) == following(nth(x, 3)),
        nth(x, 5) == following(nth(x, 4)),
        nth(x, 6) == following(nth(x, 5)),
{
    reveal_with_fuel(nth, 8);
}

proof fn lemma_drawn(s: u64, width: u32)
    requires
        width <= 64,
    ensures
        is_between(synth::drawn(s, width), following(s), following(following(s)), width),
{
    let (x, y) = (verify::shifted_once(s), verify::shifted_once(verify::shifted_once(s)));
    verify::lemma_top_count(width);
}

/// A sample in front of others.
proof fn lemma_count_shift(first: Sample, rest: Seq<Sample>, k: int)
    requires
        0 <= k <= rest.len(),
    ensures
        gaps_among(seq![first] + rest, k + 1) == gaps_among(rest, k) + if first.is_gap() {
            1int
        } else {
            0
        },
        gaps_among(rest, k) >= 0,
    decreases k,
{
    let all = seq![first] + rest;
    if k > 0 {
        lemma_count_shift(first, rest, k - 1);
        assert(all[k] == rest[k - 1]);
    } else {
        assert(gaps_among(all, 1) == gaps_among(all, 0) + if all[0].is_gap() {
            1int
        } else {
            0
        });
    }
}

/// The search reports every gap that it samples, and it samples until the rounds or
/// the limit are reached.
#[verifier::rlimit(40)]
pub proof fn every_gap_is_reported<F: Fn(Range, Range) -> Range, G: Fn(Range, Range) -> Range>(
    old_op: F,
    new_op: G,
    operator: Seq<char>,
    width: u32,
    limit: int,
    rounds: int,
    from: u64,
    out: Seq<PrecisionWitness>,
) -> (samples: Seq<Sample>)
    requires
        width <= 64,
        0 <= limit,
        0 <= rounds,
        rounds <= limit || rounds <= 1,
        synth::gaps(old_op, new_op, operator, width, limit, rounds, from, out),
    ensures
        is_search(old_op, new_op, operator, width, limit, rounds, from, samples, out),
    decreases rounds,
{
    if rounds == 0 {
        let none = Seq::<Sample>::empty();
        none
    } else {
        let a = synth::drawn(from, width);
        let s2 = synth::after_two(from);
        let b = synth::drawn(s2, width);
        let s4 = synth::after_two(s2);
        lemma_numbers(from);
        lemma_drawn(from, width);
        lemma_drawn(s2, width);
        let (o, n) = choose|o: Range, n: Range| #[trigger]
            synth::results(old_op, new_op, a, b, o, n) && if synth::breadth(n) < synth::breadth(o) {
                &&& out.len() > 0
                &&& synth::is_witness(out[0], operator, width, a, b, o, n, s4)
                &&& if limit <= 1 {
                    out.len() == 1
                } else {
                    synth::gaps(
                        old_op,
                        new_op,
                        operator,
                        width,
                        limit - 1,
                        rounds - 1,
                        synth::after_two(s4),
                        out.drop_first(),
                    )
                }
            } else {
                synth::gaps(old_op, new_op, operator, width, limit, rounds - 1, s4, out)
            };
        let first = Sample { from, a, b, old: o, new: n };
        assert(s2 == nth(from, 2) && s4 == nth(from, 4));
        lemma_numbers(s4);
        assert(nth(from, 5) == following(s4) && nth(from, 6) == following(following(s4)));
        lemma_numbers(following(s4));
        assert(first.is_gap() == (synth::breadth(n) < synth::breadth(o)));
        assert(is_sample(old_op, new_op, width, first));
        if first.is_gap() {
            assert(reports(out[0], operator, width, first));
            if limit <= 1 {
                let samples = seq![first];
                assert(gaps_among(samples, 1) == 1) by {
                    reveal_with_fuel(gaps_among, 2);
                }
                samples
            } else {
                let tail = out.drop_first();
                let rest = every_gap_is_reported(
                    old_op,
                    new_op,
                    operator,
                    width,
                    limit - 1,
                    rounds - 1,
                    synth::after_two(s4),
                    tail,
                );
                assert(first.next() == synth::after_two(s4));
                lemma_in_front(
                    old_op,
                    new_op,
                    operator,
                    width,
                    limit,
                    rounds,
                    first,
                    rest,
                    out,
                );
                seq![first] + rest
            }
        } else {
            let rest = every_gap_is_reported(
                old_op,
                new_op,
                operator,
                width,
                limit,
                rounds - 1,
                s4,
                out,
            );
            lemma_in_front(old_op, new_op, operator, width, limit, rounds, first, rest, out);
            seq![first] + rest
        }
    }
}

/// A search with one more sample in front.
proof fn lemma_in_front<F: Fn(Range, Range) -> Range, G: Fn(Range, Range) -> Range>(
    old_op: F,
    new_op: G,
    operator: Seq<char>,
    width: u32,
    limit: int,
    rounds: int,
    first: Sample,
    rest: Seq<Sample>,
    out: Seq<PrecisionWitness>,
)
    requires
        rounds > 0,
        is_sample(old_op, new_op, width, first),
        if first.is_gap() {
            &&& limit > 1
            &&& out.len() > 0
            &&& reports(out[0], operator, width, first)
            &&& is_search(
                old_op,
                new_op,
                operator,
                width,
                limit - 1,
                rounds - 1,
                first.next(),
                rest,
                out.drop_first(),
            )
        } else {
            is_search(
                old_op,
                new_op,
                operator,
                width,
                limit,
                rounds - 1,
                first.next(),
                rest,
                out,
            )
        },
    ensures
        is_search(
            old_op,
            new_op,
            operator,
            width,
            limit,
            rounds,
            first.from,
            seq![first] + rest,
            out,
        ),
{
    let all = seq![first] + rest;
    let n = rest.len() as int;
    lemma_count_shift(first, rest, n);
    assert forall|k: int| 0 <= k < all.len() implies is_sample(
        old_op,
        new_op,
        width,
        #[trigger] all[k],
    ) && all[k].from == if k == 0 {
        first.from
    } else {
        all[k - 1].next()
    } by {
        if k > 0 {
            assert(all[k] == rest[k - 1]);
            if k > 1 {
                assert(all[k - 1] == rest[k - 2]);
            }
        }
    }
    assert forall|k: int| 0 <= k < all.len() && (#[trigger] all[k]).is_gap() implies 0 <= gaps_among(
        all,
        k,
    ) < out.len() && reports(out[gaps_among(all, k)], operator, width, all[k]) by {
        if k > 0 {
            assert(all[k] == rest[k - 1]);
            lemma_count_shift(first, rest, k - 1);
        }
    }
}

/// Where the candidate is strictly more precise on every pair of operands, every
/// sample is a gap, and the list is full.
pub proof fn constant_gain_fills_the_list<
    F: Fn(Range, Range) -> Range,
    G: Fn(Range, Range) -> Range,
>(
    old_op: F,
    new_op: G,
    operator: Seq<char>,
    width: u32,
    limit: int,
    from: u64,
    out: Seq<PrecisionWitness>,
)
    requires
        width <= 64,
        limit > 0,
        synth::gaps(old_op, new_op, operator, width, limit, limit, from, out),
        forall|a: Range, b: Range, o: Range, n: Range|
            a.0 <= a.1 && b.0 <= b.1 && a.1 <= low(u64::MAX, width) && b.1 <= low(u64::MAX, width)
                && #[trigger] call_ensures(old_op, (a, b), o) && #[trigger] call_ensures(
                new_op,
                (a, b),
                n,
            ) ==> reach(n) < reach(o),
    ensures
        out.len() == limit,
{
    let samples = every_gap_is_reported(
        old_op,
        new_op,
        operator,
        width,
        limit,
        limit,
        from,
        out,
    );
    assert forall|k: int| 0 <= k < samples.len() implies (#[trigger] samples[k]).is_gap() by {
        let s = samples[k];
        assert(is_sample(old_op, new_op, width, s));
        lemma_low(nth(s.from, 1), width);
        lemma_low(nth(s.from, 2), width);
        lemma_low(nth(s.from, 3), width);
        lemma_low(nth(s.from, 4), width);
    }
    lemma_all_gaps(samples, samples.len() as int);
}

/// No number of some bits is larger than the one of all ones.
proof fn lemma_low(x: u64, width: u32)
    requires
        width <= 64,
    ensures
        low(x, width) <= low(u64::MAX, width),
{
    verify::lemma_top_count(width);
}

proof fn lemma_all_gaps(samples: Seq<Sample>, k: int)
    requires
        0 <= k <= samples.len(),
        forall|i: int| 0 <= i < samples.len() ==> (#[trigger] samples[i]).is_gap(),
    ensures
        gaps_among(samples, k) == k,
    decreases k,
{
    if k > 0 {
        lemma_all_gaps(samples, k - 1);
        assert(samples[k - 1].is_gap());
    }
}

/// Every report is a gap of its own samples.
pub proof fn reports_are_strict<F: Fn(Range, Range) -> Range, G: Fn(Range, Range) -> Range>(
    old_op: F,
    new_op: G,
    operator: Seq<char>,
    width: u32,
    limit: int,
    rounds: int,
    from: u64,
    out: Seq<PrecisionWitness>,
    i: int,
)
    requires
        0 <= rounds,
        synth::gaps(old_op, new_op, operator, width, limit, rounds, from, out),
        0 <= i < out.len(),
    ensures
        out[i].new_width < out[i].old_width,
        out[i].new_width == reach(out[i].new_result),
        out[i].old_width == reach(out[i].old_result),
{
    synth::gaps_are_gaps(old_op, new_op, operator, width, limit, rounds, from, out);
}

} // verus!
