//! The soundness checks of the interval operations.

use vstd::arithmetic::power2::pow2;
use vstd::prelude::*;

use super::range::{encode_uadd, encode_umul, encode_usub, in_range};
use super::verify;
use super::verify::{Arith, XorShift};
use super::violation;
use super::violation::{binary_violation, numbered_class, plain_class, Violation};
use super::word;
use super::word::{find_assignment, Claim, Reply, Word};
use super::SymRange;
use crate::interval;
use crate::interval::{rng_add, rng_mul, rng_sub, Range};
use crate::text;
use crate::tnum;
use crate::tnum::{mul64, sub64};

verus! {

/// An operation on intervals.
#[derive(Debug, Clone, Copy, PartialEq, Eq)]
pub enum RangeOp {
    Add,
    Sub,
    Mul,
}

impl RangeOp {
    pub open spec fn operation(self) -> Arith {
        match self {
            RangeOp::Add => Arith::Add,
            RangeOp::Sub => Arith::Sub,
            RangeOp::Mul => Arith::Mul,
        }
    }

    fn arith(self) -> (r: Arith)
        ensures
            r == self.operation(),
    {
        match self {
            RangeOp::Add => Arith::Add,
            RangeOp::Sub => Arith::Sub,
            RangeOp::Mul => Arith::Mul,
        }
    }

    /// The operation on intervals of 64 bits.
    pub open spec fn abstraction(self, a: Range, b: Range) -> Range {
        match self {
            RangeOp::Add => interval::sum(a, b),
            RangeOp::Sub => interval::difference(a, b),
            RangeOp::Mul => interval::product(a, b),
        }
    }

    /// The operation on intervals holds the results.
    pub proof fn is_sound(self, a: Range, b: Range, x: u64, y: u64)
        requires
            interval::holds(a, x),
            interval::holds(b, y),
        ensures
            interval::holds(self.abstraction(a, b), self.operation().result(x, y)),
    {
        match self {
            RangeOp::Add => interval::add_is_sound(a, b, x, y),
            RangeOp::Sub => interval::sub_is_sound(a, b, x, y),
            RangeOp::Mul => interval::mul_is_sound(a, b, x, y),
        }
    }

    pub open spec fn name(self) -> Seq<char> {
        match self {
            RangeOp::Add => "range_add"@,
            RangeOp::Sub => "range_sub"@,
            RangeOp::Mul => "range_mul"@,
        }
    }
}

fn range_name(op: RangeOp) -> (s: &'static str)
    ensures
        s@ == op.name(),
{
    match op {
        RangeOp::Add => "range_add",
        RangeOp::Sub => "range_sub",
        RangeOp::Mul => "range_mul",
    }
}

// ── Intervals of fewer bits ─────────────────────────────────────────────────

/// An interval of numbers of `width` bits.
pub open spec fn fits(r: Range, width: u32) -> bool {
    r.0 <= r.1 < pow2(width as nat)
}

/// The operation on intervals of `width` bits, modulo the number of such
/// numbers.
pub open spec fn narrow(op: RangeOp, a: Range, b: Range, width: u32) -> (int, int) {
    let n = pow2(width as nat) as int;
    let full = (0int, n - 1);
    match op {
        RangeOp::Add => {
            let lo = a.0 + b.0;
            let hi = a.1 + b.1;
            if lo / n == hi / n {
                (lo % n, hi % n)
            } else {
                full
            }
        },
        RangeOp::Sub => {
            let low = (a.0 - b.1) % n;
            let span = (a.1 - a.0) + (b.1 - b.0);
            if low + span < n {
                (low, low + span)
            } else {
                full
            }
        },
        RangeOp::Mul => if a.0 == a.1 && b.0 == b.1 {
            ((a.0 * b.0) % n, (a.0 * b.0) % n)
        } else {
            full
        },
    }
}

/// The numbers of `width` bits: their count, and what is left of a word.
proof fn lemma_narrow_words(width: u32, z: u64)
    requires
        width <= 63,
    ensures
        0 < pow2(width as nat) <= 0x8000_0000_0000_0000,
        verify::top(width) == pow2(width as nat) - 1,
        z & verify::top(width) == z % (pow2(width as nat) as u64),
        z >> width == z / (pow2(width as nat) as u64),
        1u64 << width == pow2(width as nat),
{
    let n = width as nat;
    let k = width as u64;
    word::lemma_widths();
    vstd::arithmetic::power2::lemma_pow2_pos(n);
    if n < 63 {
        vstd::arithmetic::power2::lemma_pow2_strictly_increases(n, 63);
    }
    vstd::bits::lemma_u64_shl_is_mul(1, k);
    vstd::bits::lemma_u64_low_bits_mask_is_mod(z, n);
    vstd::bits::lemma_u64_shr_is_div(z, k);
    assert(1u64 << width == 1u64 << k);
    assert(z >> width == z >> k);
    assert(verify::top(width) == vstd::bits::low_bits_mask(n) as u64);
}

/// The number of words is a multiple of the count of the numbers of `width` bits.
proof fn lemma_narrow_again(width: u32, v: int)
    requires
        width <= 63,
    ensures
        (v % 0x1_0000_0000_0000_0000) % (pow2(width as nat) as int) == v % (pow2(
            width as nat,
        ) as int),
{
    let n = width as nat;
    word::lemma_widths();
    let rest = (64 - n) as nat;
    vstd::arithmetic::power2::lemma_pow2_pos(n);
    vstd::arithmetic::power2::lemma_pow2_adds(n, rest);
    vstd::arithmetic::power2::lemma_pow2_pos(rest);
    vstd::arithmetic::div_mod::lemma_mod_mod(v, pow2(n) as int, pow2(rest) as int);
}

proof fn lemma_narrow_result(op: RangeOp, width: u32, x: u64, y: u64)
    requires
        width <= 63,
    ensures
        op.operation().result(x, y) & verify::top(width) == match op {
            RangeOp::Add => (x + y) % (pow2(width as nat) as int),
            RangeOp::Sub => (x - y) % (pow2(width as nat) as int),
            RangeOp::Mul => (x * y) % (pow2(width as nat) as int),
        },
{
    let z = op.operation().result(x, y);
    lemma_narrow_words(width, z);
    tnum::lemma_plus(x, y);
    tnum::lemma_minus(x, y);
    tnum::lemma_times(x, y);
    match op {
        RangeOp::Add => {
            lemma_narrow_again(width, x + y);
        },
        RangeOp::Sub => {
            lemma_narrow_again(width, x - y);
        },
        RangeOp::Mul => {
            lemma_narrow_again(width, x * y);
        },
    }
}

/// The operation on intervals of `width` bits.
pub fn range_op_w(op: RangeOp, a: Range, b: Range, width: u32) -> (r: Range)
    requires
        width <= 63,
        fits(a, width),
        fits(b, width),
    ensures
        r.0 == narrow(op, a, b, width).0,
        r.1 == narrow(op, a, b, width).1,
{
    proof {
        lemma_narrow_words(width, 0);
        lemma_narrow_result(op, width, a.0, b.1);
        lemma_narrow_result(op, width, a.0, b.0);
    }
    let count: u64 = 1u64 << width;
    let mask: u64 = count - 1;
    match op {
        RangeOp::Add => {
            let lo: u64 = a.0 + b.0;
            let hi: u64 = a.1 + b.1;
            proof {
                lemma_narrow_words(width, lo);
                lemma_narrow_words(width, hi);
            }
            if (lo >> width) == (hi >> width) {
                (lo & mask, hi & mask)
            } else {
                (0, mask)
            }
        },
        RangeOp::Sub => {
            let low: u64 = sub64(a.0, b.1) & mask;
            let span: u64 = (a.1 - a.0) + (b.1 - b.0);
            proof {
                let v = a.0 - b.1;
                assert(0 <= v % (pow2(width as nat) as int) < pow2(width as nat));
            }
            if span < count && low + span < count {
                (low, low + span)
            } else {
                (0, mask)
            }
        },
        RangeOp::Mul => {
            if a.0 == a.1 && b.0 == b.1 {
                let p: u64 = mul64(a.0, b.0) & mask;
                (p, p)
            } else {
                (0, mask)
            }
        },
    }
}

/// The result of an operation, on members of intervals of `width` bits and
/// modulo the number of such numbers, lies in the resulting interval.
pub proof fn narrow_is_sound(op: RangeOp, a: Range, b: Range, width: u32, x: u64, y: u64)
    requires
        width <= 63,
        fits(a, width),
        fits(b, width),
        interval::holds(a, x),
        interval::holds(b, y),
    ensures
        narrow(op, a, b, width).0 <= op.operation().result(x, y) & verify::top(width) <= narrow(
            op,
            a,
            b,
            width,
        ).1,
{
    lemma_narrow_result(op, width, x, y);
    lemma_narrow_words(width, 0);
    let n = pow2(width as nat) as int;
    match op {
        RangeOp::Add => {
            let lo = a.0 + b.0;
            let hi = a.1 + b.1;
            let v = x + y;
            vstd::arithmetic::div_mod::lemma_fundamental_div_mod(lo, n);
            vstd::arithmetic::div_mod::lemma_fundamental_div_mod(hi, n);
            vstd::arithmetic::div_mod::lemma_fundamental_div_mod(v, n);
            vstd::arithmetic::div_mod::lemma_div_is_ordered(lo, v, n);
            vstd::arithmetic::div_mod::lemma_div_is_ordered(v, hi, n);
            assert(0 <= v % n < n);
        },
        RangeOp::Sub => {
            let d = (x - a.0) + (b.1 - y);
            let low = (a.0 - b.1) % n;
            let span = (a.1 - a.0) + (b.1 - b.0);
            assert(0 <= low < n);
            assert(x - y == (a.0 - b.1) + d);
            vstd::arithmetic::div_mod::lemma_add_mod_noop(a.0 - b.1, d, n);
            vstd::arithmetic::div_mod::lemma_add_mod_noop(low, d, n);
            vstd::arithmetic::div_mod::lemma_mod_twice(a.0 - b.1, n);
            if low + span < n {
                assert((x - y) % n == (low + d) % n);
                vstd::arithmetic::div_mod::lemma_small_mod((low + d) as nat, n as nat);
            }
            assert(0 <= (x - y) % n < n);
        },
        RangeOp::Mul => {
            assert(0 <= (x * y) % n < n);
        },
    }
}

// ── The exhaustive check ────────────────────────────────────────────────────

/// All intervals of numbers of `width` bits.
fn all_ranges(width: u32) -> (out: Vec<Range>)
    requires
        width <= 63,
    ensures
        forall|i: int| 0 <= i < out@.len() ==> fits(#[trigger] out@[i], width),
        forall|r: Range| #[trigger] fits(r, width) ==> out@.contains(r),
{
    proof {
        lemma_narrow_words(width, 0);
    }
    let count: u64 = 1u64 << width;
    let mut out: Vec<Range> = Vec::new();
    let mut lo: u64 = 0;
    while lo < count
        invariant
            count == pow2(width as nat),
            lo <= count,
            forall|i: int| 0 <= i < out@.len() ==> fits(#[trigger] out@[i], width),
            forall|r: Range| #[trigger] fits(r, width) && r.0 < lo ==> out@.contains(r),
        decreases count - lo,
    {
        let mut hi: u64 = lo;
        while hi < count
            invariant
                count == pow2(width as nat),
                lo < count,
                lo <= hi <= count,
                forall|i: int| 0 <= i < out@.len() ==> fits(#[trigger] out@[i], width),
                forall|r: Range| #[trigger]
                    fits(r, width) && (r.0 < lo || (r.0 == lo && r.1 < hi)) ==> out@.contains(r),
            decreases count - hi,
        {
            let ghost before = out@;
            out.push((lo, hi));
            proof {
                assert forall|r: Range| #[trigger]
                    fits(r, width) && (r.0 < lo || (r.0 == lo && r.1 < hi + 1)) implies out@.contains(
                    r,
                ) by {
                    if r.0 == lo && r.1 == hi {
                        assert(out@[out@.len() - 1] == r);
                    } else {
                        assert(before.contains(r));
                        let k = choose|k: int| 0 <= k < before.len() && before[k] == r;
                        assert(out@[k] == r);
                    }
                }
            }
            hi = hi + 1;
        }
        lo = lo + 1;
    }
    out
}

/// The result lies outside `out`.
pub open spec fn outside(op: RangeOp, width: u32, x: u64, y: u64, out: Range) -> bool {
    !interval::holds(out, op.operation().result(x, y) & verify::top(width))
}

/// The first members, in order, whose result lies outside `out`, with the
/// result. At most a million pairs of members, and one more, are tried.
fn first_outside(op: RangeOp, a: Range, b: Range, out: Range, width: u32) -> (r: Option<
    (u64, u64, u64),
>)
    requires
        width <= 63,
        fits(a, width),
        fits(b, width),
    ensures
        match r {
            Some(w) => interval::holds(a, w.0) && interval::holds(b, w.1) && w.2
                == op.operation().result(w.0, w.1) & verify::top(width) && outside(
                op,
                width,
                w.0,
                w.1,
                out,
            ),
            None => (a.1 - a.0 + 1) * (b.1 - b.0 + 1) <= 1_000_000 ==> forall|x: u64, y: u64|
                interval::holds(a, x) && interval::holds(b, y) ==> !#[trigger] outside(
                    op,
                    width,
                    x,
                    y,
                    out,
                ),
        },
{
    proof {
        lemma_narrow_words(width, 0);
    }
    let mask: u64 = (1u64 << width) - 1;
    let mut checked: usize = 0;
    let mut x: u64 = a.0;
    let ghost across = b.1 - b.0 + 1;
    while x <= a.1
        invariant
            width <= 63,
            fits(a, width),
            fits(b, width),
            pow2(width as nat) <= 0x8000_0000_0000_0000,
            mask == verify::top(width),
            a.0 <= x <= a.1 + 1,
            across == b.1 - b.0 + 1,
            checked <= 1_000_000,
            checked == (x - a.0) * across,
            forall|u: u64, v: u64|
                a.0 <= u < x && interval::holds(b, v) ==> !#[trigger] outside(op, width, u, v, out),
        decreases a.1 + 1 - x,
    {
        let mut y: u64 = b.0;
        assert((x - a.0 + 1) * across == (x - a.0) * across + across) by (nonlinear_arith);
        while y <= b.1
            invariant
                width <= 63,
                fits(a, width),
                fits(b, width),
                pow2(width as nat) <= 0x8000_0000_0000_0000,
                mask == verify::top(width),
                a.0 <= x <= a.1,
                b.0 <= y <= b.1 + 1,
                across == b.1 - b.0 + 1,
                checked <= 1_000_000,
                checked == (x - a.0) * across + (y - b.0),
                forall|u: u64, v: u64|
                    a.0 <= u < x && interval::holds(b, v) ==> !#[trigger] outside(
                        op,
                        width,
                        u,
                        v,
                        out,
                    ),
                forall|v: u64| b.0 <= v < y ==> !#[trigger] outside(op, width, x, v, out),
            decreases b.1 + 1 - y,
        {
            let r: u64 = op.arith().apply(x, y) & mask;
            if r < out.0 || r > out.1 {
                assert(outside(op, width, x, y, out));
                return Some((x, y, r));
            }
            checked = checked + 1;
            if checked > 1_000_000 {
                proof {
                    let d = x - a.0;
                    let e = a.1 - a.0;
                    let f = y - b.0 + 1;
                    assert((e + 1) * across > 1_000_000) by (nonlinear_arith)
                        requires
                            d * across + f > 1_000_000,
                            d <= e,
                            f <= across,
                            across >= 0,
                    ;
                }
                return None;
            }
            y = y + 1;
        }
        x = x + 1;
    }
    None
}

/// `a` and `b` of `width` bits with members `x` and `y` whose result the
/// operation `operator` leaves out.
pub open spec fn is_leak<F: Fn(Range, Range) -> Range>(
    operator: F,
    op: RangeOp,
    width: u32,
    a: Range,
    b: Range,
    x: u64,
    y: u64,
    out: Range,
) -> bool {
    &&& fits(a, width)
    &&& fits(b, width)
    &&& interval::holds(a, x)
    &&& interval::holds(b, y)
    &&& call_ensures(operator, (a, b), out)
    &&& outside(op, width, x, y, out)
}

/// `v` reports that.
pub open spec fn reports_leak(
    v: Violation,
    op: RangeOp,
    width: u32,
    a: Range,
    b: Range,
    x: u64,
    y: u64,
    out: Range,
) -> bool {
    &&& v.operator@ == op.name()
    &&& v.input_class@ == "exhaustive-"@ + text::dec(width as nat)
    &&& v.inputs@ == violation::two_inputs(a, b)
    &&& v.counterexample@ == violation::binary_cex(
        x,
        y,
        "r"@,
        op.operation().result(x, y) & verify::top(width),
        out,
    )
}

pub open spec fn genuine<F: Fn(Range, Range) -> Range>(
    v: Violation,
    operator: F,
    op: RangeOp,
    width: u32,
) -> bool {
    exists|a: Range, b: Range, x: u64, y: u64, out: Range| #[trigger]
        is_leak(operator, op, width, a, b, x, y, out) && reports_leak(
            v,
            op,
            width,
            a,
            b,
            x,
            y,
            out,
        )
}

/// The operation holds the results on all members of `a` and `b`.
pub open spec fn pair_held<F: Fn(Range, Range) -> Range>(
    operator: F,
    op: RangeOp,
    width: u32,
    a: Range,
    b: Range,
) -> bool {
    exists|out: Range| #[trigger]
        call_ensures(operator, (a, b), out) && forall|x: u64, y: u64|
            interval::holds(a, x) && interval::holds(b, y) ==> !#[trigger] outside(
                op,
                width,
                x,
                y,
                out,
            )
}

/// Some report is of the operands `a` and `b`.
pub open spec fn pair_reported<F: Fn(Range, Range) -> Range>(
    found: Seq<Violation>,
    operator: F,
    op: RangeOp,
    width: u32,
    a: Range,
    b: Range,
) -> bool {
    exists|i: int, x: u64, y: u64, out: Range|
        #![trigger is_leak(operator, op, width, a, b, x, y, out), found[i]]
        0 <= i < found.len() && is_leak(operator, op, width, a, b, x, y, out) && reports_leak(
            found[i],
            op,
            width,
            a,
            b,
            x,
            y,
            out,
        )
}

/// The operation holds the results on all members of `a` and `b`, or a report is of
/// them.
pub open spec fn pair_settled<F: Fn(Range, Range) -> Range>(
    found: Seq<Violation>,
    operator: F,
    op: RangeOp,
    width: u32,
    a: Range,
    b: Range,
) -> bool {
    pair_held(operator, op, width, a, b) || pair_reported(found, operator, op, width, a, b)
}

/// Every pair is settled, up to nine bits and unless the list is full.
pub open spec fn reports_all<F: Fn(Range, Range) -> Range>(
    found: Seq<Violation>,
    operator: F,
    op: RangeOp,
    width: u32,
    limit: int,
) -> bool {
    found.len() < limit && width <= 9 ==> forall|a: Range, b: Range|
        fits(a, width) && fits(b, width) ==> #[trigger] pair_settled(
            found,
            operator,
            op,
            width,
            a,
            b,
        )
}

proof fn lemma_settled<F: Fn(Range, Range) -> Range>(
    found: Seq<Violation>,
    v: Violation,
    operator: F,
    op: RangeOp,
    width: u32,
    a: Range,
    b: Range,
)
    requires
        pair_settled(found, operator, op, width, a, b),
    ensures
        pair_settled(found.push(v), operator, op, width, a, b),
{
    if pair_reported(found, operator, op, width, a, b) {
        let (i, x, y, out) = choose|i: int, x: u64, y: u64, out: Range|
            #![trigger is_leak(operator, op, width, a, b, x, y, out), found[i]]
            0 <= i < found.len() && is_leak(operator, op, width, a, b, x, y, out) && reports_leak(
                found[i],
                op,
                width,
                a,
                b,
                x,
                y,
                out,
            );
        assert(found.push(v)[i] == found[i]);
    }
}

/// Searches all intervals of `width` bits, and their members, for results that
/// an operation leaves out: one report for a pair of operands, and no more than
/// `limit` reports. Of wide intervals only the first million members, and one
/// more, are tried; up to nine bits that is all of them.
pub fn search_range<F: Fn(Range, Range) -> Range>(
    operator: &F,
    op: RangeOp,
    width: u32,
    limit: usize,
) -> (found: Vec<Violation>)
    requires
        width <= 63,
        limit > 0,
        forall|a: Range, b: Range|
            fits(a, width) && fits(b, width) ==> call_requires(*operator, (a, b)),
    ensures
        found@.len() <= limit,
        forall|i: int|
            0 <= i < found@.len() ==> genuine(#[trigger] found@[i], *operator, op, width),
        found@.len() == 0 && width <= 9 ==> forall|a: Range, b: Range|
            fits(a, width) && fits(b, width) ==> #[trigger] pair_held(*operator, op, width, a, b),
        reports_all(found@, *operator, op, width, limit as int),
{
    let all: Vec<Range> = all_ranges(width);
    let mut found: Vec<Violation> = Vec::new();
    let mut i: usize = 0;
    while i < all.len()
        invariant
            width <= 63,
            limit > 0,
            i <= all@.len(),
            forall|a: Range, b: Range|
                fits(a, width) && fits(b, width) ==> call_requires(*operator, (a, b)),
            forall|k: int| 0 <= k < all@.len() ==> fits(#[trigger] all@[k], width),
            found@.len() < limit,
            forall|k: int|
                0 <= k < found@.len() ==> genuine(#[trigger] found@[k], *operator, op, width),
            found@.len() == 0 && width <= 9 ==> forall|k: int, l: int|
                0 <= k < i && 0 <= l < all@.len() ==> #[trigger] pair_held(
                    *operator,
                    op,
                    width,
                    all@[k],
                    all@[l],
                ),
            width <= 9 ==> forall|k: int, l: int|
                0 <= k < i && 0 <= l < all@.len() ==> #[trigger] pair_settled(
                    found@,
                    *operator,
                    op,
                    width,
                    all@[k],
                    all@[l],
                ),
        decreases all@.len() - i,
    {
        let a: Range = all[i];
        let mut j: usize = 0;
        while j < all.len()
            invariant
                width <= 63,
                limit > 0,
                i < all@.len(),
                a == all@[i as int],
                j <= all@.len(),
                forall|a: Range, b: Range|
                    fits(a, width) && fits(b, width) ==> call_requires(*operator, (a, b)),
                forall|k: int| 0 <= k < all@.len() ==> fits(#[trigger] all@[k], width),
                found@.len() < limit,
                forall|k: int|
                    0 <= k < found@.len() ==> genuine(#[trigger] found@[k], *operator, op, width),
                found@.len() == 0 && width <= 9 ==> forall|k: int, l: int|
                    0 <= k < i && 0 <= l < all@.len() ==> #[trigger] pair_held(
                        *operator,
                        op,
                        width,
                        all@[k],
                        all@[l],
                    ),
                found@.len() == 0 && width <= 9 ==> forall|l: int|
                    0 <= l < j ==> #[trigger] pair_held(*operator, op, width, a, all@[l]),
                width <= 9 ==> forall|k: int, l: int|
                    0 <= k < i && 0 <= l < all@.len() ==> #[trigger] pair_settled(
                        found@,
                        *operator,
                        op,
                        width,
                        all@[k],
                        all@[l],
                    ),
                width <= 9 ==> forall|l: int|
                    0 <= l < j ==> #[trigger] pair_settled(
                        found@,
                        *operator,
                        op,
                        width,
                        a,
                        all@[l],
                    ),
            decreases all@.len() - j,
        {
            let b: Range = all[j];
            let out: Range = operator(a, b);
            match first_outside(op, a, b, out, width) {
                Some(w) => {
                    let class: String = numbered_class("exhaustive-", width as u64);
                    let v: Violation = binary_violation(
                        range_name(op),
                        class,
                        a,
                        b,
                        (w.0, w.1),
                        "r",
                        w.2,
                        out,
                    );
                    proof {
                        assert(is_leak(*operator, op, width, a, b, w.0, w.1, out));
                        assert(reports_leak(v, op, width, a, b, w.0, w.1, out));
                        assert(genuine(v, *operator, op, width));
                    }
                    let ghost before = found@;
                    found.push(v);
                    proof {
                        if width <= 9 {
                            assert forall|k: int, l: int|
                                0 <= k < i && 0 <= l < all@.len() implies #[trigger] pair_settled(
                                found@,
                                *operator,
                                op,
                                width,
                                all@[k],
                                all@[l],
                            ) by {
                                lemma_settled(before, v, *operator, op, width, all@[k], all@[l]);
                            }
                            assert forall|l: int| 0 <= l < j implies #[trigger] pair_settled(
                                found@,
                                *operator,
                                op,
                                width,
                                a,
                                all@[l],
                            ) by {
                                lemma_settled(before, v, *operator, op, width, a, all@[l]);
                            }
                        }
                        assert(found@[before.len() as int] == v);
                        assert(pair_reported(found@, *operator, op, width, a, b));
                    }
                    if found.len() >= limit {
                        return found;
                    }
                },
                None => {
                    proof {
                        if width <= 9 {
                            lemma_narrow_count(width);
                            let p = a.1 - a.0 + 1;
                            let q = b.1 - b.0 + 1;
                            assert(p * q <= 1_000_000) by (nonlinear_arith)
                                requires
                                    0 <= p <= 512,
                                    0 <= q <= 512,
                            ;
                            assert(call_ensures(*operator, (a, b), out));
                            assert(pair_held(*operator, op, width, a, b));
                        }
                    }
                },
            }
            j = j + 1;
        }
        i = i + 1;
    }
    proof {
        if width <= 9 {
            assert forall|a: Range, b: Range|
                fits(a, width) && fits(b, width) implies #[trigger] pair_settled(
                found@,
                *operator,
                op,
                width,
                a,
                b,
            ) by {
                assert(all@.contains(a) && all@.contains(b));
                let k = choose|k: int| 0 <= k < all@.len() && all@[k] == a;
                let l = choose|l: int| 0 <= l < all@.len() && all@[l] == b;
                assert(pair_settled(found@, *operator, op, width, all@[k], all@[l]));
            }
        }
        if found@.len() == 0 && width <= 9 {
            assert forall|a: Range, b: Range|
                fits(a, width) && fits(b, width) implies #[trigger] pair_held(
                *operator,
                op,
                width,
                a,
                b,
            ) by {
                assert(all@.contains(a) && all@.contains(b));
                let k = choose|k: int| 0 <= k < all@.len() && all@[k] == a;
                let l = choose|l: int| 0 <= l < all@.len() && all@[l] == b;
                assert(pair_held(*operator, op, width, all@[k], all@[l]));
            }
        }
    }
    found
}

proof fn lemma_narrow_count(width: u32)
    requires
        width <= 9,
    ensures
        pow2(width as nat) <= 512,
{
    vstd::arithmetic::power2::lemma2_to64();
    if width < 9 {
        vstd::arithmetic::power2::lemma_pow2_strictly_increases(width as nat, 9);
    }
}

/// The exhaustive check of an operation on intervals of `width` bits.
pub fn exhaustive_range_binary(op: RangeOp, width: u32) -> (found: Vec<Violation>)
    requires
        width <= 63,
    ensures
        found@.len() == 0,
{
    let operator = |a: Range, b: Range| -> (r: Range)
        requires
            fits(a, width),
            fits(b, width),
        ensures
            r.0 == narrow(op, a, b, width).0,
            r.1 == narrow(op, a, b, width).1,
        { range_op_w(op, a, b, width) };
    let found: Vec<Violation> = search_range(&operator, op, width, 100_000);
    proof {
        if found@.len() > 0 {
            assert(genuine(found@[0], operator, op, width));
            let (a, b, x, y, out) = choose|a: Range, b: Range, x: u64, y: u64, out: Range| #[trigger]
                is_leak(operator, op, width, a, b, x, y, out) && reports_leak(
                    found@[0],
                    op,
                    width,
                    a,
                    b,
                    x,
                    y,
                    out,
                );
            narrow_is_sound(op, a, b, width, x, y);
        }
    }
    found
}

// ── By the solver and by sampling ───────────────────────────────────────────

/// The check of an operation on intervals of 64 bits: the solver is asked,
/// `limit` times at most and at least once, for members whose result the encoding
/// leaves out, until it has no answer.
pub fn symbolic_range_binary(op: RangeOp, limit: usize) -> (found: Vec<Violation>)
    ensures
        found@.len() == 0,
{
    let rounds: usize = if limit == 0 {
        1
    } else {
        limit
    };
    let mut found: Vec<Violation> = Vec::new();
    let mut round: usize = 0;
    while round < rounds
        invariant
            found@.len() == 0,
        decreases rounds - round,
    {
        proof {
            reveal_strlit("a.lo");
            reveal_strlit("a.hi");
            reveal_strlit("b.lo");
            reveal_strlit("b.hi");
            reveal_strlit("x");
            reveal_strlit("y");
        }
        let a: SymRange = SymRange { lo: Word::fresh("a.lo", 64), hi: Word::fresh("a.hi", 64) };
        let b: SymRange = SymRange { lo: Word::fresh("b.lo", 64), hi: Word::fresh("b.hi", 64) };
        let x: Word = Word::fresh("x", 64);
        let y: Word = Word::fresh("y", 64);
        let (rlo, rhi): (Word, Word) = match op {
            RangeOp::Add => encode_uadd(&a, &b),
            RangeOp::Sub => encode_usub(&a, &b),
            RangeOp::Mul => encode_umul(&a, &b),
        };
        let ghost encoded = (rlo, rhi);
        let out: SymRange = SymRange { lo: rlo, hi: rhi };
        let r: Word = op.arith().apply_bv(&x, &y);
        let a_ordered: Claim = a.lo.ule(&a.hi);
        let b_ordered: Claim = b.lo.ule(&b.hi);
        let in_a: Claim = in_range(&x, &a);
        let in_b: Claim = in_range(&y, &b);
        let contained: Claim = in_range(&r, &out);
        let miss: Claim = contained.not();
        let mut claims: Vec<Claim> = Vec::new();
        claims.push(a_ordered);
        claims.push(b_ordered);
        claims.push(in_a);
        claims.push(in_b);
        claims.push(miss);
        match find_assignment(&claims) {
            Reply::Satisfied(answer) => {
                proof {
                    let m = answer.assignment();
                    assert(claims@[2].holds(m) && claims@[3].holds(m) && claims@[4].holds(m));
                    assert(!contained.holds(m));
                    op.is_sound(a.at(m), b.at(m), x.word(m), y.word(m));
                    assert(super::range::denotes(encoded, m, op.abstraction(a.at(m), b.at(m))));
                    assert(r.word(m) == op.operation().result(x.word(m), y.word(m)));
                    assert(false);
                }
                found.push(
                    binary_violation(
                        range_name(op),
                        plain_class("symbolic-64"),
                        (answer.value_or_zero(&a.lo), answer.value_or_zero(&a.hi)),
                        (answer.value_or_zero(&b.lo), answer.value_or_zero(&b.hi)),
                        (answer.value_or_zero(&x), answer.value_or_zero(&y)),
                        "r",
                        answer.value_or_zero(&r),
                        (answer.value_or_zero(&out.lo), answer.value_or_zero(&out.hi)),
                    ),
                );
                if found.len() >= limit {
                    return found;
                }
            },
            // the next round would ask the same
            _ => {
                return found;
            },
        }
        round = round + 1;
    }
    found
}

/// An interval by chance. Its lower bound is not zero, so it is not the full
/// range.
pub fn random_range(rng: &mut XorShift) -> (r: Range)
    requires
        old(rng).0 != 0,
    ensures
        final(rng).0 == verify::shifted_once(verify::shifted_once(old(rng).0)),
        final(rng).0 != 0,
        0 < r.0 <= r.1,
        ({
            let x = verify::shifted_once(old(rng).0);
            let y = verify::shifted_once(x);
            r == (interval::least(x, y), interval::greatest(x, y))
        }),
{
    let x: u64 = rng.next();
    let y: u64 = rng.next();
    if x <= y {
        (x, y)
    } else {
        (y, x)
    }
}

/// A member of an interval, other than the full range, by chance.
pub fn random_member(r: Range, rng: &mut XorShift) -> (x: u64)
    requires
        old(rng).0 != 0,
        r.0 <= r.1,
        r != (0u64, u64::MAX),
    ensures
        final(rng).0 == verify::shifted_once(old(rng).0),
        final(rng).0 != 0,
        x == r.0 + final(rng).0 as int % (r.1 - r.0 + 1),
        interval::holds(r, x),
{
    let n: u64 = r.1 - r.0 + 1;
    let step: u64 = rng.next() % n;
    r.0 + step
}

/// The check of an operation on random intervals of 64 bits and random members.
pub fn random_range_binary(op: RangeOp, pairs: usize, members_per_pair: usize) -> (found: Vec<
    Violation,
>)
    ensures
        found@.len() == 0,
{
    let mut rng: XorShift = XorShift(0x8A11_2026_0817);
    let mut found: Vec<Violation> = Vec::new();
    let mut i: usize = 0;
    while i < pairs
        invariant
            rng.0 != 0,
            found@.len() == 0,
        decreases pairs - i,
    {
        let a: Range = random_range(&mut rng);
        let b: Range = random_range(&mut rng);
        let out: Range = match op {
            RangeOp::Add => rng_add(a, b),
            RangeOp::Sub => rng_sub(a, b),
            RangeOp::Mul => rng_mul(a, b),
        };
        let mut j: usize = 0;
        while j < members_per_pair
            invariant
                rng.0 != 0,
                found@.len() == 0,
                0 < a.0 <= a.1,
                0 < b.0 <= b.1,
                out == op.abstraction(a, b),
            decreases members_per_pair - j,
        {
            let x: u64 = random_member(a, &mut rng);
            let y: u64 = random_member(b, &mut rng);
            let r: u64 = op.arith().apply(x, y);
            proof {
                op.is_sound(a, b, x, y);
            }
            if r < out.0 || r > out.1 {
                found.push(
                    binary_violation(
                        range_name(op),
                        plain_class("random-64"),
                        a,
                        b,
                        (x, y),
                        "r",
                        r,
                        out,
                    ),
                );
                if found.len() >= 100 {
                    return found;
                }
            }
            j = j + 1;
        }
        i = i + 1;
    }
    found
}

} // verus!
