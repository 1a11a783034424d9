//! Numbers: words modulo 2^64, and how close intervals come to the results that
//! they stand for.

use vstd::prelude::*;

use crate::interval;
use crate::interval::Range;
use crate::smt::range;
use crate::smt::range::RangeCmp;
use crate::smt::range_check;
use crate::smt::range_check::RangeOp;
use crate::smt::verify;
use crate::smt::verify::TnumConcreteOp;
use crate::tnum;
use crate::tnum::Tnum;
use vstd::arithmetic::power2::pow2;

verus! {

/// The number of words.
pub open spec fn words() -> int {
    0x1_0000_0000_0000_0000
}

/// The sums, differences and products of words are those of the numbers, modulo
/// the number of words.
pub proof fn words_are_counted_modulo(x: u64, y: u64)
    ensures
        tnum::plus(x, y) as int == (x + y) % words(),
        tnum::minus(x, y) as int == (x - y) % words(),
        tnum::times(x, y) as int == (x * y) % words(),
{
    tnum::lemma_plus(x, y);
    tnum::lemma_minus(x, y);
    tnum::lemma_times(x, y);
    assert((x + y) % words() == if x + y >= words() {
        x + y - words()
    } else {
        x + y
    });
    assert((x - y) % words() == if x < y {
        x - y + words()
    } else {
        x - y
    });
}

/// Every sum of members lies in the range.
pub open spec fn holds_sums(r: Range, a: Range, b: Range) -> bool {
    forall|x: u64, y: u64|
        a.0 <= x <= a.1 && b.0 <= y <= b.1 ==> interval::holds(r, #[trigger] tnum::plus(x, y))
}

/// Every difference of members lies in the range.
pub open spec fn holds_differences(r: Range, a: Range, b: Range) -> bool {
    forall|x: u64, y: u64|
        a.0 <= x <= a.1 && b.0 <= y <= b.1 ==> interval::holds(r, #[trigger] tnum::minus(x, y))
}

/// No range that holds every sum is narrower than the sum of the ranges.
pub proof fn sums_are_tight(a: Range, b: Range, s: Range, r: Range)
    requires
        a.0 <= a.1,
        b.0 <= b.1,
        call_ensures(interval::rng_add, (a, b), s),
        holds_sums(r, a, b),
    ensures
        holds_sums(s, a, b),
        r.0 <= s.0,
        s.1 <= r.1,
{
    assert forall|x: u64, y: u64| a.0 <= x <= a.1 && b.0 <= y <= b.1 implies interval::holds(
        s,
        #[trigger] tnum::plus(x, y),
    ) by {
        interval::add_is_sound(a, b, x, y);
    }
    tnum::lemma_plus(a.0, b.0);
    tnum::lemma_plus(a.1, b.1);
    assert(interval::holds(r, tnum::plus(a.0, b.0)));
    assert(interval::holds(r, tnum::plus(a.1, b.1)));
    if (a.0 + b.0 > u64::MAX) != (a.1 + b.1 > u64::MAX) {
        // some sum is the last of the words, and the next is the first
        let x: u64 = if u64::MAX - b.0 <= a.1 { (u64::MAX - b.0) as u64 } else { a.1 };
        let y: u64 = (u64::MAX - x) as u64;
        tnum::lemma_plus(x, y);
        assert(interval::holds(r, tnum::plus(x, y)));
        let (u, v): (u64, u64) = if x < a.1 { ((x + 1) as u64, y) } else { (x, (y + 1) as u64) };
        tnum::lemma_plus(u, v);
        assert(interval::holds(r, tnum::plus(u, v)));
    }
}

/// No range that holds every difference is narrower than the difference of the
/// ranges.
pub proof fn differences_are_tight(a: Range, b: Range, s: Range, r: Range)
    requires
        a.0 <= a.1,
        b.0 <= b.1,
        call_ensures(interval::rng_sub, (a, b), s),
        holds_differences(r, a, b),
    ensures
        holds_differences(s, a, b),
        r.0 <= s.0,
        s.1 <= r.1,
{
    assert forall|x: u64, y: u64| a.0 <= x <= a.1 && b.0 <= y <= b.1 implies interval::holds(
        s,
        #[trigger] tnum::minus(x, y),
    ) by {
        interval::sub_is_sound(a, b, x, y);
    }
    tnum::lemma_minus(a.0, b.1);
    tnum::lemma_minus(a.1, b.0);
    tnum::lemma_minus(a.1, a.0);
    tnum::lemma_minus(b.1, b.0);
    assert(interval::holds(r, tnum::minus(a.0, b.1)));
    assert(interval::holds(r, tnum::minus(a.1, b.0)));
    if s == interval::full() && tnum::minus(a.0, b.1) + (a.1 - a.0) + (b.1 - b.0) > u64::MAX {
        // zero is a difference, and so is the word before it
        if a.0 < b.1 && a.1 >= b.0 {
            let x: u64 = if a.0 >= b.0 { a.0 } else { b.0 };
            assert(a.0 <= x <= a.1 && b.0 <= x <= b.1);
            tnum::lemma_minus(x, x);
            assert(interval::holds(r, tnum::minus(x, x)));
            if x < b.1 {
                tnum::lemma_minus(x, (x + 1) as u64);
                assert(interval::holds(r, tnum::minus(x, (x + 1) as u64)));
            } else {
                tnum::lemma_minus((x - 1) as u64, x);
                assert(interval::holds(r, tnum::minus((x - 1) as u64, x)));
            }
        }
    }
}

/// The product of two constants is their product alone; of anything else nothing
/// is known.
pub proof fn products_of_constants(a: Range, b: Range, p: Range)
    requires
        call_ensures(interval::rng_mul, (a, b), p),
    ensures
        a.0 == a.1 && b.0 == b.1 ==> p.0 == p.1 && p.0 as int == (a.0 * b.0) % words(),
        !(a.0 == a.1 && b.0 == b.1) ==> p == (0u64, u64::MAX),
{
    words_are_counted_modulo(a.0, b.0);
}

/// The bounds of the bitwise operations: an or is bounded below by both lower
/// bounds and by nothing more, an and above by both upper bounds, an exclusive or
/// by nothing.
pub proof fn bitwise_bounds(a: Range, b: Range, o: Range, n: Range, x: Range)
    requires
        call_ensures(interval::rng_or, (a, b), o),
        call_ensures(interval::rng_and, (a, b), n),
        call_ensures(interval::rng_xor, (a, b), x),
    ensures
        o.0 >= a.0 && o.0 >= b.0 && (o.0 == a.0 || o.0 == b.0) && o.1 == u64::MAX,
        n.1 <= a.1 && n.1 <= b.1 && (n.1 == a.1 || n.1 == b.1) && n.0 == 0,
        x == (0u64, u64::MAX),
{
}

// ── Tracked numbers ─────────────────────────────────────────────────────────

/// Every sum of covered numbers is covered.
pub open spec fn covers_sums(t: Tnum, a: Tnum, b: Tnum) -> bool {
    forall|x: u64, y: u64|
        a.covers(x) && b.covers(y) ==> t.covers(#[trigger] tnum::plus(x, y))
}

/// Every difference of covered numbers is covered.
pub open spec fn covers_differences(t: Tnum, a: Tnum, b: Tnum) -> bool {
    forall|x: u64, y: u64|
        a.covers(x) && b.covers(y) ==> t.covers(#[trigger] tnum::minus(x, y))
}

/// The lowest bit of a word.
spec fn lowest(w: u64) -> u64 {
    w & ((0 - w) as u64)
}

proof fn lemma_members(av: u64, am: u64, bv: u64, bm: u64, tm: u64)
    by (bit_vector)
    requires
        av & am == 0,
        bv & bm == 0,
    ensures
        ({
            let u = am & !tm;
            let w = bm & !tm;
            let e = u & ((0 - u) as u64);
            let f = w & ((0 - w) as u64);
            &&& (av | e) & !am == av & !am
            &&& (bv | f) & !bm == bv & !bm
            &&& (av | am) & !am == av & !am
            &&& (bv | bm) & !bm == bv & !bm
            &&& (((av | e) + bv) as u64) == ((((av + bv) as u64) + e) as u64)
            &&& ((av + (bv | f)) as u64) == ((((av + bv) as u64) + f) as u64)
            &&& (((av | am) + (bv | bm)) as u64) == ((((am + bm) as u64) + ((av + bv) as u64)) as u64)
            &&& (((av | e) - bv) as u64) == ((((av - bv) as u64) + e) as u64)
            &&& ((av - (bv | f)) as u64) == ((((av - bv) as u64) - f) as u64)
            &&& (((av | am) - bv) as u64) == ((((av - bv) as u64) + am) as u64)
            &&& ((av - (bv | bm)) as u64) == ((((av - bv) as u64) - bm) as u64)
        }),
{
}

proof fn lemma_unknown(am: u64, bm: u64, tv: u64, tm: u64, s: u64, p: u64, q: u64)
    by (bit_vector)
    requires
        s & !tm == tv & !tm,
        p & !tm == tv & !tm,
        q & !tm == tv & !tm,
        ({
            let u = am & !tm;
            let w = bm & !tm;
            let e = u & ((0 - u) as u64);
            let f = w & ((0 - w) as u64);
            &&& ((s + e) as u64) & !tm == tv & !tm
            &&& (((s + f) as u64) & !tm == tv & !tm || ((s - f) as u64) & !tm == tv & !tm)
        }),
    ensures
        (((p ^ q) | am) | bm) & !tm == 0,
{
}

/// No tracked number that covers every sum knows a bit that the sum of the tracked
/// numbers does not.
pub proof fn tracked_sums_are_tight(a: Tnum, b: Tnum, s: Tnum, t: Tnum)
    requires
        a.normalized(),
        b.normalized(),
        call_ensures(Tnum::add, (a, b), s),
        covers_sums(t, a, b),
    ensures
        covers_sums(s, a, b),
        s.mask & !t.mask == 0,
{
    assert forall|x: u64, y: u64| a.covers(x) && b.covers(y) implies s.covers(
        #[trigger] tnum::plus(x, y),
    ) by {
        tnum::add_is_sound(a, b, x, y);
    }
    lemma_members(a.value, a.mask, b.value, b.mask, t.mask);
    let e = lowest(a.mask & !t.mask);
    let f = lowest(b.mask & !t.mask);
    assert(t.covers(tnum::plus(a.value, b.value)));
    assert(t.covers(tnum::plus(a.value | e, b.value)));
    assert(t.covers(tnum::plus(a.value, b.value | f)));
    assert(t.covers(tnum::plus(a.value | a.mask, b.value | b.mask)));
    let sv = tnum::plus(a.value, b.value);
    lemma_unknown(
        a.mask,
        b.mask,
        t.value,
        t.mask,
        sv,
        tnum::plus(tnum::plus(a.mask, b.mask), sv),
        sv,
    );
}

/// No tracked number that covers every difference knows a bit that the difference
/// of the tracked numbers does not.
pub proof fn tracked_differences_are_tight(a: Tnum, b: Tnum, s: Tnum, t: Tnum)
    requires
        a.normalized(),
        b.normalized(),
        call_ensures(Tnum::sub, (a, b), s),
        covers_differences(t, a, b),
    ensures
        covers_differences(s, a, b),
        s.mask & !t.mask == 0,
{
    assert forall|x: u64, y: u64| a.covers(x) && b.covers(y) implies s.covers(
        #[trigger] tnum::minus(x, y),
    ) by {
        tnum::sub_is_sound(a, b, x, y);
    }
    lemma_members(a.value, a.mask, b.value, b.mask, t.mask);
    let e = lowest(a.mask & !t.mask);
    let f = lowest(b.mask & !t.mask);
    let dv = tnum::minus(a.value, b.value);
    assert(t.covers(tnum::minus(a.value, b.value)));
    assert(t.covers(tnum::minus(a.value | e, b.value)));
    assert(t.covers(tnum::minus(a.value, b.value | f)));
    assert(t.covers(tnum::minus(a.value | a.mask, b.value)));
    assert(t.covers(tnum::minus(a.value, b.value | b.mask)));
    lemma_unknown(
        a.mask,
        b.mask,
        t.value,
        t.mask,
        dv,
        tnum::plus(dv, a.mask),
        tnum::minus(dv, b.mask),
    );
}

/// The operator of each name on tracked numbers gives what that operator gives.
pub proof fn tracked_operators_by_name(op: TnumConcreteOp, a: Tnum, b: Tnum, r: Tnum, s: Tnum)
    requires
        call_ensures(verify::rust_tnum_op, (op, a, b), r),
        op is Add ==> call_ensures(Tnum::add, (a, b), s),
        op is Sub ==> call_ensures(Tnum::sub, (a, b), s),
        op is Xor ==> call_ensures(Tnum::xor, (a, b), s),
        op is And ==> call_ensures(Tnum::and, (a, b), s),
        op is Or ==> call_ensures(Tnum::or, (a, b), s),
    ensures
        r == s,
{
}

// ── Comparisons ─────────────────────────────────────────────────────────────

/// The comparisons are orders: each is the negation or the converse of another, and
/// equality is neither way.
pub proof fn comparisons_are_orders(x: u64, y: u64)
    ensures
        range::compared(RangeCmp::Eq, x, y) <==> x == y,
        range::compared(RangeCmp::Ne, x, y) <==> x != y,
        range::compared(RangeCmp::Ult, x, y) <==> x < y,
        range::compared(RangeCmp::Slt, x, y) <==> (x as i64) < (y as i64),
        range::compared(RangeCmp::Ugt, x, y) <==> range::compared(RangeCmp::Ult, y, x),
        range::compared(RangeCmp::Uge, x, y) <==> !range::compared(RangeCmp::Ult, x, y),
        range::compared(RangeCmp::Ule, x, y) <==> !range::compared(RangeCmp::Ult, y, x),
        range::compared(RangeCmp::Sgt, x, y) <==> range::compared(RangeCmp::Slt, y, x),
        range::compared(RangeCmp::Sge, x, y) <==> !range::compared(RangeCmp::Slt, x, y),
        range::compared(RangeCmp::Sle, x, y) <==> !range::compared(RangeCmp::Slt, y, x),
{
}

// ── Narrow intervals ────────────────────────────────────────────────────────

/// Both ends of a truncated interval are the low halves of members.
pub proof fn truncations_are_tight(r: Range) -> (ends: (u64, u64))
    requires
        r.0 <= r.1,
    ensures
        r.0 <= ends.0 <= r.1,
        r.0 <= ends.1 <= r.1,
        range::low_image(r).0 == ends.0 % 0x1_0000_0000,
        range::low_image(r).1 == ends.1 % 0x1_0000_0000,
{
    if r.0 / 0x1_0000_0000 == r.1 / 0x1_0000_0000 {
        (r.0, r.1)
    } else {
        let x: u64 = (r.1 - r.1 % 0x1_0000_0000) as u64;
        assert(x % 0x1_0000_0000 == 0);
        assert(r.0 < x);
        let y: u64 = (x - 1) as u64;
        assert(y % 0x1_0000_0000 == 0xffff_ffff);
        (x, y)
    }
}

/// On intervals of a few bits, constants give one number, and sums and differences
/// that do not wrap give the interval from the least to the greatest.
pub proof fn narrow_results_are_tight(op: RangeOp, a: Range, b: Range, width: u32, r: Range)
    requires
        width <= 63,
        range_check::fits(a, width),
        range_check::fits(b, width),
        call_ensures(range_check::range_op_w, (op, a, b, width), r),
    ensures
        op is Add && a.1 + b.1 < pow2(width as nat) ==> r.0 == a.0 + b.0 && r.1 == a.1 + b.1,
        op is Sub && a.0 >= b.1 ==> r.0 == a.0 - b.1 && r.1 == a.1 - b.0,
        op is Mul && a.0 == a.1 && b.0 == b.1 ==> r.0 == (a.0 * b.0) % pow2(width as nat) as int
            && r.1 == r.0,
        a.0 == a.1 && b.0 == b.1 ==> r.0 == r.1,
{
    let n = pow2(width as nat) as int;
    vstd::arithmetic::power2::lemma_pow2_pos(width as nat);
    if op is Add && a.1 + b.1 < n {
        vstd::arithmetic::div_mod::lemma_small_mod((a.0 + b.0) as nat, n as nat);
        vstd::arithmetic::div_mod::lemma_small_mod((a.1 + b.1) as nat, n as nat);
        vstd::arithmetic::div_mod::lemma_basic_div(a.0 + b.0, n);
        vstd::arithmetic::div_mod::lemma_basic_div(a.1 + b.1, n);
    }
    if op is Sub {
        vstd::arithmetic::div_mod::lemma_mod_bound(a.0 - b.1, n);
        if a.0 >= b.1 {
            vstd::arithmetic::div_mod::lemma_small_mod((a.0 - b.1) as nat, n as nat);
        }
    }
}

} // verus!
