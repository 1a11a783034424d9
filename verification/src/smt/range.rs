//! The operations on intervals as bit-vector terms, with the truncation to 32
//! bits and the comparisons by which branches refine.

use vstd::prelude::*;

use super::word;
use super::word::{Assignment, Claim, Word};
use super::SymRange;
use crate::interval;
use crate::interval::Range;
use crate::tnum;

verus! {

/// The width of a scalar range.
pub const RANGE_WIDTH: u32 = 64;

/// The full range.
pub fn full_range() -> (r: (Word, Word))
    ensures
        r.0.bits() == 64,
        r.1.bits() == 64,
        forall|m: Assignment| #[trigger] r.0.word(m) == 0,
        forall|m: Assignment| #[trigger] r.1.word(m) == u64::MAX,
{
    (Word::literal(0), Word::literal(u64::MAX))
}

/// The claim that `x` lies in `r`.
pub fn in_range(x: &Word, r: &SymRange) -> (c: Claim)
    requires
        x.bits() == 64,
        r.wf(),
    ensures
        forall|m: Assignment| #[trigger] c.holds(m) == interval::holds(r.at(m), x.word(m)),
{
    let above: Claim = x.uge(&r.lo);
    let under: Claim = x.ule(&r.hi);
    let c: Claim = above.and(&under);
    proof {
        assert forall|m: Assignment| #[trigger]
            c.holds(m) == interval::holds(r.at(m), x.word(m)) by {
            x.lemma_word(m);
            r.lo.lemma_word(m);
            r.hi.lemma_word(m);
            assert(above.holds(m) == (x.at(m) >= r.lo.at(m)));
            assert(under.holds(m) == (x.at(m) <= r.hi.at(m)));
        }
    }
    c
}

/// The pair denotes the interval.
pub open spec fn denotes(r: (Word, Word), m: Assignment, i: Range) -> bool {
    r.0.word(m) == i.0 && r.1.word(m) == i.1
}

/// The sum of two terms of 64 bits, with its carry.
fn wide_sum(a: &Word, b: &Word) -> (r: Word)
    requires
        a.bits() == 64,
        b.bits() == 64,
    ensures
        r.bits() == 65,
        forall|m: Assignment| #[trigger] r.at(m) == a.word(m) + b.word(m),
{
    let wa: Word = a.zero_ext(1);
    let wb: Word = b.zero_ext(1);
    let r: Word = wa.add(&wb);
    proof {
        word::lemma_widths();
        assert forall|m: Assignment| #[trigger] r.at(m) == a.word(m) + b.word(m) by {
            a.lemma_word(m);
            b.lemma_word(m);
            assert(wa.at(m) == a.at(m));
            assert(wb.at(m) == b.at(m));
        }
    }
    r
}

/// The carry bit of a term of 65 bits.
fn carry(w: &Word) -> (r: Word)
    requires
        w.bits() == 65,
    ensures
        r.bits() == 1,
        forall|m: Assignment| #[trigger]
            r.at(m) == if w.at(m) > u64::MAX {
                1nat
            } else {
                0nat
            },
{
    let r: Word = w.extract(64, 64);
    proof {
        word::lemma_widths();
        assert forall|m: Assignment| #[trigger]
            r.at(m) == (if w.at(m) > u64::MAX {
                1nat
            } else {
                0nat
            }) by {
            w.lemma_fits(m);
            assert(r.at(m) == (w.at(m) / 0x1_0000_0000_0000_0000) % 2);
        }
    }
    r
}

/// The low 64 bits of a term of 65 bits.
fn low_word(w: &Word) -> (r: Word)
    requires
        w.bits() == 65,
    ensures
        r.bits() == 64,
        forall|m: Assignment| #[trigger] r.at(m) == w.at(m) % 0x1_0000_0000_0000_0000,
{
    proof {
        word::lemma_widths();
    }
    let r: Word = w.extract(63, 0);
    proof {
        assert forall|m: Assignment| #[trigger] r.at(m) == w.at(m) % 0x1_0000_0000_0000_0000 by {
            assert(r.at(m) == (w.at(m) / 1) % 0x1_0000_0000_0000_0000);
        }
    }
    r
}

/// Encodes `rng_add`.
pub fn encode_uadd(a: &SymRange, b: &SymRange) -> (r: (Word, Word))
    requires
        a.wf(),
        b.wf(),
    ensures
        r.0.bits() == 64,
        r.1.bits() == 64,
        forall|m: Assignment| #[trigger] denotes(r, m, interval::sum(a.at(m), b.at(m))),
{
    let lo: Word = wide_sum(&a.lo, &b.lo);
    let hi: Word = wide_sum(&a.hi, &b.hi);
    let lo_carry: Word = carry(&lo);
    let hi_carry: Word = carry(&hi);
    let same_block: Claim = lo_carry.equals(&hi_carry);
    let lo_word: Word = low_word(&lo);
    let hi_word: Word = low_word(&hi);
    let full: (Word, Word) = full_range();
    let out_lo: Word = same_block.choose_word(&lo_word, &full.0);
    let out_hi: Word = same_block.choose_word(&hi_word, &full.1);
    let r: (Word, Word) = (out_lo, out_hi);
    proof {
        assert forall|m: Assignment| #[trigger]
            denotes(r, m, interval::sum(a.at(m), b.at(m))) by {
            out_lo.lemma_word(m);
            out_hi.lemma_word(m);
            full.0.lemma_word(m);
            full.1.lemma_word(m);
            lo_word.lemma_word(m);
            hi_word.lemma_word(m);
            assert(lo.at(m) == a.lo.word(m) + b.lo.word(m));
            assert(hi.at(m) == a.hi.word(m) + b.hi.word(m));
            assert(lo_carry.at(m) == if lo.at(m) > u64::MAX { 1nat } else { 0nat });
            assert(hi_carry.at(m) == if hi.at(m) > u64::MAX { 1nat } else { 0nat });
            assert(same_block.holds(m) == (lo_carry.at(m) == hi_carry.at(m)));
            assert(lo_word.at(m) == lo.at(m) % 0x1_0000_0000_0000_0000);
            assert(hi_word.at(m) == hi.at(m) % 0x1_0000_0000_0000_0000);
            assert(full.0.word(m) == 0);
            assert(full.1.word(m) == u64::MAX);
            tnum::lemma_plus(a.lo.word(m), b.lo.word(m));
            tnum::lemma_plus(a.hi.word(m), b.hi.word(m));
        }
    }
    r
}

/// Encodes `rng_sub`.
pub fn encode_usub(a: &SymRange, b: &SymRange) -> (r: (Word, Word))
    requires
        a.wf(),
        b.wf(),
    ensures
        r.0.bits() == 64,
        r.1.bits() == 64,
        forall|m: Assignment| #[trigger] denotes(r, m, interval::difference(a.at(m), b.at(m))),
{
    let low: Word = a.lo.minus(&b.hi);
    let a_span: Word = a.hi.minus(&a.lo);
    let b_span: Word = b.hi.minus(&b.lo);
    let span: Word = wide_sum(&a_span, &b_span);
    let none: Word = Word::constant(0, 1);
    let span_carry: Word = carry(&span);
    let span_ok: Claim = span_carry.equals(&none);
    let wide_low: Word = low.zero_ext(1);
    let fold: Word = wide_low.add(&span);
    let fold_carry: Word = carry(&fold);
    let fold_ok: Claim = fold_carry.equals(&none);
    let ok: Claim = span_ok.and(&fold_ok);
    let span_word: Word = low_word(&span);
    let high: Word = low.plus(&span_word);
    let full: (Word, Word) = full_range();
    let out_lo: Word = ok.choose_word(&low, &full.0);
    let out_hi: Word = ok.choose_word(&high, &full.1);
    let r: (Word, Word) = (out_lo, out_hi);
    proof {
        word::lemma_widths();
        assert forall|m: Assignment| #[trigger]
            denotes(r, m, interval::difference(a.at(m), b.at(m))) by {
            out_lo.lemma_word(m);
            out_hi.lemma_word(m);
            full.0.lemma_word(m);
            full.1.lemma_word(m);
            low.lemma_word(m);
            high.lemma_word(m);
            span_word.lemma_word(m);
            assert(none.at(m) == 0);
            assert(low.word(m) == tnum::minus(a.lo.word(m), b.hi.word(m)));
            assert(a_span.word(m) == tnum::minus(a.hi.word(m), a.lo.word(m)));
            assert(b_span.word(m) == tnum::minus(b.hi.word(m), b.lo.word(m)));
            assert(span.at(m) == a_span.word(m) + b_span.word(m));
            assert(span_carry.at(m) == if span.at(m) > u64::MAX { 1nat } else { 0nat });
            assert(span_ok.holds(m) == (span_carry.at(m) == none.at(m)));
            assert(wide_low.at(m) == low.at(m));
            assert(fold.at(m) == (wide_low.at(m) + span.at(m)) % 0x2_0000_0000_0000_0000);
            assert(fold_carry.at(m) == if fold.at(m) > u64::MAX { 1nat } else { 0nat });
            assert(fold_ok.holds(m) == (fold_carry.at(m) == none.at(m)));
            assert(span_word.at(m) == span.at(m) % 0x1_0000_0000_0000_0000);
            assert(high.word(m) == tnum::plus(low.word(m), span_word.word(m)));
            tnum::lemma_plus(low.word(m), span_word.word(m));
            assert(full.0.word(m) == 0);
            assert(full.1.word(m) == u64::MAX);
            assert(ok.holds(m) == (low.word(m) + span.at(m) <= u64::MAX));
        }
    }
    r
}

/// Encodes `rng_mul`.
pub fn encode_umul(a: &SymRange, b: &SymRange) -> (r: (Word, Word))
    requires
        a.wf(),
        b.wf(),
    ensures
        r.0.bits() == 64,
        r.1.bits() == 64,
        forall|m: Assignment| #[trigger] denotes(r, m, interval::product(a.at(m), b.at(m))),
{
    let a_const: Claim = a.lo.equals(&a.hi);
    let b_const: Claim = b.lo.equals(&b.hi);
    let both_const: Claim = a_const.and(&b_const);
    let prod: Word = a.lo.times(&b.lo);
    let full: (Word, Word) = full_range();
    let out_lo: Word = both_const.choose_word(&prod, &full.0);
    let out_hi: Word = both_const.choose_word(&prod, &full.1);
    let r: (Word, Word) = (out_lo, out_hi);
    proof {
        assert forall|m: Assignment| #[trigger]
            denotes(r, m, interval::product(a.at(m), b.at(m))) by {
            out_lo.lemma_word(m);
            out_hi.lemma_word(m);
            full.0.lemma_word(m);
            full.1.lemma_word(m);
            prod.lemma_word(m);
            a.lo.lemma_word(m);
            a.hi.lemma_word(m);
            b.lo.lemma_word(m);
            b.hi.lemma_word(m);
            assert(a_const.holds(m) == (a.lo.at(m) == a.hi.at(m)));
            assert(b_const.holds(m) == (b.lo.at(m) == b.hi.at(m)));
            assert(prod.word(m) == tnum::times(a.lo.word(m), b.lo.word(m)));
            assert(full.0.word(m) == 0);
            assert(full.1.word(m) == u64::MAX);
        }
    }
    r
}

/// Encodes `rng_or`.
pub fn encode_uor(a: &SymRange, b: &SymRange) -> (r: (Word, Word))
    requires
        a.wf(),
        b.wf(),
    ensures
        r.0.bits() == 64,
        r.1.bits() == 64,
        forall|m: Assignment| #[trigger]
            denotes(r, m, (interval::greatest(a.lo.word(m), b.lo.word(m)), u64::MAX)),
{
    let greater: Claim = a.lo.ugt(&b.lo);
    let lo: Word = greater.choose_word(&a.lo, &b.lo);
    let r: (Word, Word) = (lo, Word::literal(u64::MAX));
    proof {
        assert forall|m: Assignment| #[trigger]
            denotes(r, m, (interval::greatest(a.lo.word(m), b.lo.word(m)), u64::MAX)) by {
            lo.lemma_word(m);
            a.lo.lemma_word(m);
            b.lo.lemma_word(m);
            assert(greater.holds(m) == (a.lo.at(m) > b.lo.at(m)));
            assert(r.1.word(m) == u64::MAX);
        }
    }
    r
}

/// Encodes `rng_xor`.
pub fn encode_uxor(_a: &SymRange, _b: &SymRange) -> (r: (Word, Word))
    ensures
        r.0.bits() == 64,
        r.1.bits() == 64,
        forall|m: Assignment| #[trigger] denotes(r, m, interval::full()),
{
    let r: (Word, Word) = full_range();
    proof {
        assert forall|m: Assignment| #[trigger] denotes(r, m, interval::full()) by {
            assert(r.0.word(m) == 0);
            assert(r.1.word(m) == u64::MAX);
        }
    }
    r
}

/// Encodes `rng_and`.
pub fn encode_uand(a: &SymRange, b: &SymRange) -> (r: (Word, Word))
    requires
        a.wf(),
        b.wf(),
    ensures
        r.0.bits() == 64,
        r.1.bits() == 64,
        forall|m: Assignment| #[trigger]
            denotes(r, m, (0u64, interval::least(a.hi.word(m), b.hi.word(m)))),
{
    let lesser: Claim = a.hi.ult(&b.hi);
    let hi: Word = lesser.choose_word(&a.hi, &b.hi);
    let r: (Word, Word) = (Word::literal(0), hi);
    proof {
        assert forall|m: Assignment| #[trigger]
            denotes(r, m, (0u64, interval::least(a.hi.word(m), b.hi.word(m)))) by {
            hi.lemma_word(m);
            a.hi.lemma_word(m);
            b.hi.lemma_word(m);
            assert(lesser.holds(m) == (a.hi.at(m) < b.hi.at(m)));
            assert(r.0.word(m) == 0);
        }
    }
    r
}

// ── 32 bits ─────────────────────────────────────────────────────────────────

/// The low 32 bits of the members of an interval: one interval when the bounds
/// share their high 32 bits, all of them otherwise.
pub open spec fn low_image(r: Range) -> (nat, nat) {
    if r.0 / 0x1_0000_0000 == r.1 / 0x1_0000_0000 {
        ((r.0 % 0x1_0000_0000) as nat, (r.1 % 0x1_0000_0000) as nat)
    } else {
        (0, 0xffff_ffff)
    }
}

/// The truncation of an interval to 32 bits.
pub fn truncate32(lo: &Word, hi: &Word) -> (r: (Word, Word))
    requires
        lo.bits() == 64,
        hi.bits() == 64,
    ensures
        r.0.bits() == 32,
        r.1.bits() == 32,
        forall|m: Assignment| #[trigger]
            r.0.at(m) == low_image((lo.word(m), hi.word(m))).0,
        forall|m: Assignment| #[trigger]
            r.1.at(m) == low_image((lo.word(m), hi.word(m))).1,
{
    proof {
        word::lemma_widths();
    }
    let lo_high: Word = lo.extract(63, 32);
    let hi_high: Word = hi.extract(63, 32);
    let same_block: Claim = lo_high.equals(&hi_high);
    let lo32: Word = lo.extract(31, 0);
    let hi32: Word = hi.extract(31, 0);
    let least: Word = Word::constant(0, 32);
    let greatest: Word = Word::constant(0xffff_ffff, 32);
    let out_lo: Word = same_block.choose_word(&lo32, &least);
    let out_hi: Word = same_block.choose_word(&hi32, &greatest);
    proof {
        assert forall|m: Assignment|
            (#[trigger] out_lo.at(m)) == low_image((lo.word(m), hi.word(m))).0 && out_hi.at(m)
                == low_image((lo.word(m), hi.word(m))).1 by {
            lo.lemma_word(m);
            hi.lemma_word(m);
            assert(lo_high.at(m) == (lo.at(m) / 0x1_0000_0000) % 0x1_0000_0000);
            assert(hi_high.at(m) == (hi.at(m) / 0x1_0000_0000) % 0x1_0000_0000);
            assert(lo32.at(m) == (lo.at(m) / 1) % 0x1_0000_0000);
            assert(hi32.at(m) == (hi.at(m) / 1) % 0x1_0000_0000);
            assert(same_block.holds(m) == (lo_high.at(m) == hi_high.at(m)));
            assert(least.at(m) == 0);
            assert(greatest.at(m) == 0xffff_ffff);
        }
        assert forall|m: Assignment| #[trigger]
            out_hi.at(m) == low_image((lo.word(m), hi.word(m))).1 by {
            assert(out_lo.at(m) == low_image((lo.word(m), hi.word(m))).0);
        }
    }
    (out_lo, out_hi)
}

/// A value of 32 bits with zeros above it.
pub fn zero_extend32(v: &Word) -> (r: Word)
    requires
        v.bits() == 32,
    ensures
        r.bits() == 64,
        forall|m: Assignment| #[trigger] r.at(m) == v.at(m),
{
    v.zero_ext(32)
}

/// A value of 32 bits with copies of its sign above it.
pub fn sign_extend32(v: &Word) -> (r: Word)
    requires
        v.bits() == 32,
    ensures
        r.bits() == 64,
        forall|m: Assignment| #[trigger]
            r.at(m) == if v.at(m) < 0x8000_0000 {
                v.at(m)
            } else {
                v.at(m) + 0xffff_ffff_0000_0000
            },
{
    proof {
        word::lemma_widths();
    }
    v.sign_ext(32)
}

/// The low 32 bits of a member lie in the truncation of the interval.
pub proof fn truncation_is_sound(r: Range, x: u64)
    requires
        interval::holds(r, x),
    ensures
        low_image(r).0 <= x % 0x1_0000_0000 <= low_image(r).1,
{
}

// ── Comparisons ─────────────────────────────────────────────────────────────

/// A comparison of two scalars.
#[derive(Debug, Clone, Copy, PartialEq, Eq)]
pub enum RangeCmp {
    Eq,
    Ne,
    Ult,
    Ule,
    Ugt,
    Uge,
    Slt,
    Sle,
    Sgt,
    Sge,
}

/// The signed number with the bits of `x`.
pub open spec fn signed(x: u64) -> i64 {
    x as i64
}

fn to_signed(x: u64) -> (r: i64)
    ensures
        r == signed(x),
{
    x as i64
}

/// What a comparison of two scalars says.
pub open spec fn compared(how: RangeCmp, x: u64, y: u64) -> bool {
    match how {
        RangeCmp::Eq => x == y,
        RangeCmp::Ne => x != y,
        RangeCmp::Ult => x < y,
        RangeCmp::Ule => x <= y,
        RangeCmp::Ugt => x > y,
        RangeCmp::Uge => x >= y,
        RangeCmp::Slt => signed(x) < signed(y),
        RangeCmp::Sle => signed(x) <= signed(y),
        RangeCmp::Sgt => signed(x) > signed(y),
        RangeCmp::Sge => signed(x) >= signed(y),
    }
}

/// A comparison as a formula.
pub fn encode_cmp(cmp: RangeCmp, x: &Word, y: &Word) -> (c: Claim)
    requires
        x.bits() == 64,
        y.bits() == 64,
    ensures
        forall|m: Assignment| #[trigger] c.holds(m) == compared(cmp, x.word(m), y.word(m)),
{
    let c: Claim = match cmp {
        RangeCmp::Eq => x.equals(y),
        RangeCmp::Ne => {
            let same: Claim = x.equals(y);
            let differ: Claim = same.not();
            proof {
                assert forall|m: Assignment| #[trigger]
                    differ.holds(m) == (x.at(m) != y.at(m)) by {
                    assert(same.holds(m) == (x.at(m) == y.at(m)));
                }
            }
            differ
        },
        RangeCmp::Ult => x.ult(y),
        RangeCmp::Ule => x.ule(y),
        RangeCmp::Ugt => x.ugt(y),
        RangeCmp::Uge => x.uge(y),
        RangeCmp::Slt => x.slt(y),
        RangeCmp::Sle => x.sle(y),
        RangeCmp::Sgt => x.sgt(y),
        RangeCmp::Sge => x.sge(y),
    };
    proof {
        assert forall|m: Assignment| #[trigger]
            c.holds(m) == compared(cmp, x.word(m), y.word(m)) by {
            x.lemma_word(m);
            y.lemma_word(m);
        }
    }
    c
}

/// The verdict of a comparison on two numbers.
pub fn rust_cmp(cmp: RangeCmp, dst: u64, src: u64) -> (b: bool)
    ensures
        b == compared(cmp, dst, src),
{
    match cmp {
        RangeCmp::Eq => dst == src,
        RangeCmp::Ne => dst != src,
        RangeCmp::Ult => dst < src,
        RangeCmp::Ule => dst <= src,
        RangeCmp::Ugt => dst > src,
        RangeCmp::Uge => dst >= src,
        RangeCmp::Slt => to_signed(dst) < to_signed(src),
        RangeCmp::Sle => to_signed(dst) <= to_signed(src),
        RangeCmp::Sgt => to_signed(dst) > to_signed(src),
        RangeCmp::Sge => to_signed(dst) >= to_signed(src),
    }
}

} // verus!
