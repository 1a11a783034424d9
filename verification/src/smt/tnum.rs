//! The operators on tracked numbers as bit-vector terms.

use vstd::prelude::*;

use super::word;
use super::word::{Assignment, Claim, Word};
use super::SymTnum;
use crate::tnum;
use crate::tnum::Tnum;

verus! {

/// The width of a tracked number.
pub const TNUM_WIDTH: u32 = 64;

/// The claim that `x` agrees with the known bits of `t`.
pub fn concretize(t: &SymTnum, x: &Word) -> (c: Claim)
    requires
        t.wf(),
        x.bits() == 64,
    ensures
        forall|m: Assignment| #[trigger] c.holds(m) == t.at(m).covers(x.word(m)),
{
    let known: Word = t.mask.not();
    let left: Word = x.and(&known);
    let right: Word = t.value.and(&known);
    let c: Claim = left.equals(&right);
    proof {
        assert forall|m: Assignment| #[trigger] c.holds(m) == t.at(m).covers(x.word(m)) by {
            left.lemma_word(m);
            right.lemma_word(m);
            assert(known.word(m) == !t.mask.word(m));
        }
    }
    c
}

/// Encodes `Tnum::add`.
pub fn encode_add(a: &SymTnum, b: &SymTnum) -> (r: SymTnum)
    requires
        a.wf(),
        b.wf(),
    ensures
        r.wf(),
        forall|m: Assignment| #[trigger] r.at(m) == a.at(m).added(b.at(m)),
{
    let sm: Word = a.mask.plus(&b.mask);
    let sv: Word = a.value.plus(&b.value);
    let sigma: Word = sm.plus(&sv);
    let chi: Word = sigma.xor(&sv);
    let wide: Word = chi.or(&a.mask);
    let mu: Word = wide.or(&b.mask);
    let known: Word = mu.not();
    let value: Word = sv.and(&known);
    proof {
        assert forall|m: Assignment|
            (Tnum { value: #[trigger] value.word(m), mask: mu.word(m) }) == a.at(m).added(b.at(m)) by {
            assert(known.word(m) == !mu.word(m));
            assert(wide.word(m) == chi.word(m) | a.mask.word(m));
            assert(chi.word(m) == sigma.word(m) ^ sv.word(m));
            assert(sigma.word(m) == tnum::plus(sm.word(m), sv.word(m)));
        }
    }
    SymTnum { value, mask: mu }
}

/// Encodes `Tnum::sub`.
pub fn encode_sub(a: &SymTnum, b: &SymTnum) -> (r: SymTnum)
    requires
        a.wf(),
        b.wf(),
    ensures
        r.wf(),
        forall|m: Assignment| #[trigger] r.at(m) == a.at(m).subtracted(b.at(m)),
{
    let dv: Word = a.value.minus(&b.value);
    let alpha: Word = dv.plus(&a.mask);
    let beta: Word = dv.minus(&b.mask);
    let chi: Word = alpha.xor(&beta);
    let wide: Word = chi.or(&a.mask);
    let mu: Word = wide.or(&b.mask);
    let known: Word = mu.not();
    let value: Word = dv.and(&known);
    proof {
        assert forall|m: Assignment|
            (Tnum { value: #[trigger] value.word(m), mask: mu.word(m) }) == a.at(m).subtracted(
                b.at(m),
            ) by {
            assert(known.word(m) == !mu.word(m));
            assert(wide.word(m) == chi.word(m) | a.mask.word(m));
            assert(chi.word(m) == alpha.word(m) ^ beta.word(m));
            assert(alpha.word(m) == tnum::plus(dv.word(m), a.mask.word(m)));
            assert(beta.word(m) == tnum::minus(dv.word(m), b.mask.word(m)));
        }
    }
    SymTnum { value, mask: mu }
}

/// Encodes `Tnum::xor`.
pub fn encode_xor(a: &SymTnum, b: &SymTnum) -> (r: SymTnum)
    requires
        a.wf(),
        b.wf(),
    ensures
        r.wf(),
        forall|m: Assignment| #[trigger] r.at(m) == a.at(m).xored(b.at(m)),
{
    let both: Word = a.value.xor(&b.value);
    let mask: Word = a.mask.or(&b.mask);
    let known: Word = mask.not();
    let value: Word = both.and(&known);
    proof {
        assert forall|m: Assignment|
            (Tnum { value: #[trigger] value.word(m), mask: mask.word(m) }) == a.at(m).xored(b.at(m)) by {
            assert(known.word(m) == !mask.word(m));
            assert(both.word(m) == a.value.word(m) ^ b.value.word(m));
        }
    }
    SymTnum { value, mask }
}

/// Encodes `Tnum::and`.
pub fn encode_and(a: &SymTnum, b: &SymTnum) -> (r: SymTnum)
    requires
        a.wf(),
        b.wf(),
    ensures
        r.wf(),
        forall|m: Assignment| #[trigger] r.at(m) == a.at(m).anded(b.at(m)),
{
    let alpha: Word = a.value.or(&a.mask);
    let beta: Word = b.value.or(&b.mask);
    let value: Word = a.value.and(&b.value);
    let possible: Word = alpha.and(&beta);
    let mask: Word = possible.xor(&value);
    proof {
        assert forall|m: Assignment|
            (Tnum { value: value.word(m), mask: #[trigger] mask.word(m) }) == a.at(m).anded(b.at(m)) by {
            assert(possible.word(m) == alpha.word(m) & beta.word(m));
            assert(alpha.word(m) == a.value.word(m) | a.mask.word(m));
            assert(beta.word(m) == b.value.word(m) | b.mask.word(m));
        }
    }
    SymTnum { value, mask }
}

/// Encodes `Tnum::or`.
pub fn encode_or(a: &SymTnum, b: &SymTnum) -> (r: SymTnum)
    requires
        a.wf(),
        b.wf(),
    ensures
        r.wf(),
        forall|m: Assignment| #[trigger] r.at(m) == a.at(m).ored(b.at(m)),
{
    let a_known: Word = a.mask.not();
    let b_known: Word = b.mask.not();
    let a_one: Word = a.value.and(&a_known);
    let b_one: Word = b.value.and(&b_known);
    let known_one: Word = a_one.or(&b_one);
    let a_zero: Word = a.value.not();
    let b_zero: Word = b.value.not();
    let z1: Word = a_zero.and(&a_known);
    let z2: Word = z1.and(&b_zero);
    let known_zero: Word = z2.and(&b_known);
    let known: Word = known_one.or(&known_zero);
    let mask: Word = known.not();
    proof {
        assert forall|m: Assignment|
            (Tnum { value: known_one.word(m), mask: #[trigger] mask.word(m) }) == a.at(m).ored(
                b.at(m),
            ) by {
            assert(known.word(m) == known_one.word(m) | known_zero.word(m));
            assert(known_one.word(m) == a_one.word(m) | b_one.word(m));
            assert(a_one.word(m) == a.value.word(m) & a_known.word(m));
            assert(b_one.word(m) == b.value.word(m) & b_known.word(m));
            assert(a_known.word(m) == !a.mask.word(m));
            assert(b_known.word(m) == !b.mask.word(m));
            assert(known_zero.word(m) == z2.word(m) & b_known.word(m));
            assert(z2.word(m) == z1.word(m) & b_zero.word(m));
            assert(z1.word(m) == a_zero.word(m) & a_known.word(m));
            assert(a_zero.word(m) == !a.value.word(m));
            assert(b_zero.word(m) == !b.value.word(m));
        }
    }
    SymTnum { value: known_one, mask }
}

/// Encodes `Tnum::lshift`; the amount is a term.
pub fn encode_lshift(a: &SymTnum, k: &Word) -> (r: SymTnum)
    requires
        a.wf(),
        k.bits() == 64,
    ensures
        r.wf(),
        forall|m: Assignment|
            k.word(m) < 64 ==> #[trigger] r.at(m) == a.at(m).lshifted(k.word(m)),
{
    let value: Word = a.value.shl(k);
    let mask: Word = a.mask.shl(k);
    proof {
        assert forall|m: Assignment| k.word(m) < 64 implies (Tnum {
            value: #[trigger] value.word(m),
            mask: mask.word(m),
        }) == a.at(m).lshifted(k.word(m)) by {
        }
    }
    SymTnum { value, mask }
}

/// Encodes `Tnum::rshift`; the amount is a term.
pub fn encode_rshift(a: &SymTnum, k: &Word) -> (r: SymTnum)
    requires
        a.wf(),
        k.bits() == 64,
    ensures
        r.wf(),
        forall|m: Assignment|
            k.word(m) < 64 ==> #[trigger] r.at(m) == a.at(m).rshifted(k.word(m)),
{
    let value: Word = a.value.lshr(k);
    let mask: Word = a.mask.lshr(k);
    SymTnum { value, mask }
}

/// Encodes `Tnum::arshift`; the amount is a term.
pub fn encode_arshift(a: &SymTnum, k: &Word) -> (r: SymTnum)
    requires
        a.wf(),
        k.bits() == 64,
    ensures
        r.wf(),
        forall|m: Assignment|
            k.word(m) < 64 ==> #[trigger] r.at(m) == a.at(m).arshifted(k.word(m)),
{
    let value: Word = a.value.ashr(k);
    let mask: Word = a.mask.ashr(k);
    SymTnum { value, mask }
}

/// The low 32 bits of a term.
fn low_half(w: &Word) -> (r: Word)
    requires
        w.bits() == 64,
    ensures
        r.bits() == 64,
        forall|m: Assignment| #[trigger] r.word(m) == w.word(m) & 0xffff_ffff,
{
    let low: Word = w.extract(31, 0);
    let r: Word = low.zero_ext(32);
    proof {
        word::lemma_widths();
        assert forall|m: Assignment| #[trigger] r.word(m) == w.word(m) & 0xffff_ffff by {
            r.lemma_word(m);
            w.lemma_word(m);
            assert(low.at(m) == (w.at(m) / 1) % 0x1_0000_0000);
            let x = w.word(m);
            assert(x & 0xffff_ffff == x % 0x1_0000_0000) by (bit_vector);
        }
    }
    r
}

/// Encodes `Tnum::subreg`.
pub fn encode_subreg(a: &SymTnum) -> (r: SymTnum)
    requires
        a.wf(),
    ensures
        r.wf(),
        forall|m: Assignment| #[trigger] r.at(m) == a.at(m).low_half(),
{
    let value: Word = low_half(&a.value);
    let mask: Word = low_half(&a.mask);
    SymTnum { value, mask }
}

/// The mask of a range, with at least the lowest `n` bits.
spec fn mask_from(c: u64, n: u64) -> u64 {
    tnum::below(c) | if n >= 64 {
        u64::MAX
    } else {
        ((1u64 << n) - 1) as u64
    }
}

proof fn lemma_mask_step(c: u64, n: u64)
    by (bit_vector)
    requires
        n < 63,
    ensures
        c < 1u64 << ((n + 1) as u64) ==> (((1u64 << ((n + 1) as u64)) - 1) as u64) == tnum::below(c) | (((
        1u64 << ((n + 1) as u64)) - 1) as u64),
        c >= 1u64 << ((n + 1) as u64) ==> tnum::below(c) | ((if n == 62 {
            0xffff_ffff_ffff_ffffu64
        } else {
            ((1u64 << ((n + 2) as u64)) - 1) as u64
        })) == tnum::below(c) | (((1u64 << ((n + 1) as u64)) - 1) as u64),
{
}

proof fn lemma_mask_ends(c: u64)
    by (bit_vector)
    ensures
        tnum::below(c) | 0xffff_ffff_ffff_ffffu64 == 0xffff_ffff_ffff_ffffu64,
        c != 0 ==> tnum::below(c) | 1 == tnum::below(c),
        tnum::below(0) == 0,
{
}

/// Encodes `Tnum::from_range`: the mask is chosen by the first power of two that
/// the difference of the bounds stays below.
pub fn encode_from_range(lo: &Word, hi: &Word) -> (r: SymTnum)
    requires
        lo.bits() == 64,
        hi.bits() == 64,
    ensures
        r.wf(),
        forall|m: Assignment| #[trigger]
            r.at(m) == Tnum::spanning(lo.word(m), hi.word(m)),
{
    let chi: Word = lo.xor(hi);
    let one: Word = Word::literal(1);
    let zero: Word = Word::literal(0);
    let mut mask: Word = Word::literal(u64::MAX);
    let mut n: u64 = 64;
    proof {
        assert forall|m: Assignment| #[trigger] mask.word(m) == mask_from(chi.word(m), 64) by {
            lemma_mask_ends(chi.word(m));
        }
    }
    while n > 1
        invariant
            1 <= n <= 64,
            chi.bits() == 64,
            one.bits() == 64,
            mask.bits() == 64,
            forall|m: Assignment| #[trigger] one.word(m) == 1,
            forall|m: Assignment| #[trigger] mask.word(m) == mask_from(chi.word(m), n),
        decreases n,
    {
        n = n - 1;
        let amount: Word = Word::literal(n);
        let limit: Word = one.shl(&amount);
        let below: Claim = chi.ult(&limit);
        let narrow: Word = limit.minus(&one);
        let next: Word = below.choose_word(&narrow, &mask);
        proof {
            assert forall|m: Assignment| #[trigger] next.word(m) == mask_from(chi.word(m), n) by {
                let c = chi.word(m);
                chi.lemma_word(m);
                limit.lemma_word(m);
                narrow.lemma_word(m);
                mask.lemma_word(m);
                next.lemma_word(m);
                assert(amount.word(m) == n);
                assert(limit.word(m) == 1u64 << n);
                assert(narrow.word(m) == tnum::minus(limit.word(m), one.word(m)));
                assert(below.holds(m) == (c < 1u64 << n));
                lemma_mask_step(c, (n - 1) as u64);
                assert(mask.word(m) == mask_from(c, (n + 1) as u64));
            }
        }
        mask = next;
    }
    let is_const: Claim = chi.equals(&zero);
    let last: Word = is_const.choose_word(&zero, &mask);
    let known: Word = last.not();
    let value: Word = lo.and(&known);
    proof {
        assert forall|m: Assignment|
            (Tnum { value: #[trigger] value.word(m), mask: last.word(m) }) == Tnum::spanning(
                lo.word(m),
                hi.word(m),
            ) by {
            let c = chi.word(m);
            chi.lemma_word(m);
            zero.lemma_word(m);
            mask.lemma_word(m);
            last.lemma_word(m);
            assert(known.word(m) == !last.word(m));
            lemma_mask_ends(c);
            assert(1u64 << 1u64 == 2u64) by (bit_vector);
            assert(c == lo.word(m) ^ hi.word(m));
            assert(mask.word(m) == mask_from(c, 1));
            assert(((1u64 << 1u64) - 1) as u64 == 1u64);
        }
    }
    SymTnum { value, mask: last }
}

} // verus!
