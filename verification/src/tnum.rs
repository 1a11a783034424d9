//! Tracked numbers: what is known of a 64-bit value, bit by bit.
//!
//! A tracked number has a value and a mask. A bit of the mask is set where the
//! bit is unknown; elsewhere it is the bit of the value. Each operator covers
//! every result of the operation on values that its operands cover.

use vstd::prelude::*;

verus! {

/// A tracked number.
#[derive(Debug, Clone, Copy, PartialEq, Eq, Structural)]
pub struct Tnum {
    /// The known bits.
    pub value: u64,
    /// The unknown bits.
    pub mask: u64,
}

// ── Words ───────────────────────────────────────────────────────────────────

/// Addition modulo 2^64.
pub open spec fn plus(x: u64, y: u64) -> u64 {
    (x + y) as u64
}

/// Subtraction modulo 2^64.
pub open spec fn minus(x: u64, y: u64) -> u64 {
    (x - y) as u64
}

/// Multiplication modulo 2^64.
pub open spec fn times(x: u64, y: u64) -> u64 {
    (x * y) as u64
}

/// The arithmetic right shift, on the bits of a word.
pub open spec fn ashr(x: u64, k: u64) -> u64 {
    ((x as i64) >> k) as u64
}

pub proof fn lemma_plus(x: u64, y: u64)
    by (bit_vector)
    ensures
        x + y > 0xffff_ffff_ffff_ffff ==> (x + y) as u64 == x + y - 0x1_0000_0000_0000_0000,
        x + y <= 0xffff_ffff_ffff_ffff ==> (x + y) as u64 == x + y,
{
}

pub proof fn lemma_minus(x: u64, y: u64)
    by (bit_vector)
    ensures
        x < y ==> (x - y) as u64 == x - y + 0x1_0000_0000_0000_0000,
        x >= y ==> (x - y) as u64 == x - y,
{
}

/// Addition modulo 2^64.
pub fn add64(x: u64, y: u64) -> (r: u64)
    ensures
        r == plus(x, y),
{
    proof {
        lemma_plus(x, y);
    }
    x.wrapping_add(y)
}

/// Subtraction modulo 2^64.
pub fn sub64(x: u64, y: u64) -> (r: u64)
    ensures
        r == minus(x, y),
{
    proof {
        lemma_minus(x, y);
    }
    x.wrapping_sub(y)
}

/// Multiplication modulo 2^64.
pub fn mul64(x: u64, y: u64) -> (r: u64)
    ensures
        r == times(x, y),
{
    proof {
        assert(0 <= x * y <= 0xffff_ffff_ffff_ffff * 0xffff_ffff_ffff_ffff) by (nonlinear_arith)
            requires
                x <= 0xffff_ffff_ffff_ffff,
                y <= 0xffff_ffff_ffff_ffff,
        ;
    }
    let wide: u128 = x as u128 * y as u128;
    wide as u64
}

// ── Operators ───────────────────────────────────────────────────────────────

impl Tnum {
    /// `x` agrees with the known bits.
    pub open spec fn covers(self, x: u64) -> bool {
        x & !self.mask == self.value & !self.mask
    }

    /// The value is free of unknown bits.
    pub open spec fn normalized(self) -> bool {
        self.value & self.mask == 0
    }

    pub open spec fn added(self, b: Tnum) -> Tnum {
        let sm = plus(self.mask, b.mask);
        let sv = plus(self.value, b.value);
        let sigma = plus(sm, sv);
        let chi = sigma ^ sv;
        let mu = (chi | self.mask) | b.mask;
        Tnum { value: sv & !mu, mask: mu }
    }

    pub open spec fn subtracted(self, b: Tnum) -> Tnum {
        let dv = minus(self.value, b.value);
        let alpha = plus(dv, self.mask);
        let beta = minus(dv, b.mask);
        let chi = alpha ^ beta;
        let mu = (chi | self.mask) | b.mask;
        Tnum { value: dv & !mu, mask: mu }
    }

    pub open spec fn xored(self, b: Tnum) -> Tnum {
        let value = self.value ^ b.value;
        let mask = self.mask | b.mask;
        Tnum { value: value & !mask, mask }
    }

    pub open spec fn anded(self, b: Tnum) -> Tnum {
        let alpha = self.value | self.mask;
        let beta = b.value | b.mask;
        let value = self.value & b.value;
        Tnum { value, mask: (alpha & beta) ^ value }
    }

    pub open spec fn ored(self, b: Tnum) -> Tnum {
        let known_one = (self.value & !self.mask) | (b.value & !b.mask);
        let known_zero = ((!self.value & !self.mask) & !b.value) & !b.mask;
        Tnum { value: known_one, mask: !(known_one | known_zero) }
    }

    pub open spec fn lshifted(self, k: u64) -> Tnum {
        Tnum { value: self.value << k, mask: self.mask << k }
    }

    pub open spec fn rshifted(self, k: u64) -> Tnum {
        Tnum { value: self.value >> k, mask: self.mask >> k }
    }

    pub open spec fn arshifted(self, k: u64) -> Tnum {
        Tnum { value: ashr(self.value, k), mask: ashr(self.mask, k) }
    }

    pub open spec fn low_half(self) -> Tnum {
        Tnum { value: self.value & 0xffff_ffff, mask: self.mask & 0xffff_ffff }
    }

    /// The sum: the carries fold into the mask.
    pub fn add(self, b: Tnum) -> (r: Tnum)
        ensures
            r == self.added(b),
    {
        let sm: u64 = add64(self.mask, b.mask);
        let sv: u64 = add64(self.value, b.value);
        let sigma: u64 = add64(sm, sv);
        let chi: u64 = sigma ^ sv;
        let mu: u64 = (chi | self.mask) | b.mask;
        Tnum { value: sv & !mu, mask: mu }
    }

    /// The difference.
    pub fn sub(self, b: Tnum) -> (r: Tnum)
        ensures
            r == self.subtracted(b),
    {
        let dv: u64 = sub64(self.value, b.value);
        let alpha: u64 = add64(dv, self.mask);
        let beta: u64 = sub64(dv, b.mask);
        let chi: u64 = alpha ^ beta;
        let mu: u64 = (chi | self.mask) | b.mask;
        Tnum { value: dv & !mu, mask: mu }
    }

    /// The exclusive or.
    pub fn xor(self, b: Tnum) -> (r: Tnum)
        ensures
            r == self.xored(b),
    {
        let value: u64 = self.value ^ b.value;
        let mask: u64 = self.mask | b.mask;
        Tnum { value: value & !mask, mask }
    }

    /// The bitwise and.
    pub fn and(self, b: Tnum) -> (r: Tnum)
        ensures
            r == self.anded(b),
    {
        let alpha: u64 = self.value | self.mask;
        let beta: u64 = b.value | b.mask;
        let value: u64 = self.value & b.value;
        Tnum { value, mask: (alpha & beta) ^ value }
    }

    /// The bitwise or.
    pub fn or(self, b: Tnum) -> (r: Tnum)
        ensures
            r == self.ored(b),
    {
        let known_one: u64 = (self.value & !self.mask) | (b.value & !b.mask);
        let known_zero: u64 = ((!self.value & !self.mask) & !b.value) & !b.mask;
        Tnum { value: known_one, mask: !(known_one | known_zero) }
    }

    /// The left shift by a constant.
    pub fn lshift(self, k: u32) -> (r: Tnum)
        requires
            k < 64,
        ensures
            r == self.lshifted(k as u64),
    {
        let k: u64 = k as u64;
        Tnum { value: self.value << k, mask: self.mask << k }
    }

    /// The logical right shift by a constant.
    pub fn rshift(self, k: u32) -> (r: Tnum)
        requires
            k < 64,
        ensures
            r == self.rshifted(k as u64),
    {
        let k: u64 = k as u64;
        Tnum { value: self.value >> k, mask: self.mask >> k }
    }

    /// The arithmetic right shift by a constant; the mask is shifted with its
    /// sign too.
    pub fn arshift(self, k: u32) -> (r: Tnum)
        requires
            k < 64,
        ensures
            r == self.arshifted(k as u64),
    {
        let k: u64 = k as u64;
        Tnum { value: ((self.value as i64) >> k) as u64, mask: ((self.mask as i64) >> k) as u64 }
    }

    /// The low 32 bits; the high ones become known to be zero.
    pub fn subreg(self) -> (r: Tnum)
        ensures
            r == self.low_half(),
    {
        Tnum { value: self.value & 0xffff_ffff, mask: self.mask & 0xffff_ffff }
    }

    /// What is known of the values from `lo` to `hi`: the bits above the
    /// highest one in which the two differ.
    pub fn from_range(lo: u64, hi: u64) -> (r: Tnum)
        ensures
            r == Tnum::spanning(lo, hi),
    {
        let c0: u64 = lo ^ hi;
        let c1: u64 = c0 | (c0 >> 1u64);
        let c2: u64 = c1 | (c1 >> 2u64);
        let c3: u64 = c2 | (c2 >> 4u64);
        let c4: u64 = c3 | (c3 >> 8u64);
        let c5: u64 = c4 | (c4 >> 16u64);
        let mask: u64 = c5 | (c5 >> 32u64);
        Tnum { value: lo & !mask, mask }
    }

    pub open spec fn spanning(lo: u64, hi: u64) -> Tnum {
        let mask = below(lo ^ hi);
        Tnum { value: lo & !mask, mask }
    }

    /// The product, by shifting and adding what each bit of `self` may
    /// contribute.
    pub fn mul(self, b: Tnum) -> (r: Tnum)
        ensures
            r == self.multiplied(b),
    {
        let product: u64 = mul64(self.value, b.value);
        let mut a: Tnum = self;
        let mut c: Tnum = b;
        let mut acc: Tnum = Tnum { value: 0, mask: 0 };
        let mut steps: u64 = 0;
        while steps < 64 && (a.value != 0 || a.mask != 0)
            invariant
                steps <= 64,
                contribution(a, c, acc, 64 - steps as int) == contribution(
                    self,
                    b,
                    Tnum { value: 0, mask: 0 },
                    64,
                ),
            decreases 64 - steps,
        {
            let av: u64 = a.value;
            let am: u64 = a.mask;
            if av & 1 == 1 {
                acc = acc.add(Tnum { value: 0, mask: c.mask });
            } else if am & 1 == 1 {
                acc = acc.add(Tnum { value: 0, mask: c.value | c.mask });
            }
            a = a.rshift(1);
            c = c.lshift(1);
            steps = steps + 1;
        }
        proof {
            if steps < 64 {
                assert(contribution(a, c, acc, 64 - steps as int) == acc);
            }
        }
        Tnum { value: product, mask: 0 }.add(acc)
    }

    pub open spec fn multiplied(self, b: Tnum) -> Tnum {
        Tnum { value: times(self.value, b.value), mask: 0 }.added(
            contribution(self, b, Tnum { value: 0, mask: 0 }, 64),
        )
    }
}

/// All the bits up to the highest one of `c`.
pub open spec fn below(c: u64) -> u64 {
    let c1 = c | (c >> 1u64);
    let c2 = c1 | (c1 >> 2u64);
    let c3 = c2 | (c2 >> 4u64);
    let c4 = c3 | (c3 >> 8u64);
    let c5 = c4 | (c4 >> 16u64);
    c5 | (c5 >> 32u64)
}

/// What one bit of `a` may contribute to a product beyond the product of the
/// values, with the other factor shifted to its place.
pub open spec fn partial(a: Tnum, b: Tnum, acc: Tnum) -> Tnum {
    if a.value & 1 == 1 {
        acc.added(Tnum { value: 0, mask: b.mask })
    } else if a.mask & 1 == 1 {
        acc.added(Tnum { value: 0, mask: b.value | b.mask })
    } else {
        acc
    }
}

/// What the lowest `n` bits of `a` may contribute; nothing where `a` is zero.
pub open spec fn contribution(a: Tnum, b: Tnum, acc: Tnum, n: int) -> Tnum
    decreases n,
{
    if n <= 0 || (a.value == 0 && a.mask == 0) {
        acc
    } else {
        contribution(a.rshifted(1), b.lshifted(1), partial(a, b, acc), n - 1)
    }
}

// ── Laws ────────────────────────────────────────────────────────────────────

/// The sum covers every sum.
pub proof fn add_is_sound(a: Tnum, b: Tnum, x: u64, y: u64)
    requires
        a.normalized(),
        b.normalized(),
        a.covers(x),
        b.covers(y),
    ensures
        a.added(b).covers(plus(x, y)),
        a.added(b).normalized(),
{
    let av = a.value;
    let am = a.mask;
    let bv = b.value;
    let bm = b.mask;
    assert({
        let sm = (am + bm) as u64;
        let sv = (av + bv) as u64;
        let sigma = (sm + sv) as u64;
        let chi = sigma ^ sv;
        let mu = (chi | am) | bm;
        ((x + y) as u64) & !mu == (sv & !mu) & !mu && (sv & !mu) & mu == 0
    }) by (bit_vector)
        requires
            av & am == 0,
            bv & bm == 0,
            x & !am == av & !am,
            y & !bm == bv & !bm,
    ;
}

/// The difference covers every difference.
pub proof fn sub_is_sound(a: Tnum, b: Tnum, x: u64, y: u64)
    requires
        a.normalized(),
        b.normalized(),
        a.covers(x),
        b.covers(y),
    ensures
        a.subtracted(b).covers(minus(x, y)),
        a.subtracted(b).normalized(),
{
    let av = a.value;
    let am = a.mask;
    let bv = b.value;
    let bm = b.mask;
    assert({
        let dv = (av - bv) as u64;
        let alpha = (dv + am) as u64;
        let beta = (dv - bm) as u64;
        let chi = alpha ^ beta;
        let mu = (chi | am) | bm;
        ((x - y) as u64) & !mu == (dv & !mu) & !mu && (dv & !mu) & mu == 0
    }) by (bit_vector)
        requires
            av & am == 0,
            bv & bm == 0,
            x & !am == av & !am,
            y & !bm == bv & !bm,
    ;
}

/// The bitwise operators cover every result.
pub proof fn bitwise_is_sound(a: Tnum, b: Tnum, x: u64, y: u64)
    requires
        a.normalized(),
        b.normalized(),
        a.covers(x),
        b.covers(y),
    ensures
        a.xored(b).covers(x ^ y),
        a.anded(b).covers(x & y),
        a.ored(b).covers(x | y),
        a.xored(b).normalized(),
        a.anded(b).normalized(),
        a.ored(b).normalized(),
{
    let av = a.value;
    let am = a.mask;
    let bv = b.value;
    let bm = b.mask;
    assert({
        let xm = am | bm;
        let xv = (av ^ bv) & !xm;
        let nv = av & bv;
        let nm = ((av | am) & (bv | bm)) ^ nv;
        let one = (av & !am) | (bv & !bm);
        let zero = ((!av & !am) & !bv) & !bm;
        let om = !(one | zero);
        &&& (x ^ y) & !xm == xv & !xm
        &&& (x & y) & !nm == nv & !nm
        &&& (x | y) & !om == one & !om
        &&& xv & xm == 0
        &&& nv & nm == 0
        &&& one & om == 0
    }) by (bit_vector)
        requires
            av & am == 0,
            bv & bm == 0,
            x & !am == av & !am,
            y & !bm == bv & !bm,
    ;
}

/// The shifts by a constant cover every result, of any tracked number.
pub proof fn shifts_are_sound(a: Tnum, k: u64, x: u64)
    requires
        a.covers(x),
        k < 64,
    ensures
        a.lshifted(k).covers(x << k),
        a.rshifted(k).covers(x >> k),
        a.arshifted(k).covers(ashr(x, k)),
{
    let av = a.value;
    let am = a.mask;
    assert({
        &&& (x << k) & !(am << k) == (av << k) & !(am << k)
        &&& (x >> k) & !(am >> k) == (av >> k) & !(am >> k)
        &&& (((x as i64) >> k) as u64) & !(((am as i64) >> k) as u64) == (((av as i64) >> k) as u64)
            & !(((am as i64) >> k) as u64)
    }) by (bit_vector)
        requires
            x & !am == av & !am,
            k < 64,
    ;
}

/// The low half covers the low half.
pub proof fn subreg_is_sound(a: Tnum, x: u64)
    requires
        a.covers(x),
    ensures
        a.low_half().covers(x & 0xffff_ffff),
{
    let av = a.value;
    let am = a.mask;
    assert((x & 0xffff_ffff) & !(am & 0xffff_ffff) == (av & 0xffff_ffff) & !(am & 0xffff_ffff))
        by (bit_vector)
        requires
            x & !am == av & !am,
    ;
}

/// The tracked number of a range covers the range.
pub proof fn from_range_is_sound(lo: u64, hi: u64, x: u64)
    requires
        lo <= x <= hi,
    ensures
        Tnum::spanning(lo, hi).covers(x),
        Tnum::spanning(lo, hi).normalized(),
{
    assert(x & !below(lo ^ hi) == (lo & !below(lo ^ hi)) & !below(lo ^ hi) && (lo & !below(lo ^ hi))
        & below(lo ^ hi) == 0) by (bit_vector)
        requires
            lo <= x <= hi,
    ;
}

/// No tracked number whose known bits are a prefix, and which covers both ends
/// of a range, has fewer unknown bits than the tracked number of the range.
pub proof fn from_range_is_least(lo: u64, hi: u64, t: Tnum)
    requires
        t.covers(lo),
        t.covers(hi),
        t.mask & plus(t.mask, 1) == 0,
    ensures
        Tnum::spanning(lo, hi).mask <= t.mask,
{
    let tv = t.value;
    let tm = t.mask;
    assert(below(lo ^ hi) <= tm) by (bit_vector)
        requires
            lo & !tm == tv & !tm,
            hi & !tm == tv & !tm,
            tm & ((tm + 1) as u64) == 0,
    ;
}

// The product. With `x` covered by `a` and `y` by `b`, the product `x * y`
// exceeds the product of the values by the sum, over the bits of `x`, of what
// `partial` covers.

/// The number of words.
spec fn words() -> int {
    0x1_0000_0000_0000_0000
}

pub proof fn lemma_times(x: u64, y: u64)
    ensures
        times(x, y) == (x * y) % 0x1_0000_0000_0000_0000,
{
    let wide: u128 = (x * y) as u128;
    assert(0 <= x * y <= 0xffff_ffff_ffff_ffff * 0xffff_ffff_ffff_ffff) by (nonlinear_arith)
        requires
            x <= 0xffff_ffff_ffff_ffff,
            y <= 0xffff_ffff_ffff_ffff,
    ;
    assert((wide as u64) == wide % 0x1_0000_0000_0000_0000u128) by (bit_vector);
}

/// One step: the bits of the factors, what the step contributes, and that it is
/// covered.
proof fn lemma_step(av: u64, am: u64, bv: u64, bm: u64, x: u64, y: u64, t: u64)
    by (bit_vector)
    requires
        av & am == 0,
        bv & bm == 0,
        x & !am == av & !am,
        y & !bm == bv & !bm,
        t == if av & 1 == 1 {
            (y - bv) as u64
        } else if x & 1 == 1 {
            y
        } else {
            0
        },
    ensures
        x == 2 * (x >> 1u64) + (x & 1),
        av == 2 * (av >> 1u64) + (av & 1),
        x & 1 == 0 || x & 1 == 1,
        av & 1 == 0 || av & 1 == 1,
        av & 1 == 1 ==> x & 1 == 1,
        av & 1 == 1 ==> y >= bv,
        x & 1 == 1 ==> av & 1 == 1 || am & 1 == 1,
        av & 1 == 1 ==> t & !bm == 0 & !bm,
        av & 1 == 0 && am & 1 == 1 ==> t & !(bv | bm) == 0 & !(bv | bm),
        (av >> 1u64) & (am >> 1u64) == 0,
        (bv << 1u64) & (bm << 1u64) == 0,
        (x >> 1u64) & !(am >> 1u64) == (av >> 1u64) & !(am >> 1u64),
        (y << 1u64) & !(bm << 1u64) == (bv << 1u64) & !(bm << 1u64),
        y << 1u64 == 2 * y || y << 1u64 == 2 * y - 0x1_0000_0000_0000_0000,
        bv << 1u64 == 2 * bv || bv << 1u64 == 2 * bv - 0x1_0000_0000_0000_0000,
{
}

/// What stays of a congruence when one bit of the factors is used up.
proof fn lemma_shift_product(x: int, x1: int, x0: int, y: int, y2: int, carry: int)
    by (nonlinear_arith)
    requires
        x == 2 * x1 + x0,
        y2 == 2 * y - carry * 0x1_0000_0000_0000_0000,
    ensures
        x * y == x1 * y2 + x0 * y + (x1 * carry) * 0x1_0000_0000_0000_0000,
{
}

/// The contributions of the remaining bits cover what the product still lacks.
proof fn lemma_contribution(a: Tnum, b: Tnum, acc: Tnum, n: int, x: u64, y: u64, s: u64)
    requires
        a.normalized(),
        b.normalized(),
        acc.normalized(),
        a.covers(x),
        b.covers(y),
        acc.covers(s),
        0 <= n <= 64,
        n < 64 ==> a.value >> (n as u64) == 0 && a.mask >> (n as u64) == 0 && x >> (n as u64) == 0,
    ensures
        contribution(a, b, acc, n).normalized(),
        contribution(a, b, acc, n).covers(
            ((s + x * y - a.value * b.value) % words()) as u64,
        ),
    decreases n,
{
    let av = a.value;
    let am = a.mask;
    let bv = b.value;
    let bm = b.mask;
    if n == 0 {
        let z = n as u64;
        assert(x == 0 && av == 0 && am == 0) by (bit_vector)
            requires
                x >> z == 0,
                av >> z == 0,
                am >> z == 0,
                z == 0u64,
        ;
    }
    if n == 0 || (av == 0 && am == 0) {
        assert(x == 0) by (bit_vector)
            requires
                x & !am == av & !am,
                av == 0,
                am == 0,
        ;
        assert(x * y == 0 && av * bv == 0) by (nonlinear_arith)
            requires
                x == 0,
                av == 0,
        ;
        assert((s + x * y - av * bv) % words() == s);
    } else {
        let t: u64 = if av & 1 == 1 {
            (y - bv) as u64
        } else if x & 1 == 1 {
            y
        } else {
            0
        };
        lemma_step(av, am, bv, bm, x, y, t);
        let x1 = x >> 1u64;
        let x0 = x & 1;
        let a1 = av >> 1u64;
        let a0 = av & 1;
        let y2 = y << 1u64;
        let b2 = bv << 1u64;
        let cy: int = if y2 == 2 * y { 0 } else { 1 };
        let cb: int = if b2 == 2 * bv { 0 } else { 1 };
        lemma_shift_product(x as int, x1 as int, x0 as int, y as int, y2 as int, cy);
        lemma_shift_product(av as int, a1 as int, a0 as int, bv as int, b2 as int, cb);
        lemma_minus(y, bv);
        assert(t == x0 * y - a0 * bv) by (nonlinear_arith)
            requires
                x0 == 0 || x0 == 1,
                a0 == 0 || a0 == 1,
                a0 == 1 ==> x0 == 1,
                a0 == 1 ==> t == y - bv,
                a0 == 0 && x0 == 1 ==> t == y,
                a0 == 0 && x0 == 0 ==> t == 0,
        ;
        let s2 = plus(s, t);
        lemma_plus(s, t);
        let next = partial(a, b, acc);
        if av & 1 == 1 {
            let add = Tnum { value: 0, mask: bm };
            assert(0u64 & bm == 0) by (bit_vector);
            add_is_sound(acc, add, s, t);
        } else if am & 1 == 1 {
            let m = bv | bm;
            let add = Tnum { value: 0, mask: m };
            assert(0u64 & m == 0) by (bit_vector);
            add_is_sound(acc, add, s, t);
        } else {
            assert(t == 0);
        }
        assert(next.covers(s2) && next.normalized());
        let k = (n - 1) as u64;
        assert((av >> 1u64) >> k == 0 && (am >> 1u64) >> k == 0 && (x >> 1u64) >> k == 0) by (bit_vector)
            requires
                k < 64,
                k < 63 ==> av >> ((k + 1) as u64) == 0 && am >> ((k + 1) as u64) == 0 && x >> ((k
                    + 1) as u64) == 0,
        ;
        lemma_contribution(a.rshifted(1), b.lshifted(1), next, n - 1, x1, y2, s2);
        let carry_s: int = if s + t > 0xffff_ffff_ffff_ffff { 1 } else { 0 };
        let p = x1 * y2;
        let q = a1 * b2;
        let u = x1 * cy;
        let v = a1 * cb;
        assert(s + x * y - av * bv == s2 + p - q + (u - v + carry_s) * words());
        vstd::arithmetic::div_mod::lemma_mod_multiples_vanish(u - v + carry_s, s2 + p - q, words());
        assert((s + x * y - av * bv) % words() == (s2 + x1 * y2 - a1 * b2) % words());
    }
}

/// The product covers every product.
pub proof fn mul_is_sound(a: Tnum, b: Tnum, x: u64, y: u64)
    requires
        a.normalized(),
        b.normalized(),
        a.covers(x),
        b.covers(y),
    ensures
        a.multiplied(b).covers(times(x, y)),
        a.multiplied(b).normalized(),
{
    let none = Tnum { value: 0, mask: 0 };
    assert(0u64 & 0u64 == 0u64 && 0u64 & !0u64 == 0u64) by (bit_vector);
    lemma_contribution(a, b, none, 64, x, y, 0);
    let s = ((x * y - a.value * b.value) % words()) as u64;
    let product = times(a.value, b.value);
    lemma_times(a.value, b.value);
    lemma_times(x, y);
    let exact = Tnum { value: product, mask: 0 };
    assert(product & 0u64 == 0) by (bit_vector);
    add_is_sound(exact, contribution(a, b, none, 64), product, s);
    lemma_plus(product, s);
    let p = x * y;
    let q = a.value * b.value;
    assert((q % words() + (p - q) % words()) % words() == p % words());
}

} // verus!
