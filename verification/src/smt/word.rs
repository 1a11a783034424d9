//! Bit-vector terms of the solver, with what they stand for.
//!
//! A term is a value of the solver together with the number that it denotes
//! under each assignment of the variables. The functions here build terms one
//! operator at a time; that the solver's operators compute what their contracts
//! say is trusted.

use vstd::arithmetic::power2::pow2;
use vstd::prelude::*;

use crate::tnum;

use z3::ast::{Bool, BV};
use z3::{Model, SatResult, Solver};

verus! {

/// A bit-vector of the solver.
#[verifier::external_type_specification]
#[verifier::external_body]
pub struct ExBitVector(z3::ast::BV);

/// A formula of the solver.
#[verifier::external_type_specification]
#[verifier::external_body]
pub struct ExFormula(z3::ast::Bool);

/// The solver.
#[verifier::external_type_specification]
#[verifier::external_body]
pub struct ExSolver(z3::Solver);

/// A model of the solver.
#[verifier::external_type_specification]
#[verifier::external_body]
pub struct ExModel(z3::Model);

/// An assignment: a value for each variable.
pub type Assignment = Map<int, nat>;

/// A bit-vector term.
pub struct Word {
    bv: BV,
    width: u32,
    meaning: Ghost<spec_fn(Assignment) -> nat>,
}

/// A formula.
pub struct Claim {
    formula: Bool,
    meaning: Ghost<spec_fn(Assignment) -> bool>,
}

impl Word {
    /// The number of bits.
    pub closed spec fn bits(self) -> nat {
        self.width as nat
    }

    /// The number that the term denotes.
    pub closed spec fn at(self, m: Assignment) -> nat {
        (self.meaning@)(m) % pow2(self.width as nat)
    }

    /// The number that a term of 64 bits denotes, as a word.
    pub open spec fn word(self, m: Assignment) -> u64 {
        self.at(m) as u64
    }

    /// The number of bits.
    pub fn size(&self) -> (n: u32)
        ensures
            n == self.bits(),
    {
        self.width
    }

    /// `BV::fresh_const`: a variable of `width` bits. What it denotes is left
    /// open.
    #[verifier::external_body]
    pub(crate) fn fresh(prefix: &str, width: u32) -> (r: Word)
        requires
            width > 0,
            !prefix@.contains('\0'),
        ensures
            r.bits() == width,
    {
        Word { bv: BV::fresh_const(prefix, width), width, meaning: Ghost(arbitrary()) }
    }

    /// `BV::from_u64`: a constant of `width` bits. Nothing is said of a number
    /// that does not fit.
    #[verifier::external_body]
    pub(crate) fn constant(v: u64, width: u32) -> (r: Word)
        requires
            width > 0,
        ensures
            r.bits() == width,
            v < pow2(width as nat) ==> forall|m: Assignment| #[trigger] r.at(m) == v,
    {
        Word { bv: BV::from_u64(v, width), width, meaning: Ghost(arbitrary()) }
    }

    /// `BV::bvnot`: the complement.
    #[verifier::external_body]
    pub(crate) fn not(&self) -> (r: Word)
        requires
            self.bits() == 64,
        ensures
            r.bits() == 64,
            forall|m: Assignment| #[trigger] r.word(m) == !self.word(m),
    {
        Word { bv: self.bv.bvnot(), width: self.width, meaning: Ghost(arbitrary()) }
    }

    /// `BV::bvand`: the bitwise and.
    #[verifier::external_body]
    pub(crate) fn and(&self, other: &Word) -> (r: Word)
        requires
            self.bits() == 64,
            other.bits() == 64,
        ensures
            r.bits() == 64,
            forall|m: Assignment| #[trigger] r.word(m) == self.word(m) & other.word(m),
    {
        Word { bv: self.bv.bvand(&other.bv), width: self.width, meaning: Ghost(arbitrary()) }
    }

    /// `BV::bvor`: the bitwise or.
    #[verifier::external_body]
    pub(crate) fn or(&self, other: &Word) -> (r: Word)
        requires
            self.bits() == 64,
            other.bits() == 64,
        ensures
            r.bits() == 64,
            forall|m: Assignment| #[trigger] r.word(m) == self.word(m) | other.word(m),
    {
        Word { bv: self.bv.bvor(&other.bv), width: self.width, meaning: Ghost(arbitrary()) }
    }

    /// `BV::bvxor`: the bitwise exclusive or.
    #[verifier::external_body]
    pub(crate) fn xor(&self, other: &Word) -> (r: Word)
        requires
            self.bits() == 64,
            other.bits() == 64,
        ensures
            r.bits() == 64,
            forall|m: Assignment| #[trigger] r.word(m) == self.word(m) ^ other.word(m),
    {
        Word { bv: self.bv.bvxor(&other.bv), width: self.width, meaning: Ghost(arbitrary()) }
    }

    /// `BV::bvadd`: the sum, modulo the number of values of that width.
    #[verifier::external_body]
    pub(crate) fn add(&self, other: &Word) -> (r: Word)
        requires
            self.bits() == other.bits(),
        ensures
            r.bits() == self.bits(),
            forall|m: Assignment| #[trigger]
                r.at(m) == (self.at(m) + other.at(m)) % pow2(self.bits()),
    {
        Word { bv: self.bv.bvadd(&other.bv), width: self.width, meaning: Ghost(arbitrary()) }
    }

    /// `BV::bvsub`: the difference, modulo the number of values of that width.
    #[verifier::external_body]
    pub(crate) fn sub(&self, other: &Word) -> (r: Word)
        requires
            self.bits() == other.bits(),
        ensures
            r.bits() == self.bits(),
            forall|m: Assignment| #[trigger]
                r.at(m) == (self.at(m) - other.at(m)) % (pow2(self.bits()) as int),
    {
        Word { bv: self.bv.bvsub(&other.bv), width: self.width, meaning: Ghost(arbitrary()) }
    }

    /// `BV::bvmul`: the product, modulo the number of values of that width.
    #[verifier::external_body]
    pub(crate) fn mul(&self, other: &Word) -> (r: Word)
        requires
            self.bits() == other.bits(),
        ensures
            r.bits() == self.bits(),
            forall|m: Assignment| #[trigger]
                r.at(m) == (self.at(m) * other.at(m)) % pow2(self.bits()),
    {
        Word { bv: self.bv.bvmul(&other.bv), width: self.width, meaning: Ghost(arbitrary()) }
    }

    /// `BV::bvshl`: the left shift. Nothing is said of a shift by the width or
    /// more.
    #[verifier::external_body]
    pub(crate) fn shl(&self, other: &Word) -> (r: Word)
        requires
            self.bits() == 64,
            other.bits() == 64,
        ensures
            r.bits() == 64,
            forall|m: Assignment|
                other.word(m) < 64 ==> #[trigger] r.word(m) == self.word(m) << other.word(m),
    {
        Word { bv: self.bv.bvshl(&other.bv), width: self.width, meaning: Ghost(arbitrary()) }
    }

    /// `BV::bvlshr`: the right shift that fills with zeros. Nothing is said of a
    /// shift by the width or more.
    #[verifier::external_body]
    pub(crate) fn lshr(&self, other: &Word) -> (r: Word)
        requires
            self.bits() == 64,
            other.bits() == 64,
        ensures
            r.bits() == 64,
            forall|m: Assignment|
                other.word(m) < 64 ==> #[trigger] r.word(m) == self.word(m) >> other.word(m),
    {
        Word { bv: self.bv.bvlshr(&other.bv), width: self.width, meaning: Ghost(arbitrary()) }
    }

    /// `BV::bvashr`: the right shift that fills with the sign. Nothing is said of
    /// a shift by the width or more.
    #[verifier::external_body]
    pub(crate) fn ashr(&self, other: &Word) -> (r: Word)
        requires
            self.bits() == 64,
            other.bits() == 64,
        ensures
            r.bits() == 64,
            forall|m: Assignment|
                other.word(m) < 64 ==> #[trigger] r.word(m) == ((self.word(m) as i64)
                    >> other.word(m)) as u64,
    {
        Word { bv: self.bv.bvashr(&other.bv), width: self.width, meaning: Ghost(arbitrary()) }
    }

    /// `BV::extract`: the bits from `low` to `high`, with the width that
    /// `BV::get_size` gives.
    #[verifier::external_body]
    pub(crate) fn extract(&self, high: u32, low: u32) -> (r: Word)
        requires
            low <= high < self.bits(),
        ensures
            r.bits() == high - low + 1,
            forall|m: Assignment| #[trigger]
                r.at(m) == (self.at(m) / pow2(low as nat)) % pow2((high - low + 1) as nat),
    {
        let bv: BV = self.bv.extract(high, low);
        let width: u32 = bv.get_size();
        Word { bv, width, meaning: Ghost(arbitrary()) }
    }

    /// `BV::zero_ext`: the same number with `i` more bits, with the width that
    /// `BV::get_size` gives.
    #[verifier::external_body]
    pub(crate) fn zero_ext(&self, i: u32) -> (r: Word)
        requires
            self.bits() + i <= u32::MAX,
        ensures
            r.bits() == self.bits() + i,
            forall|m: Assignment| #[trigger] r.at(m) == self.at(m),
    {
        let bv: BV = self.bv.zero_ext(i);
        let width: u32 = bv.get_size();
        Word { bv, width, meaning: Ghost(arbitrary()) }
    }

    /// `BV::sign_ext`: the same signed number with `i` more bits, with the width
    /// that `BV::get_size` gives.
    #[verifier::external_body]
    pub(crate) fn sign_ext(&self, i: u32) -> (r: Word)
        requires
            0 < self.bits(),
            self.bits() + i <= u32::MAX,
        ensures
            r.bits() == self.bits() + i,
            forall|m: Assignment| #[trigger]
                r.at(m) == if self.at(m) < pow2((self.bits() - 1) as nat) {
                    self.at(m) as int
                } else {
                    self.at(m) + pow2((self.bits() + i) as nat) - pow2(self.bits())
                },
    {
        let bv: BV = self.bv.sign_ext(i);
        let width: u32 = bv.get_size();
        Word { bv, width, meaning: Ghost(arbitrary()) }
    }

    /// `BV::eq`: the two denote the same number.
    #[verifier::external_body]
    pub(crate) fn equals(&self, other: &Word) -> (c: Claim)
        requires
            self.bits() == other.bits(),
        ensures
            forall|m: Assignment| #[trigger] c.holds(m) == (self.at(m) == other.at(m)),
    {
        Claim { formula: self.bv.eq(&other.bv), meaning: Ghost(arbitrary()) }
    }

    /// `BV::bvult`: unsigned less than.
    #[verifier::external_body]
    pub(crate) fn ult(&self, other: &Word) -> (c: Claim)
        requires
            self.bits() == other.bits(),
        ensures
            forall|m: Assignment| #[trigger] c.holds(m) == (self.at(m) < other.at(m)),
    {
        Claim { formula: self.bv.bvult(&other.bv), meaning: Ghost(arbitrary()) }
    }

    /// `BV::bvule`: unsigned less than or equal.
    #[verifier::external_body]
    pub(crate) fn ule(&self, other: &Word) -> (c: Claim)
        requires
            self.bits() == other.bits(),
        ensures
            forall|m: Assignment| #[trigger] c.holds(m) == (self.at(m) <= other.at(m)),
    {
        Claim { formula: self.bv.bvule(&other.bv), meaning: Ghost(arbitrary()) }
    }

    /// `BV::bvugt`: unsigned greater than.
    #[verifier::external_body]
    pub(crate) fn ugt(&self, other: &Word) -> (c: Claim)
        requires
            self.bits() == other.bits(),
        ensures
            forall|m: Assignment| #[trigger] c.holds(m) == (self.at(m) > other.at(m)),
    {
        Claim { formula: self.bv.bvugt(&other.bv), meaning: Ghost(arbitrary()) }
    }

    /// `BV::bvuge`: unsigned greater than or equal.
    #[verifier::external_body]
    pub(crate) fn uge(&self, other: &Word) -> (c: Claim)
        requires
            self.bits() == other.bits(),
        ensures
            forall|m: Assignment| #[trigger] c.holds(m) == (self.at(m) >= other.at(m)),
    {
        Claim { formula: self.bv.bvuge(&other.bv), meaning: Ghost(arbitrary()) }
    }

    /// `BV::bvslt`: signed less than.
    #[verifier::external_body]
    pub(crate) fn slt(&self, other: &Word) -> (c: Claim)
        requires
            self.bits() == 64,
            other.bits() == 64,
        ensures
            forall|m: Assignment| #[trigger]
                c.holds(m) == ((self.word(m) as i64) < (other.word(m) as i64)),
    {
        Claim { formula: self.bv.bvslt(&other.bv), meaning: Ghost(arbitrary()) }
    }

    /// `BV::bvsle`: signed less than or equal.
    #[verifier::external_body]
    pub(crate) fn sle(&self, other: &Word) -> (c: Claim)
        requires
            self.bits() == 64,
            other.bits() == 64,
        ensures
            forall|m: Assignment| #[trigger]
                c.holds(m) == ((self.word(m) as i64) <= (other.word(m) as i64)),
    {
        Claim { formula: self.bv.bvsle(&other.bv), meaning: Ghost(arbitrary()) }
    }

    /// `BV::bvsgt`: signed greater than.
    #[verifier::external_body]
    pub(crate) fn sgt(&self, other: &Word) -> (c: Claim)
        requires
            self.bits() == 64,
            other.bits() == 64,
        ensures
            forall|m: Assignment| #[trigger]
                c.holds(m) == ((self.word(m) as i64) > (other.word(m) as i64)),
    {
        Claim { formula: self.bv.bvsgt(&other.bv), meaning: Ghost(arbitrary()) }
    }

    /// `BV::bvsge`: signed greater than or equal.
    #[verifier::external_body]
    pub(crate) fn sge(&self, other: &Word) -> (c: Claim)
        requires
            self.bits() == 64,
            other.bits() == 64,
        ensures
            forall|m: Assignment| #[trigger]
                c.holds(m) == ((self.word(m) as i64) >= (other.word(m) as i64)),
    {
        Claim { formula: self.bv.bvsge(&other.bv), meaning: Ghost(arbitrary()) }
    }
}

// ── Arithmetic on 64 bits ───────────────────────────────────────────────────

impl Word {
    /// The sum of two terms of 64 bits.
    pub fn plus(&self, other: &Word) -> (r: Word)
        requires
            self.bits() == 64,
            other.bits() == 64,
        ensures
            r.bits() == 64,
            forall|m: Assignment| #[trigger]
                r.word(m) == tnum::plus(self.word(m), other.word(m)),
    {
        let r: Word = self.add(other);
        proof {
            lemma_widths();
            assert forall|m: Assignment| #[trigger]
                r.word(m) == tnum::plus(self.word(m), other.word(m)) by {
                r.lemma_word(m);
                self.lemma_word(m);
                other.lemma_word(m);
                tnum::lemma_plus(self.word(m), other.word(m));
            }
        }
        r
    }

    /// The difference of two terms of 64 bits.
    pub fn minus(&self, other: &Word) -> (r: Word)
        requires
            self.bits() == 64,
            other.bits() == 64,
        ensures
            r.bits() == 64,
            forall|m: Assignment| #[trigger]
                r.word(m) == tnum::minus(self.word(m), other.word(m)),
    {
        let r: Word = self.sub(other);
        proof {
            lemma_widths();
            assert forall|m: Assignment| #[trigger]
                r.word(m) == tnum::minus(self.word(m), other.word(m)) by {
                r.lemma_word(m);
                self.lemma_word(m);
                other.lemma_word(m);
                tnum::lemma_minus(self.word(m), other.word(m));
            }
        }
        r
    }

    /// The product of two terms of 64 bits.
    pub fn times(&self, other: &Word) -> (r: Word)
        requires
            self.bits() == 64,
            other.bits() == 64,
        ensures
            r.bits() == 64,
            forall|m: Assignment| #[trigger]
                r.word(m) == tnum::times(self.word(m), other.word(m)),
    {
        let r: Word = self.mul(other);
        proof {
            lemma_widths();
            assert forall|m: Assignment| #[trigger]
                r.word(m) == tnum::times(self.word(m), other.word(m)) by {
                r.lemma_word(m);
                self.lemma_word(m);
                other.lemma_word(m);
                tnum::lemma_times(self.word(m), other.word(m));
            }
        }
        r
    }

    /// The constant `v` of 64 bits.
    pub fn literal(v: u64) -> (r: Word)
        ensures
            r.bits() == 64,
            forall|m: Assignment| #[trigger] r.word(m) == v,
            forall|m: Assignment| #[trigger] r.at(m) == v,
    {
        proof {
            lemma_widths();
        }
        let r: Word = Word::constant(v, 64);
        r
    }
}

impl Claim {
    /// The formula is true.
    pub closed spec fn holds(self, m: Assignment) -> bool {
        (self.meaning@)(m)
    }

    /// `Bool::not`: the negation.
    #[verifier::external_body]
    pub(crate) fn not(&self) -> (c: Claim)
        ensures
            forall|m: Assignment| #[trigger] c.holds(m) == !self.holds(m),
    {
        Claim { formula: self.formula.not(), meaning: Ghost(arbitrary()) }
    }

    /// `Bool::and`: the conjunction of two formulas.
    #[verifier::external_body]
    pub(crate) fn and(&self, other: &Claim) -> (c: Claim)
        ensures
            forall|m: Assignment| #[trigger] c.holds(m) == (self.holds(m) && other.holds(m)),
    {
        Claim { formula: Bool::and(&[&self.formula, &other.formula]), meaning: Ghost(arbitrary()) }
    }

    /// `Bool::ite`: one term where the formula is true, another elsewhere.
    #[verifier::external_body]
    pub(crate) fn choose_word(&self, yes: &Word, no: &Word) -> (r: Word)
        requires
            yes.bits() == no.bits(),
        ensures
            r.bits() == yes.bits(),
            forall|m: Assignment| #[trigger]
                r.at(m) == if self.holds(m) {
                    yes.at(m)
                } else {
                    no.at(m)
                },
    {
        let bv: BV = self.formula.ite(&yes.bv, &no.bv);
        Word { bv, width: yes.width, meaning: Ghost(arbitrary()) }
    }
}

/// A query: formulas that are to hold together.
pub struct Query {
    solver: Solver,
    meaning: Ghost<spec_fn(Assignment) -> bool>,
}

/// An answer: an assignment that satisfies a query.
pub struct Answer {
    model: Model,
    chosen: Ghost<Assignment>,
}

/// What the solver says of a query.
pub enum Reply {
    /// The query is satisfiable, by this assignment.
    Satisfied(Answer),
    /// No assignment satisfies the query.
    Unsatisfiable,
    /// The solver gave up.
    Unknown,
}

impl Query {
    /// Every formula of the query is true.
    pub closed spec fn allows(self, m: Assignment) -> bool {
        (self.meaning@)(m)
    }

    /// `Solver::new`: a query without formulas.
    #[verifier::external_body]
    pub(crate) fn new() -> (q: Query)
        ensures
            forall|m: Assignment| #[trigger] q.allows(m),
    {
        Query { solver: Solver::new(), meaning: Ghost(arbitrary()) }
    }

    /// `Solver::assert`: one more formula.
    #[verifier::external_body]
    pub(crate) fn require(&mut self, claim: &Claim)
        ensures
            forall|m: Assignment| #[trigger]
                final(self).allows(m) == (old(self).allows(m) && claim.holds(m)),
    {
        self.solver.assert(&claim.formula);
    }

    /// `Solver::check` and `Solver::get_model`: the model satisfies the query
    /// where the solver finds the query satisfiable, and no assignment does where
    /// it finds the query unsatisfiable. Nothing is said of when it gives up.
    #[verifier::external_body]
    pub(crate) fn answer(&self) -> (r: Reply)
        ensures
            r matches Reply::Satisfied(a) ==> self.allows(a.assignment()),
            r is Unsatisfiable ==> forall|m: Assignment| !(#[trigger] self.allows(m)),
    {
        match self.solver.check() {
            SatResult::Sat => match self.solver.get_model() {
                Some(model) => Reply::Satisfied(Answer { model, chosen: Ghost(arbitrary()) }),
                None => Reply::Unknown,
            },
            SatResult::Unsat => Reply::Unsatisfiable,
            SatResult::Unknown => Reply::Unknown,
        }
    }
}

impl Answer {
    /// The assignment.
    pub closed spec fn assignment(self) -> Assignment {
        self.chosen@
    }

    /// `Model::eval` and `BV::as_u64`: what a term denotes, where the solver
    /// gives it as a number of at most 64 bits.
    #[verifier::external_body]
    pub(crate) fn value(&self, w: &Word) -> (r: Option<u64>)
        ensures
            r matches Some(v) ==> v == w.at(self.assignment()),
    {
        self.model.eval(&w.bv, true).and_then(|v| v.as_u64())
    }

    /// What a term denotes; zero where the solver does not give it.
    pub fn value_or_zero(&self, w: &Word) -> (v: u64)
        ensures
            v == w.at(self.assignment()) || v == 0,
    {
        number_or_zero(self.value(w))
    }
}

/// A number that the solver gave; zero where it gave none.
pub fn number_or_zero(given: Option<u64>) -> (v: u64)
    ensures
        v == match given {
            Some(n) => n,
            None => 0,
        },
{
    match given {
        Some(n) => n,
        None => 0,
    }
}

impl Reply {
    /// Whether the query is satisfiable, where the solver decided it.
    pub fn decision(&self) -> (d: Option<bool>)
        ensures
            d == match *self {
                Reply::Satisfied(_) => Some(true),
                Reply::Unsatisfiable => Some(false),
                Reply::Unknown => None,
            },
    {
        match self {
            Reply::Satisfied(_) => Some(true),
            Reply::Unsatisfiable => Some(false),
            Reply::Unknown => None,
        }
    }
}

/// Every claim is true.
pub open spec fn all_hold(claims: Seq<Claim>, m: Assignment) -> bool {
    forall|i: int| 0 <= i < claims.len() ==> (#[trigger] claims[i]).holds(m)
}

/// The query that asks for all of these claims together, and nothing else.
pub fn query_of(claims: &[Claim]) -> (query: Query)
    ensures
        forall|m: Assignment| #[trigger] query.allows(m) == all_hold(claims@, m),
{
    let mut query: Query = Query::new();
    let mut i: usize = 0;
    while i < claims.len()
        invariant
            i <= claims@.len(),
            forall|m: Assignment| #[trigger]
                query.allows(m) == all_hold(claims@.subrange(0, i as int), m),
        decreases claims@.len() - i,
    {
        let ghost before = query;
        query.require(&claims[i]);
        proof {
            let now = claims@.subrange(0, i + 1);
            assert forall|m: Assignment| #[trigger] query.allows(m) == all_hold(now, m) by {
                assert(before.allows(m) == all_hold(claims@.subrange(0, i as int), m));
                if all_hold(now, m) {
                    assert(now[i as int].holds(m));
                    assert forall|j: int| 0 <= j < i implies (#[trigger] claims@.subrange(
                        0,
                        i as int,
                    )[j]).holds(m) by {
                        assert(now[j].holds(m));
                    }
                }
                if query.allows(m) {
                    assert forall|j: int| 0 <= j < now.len() implies (#[trigger] now[j]).holds(
                        m,
                    ) by {
                        if j < i {
                            assert(claims@.subrange(0, i as int)[j].holds(m));
                        }
                    }
                }
            }
        }
        i = i + 1;
    }
    assert(claims@.subrange(0, i as int) =~= claims@);
    query
}

/// Asks for an assignment under which every claim is true.
pub fn find_assignment(claims: &[Claim]) -> (r: Reply)
    ensures
        r matches Reply::Satisfied(a) ==> all_hold(claims@, a.assignment()),
        r is Unsatisfiable ==> forall|m: Assignment| !(#[trigger] all_hold(claims@, m)),
{
    let query: Query = query_of(claims);
    let r: Reply = query.answer();
    proof {
        assert forall|m: Assignment| #[trigger] all_hold(claims@, m) == query.allows(m) by {}
    }
    r
}

/// Whether every claim is true under some assignment, where the solver decides
/// it.
pub fn satisfiable(claims: &[Claim]) -> (sat: Option<bool>)
    ensures
        sat matches Some(b) ==> b == exists|m: Assignment| #[trigger] all_hold(claims@, m),
{
    let r: Reply = find_assignment(claims);
    proof {
        if r is Satisfied {
            assert(all_hold(claims@, (r->Satisfied_0).assignment()));
        }
    }
    r.decision()
}

// ── Facts ───────────────────────────────────────────────────────────────────

/// The widths in use, as numbers of values.
pub proof fn lemma_widths()
    ensures
        pow2(0) == 1,
        pow2(1) == 2,
        pow2(31) == 0x8000_0000,
        pow2(32) == 0x1_0000_0000,
        pow2(63) == 0x8000_0000_0000_0000,
        pow2(64) == 0x1_0000_0000_0000_0000,
        pow2(65) == 0x2_0000_0000_0000_0000,
{
    vstd::arithmetic::power2::lemma2_to64();
    vstd::arithmetic::power2::lemma2_to64_rest();
    vstd::arithmetic::power2::lemma_pow2_unfold(65);
}

impl Word {
    /// A term denotes a number of its width.
    pub proof fn lemma_fits(self, m: Assignment)
        ensures
            self.at(m) < pow2(self.bits()),
    {
        vstd::arithmetic::power2::lemma_pow2_pos(self.bits());
    }

    /// A term of 64 bits denotes a word.
    pub proof fn lemma_word(self, m: Assignment)
        requires
            self.bits() <= 64,
        ensures
            self.at(m) == self.word(m),
    {
        self.lemma_fits(m);
        lemma_widths();
        vstd::arithmetic::power2::lemma_pow2_strictly_increases(self.bits(), 65);
        if self.bits() < 64 {
            vstd::arithmetic::power2::lemma_pow2_strictly_increases(self.bits(), 64);
        }
    }
}

} // verus!
