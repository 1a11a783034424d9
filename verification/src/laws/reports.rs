//! Reports: what is written can be read back, and what is reported of a reduction
//! holds of it.

use vstd::prelude::*;

use crate::concrete::ConcreteReport;
use crate::fuzz::reduce::ddmin;
use crate::fuzz::reduce::ddmin::OracleCache;
use crate::fuzz::reduce::driver;
use crate::fuzz::reduce::driver::{ReduceConfig, Reduction};
use crate::fuzz::reduce::passes;
use crate::fuzz::reduce::passes::MiniRun;
use crate::fuzz::reduce::replay;
use crate::fuzz::reduce::replay::{Baseline, ReduceError, Sides};
use crate::interval::Range;
use crate::smt::synth;
use crate::text;

verus! {

// ── Numbers and quoted texts ────────────────────────────────────────────────

/// A number in decimal is read back.
pub proof fn decimal_numbers_are_read_back(n: nat)
    ensures
        forall|i: int| 0 <= i < text::dec(n).len() ==> '0' <= #[trigger] text::dec(n)[i] <= '9',
        text::dec(n).len() > 0,
        text::value_of(text::dec(n)) == n,
        n <= u32::MAX ==> text::number(text::dec(n)) == Some(n as u32),
        n >= 10 ==> text::dec(n)[0] != '0',
    decreases n,
{
    let d = text::dec(n);
    if n < 10 {
        assert(d.drop_last() =~= seq![]);
        assert(text::value_of(d) == n) by {
            reveal_with_fuel(text::value_of, 2);
        }
    } else {
        decimal_numbers_are_read_back(n / 10);
        assert(d.drop_last() =~= text::dec(n / 10));
        assert(d.last() == text::digit((n % 10) as int));
        if n / 10 < 10 {
            assert(text::dec(n / 10) =~= seq![text::digit((n / 10) as int)]);
        }
        assert(d[0] == text::dec(n / 10)[0]);
    }
    assert(text::unsigned_digits(d) == d);
    assert forall|i: int| 0 <= i < d.len() implies text::is_digit(#[trigger] d[i]) by {
        if n >= 10 && i < d.len() - 1 {
            assert(d[i] == text::dec(n / 10)[i]);
        }
    }
}

/// A signed number has a minus sign exactly where it is negative, and its magnitude
/// behind it; where a sign is always written, a plus sign otherwise.
pub proof fn signs_are_written(x: int)
    ensures
        text::dec_signed(x) == if x < 0 {
            seq!['-'] + text::dec((-x) as nat)
        } else {
            text::dec(x as nat)
        },
        text::dec_plus(x)[0] == if x < 0 {
            '-'
        } else {
            '+'
        },
        text::value_of(text::dec_plus(x).drop_first()) == if x < 0 {
            -x
        } else {
            x
        },
{
    let m = (if x < 0 { -x } else { x }) as nat;
    decimal_numbers_are_read_back(m);
    assert(text::dec_plus(x).drop_first() =~= text::dec(m));
}

/// What a quoted text says: a backslash takes the next character as it is, but for
/// the letter of a line feed.
pub open spec fn said(s: Seq<char>) -> Seq<char>
    decreases s.len(),
{
    if s.len() == 0 {
        seq![]
    } else if s.len() >= 2 && s[0] == '\\' {
        seq![if s[1] == 'n' { '\n' } else { s[1] }] + said(s.skip(2))
    } else {
        seq![s[0]] + said(s.skip(1))
    }
}

proof fn lemma_escaped_front(s: Seq<char>)
    requires
        s.len() > 0,
    ensures
        driver::escaped(s) == driver::escaped_char(s[0]) + driver::escaped(s.skip(1)),
    decreases s.len(),
{
    if s.len() == 1 {
        assert(s.drop_last() =~= seq![]);
        assert(s.skip(1) =~= seq![]);
        assert(driver::escaped(s.drop_last()) =~= seq![]);
        assert(driver::escaped(s.skip(1)) =~= seq![]);
        assert(driver::escaped(s) =~= driver::escaped_char(s[0]));
        assert(driver::escaped_char(s[0]) + Seq::<char>::empty() =~= driver::escaped_char(s[0]));
    } else {
        lemma_escaped_front(s.drop_last());
        assert(s.skip(1).drop_last() =~= s.drop_last().skip(1));
        assert(driver::escaped(s) =~= driver::escaped_char(s[0]) + driver::escaped(s.skip(1)));
    }
}

/// An escaped text says the text.
pub proof fn escaped_texts_say_the_text(s: Seq<char>)
    ensures
        said(driver::escaped(s)) == s,
    decreases s.len(),
{
    if s.len() > 0 {
        lemma_escaped_front(s);
        escaped_texts_say_the_text(s.skip(1));
        let e = driver::escaped(s);
        let head = driver::escaped_char(s[0]);
        assert(e.skip(head.len() as int) =~= driver::escaped(s.skip(1)));
        assert(e[0] == head[0]);
        if head.len() == 2 {
            assert(e[1] == head[1]);
        }
        assert(said(e) =~= seq![s[0]] + s.skip(1));
        assert(seq![s[0]] + s.skip(1) =~= s);
    }
}

/// An escaped text is one line, and holds a quote only behind a backslash.
pub proof fn escaped_texts_stay_quoted(s: Seq<char>, i: int)
    requires
        0 <= i < driver::escaped(s).len(),
    ensures
        driver::escaped(s)[i] != '\n',
        driver::escaped(s)[i] == '"' ==> i > 0 && driver::escaped(s)[i - 1] == '\\',
    decreases s.len(),
{
    if s.len() > 0 {
        let init = driver::escaped(s.drop_last());
        if i < init.len() {
            escaped_texts_stay_quoted(s.drop_last(), i);
        } else {
            assert(driver::escaped(s)[i] == driver::escaped_char(s.last())[i - init.len()]);
        }
    }
}

/// The width of an interval is one less than the count of its members.
pub proof fn widths_count_the_members(r: Range, w: u64)
    requires
        call_ensures(synth::interval_width, (r,), w),
    ensures
        r.0 <= r.1 ==> r.0 + w == r.1,
        r.0 > r.1 ==> w == u64::MAX,
{
}

// ── The cache ───────────────────────────────────────────────────────────────

/// Bytes that were evaluated are answered from memory, without another evaluation;
/// others are evaluated while the budget lasts, and remembered.
pub proof fn nothing_is_evaluated_twice(
    a: OracleCache,
    b: OracleCache,
    bytes: Seq<u8>,
    r: Option<bool>,
)
    requires
        ddmin::checked(a, b, bytes, r),
    ensures
        a.remembers(bytes, true) || a.remembers(bytes, false) ==> r is Some && b.checks == a.checks
            && b.results@ == a.results@,
        !a.remembers(bytes, true) && !a.remembers(bytes, false) ==> (r is None <==> a.max_checks > 0
            && a.checks >= a.max_checks),
        !a.remembers(bytes, true) && !a.remembers(bytes, false) && r is Some ==> b.checks == a.checks
            + 1 && b.remembers(bytes, r->0),
        r is None ==> b == a,
        b.max_checks == a.max_checks,
{
    if !a.knows(bytes) && r is Some {
        assert(b.results@[b.results@.len() - 1].0@ == bytes);
    }
}

// ── Reductions ──────────────────────────────────────────────────────────────

/// The anchor of a slice is where the abstract verifier rejects, and where it does
/// not, the first place that the concrete run violates; a verifier that fails gives
/// none.
pub proof fn anchors_of_failures(mini: MiniRun, report: Option<&ConcreteReport>, anchor: Option<u32>)
    requires
        call_ensures(passes::failure_anchor, (mini, report), anchor),
    ensures
        mini matches MiniRun::Rejected { insn_idx } ==> anchor == Some(insn_idx),
        mini is Failed ==> anchor is None,
        mini is Passed ==> (anchor is Some <==> report is Some && report->0.violations@.len() > 0),
        mini is Passed && anchor is Some ==> anchor->0 == report->0.violations@[0].pc,
{
}

/// What is left of a finding still exhibits it, is no longer than the program was,
/// and the report tells the lengths of both, the evaluations, and the sides at the
/// end.
pub proof fn reductions_exhibit_the_finding<
    E: Fn(&[u8]) -> Result<Sides, ReduceError>,
    A: Fn(&[u8]) -> Option<u32>,
>(
    evaluate: E,
    anchor: A,
    base: Baseline,
    original: Seq<u8>,
    config: ReduceConfig,
    red: Reduction,
) -> (sides: Sides)
    requires
        driver::reduces(evaluate, anchor, base, original, config, red),
    ensures
        replay::derives(evaluate, red.program@, Ok(sides)),
        base.invariant.holds(base.spec.name@, sides, config.strict),
        red.program@.len() <= original.len(),
        8 * red.report.original_insns <= original.len() < 8 * red.report.original_insns + 8,
        8 * red.report.final_insns <= red.program@.len() < 8 * red.report.final_insns + 8,
        red.report.name@ == base.spec.name@,
        red.report.label@ == base.spec.label@,
        red.report.budget == config.budget,
        config.budget > 0 ==> red.report.checks <= config.budget,
        red.report.final_mini@ == sides.mini.label()@,
        red.report.final_kernel@ == sides.kernel.label()@,
{
    let (cache, sides) = choose|cache: OracleCache, sides: Sides| #[trigger]
        driver::is_report(red.report, base, original, red.program@, cache, sides)
            && driver::is_reduction(
            evaluate,
            anchor,
            base,
            config,
            original,
            (driver::Point {
                program: red.program@,
                timeline: driver::told(red.report.timeline@),
                cache,
            }),
        ) && replay::derives(evaluate, red.program@, Ok(sides)) && base.invariant.holds(
            base.spec.name@,
            sides,
            config.strict,
        ) && red.json@ == driver::json_text(
            base.spec.label@,
            base.spec.name@,
            driver::insns_of(original),
            driver::insns_of(red.program@),
            red.report.timeline@,
            cache,
            config.strict,
        );
    sides
}

} // verus!
