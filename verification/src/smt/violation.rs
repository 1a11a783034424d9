//! What the checks report: a value that an abstract operator misses.

use vstd::prelude::*;

use crate::text;
use crate::text::{push_dec, push_hex};

verus! {

/// A soundness violation.
#[derive(Debug, Clone, PartialEq, Eq)]
pub struct Violation {
    /// The operator under test.
    pub operator: &'static str,
    /// The kind of inputs.
    pub input_class: String,
    /// The abstract inputs.
    pub inputs: String,
    /// The concrete values, their result and the abstract result.
    pub counterexample: String,
}

impl Violation {
    pub open spec fn text(self) -> Seq<char> {
        self.operator@ + " ["@ + self.input_class@ + "] inputs="@ + self.inputs@ + " cex="@
            + self.counterexample@
    }

    /// The violation on one line.
    pub fn render(&self) -> (s: String)
        ensures
            s@ == self.text(),
    {
        let mut s: String = String::new();
        s.append(self.operator);
        s.append(" [");
        s.append(self.input_class.as_str());
        s.append("] inputs=");
        s.append(self.inputs.as_str());
        s.append(" cex=");
        s.append(self.counterexample.as_str());
        assert(s@ =~= self.text());
        s
    }
}

/// The lines of the first `n` violations.
pub open spec fn lines(v: Seq<Violation>, n: int) -> Seq<char>
    decreases n,
{
    if n <= 0 {
        Seq::empty()
    } else {
        lines(v, n - 1) + "  "@ + v[n - 1].text() + "\n"@
    }
}

/// A catalog: the count, then each violation on its line.
pub open spec fn catalog(v: Seq<Violation>) -> Seq<char> {
    "violation count: "@ + text::dec(v.len()) + "\n"@ + lines(v, v.len() as int)
}

/// Renders the catalog of the violations.
pub fn render_catalog(violations: &[Violation]) -> (s: String)
    ensures
        s@ == catalog(violations@),
{
    let mut s: String = String::new();
    s.append("violation count: ");
    push_dec(&mut s, violations.len() as u64);
    s.append("\n");
    let ghost head = s@;
    assert(head =~= "violation count: "@ + text::dec(violations@.len()) + "\n"@);
    let mut i: usize = 0;
    while i < violations.len()
        invariant
            i <= violations@.len(),
            s@ == head + lines(violations@, i as int),
        decreases violations@.len() - i,
    {
        s.append("  ");
        let line: String = violations[i].render();
        s.append(line.as_str());
        s.append("\n");
        i = i + 1;
        assert(s@ =~= head + lines(violations@, i as int));
    }
    s
}

// ── Texts ───────────────────────────────────────────────────────────────────

/// `(0x..,0x..)`.
pub open spec fn pair(p: (u64, u64)) -> Seq<char> {
    "("@ + text::hex(p.0 as nat) + ","@ + text::hex(p.1 as nat) + ")"@
}

/// `a=(..,..)`.
pub open spec fn one_input(a: (u64, u64)) -> Seq<char> {
    "a="@ + pair(a)
}

/// `a=(..,..) b=(..,..)`.
pub open spec fn two_inputs(a: (u64, u64), b: (u64, u64)) -> Seq<char> {
    "a="@ + pair(a) + " b="@ + pair(b)
}

/// `x=.. y=.. NAME=.. out=(..,..)`.
pub open spec fn binary_cex(x: u64, y: u64, name: Seq<char>, r: u64, out: (u64, u64)) -> Seq<char> {
    "x="@ + text::hex(x as nat) + " y="@ + text::hex(y as nat) + " "@ + name + "="@ + text::hex(
        r as nat,
    ) + " out="@ + pair(out)
}

/// `x=.. x op k=.. out=(..,..)`.
pub open spec fn shift_cex(x: u64, r: u64, out: (u64, u64)) -> Seq<char> {
    "x="@ + text::hex(x as nat) + " x op k="@ + text::hex(r as nat) + " out="@ + pair(out)
}

/// Appends `(0x..,0x..)`.
pub fn push_pair(s: &mut String, p: (u64, u64))
    ensures
        final(s)@ == old(s)@ + pair(p),
{
    let ghost before = s@;
    s.append("(");
    push_hex(s, p.0);
    s.append(",");
    push_hex(s, p.1);
    s.append(")");
    assert(s@ =~= before + pair(p));
}

/// `a=(..,..) b=(..,..)`.
pub fn inputs_text(a: (u64, u64), b: (u64, u64)) -> (s: String)
    ensures
        s@ == two_inputs(a, b),
{
    let mut s: String = String::new();
    s.append("a=");
    push_pair(&mut s, a);
    s.append(" b=");
    push_pair(&mut s, b);
    assert(s@ =~= two_inputs(a, b));
    s
}

/// The violation of a binary operator.
pub fn binary_violation(
    operator: &'static str,
    class: String,
    a: (u64, u64),
    b: (u64, u64),
    values: (u64, u64),
    name: &str,
    r: u64,
    out: (u64, u64),
) -> (v: Violation)
    ensures
        v.operator@ == operator@,
        v.input_class@ == class@,
        v.inputs@ == two_inputs(a, b),
        v.counterexample@ == binary_cex(values.0, values.1, name@, r, out),
{
    let inputs: String = inputs_text(a, b);
    let mut cex: String = String::new();
    cex.append("x=");
    push_hex(&mut cex, values.0);
    cex.append(" y=");
    push_hex(&mut cex, values.1);
    cex.append(" ");
    cex.append(name);
    cex.append("=");
    push_hex(&mut cex, r);
    cex.append(" out=");
    push_pair(&mut cex, out);
    assert(cex@ =~= binary_cex(values.0, values.1, name@, r, out));
    Violation { operator, input_class: class, inputs, counterexample: cex }
}

/// The violation of a shift.
pub fn shift_violation(
    operator: &'static str,
    class: String,
    a: (u64, u64),
    x: u64,
    r: u64,
    out: (u64, u64),
) -> (v: Violation)
    ensures
        v.operator@ == operator@,
        v.input_class@ == class@,
        v.inputs@ == one_input(a),
        v.counterexample@ == shift_cex(x, r, out),
{
    let mut inputs: String = String::new();
    inputs.append("a=");
    push_pair(&mut inputs, a);
    let mut cex: String = String::new();
    cex.append("x=");
    push_hex(&mut cex, x);
    cex.append(" x op k=");
    push_hex(&mut cex, r);
    cex.append(" out=");
    push_pair(&mut cex, out);
    assert(inputs@ =~= one_input(a));
    assert(cex@ =~= shift_cex(x, r, out));
    Violation { operator, input_class: class, inputs, counterexample: cex }
}

/// A class of inputs: a name and a number.
pub fn numbered_class(name: &str, n: u64) -> (s: String)
    ensures
        s@ == name@ + text::dec(n as nat),
{
    let mut s: String = String::new();
    s.append(name);
    push_dec(&mut s, n);
    assert(s@ =~= name@ + text::dec(n as nat));
    s
}

/// A class of inputs: a name.
pub fn plain_class(name: &str) -> (s: String)
    ensures
        s@ == name@,
{
    let mut s: String = String::new();
    s.append(name);
    assert(s@ =~= name@);
    s
}

} // verus!
