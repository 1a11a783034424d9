//! Replay of a saved finding, and the reduction invariant.
//!
//! A finding is saved with the classification that was recorded for it.
//! Replay re-derives the verdict sides of the program and holds them against
//! the record: a mismatch is reported, never silently accepted. The invariant
//! is what every candidate of the reduction must preserve: the classification
//! and, where the kernel rejects, the category of its reason; for a verdict
//! flip the recorded direction.

use vstd::prelude::*;

use crate::concrete::ConcreteReport;
use crate::diff;
use crate::diff::{kernel_side, SideVerdict};
use crate::fuzz::oracle;
use crate::fuzz::oracle::{classify, concrete_side, ConcreteSide, Finding, OracleInput, SpecSide};
use crate::klog::ReasonCategory;
use crate::krun::KernelOutcome;
use crate::text;
use crate::text::{begins_with, chars_of, cut, find, same_str, skip_space, string_of};

verus! {

// ── Types ───────────────────────────────────────────────────────────────────

/// Errors of the reduction. Each is a hard, reportable condition.
#[derive(Debug, Clone, PartialEq, Eq)]
pub enum ReduceError {
    /// The finding's classification depends on the kernel column, but the
    /// kernel gave no verdict or was not asked.
    KernelRequired(String),
    /// The re-derived sides differ from the recorded finding.
    ReplayMismatch { expected: String, actual: String },
    /// The mandatory final re-check failed: the reduced program no longer
    /// exhibits the finding.
    FinalCheckFailed { expected: String, actual: String },
    /// The finding does not have the expected layout.
    InvalidFinding(String),
    /// The pipeline itself failed.
    Pipeline(String),
}

impl ReduceError {
    pub open spec fn text(self) -> Seq<char> {
        match self {
            ReduceError::KernelRequired(msg) => "kernel column required: "@ + msg@,
            ReduceError::ReplayMismatch { expected, actual } => "replay mismatch: expected "@
                + expected@ + ", re-derived "@ + actual@,
            ReduceError::FinalCheckFailed { expected, actual } =>
                "final re-check failed (reducer bug): expected "@ + expected@ + ", got "@ + actual@,
            ReduceError::InvalidFinding(msg) => "invalid finding: "@ + msg@,
            ReduceError::Pipeline(msg) => "pipeline error: "@ + msg@,
        }
    }

    /// The error as a line of text.
    pub fn message(&self) -> (s: String)
        ensures
            s@ == self.text(),
    {
        let mut s: String = String::new();
        match self {
            ReduceError::KernelRequired(msg) => {
                s.append("kernel column required: ");
                s.append(msg.as_str());
            },
            ReduceError::ReplayMismatch { expected, actual } => {
                s.append("replay mismatch: expected ");
                s.append(expected.as_str());
                s.append(", re-derived ");
                s.append(actual.as_str());
            },
            ReduceError::FinalCheckFailed { expected, actual } => {
                s.append("final re-check failed (reducer bug): expected ");
                s.append(expected.as_str());
                s.append(", got ");
                s.append(actual.as_str());
            },
            ReduceError::InvalidFinding(msg) => {
                s.append("invalid finding: ");
                s.append(msg.as_str());
            },
            ReduceError::Pipeline(msg) => {
                s.append("pipeline error: ");
                s.append(msg.as_str());
            },
        }
        assert(s@ =~= self.text());
        s
    }
}

/// The recorded classification of one finding.
#[derive(Debug, Clone, PartialEq, Eq)]
pub struct FindingSpec {
    /// The program name.
    pub name: String,
    /// The classification label: a finding name or `"verdict-flip"`.
    pub label: String,
    /// The parsed classification; `None` for verdict-flip entries.
    pub finding: Option<Finding>,
    /// The recorded mini side.
    pub mini: SideVerdict,
    /// The recorded kernel side.
    pub kernel: SideVerdict,
    /// The recorded side of the safety specification.
    pub spec: SpecSide,
    /// Whether that side was recorded; without it, it is not re-checked.
    pub spec_recorded: bool,
}

/// The verdict sides of one program: the input of the replay check and of the
/// reduction oracle.
#[derive(Debug, Clone, PartialEq, Eq)]
pub struct Sides {
    pub mini: SideVerdict,
    /// The mini failure message.
    pub mini_reason: Option<String>,
    pub concrete: ConcreteSide,
    pub kernel: SideVerdict,
    pub spec: SpecSide,
}

/// The record, validated against the re-derived sides of the program, and the
/// invariant that every candidate must preserve.
#[derive(Debug, Clone)]
pub struct Baseline {
    pub spec: FindingSpec,
    pub sides: Sides,
    pub invariant: Invariant,
}

/// What a candidate program must preserve.
#[derive(Debug, Clone, Copy, PartialEq, Eq)]
pub enum Invariant {
    /// The classification must stay `finding`; where the kernel rejected, it must
    /// reject for the category `kernel_category` too, if it is asked.
    Classification { finding: Finding, kernel_category: Option<ReasonCategory> },
    /// The mini verdict must stay `after`.
    VerdictFlip { after: &'static str },
}

/// The message of an option, as text.
pub open spec fn string_text(s: Option<String>) -> Option<Seq<char>> {
    match s {
        Some(t) => Some(t@),
        None => None,
    }
}

impl Sides {
    /// The evidence that the sides are on the program called `name`.
    pub open spec fn evidence(self, name: Seq<char>, strict: bool) -> oracle::Evidence {
        oracle::Evidence {
            name,
            mini: self.mini,
            mini_reason: string_text(self.mini_reason),
            concrete: self.concrete,
            kernel: self.kernel,
            strict,
            spec: self.spec,
        }
    }

    /// The class of the program called `name`.
    fn class(&self, name: &str, strict: bool) -> (f: Finding)
        ensures
            f == oracle::class_of(self.evidence(name@, strict)),
    {
        let mini_reason: Option<&str> = match &self.mini_reason {
            Some(s) => Some(s.as_str()),
            None => None,
        };
        classify(
            &OracleInput {
                name,
                mini: &self.mini,
                mini_reason,
                concrete: self.concrete,
                kernel: &self.kernel,
                strict,
                spec: self.spec,
            },
        )
    }
}

impl Invariant {
    /// The sides exhibit the finding.
    pub open spec fn holds(self, name: Seq<char>, sides: Sides, strict: bool) -> bool {
        match self {
            Invariant::VerdictFlip { after } => sides.mini.label()@ == after@,
            Invariant::Classification { finding, kernel_category } => oracle::class_of(
                sides.evidence(name, strict),
            ) == finding && (kernel_category matches Some(category) ==> sides.kernel is Skipped
                || sides.kernel == (SideVerdict::Reject { category })),
        }
    }

    /// Whether candidate sides still exhibit the finding.
    pub fn preserves(&self, name: &str, sides: &Sides, strict: bool) -> (b: bool)
        ensures
            b == self.holds(name@, *sides, strict),
    {
        match *self {
            Invariant::VerdictFlip { after } => same_str(sides.mini.name(), after),
            Invariant::Classification { finding, kernel_category } => {
                if sides.class(name, strict) != finding {
                    return false;
                }
                match (kernel_category, sides.kernel) {
                    (Some(expected), SideVerdict::Reject { category }) => category == expected,
                    // the kernel was not asked: the class does not rest on it
                    (Some(_), SideVerdict::Skipped) => true,
                    (Some(_), SideVerdict::Accept) => false,
                    (None, _) => true,
                }
            },
        }
    }
}

// ── Names ───────────────────────────────────────────────────────────────────

/// The name of a category in a record.
pub open spec fn category_text(c: ReasonCategory) -> Seq<char> {
    match c {
        ReasonCategory::UninitRead => "UninitRead"@,
        ReasonCategory::StackBounds => "StackBounds"@,
        ReasonCategory::StackAlign => "StackAlign"@,
        ReasonCategory::PointerArith => "PointerArith"@,
        ReasonCategory::HelperArgs => "HelperArgs"@,
        ReasonCategory::CfgJump => "CfgJump"@,
        ReasonCategory::Loop => "Loop"@,
        ReasonCategory::Unreachable => "Unreachable"@,
        ReasonCategory::ExitR0 => "ExitR0"@,
        ReasonCategory::Complexity => "Complexity"@,
        ReasonCategory::Ref => "Ref"@,
        ReasonCategory::Other => "Other"@,
    }
}

fn category_name(c: ReasonCategory) -> (s: &'static str)
    ensures
        s@ == category_text(c),
{
    match c {
        ReasonCategory::UninitRead => "UninitRead",
        ReasonCategory::StackBounds => "StackBounds",
        ReasonCategory::StackAlign => "StackAlign",
        ReasonCategory::PointerArith => "PointerArith",
        ReasonCategory::HelperArgs => "HelperArgs",
        ReasonCategory::CfgJump => "CfgJump",
        ReasonCategory::Loop => "Loop",
        ReasonCategory::Unreachable => "Unreachable",
        ReasonCategory::ExitR0 => "ExitR0",
        ReasonCategory::Complexity => "Complexity",
        ReasonCategory::Ref => "Ref",
        ReasonCategory::Other => "Other",
    }
}

/// The compact encoding of a side: `ACCEPT`, `SKIPPED`, or
/// `REJECT(CategoryName)`.
pub open spec fn side_text(side: SideVerdict) -> Seq<char> {
    match side {
        SideVerdict::Accept => "ACCEPT"@,
        SideVerdict::Skipped => "SKIPPED"@,
        SideVerdict::Reject { category } => "REJECT("@ + category_text(category) + seq![')'],
    }
}

/// The compact encoding of a side.
pub fn side_str(side: &SideVerdict) -> (s: String)
    ensures
        s@ == side_text(*side),
{
    let mut s: String = String::new();
    match side {
        SideVerdict::Accept => {
            s.append("ACCEPT");
        },
        SideVerdict::Skipped => {
            s.append("SKIPPED");
        },
        SideVerdict::Reject { category } => {
            s.append("REJECT(");
            s.append(category_name(*category));
            s.push(')');
        },
    }
    assert(s@ =~= side_text(*side));
    s
}

/// The names of two categories differ.
proof fn lemma_category_names(a: ReasonCategory, b: ReasonCategory)
    requires
        category_text(a) == category_text(b),
    ensures
        a == b,
{
    reveal_strlit("UninitRead");
    reveal_strlit("StackBounds");
    reveal_strlit("StackAlign");
    reveal_strlit("PointerArith");
    reveal_strlit("HelperArgs");
    reveal_strlit("CfgJump");
    reveal_strlit("Loop");
    reveal_strlit("Unreachable");
    reveal_strlit("ExitR0");
    reveal_strlit("Complexity");
    reveal_strlit("Ref");
    reveal_strlit("Other");
    let x = category_text(a);
    let y = category_text(b);
    assert(x[0] == y[0] && x[1] == y[1] && x.len() == y.len());
}

/// Parse a category from its name.
pub fn parse_category(s: &str) -> (r: Option<ReasonCategory>)
    ensures
        match r {
            Some(c) => s@ == category_text(c),
            None => forall|c: ReasonCategory| s@ != #[trigger] category_text(c),
        },
{
    if same_str(s, "UninitRead") {
        Some(ReasonCategory::UninitRead)
    } else if same_str(s, "StackBounds") {
        Some(ReasonCategory::StackBounds)
    } else if same_str(s, "StackAlign") {
        Some(ReasonCategory::StackAlign)
    } else if same_str(s, "PointerArith") {
        Some(ReasonCategory::PointerArith)
    } else if same_str(s, "HelperArgs") {
        Some(ReasonCategory::HelperArgs)
    } else if same_str(s, "CfgJump") {
        Some(ReasonCategory::CfgJump)
    } else if same_str(s, "Loop") {
        Some(ReasonCategory::Loop)
    } else if same_str(s, "Unreachable") {
        Some(ReasonCategory::Unreachable)
    } else if same_str(s, "ExitR0") {
        Some(ReasonCategory::ExitR0)
    } else if same_str(s, "Complexity") {
        Some(ReasonCategory::Complexity)
    } else if same_str(s, "Ref") {
        Some(ReasonCategory::Ref)
    } else if same_str(s, "Other") {
        Some(ReasonCategory::Other)
    } else {
        None
    }
}

/// Parse the compact encoding of a side: the side that is encoded this way.
pub fn parse_side(s: &str) -> (r: Option<SideVerdict>)
    ensures
        match r {
            Some(side) => s@ == side_text(side),
            None => forall|other: SideVerdict| s@ != #[trigger] side_text(other),
        },
{
    if same_str(s, "ACCEPT") {
        return Some(SideVerdict::Accept);
    }
    if same_str(s, "SKIPPED") {
        return Some(SideVerdict::Skipped);
    }
    let v: Vec<char> = chars_of(s);
    proof {
        reveal_strlit("REJECT(");
        assert forall|side: SideVerdict| s@ == #[trigger] side_text(side) implies side is Reject
            && s@.len() >= 8 && text::begins(s@, "REJECT("@) && s@.last() == ')'
            && s@.subrange(7, s@.len() - 1) == category_text(side->category) by {
            let c = category_text(side->category);
            assert(s@ == "REJECT("@ + c + seq![')']);
            assert(s@.subrange(0, 7) =~= "REJECT("@);
            assert(s@.subrange(7, s@.len() - 1) =~= c);
        }
    }
    if v.len() >= 8 && begins_with(&v, "REJECT(") && v[v.len() - 1] == ')' {
        let name: String = string_of(&cut(&v, 7, v.len() - 1));
        match parse_category(name.as_str()) {
            Some(category) => {
                proof {
                    assert(s@ =~= s@.subrange(0, 7) + name@ + seq![')']);
                }
                Some(SideVerdict::Reject { category })
            },
            None => None,
        }
    } else {
        None
    }
}

/// Parse the recorded side of the safety specification; what is missing or
/// unknown is inconclusive.
pub fn parse_spec_side(s: Option<&str>) -> (side: SpecSide)
    ensures
        side == match s {
            Some(t) => if t@ == "ACCEPT"@ {
                SpecSide::Accept
            } else if t@ == "REJECT"@ {
                SpecSide::Reject
            } else {
                SpecSide::Inconclusive
            },
            None => SpecSide::Inconclusive,
        },
{
    match s {
        Some(t) => {
            if same_str(t, "ACCEPT") {
                SpecSide::Accept
            } else if same_str(t, "REJECT") {
                SpecSide::Reject
            } else {
                SpecSide::Inconclusive
            }
        },
        None => SpecSide::Inconclusive,
    }
}

/// Parse a finding label into its class.
pub fn parse_finding(label: &str) -> (r: Option<Finding>)
    ensures
        match r {
            Some(f) => label@ == f.label()@,
            None => forall|other: Finding| label@ != (#[trigger] other.label())@,
        },
{
    let all: [Finding; 10] = [
        Finding::PrecisionCandidate,
        Finding::KernelUnsoundCandidate,
        Finding::KernelOverstrictCandidate,
        Finding::SoundnessCandidate,
        Finding::RvPrecisionGap,
        Finding::RvSoundnessBug,
        Finding::Agree,
        Finding::Whitelisted,
        Finding::Inconclusive,
        Finding::Skipped,
    ];
    let mut i: usize = 0;
    while i < 10
        invariant
            i <= 10,
            all@.len() == 10,
            forall|k: int| 0 <= k < i ==> label@ != (#[trigger] all@[k]).label()@,
        decreases 10 - i,
    {
        if same_str(all[i].name(), label) {
            return Some(all[i]);
        }
        i = i + 1;
    }
    proof {
        assert forall|f: Finding| label@ != (#[trigger] f.label())@ by {
            assert(all@.contains(f)) by {
                assert(all@[0] is PrecisionCandidate && all@[1] is KernelUnsoundCandidate
                    && all@[2] is KernelOverstrictCandidate && all@[3] is SoundnessCandidate
                    && all@[4] is RvPrecisionGap && all@[5] is RvSoundnessBug && all@[6] is Agree
                    && all@[7] is Whitelisted && all@[8] is Inconclusive && all@[9] is Skipped);
            }
            let k = choose|k: int| 0 <= k < all@.len() && all@[k] == f;
            assert(label@ != all@[k].label()@);
        }
    }
    None
}

/// The classification of a finding depends on the kernel column. The others
/// reduce unprivileged.
pub open spec fn kernel_dependent(label: Seq<char>) -> bool {
    ||| label == "precision-candidate"@
    ||| label == "soundness-candidate"@
    ||| label == "rv-precision-gap"@
    ||| label == "kernel-unsound-candidate"@
    ||| label == "kernel-overstrict-candidate"@
    ||| label == "whitelisted"@
}

/// Whether the classification of a finding depends on the kernel column.
pub fn is_kernel_dependent(label: &str) -> (b: bool)
    ensures
        b == kernel_dependent(label@),
{
    same_str(label, "precision-candidate") || same_str(label, "soundness-candidate") || same_str(
        label,
        "rv-precision-gap",
    ) || same_str(label, "kernel-unsound-candidate") || same_str(
        label,
        "kernel-overstrict-candidate",
    ) || same_str(label, "whitelisted")
}

// ── The record ──────────────────────────────────────────────────────────────

/// The string behind a key: a colon and a quoted text follow.
pub open spec fn quoted_value(rest: Seq<char>) -> Option<Seq<char>> {
    let value = text::trim_start(rest.drop_first());
    let tail = value.drop_first();
    if value.len() > 0 && value[0] == '"' {
        match text::find_from(tail, seq!['"'], 0) {
            Some(end) => Some(tail.take(end)),
            None => None,
        }
    } else {
        None
    }
}

/// The value of the first occurrence of a key, from `from` on, that a colon
/// follows; `None` where there is none, or its value is not a string.
pub open spec fn value_from(s: Seq<char>, needle: Seq<char>, from: int) -> Option<Seq<char>>
    decreases s.len() - from,
{
    match text::find_from(s, needle, from) {
        Some(p) if p >= from && needle.len() > 0 && p + needle.len() <= s.len() => {
            let rest = text::trim_start(s.skip(p + needle.len()));
            if rest.len() > 0 && rest[0] == ':' {
                quoted_value(rest)
            } else {
                value_from(s, needle, p + needle.len())
            }
        },
        _ => None,
    }
}

/// A key in quotes.
pub open spec fn quoted_key(key: Seq<char>) -> Seq<char> {
    seq!['"'] + key + seq!['"']
}

/// The string value of a key of a record.
pub open spec fn meta_text(s: Seq<char>, key: Seq<char>) -> Option<Seq<char>> {
    value_from(s, quoted_key(key), 0)
}

/// The value behind a colon.
fn quoted_after(rest: &[char]) -> (r: Option<Vec<char>>)
    requires
        rest@.len() > 0,
    ensures
        match r {
            Some(v) => quoted_value(rest@) == Some(v@),
            None => quoted_value(rest@) is None,
        },
{
    let from: usize = skip_space(rest, 1);
    let value: Vec<char> = cut(rest, from, rest.len());
    proof {
        assert(rest@.skip(1) =~= rest@.drop_first());
        assert(value@ =~= rest@.skip(from as int));
    }
    if value.len() == 0 || value[0] != '"' {
        return None;
    }
    let tail: Vec<char> = cut(&value, 1, value.len());
    let quote: [char; 1] = ['"'];
    proof {
        assert(quote@ =~= seq!['"']);
        assert(tail@ =~= value@.drop_first());
    }
    match find(&tail, &quote, 0) {
        Some(end) => {
            let v: Vec<char> = cut(&tail, 0, end);
            assert(v@ =~= tail@.take(end as int));
            Some(v)
        },
        None => None,
    }
}

/// Extract the string value of `"key": "value"` from a record. `None` when the
/// key is absent or its value is no string.
pub fn meta_value(text: &str, key: &str) -> (r: Option<String>)
    ensures
        string_text(r) == meta_text(text@, key@),
{
    let v: Vec<char> = chars_of(text);
    let mut quoted: String = String::new();
    quoted.push('"');
    quoted.append(key);
    quoted.push('"');
    assert(quoted@ =~= quoted_key(key@));
    let needle: Vec<char> = chars_of(quoted.as_str());
    let mut from: usize = 0;
    loop
        invariant
            v@ == text@,
            needle@ == quoted_key(key@),
            from <= v@.len(),
            meta_text(text@, key@) == value_from(v@, needle@, from as int),
        decreases v@.len() - from,
    {
        let p: usize = match find(&v, &needle, from) {
            Some(p) => p,
            None => {
                return None;
            },
        };
        let behind: usize = p + needle.len();
        let at: usize = skip_space(&v, behind);
        let rest: Vec<char> = cut(&v, at, v.len());
        assert(rest@ =~= v@.skip(at as int));
        if rest.len() > 0 && rest[0] == ':' {
            return match quoted_after(&rest) {
                Some(value) => Some(string_of(&value)),
                None => None,
            };
        }
        from = behind;
    }
}

/// The finding cannot be loaded, for this reason.
pub open spec fn invalid<T>(r: Result<T, ReduceError>, why: Seq<char>) -> bool {
    match r {
        Err(ReduceError::InvalidFinding(msg)) => msg@ == why,
        _ => false,
    }
}

/// The side that a text encodes.
pub open spec fn encodes(s: Seq<char>, side: SideVerdict) -> bool {
    s == side_text(side)
}

/// The text encodes no side.
pub open spec fn unparsable(s: Seq<char>) -> bool {
    forall|side: SideVerdict| !#[trigger] encodes(s, side)
}

/// The class that a label names, where the label is one of a finding that is
/// classified again on replay.
pub open spec fn recorded_class(label: Seq<char>, finding: Option<Finding>) -> bool {
    if kernel_dependent(label) || label == "rv-soundness-bug"@ {
        finding is Some && finding->0.label()@ == label
    } else {
        finding is None
    }
}

/// `r` is the finding of a record and a program, or the first thing that is
/// wrong with them.
pub open spec fn loaded(
    meta: Result<String, String>,
    prog: Result<Vec<u8>, String>,
    prog_path: Seq<char>,
    r: Result<(FindingSpec, Vec<u8>), ReduceError>,
) -> bool {
    match meta {
        Err(why) => invalid(r, why@),
        Ok(m) => {
            let name = meta_text(m@, "name"@);
            let label = meta_text(m@, "label"@);
            let mini = meta_text(m@, "mini"@);
            let kernel = meta_text(m@, "kernel"@);
            let spec_side = meta_text(m@, "spec"@);
            if name is None {
                invalid(r, "meta.json: missing \"name\""@)
            } else if label is None {
                invalid(r, "meta.json: missing \"label\""@)
            } else if mini is None {
                invalid(r, "meta.json: missing \"mini\""@)
            } else if unparsable(mini->0) {
                invalid(r, "meta.json: unparsable \"mini\""@)
            } else if kernel is None {
                invalid(r, "meta.json: missing \"kernel\""@)
            } else if unparsable(kernel->0) {
                invalid(r, "meta.json: unparsable \"kernel\""@)
            } else {
                match prog {
                    Err(why) => invalid(r, why@),
                    Ok(bytes) => if bytes@.len() == 0 || bytes@.len() % 8 != 0 {
                        invalid(r, prog_path + ": not a multiple-of-8 instruction stream"@)
                    } else {
                        &&& r is Ok
                        &&& (r->Ok_0).1 == bytes
                        &&& (r->Ok_0).0.name@ == name->0
                        &&& (r->Ok_0).0.label@ == label->0
                        &&& recorded_class(label->0, (r->Ok_0).0.finding)
                        &&& encodes(mini->0, (r->Ok_0).0.mini)
                        &&& encodes(kernel->0, (r->Ok_0).0.kernel)
                        &&& (r->Ok_0).0.spec_recorded == (spec_side is Some)
                        &&& (r->Ok_0).0.spec == if spec_side == Some("ACCEPT"@) {
                            SpecSide::Accept
                        } else if spec_side == Some("REJECT"@) {
                            SpecSide::Reject
                        } else {
                            SpecSide::Inconclusive
                        }
                    },
                }
            }
        },
    }
}

fn invalid_finding(why: &str) -> (e: ReduceError)
    ensures
        e matches ReduceError::InvalidFinding(msg) && msg@ == why@,
{
    let mut s: String = String::new();
    s.append(why);
    assert(s@ =~= why@);
    ReduceError::InvalidFinding(s)
}

/// A side of a record.
fn side_value(meta: &str, key: &str, missing: &str, unparsed: &str) -> (r: Result<
    SideVerdict,
    ReduceError,
>)
    ensures
        match meta_text(meta@, key@) {
            None => r matches Err(ReduceError::InvalidFinding(msg)) && msg@ == missing@,
            Some(t) => if unparsable(t) {
                r matches Err(ReduceError::InvalidFinding(msg)) && msg@ == unparsed@
            } else {
                r is Ok && encodes(t, r->Ok_0)
            },
        },
{
    match meta_value(meta, key) {
        None => Err(invalid_finding(missing)),
        Some(t) => match parse_side(t.as_str()) {
            Some(side) => {
                assert(encodes(t@, side));
                Ok(side)
            },
            None => {
                assert(unparsable(t@));
                Err(invalid_finding(unparsed))
            },
        },
    }
}

/// Load a finding from its record and its program, each as it was read, or
/// the reason why it could not be. The record is text in the form
/// `"key": "value"`; the program is a stream of whole instruction slots.
pub fn load_finding(
    meta: Result<String, String>,
    prog: Result<Vec<u8>, String>,
    prog_path: &str,
) -> (r: Result<(FindingSpec, Vec<u8>), ReduceError>)
    ensures
        loaded(meta, prog, prog_path@, r),
{
    let text: String = match meta {
        Ok(text) => text,
        Err(why) => {
            return Err(ReduceError::InvalidFinding(why));
        },
    };
    let t: &str = text.as_str();
    let name: String = match meta_value(t, "name") {
        Some(name) => name,
        None => {
            return Err(invalid_finding("meta.json: missing \"name\""));
        },
    };
    let label: String = match meta_value(t, "label") {
        Some(label) => label,
        None => {
            return Err(invalid_finding("meta.json: missing \"label\""));
        },
    };
    let mini: SideVerdict = match side_value(
        t,
        "mini",
        "meta.json: missing \"mini\"",
        "meta.json: unparsable \"mini\"",
    ) {
        Ok(side) => side,
        Err(e) => {
            return Err(e);
        },
    };
    let kernel: SideVerdict = match side_value(
        t,
        "kernel",
        "meta.json: missing \"kernel\"",
        "meta.json: unparsable \"kernel\"",
    ) {
        Ok(side) => side,
        Err(e) => {
            return Err(e);
        },
    };
    proof {
        let m = meta_text(t@, "mini"@)->0;
        let k = meta_text(t@, "kernel"@)->0;
        assert(!unparsable(m)) by {
            assert(encodes(m, mini));
        }
        assert(!unparsable(k)) by {
            assert(encodes(k, kernel));
        }
    }
    let spec_raw: Option<String> = meta_value(t, "spec");
    let spec: SpecSide = match &spec_raw {
        Some(s) => parse_spec_side(Some(s.as_str())),
        None => SpecSide::Inconclusive,
    };
    let spec_recorded: bool = spec_raw.is_some();
    let finding: Option<Finding> = if is_kernel_dependent(label.as_str()) || same_str(
        label.as_str(),
        "rv-soundness-bug",
    ) {
        proof {
            assert(Finding::PrecisionCandidate.label()@ == "precision-candidate"@);
            assert(Finding::SoundnessCandidate.label()@ == "soundness-candidate"@);
            assert(Finding::RvPrecisionGap.label()@ == "rv-precision-gap"@);
            assert(Finding::KernelUnsoundCandidate.label()@ == "kernel-unsound-candidate"@);
            assert(Finding::KernelOverstrictCandidate.label()@ == "kernel-overstrict-candidate"@);
            assert(Finding::Whitelisted.label()@ == "whitelisted"@);
            assert(Finding::RvSoundnessBug.label()@ == "rv-soundness-bug"@);
        }
        parse_finding(label.as_str())
    } else {
        None
    };
    let bytes: Vec<u8> = match prog {
        Ok(bytes) => bytes,
        Err(why) => {
            return Err(ReduceError::InvalidFinding(why));
        },
    };
    if bytes.len() == 0 || bytes.len() % 8 != 0 {
        let mut why: String = String::new();
        why.append(prog_path);
        why.append(": not a multiple-of-8 instruction stream");
        assert(why@ =~= prog_path@ + ": not a multiple-of-8 instruction stream"@);
        return Err(ReduceError::InvalidFinding(why));
    }
    Ok((FindingSpec { name, label, finding, mini, kernel, spec, spec_recorded }, bytes))
}

// ── The sides of a program ──────────────────────────────────────────────────

/// What the mini verifier said of a program.
#[derive(Debug, Clone, PartialEq, Eq)]
pub enum MiniVerdict {
    Safe,
    Unsafe { category: ReasonCategory, message: String },
}

/// How the kernel column of a program was obtained.
#[derive(Debug, Clone, PartialEq, Eq)]
pub enum KernelAnswer {
    /// The kernel was not consulted.
    NotAsked,
    /// A guest kernel's verdict.
    Guest(SideVerdict),
    /// Why a guest kernel could not be asked.
    GuestFailed(String),
    /// The outcome of a load on this host.
    Host(KernelOutcome),
}

/// Why a load gave no verdict.
pub open spec fn skip_reason(outcome: KernelOutcome) -> Seq<char> {
    match outcome {
        KernelOutcome::Privilege => "EPERM — need root / CAP_BPF (sudo or CI runner)"@,
        KernelOutcome::NoErrorLine { .. } => "errno without a log line"@,
        _ => "invalid program"@,
    }
}

/// Why a load says nothing of a program: guidance for the error.
fn kernel_skip_reason(outcome: &KernelOutcome) -> (s: &'static str)
    ensures
        s@ == skip_reason(*outcome),
{
    match outcome {
        KernelOutcome::Privilege => "EPERM — need root / CAP_BPF (sudo or CI runner)",
        KernelOutcome::NoErrorLine { .. } => "errno without a log line",
        _ => "invalid program",
    }
}

/// The kernel side of an answer, or why it has none.
pub open spec fn kernel_column(answer: KernelAnswer) -> Result<SideVerdict, Seq<char>> {
    match answer {
        KernelAnswer::NotAsked => Ok(SideVerdict::Skipped),
        KernelAnswer::Guest(SideVerdict::Skipped) => Err(
            "qemu verdict failed: the guest gave no verdict"@,
        ),
        KernelAnswer::Guest(side) => Ok(side),
        KernelAnswer::GuestFailed(why) => Err("qemu verdict failed: "@ + why@),
        KernelAnswer::Host(outcome) => match diff::side_of(outcome) {
            SideVerdict::Skipped => Err(
                "kernel load produced no verdict ("@ + skip_reason(outcome) + seq![')'],
            ),
            side => Ok(side),
        },
    }
}

/// The sides are those of the verdicts that were obtained.
pub open spec fn collected(
    mini: MiniVerdict,
    report: Option<ConcreteReport>,
    kernel: SideVerdict,
    spec: SpecSide,
    sides: Sides,
) -> bool {
    &&& sides.kernel == kernel
    &&& sides.spec == spec
    &&& sides.concrete == oracle::side_of_report(report)
    &&& match mini {
        MiniVerdict::Safe => sides.mini is Accept && sides.mini_reason is None,
        MiniVerdict::Unsafe { category, message } => sides.mini == (SideVerdict::Reject {
            category,
        }) && sides.mini_reason == Some(message),
    }
}

/// The kernel side of an answer.
fn kernel_side_of(answer: KernelAnswer) -> (r: Result<SideVerdict, String>)
    ensures
        match r {
            Ok(side) => kernel_column(answer) == Ok::<SideVerdict, Seq<char>>(side),
            Err(why) => kernel_column(answer) == Err::<SideVerdict, Seq<char>>(why@),
        },
{
    let mut why: String = String::new();
    match answer {
        KernelAnswer::NotAsked => Ok(SideVerdict::Skipped),
        KernelAnswer::Guest(SideVerdict::Skipped) => {
            why.append("qemu verdict failed: the guest gave no verdict");
            assert(why@ =~= "qemu verdict failed: the guest gave no verdict"@);
            Err(why)
        },
        KernelAnswer::Guest(side) => Ok(side),
        KernelAnswer::GuestFailed(reason) => {
            why.append("qemu verdict failed: ");
            why.append(reason.as_str());
            assert(why@ =~= "qemu verdict failed: "@ + reason@);
            Err(why)
        },
        KernelAnswer::Host(outcome) => match kernel_side(&outcome) {
            SideVerdict::Skipped => {
                why.append("kernel load produced no verdict (");
                why.append(kernel_skip_reason(&outcome));
                why.push(')');
                assert(why@ =~= "kernel load produced no verdict ("@ + skip_reason(outcome)
                    + seq![')']);
                Err(why)
            },
            side => Ok(side),
        },
    }
}

/// Collect the sides of one program from the verdicts that were obtained. A
/// failure of the pipeline is an error, and so is a kernel that was consulted
/// and says nothing: the reducer must not reduce blind.
pub fn evaluate_bytes(
    mini: Result<MiniVerdict, String>,
    report: Option<&ConcreteReport>,
    kernel: KernelAnswer,
    spec: SpecSide,
) -> (r: Result<Sides, ReduceError>)
    ensures
        match mini {
            Err(why) => r == Err::<Sides, ReduceError>(ReduceError::Pipeline(why)),
            Ok(verdict) => match kernel_column(kernel) {
                Err(why) => r matches Err(ReduceError::KernelRequired(msg)) && msg@ == why,
                Ok(side) => r matches Ok(sides) && collected(
                    verdict,
                    match report {
                        Some(rep) => Some(*rep),
                        None => None,
                    },
                    side,
                    spec,
                    sides,
                ),
            },
        },
{
    let verdict: MiniVerdict = match mini {
        Ok(verdict) => verdict,
        Err(why) => {
            return Err(ReduceError::Pipeline(why));
        },
    };
    let (mini, mini_reason): (SideVerdict, Option<String>) = match verdict {
        MiniVerdict::Safe => (SideVerdict::Accept, None),
        MiniVerdict::Unsafe { category, message } => (
            SideVerdict::Reject { category },
            Some(message),
        ),
    };
    let concrete: ConcreteSide = match report {
        Some(rep) => concrete_side(rep),
        None => ConcreteSide::Inconclusive,
    };
    match kernel_side_of(kernel) {
        Ok(kernel) => Ok(Sides { mini, mini_reason, concrete, kernel, spec }),
        Err(why) => Err(ReduceError::KernelRequired(why)),
    }
}

// ── Replay ──────────────────────────────────────────────────────────────────

/// How a side of the safety specification is reported.
pub open spec fn spec_text(side: SpecSide) -> Seq<char> {
    match side {
        SpecSide::Accept => "spec Accept"@,
        SpecSide::Reject => "spec Reject"@,
        SpecSide::Inconclusive => "spec Inconclusive"@,
    }
}

fn spec_str(side: SpecSide) -> (s: String)
    ensures
        s@ == spec_text(side),
{
    let mut s: String = String::new();
    match side {
        SpecSide::Accept => s.append("spec Accept"),
        SpecSide::Reject => s.append("spec Reject"),
        SpecSide::Inconclusive => s.append("spec Inconclusive"),
    }
    assert(s@ =~= spec_text(side));
    s
}

/// A mismatch between what was recorded and what was re-derived.
pub open spec fn mismatch<T>(
    r: Result<T, ReduceError>,
    recorded: Seq<char>,
    derived: Seq<char>,
) -> bool {
    match r {
        Err(ReduceError::ReplayMismatch { expected, actual }) => expected@ == recorded && actual@
            == derived,
        _ => false,
    }
}

/// The re-derived kernel side is the recorded one, as far as the kernel was asked
/// both times.
pub open spec fn kernel_agrees(recorded: SideVerdict, derived: SideVerdict) -> bool {
    recorded is Skipped || derived is Skipped || derived == recorded
}

/// The sides reproduce the recorded finding.
pub open spec fn reproduces(spec: FindingSpec, sides: Sides, strict: bool) -> bool {
    &&& !(kernel_dependent(spec.label@) && sides.kernel is Skipped)
    &&& sides.mini == spec.mini
    &&& kernel_agrees(spec.kernel, sides.kernel)
    &&& spec.spec_recorded ==> sides.spec == spec.spec
    &&& spec.finding matches Some(f) ==> oracle::class_of(sides.evidence(spec.name@, strict)) == f
}

/// `r` is the result of holding the sides against the record: the first
/// mismatch, if any.
pub open spec fn is_replay_check(
    spec: FindingSpec,
    sides: Sides,
    strict: bool,
    r: Result<(), ReduceError>,
) -> bool {
    &&& (r is Ok) == reproduces(spec, sides, strict)
    &&& if kernel_dependent(spec.label@) && sides.kernel is Skipped {
        r matches Err(ReduceError::KernelRequired(msg)) && msg@ == spec.label@
            + " depends on the kernel column — run the reducer with --kernel (privileged)"@
    } else if sides.mini != spec.mini {
        mismatch(r, side_text(spec.mini), side_text(sides.mini))
    } else if !kernel_agrees(spec.kernel, sides.kernel) {
        mismatch(r, side_text(spec.kernel), side_text(sides.kernel))
    } else if spec.spec_recorded && sides.spec != spec.spec {
        mismatch(r, spec_text(spec.spec), spec_text(sides.spec))
    } else {
        r is Err ==> spec.finding is Some && mismatch(
            r,
            spec.finding->0.label()@,
            oracle::class_of(sides.evidence(spec.name@, strict)).label()@,
        )
    }
}

fn text_string(t: &str) -> (s: String)
    ensures
        s@ == t@,
{
    let mut s: String = String::new();
    s.append(t);
    assert(s@ =~= t@);
    s
}

/// Replay validation: the re-derived sides must reproduce the recorded
/// finding. Findings that depend on the kernel require its verdict. The first
/// mismatch is the error.
pub fn replay_check(spec: &FindingSpec, sides: &Sides, strict: bool) -> (r: Result<(), ReduceError>)
    ensures
        is_replay_check(*spec, *sides, strict, r),
{
    if is_kernel_dependent(spec.label.as_str()) && matches!(sides.kernel, SideVerdict::Skipped) {
        let mut why: String = String::new();
        why.append(spec.label.as_str());
        why.append(
            " depends on the kernel column — run the reducer with --kernel (privileged)",
        );
        assert(why@ =~= spec.label@
            + " depends on the kernel column — run the reducer with --kernel (privileged)"@);
        return Err(ReduceError::KernelRequired(why));
    }
    if sides.mini != spec.mini {
        return Err(
            ReduceError::ReplayMismatch {
                expected: side_str(&spec.mini),
                actual: side_str(&sides.mini),
            },
        );
    }
    let asked: bool = !matches!(spec.kernel, SideVerdict::Skipped) && !matches!(
        sides.kernel,
        SideVerdict::Skipped
    );
    if asked && sides.kernel != spec.kernel {
        return Err(
            ReduceError::ReplayMismatch {
                expected: side_str(&spec.kernel),
                actual: side_str(&sides.kernel),
            },
        );
    }
    if spec.spec_recorded && sides.spec != spec.spec {
        return Err(
            ReduceError::ReplayMismatch {
                expected: spec_str(spec.spec),
                actual: spec_str(sides.spec),
            },
        );
    }
    if let Some(finding) = spec.finding {
        let actual: Finding = sides.class(spec.name.as_str(), strict);
        if actual != finding {
            return Err(
                ReduceError::ReplayMismatch {
                    expected: text_string(finding.name()),
                    actual: text_string(actual.name()),
                },
            );
        }
    }
    Ok(())
}

/// A text in quotes, with special characters escaped.
pub uninterp spec fn debug_text(s: Seq<char>) -> Seq<char>;

/// The `Debug` formatting of std for `str`: the text in double quotes, with
/// quotes, backslashes and unprintable characters escaped. Which characters
/// are escaped is left to std; the result depends on the text alone.
#[verifier::external_body]
fn debug_str(s: &str) -> (r: String)
    ensures
        r@ == debug_text(s@),
{
    format!("{s:?}")
}

/// The label names no class.
pub open spec fn unknown_label(label: Seq<char>) -> bool {
    forall|f: Finding| label != (#[trigger] f.label())@
}

/// `r` is the invariant of a recorded finding.
pub open spec fn is_invariant_for(spec: FindingSpec, r: Result<Invariant, ReduceError>) -> bool {
    if spec.label@ == "verdict-flip"@ {
        match spec.mini {
            SideVerdict::Skipped => invalid(r, "verdict-flip without a mini verdict"@),
            mini => r == Ok::<Invariant, ReduceError>(
                Invariant::VerdictFlip { after: mini.label() },
            ),
        }
    } else if unknown_label(spec.label@) {
        invalid(r, "unknown finding label "@ + debug_text(spec.label@))
    } else {
        match r {
            Ok(Invariant::Classification { finding, kernel_category }) => finding.label()@
                == spec.label@ && kernel_category == match spec.kernel {
                SideVerdict::Reject { category } => Some(category),
                _ => None::<ReasonCategory>,
            },
            _ => false,
        }
    }
}

/// Build the invariant for a recorded finding.
pub fn invariant_for(spec: &FindingSpec) -> (r: Result<Invariant, ReduceError>)
    ensures
        is_invariant_for(*spec, r),
{
    if same_str(spec.label.as_str(), "verdict-flip") {
        return match spec.mini {
            SideVerdict::Skipped => Err(invalid_finding("verdict-flip without a mini verdict")),
            mini => Ok(Invariant::VerdictFlip { after: mini.name() }),
        };
    }
    match parse_finding(spec.label.as_str()) {
        Some(finding) => {
            assert(!unknown_label(spec.label@));
            let kernel_category: Option<ReasonCategory> = match spec.kernel {
                SideVerdict::Reject { category } => Some(category),
                _ => None,
            };
            Ok(Invariant::Classification { finding, kernel_category })
        },
        None => {
            let mut why: String = String::new();
            why.append("unknown finding label ");
            why.append(debug_str(spec.label.as_str()).as_str());
            assert(why@ =~= "unknown finding label "@ + debug_text(spec.label@));
            Err(ReduceError::InvalidFinding(why))
        },
    }
}

/// `e` is what stops a loaded finding: the sides cannot be derived, or do not
/// reproduce the record, or they do and the finding has no invariant.
pub open spec fn stopped<E: Fn(&[u8]) -> Result<Sides, ReduceError>>(
    spec: FindingSpec,
    bytes: Seq<u8>,
    evaluate: E,
    strict: bool,
    e: ReduceError,
) -> bool {
    ||| derives(evaluate, bytes, Err(e))
    ||| exists|sides: Sides|
        derives(evaluate, bytes, Ok(sides)) && #[trigger] is_replay_check(
            spec,
            sides,
            strict,
            Err(e),
        )
    ||| exists|sides: Sides|
        derives(evaluate, bytes, Ok(sides)) && #[trigger] reproduces(spec, sides, strict)
            && is_invariant_for(spec, Err(e))
}

/// `e` is why there is no baseline: the finding cannot be loaded, or it is
/// stopped behind that.
pub open spec fn refused<E: Fn(&[u8]) -> Result<Sides, ReduceError>>(
    meta: Result<String, String>,
    prog: Result<Vec<u8>, String>,
    prog_path: Seq<char>,
    evaluate: E,
    strict: bool,
    e: ReduceError,
) -> bool {
    ||| loaded(meta, prog, prog_path, Err(e))
    ||| exists|spec: FindingSpec, bytes: Vec<u8>|
        #![trigger loaded(meta, prog, prog_path, Ok((spec, bytes)))]
        loaded(meta, prog, prog_path, Ok((spec, bytes))) && stopped(
            spec,
            bytes@,
            evaluate,
            strict,
            e,
        )
}

/// These sides may be derived of these bytes.
pub open spec fn derives<E: Fn(&[u8]) -> Result<Sides, ReduceError>>(
    evaluate: E,
    bytes: Seq<u8>,
    r: Result<Sides, ReduceError>,
) -> bool {
    exists|b: &[u8]| b@ == bytes && #[trigger] call_ensures(evaluate, (b,), r)
}

/// The sides of a program.
pub fn derive_sides<E: Fn(&[u8]) -> Result<Sides, ReduceError>>(evaluate: &E, bytes: &[u8]) -> (r:
    Result<Sides, ReduceError>)
    requires
        forall|b: &[u8]| #[trigger] call_requires(*evaluate, (b,)),
    ensures
        derives(*evaluate, bytes@, r),
{
    let r: Result<Sides, ReduceError> = evaluate(bytes);
    assert(call_ensures(*evaluate, (bytes,), r));
    r
}

/// The baseline of a loaded finding.
pub open spec fn is_baseline<E: Fn(&[u8]) -> Result<Sides, ReduceError>>(
    base: Baseline,
    bytes: Seq<u8>,
    evaluate: E,
    strict: bool,
) -> bool {
    &&& derives(evaluate, bytes, Ok(base.sides))
    &&& reproduces(base.spec, base.sides, strict)
    &&& is_invariant_for(base.spec, Ok(base.invariant))
}

/// Load a finding and validate it against the pipeline: the baseline every
/// reduction starts from. `evaluate` re-derives the sides of a program.
pub fn load_and_replay<E: Fn(&[u8]) -> Result<Sides, ReduceError>>(
    meta: Result<String, String>,
    prog: Result<Vec<u8>, String>,
    prog_path: &str,
    evaluate: &E,
    strict: bool,
) -> (r: Result<(Baseline, Vec<u8>), ReduceError>)
    requires
        forall|b: &[u8]| #[trigger] call_requires(*evaluate, (b,)),
    ensures
        r matches Ok((base, bytes)) ==> {
            &&& loaded(meta, prog, prog_path@, Ok((base.spec, bytes)))
            &&& is_baseline(base, bytes@, *evaluate, strict)
        },
        r matches Err(e) ==> refused(meta, prog, prog_path@, *evaluate, strict, e),
{
    let (spec, bytes): (FindingSpec, Vec<u8>) = match load_finding(meta, prog, prog_path) {
        Ok(pair) => pair,
        Err(e) => {
            return Err(e);
        },
    };
    let sides: Sides = match derive_sides(evaluate, &bytes) {
        Ok(sides) => sides,
        Err(e) => {
            return Err(e);
        },
    };
    match replay_check(&spec, &sides, strict) {
        Ok(_) => {},
        Err(e) => {
            return Err(e);
        },
    }
    match invariant_for(&spec) {
        Ok(kept) => Ok((Baseline { spec, sides, invariant: kept }, bytes)),
        Err(e) => Err(e),
    }
}

// ── Laws ────────────────────────────────────────────────────────────────────

/// The encoding of a side can be read back: no two sides are encoded alike.
pub proof fn side_encoding_is_injective(a: SideVerdict, b: SideVerdict)
    requires
        side_text(a) == side_text(b),
    ensures
        a == b,
{
    reveal_strlit("ACCEPT");
    reveal_strlit("SKIPPED");
    reveal_strlit("REJECT(");
    let x = side_text(a);
    let y = side_text(b);
    assert(x[0] == y[0]);
    if a is Reject && b is Reject {
        let p = category_text(a->category);
        let q = category_text(b->category);
        assert(x.subrange(7, x.len() - 1) =~= p);
        assert(y.subrange(7, y.len() - 1) =~= q);
        lemma_category_names(a->category, b->category);
    }
}

/// A finding that replays is preserved by its own program: the reduction
/// starts from a program that its invariant accepts.
pub proof fn replayed_finding_is_preserved(
    spec: FindingSpec,
    sides: Sides,
    strict: bool,
    kept: Invariant,
)
    requires
        reproduces(spec, sides, strict),
        is_invariant_for(spec, Ok(kept)),
        spec.label@ != "verdict-flip"@ ==> spec.finding is Some && spec.finding->0.label()@
            == spec.label@,
    ensures
        kept.holds(spec.name@, sides, strict),
{
    if let Invariant::Classification { finding, .. } = kept {
        finding_labels_differ(finding, spec.finding->0);
    }
}

/// No two classes have one label.
pub proof fn finding_labels_differ(a: Finding, b: Finding)
    requires
        a.label()@ == b.label()@,
    ensures
        a == b,
{
    reveal_strlit("precision-candidate");
    reveal_strlit("kernel-unsound-candidate");
    reveal_strlit("kernel-overstrict-candidate");
    reveal_strlit("soundness-candidate");
    reveal_strlit("rv-precision-gap");
    reveal_strlit("rv-soundness-bug");
    reveal_strlit("agree");
    reveal_strlit("whitelisted");
    reveal_strlit("inconclusive");
    reveal_strlit("skipped");
    let x = a.label()@;
    let y = b.label()@;
    assert(x.len() == y.len() && x[0] == y[0] && x[1] == y[1] && x[3] == y[3]);
}

} // verus!
