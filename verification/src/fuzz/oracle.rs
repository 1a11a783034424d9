//! The oracle: one program's verdicts become exactly one class.
//!
//! A concrete failure is a witness. The mini verifier finds the library's own
//! bugs, the kernel side candidates for kernel bugs, and the independent
//! safety specification tells which of two verifiers is off.

use vstd::prelude::*;

use crate::concrete::{ConcreteReport, ConcreteVerdict};
use crate::diff;
use crate::diff::{privileged_stack_leniency, whitelisted, SideVerdict};
use crate::klog::ReasonCategory;

verus! {

/// The concrete side of one program.
#[derive(Debug, Clone, Copy, PartialEq, Eq, Structural)]
pub enum ConcreteSide {
    /// The concrete run executed the program safely.
    Safe,
    /// The concrete run failed, or the abstract states failed to cover it.
    Unsafe,
    /// The concrete run hit an exploration budget.
    Inconclusive,
}

/// The independent safety specification's verdict on one program.
#[derive(Debug, Clone, Copy, PartialEq, Eq, Structural)]
pub enum SpecSide {
    Accept,
    Reject,
    /// The specification does not model the program; never a finding.
    Inconclusive,
}

/// The concrete side of a report; a program that failed to decode has none,
/// and is inconclusive.
pub open spec fn side_of_report(report: Option<ConcreteReport>) -> ConcreteSide {
    match report {
        Some(r) => match r.verdict {
            ConcreteVerdict::Safe => ConcreteSide::Safe,
            ConcreteVerdict::Unsafe => ConcreteSide::Unsafe,
            ConcreteVerdict::Inconclusive => ConcreteSide::Inconclusive,
        },
        None => ConcreteSide::Inconclusive,
    }
}

/// Read the concrete side from a verification report.
pub fn concrete_side(report: &ConcreteReport) -> (side: ConcreteSide)
    ensures
        side == side_of_report(Some(*report)),
{
    match report.verdict {
        ConcreteVerdict::Safe => ConcreteSide::Safe,
        ConcreteVerdict::Unsafe => ConcreteSide::Unsafe,
        ConcreteVerdict::Inconclusive => ConcreteSide::Inconclusive,
    }
}

/// The classification of one program.
#[derive(Debug, Clone, Copy, PartialEq, Eq, PartialOrd, Ord, Structural)]
pub enum Finding {
    /// The kernel rejects a concretely safe program.
    PrecisionCandidate,
    /// The kernel accepts what the specification rejects, without a concrete
    /// witness.
    KernelUnsoundCandidate,
    /// The kernel rejects what the specification accepts, and no concrete
    /// witness speaks against it.
    KernelOverstrictCandidate,
    /// The kernel accepts a concretely unsafe program.
    SoundnessCandidate,
    /// The mini verifier is more conservative than the kernel.
    RvPrecisionGap,
    /// The mini verifier accepts a concretely unsafe program: a model bug.
    RvSoundnessBug,
    /// All sides agree.
    Agree,
    /// A known design difference.
    Whitelisted,
    /// The concrete side is inconclusive.
    Inconclusive,
    /// The kernel side gave no verdict.
    Skipped,
}

impl Finding {
    pub open spec fn label(self) -> &'static str {
        match self {
            Finding::PrecisionCandidate => "precision-candidate",
            Finding::KernelUnsoundCandidate => "kernel-unsound-candidate",
            Finding::KernelOverstrictCandidate => "kernel-overstrict-candidate",
            Finding::SoundnessCandidate => "soundness-candidate",
            Finding::RvPrecisionGap => "rv-precision-gap",
            Finding::RvSoundnessBug => "rv-soundness-bug",
            Finding::Agree => "agree",
            Finding::Whitelisted => "whitelisted",
            Finding::Inconclusive => "inconclusive",
            Finding::Skipped => "skipped",
        }
    }

    /// A class that is stored.
    pub open spec fn stored(self) -> bool {
        !(self is Agree || self is Whitelisted || self is Inconclusive || self is Skipped)
    }

    pub fn name(&self) -> (s: &'static str)
        ensures
            s == self.label(),
    {
        match self {
            Finding::PrecisionCandidate => "precision-candidate",
            Finding::KernelUnsoundCandidate => "kernel-unsound-candidate",
            Finding::KernelOverstrictCandidate => "kernel-overstrict-candidate",
            Finding::SoundnessCandidate => "soundness-candidate",
            Finding::RvPrecisionGap => "rv-precision-gap",
            Finding::RvSoundnessBug => "rv-soundness-bug",
            Finding::Agree => "agree",
            Finding::Whitelisted => "whitelisted",
            Finding::Inconclusive => "inconclusive",
            Finding::Skipped => "skipped",
        }
    }

    /// Whether this classification is a stored finding (or discarded).
    pub fn is_finding(&self) -> (b: bool)
        ensures
            b == self.stored(),
    {
        match self {
            Finding::PrecisionCandidate
            | Finding::KernelUnsoundCandidate
            | Finding::KernelOverstrictCandidate
            | Finding::SoundnessCandidate
            | Finding::RvPrecisionGap
            | Finding::RvSoundnessBug => true,
            _ => false,
        }
    }
}

/// The verdict sources and the context of whitelisting.
pub struct OracleInput<'a> {
    /// Program name, for the whitelist by name.
    pub name: &'a str,
    /// The mini side.
    pub mini: &'a SideVerdict,
    /// The mini failure message: the category alone does not tell a stack
    /// read from a register read.
    pub mini_reason: Option<&'a str>,
    /// The concrete side.
    pub concrete: ConcreteSide,
    /// The kernel side, `Skipped` when the kernel was not consulted.
    pub kernel: &'a SideVerdict,
    /// The kernel ran with unprivileged-equivalent rules, so that rejections
    /// of those rules are design behaviour.
    pub strict: bool,
    /// The side of the safety specification.
    pub spec: SpecSide,
}

/// What the class of a program depends on.
pub struct Evidence {
    pub name: Seq<char>,
    pub mini: SideVerdict,
    pub mini_reason: Option<Seq<char>>,
    pub concrete: ConcreteSide,
    pub kernel: SideVerdict,
    pub strict: bool,
    pub spec: SpecSide,
}

impl<'a> OracleInput<'a> {
    pub open spec fn evidence(self) -> Evidence {
        Evidence {
            name: self.name@,
            mini: *self.mini,
            mini_reason: diff::text_of(self.mini_reason),
            concrete: self.concrete,
            kernel: *self.kernel,
            strict: self.strict,
            spec: self.spec,
        }
    }
}

/// The two verifiers differ on the program by design.
pub open spec fn by_design(e: Evidence) -> bool {
    diff::known_difference(e.name, e.mini, e.kernel, e.mini_reason)
}

/// A kernel reject that says nothing against the kernel: a rule of strict
/// mode, or the reason for which the mini verifier rejects too.
pub open spec fn intended_reject(e: Evidence, category: ReasonCategory) -> bool {
    ||| e.strict && (category == ReasonCategory::PointerArith || category
        == ReasonCategory::Complexity)
    ||| e.mini == (SideVerdict::Reject { category })
}

/// The class of a program.
pub open spec fn class_of(e: Evidence) -> Finding {
    match e.concrete {
        ConcreteSide::Inconclusive => Finding::Inconclusive,
        ConcreteSide::Unsafe => if e.mini is Accept {
            Finding::RvSoundnessBug
        } else if e.mini is Reject && e.kernel is Accept {
            if by_design(e) { Finding::Whitelisted } else { Finding::SoundnessCandidate }
        } else {
            Finding::Agree
        },
        ConcreteSide::Safe => match e.kernel {
            SideVerdict::Skipped => Finding::Skipped,
            SideVerdict::Accept => if by_design(e) {
                Finding::Whitelisted
            } else if e.spec is Reject {
                Finding::KernelUnsoundCandidate
            } else if e.mini is Reject {
                Finding::RvPrecisionGap
            } else {
                Finding::Agree
            },
            SideVerdict::Reject { category } => if intended_reject(e, category) {
                Finding::Whitelisted
            } else if e.spec is Accept {
                Finding::KernelOverstrictCandidate
            } else {
                Finding::PrecisionCandidate
            },
        },
    }
}

/// Classify one program into exactly one [`Finding`]. Model bugs come before
/// soundness, soundness before precision, precision before gaps.
pub fn classify(input: &OracleInput) -> (f: Finding)
    ensures
        f == class_of(input.evidence()),
{
    match input.concrete {
        ConcreteSide::Inconclusive => Finding::Inconclusive,
        ConcreteSide::Unsafe => match (input.mini, input.kernel) {
            (SideVerdict::Accept, _) => Finding::RvSoundnessBug,
            (SideVerdict::Reject { .. }, SideVerdict::Accept) => {
                if whitelisted(input.name, input.mini, input.kernel, input.mini_reason) {
                    Finding::Whitelisted
                } else {
                    Finding::SoundnessCandidate
                }
            },
            _ => Finding::Agree,
        },
        ConcreteSide::Safe => match *input.kernel {
            SideVerdict::Skipped => Finding::Skipped,
            SideVerdict::Accept => {
                if whitelisted(input.name, input.mini, input.kernel, input.mini_reason) {
                    return Finding::Whitelisted;
                }
                match (input.spec, input.mini) {
                    (SpecSide::Reject, _) => Finding::KernelUnsoundCandidate,
                    (_, SideVerdict::Reject { .. }) => Finding::RvPrecisionGap,
                    _ => Finding::Agree,
                }
            },
            SideVerdict::Reject { category } => {
                if input.strict && (category == ReasonCategory::PointerArith || category
                    == ReasonCategory::Complexity) {
                    return Finding::Whitelisted;
                }
                if let SideVerdict::Reject { category: mini_category } = *input.mini {
                    if mini_category == category {
                        return Finding::Whitelisted;
                    }
                }
                match input.spec {
                    SpecSide::Accept => Finding::KernelOverstrictCandidate,
                    _ => Finding::PrecisionCandidate,
                }
            },
        },
    }
}

/// Privileged loads allow reads of uninitialized stack by design.
pub fn is_privileged_uninit_stack(mini: &SideVerdict, reason: Option<&str>) -> (b: bool)
    ensures
        b == diff::lenient(*mini, diff::text_of(reason)),
{
    privileged_stack_leniency(mini, reason)
}

/// Classify a verified program from the report of its concrete run. A program
/// that failed to decode has no report and is inconclusive.
pub fn classify_env(
    report: Option<&ConcreteReport>,
    name: &str,
    mini: &SideVerdict,
    mini_reason: Option<&str>,
    kernel: &SideVerdict,
    strict: bool,
    spec: SpecSide,
) -> (f: Finding)
    ensures
        f == class_of(
            (Evidence {
                name: name@,
                mini: *mini,
                mini_reason: diff::text_of(mini_reason),
                concrete: side_of_report(
                    match report {
                        Some(r) => Some(*r),
                        None => None,
                    },
                ),
                kernel: *kernel,
                strict,
                spec,
            }),
        ),
{
    let concrete: ConcreteSide = match report {
        Some(r) => concrete_side(r),
        None => ConcreteSide::Inconclusive,
    };
    classify(&OracleInput { name, mini, mini_reason, concrete, kernel, strict, spec })
}

/// The pc of the first violation of a report.
pub open spec fn violation_pc(report: Option<ConcreteReport>) -> Option<u32> {
    match report {
        Some(r) if r.violations@.len() > 0 => Some(r.violations@[0].pc),
        _ => None,
    }
}

/// The first coverage-violation pc of a report, if any: the concrete
/// divergence point.
pub fn first_violation_pc(report: Option<&ConcreteReport>) -> (pc: Option<u32>)
    ensures
        pc == violation_pc(
            match report {
                Some(r) => Some(*r),
                None => None,
            },
        ),
{
    match report {
        Some(r) => {
            if r.violations.len() > 0 {
                Some(r.violations[0].pc)
            } else {
                None
            }
        },
        None => None,
    }
}

// ── Laws ────────────────────────────────────────────────────────────────────

/// A program that the mini verifier accepts and that is concretely unsafe is
/// always a model bug, whatever the other sides say, and nothing else is.
pub proof fn model_bug_always_surfaces(e: Evidence)
    ensures
        (class_of(e) is RvSoundnessBug) == (e.mini is Accept && e.concrete is Unsafe),
{
}

/// Without a kernel verdict no finding is about the kernel.
pub proof fn no_kernel_finding_without_kernel(e: Evidence)
    requires
        e.kernel is Skipped,
    ensures
        class_of(e).stored() ==> class_of(e) is RvSoundnessBug,
{
}

/// What the specification leaves open is no finding of it: the two classes
/// that rest on the specification need its verdict and no concrete witness.
pub proof fn spec_findings_need_a_verdict(e: Evidence)
    ensures
        class_of(e) is KernelUnsoundCandidate ==> e.kernel is Accept && e.spec is Reject
            && !(e.concrete is Unsafe),
        class_of(e) is KernelOverstrictCandidate ==> e.kernel is Reject
            && e.spec is Accept && !(e.concrete is Unsafe),
{
}

/// A program that the kernel accepts and that runs safely is never a kernel
/// soundness candidate of the concrete axis.
pub proof fn safe_program_is_no_soundness_candidate(e: Evidence)
    requires
        e.concrete is Safe,
    ensures
        !(class_of(e) is SoundnessCandidate),
{
}

} // verus!
