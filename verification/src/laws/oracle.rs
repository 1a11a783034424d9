//! The oracle: which verdicts each class stands for.

use vstd::prelude::*;

use crate::concrete::ConcreteReport;
use crate::diff;
use crate::diff::SideVerdict;
use crate::fuzz::oracle;
use crate::fuzz::oracle::{Evidence, Finding};
use crate::krun::KernelOutcome;

verus! {

/// The text holds the words "stack slot".
pub open spec fn tells_of_a_stack_slot(message: Seq<char>) -> bool {
    exists|before: Seq<char>, behind: Seq<char>|
        message == #[trigger] (before + "stack slot"@ + behind)
}

/// The mini verifier rejects a read of stack that was not written.
pub open spec fn unwritten_stack(e: Evidence) -> bool {
    &&& e.mini matches SideVerdict::Reject { category }
    &&& category is UninitRead
    &&& e.mini_reason matches Some(message)
    &&& tells_of_a_stack_slot(message)
}

/// Both sides reject for one reason.
pub open spec fn one_reason(e: Evidence) -> bool {
    match (e.mini, e.kernel) {
        (SideVerdict::Reject { category: m }, SideVerdict::Reject { category: k }) => m == k,
        _ => false,
    }
}

/// The kernel rejects by a rule of strict mode, and strict mode is on.
pub open spec fn strict_rule(e: Evidence) -> bool {
    &&& e.strict
    &&& e.kernel matches SideVerdict::Reject { category }
    &&& (category is PointerArith || category is Complexity)
}

/// The mini verifier is known to be stricter than a kernel that accepts the
/// program.
pub open spec fn known_strictness(e: Evidence) -> bool {
    &&& e.mini is Reject
    &&& e.kernel is Accept
    &&& (e.name == "complexity_limit"@ || e.name == "stack_write_before_read"@ || unwritten_stack(
        e,
    ))
}

proof fn lemma_stack_slot(message: Seq<char>)
    ensures
        crate::text::has(message, "stack slot"@) == tells_of_a_stack_slot(message),
{
    crate::laws::texts::holding_is_standing_between(message, "stack slot"@);
}

/// A difference of the two verifiers is a known one exactly on an accept of the
/// kernel against a reject of the mini verifier that is for unwritten stack or on
/// one of the two fixtures.
pub proof fn known_differences(e: Evidence)
    ensures
        oracle::by_design(e) == known_strictness(e),
        diff::lenient(e.mini, e.mini_reason) == unwritten_stack(e),
{
    if e.mini_reason is Some {
        lemma_stack_slot(e.mini_reason->0);
    }
}

/// A program whose run came to no end is inconclusive, and no other is.
pub proof fn inconclusive_runs(e: Evidence)
    ensures
        oracle::class_of(e) is Inconclusive <==> e.concrete is Inconclusive,
{
}

/// A program that runs unsafely although both verifiers were asked: the mini
/// verifier's accept is its own bug, and the kernel's accept against its reject is
/// a candidate unless the difference is known; where neither accepts, they agree.
pub proof fn unsafe_runs(e: Evidence)
    requires
        e.concrete is Unsafe,
    ensures
        oracle::class_of(e) is RvSoundnessBug <==> e.mini is Accept,
        oracle::class_of(e) is SoundnessCandidate <==> e.mini is Reject && e.kernel is Accept
            && !known_strictness(e),
        oracle::class_of(e) is Whitelisted <==> e.mini is Reject && e.kernel is Accept
            && known_strictness(e),
        oracle::class_of(e) is Agree <==> !(e.mini is Accept) && !(e.mini is Reject
            && e.kernel is Accept),
{
    known_differences(e);
}

/// A program that runs safely and that the kernel accepts: beside the known
/// differences, the safety specification speaks first, then the mini verifier.
pub proof fn accepted_safe_runs(e: Evidence)
    requires
        e.concrete is Safe,
        e.kernel is Accept,
    ensures
        oracle::class_of(e) is Whitelisted <==> known_strictness(e),
        oracle::class_of(e) is KernelUnsoundCandidate <==> e.spec is Reject && !known_strictness(e),
        oracle::class_of(e) is RvPrecisionGap <==> e.mini is Reject && !(e.spec is Reject)
            && !known_strictness(e),
        oracle::class_of(e) is Agree <==> !(e.mini is Reject) && !(e.spec is Reject),
{
    known_differences(e);
}

/// A program that runs safely and that the kernel rejects: a candidate, unless the
/// reject is a strict rule or has the mini verifier's reason.
pub proof fn rejected_safe_runs(e: Evidence)
    requires
        e.concrete is Safe,
        e.kernel is Reject,
    ensures
        oracle::class_of(e) is Whitelisted <==> strict_rule(e) || one_reason(e),
        oracle::class_of(e) is KernelOverstrictCandidate <==> e.spec is Accept && !strict_rule(e)
            && !one_reason(e),
        oracle::class_of(e) is PrecisionCandidate <==> !(e.spec is Accept) && !strict_rule(e)
            && !one_reason(e),
{
}

/// A safe program is skipped exactly where the kernel gave no verdict.
pub proof fn skipped_runs(e: Evidence)
    ensures
        oracle::class_of(e) is Skipped <==> e.concrete is Safe && e.kernel is Skipped,
{
}

/// The six classes on which two sides part are stored; the four others are not.
pub proof fn stored_classes(f: Finding)
    ensures
        f.stored() <==> {
            ||| f is PrecisionCandidate
            ||| f is KernelUnsoundCandidate
            ||| f is KernelOverstrictCandidate
            ||| f is SoundnessCandidate
            ||| f is RvPrecisionGap
            ||| f is RvSoundnessBug
        },
{
}

/// The kernel's word is kept: an accept is an accept, a reject keeps its reason,
/// and what is neither is no verdict.
pub proof fn kernel_verdicts(outcome: KernelOutcome)
    ensures
        diff::side_of(outcome) is Accept <==> outcome is Accept,
        diff::side_of(outcome) is Reject <==> outcome is Reject,
        outcome matches KernelOutcome::Reject { category, .. } ==> diff::side_of(outcome) == (
        SideVerdict::Reject { category }),
{
}

/// A concrete run speaks for the program as its report does; without a report
/// nothing is known.
pub proof fn concrete_verdicts(report: ConcreteReport)
    ensures
        oracle::side_of_report(Some(report)) is Safe <==> report.verdict is Safe,
        oracle::side_of_report(Some(report)) is Unsafe <==> report.verdict is Unsafe,
        oracle::side_of_report(Some(report)) is Inconclusive <==> report.verdict is Inconclusive,
        oracle::side_of_report(None) is Inconclusive,
        oracle::violation_pc(Some(report)) is Some <==> report.violations@.len() > 0,
        report.violations@.len() > 0 ==> oracle::violation_pc(Some(report)) == Some(
            report.violations@.first().pc,
        ),
        oracle::violation_pc(None) is None,
{
}

} // verus!
