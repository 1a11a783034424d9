//! The verdict of one verifier on a program, and the known design differences
//! between the mini verifier and the kernel.

use vstd::prelude::*;

use crate::klog::ReasonCategory;
use crate::krun::KernelOutcome;
use crate::text;
use crate::text::{chars_of, contains_str, same_str};

verus! {

/// One verifier's verdict on a program.
#[derive(Debug, Clone, Copy, PartialEq, Eq, Structural)]
pub enum SideVerdict {
    Accept,
    Reject { category: ReasonCategory },
    /// The verifier was not consulted, or gave no verdict.
    Skipped,
}

impl SideVerdict {
    pub open spec fn label(self) -> &'static str {
        match self {
            SideVerdict::Accept => "ACCEPT",
            SideVerdict::Reject { .. } => "REJECT",
            SideVerdict::Skipped => "SKIPPED",
        }
    }

    pub fn name(&self) -> (s: &'static str)
        ensures
            s == self.label(),
    {
        match self {
            SideVerdict::Accept => "ACCEPT",
            SideVerdict::Reject { .. } => "REJECT",
            SideVerdict::Skipped => "SKIPPED",
        }
    }
}

/// The verdict that an outcome of a kernel load is; anything but an accept or
/// a reject is none.
pub open spec fn side_of(outcome: KernelOutcome) -> SideVerdict {
    match outcome {
        KernelOutcome::Accept => SideVerdict::Accept,
        KernelOutcome::Reject { category, .. } => SideVerdict::Reject { category },
        _ => SideVerdict::Skipped,
    }
}

/// The kernel side of a load.
pub fn kernel_side(outcome: &KernelOutcome) -> (side: SideVerdict)
    ensures
        side == side_of(*outcome),
{
    match outcome {
        KernelOutcome::Accept => SideVerdict::Accept,
        KernelOutcome::Reject { category, .. } => SideVerdict::Reject { category: *category },
        _ => SideVerdict::Skipped,
    }
}

/// The text of a message, where there is one.
pub open spec fn text_of(reason: Option<&str>) -> Option<Seq<char>> {
    match reason {
        Some(r) => Some(r@),
        None => None,
    }
}

/// The message of the mini verifier speaks of a stack slot.
pub open spec fn names_stack_slot(reason: Option<Seq<char>>) -> bool {
    match reason {
        Some(r) => text::has(r, "stack slot"@),
        None => false,
    }
}

/// An uninitialized read of the stack, which a privileged load allows by
/// design. Uninitialized reads of registers are none: the kernel rejects them
/// too.
pub open spec fn lenient(mini: SideVerdict, reason: Option<Seq<char>>) -> bool {
    mini == (SideVerdict::Reject { category: ReasonCategory::UninitRead }) && names_stack_slot(
        reason,
    )
}

/// A reject of the mini verifier that a privileged kernel accepts by design.
pub fn privileged_stack_leniency(mini: &SideVerdict, reason: Option<&str>) -> (b: bool)
    ensures
        b == lenient(*mini, text_of(reason)),
{
    match (*mini, reason) {
        (SideVerdict::Reject { category: ReasonCategory::UninitRead }, Some(r)) => contains_str(
            &chars_of(r),
            "stack slot",
        ),
        _ => false,
    }
}

/// A program that the kernel accepts and the mini verifier rejects by design:
/// one of the known fixtures, or a read of the stack that privilege allows.
pub open spec fn known_difference(
    name: Seq<char>,
    mini: SideVerdict,
    kernel: SideVerdict,
    reason: Option<Seq<char>>,
) -> bool {
    mini is Reject && kernel is Accept && (name == "complexity_limit"@ || name
        == "stack_write_before_read"@ || lenient(mini, reason))
}

/// Whether a difference between the two verifiers is a known one.
pub fn whitelisted(name: &str, mini: &SideVerdict, kernel: &SideVerdict, reason: Option<&str>) -> (b:
    bool)
    ensures
        b == known_difference(name@, *mini, *kernel, text_of(reason)),
{
    match (mini, kernel) {
        (SideVerdict::Reject { .. }, SideVerdict::Accept) => same_str(name, "complexity_limit")
            || same_str(name, "stack_write_before_read") || privileged_stack_leniency(mini, reason),
        _ => false,
    }
}

} // verus!
