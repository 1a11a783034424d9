//! The report of a concrete run of a program.

use vstd::prelude::*;

verus! {

/// How a concrete run ended.
#[derive(Debug, Clone, Copy, PartialEq, Eq, Structural)]
pub enum ConcreteVerdict {
    Safe,
    Unsafe,
    /// An exploration budget was hit.
    Inconclusive,
}

/// A concrete state that the abstract states do not cover.
#[derive(Debug, Clone, Copy, PartialEq, Eq, Structural)]
pub struct CoverageViolation {
    pub pc: u32,
}

/// The report of a concrete run.
#[derive(Debug, Clone, PartialEq, Eq)]
pub struct ConcreteReport {
    pub verdict: ConcreteVerdict,
    /// Violations in the order in which they were met.
    pub violations: Vec<CoverageViolation>,
}

} // verus!
