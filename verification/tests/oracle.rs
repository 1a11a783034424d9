use rand_verifier::concrete::{ConcreteReport, ConcreteVerdict, CoverageViolation};
use rand_verifier::diff::SideVerdict;
use rand_verifier::fuzz::oracle::{
    classify, classify_env, concrete_side, first_violation_pc, ConcreteSide, Finding, OracleInput,
    SpecSide,
};
use rand_verifier::klog::ReasonCategory;


fn acc() -> SideVerdict {
    SideVerdict::Accept
}
fn rej(c: ReasonCategory) -> SideVerdict {
    SideVerdict::Reject { category: c }
}
fn skip() -> SideVerdict {
    SideVerdict::Skipped
}
fn classify_with(
    mini: SideVerdict,
    concrete: ConcreteSide,
    kernel: SideVerdict,
    name: &str,
    strict: bool,
) -> Finding {
    classify(&OracleInput {
        name,
        mini: &mini,
        mini_reason: None,
        concrete,
        kernel: &kernel,
        strict,
        spec: SpecSide::Inconclusive,
    })
}

/// Every row of the classification matrix plus the precedence
/// conflicts.
#[test]
fn classify_matrix_all_rows() {
    let u = ReasonCategory::UninitRead;
    let s = ReasonCategory::StackBounds;

    // agree: everything accepts
    assert_eq!(
        classify_with(acc(), ConcreteSide::Safe, acc(), "p", false),
        Finding::Agree
    );
    // agree: everything rejects (concrete also fails)
    assert_eq!(
        classify_with(rej(u), ConcreteSide::Unsafe, rej(u), "p", false),
        Finding::Agree
    );
    // rv precision gap: mini rejects what the kernel accepts
    assert_eq!(
        classify_with(rej(s), ConcreteSide::Safe, acc(), "p", false),
        Finding::RvPrecisionGap
    );
    // precision candidate: kernel rejects a concretely safe program
    // with a different reason than mini
    assert_eq!(
        classify_with(rej(u), ConcreteSide::Safe, rej(s), "p", false),
        Finding::PrecisionCandidate
    );
    // same-reason reject: intended agreement, not a finding
    assert_eq!(
        classify_with(rej(u), ConcreteSide::Safe, rej(u), "p", false),
        Finding::Whitelisted
    );
    // soundness candidate: kernel accepts a concretely unsafe program
    assert_eq!(
        classify_with(rej(u), ConcreteSide::Unsafe, acc(), "p", false),
        Finding::SoundnessCandidate
    );
    // rv soundness bug: mini accepts a concretely unsafe program
    assert_eq!(
        classify_with(acc(), ConcreteSide::Unsafe, rej(u), "p", false),
        Finding::RvSoundnessBug
    );
    assert_eq!(
        classify_with(acc(), ConcreteSide::Unsafe, acc(), "p", false),
        Finding::RvSoundnessBug
    );
    // inconclusive concrete → non-finding
    assert_eq!(
        classify_with(rej(u), ConcreteSide::Inconclusive, acc(), "p", false),
        Finding::Inconclusive
    );
    // kernel skipped (unprivileged run)
    assert_eq!(
        classify_with(acc(), ConcreteSide::Safe, skip(), "p", false),
        Finding::Skipped
    );
    // the model bug still surfaces without the kernel
    assert_eq!(
        classify_with(acc(), ConcreteSide::Unsafe, skip(), "p", false),
        Finding::RvSoundnessBug
    );
}

/// The diff whitelist (name-based) and the strict-mode `!root`
/// rules never count as findings.
#[test]
fn whitelist_name_and_strict() {
    let u = ReasonCategory::UninitRead;
    // known differences are whitelisted by name
    assert_eq!(
        classify_with(
            rej(ReasonCategory::Complexity),
            ConcreteSide::Safe,
            acc(),
            "complexity_limit",
            false
        ),
        Finding::Whitelisted
    );
    assert_eq!(
        classify_with(
            rej(u),
            ConcreteSide::Unsafe,
            acc(),
            "stack_write_before_read",
            false
        ),
        Finding::Whitelisted
    );
    // the same pair under a fuzzer-generated name is a finding
    assert_eq!(
        classify_with(
            rej(ReasonCategory::Complexity),
            ConcreteSide::Safe,
            acc(),
            "seed-1-3",
            false
        ),
        Finding::RvPrecisionGap
    );
    // strict mode whitelists the !root kernel rules even when mini
    // rejects for a different reason...
    assert_eq!(
        classify_with(
            rej(u),
            ConcreteSide::Safe,
            rej(ReasonCategory::PointerArith),
            "seed-1-3",
            true
        ),
        Finding::Whitelisted
    );
    // ...but they are precision candidates in the default mode
    assert_eq!(
        classify_with(
            rej(u),
            ConcreteSide::Safe,
            rej(ReasonCategory::PointerArith),
            "seed-1-3",
            false
        ),
        Finding::PrecisionCandidate
    );
}

fn report(verdict: ConcreteVerdict) -> ConcreteReport {
    ConcreteReport { verdict, violations: vec![] }
}

/// The concrete side is read off the report of the run.
#[test]
fn concrete_side_detection() {
    // mov r0, 42; exit
    assert_eq!(concrete_side(&report(ConcreteVerdict::Safe)), ConcreteSide::Safe);
    // r0 = 1; r0 += r2 (uninit); exit
    assert_eq!(concrete_side(&report(ConcreteVerdict::Unsafe)), ConcreteSide::Unsafe);
    // r0 = 0; r0 += 1; jmp -2
    assert_eq!(
        concrete_side(&report(ConcreteVerdict::Inconclusive)),
        ConcreteSide::Inconclusive
    );
    assert_eq!(first_violation_pc(None), None);
    let violated = ConcreteReport {
        verdict: ConcreteVerdict::Safe,
        violations: vec![CoverageViolation { pc: 4 }, CoverageViolation { pc: 2 }],
    };
    assert_eq!(first_violation_pc(Some(&violated)), Some(4));
}

/// The wrapper reads the concrete report and classifies.
#[test]
fn classify_env_wrapper() {
    // clean accept + kernel skipped (unprivileged run)
    let run = report(ConcreteVerdict::Safe);
    let finding = classify_env(
        Some(&run),
        "seed-0-0",
        &acc(),
        None,
        &skip(),
        false,
        SpecSide::Inconclusive,
    );
    assert_eq!(finding, Finding::Skipped);

    // reject-that-executes + kernel reject with a different reason
    // is a precision candidate
    let mini = rej(ReasonCategory::Unreachable);
    let kernel = rej(ReasonCategory::UninitRead);
    let finding = classify_env(
        Some(&run),
        "seed-0-1",
        &mini,
        None,
        &kernel,
        false,
        SpecSide::Inconclusive,
    );
    assert_eq!(finding, Finding::PrecisionCandidate);

    // a program that does not decode has no concrete report: inconclusive
    let finding = classify_env(
        None,
        "seed-0-2",
        &rej(ReasonCategory::Other),
        None,
        &rej(ReasonCategory::Other),
        false,
        SpecSide::Inconclusive,
    );
    assert_eq!(finding, Finding::Inconclusive);
}

/// A privileged kernel allows reads of stack slots that were never written:
/// such a difference is no finding. Registers are another matter.
#[test]
fn whitelist_privileged_uninit_stack() {
    // r2 = 10; r0 = *(u64 *)(r10 - 8); exit fails when it is run
    let run = report(ConcreteVerdict::Unsafe);
    let mini = rej(ReasonCategory::UninitRead);

    // stack-slot uninit + kernel accept = privileged design
    // behaviour (allow_uninit_stack)
    let reason = "stack slot at offset -8 is uninitialized (write before read)";
    let finding = classify_env(
        Some(&run),
        "mseed-5-19",
        &mini,
        Some(reason),
        &acc(),
        false,
        SpecSide::Inconclusive,
    );
    assert_eq!(finding, Finding::Whitelisted);

    // register uninit + kernel accept stays a soundness candidate
    // (the kernel rejects those — an accept would be a real bug)
    let reason = "register r2 is uninitialized";
    let finding = classify_env(
        Some(&run),
        "mseed-x",
        &mini,
        Some(reason),
        &acc(),
        false,
        SpecSide::Inconclusive,
    );
    assert_eq!(finding, Finding::SoundnessCandidate);
}
