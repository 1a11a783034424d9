use rand_verifier::diff::SideVerdict;
use rand_verifier::fuzz::oracle::Finding;
use rand_verifier::fuzz::triage::{group, Candidate, Divergence};
use rand_verifier::klog::ReasonCategory;


fn cand(
    name: &str,
    finding: Finding,
    mini_cat: Option<ReasonCategory>,
    kernel_cat: Option<ReasonCategory>,
    mini_insn: Option<u32>,
    kernel_insn: Option<u32>,
    concrete_pc: Option<u32>,
) -> Candidate {
    Candidate {
        name: name.to_string(),
        finding,
        mini: match mini_cat {
            Some(c) => SideVerdict::Reject { category: c },
            None => SideVerdict::Accept,
        },
        kernel: match kernel_cat {
            Some(c) => SideVerdict::Reject { category: c },
            None => SideVerdict::Accept,
        },
        divergence: Divergence {
            mini_insn,
            kernel_insn,
            concrete_pc,
        },
    }
}

/// 1000 same-cause candidates → exactly one group with count 1000
/// and the name-sorted first candidate as the representative.
#[test]
fn triage_1000_same_cause() {
    let mut candidates = Vec::new();
    for i in 0..1000 {
        candidates.push(cand(
            &format!("seed-0-{i}"),
            Finding::PrecisionCandidate,
            Some(ReasonCategory::UninitRead),
            Some(ReasonCategory::StackBounds),
            Some(7),
            Some(9),
            None,
        ));
    }
    let groups = group(candidates);
    assert_eq!(groups.len(), 1);
    assert_eq!(groups[0].count, 1000);
    assert_eq!(groups[0].representative, "seed-0-0");
    assert_eq!(groups[0].key.div_insn, Some(7));
    assert_eq!(groups[0].priority, 1);
}

/// Every key component separates groups: finding, mini category,
/// kernel category, divergent instruction, concrete divergence.
#[test]
fn triage_different_causes_separate() {
    let u = ReasonCategory::UninitRead;
    let s = ReasonCategory::StackBounds;
    let candidates = vec![
        // the baseline cause
        cand(
            "a",
            Finding::PrecisionCandidate,
            Some(u),
            Some(s),
            Some(7),
            Some(9),
            None,
        ),
        // different mini failure instruction
        cand(
            "b",
            Finding::PrecisionCandidate,
            Some(u),
            Some(s),
            Some(8),
            Some(9),
            None,
        ),
        // different mini category
        cand(
            "c",
            Finding::PrecisionCandidate,
            Some(ReasonCategory::StackAlign),
            Some(s),
            Some(7),
            Some(9),
            None,
        ),
        // different finding
        cand(
            "d",
            Finding::SoundnessCandidate,
            Some(u),
            None,
            Some(7),
            None,
            None,
        ),
        // different concrete divergence
        cand(
            "e",
            Finding::PrecisionCandidate,
            Some(u),
            Some(s),
            Some(7),
            Some(9),
            Some(3),
        ),
        // same key as "a" — joins it
        cand(
            "f",
            Finding::PrecisionCandidate,
            Some(u),
            Some(s),
            Some(7),
            Some(9),
            None,
        ),
    ];
    let groups = group(candidates);
    assert_eq!(groups.len(), 5, "{groups:#?}");
    let baseline = groups.iter().find(|g| g.representative == "a").unwrap();
    assert_eq!(baseline.count, 2);
}

/// Grouping is independent of the input order.
#[test]
fn triage_deterministic() {
    let mk = || {
        vec![
            cand(
                "z",
                Finding::PrecisionCandidate,
                Some(ReasonCategory::UninitRead),
                Some(ReasonCategory::StackBounds),
                Some(7),
                Some(9),
                None,
            ),
            cand(
                "a",
                Finding::PrecisionCandidate,
                Some(ReasonCategory::UninitRead),
                Some(ReasonCategory::StackBounds),
                Some(7),
                Some(9),
                None,
            ),
            cand(
                "m",
                Finding::PrecisionCandidate,
                Some(ReasonCategory::UninitRead),
                Some(ReasonCategory::StackBounds),
                Some(7),
                Some(9),
                None,
            ),
            cand(
                "k",
                Finding::SoundnessCandidate,
                Some(ReasonCategory::UninitRead),
                None,
                Some(7),
                None,
                Some(2),
            ),
        ]
    };
    let mut reversed = mk();
    reversed.reverse();
    assert_eq!(group(mk()), group(mk()));
    assert_eq!(group(mk()), group(reversed));
}

/// Groups surface in analysis priority order: model bug > soundness
/// > precision > gap.
#[test]
fn triage_priority_order() {
    let u = ReasonCategory::UninitRead;
    let groups = group(vec![
        cand(
            "p",
            Finding::PrecisionCandidate,
            Some(u),
            Some(ReasonCategory::StackBounds),
            Some(7),
            Some(9),
            None,
        ),
        cand(
            "s",
            Finding::SoundnessCandidate,
            Some(u),
            None,
            Some(7),
            None,
            None,
        ),
        cand(
            "g",
            Finding::RvPrecisionGap,
            Some(u),
            None,
            Some(7),
            None,
            None,
        ),
        cand(
            "b",
            Finding::RvSoundnessBug,
            Some(u),
            None,
            None,
            None,
            Some(2),
        ),
    ]);
    let order: Vec<Finding> = groups.iter().map(|g| g.key.finding).collect();
    assert_eq!(
        order,
        vec![
            Finding::RvSoundnessBug,
            Finding::SoundnessCandidate,
            Finding::PrecisionCandidate,
            Finding::RvPrecisionGap
        ]
    );
    assert_eq!(groups[0].priority, 3);
    assert_eq!(groups[1].priority, 2);
    assert_eq!(groups[2].priority, 1);
    assert_eq!(groups[3].priority, 0);
}
