//! Replay: what is recorded of a finding can be read back, is held against the
//! sides that are derived again, and decides what a reduction keeps.

use vstd::prelude::*;

use crate::concrete::ConcreteReport;
use crate::diff;
use crate::diff::SideVerdict;
use crate::fuzz::oracle;
use crate::fuzz::oracle::{Evidence, Finding, SpecSide};
use crate::fuzz::reduce::replay;
use crate::fuzz::reduce::replay::{
    FindingSpec, Invariant, KernelAnswer, MiniVerdict, ReduceError, Sides,
};
use crate::klog::ReasonCategory;
use crate::laws::kernel;
use crate::laws::texts;
use crate::laws::texts::blank;
use crate::text;

verus! {

// ── What is written is read back ────────────────────────────────────────────

/// A recorded side names its verdict, and a reject its reason in brackets.
#[verifier::rlimit(60)]
#[verifier::spinoff_prover]
pub proof fn sides_by_text()
    ensures
        replay::side_text(SideVerdict::Accept) == "ACCEPT"@,
        replay::side_text(SideVerdict::Skipped) == "SKIPPED"@,
        replay::side_text(SideVerdict::Reject { category: ReasonCategory::UninitRead }) == "REJECT(UninitRead)"@,
        replay::side_text(SideVerdict::Reject { category: ReasonCategory::StackBounds }) == "REJECT(StackBounds)"@,
        replay::side_text(SideVerdict::Reject { category: ReasonCategory::StackAlign }) == "REJECT(StackAlign)"@,
        replay::side_text(SideVerdict::Reject { category: ReasonCategory::PointerArith }) == "REJECT(PointerArith)"@,
        replay::side_text(SideVerdict::Reject { category: ReasonCategory::HelperArgs }) == "REJECT(HelperArgs)"@,
        replay::side_text(SideVerdict::Reject { category: ReasonCategory::CfgJump }) == "REJECT(CfgJump)"@,
        replay::side_text(SideVerdict::Reject { category: ReasonCategory::Loop }) == "REJECT(Loop)"@,
        replay::side_text(SideVerdict::Reject { category: ReasonCategory::Unreachable }) == "REJECT(Unreachable)"@,
        replay::side_text(SideVerdict::Reject { category: ReasonCategory::ExitR0 }) == "REJECT(ExitR0)"@,
        replay::side_text(SideVerdict::Reject { category: ReasonCategory::Complexity }) == "REJECT(Complexity)"@,
        replay::side_text(SideVerdict::Reject { category: ReasonCategory::Ref }) == "REJECT(Ref)"@,
        replay::side_text(SideVerdict::Reject { category: ReasonCategory::Other }) == "REJECT(Other)"@,
{
    reveal_strlit("REJECT(");
    reveal_strlit("UninitRead");
    reveal_strlit("REJECT(UninitRead)");
    assert("REJECT("@ + "UninitRead"@ + seq![')'] =~= "REJECT(UninitRead)"@);
    reveal_strlit("StackBounds");
    reveal_strlit("REJECT(StackBounds)");
    assert("REJECT("@ + "StackBounds"@ + seq![')'] =~= "REJECT(StackBounds)"@);
    reveal_strlit("StackAlign");
    reveal_strlit("REJECT(StackAlign)");
    assert("REJECT("@ + "StackAlign"@ + seq![')'] =~= "REJECT(StackAlign)"@);
    reveal_strlit("PointerArith");
    reveal_strlit("REJECT(PointerArith)");
    assert("REJECT("@ + "PointerArith"@ + seq![')'] =~= "REJECT(PointerArith)"@);
    reveal_strlit("HelperArgs");
    reveal_strlit("REJECT(HelperArgs)");
    assert("REJECT("@ + "HelperArgs"@ + seq![')'] =~= "REJECT(HelperArgs)"@);
    reveal_strlit("CfgJump");
    reveal_strlit("REJECT(CfgJump)");
    assert("REJECT("@ + "CfgJump"@ + seq![')'] =~= "REJECT(CfgJump)"@);
    reveal_strlit("Loop");
    reveal_strlit("REJECT(Loop)");
    assert("REJECT("@ + "Loop"@ + seq![')'] =~= "REJECT(Loop)"@);
    reveal_strlit("Unreachable");
    reveal_strlit("REJECT(Unreachable)");
    assert("REJECT("@ + "Unreachable"@ + seq![')'] =~= "REJECT(Unreachable)"@);
    reveal_strlit("ExitR0");
    reveal_strlit("REJECT(ExitR0)");
    assert("REJECT("@ + "ExitR0"@ + seq![')'] =~= "REJECT(ExitR0)"@);
    reveal_strlit("Complexity");
    reveal_strlit("REJECT(Complexity)");
    assert("REJECT("@ + "Complexity"@ + seq![')'] =~= "REJECT(Complexity)"@);
    reveal_strlit("Ref");
    reveal_strlit("REJECT(Ref)");
    assert("REJECT("@ + "Ref"@ + seq![')'] =~= "REJECT(Ref)"@);
    reveal_strlit("Other");
    reveal_strlit("REJECT(Other)");
    assert("REJECT("@ + "Other"@ + seq![')'] =~= "REJECT(Other)"@);
}

/// A side is read back from its text, and from no other.
pub proof fn sides_are_read_back(side: &SideVerdict, t: String, s: &str, r: Option<SideVerdict>)
    requires
        call_ensures(replay::side_str, (side,), t),
        call_ensures(replay::parse_side, (s,), r),
    ensures
        s@ == t@ <==> r == Some(*side),
{
    if s@ == t@ {
        if r is None {
            assert(s@ != replay::side_text(*side));
        } else {
            replay::side_encoding_is_injective(*side, r->0);
        }
    }
}

/// A class is read back from its label, and from no other.
pub proof fn classes_are_read_back(f: Finding, label: &str, r: Option<Finding>)
    requires
        call_ensures(replay::parse_finding, (label,), r),
    ensures
        label@ == f.label()@ <==> r == Some(f),
{
    if label@ == f.label()@ {
        if r is Some {
            replay::finding_labels_differ(f, r->0);
        }
    }
}

/// The side of the specification is read from its two words; anything else leaves
/// it open.
pub proof fn specification_sides_are_read(s: Option<&str>, side: SpecSide)
    requires
        call_ensures(replay::parse_spec_side, (s,), side),
    ensures
        side is Accept <==> s is Some && s->0@ == "ACCEPT"@,
        side is Reject <==> s is Some && s->0@ == "REJECT"@,
{
    reveal_strlit("ACCEPT");
    reveal_strlit("REJECT");
    assert("ACCEPT"@[0] != "REJECT"@[0]);
}

proof fn lemma_find(s: Seq<char>, p: Seq<char>, i: int, from: int)
    requires
        0 <= from <= i,
        text::occurs_at(s, p, i),
        forall|k: int| from <= k < i ==> !#[trigger] text::occurs_at(s, p, k),
    ensures
        text::find_from(s, p, from) == Some(i),
    decreases i - from,
{
    if from < i {
        assert(!text::occurs_at(s, p, from));
        lemma_find(s, p, i, from + 1);
    }
}

/// The value of a key is the quoted text behind its first occurrence, with a colon
/// between the two and white space around the colon.
pub proof fn values_stand_behind_their_key(
    before: Seq<char>,
    key: Seq<char>,
    gap: Seq<char>,
    wide: Seq<char>,
    value: Seq<char>,
    rest: Seq<char>,
)
    requires
        blank(gap),
        blank(wide),
        forall|i: int| 0 <= i < value.len() ==> #[trigger] value[i] != '"',
        ({
            let s = before + replay::quoted_key(key) + gap + seq![':'] + wide + seq!['"'] + value
                + seq!['"'] + rest;
            forall|i: int|
                0 <= i < before.len() ==> !#[trigger] text::occurs_at(
                    s,
                    seq!['"'] + key + seq!['"'],
                    i,
                )
        }),
    ensures
        replay::meta_text(
            before + replay::quoted_key(key) + gap + seq![':'] + wide + seq!['"'] + value + seq!['"']
                + rest,
            key,
        ) == Some(value),
        replay::quoted_key(key) == seq!['"'] + key + seq!['"'],
{
    let needle = replay::quoted_key(key);
    let s = before + needle + gap + seq![':'] + wide + seq!['"'] + value + seq!['"'] + rest;
    let p = before.len() as int;
    assert(s.subrange(p, p + needle.len()) =~= needle);
    lemma_find(s, needle, p, 0);
    let close = seq!['"'] + rest;
    let quoted = seq!['"'] + value + close;
    let behind = seq![':'] + (wide + quoted);
    assert(s.skip(p + needle.len()) =~= gap + behind);
    assert(behind[0] == ':');
    assert(!text::is_space(':'));
    texts::lemma_trim_start(gap, behind);
    assert(behind.drop_first() =~= wide + quoted);
    assert(quoted[0] == '"');
    assert(!text::is_space('"'));
    texts::lemma_trim_start(wide, quoted);
    let tail = value + close;
    assert(quoted.drop_first() =~= tail);
    let n = value.len() as int;
    assert(tail[n] == '"');
    assert forall|k: int| 0 <= k < n implies #[trigger] tail[k] != '"' by {
        assert(tail[k] == value[k]);
    }
    kernel::lemma_find_first(tail, '"', n, 0);
    assert(tail.take(n) =~= value);
}

/// A key that does not occur in quotes has no value.
pub proof fn absent_keys_have_no_value(s: Seq<char>, key: Seq<char>)
    requires
        !text::has(s, seq!['"'] + key + seq!['"']),
    ensures
        replay::meta_text(s, key) is None,
{
    let needle = replay::quoted_key(key);
    if text::find_from(s, needle, 0) is Some {
        lemma_found(s, needle, 0);
    }
}

proof fn lemma_found(s: Seq<char>, p: Seq<char>, from: int)
    requires
        text::find_from(s, p, from) is Some,
    ensures
        text::occurs_at(s, p, text::find_from(s, p, from)->0),
    decreases s.len() - from + 1,
{
    if from >= 0 && from + p.len() <= s.len() && !text::occurs_at(s, p, from) {
        lemma_found(s, p, from + 1);
    }
}

/// A finding is loaded exactly where its record has a name, a class and both
/// sides, and its program is whole slots; it holds what was recorded.
pub proof fn whole_records_are_loaded(
    meta: Result<String, String>,
    prog: Result<Vec<u8>, String>,
    prog_path: Seq<char>,
    r: Result<(FindingSpec, Vec<u8>), ReduceError>,
)
    requires
        replay::loaded(meta, prog, prog_path, r),
    ensures
        r is Ok <==> {
            &&& meta is Ok
            &&& prog is Ok
            &&& replay::meta_text(meta->Ok_0@, "name"@) is Some
            &&& replay::meta_text(meta->Ok_0@, "label"@) is Some
            &&& replay::meta_text(meta->Ok_0@, "mini"@) is Some
            &&& replay::meta_text(meta->Ok_0@, "kernel"@) is Some
            &&& exists|side: SideVerdict|
                replay::meta_text(meta->Ok_0@, "mini"@) == Some(#[trigger] replay::side_text(side))
            &&& exists|side: SideVerdict|
                replay::meta_text(meta->Ok_0@, "kernel"@) == Some(#[trigger] replay::side_text(side))
            &&& prog->Ok_0@.len() > 0
            &&& prog->Ok_0@.len() % 8 == 0
        },
        r matches Ok((spec, bytes)) ==> {
            &&& bytes == prog->Ok_0
            &&& replay::meta_text(meta->Ok_0@, "name"@) == Some(spec.name@)
            &&& replay::meta_text(meta->Ok_0@, "label"@) == Some(spec.label@)
            &&& replay::meta_text(meta->Ok_0@, "mini"@) == Some(replay::side_text(spec.mini))
            &&& replay::meta_text(meta->Ok_0@, "kernel"@) == Some(replay::side_text(spec.kernel))
            &&& spec.spec_recorded <==> replay::meta_text(meta->Ok_0@, "spec"@) is Some
            &&& spec.spec is Accept <==> replay::meta_text(meta->Ok_0@, "spec"@) == Some("ACCEPT"@)
            &&& spec.spec is Reject <==> replay::meta_text(meta->Ok_0@, "spec"@) == Some("REJECT"@)
            &&& forall|f: Finding| #[trigger]
                f.stored() && f.label()@ == spec.label@ ==> spec.finding == Some(f)
        },
        r matches Err(e) ==> e is InvalidFinding,
{
    reveal_strlit("ACCEPT");
    reveal_strlit("REJECT");
    assert("ACCEPT"@[0] != "REJECT"@[0]);
    if meta is Ok {
        let mini = replay::meta_text(meta->Ok_0@, "mini"@);
        let kern = replay::meta_text(meta->Ok_0@, "kernel"@);
        if mini is Some {
            lemma_encoded(mini->0);
        }
        if kern is Some {
            lemma_encoded(kern->0);
        }
    }
    if let Ok((spec, bytes)) = r {
        assert(replay::encodes(replay::meta_text(meta->Ok_0@, "mini"@)->0, spec.mini));
        assert(replay::encodes(replay::meta_text(meta->Ok_0@, "kernel"@)->0, spec.kernel));
        assert forall|f: Finding| #[trigger] f.stored() && f.label()@ == spec.label@ implies spec.finding
            == Some(f) by {
            replay::finding_labels_differ(f, spec.finding->0);
        }
    }
}

proof fn lemma_encoded(s: Seq<char>)
    ensures
        replay::unparsable(s) <==> !(exists|side: SideVerdict| s == #[trigger] replay::side_text(side)),
{
    if exists|side: SideVerdict| s == #[trigger] replay::side_text(side) {
        let side = choose|side: SideVerdict| s == #[trigger] replay::side_text(side);
        assert(replay::encodes(s, side));
    }
    if !replay::unparsable(s) {
        let side = choose|side: SideVerdict| #[trigger] replay::encodes(s, side);
        assert(s == replay::side_text(side));
    }
}

// ── What is derived again ───────────────────────────────────────────────────

/// Every verdict that was obtained stands in its own side; a pipeline that fails
/// and a kernel that was asked and said nothing leave none.
pub proof fn sides_hold_the_verdicts(
    mini: Result<MiniVerdict, String>,
    report: Option<&ConcreteReport>,
    answer: KernelAnswer,
    spec: SpecSide,
    r: Result<Sides, ReduceError>,
)
    requires
        call_ensures(replay::evaluate_bytes, (mini, report, answer, spec), r),
    ensures
        r is Err && r->Err_0 is Pipeline <==> mini is Err,
        r is Err && r->Err_0 is KernelRequired <==> mini is Ok && match answer {
            KernelAnswer::NotAsked => false,
            KernelAnswer::Guest(side) => side is Skipped,
            KernelAnswer::GuestFailed(_) => true,
            KernelAnswer::Host(outcome) => !(outcome is Accept) && !(outcome is Reject),
        },
        r is Err ==> r->Err_0 is Pipeline || r->Err_0 is KernelRequired,
        r matches Ok(sides) ==> {
            &&& sides.mini is Accept <==> mini->Ok_0 is Safe
            &&& mini->Ok_0 matches MiniVerdict::Unsafe { category, message } ==> sides.mini == (
            SideVerdict::Reject { category }) && sides.mini_reason == Some(message)
            &&& mini->Ok_0 is Safe ==> sides.mini_reason is None
            &&& sides.concrete is Safe <==> report is Some && report->0.verdict is Safe
            &&& sides.concrete is Unsafe <==> report is Some && report->0.verdict is Unsafe
            &&& sides.spec == spec
            &&& match answer {
                KernelAnswer::NotAsked => sides.kernel is Skipped,
                KernelAnswer::Guest(side) => sides.kernel == side,
                KernelAnswer::GuestFailed(_) => false,
                KernelAnswer::Host(outcome) => sides.kernel == diff::side_of(outcome),
            }
        },
{
}

/// A class needs the kernel's verdict exactly where no program has it without one.
pub proof fn classes_that_need_the_kernel(f: Finding, e: Evidence)
    ensures
        replay::kernel_dependent(f.label()@) <==> !(f is RvSoundnessBug || f is Agree
            || f is Inconclusive || f is Skipped),
        replay::kernel_dependent(f.label()@) && e.kernel is Skipped ==> oracle::class_of(e) != f,
{
    reveal_strlit("precision-candidate");
    reveal_strlit("kernel-unsound-candidate");
    reveal_strlit("kernel-overstrict-candidate");
    reveal_strlit("soundness-candidate");
    reveal_strlit("rv-precision-gap");
    reveal_strlit("rv-soundness-bug");
    reveal_strlit("agree");
    reveal_strlit("whitelisted");
    reveal_strlit("inconclusive");
    reveal_strlit("skipped");
    let x = f.label()@;
    assert("precision-candidate"@.len() == 19 && "soundness-candidate"@.len() == 19);
    assert("rv-soundness-bug"@.len() == 16 && "rv-precision-gap"@.len() == 16);
    assert("rv-soundness-bug"@[3] != "rv-precision-gap"@[3]);
    assert("agree"@.len() == 5 && "skipped"@.len() == 7 && "inconclusive"@.len() == 12);
    assert("kernel-unsound-candidate"@.len() == 24 && "kernel-overstrict-candidate"@.len() == 27);
    assert("whitelisted"@.len() == 11);
}

/// A finding replays exactly where each side is found again: the mini verifier's,
/// the specification's where it was recorded, the kernel's where it was asked both
/// times, and with them the class. One that rests on the kernel needs its verdict.
pub proof fn findings_replay(
    spec: FindingSpec,
    sides: Sides,
    strict: bool,
    r: Result<(), ReduceError>,
)
    requires
        replay::is_replay_check(spec, sides, strict, r),
    ensures
        r is Ok <==> {
            &&& replay::kernel_dependent(spec.label@) ==> !(sides.kernel is Skipped)
            &&& sides.mini == spec.mini
            &&& sides.kernel == spec.kernel || sides.kernel is Skipped || spec.kernel is Skipped
            &&& spec.spec_recorded ==> sides.spec == spec.spec
            &&& spec.finding is Some ==> oracle::class_of(sides.evidence(spec.name@, strict))
                == spec.finding->0
        },
        r is Err ==> r->Err_0 is KernelRequired || r->Err_0 is ReplayMismatch,
        r is Err && r->Err_0 is KernelRequired <==> replay::kernel_dependent(spec.label@)
            && sides.kernel is Skipped,
        sides.evidence(spec.name@, strict).mini == sides.mini,
        sides.evidence(spec.name@, strict).kernel == sides.kernel,
        sides.evidence(spec.name@, strict).concrete == sides.concrete,
        sides.evidence(spec.name@, strict).spec == sides.spec,
        sides.evidence(spec.name@, strict).strict == strict,
        sides.evidence(spec.name@, strict).name == spec.name@,
{
}

// ── What a reduction keeps ──────────────────────────────────────────────────

/// A candidate is kept exactly where it has the class, and the kernel rejects for
/// the reason for which it did, as far as it is asked.
pub proof fn candidates_keep_the_class(
    inv: &Invariant,
    name: &str,
    sides: &Sides,
    strict: bool,
    kept: bool,
    class: Finding,
    reason: Option<ReasonCategory>,
)
    requires
        call_ensures(Invariant::preserves, (inv, name, sides, strict), kept),
        *inv == (Invariant::Classification { finding: class, kernel_category: reason }),
    ensures
        kept <==> {
            &&& oracle::class_of(sides.evidence(name@, strict)) == class
            &&& reason is Some ==> match sides.kernel {
                SideVerdict::Accept => false,
                SideVerdict::Skipped => true,
                SideVerdict::Reject { category } => category == reason->0,
            }
        },
{
}

/// Where a verdict flipped, a candidate is kept exactly where the mini verifier
/// gives that verdict, whatever the others say.
pub proof fn candidates_keep_the_verdict(
    inv: &Invariant,
    name: &str,
    sides: &Sides,
    strict: bool,
    kept: bool,
    spec: FindingSpec,
)
    requires
        call_ensures(Invariant::preserves, (inv, name, sides, strict), kept),
        spec.label@ == "verdict-flip"@,
        replay::is_invariant_for(spec, Ok(*inv)),
    ensures
        !(spec.mini is Skipped),
        kept <==> (sides.mini is Accept <==> spec.mini is Accept) && (sides.mini is Reject
            <==> spec.mini is Reject),
{
    reveal_strlit("ACCEPT");
    reveal_strlit("REJECT");
    reveal_strlit("SKIPPED");
    assert("ACCEPT"@[0] != "REJECT"@[0]);
    assert("ACCEPT"@.len() == 6 && "REJECT"@.len() == 6 && "SKIPPED"@.len() == 7);
}

/// A recorded class is what the reduction keeps, with the kernel's reason where it
/// rejected; a label that names nothing has no invariant.
pub proof fn recorded_classes_are_kept(spec: FindingSpec, r: Result<Invariant, ReduceError>)
    requires
        replay::is_invariant_for(spec, r),
        spec.label@ != "verdict-flip"@,
    ensures
        forall|f: Finding|
            (#[trigger] f.label())@ == spec.label@ ==> r == Ok::<Invariant, ReduceError>(
                Invariant::Classification {
                    finding: f,
                    kernel_category: match spec.kernel {
                        SideVerdict::Reject { category } => Some(category),
                        _ => None,
                    },
                },
            ),
        (forall|f: Finding| (#[trigger] f.label())@ != spec.label@) ==> r is Err && r->Err_0
            is InvalidFinding,
{
    assert forall|f: Finding| (#[trigger] f.label())@ == spec.label@ implies r == Ok::<
        Invariant,
        ReduceError,
    >(
        Invariant::Classification {
            finding: f,
            kernel_category: match spec.kernel {
                SideVerdict::Reject { category } => Some(category),
                _ => None,
            },
        },
    ) by {
        assert(!replay::unknown_label(spec.label@));
        let got = r->Ok_0;
        replay::finding_labels_differ(f, got->finding);
    }
    if forall|f: Finding| (#[trigger] f.label())@ != spec.label@ {
        assert(replay::unknown_label(spec.label@));
    }
}

} // verus!
