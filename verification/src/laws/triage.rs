//! Triage: findings of one cause form one group, and the groups come in the order
//! of their urgency.

use vstd::prelude::*;

use crate::diff::SideVerdict;
use crate::fuzz::oracle::Finding;
use crate::fuzz::triage;
use crate::fuzz::triage::{Candidate, Group, GroupKey};
use crate::klog::ReasonCategory;

verus! {

/// The two sides agree on why they reject, or neither rejects.
pub open spec fn same_reason(a: SideVerdict, b: SideVerdict) -> bool {
    match (a, b) {
        (SideVerdict::Reject { category: x }, SideVerdict::Reject { category: y }) => x == y,
        (SideVerdict::Reject { .. }, _) => false,
        (_, SideVerdict::Reject { .. }) => false,
        _ => true,
    }
}

/// The first instruction on which the two sides part: where the mini verifier
/// fails, and where it does not, where the kernel rejects.
pub open spec fn parting(c: Candidate) -> Option<u32> {
    match c.divergence.mini_insn {
        Some(pc) => Some(pc),
        None => c.divergence.kernel_insn,
    }
}

/// Two candidates have one cause: class, reasons, the instruction on which the sides
/// part and the concrete violation are the same.
pub open spec fn same_cause(a: Candidate, b: Candidate) -> bool {
    &&& a.finding == b.finding
    &&& same_reason(a.mini, b.mini)
    &&& same_reason(a.kernel, b.kernel)
    &&& parting(a) == parting(b)
    &&& a.divergence.concrete_pc == b.divergence.concrete_pc
}

/// The reason with which a side rejects stands in the key.
pub open spec fn tells_reason(side: SideVerdict, told: Option<ReasonCategory>) -> bool {
    match side {
        SideVerdict::Reject { category } => told == Some(category),
        _ => told is None,
    }
}

/// The key tells what the candidate is.
pub open spec fn tells(c: Candidate, key: GroupKey) -> bool {
    &&& key.finding == c.finding
    &&& tells_reason(c.mini, key.mini_category)
    &&& tells_reason(c.kernel, key.kernel_category)
    &&& key.div_insn == parting(c)
    &&& key.concrete_pc == c.divergence.concrete_pc
}

/// The name `a` comes before `b`: at the first character in which they differ, or
/// because `b` goes on where `a` ends.
pub open spec fn name_before(a: Seq<char>, b: Seq<char>) -> bool {
    exists|k: int|
        #![trigger a.take(k)]
        0 <= k <= a.len() && k < b.len() && a.take(k) == b.take(k) && (k == a.len() || (a[k] as int)
            < (b[k] as int))
}

/// The candidates that a key tells.
pub open spec fn members(cands: Seq<Candidate>, key: GroupKey) -> Seq<Candidate> {
    cands.filter(|c: Candidate| tells(c, key))
}

/// The urgency of a class: a bug of the model, an unsound kernel, an overstrict
/// kernel, the rest.
pub open spec fn urgency(f: Finding) -> int {
    match f {
        Finding::RvSoundnessBug => 3,
        Finding::SoundnessCandidate => 2,
        Finding::KernelUnsoundCandidate => 2,
        Finding::PrecisionCandidate => 1,
        Finding::KernelOverstrictCandidate => 1,
        Finding::RvPrecisionGap => 0,
        Finding::Agree => 0,
        Finding::Whitelisted => 0,
        Finding::Inconclusive => 0,
        Finding::Skipped => 0,
    }
}

proof fn lemma_key(c: Candidate, key: GroupKey)
    ensures
        (triage::key_of(c) == key) == tells(c, key),
{
}

/// Two candidates have one key exactly when they have one cause.
pub proof fn one_key_for_one_cause(a: Candidate, b: Candidate)
    ensures
        (triage::key_of(a) == triage::key_of(b)) == same_cause(a, b),
{
}

/// Every candidate has a group that tells what it is, and no second one.
pub proof fn every_candidate_has_one_group(cands: Seq<Candidate>, groups: Seq<Group>, i: int)
    requires
        triage::is_grouping(cands, groups),
        0 <= i < cands.len(),
    ensures
        exists|g: int| 0 <= g < groups.len() && tells(cands[i], (#[trigger] groups[g]).key),
        forall|g: int, h: int|
            0 <= g < groups.len() && 0 <= h < groups.len() && tells(
                cands[i],
                (#[trigger] groups[g]).key,
            ) && tells(cands[i], (#[trigger] groups[h]).key) ==> g == h,
{
    let g = choose|g: int|
        0 <= g < groups.len() && (#[trigger] groups[g]).key == triage::key_of(cands[i]);
    lemma_key(cands[i], groups[g].key);
    assert forall|g: int, h: int|
        0 <= g < groups.len() && 0 <= h < groups.len() && tells(
            cands[i],
            (#[trigger] groups[g]).key,
        ) && tells(cands[i], (#[trigger] groups[h]).key) implies g == h by {
        lemma_key(cands[i], groups[g].key);
        lemma_key(cands[i], groups[h].key);
        triage::key_order_is_strict(groups[g].key, groups[h].key);
    }
}

/// Two candidates fall into one group exactly when they have one cause.
pub proof fn one_group_for_one_cause(
    cands: Seq<Candidate>,
    groups: Seq<Group>,
    i: int,
    j: int,
    g: int,
)
    requires
        triage::is_grouping(cands, groups),
        0 <= i < cands.len(),
        0 <= j < cands.len(),
        0 <= g < groups.len(),
        tells(cands[i], groups[g].key),
    ensures
        tells(cands[j], groups[g].key) == same_cause(cands[i], cands[j]),
{
    lemma_key(cands[i], groups[g].key);
    lemma_key(cands[j], groups[g].key);
    one_key_for_one_cause(cands[i], cands[j]);
}

proof fn lemma_count(cands: Seq<Candidate>, key: GroupKey)
    ensures
        triage::key_count(cands, key) == members(cands, key).len(),
    decreases cands.len(),
{
    reveal(Seq::filter);
    if cands.len() > 0 {
        lemma_count(cands.drop_last(), key);
        lemma_key(cands.last(), key);
    }
}

proof fn lemma_text_before(a: Seq<char>, b: Seq<char>)
    ensures
        triage::text_before(a, b) == name_before(a, b),
    decreases a.len(),
{
    if b.len() > 0 && a.len() == 0 {
        assert(a.take(0) =~= b.take(0));
        assert(name_before(a, b));
    } else if b.len() > 0 {
        let (x, y) = (a.drop_first(), b.drop_first());
        lemma_text_before(x, y);
        if triage::text_before(a, b) {
            if a[0] == b[0] {
                let k = choose|k: int|
                    #![trigger x.take(k)]
                    0 <= k <= x.len() && k < y.len() && x.take(k) == y.take(k) && (k == x.len() || (
                    x[k] as int) < (y[k] as int));
                assert forall|m: int| 0 <= m < k + 1 implies a[m] == b[m] by {
                    if m > 0 {
                        assert(x.take(k)[m - 1] == y.take(k)[m - 1]);
                    }
                }
                assert(a.take(k + 1) =~= b.take(k + 1));
            } else {
                assert(a.take(0) =~= b.take(0));
            }
        }
        if name_before(a, b) {
            let k = choose|k: int|
                #![trigger a.take(k)]
                0 <= k <= a.len() && k < b.len() && a.take(k) == b.take(k) && (k == a.len() || (
                a[k] as int) < (b[k] as int));
            if k > 0 {
                assert(a.take(k)[0] == b.take(k)[0]);
                assert forall|m: int| 0 <= m < k - 1 implies x[m] == y[m] by {
                    assert(a.take(k)[m + 1] == b.take(k)[m + 1]);
                }
                assert(x.take(k - 1) =~= y.take(k - 1));
            }
        }
    }
}

/// A group counts the candidates that its key tells, names the first of them by
/// name, and has the urgency of its class.
pub proof fn group_counts_its_members(cands: Seq<Candidate>, groups: Seq<Group>, g: int)
    requires
        triage::is_grouping(cands, groups),
        0 <= g < groups.len(),
    ensures
        groups[g].count == members(cands, groups[g].key).len(),
        groups[g].count > 0,
        exists|i: int|
            0 <= i < cands.len() && tells(#[trigger] cands[i], groups[g].key) && cands[i].name@
                == groups[g].representative@,
        forall|i: int|
            0 <= i < cands.len() && tells(#[trigger] cands[i], groups[g].key) ==> cands[i].name@
                == groups[g].representative@ || name_before(
                groups[g].representative@,
                cands[i].name@,
            ),
        groups[g].priority == urgency(groups[g].key.finding),
{
    let key = groups[g].key;
    let first = groups[g].representative@;
    assert(triage::is_group_of(cands, groups[g]));
    triage::group_has_its_key(cands, groups[g]);
    lemma_count(cands, key);
    let i = choose|i: int|
        0 <= i < cands.len() && triage::key_of(#[trigger] cands[i]) == key && cands[i].name@
            == first;
    lemma_key(cands[i], key);
    assert forall|i: int| 0 <= i < cands.len() && tells(#[trigger] cands[i], key) implies cands[
        i].name@ == first || name_before(first, cands[i].name@) by {
        lemma_key(cands[i], key);
        triage::text_order_is_total(first, cands[i].name@);
        lemma_text_before(first, cands[i].name@);
    }
}

/// The place of a class among the classes.
pub open spec fn class_place(f: Finding) -> int {
    match f {
        Finding::PrecisionCandidate => 1,
        Finding::KernelUnsoundCandidate => 2,
        Finding::KernelOverstrictCandidate => 3,
        Finding::SoundnessCandidate => 4,
        Finding::RvPrecisionGap => 5,
        Finding::RvSoundnessBug => 6,
        Finding::Agree => 7,
        Finding::Whitelisted => 8,
        Finding::Inconclusive => 9,
        Finding::Skipped => 10,
    }
}

/// The place of a reason among the reasons; no reason comes first.
pub open spec fn reason_place(c: Option<ReasonCategory>) -> int {
    match c {
        None => 0,
        Some(c) => match c {
            ReasonCategory::UninitRead => 1,
            ReasonCategory::StackBounds => 2,
            ReasonCategory::StackAlign => 3,
            ReasonCategory::PointerArith => 4,
            ReasonCategory::HelperArgs => 5,
            ReasonCategory::CfgJump => 6,
            ReasonCategory::Loop => 7,
            ReasonCategory::Unreachable => 8,
            ReasonCategory::ExitR0 => 9,
            ReasonCategory::Complexity => 10,
            ReasonCategory::Ref => 11,
            ReasonCategory::Other => 12,
        },
    }
}

/// No index comes before any index.
pub open spec fn index_before(a: Option<u32>, b: Option<u32>) -> bool {
    match (a, b) {
        (None, Some(_)) => true,
        (Some(x), Some(y)) => x < y,
        _ => false,
    }
}

/// The more urgent key comes first; then the class, the two reasons, the
/// instruction and the concrete violation decide, in turn.
pub open spec fn comes_before(a: GroupKey, b: GroupKey) -> bool {
    if urgency(a.finding) != urgency(b.finding) {
        urgency(a.finding) > urgency(b.finding)
    } else if a.finding != b.finding {
        class_place(a.finding) < class_place(b.finding)
    } else if a.mini_category != b.mini_category {
        reason_place(a.mini_category) < reason_place(b.mini_category)
    } else if a.kernel_category != b.kernel_category {
        reason_place(a.kernel_category) < reason_place(b.kernel_category)
    } else if a.div_insn != b.div_insn {
        index_before(a.div_insn, b.div_insn)
    } else {
        index_before(a.concrete_pc, b.concrete_pc)
    }
}

/// The groups come in the order of their keys, the most urgent first, and no key
/// comes twice.
pub proof fn groups_come_in_order(cands: Seq<Candidate>, groups: Seq<Group>, g: int, h: int)
    requires
        triage::is_grouping(cands, groups),
        0 <= g < h < groups.len(),
    ensures
        comes_before(groups[g].key, groups[h].key),
        groups[g].priority >= groups[h].priority,
        groups[g].key != groups[h].key,
{
    let (a, b) = (groups[g].key, groups[h].key);
    assert(triage::key_before(a, b));
    assert(triage::is_group_of(cands, groups[g]));
    assert(triage::is_group_of(cands, groups[h]));
    triage::group_has_its_key(cands, groups[g]);
    triage::group_has_its_key(cands, groups[h]);
    triage::key_order_is_strict(a, b);
    reveal(triage::key_before);
    reveal_with_fuel(triage::before, 7);
}

} // verus!
