//! Triage of findings: those that share a cause form one group.
//!
//! A campaign produces many findings of one cause. They are grouped by a
//! deterministic key, and each group keeps one representative and a count.

use vstd::prelude::*;

use crate::diff::SideVerdict;
use crate::fuzz::oracle::Finding;
use crate::klog::ReasonCategory;
use crate::text;
use crate::text::chars_of;

verus! {

/// The divergence signature of one finding.
#[derive(Debug, Clone, Copy, PartialEq, Eq, Hash, Structural)]
pub struct Divergence {
    /// The mini failure instruction index (none for accepted programs).
    pub mini_insn: Option<u32>,
    /// The kernel reject instruction index (none unless the kernel rejected).
    pub kernel_insn: Option<u32>,
    /// The first concrete coverage-violation pc (none when the concrete side
    /// is safe).
    pub concrete_pc: Option<u32>,
}

/// One finding and its classification context.
#[derive(Debug, Clone, PartialEq, Eq)]
pub struct Candidate {
    pub name: String,
    pub finding: Finding,
    pub mini: SideVerdict,
    pub kernel: SideVerdict,
    pub divergence: Divergence,
}

/// The key of a group.
#[derive(Debug, Clone, Copy, PartialEq, Eq, PartialOrd, Ord, Structural)]
pub struct GroupKey {
    pub finding: Finding,
    pub mini_category: Option<ReasonCategory>,
    pub kernel_category: Option<ReasonCategory>,
    /// The first divergent instruction: mini's failure index when mini
    /// rejected, otherwise the kernel's reject index.
    pub div_insn: Option<u32>,
    pub concrete_pc: Option<u32>,
}

/// One deduplicated group of findings.
#[derive(Debug, Clone, PartialEq, Eq)]
pub struct Group {
    pub key: GroupKey,
    /// How many findings share this key.
    pub count: usize,
    /// The name of the representative finding, the first by name.
    pub representative: String,
    /// Analysis priority: model bug (3), soundness (2), precision (1),
    /// rand-verifier gap (0).
    pub priority: u8,
}

// ── Keys and their order ────────────────────────────────────────────────────

pub open spec fn category(side: SideVerdict) -> Option<ReasonCategory> {
    match side {
        SideVerdict::Reject { category } => Some(category),
        _ => None,
    }
}

/// The key of a candidate.
pub open spec fn key_of(c: Candidate) -> GroupKey {
    GroupKey {
        finding: c.finding,
        mini_category: category(c.mini),
        kernel_category: category(c.kernel),
        div_insn: if c.divergence.mini_insn is Some {
            c.divergence.mini_insn
        } else {
            c.divergence.kernel_insn
        },
        concrete_pc: c.divergence.concrete_pc,
    }
}

/// The urgency of a class.
pub open spec fn priority(finding: Finding) -> u8 {
    match finding {
        Finding::RvSoundnessBug => 3,
        Finding::SoundnessCandidate | Finding::KernelUnsoundCandidate => 2,
        Finding::PrecisionCandidate | Finding::KernelOverstrictCandidate => 1,
        _ => 0,
    }
}

/// The position of a class in the order of classes.
pub open spec fn finding_rank(f: Finding) -> int {
    match f {
        Finding::PrecisionCandidate => 0,
        Finding::KernelUnsoundCandidate => 1,
        Finding::KernelOverstrictCandidate => 2,
        Finding::SoundnessCandidate => 3,
        Finding::RvPrecisionGap => 4,
        Finding::RvSoundnessBug => 5,
        Finding::Agree => 6,
        Finding::Whitelisted => 7,
        Finding::Inconclusive => 8,
        Finding::Skipped => 9,
    }
}

/// The position of a category in the order of categories; none comes first.
pub open spec fn category_rank(c: Option<ReasonCategory>) -> int {
    match c {
        None => 0,
        Some(ReasonCategory::UninitRead) => 1,
        Some(ReasonCategory::StackBounds) => 2,
        Some(ReasonCategory::StackAlign) => 3,
        Some(ReasonCategory::PointerArith) => 4,
        Some(ReasonCategory::HelperArgs) => 5,
        Some(ReasonCategory::CfgJump) => 6,
        Some(ReasonCategory::Loop) => 7,
        Some(ReasonCategory::Unreachable) => 8,
        Some(ReasonCategory::ExitR0) => 9,
        Some(ReasonCategory::Complexity) => 10,
        Some(ReasonCategory::Ref) => 11,
        Some(ReasonCategory::Other) => 12,
    }
}

/// The position of an index; none comes first.
pub open spec fn index_rank(i: Option<u32>) -> int {
    match i {
        None => 0,
        Some(n) => 1 + n,
    }
}

/// The numbers by which groups are ordered: the urgency, the higher the
/// earlier, and then the fields of the key in turn.
pub open spec fn sort_key(k: GroupKey) -> Seq<int> {
    seq![
        3 - priority(k.finding),
        finding_rank(k.finding),
        category_rank(k.mini_category),
        category_rank(k.kernel_category),
        index_rank(k.div_insn),
        index_rank(k.concrete_pc),
    ]
}

/// The lexicographic order of number sequences of one length, from the `i`-th
/// on.
pub open spec fn before(a: Seq<int>, b: Seq<int>, i: int) -> bool
    decreases a.len() - i,
{
    if i < 0 || i >= a.len() || i >= b.len() {
        false
    } else {
        a[i] < b[i] || (a[i] == b[i] && before(a, b, i + 1))
    }
}

/// A group with key `a` comes before one with key `b`.
#[verifier::opaque]
pub open spec fn key_before(a: GroupKey, b: GroupKey) -> bool {
    before(sort_key(a), sort_key(b), 0)
}

/// The order is strict and total on keys.
proof fn lemma_key_order(a: GroupKey, b: GroupKey, c: GroupKey)
    ensures
        !(key_before(a, b) && key_before(b, a)),
        !key_before(a, a),
        key_before(a, b) || a == b || key_before(b, a),
        key_before(a, b) && key_before(b, c) ==> key_before(a, c),
{
    reveal(key_before);
    reveal_with_fuel(before, 7);
}

/// Of two keys at most one comes before the other, and none before itself.
pub proof fn key_order_is_strict(a: GroupKey, b: GroupKey)
    ensures
        !(key_before(a, b) && key_before(b, a)),
        !key_before(a, a),
        key_before(a, b) || a == b || key_before(b, a),
{
    lemma_key_order(a, b, b);
}

/// Text order: by the first character that differs, the shorter first.
pub open spec fn text_before(a: Seq<char>, b: Seq<char>) -> bool
    decreases a.len(),
{
    if b.len() == 0 {
        false
    } else if a.len() == 0 {
        true
    } else {
        (a[0] as int) < (b[0] as int) || (a[0] == b[0] && text_before(
            a.drop_first(),
            b.drop_first(),
        ))
    }
}

proof fn lemma_text_order(a: Seq<char>, b: Seq<char>)
    ensures
        !(text_before(a, b) && text_before(b, a)),
        !text_before(a, a),
        text_before(a, b) || a == b || text_before(b, a),
    decreases a.len(),
{
    if a.len() > 0 {
        lemma_text_order(a.drop_first(), a.drop_first());
        if b.len() > 0 {
            lemma_text_order(a.drop_first(), b.drop_first());
            if a[0] == b[0] && a.drop_first() == b.drop_first() {
                assert(a =~= seq![a[0]] + a.drop_first());
                assert(b =~= seq![b[0]] + b.drop_first());
            }
        }
    } else if b.len() == 0 {
        assert(a =~= b);
    }
}

/// Of two texts one comes before the other, or they are equal.
pub proof fn text_order_is_total(a: Seq<char>, b: Seq<char>)
    ensures
        text_before(a, b) || a == b || text_before(b, a),
{
    lemma_text_order(a, b);
}

proof fn lemma_text_transitive(a: Seq<char>, b: Seq<char>, c: Seq<char>)
    requires
        text_before(a, b),
        text_before(b, c),
    ensures
        text_before(a, c),
    decreases a.len(),
{
    if a.len() > 0 && b.len() > 0 && c.len() > 0 && a[0] == b[0] && b[0] == c[0] {
        lemma_text_transitive(a.drop_first(), b.drop_first(), c.drop_first());
    }
}

// ── What a grouping is ──────────────────────────────────────────────────────

/// How many candidates have this key.
pub open spec fn key_count(cands: Seq<Candidate>, key: GroupKey) -> nat
    decreases cands.len(),
{
    if cands.len() == 0 {
        0
    } else {
        key_count(cands.drop_last(), key) + if key_of(cands.last()) == key { 1nat } else { 0nat }
    }
}

/// `name` is the first name among the candidates with this key.
pub open spec fn is_first_name(cands: Seq<Candidate>, key: GroupKey, name: Seq<char>) -> bool {
    &&& exists|i: int|
        0 <= i < cands.len() && key_of(#[trigger] cands[i]) == key && cands[i].name@ == name
    &&& forall|i: int|
        0 <= i < cands.len() && key_of(#[trigger] cands[i]) == key ==> !text_before(
            cands[i].name@,
            name,
        )
}

/// `g` is the group of its key among these candidates.
#[verifier::opaque]
pub open spec fn is_group_of(cands: Seq<Candidate>, g: Group) -> bool {
    &&& g.count == key_count(cands, g.key)
    &&& g.count > 0
    &&& is_first_name(cands, g.key, g.representative@)
    &&& g.priority == priority(g.key.finding)
}

/// What a group says of its key.
pub proof fn group_has_its_key(cands: Seq<Candidate>, g: Group)
    requires
        is_group_of(cands, g),
    ensures
        g.count == key_count(cands, g.key),
        g.count > 0,
        is_first_name(cands, g.key, g.representative@),
        g.priority == priority(g.key.finding),
{
    reveal(is_group_of);
}

/// `groups` is the grouping of these candidates: each group is the one of its
/// key, every key that occurs has one, and they come in order.
pub open spec fn is_grouping(cands: Seq<Candidate>, groups: Seq<Group>) -> bool {
    &&& forall|g: int| 0 <= g < groups.len() ==> is_group_of(cands, #[trigger] groups[g])
    &&& forall|i: int|
        0 <= i < cands.len() ==> exists|g: int|
            0 <= g < groups.len() && (#[trigger] groups[g]).key == key_of(#[trigger] cands[i])
    &&& forall|g: int, h: int|
        0 <= g < h < groups.len() ==> key_before(
            (#[trigger] groups[g]).key,
            (#[trigger] groups[h]).key,
        )
}

// ── Execution ───────────────────────────────────────────────────────────────

fn category_of(side: &SideVerdict) -> (c: Option<ReasonCategory>)
    ensures
        c == category(*side),
{
    match side {
        SideVerdict::Reject { category } => Some(*category),
        _ => None,
    }
}

fn priority_of(finding: &Finding) -> (p: u8)
    ensures
        p == priority(*finding),
        p <= 3,
{
    match finding {
        Finding::RvSoundnessBug => 3,
        Finding::SoundnessCandidate | Finding::KernelUnsoundCandidate => 2,
        Finding::PrecisionCandidate | Finding::KernelOverstrictCandidate => 1,
        _ => 0,
    }
}

fn rank_of_finding(f: &Finding) -> (r: u64)
    ensures
        r == finding_rank(*f),
{
    match f {
        Finding::PrecisionCandidate => 0,
        Finding::KernelUnsoundCandidate => 1,
        Finding::KernelOverstrictCandidate => 2,
        Finding::SoundnessCandidate => 3,
        Finding::RvPrecisionGap => 4,
        Finding::RvSoundnessBug => 5,
        Finding::Agree => 6,
        Finding::Whitelisted => 7,
        Finding::Inconclusive => 8,
        Finding::Skipped => 9,
    }
}

fn rank_of_category(c: &Option<ReasonCategory>) -> (r: u64)
    ensures
        r == category_rank(*c),
{
    match c {
        None => 0,
        Some(ReasonCategory::UninitRead) => 1,
        Some(ReasonCategory::StackBounds) => 2,
        Some(ReasonCategory::StackAlign) => 3,
        Some(ReasonCategory::PointerArith) => 4,
        Some(ReasonCategory::HelperArgs) => 5,
        Some(ReasonCategory::CfgJump) => 6,
        Some(ReasonCategory::Loop) => 7,
        Some(ReasonCategory::Unreachable) => 8,
        Some(ReasonCategory::ExitR0) => 9,
        Some(ReasonCategory::Complexity) => 10,
        Some(ReasonCategory::Ref) => 11,
        Some(ReasonCategory::Other) => 12,
    }
}

fn rank_of_index(i: &Option<u32>) -> (r: u64)
    ensures
        r == index_rank(*i),
{
    match i {
        None => 0,
        Some(n) => 1 + *n as u64,
    }
}

/// The numbers by which a key is ordered.
fn ranks(k: &GroupKey) -> (v: [u64; 6])
    ensures
        v@.map_values(|x: u64| x as int) == sort_key(*k),
{
    let v: [u64; 6] = [
        3 - priority_of(&k.finding) as u64,
        rank_of_finding(&k.finding),
        rank_of_category(&k.mini_category),
        rank_of_category(&k.kernel_category),
        rank_of_index(&k.div_insn),
        rank_of_index(&k.concrete_pc),
    ];
    assert(v@.map_values(|x: u64| x as int) =~= sort_key(*k));
    v
}

/// Whether a group with key `a` comes before one with key `b`.
fn comes_before(a: &GroupKey, b: &GroupKey) -> (r: bool)
    ensures
        r == key_before(*a, *b),
{
    let x: [u64; 6] = ranks(a);
    let y: [u64; 6] = ranks(b);
    let ghost p = sort_key(*a);
    let ghost q = sort_key(*b);
    proof {
        reveal(key_before);
    }
    let mut i: usize = 0;
    while i < 6
        invariant
            i <= 6,
            p == sort_key(*a),
            q == sort_key(*b),
            x@.map_values(|v: u64| v as int) == p,
            y@.map_values(|v: u64| v as int) == q,
            key_before(*a, *b) == before(p, q, i as int),
        decreases 6 - i,
    {
        assert(x@.map_values(|v: u64| v as int)[i as int] == x@[i as int]);
        assert(y@.map_values(|v: u64| v as int)[i as int] == y@[i as int]);
        if x[i] < y[i] {
            return true;
        }
        if x[i] > y[i] {
            return false;
        }
        i = i + 1;
    }
    false
}

/// Whether the text `a` comes before `b`.
fn name_before(a: &str, b: &str) -> (r: bool)
    ensures
        r == text_before(a@, b@),
{
    let x: Vec<char> = chars_of(a);
    let y: Vec<char> = chars_of(b);
    let mut i: usize = 0;
    proof {
        assert(x@.skip(0) == x@ && y@.skip(0) == y@);
    }
    while i < x.len() && i < y.len()
        invariant
            i <= x@.len(),
            i <= y@.len(),
            x@ == a@,
            y@ == b@,
            text_before(x@, y@) == text_before(x@.skip(i as int), y@.skip(i as int)),
        decreases x@.len() - i,
    {
        proof {
            assert(x@.skip(i as int).drop_first() == x@.skip(i + 1));
            assert(y@.skip(i as int).drop_first() == y@.skip(i + 1));
        }
        let p: char = x[i];
        let q: char = y[i];
        if p < q {
            return true;
        }
        if q < p {
            return false;
        }
        i = i + 1;
    }
    i < y.len()
}

/// The key of a candidate.
fn make_key(c: &Candidate) -> (k: GroupKey)
    ensures
        k == key_of(*c),
{
    let div_insn: Option<u32> = match c.divergence.mini_insn {
        Some(n) => Some(n),
        None => c.divergence.kernel_insn,
    };
    GroupKey {
        finding: c.finding,
        mini_category: category_of(&c.mini),
        kernel_category: category_of(&c.kernel),
        div_insn,
        concrete_pc: c.divergence.concrete_pc,
    }
}

/// Counts of a key are at most the number of candidates.
proof fn lemma_key_count(cands: Seq<Candidate>, key: GroupKey)
    ensures
        key_count(cands, key) <= cands.len(),
        (key_count(cands, key) > 0) == exists|i: int|
            0 <= i < cands.len() && key_of(#[trigger] cands[i]) == key,
    decreases cands.len(),
{
    if cands.len() > 0 {
        lemma_key_count(cands.drop_last(), key);
        if key_count(cands.drop_last(), key) > 0 {
            let i = choose|i: int|
                0 <= i < cands.drop_last().len() && key_of(#[trigger] cands.drop_last()[i]) == key;
            assert(key_of(cands[i]) == key);
        }
        if key_of(cands.last()) == key {
            assert(key_of(cands[cands.len() - 1]) == key);
        }
        if exists|i: int| 0 <= i < cands.len() && key_of(#[trigger] cands[i]) == key {
            let i = choose|i: int| 0 <= i < cands.len() && key_of(#[trigger] cands[i]) == key;
            if i < cands.len() - 1 {
                assert(key_of(cands.drop_last()[i]) == key);
            }
        }
    }
}

/// A group of another key is not touched by one more candidate.
proof fn lemma_other_group(cands: Seq<Candidate>, last: Candidate, g: Group)
    requires
        is_group_of(cands, g),
        key_of(last) != g.key,
    ensures
        is_group_of(cands.push(last), g),
{
    reveal(is_group_of);
    let all = cands.push(last);
    assert(all.drop_last() =~= cands);
    let i = choose|i: int|
        0 <= i < cands.len() && key_of(#[trigger] cands[i]) == g.key && cands[i].name@
            == g.representative@;
    assert(all[i] == cands[i]);
    assert forall|j: int| 0 <= j < all.len() && key_of(#[trigger] all[j]) == g.key implies !text_before(
        all[j].name@,
        g.representative@,
    ) by {
        if j < cands.len() {
            assert(all[j] == cands[j]);
        }
    }
}

/// The group of a key after one more candidate with that key: `best` is the
/// earlier of the two names.
proof fn lemma_grown_group(cands: Seq<Candidate>, last: Candidate, g: Group, best: Group)
    requires
        is_group_of(cands, g),
        key_of(last) == g.key,
        best.key == g.key,
        best.priority == g.priority,
        best.count == g.count + 1,
        best.representative@ == if text_before(last.name@, g.representative@) {
            last.name@
        } else {
            g.representative@
        },
    ensures
        is_group_of(cands.push(last), best),
{
    reveal(is_group_of);
    let all = cands.push(last);
    assert(all.drop_last() =~= cands);
    let i = choose|i: int|
        0 <= i < cands.len() && key_of(#[trigger] cands[i]) == g.key && cands[i].name@
            == g.representative@;
    assert(all[i] == cands[i]);
    assert(all[cands.len() as int] == last);
    lemma_text_order(last.name@, g.representative@);
    assert forall|j: int|
        0 <= j < all.len() && key_of(#[trigger] all[j]) == g.key implies !text_before(
        all[j].name@,
        best.representative@,
    ) by {
        let n = all[j].name@;
        lemma_text_order(n, g.representative@);
        lemma_text_order(n, last.name@);
        if j < cands.len() {
            assert(all[j] == cands[j]);
            if text_before(n, last.name@) && text_before(last.name@, g.representative@) {
                lemma_text_transitive(n, last.name@, g.representative@);
            }
        }
    }
}

/// The group of a key that is new.
proof fn lemma_new_group(cands: Seq<Candidate>, last: Candidate, g: Group)
    requires
        forall|i: int| 0 <= i < cands.len() ==> key_of(#[trigger] cands[i]) != key_of(last),
        g.key == key_of(last),
        g.count == 1,
        g.representative@ == last.name@,
        g.priority == priority(last.finding),
    ensures
        is_group_of(cands.push(last), g),
{
    reveal(is_group_of);
    let all = cands.push(last);
    assert(all.drop_last() =~= cands);
    lemma_key_count(cands, g.key);
    assert(all[cands.len() as int] == last);
    lemma_text_order(last.name@, last.name@);
    assert forall|j: int|
        0 <= j < all.len() && key_of(#[trigger] all[j]) == g.key implies !text_before(
        all[j].name@,
        g.representative@,
    ) by {
        if j < cands.len() {
            assert(all[j] == cands[j]);
        }
    }
}

/// The grouping in which the group of the new candidate's key has grown.
proof fn lemma_grouping_grown(
    cands: Seq<Candidate>,
    c: Candidate,
    gs: Seq<Group>,
    i: int,
    grown: Group,
)
    requires
        is_grouping(cands, gs),
        0 <= i < gs.len(),
        gs[i].key == key_of(c),
        grown.key == gs[i].key,
        is_group_of(cands.push(c), grown),
    ensures
        is_grouping(cands.push(c), gs.update(i, grown)),
{
    let all = cands.push(c);
    let key = key_of(c);
    let out = gs.update(i, grown);
    assert forall|g: int| 0 <= g < out.len() implies is_group_of(all, #[trigger] out[g]) by {
        if g != i {
            assert(out[g] == gs[g]);
            lemma_key_order(gs[g].key, key, key);
            lemma_other_group(cands, c, gs[g]);
        }
    }
    assert forall|k: int| 0 <= k < all.len() implies exists|g: int|
        0 <= g < out.len() && (#[trigger] out[g]).key == key_of(#[trigger] all[k]) by {
        if k < cands.len() {
            assert(all[k] == cands[k]);
            let g = choose|g: int| 0 <= g < gs.len() && (#[trigger] gs[g]).key == key_of(cands[k]);
            assert(out[g].key == key_of(all[k]));
        } else {
            assert(out[i].key == key_of(all[k]));
        }
    }
    assert forall|g: int, h: int| 0 <= g < h < out.len() implies key_before(
        (#[trigger] out[g]).key,
        (#[trigger] out[h]).key,
    ) by {
        assert(key_before(gs[g].key, gs[h].key));
    }
}

/// The grouping with a group for a key that is new, put where the key belongs.
proof fn lemma_grouping_inserted(
    cands: Seq<Candidate>,
    c: Candidate,
    gs: Seq<Group>,
    i: int,
    fresh: Group,
)
    requires
        is_grouping(cands, gs),
        0 <= i <= gs.len(),
        forall|k: int| 0 <= k < i ==> key_before((#[trigger] gs[k]).key, key_of(c)),
        forall|k: int| i <= k < gs.len() ==> key_before(key_of(c), (#[trigger] gs[k]).key),
        fresh.key == key_of(c),
        fresh.count == 1,
        fresh.representative@ == c.name@,
        fresh.priority == priority(c.finding),
    ensures
        is_grouping(cands.push(c), gs.insert(i, fresh)),
{
    let all = cands.push(c);
    let key = key_of(c);
    let out = gs.insert(i, fresh);
    assert forall|k: int| 0 <= k < gs.len() implies (#[trigger] gs[k]).key != key by {
        lemma_key_order(key, key, key);
    }
    assert forall|k: int| 0 <= k < cands.len() implies key_of(#[trigger] cands[k]) != key by {
        let g = choose|g: int| 0 <= g < gs.len() && (#[trigger] gs[g]).key == key_of(cands[k]);
    }
    lemma_new_group(cands, c, fresh);
    assert forall|g: int| 0 <= g < out.len() implies is_group_of(all, #[trigger] out[g]) by {
        if g != i {
            let old_g = if g < i { g } else { g - 1 };
            assert(out[g] == gs[old_g]);
            lemma_other_group(cands, c, gs[old_g]);
        }
    }
    assert forall|k: int| 0 <= k < all.len() implies exists|g: int|
        0 <= g < out.len() && (#[trigger] out[g]).key == key_of(#[trigger] all[k]) by {
        if k < cands.len() {
            assert(all[k] == cands[k]);
            let g = choose|g: int| 0 <= g < gs.len() && (#[trigger] gs[g]).key == key_of(cands[k]);
            let new_g = if g < i { g } else { g + 1 };
            assert(out[new_g] == gs[g]);
        } else {
            assert(out[i].key == key_of(all[k]));
        }
    }
    assert forall|g: int, h: int| 0 <= g < h < out.len() implies key_before(
        (#[trigger] out[g]).key,
        (#[trigger] out[h]).key,
    ) by {
        let og = if g < i { g } else { g - 1 };
        let oh = if h < i { h } else { h - 1 };
        if g != i && h != i {
            assert(key_before(gs[og].key, gs[oh].key));
        } else if g == i {
            assert(key_before(key, gs[oh].key));
        } else {
            assert(key_before(gs[og].key, key));
        }
    }
}

/// The first group that does not come before `key`.
fn position(groups: &Vec<Group>, key: &GroupKey) -> (i: usize)
    ensures
        i <= groups@.len(),
        forall|k: int| 0 <= k < i ==> key_before((#[trigger] groups@[k]).key, *key),
        i < groups@.len() ==> !key_before(groups@[i as int].key, *key),
{
    let mut i: usize = 0;
    while i < groups.len() && comes_before(&groups[i].key, key)
        invariant
            i <= groups@.len(),
            forall|k: int| 0 <= k < i ==> key_before((#[trigger] groups@[k]).key, *key),
        decreases groups@.len() - i,
    {
        i = i + 1;
    }
    i
}

/// Adds one candidate to a grouping.
#[verifier::rlimit(60)]
#[verifier::spinoff_prover]
fn add_candidate(groups: &mut Vec<Group>, c: &Candidate, Ghost(cands): Ghost<Seq<Candidate>>)
    requires
        is_grouping(cands, old(groups)@),
        cands.len() < usize::MAX,
    ensures
        is_grouping(cands.push(*c), final(groups)@),
{
    let key: GroupKey = make_key(c);
    let ghost gs = groups@;
    let i: usize = position(groups, &key);
    if i < groups.len() && groups[i].key == key {
        proof {
            assert(is_group_of(cands, gs[i as int]));
            reveal(is_group_of);
            lemma_key_count(cands, key);
        }
        let earlier: bool = name_before(&c.name, &groups[i].representative);
        let representative: String = if earlier {
            c.name.clone()
        } else {
            groups[i].representative.clone()
        };
        let count: usize = groups[i].count + 1;
        let priority: u8 = groups[i].priority;
        let grown: Group = Group { key, count, representative, priority };
        groups.set(i, grown);
        proof {
            lemma_grown_group(cands, *c, gs[i as int], grown);
            lemma_grouping_grown(cands, *c, gs, i as int, grown);
        }
        return;
    }
    let fresh: Group = Group {
        key,
        count: 1,
        representative: c.name.clone(),
        priority: priority_of(&c.finding),
    };
    groups.insert(i, fresh);
    proof {
        assert forall|k: int| i <= k < gs.len() implies key_before(key, (#[trigger] gs[k]).key) by {
            lemma_key_order(gs[i as int].key, key, key);
            if k > i {
                assert(key_before(gs[i as int].key, gs[k].key));
                lemma_key_order(key, gs[i as int].key, gs[k].key);
            }
        }
        lemma_grouping_inserted(cands, *c, gs, i as int, fresh);
    }
}

/// Group candidates by their key. Groups come by priority, highest first,
/// and then by key; the result does not depend on the order of the input.
pub fn group(candidates: Vec<Candidate>) -> (groups: Vec<Group>)
    ensures
        is_grouping(candidates@, groups@),
{
    let mut groups: Vec<Group> = Vec::new();
    let mut i: usize = 0;
    proof {
        assert(candidates@.take(0) == Seq::<Candidate>::empty());
    }
    while i < candidates.len()
        invariant
            i <= candidates@.len(),
            is_grouping(candidates@.take(i as int), groups@),
        decreases candidates@.len() - i,
    {
        proof {
            assert(candidates@.take(i + 1) == candidates@.take(i as int).push(
                candidates@[i as int],
            ));
        }
        add_candidate(&mut groups, &candidates[i], Ghost(candidates@.take(i as int)));
        i = i + 1;
    }
    assert(candidates@.take(i as int) == candidates@);
    groups
}

// ── Laws ────────────────────────────────────────────────────────────────────

/// Two groups with the same contents.
pub open spec fn same_group(a: Group, b: Group) -> bool {
    a.key == b.key && a.count == b.count && a.representative@ == b.representative@ && a.priority
        == b.priority
}

/// The number of candidates with a key does not depend on their order.
proof fn lemma_count_multiset(a: Seq<Candidate>, b: Seq<Candidate>, key: GroupKey)
    requires
        a.to_multiset() == b.to_multiset(),
    ensures
        key_count(a, key) == key_count(b, key),
    decreases a.len(),
{
    broadcast use vstd::seq_lib::group_to_multiset_ensures;

    assert(a.len() == a.to_multiset().len() && b.len() == b.to_multiset().len());
    if a.len() > 0 {
        let x = a.last();
        assert(a.contains(a[a.len() - 1]));
        assert(b.to_multiset().count(x) > 0);
        assert(b.contains(x));
        let i = choose|i: int| 0 <= i < b.len() && b[i] == x;
        let c = b.remove(i);
        assert(a.drop_last() =~= a.remove(a.len() - 1));
        assert(a.drop_last().to_multiset() =~= c.to_multiset());
        lemma_count_multiset(a.drop_last(), c, key);
        lemma_count_remove(b, i, key);
    } else {
        assert(b.len() == 0);
    }
}

proof fn lemma_count_remove(b: Seq<Candidate>, i: int, key: GroupKey)
    requires
        0 <= i < b.len(),
    ensures
        key_count(b, key) == key_count(b.remove(i), key) + if key_of(b[i]) == key {
            1nat
        } else {
            0nat
        },
    decreases b.len(),
{
    let c = b.remove(i);
    if i == b.len() - 1 {
        assert(c =~= b.drop_last());
    } else {
        lemma_count_remove(b.drop_last(), i, key);
        assert(c.drop_last() =~= b.drop_last().remove(i));
        assert(c.last() == b.last());
    }
}

/// The grouping does not depend on the order of the candidates: two lists
/// with the same candidates have the same groups in the same order.
pub proof fn grouping_ignores_order(
    a: Seq<Candidate>,
    b: Seq<Candidate>,
    ga: Seq<Group>,
    gb: Seq<Group>,
)
    requires
        a.to_multiset() == b.to_multiset(),
        is_grouping(a, ga),
        is_grouping(b, gb),
    ensures
        ga.len() == gb.len(),
        forall|i: int| 0 <= i < ga.len() ==> same_group(#[trigger] ga[i], gb[i]),
{
    lemma_grouping_prefix(a, b, ga, gb, ga.len() as int);
    assert(b.to_multiset() == a.to_multiset());
    lemma_grouping_prefix(b, a, gb, ga, gb.len() as int);
}

/// The first groups of one grouping are those of the other.
#[verifier::rlimit(60)]
#[verifier::spinoff_prover]
proof fn lemma_grouping_prefix(
    a: Seq<Candidate>,
    b: Seq<Candidate>,
    ga: Seq<Group>,
    gb: Seq<Group>,
    n: int,
)
    requires
        a.to_multiset() == b.to_multiset(),
        is_grouping(a, ga),
        is_grouping(b, gb),
        0 <= n <= ga.len(),
    ensures
        n <= gb.len(),
        forall|i: int| 0 <= i < n ==> same_group(#[trigger] ga[i], gb[i]),
    decreases n,
{
    reveal(is_group_of);
    if n > 0 {
        lemma_grouping_prefix(a, b, ga, gb, n - 1);
        let k = ga[n - 1].key;
        // the key has a group in the other grouping, not among the first n - 1
        let h = lemma_key_has_group(a, b, ga[n - 1], gb);
        if h < n - 1 {
            assert(same_group(ga[h], gb[h]));
            assert(key_before(ga[h].key, ga[n - 1].key));
            lemma_key_order(k, k, k);
        }
        // a group in front of it would have a key between
        if h > n - 1 {
            let m = gb[n - 1];
            assert(key_before(m.key, gb[h].key));
            let j = lemma_key_has_group(b, a, m, ga);
            if j < n - 1 {
                assert(same_group(ga[j], gb[j]));
                assert(key_before(gb[j].key, gb[n - 1].key));
                lemma_key_order(m.key, m.key, m.key);
            } else if j > n - 1 {
                assert(key_before(ga[n - 1].key, ga[j].key));
                lemma_key_order(k, m.key, k);
            } else {
                lemma_key_order(k, k, k);
            }
        }
        lemma_count_multiset(a, b, k);
        lemma_same_first_name(a, b, k, ga[n - 1].representative@, gb[n - 1].representative@);
    }
}

/// The key of a group of one list has a group in a grouping of the other.
proof fn lemma_key_has_group(a: Seq<Candidate>, b: Seq<Candidate>, g: Group, gb: Seq<Group>) -> (h:
    int)
    requires
        a.to_multiset() == b.to_multiset(),
        is_group_of(a, g),
        is_grouping(b, gb),
    ensures
        0 <= h < gb.len(),
        gb[h].key == g.key,
{
    reveal(is_group_of);
    broadcast use vstd::seq_lib::group_to_multiset_ensures;

    let i = choose|i: int|
        0 <= i < a.len() && key_of(#[trigger] a[i]) == g.key && a[i].name@ == g.representative@;
    assert(a.contains(a[i]));
    assert(b.to_multiset().count(a[i]) > 0);
    let k = choose|k: int| 0 <= k < b.len() && b[k] == a[i];
    assert(key_of(b[k]) == g.key);
    choose|h: int| 0 <= h < gb.len() && (#[trigger] gb[h]).key == key_of(b[k])
}

/// The first name of a key does not depend on the order.
proof fn lemma_same_first_name(
    a: Seq<Candidate>,
    b: Seq<Candidate>,
    key: GroupKey,
    x: Seq<char>,
    y: Seq<char>,
)
    requires
        a.to_multiset() == b.to_multiset(),
        is_first_name(a, key, x),
        is_first_name(b, key, y),
    ensures
        x == y,
{
    broadcast use vstd::seq_lib::group_to_multiset_ensures;

    let i = choose|i: int|
        0 <= i < a.len() && key_of(#[trigger] a[i]) == key && a[i].name@ == x;
    let j = choose|j: int|
        0 <= j < b.len() && key_of(#[trigger] b[j]) == key && b[j].name@ == y;
    assert(a.contains(a[i]) && b.contains(b[j]));
    assert(b.to_multiset().count(a[i]) > 0 && a.to_multiset().count(b[j]) > 0);
    let k = choose|k: int| 0 <= k < b.len() && b[k] == a[i];
    let m = choose|m: int| 0 <= m < a.len() && a[m] == b[j];
    assert(key_of(b[k]) == key && key_of(a[m]) == key);
    lemma_text_order(x, y);
}

} // verus!
