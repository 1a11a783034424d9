//! The structure of a program, by the names of its instructions.

use vstd::prelude::*;

use crate::cfg;
use crate::flow;
use crate::graph;
use crate::insn::BpfInsn;
use crate::laws::names;
use crate::laws::outcome;
use crate::mini;
use crate::mini::{VerifierLimits, WorkItem};

verus! {

/// Control never falls through the instruction.
pub open spec fn closes(i: BpfInsn) -> bool {
    match i {
        BpfInsn::Exit | BpfInsn::Jmp { .. } => true,
        _ => false,
    }
}

/// Where the instruction at `pc` sends control, beside the next instruction.
pub open spec fn sends_to(insns: Seq<BpfInsn>, pc: int) -> Option<int> {
    match insns[pc] {
        BpfInsn::CallSub { offset } => Some(pc + 1 + offset),
        _ => match names::code_offset(insns[pc]) {
            Some(offset) => Some(pc + 1 + offset),
            None => None,
        },
    }
}

/// Control may step from `a` to `b`, into a called subprogram too.
pub open spec fn steps(insns: Seq<BpfInsn>, a: int, b: int) -> bool {
    &&& 0 <= a < insns.len()
    &&& 0 <= b < insns.len()
    &&& (sends_to(insns, a) == Some(b) || b == a + 1 && !closes(insns[a]))
}

/// Control comes from the first instruction to `pc` along `p`.
pub open spec fn leads(insns: Seq<BpfInsn>, p: Seq<int>, pc: int) -> bool {
    &&& p.len() > 0
    &&& p[0] == 0
    &&& p.last() == pc
    &&& forall|j: int| #![trigger p[j]] 0 <= j < p.len() - 1 ==> steps(insns, p[j], p[j + 1])
}

/// Control can come from the first instruction to `pc`.
pub open spec fn comes_to(insns: Seq<BpfInsn>, pc: int) -> bool {
    exists|p: Seq<int>| #[trigger] leads(insns, p, pc)
}

/// What `pc` sends control to lies in the program and is no second half of a wide
/// load; what it calls stands first or behind an instruction that closes.
pub open spec fn sends_well(insns: Seq<BpfInsn>, pc: int) -> bool {
    match sends_to(insns, pc) {
        None => true,
        Some(t) => {
            &&& 0 <= t < insns.len()
            &&& !(insns[t] is LdImm64Second)
            &&& insns[pc] is CallSub && t > 0 ==> closes(insns[t - 1])
        },
    }
}

proof fn lemma_edges(insns: Seq<BpfInsn>, a: int, b: int)
    ensures
        cfg::code_edges(insns)(a, b) == steps(insns, a, b),
{
    if 0 <= a < insns.len() && 0 <= b < insns.len() {
        outcome::branch_offsets_by_name(insns[a], 0);
        let jump = flow::jump_target(insns, a);
        let fall = flow::fall_through(insns, a);
        assert(jump.contains(b) == (insns[a].jump_offset() matches Some(o) && a + 1 + o == b)) by {
            if insns[a].jump_offset() is Some && a + 1 + insns[a].jump_offset()->0 == b {
                assert(jump[0] == b);
            }
        }
        assert(fall.contains(b) == (b == a + 1)) by {
            if b == a + 1 {
                assert(fall[0] == b);
            }
        }
        assert((fall + jump).contains(b) == (fall.contains(b) || jump.contains(b))) by {
            if fall.contains(b) {
                assert((fall + jump)[0] == b);
            }
            if jump.contains(b) {
                let k = choose|k: int| 0 <= k < jump.len() && jump[k] == b;
                assert((fall + jump)[fall.len() + k] == b);
            }
            if (fall + jump).contains(b) {
                let k = choose|k: int| 0 <= k < (fall + jump).len() && (fall + jump)[k] == b;
                if k < fall.len() {
                    assert(fall[k] == b);
                } else {
                    assert(jump[k - fall.len()] == b);
                }
            }
        }
    }
}

proof fn lemma_ways(insns: Seq<BpfInsn>, pc: int)
    ensures
        graph::reaches(cfg::code_edges(insns), 0, pc) == comes_to(insns, pc),
{
    let e = cfg::code_edges(insns);
    if graph::reaches(e, 0, pc) {
        let p = choose|p: Seq<int>| #[trigger] graph::is_path(e, p) && p[0] == 0 && p.last() == pc;
        assert forall|j: int| 0 <= j < p.len() - 1 implies steps(insns, #[trigger] p[j], p[j + 1]) by {
            lemma_edges(insns, p[j], p[j + 1]);
        }
        assert(leads(insns, p, pc));
    }
    if comes_to(insns, pc) {
        let p = choose|p: Seq<int>| #[trigger] leads(insns, p, pc);
        assert forall|j: int| 0 <= j < p.len() - 1 implies e(#[trigger] p[j], p[j + 1]) by {
            lemma_edges(insns, p[j], p[j + 1]);
        }
        assert(graph::is_path(e, p));
    }
}

/// A program is well structured exactly where it ends in an instruction that
/// closes, every jump and call is sent well, and control comes to every
/// instruction.
pub proof fn well_structured_programs(insns: &[BpfInsn], ok: bool)
    requires
        insns@.len() <= u32::MAX,
        call_ensures(cfg::check_structure, (insns,), ok),
    ensures
        ok <==> {
            &&& insns@.len() > 0
            &&& closes(insns@.last())
            &&& forall|pc: int| 0 <= pc < insns@.len() ==> #[trigger] sends_well(insns@, pc)
            &&& forall|pc: int| 0 <= pc < insns@.len() ==> #[trigger] comes_to(insns@, pc)
        },
{
    assert forall|pc: int| 0 <= pc < insns@.len() implies #[trigger] sends_well(insns@, pc)
        == cfg::targets_valid_at(insns@, pc) by {
        outcome::branch_offsets_by_name(insns@[pc], 0);
    }
    assert forall|pc: int| 0 <= pc < insns@.len() implies #[trigger] comes_to(insns@, pc)
        == graph::reaches(cfg::code_edges(insns@), 0, pc) by {
        lemma_ways(insns@, pc);
    }
    if cfg::structurally_valid(insns@) {
        assert forall|pc: int| 0 <= pc < insns@.len() implies #[trigger] sends_well(insns@, pc) by {
            assert(cfg::targets_valid_at(insns@, pc));
        }
        assert forall|pc: int| 0 <= pc < insns@.len() implies #[trigger] comes_to(insns@, pc) by {
            assert(graph::reaches(cfg::code_edges(insns@), 0, pc));
        }
    }
    if (forall|pc: int| 0 <= pc < insns@.len() ==> #[trigger] sends_well(insns@, pc)) && (forall|
        pc: int,
    |
        0 <= pc < insns@.len() ==> #[trigger] comes_to(insns@, pc)) {
        assert forall|pc: int| 0 <= pc < insns@.len() implies #[trigger] cfg::targets_valid_at(
            insns@,
            pc,
        ) by {
            assert(sends_well(insns@, pc));
        }
        assert forall|pc: int| 0 <= pc < insns@.len() implies #[trigger] graph::reaches(
            cfg::code_edges(insns@),
            0,
            pc,
        ) by {
            assert(comes_to(insns@, pc));
        }
    }
}

/// The exploration remembers states at the conditional branches and at the targets
/// of jumps, and nowhere else.
pub proof fn prune_points_by_name(program: &[BpfInsn], prune: Vec<bool>, pc: int)
    requires
        program@.len() <= u32::MAX,
        call_ensures(mini::compute_prune_points, (program,), prune),
        0 <= pc < program@.len(),
    ensures
        prune@.len() == program@.len(),
        prune@[pc] <==> names::compare_offset(program@[pc]) is Some || exists|i: int|
            0 <= i < program@.len() && (#[trigger] program@[i]) is Jmp && sends_to(program@, i)
                == Some(pc),
{
    outcome::compares_by_name(program@[pc]);
    let insns = program@;
    assert(prune@[pc] == mini::is_prune_point(insns, pc));
    assert forall|i: int| 0 <= i < insns.len() && (#[trigger] insns[i]) is Jmp implies sends_to(
        insns,
        i,
    ) == Some(flow::target(i, insns[i].jump_offset()->0 as int)) by {
        outcome::branch_offsets_by_name(insns[i], 0);
    }
}

/// Exits, jumps, compares and calls of helpers count as jumps, and nothing else.
pub proof fn jumps_by_name(i: BpfInsn)
    ensures
        mini::is_jump(i) <==> i is Exit || i is Jmp || i is Call || names::compare_offset(i) is Some,
{
    outcome::compares_by_name(i);
}

/// Without explicit limits, a thousand and twenty-four states are remembered at
/// most, a hundred thousand steps made, and a loop head visited two hundred and
/// fifty-six times.
pub proof fn usual_limits(l: VerifierLimits)
    requires
        l == mini::default_limits(),
    ensures
        l.max_states == 1024,
        l.max_steps == 100_000,
        l.max_loop_iterations == 256,
{
}

/// Of the states that an instruction leads to, the first is followed first: it
/// lies on top of the pending paths, and each of them descends from the same
/// remembered state.
pub proof fn first_successor_is_followed_first<S>(
    work: Seq<WorkItem<S>>,
    next: Seq<(u32, S)>,
    last_cp: Option<usize>,
    j: int,
)
    requires
        0 <= j < next.len(),
    ensures
        ({
            let all = work + mini::paths(next, last_cp);
            &&& all.len() == work.len() + next.len()
            &&& all[all.len() - 1 - j].pc == next[j].0
            &&& all[all.len() - 1 - j].state == next[j].1
            &&& all[all.len() - 1 - j].last_cp == last_cp
        }),
{
}

/// A state is worth keeping after eight instructions and two jumps; a loop may put
/// that off until a hundred instructions or twenty jumps; and a state that misses
/// more than three times as often as it hits, and three times more, is let go.
pub proof fn keeping_of_states(
    insns: usize,
    jmps: usize,
    due: bool,
    throttled: bool,
    hits: int,
    misses: int,
)
    requires
        call_ensures(mini::is_store_due, (insns, jmps), due),
        call_ensures(mini::is_store_throttled, (insns, jmps), throttled),
    ensures
        due <==> insns >= 8 && jmps >= 2,
        throttled <==> insns < 100 && jmps < 20,
        mini::unhelpful(hits, misses) <==> misses > 3 * hits + 3,
{
}

} // verus!
