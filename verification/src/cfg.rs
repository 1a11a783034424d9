//! The structural checks of a program: jump targets, the ends of subprograms
//! and reachability. Back edges are allowed.

use vstd::prelude::*;

use crate::flow;
use crate::flow::{branch_offset, resolve, successors};
use crate::graph;
use crate::graph::reach_from;
use crate::insn::BpfInsn;

verus! {

/// The entry of the subprogram that the instruction at `pc` calls.
pub open spec fn call_target(insns: Seq<BpfInsn>, pc: int) -> Option<int> {
    match insns[pc] {
        BpfInsn::CallSub { offset } => Some(flow::target(pc, offset as int)),
        _ => None,
    }
}

/// A place that control may be sent to: in the program, and not the second
/// slot of a wide load.
pub open spec fn enterable(insns: Seq<BpfInsn>, pc: int) -> bool {
    0 <= pc < insns.len() && !(insns[pc] is LdImm64Second)
}

/// An instruction behind which control does not fall through.
pub open spec fn is_end(insn: BpfInsn) -> bool {
    insn is Exit || insn is Jmp
}

/// The jump or call at `pc` goes to a place that can be entered, and a
/// called subprogram begins behind the end of another.
pub open spec fn targets_valid_at(insns: Seq<BpfInsn>, pc: int) -> bool {
    &&& insns[pc].jump_offset() matches Some(offset) ==> enterable(
        insns,
        flow::target(pc, offset as int),
    )
    &&& call_target(insns, pc) matches Some(entry) ==> enterable(insns, entry) && (entry > 0
        ==> is_end(insns[entry - 1]))
}

/// The control flow edges, those into called subprograms among them.
pub open spec fn code_edges(insns: Seq<BpfInsn>) -> spec_fn(int, int) -> bool {
    |a: int, b: int|
        0 <= a < insns.len() && 0 <= b < insns.len() && (flow::successor_list(insns, a).contains(b)
            || call_target(insns, a) == Some(b))
}

/// A structurally valid program: every jump and call has a valid target,
/// the program and each subprogram ends in an exit or a jump, and every
/// instruction is reachable from the first.
pub open spec fn structurally_valid(insns: Seq<BpfInsn>) -> bool {
    &&& insns.len() > 0
    &&& is_end(insns.last())
    &&& forall|pc: int| 0 <= pc < insns.len() ==> #[trigger] targets_valid_at(insns, pc)
    &&& forall|pc: int|
        0 <= pc < insns.len() ==> #[trigger] graph::reaches(code_edges(insns), 0, pc)
}

fn ends(insn: &BpfInsn) -> (b: bool)
    ensures
        b == is_end(*insn),
{
    match insn {
        BpfInsn::Exit | BpfInsn::Jmp { .. } => true,
        _ => false,
    }
}

fn can_enter(insns: &[BpfInsn], t: u32) -> (b: bool)
    requires
        t < insns@.len(),
    ensures
        b == enterable(insns@, t as int),
{
    match insns[t as usize] {
        BpfInsn::LdImm64Second { .. } => false,
        _ => true,
    }
}

fn targets_ok(insns: &[BpfInsn], pc: u32) -> (b: bool)
    requires
        insns@.len() <= u32::MAX,
        pc < insns@.len(),
    ensures
        b == targets_valid_at(insns@, pc as int),
{
    let insn: BpfInsn = insns[pc as usize];
    if let Some(offset) = branch_offset(&insn) {
        match resolve(pc, offset as i32, insns.len()) {
            Some(t) => {
                if !can_enter(insns, t) {
                    return false;
                }
            },
            None => {
                return false;
            },
        }
    }
    if let BpfInsn::CallSub { offset } = insn {
        match resolve(pc, offset, insns.len()) {
            Some(t) => {
                if !can_enter(insns, t) || (t > 0 && !ends(&insns[(t - 1) as usize])) {
                    return false;
                }
            },
            None => {
                return false;
            },
        }
    }
    true
}

/// The successors of every instruction, called subprograms among them.
fn code_graph(insns: &[BpfInsn]) -> (adj: Vec<Vec<u32>>)
    requires
        insns@.len() <= u32::MAX,
    ensures
        adj@.len() == insns@.len(),
        forall|a: int, b: int|
            0 <= b < insns@.len() ==> #[trigger] graph::list_edges(adj@)(a, b) == code_edges(
                insns@,
            )(a, b),
{
    let mut adj: Vec<Vec<u32>> = Vec::new();
    let mut pc: usize = 0;
    while pc < insns.len()
        invariant
            pc <= insns@.len() <= u32::MAX,
            adj@.len() == pc,
            forall|a: int, b: int|
                0 <= a < pc && 0 <= b < insns@.len() ==> #[trigger] adj@[a]@.contains(b as u32)
                    == code_edges(insns@)(a, b),
        decreases insns@.len() - pc,
    {
        let mut list: Vec<u32> = successors(insns, pc as u32);
        let ghost flow_list = list@;
        proof {
            let mapped = flow_list.map_values(|x: u32| x as int);
            assert forall|b: int| 0 <= b <= u32::MAX implies #[trigger] flow_list.contains(b as u32)
                == flow::successor_list(insns@, pc as int).contains(b) by {
                if flow_list.contains(b as u32) {
                    let k = choose|k: int| 0 <= k < flow_list.len() && flow_list[k] == b as u32;
                    assert(mapped[k] == b);
                }
                if mapped.contains(b) {
                    let k = choose|k: int| 0 <= k < mapped.len() && mapped[k] == b;
                    assert(flow_list[k] == b as u32);
                }
            }
        }
        if let BpfInsn::CallSub { offset } = insns[pc] {
            if let Some(t) = resolve(pc as u32, offset, insns.len()) {
                list.push(t);
                proof {
                    assert forall|x: u32| list@.contains(x) == (flow_list.contains(x) || x == t) by {
                        if flow_list.contains(x) {
                            let k = choose|k: int| 0 <= k < flow_list.len() && flow_list[k] == x;
                            assert(list@[k] == x);
                        }
                        if x == t {
                            assert(list@[list@.len() - 1] == t);
                        }
                    }
                }
            }
        }
        proof {
            assert forall|b: int| 0 <= b < insns@.len() implies #[trigger] list@.contains(b as u32)
                == code_edges(insns@)(pc as int, b) by {
                assert(flow_list.contains(b as u32) == flow::successor_list(
                    insns@,
                    pc as int,
                ).contains(b));
            }
        }
        adj.push(list);
        pc = pc + 1;
    }
    adj
}

/// Whether a program passes the structural checks.
pub fn check_structure(insns: &[BpfInsn]) -> (ok: bool)
    requires
        insns@.len() <= u32::MAX,
    ensures
        ok == structurally_valid(insns@),
{
    let n: usize = insns.len();
    if n == 0 || !ends(&insns[n - 1]) {
        return false;
    }
    let mut pc: usize = 0;
    while pc < n
        invariant
            n == insns@.len() <= u32::MAX,
            pc <= n,
            forall|k: int| 0 <= k < pc ==> #[trigger] targets_valid_at(insns@, k),
        decreases n - pc,
    {
        if !targets_ok(insns, pc as u32) {
            return false;
        }
        pc = pc + 1;
    }
    let adj: Vec<Vec<u32>> = code_graph(insns);
    let seen: Vec<bool> = reach_from(&adj, 0);
    proof {
        assert forall|b: int| 0 <= b < n implies #[trigger] seen@[b] == graph::reaches(
            code_edges(insns@),
            0,
            b,
        ) by {
            lemma_reaches_inside(adj@, insns@, b);
        }
    }
    let mut k: usize = 0;
    while k < n
        invariant
            n == insns@.len() == seen@.len(),
            k <= n,
            forall|b: int| 0 <= b < n ==> #[trigger] seen@[b] == graph::reaches(
                code_edges(insns@),
                0,
                b,
            ),
            forall|b: int| 0 <= b < k ==> #[trigger] graph::reaches(code_edges(insns@), 0, b),
        decreases n - k,
    {
        if !seen[k] {
            return false;
        }
        k = k + 1;
    }
    true
}

/// Two graphs that agree on edges into the program reach the same of its
/// instructions, where edges lead nowhere else.
proof fn lemma_reaches_inside(adj: Seq<Vec<u32>>, insns: Seq<BpfInsn>, b: int)
    requires
        adj.len() == insns.len(),
        forall|x: int, y: int|
            0 <= y < insns.len() ==> #[trigger] graph::list_edges(adj)(x, y) == code_edges(insns)(
                x,
                y,
            ),
        0 <= b < insns.len(),
    ensures
        graph::reaches(graph::list_edges(adj), 0, b) == graph::reaches(code_edges(insns), 0, b),
{
    let e = graph::list_edges(adj);
    let f = code_edges(insns);
    if graph::reaches(e, 0, b) {
        // a node outside the program has no successor, so it is no step on the way
        let inside = |x: int| 0 <= x < insns.len() ==> graph::reaches(f, 0, x);
        graph::reaches_refl(f, 0);
        assert forall|x: int, y: int| inside(x) && #[trigger] e(x, y) implies inside(y) by {
            if 0 <= y < insns.len() {
                assert(f(x, y));
                graph::reaches_step(f, 0, x, y);
            }
        }
        graph::reaches_closed(e, inside, 0, b);
    }
    if graph::reaches(f, 0, b) {
        let inside = |x: int| graph::reaches(e, 0, x);
        graph::reaches_refl(e, 0);
        assert forall|x: int, y: int| inside(x) && #[trigger] f(x, y) implies inside(y) by {
            assert(e(x, y));
            graph::reaches_step(e, 0, x, y);
        }
        graph::reaches_closed(f, inside, 0, b);
    }
}

} // verus!
