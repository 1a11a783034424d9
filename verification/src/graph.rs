//! Reachability in a directed graph whose nodes are instruction indices.

use vstd::prelude::*;

verus! {

/// `p` is a walk along edges of `e`.
pub open spec fn is_path(e: spec_fn(int, int) -> bool, p: Seq<int>) -> bool {
    p.len() > 0 && forall|i: int| #![trigger p[i]] 0 <= i < p.len() - 1 ==> e(p[i], p[i + 1])
}

/// `b` can be reached from `a` along edges of `e`, in any number of steps.
pub open spec fn reaches(e: spec_fn(int, int) -> bool, a: int, b: int) -> bool {
    exists|p: Seq<int>| #[trigger] is_path(e, p) && p[0] == a && p.last() == b
}

/// The edges of a graph that is given by the successors of each node.
pub open spec fn list_edges(adj: Seq<Vec<u32>>) -> spec_fn(int, int) -> bool {
    |a: int, b: int| 0 <= a < adj.len() && 0 <= b <= u32::MAX && adj[a]@.contains(b as u32)
}

/// A node reaches itself.
pub proof fn reaches_refl(e: spec_fn(int, int) -> bool, a: int)
    ensures
        reaches(e, a, a),
{
    assert(is_path(e, seq![a]));
}

/// Reachability extends along an edge.
pub proof fn reaches_step(e: spec_fn(int, int) -> bool, a: int, b: int, c: int)
    requires
        reaches(e, a, b),
        e(b, c),
    ensures
        reaches(e, a, c),
{
    let p = choose|p: Seq<int>| #[trigger] is_path(e, p) && p[0] == a && p.last() == b;
    let q = p.push(c);
    assert forall|i: int| 0 <= i < q.len() - 1 implies e(#[trigger] q[i], q[i + 1]) by {
        if i < p.len() - 1 {
            assert(e(p[i], p[i + 1]));
        }
    }
    assert(is_path(e, q));
}

/// A set of nodes that is closed under the edges and holds `a` holds all
/// that `a` reaches.
pub proof fn reaches_closed(
    e: spec_fn(int, int) -> bool,
    inside: spec_fn(int) -> bool,
    a: int,
    b: int,
)
    requires
        inside(a),
        forall|x: int, y: int| inside(x) && #[trigger] e(x, y) ==> inside(y),
        reaches(e, a, b),
    ensures
        inside(b),
{
    let p = choose|p: Seq<int>| #[trigger] is_path(e, p) && p[0] == a && p.last() == b;
    lemma_path_inside(e, inside, p, p.len() - 1);
}

proof fn lemma_path_inside(
    e: spec_fn(int, int) -> bool,
    inside: spec_fn(int) -> bool,
    p: Seq<int>,
    i: int,
)
    requires
        is_path(e, p),
        inside(p[0]),
        forall|x: int, y: int| inside(x) && #[trigger] e(x, y) ==> inside(y),
        0 <= i < p.len(),
    ensures
        inside(p[i]),
    decreases i,
{
    if i > 0 {
        lemma_path_inside(e, inside, p, i - 1);
        assert(e(p[i - 1], p[i - 1 + 1]));
    }
}

/// Turning every edge around turns reachability around.
pub proof fn reaches_reversed(
    e: spec_fn(int, int) -> bool,
    r: spec_fn(int, int) -> bool,
    a: int,
    b: int,
)
    requires
        forall|x: int, y: int| #[trigger] r(x, y) == e(y, x),
    ensures
        reaches(r, a, b) == reaches(e, b, a),
{
    if reaches(r, a, b) {
        let p = choose|p: Seq<int>| #[trigger] is_path(r, p) && p[0] == a && p.last() == b;
        lemma_path_reversed(r, e, p);
    }
    if reaches(e, b, a) {
        let p = choose|p: Seq<int>| #[trigger] is_path(e, p) && p[0] == b && p.last() == a;
        assert forall|x: int, y: int| #[trigger] e(x, y) == r(y, x) by {
            assert(r(y, x) == e(x, y));
        }
        lemma_path_reversed(e, r, p);
    }
}

proof fn lemma_path_reversed(
    e: spec_fn(int, int) -> bool,
    r: spec_fn(int, int) -> bool,
    p: Seq<int>,
)
    requires
        forall|x: int, y: int| #[trigger] e(x, y) == r(y, x),
        is_path(e, p),
    ensures
        reaches(r, p.last(), p[0]),
{
    let q = p.reverse();
    assert forall|i: int| 0 <= i < q.len() - 1 implies r(#[trigger] q[i], q[i + 1]) by {
        let k = p.len() - 2 - i;
        assert(q[i] == p[k + 1] && q[i + 1] == p[k]);
        assert(e(p[k], p[k + 1]));
    }
    assert(is_path(r, q));
}

/// Reachability depends on nothing but the edges.
pub proof fn reaches_same_edges(
    e: spec_fn(int, int) -> bool,
    f: spec_fn(int, int) -> bool,
    a: int,
    b: int,
)
    requires
        forall|x: int, y: int| #[trigger] e(x, y) == f(x, y),
    ensures
        reaches(e, a, b) == reaches(f, a, b),
{
    if reaches(e, a, b) {
        let p = choose|p: Seq<int>| #[trigger] is_path(e, p) && p[0] == a && p.last() == b;
        assert forall|i: int| 0 <= i < p.len() - 1 implies f(#[trigger] p[i], p[i + 1]) by {
            assert(e(p[i], p[i + 1]));
        }
        assert(is_path(f, p));
    }
    if reaches(f, a, b) {
        let p = choose|p: Seq<int>| #[trigger] is_path(f, p) && p[0] == a && p.last() == b;
        assert forall|i: int| 0 <= i < p.len() - 1 implies e(#[trigger] p[i], p[i + 1]) by {
            assert(f(p[i], p[i + 1]));
        }
        assert(is_path(e, p));
    }
}

/// How many entries are false.
spec fn count_unseen(seen: Seq<bool>) -> nat
    decreases seen.len(),
{
    if seen.len() == 0 {
        0
    } else {
        count_unseen(seen.drop_last()) + if seen.last() { 0nat } else { 1nat }
    }
}

proof fn lemma_mark_seen(seen: Seq<bool>, i: int)
    requires
        0 <= i < seen.len(),
        !seen[i],
    ensures
        count_unseen(seen.update(i, true)) + 1 == count_unseen(seen),
    decreases seen.len(),
{
    let next = seen.update(i, true);
    if i == seen.len() - 1 {
        assert(next.drop_last() == seen.drop_last());
    } else {
        lemma_mark_seen(seen.drop_last(), i);
        assert(next.drop_last() == seen.drop_last().update(i, true));
    }
}

/// The nodes that `start` reaches, itself among them. Successors that are no
/// nodes of the graph lead nowhere, and nothing is reached from such a start.
pub fn reach_from(adj: &Vec<Vec<u32>>, start: u32) -> (seen: Vec<bool>)
    requires
        adj@.len() <= u32::MAX,
    ensures
        seen@.len() == adj@.len(),
        start < adj@.len() ==> forall|b: int|
            0 <= b < seen@.len() ==> #[trigger] seen@[b] == reaches(
                list_edges(adj@),
                start as int,
                b,
            ),
        start >= adj@.len() ==> forall|b: int| 0 <= b < seen@.len() ==> !#[trigger] seen@[b],
{
    let ghost e = list_edges(adj@);
    let n: usize = adj.len();
    let mut seen: Vec<bool> = vec![false; n];
    let mut stack: Vec<u32> = vec![start];
    proof {
        reaches_refl(e, start as int);
    }
    while stack.len() > 0
        invariant
            n == adj@.len(),
            n <= u32::MAX,
            seen@.len() == n,
            e == list_edges(adj@),
            start >= n ==> forall|b: int| 0 <= b < n ==> !#[trigger] seen@[b],
            start >= n ==> forall|k: int| 0 <= k < stack@.len() ==> #[trigger] stack@[k] >= n,
            forall|b: int| 0 <= b < n && #[trigger] seen@[b] ==> reaches(e, start as int, b),
            forall|k: int|
                0 <= k < stack@.len() ==> reaches(e, start as int, (#[trigger] stack@[k]) as int),
            start < n ==> seen@[start as int] || stack@.contains(start),
            forall|a: int, b: int|
                0 <= a < n && 0 <= b < n && seen@[a] && #[trigger] e(a, b) ==> seen@[b]
                    || stack@.contains(b as u32),
        decreases count_unseen(seen@), stack@.len(),
    {
        let ghost stack0 = stack@;
        let ghost seen0 = seen@;
        let pc: u32 = stack.pop().unwrap();
        proof {
            assert(stack@ == stack0.drop_last());
            assert(stack0[stack0.len() - 1] == pc);
            assert forall|x: u32| stack0.contains(x) implies x == pc || stack@.contains(x) by {
                let k = choose|k: int| 0 <= k < stack0.len() && stack0[k] == x;
                if k < stack@.len() {
                    assert(stack@[k] == x);
                }
            }
        }
        let i: usize = pc as usize;
        if i >= n || seen[i] {
            continue;
        }
        seen.set(i, true);
        let ghost stack1 = stack@;
        proof {
            lemma_mark_seen(seen0, i as int);
        }
        let m: usize = adj[i].len();
        let mut k: usize = 0;
        while k < m
            invariant
                i < n,
                n == adj@.len(),
                m == adj@[i as int]@.len(),
                k <= m,
                stack1.len() + k == stack@.len(),
                forall|j: int| 0 <= j < stack1.len() ==> #[trigger] stack@[j] == stack1[j],
                forall|j: int|
                    0 <= j < k ==> stack@[stack1.len() + j] == #[trigger] adj@[i as int]@[j],
            decreases m - k,
        {
            stack.push(adj[i][k]);
            k = k + 1;
        }
        proof {
            let list = adj@[i as int]@;
            assert forall|j: int| 0 <= j < stack@.len() implies reaches(
                e,
                start as int,
                (#[trigger] stack@[j]) as int,
            ) by {
                if j < stack1.len() {
                    assert(stack1[j] == stack0[j]);
                } else {
                    let next = list[j - stack1.len()];
                    assert(stack@[stack1.len() + (j - stack1.len())] == next);
                    assert(e(i as int, next as int));
                    reaches_step(e, start as int, i as int, next as int);
                }
            }
            assert forall|x: u32| stack1.contains(x) implies stack@.contains(x) by {
                let j = choose|j: int| 0 <= j < stack1.len() && stack1[j] == x;
                assert(stack@[j] == x);
            }
            assert forall|a: int, b: int|
                0 <= a < n && 0 <= b < n && seen@[a] && #[trigger] e(a, b) implies seen@[b]
                || stack@.contains(b as u32) by {
                if a == i {
                    let j = choose|j: int| 0 <= j < list.len() && list[j] == b as u32;
                    assert(stack@[stack1.len() + j] == b as u32);
                } else {
                    assert(seen0[a]);
                }
            }
            if start >= n {
                assert(stack0[stack0.len() - 1] >= n);
            }
        }
    }
    proof {
        if start < n {
            assert forall|b: int| 0 <= b < n implies #[trigger] seen@[b] == reaches(
                e,
                start as int,
                b,
            ) by {
                if reaches(e, start as int, b) {
                    // nodes outside the graph have no successors and are never asked for
                    let inside = |x: int| 0 <= x < n ==> seen@[x];
                    assert forall|x: int, y: int| inside(x) && #[trigger] e(x, y) implies inside(
                        y,
                    ) by {}
                    reaches_closed(e, inside, start as int, b);
                }
            }
        }
    }
    seen
}

} // verus!
