//! What holds of the walks that extraction takes through a graph.

use crate::model::{
    closes, closes_at, cycle_len, cycle_path, extract_over, has_edge, is_live, is_next, next_node,
    valid_graph, walk, Adjacency, Kmer,
};
use crate::order::{lemma_lex_asymmetric, lex_lt};
use vstd::prelude::*;

verus! {

/// A walk has at most one way to go on from a node.
pub proof fn lemma_next_unique(g: Adjacency, u: Kmer, v1: Kmer, v2: Kmer)
    requires
        is_next(g, u, v1),
        is_next(g, u, v2),
    ensures
        v1 == v2,
{
    if v1 != v2 {
        assert(g[u].contains(v1) && is_live(g, v1));
        assert(g[u].contains(v2) && is_live(g, v2));
        assert(lex_lt(v1, v2));
        assert(lex_lt(v2, v1));
        lemma_lex_asymmetric(v1, v2);
    }
}

/// Where a node has a next node, that is the node the walk takes.
pub proof fn lemma_next_node(g: Adjacency, u: Kmer, v: Kmer)
    requires
        is_next(g, u, v),
    ensures
        next_node(g, u) == Some(v),
{
    let c = choose|c: Kmer| is_next(g, u, c);
    lemma_next_unique(g, u, v, c);
}

/// A walk that has stopped does not start again.
pub proof fn lemma_walk_stays_stopped(g: Adjacency, start: Kmer, a: nat, b: nat)
    requires
        walk(g, start, a) is None,
        a <= b,
    ensures
        walk(g, start, b) is None,
    decreases b,
{
    if a < b {
        lemma_walk_stays_stopped(g, start, a, (b - 1) as nat);
    }
}

/// A walk that is still going after `b` steps was going after any fewer.
pub proof fn lemma_walk_going_before(g: Adjacency, start: Kmer, a: nat, b: nat)
    requires
        walk(g, start, b) is Some,
        a <= b,
    ensures
        walk(g, start, a) is Some,
{
    if walk(g, start, a) is None {
        lemma_walk_stays_stopped(g, start, a, b);
    }
}

/// A walk that is at the same node after `j` and after `j + p` steps repeats
/// itself with period `p` from step `j` on.
pub proof fn lemma_walk_repeats(g: Adjacency, start: Kmer, j: nat, p: nat, t: nat)
    requires
        walk(g, start, j + p) == walk(g, start, j),
        j <= t,
    ensures
        walk(g, start, t + p) == walk(g, start, t),
    decreases t,
{
    if j < t {
        lemma_walk_repeats(g, start, j, p, (t - 1) as nat);
        assert(walk(g, start, ((t + p) - 1) as nat) == walk(g, start, (t - 1) as nat));
    }
}

/// A walk comes back to its start for the first time after one number of
/// steps only.
pub proof fn lemma_closes_at_unique(g: Adjacency, start: Kmer, a: nat, b: nat)
    requires
        closes_at(g, start, a),
        closes_at(g, start, b),
    ensures
        a == b,
{
}

/// A walk that runs into a node it has passed, other than its start, never
/// comes back to its start.
pub proof fn lemma_rho_never_closes(g: Adjacency, start: Kmer, j: nat, m: nat, t: nat)
    requires
        1 <= j < m,
        walk(g, start, m) == walk(g, start, j),
        forall|i: nat| 1 <= i <= m ==> #[trigger] walk(g, start, i) != Some(start),
        1 <= t,
    ensures
        walk(g, start, t) != Some(start),
    decreases t,
{
    if t > m {
        let p = (m - j) as nat;
        lemma_rho_never_closes(g, start, j, m, (t - p) as nat);
        lemma_walk_repeats(g, start, j, p, (t - p) as nat);
    }
}

/// Each step of a walk goes along an edge of the graph.
pub proof fn lemma_walk_edge(g: Adjacency, start: Kmer, steps: nat)
    requires
        steps >= 1,
        walk(g, start, steps) is Some,
    ensures
        walk(g, start, (steps - 1) as nat) is Some,
        has_edge(
            g,
            walk(g, start, (steps - 1) as nat).unwrap(),
            walk(g, start, steps).unwrap(),
        ),
{
    let u = walk(g, start, (steps - 1) as nat).unwrap();
    let v = choose|v: Kmer| is_next(g, u, v);
    assert(has_edge(g, u, v));
}

/// From its first step on, a walk in a valid graph is at a node of the
/// graph.
pub proof fn lemma_walk_in_graph(g: Adjacency, k: nat, start: Kmer, steps: nat)
    requires
        valid_graph(g, k),
        steps >= 1,
        walk(g, start, steps) is Some,
    ensures
        g.dom().contains(walk(g, start, steps).unwrap()),
        walk(g, start, steps).unwrap().len() == k,
{
    lemma_walk_edge(g, start, steps);
}

/// `path` is what a walk passes from its first node on: each node is
/// followed by the node that the walk takes from it.
pub open spec fn is_walk(g: Adjacency, path: Seq<Kmer>) -> bool {
    &&& path.len() >= 1
    &&& forall|i: int| 0 <= i < path.len() - 1 ==> is_next(g, #[trigger] path[i], path[i + 1])
}

/// A walk from the first node of `path` is at `path[t]` after `t` steps.
pub proof fn lemma_walk_follows(g: Adjacency, path: Seq<Kmer>, t: nat)
    requires
        is_walk(g, path),
        t < path.len(),
    ensures
        walk(g, path[0], t) == Some(path[t as int]),
    decreases t,
{
    if t > 0 {
        lemma_walk_follows(g, path, (t - 1) as nat);
        assert(is_next(g, path[t - 1], path[t - 1 + 1]));
        lemma_next_node(g, path[t - 1], path[t as int]);
    }
}

/// A walk that ends at its first node, and passes it nowhere in between,
/// is the closed walk from that node.
pub proof fn lemma_closed_walk(g: Adjacency, path: Seq<Kmer>)
    requires
        is_walk(g, path),
        path.len() >= 2,
        path.last() == path[0],
        forall|i: int| 0 < i < path.len() - 1 ==> #[trigger] path[i] != path[0],
    ensures
        closes(g, path[0]),
        cycle_len(g, path[0]) == path.len() - 1,
        cycle_path(g, path[0]) == path,
{
    let n = (path.len() - 1) as nat;
    let f = path[0];
    assert forall|t: nat| t <= n implies #[trigger] walk(g, f, t) == Some(path[t as int]) by {
        lemma_walk_follows(g, path, t);
    }
    assert(closes_at(g, f, n));
    lemma_closes_at_unique(g, f, n, cycle_len(g, f));
    assert(cycle_path(g, f) =~= path);
}

/// A walk that comes back to a node it has passed, other than its first,
/// shows that no walk from its first node closes.
pub proof fn lemma_rho_walk(g: Adjacency, path: Seq<Kmer>, j: int)
    requires
        is_walk(g, path),
        1 <= j < path.len() - 1,
        path[j] == path.last(),
        forall|t: int| 1 <= t < path.len() ==> #[trigger] path[t] != path[0],
    ensures
        !closes(g, path[0]),
{
    let m = (path.len() - 1) as nat;
    let f = path[0];
    assert forall|t: nat| t <= m implies #[trigger] walk(g, f, t) == Some(path[t as int]) by {
        lemma_walk_follows(g, path, t);
    }
    assert forall|k: nat| !closes_at(g, f, k) by {
        if k >= 1 {
            lemma_rho_never_closes(g, f, j as nat, m, k);
        }
    }
}

/// A focal node from which the walk cannot take a step is one from which
/// no walk closes.
pub proof fn lemma_stuck_focal(g: Adjacency, focal: Kmer)
    requires
        next_node(g, focal) is None,
    ensures
        !closes(g, focal),
{
    assert(walk(g, focal, 1) is None) by {
        assert(walk(g, focal, 0) == Some(focal));
    }
    assert forall|n: nat| !closes_at(g, focal, n) by {
        if n >= 1 {
            lemma_walk_stays_stopped(g, focal, 1, n);
        }
    }
}

/// From a node without successors no walk closes.
pub proof fn lemma_no_successor_idle(g: Adjacency, u: Kmer)
    requires
        g.dom().contains(u) ==> g[u] == Set::<Kmer>::empty(),
    ensures
        !closes(g, u),
{
    assert forall|v: Kmer| !is_next(g, u, v) by {}
    lemma_stuck_focal(g, u);
}

/// Focal nodes from which no walk closes change nothing.
pub proof fn lemma_idle_focals(g: Adjacency, focals: Seq<Kmer>, from: int, to: int)
    requires
        0 <= from <= to <= focals.len(),
        forall|i: int|
            from <= i < to ==> !closes(
                extract_over(g, focals.take(from)).graph,
                #[trigger] focals[i],
            ),
    ensures
        extract_over(g, focals.take(to)) == extract_over(g, focals.take(from)),
    decreases to - from,
{
    if from < to {
        lemma_idle_focals(g, focals, from, to - 1);
        assert(focals.take(to).drop_last() =~= focals.take(to - 1));
        assert(focals.take(to).last() == focals[to - 1]);
    }
}

} // verus!
