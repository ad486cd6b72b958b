//! Cycles of the graph, and what extraction makes of a walk round one.

use crate::model::{
    closes, cycle_path, extract_over, is_next, on_path, pruned, superstring, Adjacency, Extraction,
    Kmer,
};
use crate::walks::{lemma_closed_walk, lemma_idle_focals};
use vstd::prelude::*;

verus! {

/// The index that follows `i` on the way round a cycle of `n` nodes.
pub open spec fn after(i: int, n: int) -> int {
    if i + 1 < n {
        i + 1
    } else {
        0
    }
}

/// The index reached from `j` in `t` steps round a cycle of `n` nodes, for at
/// most `n` steps.
pub open spec fn round(j: int, t: int, n: int) -> int {
    if j + t < n {
        j + t
    } else {
        j + t - n
    }
}

/// The closed walk once round `cycle`, from the node at index `j` back to it.
pub open spec fn turned(cycle: Seq<Kmer>, j: int) -> Seq<Kmer> {
    Seq::new(cycle.len() + 1, |t: int| cycle[round(j, t, cycle.len() as int)])
}

/// The nodes of `cycle` are distinct, and from each of them the walk goes on
/// to the next of `cycle`, from the last of them to the first.
pub open spec fn is_walked_cycle(g: Adjacency, cycle: Seq<Kmer>) -> bool {
    &&& cycle.len() >= 1
    &&& cycle.no_duplicates()
    &&& forall|i: int|
        0 <= i < cycle.len() ==> is_next(g, #[trigger] cycle[i], cycle[after(i, cycle.len() as int)])
}

/// The graph without the edges that lead round `cycle`.
pub open spec fn unlinked(g: Adjacency, cycle: Seq<Kmer>) -> Adjacency {
    Map::new(
        |u: Kmer| g.dom().contains(u),
        |u: Kmer|
            if cycle.contains(u) {
                g[u].remove(cycle[after(cycle.index_of(u), cycle.len() as int)])
            } else {
                g[u]
            },
    )
}

/// From a node of a cycle that the walk follows, the walk goes once round
/// the cycle, and pruning it removes the edges of the cycle.
pub proof fn lemma_walked_cycle_closes(g: Adjacency, cycle: Seq<Kmer>, j: int)
    requires
        is_walked_cycle(g, cycle),
        0 <= j < cycle.len(),
    ensures
        closes(g, cycle[j]),
        cycle_path(g, cycle[j]) == turned(cycle, j),
        pruned(g, turned(cycle, j)) == unlinked(g, cycle),
{
    let n = cycle.len() as int;
    let path = turned(cycle, j);
    assert forall|t: int| 0 <= t < path.len() - 1 implies is_next(
        g,
        #[trigger] path[t],
        path[t + 1],
    ) by {
        let a = round(j, t, n);
        assert(round(j, t + 1, n) == after(a, n));
        assert(is_next(g, cycle[a], cycle[after(a, n)]));
    }
    assert(path[0] == cycle[j]);
    assert forall|t: int| 0 < t < path.len() - 1 implies #[trigger] path[t] != path[0] by {
        assert(round(j, t, n) != j);
    }
    lemma_closed_walk(g, path);
    let h = pruned(g, path);
    let target = unlinked(g, cycle);
    assert forall|u: Kmer| h.dom().contains(u) implies #[trigger] h[u] =~= target[u] by {
        if cycle.contains(u) {
            let i = cycle.index_of(u);
            assert(cycle[i] == u);
            let gone = cycle[after(i, n)];
            let t = if i >= j { i - j } else { i - j + n };
            assert(round(j, t, n) == i);
            assert(round(j, t + 1, n) == after(i, n));
            assert(path[t] == u && path[t + 1] == gone);
            assert(on_path(path, u, gone));
            assert forall|v: Kmer| on_path(path, u, v) implies v == gone by {
                let a = choose|a: int|
                    0 <= a < path.len() - 1 && #[trigger] path[a] == u && path[a + 1] == v;
                assert(cycle[round(j, a, n)] == cycle[i]);
                assert(round(j, a, n) == i);
                assert(round(j, a + 1, n) == after(i, n));
            }
        } else {
            assert forall|v: Kmer| !on_path(path, u, v) by {
                if on_path(path, u, v) {
                    let t = choose|t: int|
                        0 <= t < path.len() - 1 && #[trigger] path[t] == u && path[t + 1] == v;
                    assert(cycle[round(j, t, n)] == u);
                }
            }
        }
    }
    assert(h =~= target);
}

/// The nodes of `cycle` are distinct nodes of the graph, and each leads to
/// one node only: the next of `cycle`, the last of them to the first.
pub open spec fn is_simple_cycle(g: Adjacency, cycle: Seq<Kmer>) -> bool {
    &&& cycle.len() >= 1
    &&& cycle.no_duplicates()
    &&& forall|i: int|
        0 <= i < cycle.len() ==> g.dom().contains(#[trigger] cycle[i]) && g[cycle[i]]
            == set![cycle[after(i, cycle.len() as int)]]
}

/// The graph with every node of `nodes` left without successors.
pub open spec fn cleared(g: Adjacency, nodes: Seq<Kmer>) -> Adjacency {
    Map::new(
        |u: Kmer| g.dom().contains(u),
        |u: Kmer|
            if nodes.contains(u) {
                Set::empty()
            } else {
                g[u]
            },
    )
}

/// A simple cycle is one that the walk follows, and removing its edges
/// leaves its nodes without successors.
pub proof fn lemma_simple_cycle_walked(g: Adjacency, cycle: Seq<Kmer>)
    requires
        is_simple_cycle(g, cycle),
    ensures
        is_walked_cycle(g, cycle),
        unlinked(g, cycle) == cleared(g, cycle),
{
    let n = cycle.len() as int;
    assert forall|i: int| 0 <= i < cycle.len() implies is_next(
        g,
        #[trigger] cycle[i],
        cycle[after(i, n)],
    ) by {
        let b = after(i, n);
        let u = cycle[i];
        let v = cycle[b];
        assert(g[u] == set![v]);
        assert(g[u].contains(v));
        assert(g[v] == set![cycle[after(b, n)]]);
        assert(g[v].contains(cycle[after(b, n)]));
    }
    let h = unlinked(g, cycle);
    let target = cleared(g, cycle);
    assert forall|u: Kmer| h.dom().contains(u) implies #[trigger] h[u] =~= target[u] by {
        if cycle.contains(u) {
            let i = cycle.index_of(u);
            assert(cycle[i] == u);
            assert(g[u] == set![cycle[after(i, n)]]);
        }
    }
    assert(h =~= target);
}

/// Clearing the nodes of one list leaves a simple cycle over other nodes as
/// it is.
pub proof fn lemma_cleared_keeps_cycle(g: Adjacency, nodes: Seq<Kmer>, cycle: Seq<Kmer>)
    requires
        is_simple_cycle(g, cycle),
        forall|i: int, j: int|
            0 <= i < nodes.len() && 0 <= j < cycle.len() ==> nodes[i] != cycle[j],
    ensures
        is_simple_cycle(cleared(g, nodes), cycle),
{
    let h = cleared(g, nodes);
    assert forall|i: int| 0 <= i < cycle.len() implies h.dom().contains(#[trigger] cycle[i])
        && h[cycle[i]] == set![cycle[after(i, cycle.len() as int)]] by {
        assert(g.dom().contains(cycle[i]));
        if nodes.contains(cycle[i]) {
            let t = nodes.index_of(cycle[i]);
            assert(nodes[t] == cycle[i]);
        }
    }
}

/// Focal nodes that yield nothing, and then one on a cycle that the walk
/// follows: the superstring of the walk once round the cycle from that node
/// is recorded, and the edges of the cycle are removed.
pub proof fn lemma_cycle_stage(
    g: Adjacency,
    focals: Seq<Kmer>,
    from: int,
    at: int,
    cycle: Seq<Kmer>,
    j: int,
)
    requires
        0 <= from <= at < focals.len(),
        is_walked_cycle(extract_over(g, focals.take(from)).graph, cycle),
        0 <= j < cycle.len(),
        focals[at] == cycle[j],
        forall|i: int|
            from <= i < at ==> !closes(
                extract_over(g, focals.take(from)).graph,
                #[trigger] focals[i],
            ),
    ensures
        extract_over(g, focals.take(at + 1)) == (Extraction {
            superstrings: extract_over(g, focals.take(from)).superstrings.push(
                superstring(turned(cycle, j)),
            ),
            graph: unlinked(extract_over(g, focals.take(from)).graph, cycle),
        }),
{
    let e = extract_over(g, focals.take(from));
    lemma_idle_focals(g, focals, from, at);
    lemma_walked_cycle_closes(e.graph, cycle, j);
    assert(focals.take(at + 1).drop_last() =~= focals.take(at));
    assert(focals.take(at + 1).last() == focals[at]);
}

/// Focal nodes that yield nothing, and then one on a simple cycle: the
/// superstring of the walk once round the cycle from that node is recorded,
/// and the nodes of the cycle are left without successors.
pub proof fn lemma_simple_cycle_stage(
    g: Adjacency,
    focals: Seq<Kmer>,
    from: int,
    at: int,
    cycle: Seq<Kmer>,
    j: int,
)
    requires
        0 <= from <= at < focals.len(),
        is_simple_cycle(extract_over(g, focals.take(from)).graph, cycle),
        0 <= j < cycle.len(),
        focals[at] == cycle[j],
        forall|i: int|
            from <= i < at ==> !closes(
                extract_over(g, focals.take(from)).graph,
                #[trigger] focals[i],
            ),
    ensures
        extract_over(g, focals.take(at + 1)) == (Extraction {
            superstrings: extract_over(g, focals.take(from)).superstrings.push(
                superstring(turned(cycle, j)),
            ),
            graph: cleared(extract_over(g, focals.take(from)).graph, cycle),
        }),
{
    lemma_simple_cycle_walked(extract_over(g, focals.take(from)).graph, cycle);
    lemma_cycle_stage(g, focals, from, at, cycle, j);
}

} // verus!
