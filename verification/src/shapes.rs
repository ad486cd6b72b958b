//! What extraction yields on graphs of a known shape.

use crate::model::{
    closes, closes_at, cycle_len, cycle_path, enumerates, extract_over, extraction, has_edge,
    is_live, is_next, on_path, overlaps, pruned, sorted_nodes, superstring, valid_graph, walk,
    Adjacency, Extraction, Kmer,
};
use crate::order::{
    lemma_lex_asymmetric, lemma_lex_irreflexive, lemma_lex_total, lex_lt, strictly_ascending,
};
use crate::rounds::{
    after, cleared, is_simple_cycle, is_walked_cycle, lemma_cleared_keeps_cycle, lemma_cycle_stage,
    lemma_simple_cycle_stage, round, turned, unlinked,
};
use crate::sorting::{
    is_least_after, is_least_at, least_index, lemma_before_least, lemma_least_exists,
    lemma_least_first, lemma_sorted_list, lemma_sorted_nodes, lemma_sorted_nodes_of_two,
};
use crate::trim::shaved;
use crate::walks::{
    lemma_idle_focals, lemma_no_successor_idle, lemma_rho_walk, lemma_walk_edge,
    lemma_walk_going_before,
};
use vstd::prelude::*;

verus! {

/// A walk along edges that ends where it began, with at least one edge.
pub open spec fn is_closed_path(g: Adjacency, path: Seq<Kmer>) -> bool {
    &&& path.len() >= 2
    &&& path.first() == path.last()
    &&& forall|i: int| 0 <= i < path.len() - 1 ==> has_edge(g, #[trigger] path[i], path[i + 1])
}

/// The graph holds a directed cycle.
pub open spec fn has_directed_cycle(g: Adjacency) -> bool {
    exists|path: Seq<Kmer>| is_closed_path(g, path)
}

/// The closed walk from a focal node is a directed cycle of the graph.
pub proof fn lemma_cycle_path_is_closed(g: Adjacency, focal: Kmer)
    requires
        closes(g, focal),
    ensures
        is_closed_path(g, cycle_path(g, focal)),
{
    let n = cycle_len(g, focal);
    let path = cycle_path(g, focal);
    assert(closes_at(g, focal, n));
    assert forall|i: int| 0 <= i < path.len() - 1 implies has_edge(
        g,
        #[trigger] path[i],
        path[i + 1],
    ) by {
        lemma_walk_going_before(g, focal, (i + 1) as nat, n);
        lemma_walk_edge(g, focal, (i + 1) as nat);
    }
}

/// Over a graph without a directed cycle no focal node yields anything, and
/// the graph stays as it is.
pub proof fn lemma_acyclic_extract_over(g: Adjacency, focals: Seq<Kmer>)
    requires
        !has_directed_cycle(g),
    ensures
        extract_over(g, focals) == (Extraction { superstrings: Seq::empty(), graph: g }),
    decreases focals.len(),
{
    if focals.len() > 0 {
        lemma_acyclic_extract_over(g, focals.drop_last());
        if closes(g, focals.last()) {
            lemma_cycle_path_is_closed(g, focals.last());
        }
    }
}

/// A graph with no directed cycle yields no superstring.
pub proof fn lemma_acyclic_yields_nothing(g: Adjacency)
    requires
        !has_directed_cycle(g),
    ensures
        extraction(g).superstrings.len() == 0,
        extraction(g).graph == g,
{
    lemma_acyclic_extract_over(g, sorted_nodes(g));
}

/// Extraction keeps every node and adds no edge, whatever the focal nodes.
pub proof fn lemma_extract_over_shrinks(g: Adjacency, focals: Seq<Kmer>)
    ensures
        forall|u: Kmer| extract_over(g, focals).graph.dom().contains(u) <==> g.dom().contains(u),
        forall|u: Kmer, v: Kmer|
            has_edge(extract_over(g, focals).graph, u, v) ==> has_edge(g, u, v),
    decreases focals.len(),
{
    if focals.len() > 0 {
        lemma_extract_over_shrinks(g, focals.drop_last());
    }
}

/// A focal node from which the walk closes costs the graph the edge on
/// which the walk leaves the node.
pub proof fn lemma_closing_prunes(g: Adjacency, focal: Kmer)
    requires
        closes(g, focal),
    ensures
        has_edge(g, focal, walk(g, focal, 1).unwrap()),
        !has_edge(pruned(g, cycle_path(g, focal)), focal, walk(g, focal, 1).unwrap()),
{
    let n = cycle_len(g, focal);
    let path = cycle_path(g, focal);
    assert(closes_at(g, focal, n));
    lemma_walk_going_before(g, focal, 1, n);
    lemma_walk_edge(g, focal, 1);
    assert(walk(g, focal, 0) == Some(focal));
    assert(path[0int] == focal && path[0int + 1] == walk(g, focal, 1).unwrap());
    assert(on_path(path, focal, walk(g, focal, 1).unwrap()));
}

/// Extraction leaves all nodes in the graph and adds no edge to it.
pub proof fn lemma_extraction_shrinks(g: Adjacency)
    ensures
        forall|u: Kmer| extraction(g).graph.dom().contains(u) <==> g.dom().contains(u),
        forall|u: Kmer, v: Kmer| has_edge(extraction(g).graph, u, v) ==> has_edge(g, u, v),
{
    lemma_extract_over_shrinks(g, sorted_nodes(g));
}

/// Every superstring found over ascending focal nodes of length `k` begins
/// with the focal node that its walk began at, and the superstrings stand in
/// the order of these nodes.
pub proof fn lemma_extract_over_ascending(g: Adjacency, k: nat, focals: Seq<Kmer>)
    requires
        strictly_ascending(focals),
        forall|i: int| 0 <= i < focals.len() ==> (#[trigger] focals[i]).len() == k,
    ensures
        forall|i: int|
            0 <= i < extract_over(g, focals).superstrings.len() ==> focals.contains(
                (#[trigger] extract_over(g, focals).superstrings[i]).take(k as int),
            ),
        forall|i: int, j: int|
            0 <= i < j < extract_over(g, focals).superstrings.len() ==> lex_lt(
                (#[trigger] extract_over(g, focals).superstrings[i]).take(k as int),
                (#[trigger] extract_over(g, focals).superstrings[j]).take(k as int),
            ),
    decreases focals.len(),
{
    if focals.len() > 0 {
        let rest = focals.drop_last();
        let focal = focals.last();
        assert(strictly_ascending(rest)) by {
            assert forall|i: int, j: int| 0 <= i < j < rest.len() implies lex_lt(
                #[trigger] rest[i],
                #[trigger] rest[j],
            ) by {
                assert(lex_lt(focals[i], focals[j]));
            }
        }
        assert forall|i: int| 0 <= i < rest.len() implies (#[trigger] rest[i]).len() == k by {
            assert(rest[i] == focals[i]);
        }
        lemma_extract_over_ascending(g, k, rest);
        let before = extract_over(g, rest);
        let found = extract_over(g, focals).superstrings;
        assert forall|i: int| 0 <= i < before.superstrings.len() implies focals.contains(
            (#[trigger] before.superstrings[i]).take(k as int),
        ) && lex_lt(before.superstrings[i].take(k as int), focal) by {
            let start = before.superstrings[i].take(k as int);
            assert(rest.contains(start));
            let a = rest.index_of(start);
            assert(focals[a] == start);
            assert(lex_lt(focals[a], focals[focals.len() - 1]));
        }
        if closes(before.graph, focal) {
            let path = cycle_path(before.graph, focal);
            let text = superstring(path);
            assert(walk(before.graph, focal, 0) == Some(focal));
            assert(path[0] == focal);
            assert(focals[focals.len() - 1] == focal);
            assert(text.take(k as int) =~= focal);
            assert(found == before.superstrings.push(text));
            assert forall|i: int| 0 <= i < found.len() implies focals.contains(
                (#[trigger] found[i]).take(k as int),
            ) by {
                if i < before.superstrings.len() {
                    assert(found[i] == before.superstrings[i]);
                }
            }
            assert forall|i: int, j: int| 0 <= i < j < found.len() implies lex_lt(
                (#[trigger] found[i]).take(k as int),
                (#[trigger] found[j]).take(k as int),
            ) by {
                assert(found[i] == before.superstrings[i]);
                if j < before.superstrings.len() {
                    assert(found[j] == before.superstrings[j]);
                }
            }
        }
    }
}

/// The superstrings of a graph over k-mers each begin with a node of the
/// graph, the focal node of their walk, and stand in the ascending order of
/// these nodes.
pub proof fn lemma_extraction_ascending(g: Adjacency, k: nat)
    requires
        valid_graph(g, k),
    ensures
        forall|i: int|
            0 <= i < extraction(g).superstrings.len() ==> g.dom().contains(
                (#[trigger] extraction(g).superstrings[i]).take(k as int),
            ),
        forall|i: int, j: int|
            0 <= i < j < extraction(g).superstrings.len() ==> lex_lt(
                (#[trigger] extraction(g).superstrings[i]).take(k as int),
                (#[trigger] extraction(g).superstrings[j]).take(k as int),
            ),
{
    lemma_sorted_list(g.dom());
    let focals = sorted_nodes(g);
    assert forall|i: int| 0 <= i < focals.len() implies (#[trigger] focals[i]).len() == k by {
        assert(focals.contains(focals[i]));
        assert(g.dom().contains(focals[i]));
    }
    lemma_extract_over_ascending(g, k, focals);
}

/// In a graph over k-mers the superstring of a closed path reads the nodes
/// of the path back: it has one character for each edge of the path and
/// `k - 1` more, and its `k` characters from position `i` on are the node
/// at index `i` of the path.
pub proof fn lemma_superstring_windows(g: Adjacency, k: nat, path: Seq<Kmer>, i: int)
    requires
        valid_graph(g, k),
        is_closed_path(g, path),
        0 <= i < path.len() - 1,
    ensures
        superstring(path).len() == k + path.len() - 2,
        superstring(path).subrange(i, i + k) == path[i],
    decreases i,
{
    let text = superstring(path);
    assert(has_edge(g, path[0], path[1]));
    assert(has_edge(g, path[i], path[i + 1]));
    if i == 0 {
        assert(text.subrange(0, k as int) =~= path[0]);
    } else {
        lemma_superstring_windows(g, k, path, i - 1);
        let before = path[i - 1];
        let here = path[i];
        assert(has_edge(g, before, here));
        assert(overlaps(before, here));
        let window = text.subrange(i, i + k);
        assert forall|a: int| 0 <= a < k implies window[a] == here[a] by {
            if a < k - 1 {
                assert(text[i + a] == text.subrange(i - 1, i - 1 + k)[a + 1]);
                assert(before.skip(1)[a] == before[a + 1]);
                assert(here.take(here.len() - 1)[a] == here[a]);
            }
        }
        assert(window =~= here);
    }
}

/// A graph that is one simple cycle of `n` distinct nodes of length `k`
/// yields exactly one superstring: that of the walk once round the cycle
/// from its least node. It has `n + k - 1` characters, and shaving by `k`
/// leaves `n + 1` of them. Every edge is pruned.
pub proof fn lemma_single_cycle(g: Adjacency, k: nat, cycle: Seq<Kmer>)
    requires
        is_simple_cycle(g, cycle),
        forall|u: Kmer| g.dom().contains(u) ==> cycle.contains(u),
        forall|i: int| 0 <= i < cycle.len() ==> (#[trigger] cycle[i]).len() == k,
    ensures
        extraction(g).superstrings == seq![superstring(turned(cycle, least_index(cycle)))],
        extraction(g).superstrings[0].len() == cycle.len() + k - 1,
        k >= 2 ==> shaved(extraction(g).superstrings[0], k).len() == cycle.len() + 1,
        extraction(g).graph == cleared(g, cycle),
{
    assert forall|u: Kmer| g.dom().contains(u) <==> cycle.contains(u) by {
        if cycle.contains(u) {
            let i = cycle.index_of(u);
            assert(cycle[i] == u);
        }
    }
    lemma_sorted_nodes(g, cycle);
    lemma_least_exists(cycle);
    let focals = sorted_nodes(g);
    let j = least_index(cycle);
    assert(cycle.contains(cycle[j]));
    let p = focals.index_of(cycle[j]);
    assert(focals[p] == cycle[j]);
    assert(p == 0) by {
        if p > 0 {
            assert(focals.contains(focals[0]));
            lemma_before_least(focals, cycle, p, 0);
        }
    }
    assert(focals.take(0) =~= Seq::<Kmer>::empty());
    assert(extract_over(g, focals.take(0)) == (Extraction { superstrings: Seq::empty(), graph: g }));
    lemma_simple_cycle_stage(g, focals, 0, 0, cycle, j);
    let first = extract_over(g, focals.take(1));
    let found = superstring(turned(cycle, j));
    assert(first.superstrings =~= seq![found]);
    assert forall|i: int| 1 <= i < focals.len() implies !closes(
        first.graph,
        #[trigger] focals[i],
    ) by {
        assert(focals.contains(focals[i]));
        lemma_no_successor_idle(first.graph, focals[i]);
    }
    lemma_idle_focals(g, focals, 1, focals.len() as int);
    assert(focals.take(focals.len() as int) =~= focals);
    assert(turned(cycle, j)[0] == cycle[j]);
    assert(found.len() == cycle.len() + k - 1);
}

/// Two simple cycles without a common node, the least node of the first
/// before the least node of the second: the graph that consists of them
/// yields the superstring of the first, read from its least node, and then
/// that of the second, read from its least node.
proof fn lemma_two_cycles_in_order(g: Adjacency, first: Seq<Kmer>, second: Seq<Kmer>)
    requires
        is_simple_cycle(g, first),
        is_simple_cycle(g, second),
        forall|i: int, j: int|
            0 <= i < first.len() && 0 <= j < second.len() ==> first[i] != second[j],
        forall|u: Kmer| g.dom().contains(u) ==> first.contains(u) || second.contains(u),
        lex_lt(first[least_index(first)], second[least_index(second)]),
    ensures
        extraction(g).superstrings == seq![
            superstring(turned(first, least_index(first))),
            superstring(turned(second, least_index(second))),
        ],
        extraction(g).graph == cleared(cleared(g, first), second),
{
    lemma_sorted_nodes_of_two(g, first, second);
    lemma_least_exists(first);
    lemma_least_exists(second);
    let focals = sorted_nodes(g);
    let ja = least_index(first);
    let jb = least_index(second);
    lemma_least_first(focals, first, second);
    let pb = focals.index_of(second[jb]);
    let start = Extraction { superstrings: Seq::empty(), graph: g };
    assert(focals.take(0) =~= Seq::<Kmer>::empty());
    assert(extract_over(g, focals.take(0)) == start);
    lemma_simple_cycle_stage(g, focals, 0, 0, first, ja);
    let e1 = extract_over(g, focals.take(1));
    let g1 = cleared(g, first);
    assert(e1.graph == g1);
    lemma_cleared_keeps_cycle(g, first, second);
    assert forall|i: int| 1 <= i < pb implies !closes(e1.graph, #[trigger] focals[i]) by {
        assert(focals.contains(focals[i]));
        lemma_before_least(focals, second, pb, i);
        lemma_no_successor_idle(g1, focals[i]);
    }
    lemma_simple_cycle_stage(g, focals, 1, pb, second, jb);
    let e2 = extract_over(g, focals.take(pb + 1));
    let g2 = cleared(g1, second);
    assert(e2.graph == g2);
    assert forall|i: int| pb + 1 <= i < focals.len() implies !closes(
        e2.graph,
        #[trigger] focals[i],
    ) by {
        assert(focals.contains(focals[i]));
        lemma_no_successor_idle(g2, focals[i]);
    }
    lemma_idle_focals(g, focals, pb + 1, focals.len() as int);
    assert(focals.take(focals.len() as int) =~= focals);
    assert(e2.superstrings =~= seq![
        superstring(turned(first, ja)),
        superstring(turned(second, jb)),
    ]);
}

/// A graph that consists of two simple cycles without a common node yields
/// two superstrings, one of each cycle, read from the least node of the
/// cycle; the cycle with the lesser least node comes first.
pub proof fn lemma_two_disjoint_cycles(g: Adjacency, c: Seq<Kmer>, d: Seq<Kmer>)
    requires
        is_simple_cycle(g, c),
        is_simple_cycle(g, d),
        forall|i: int, j: int| 0 <= i < c.len() && 0 <= j < d.len() ==> c[i] != d[j],
        forall|u: Kmer| g.dom().contains(u) ==> c.contains(u) || d.contains(u),
    ensures
        extraction(g).superstrings == if lex_lt(c[least_index(c)], d[least_index(d)]) {
            seq![
                superstring(turned(c, least_index(c))),
                superstring(turned(d, least_index(d))),
            ]
        } else {
            seq![
                superstring(turned(d, least_index(d))),
                superstring(turned(c, least_index(c))),
            ]
        },
{
    lemma_least_exists(c);
    lemma_least_exists(d);
    let a = c[least_index(c)];
    let b = d[least_index(d)];
    lemma_lex_total(a, b);
    if lex_lt(a, b) {
        lemma_two_cycles_in_order(g, c, d);
    } else {
        lemma_two_cycles_in_order(g, d, c);
    }
}

/// Two cycles that have their first node in common and no other. The graph
/// consists of them: the common node leads to the node after it in either
/// cycle, and every other node to the one after it in its own cycle.
pub open spec fn share_first_node(g: Adjacency, c: Seq<Kmer>, d: Seq<Kmer>) -> bool {
    &&& c.len() >= 1
    &&& d.len() >= 1
    &&& c.no_duplicates()
    &&& d.no_duplicates()
    &&& c[0] == d[0]
    &&& forall|i: int, j: int|
        0 <= i < c.len() && 0 <= j < d.len() && c[i] == d[j] ==> i == 0 && j == 0
    &&& c[after(0, c.len() as int)] != d[after(0, d.len() as int)]
    &&& forall|u: Kmer| #[trigger] g.dom().contains(u) <==> c.contains(u) || d.contains(u)
    &&& g[c[0]] == set![c[after(0, c.len() as int)], d[after(0, d.len() as int)]]
    &&& forall|i: int| 1 <= i < c.len() ==> g[#[trigger] c[i]] == set![c[after(i, c.len() as int)]]
    &&& forall|i: int| 1 <= i < d.len() ==> g[#[trigger] d[i]] == set![d[after(i, d.len() as int)]]
}

/// What extraction yields where the walk takes the cycle `taken` at the
/// common node. First comes the superstring of `taken`, read from its least
/// node. Then comes that of `other`, read from the least of its nodes that
/// come after the least node of `taken`; where `other` has no such node, it
/// is not read at all: every walk from one of its nodes has run into `taken`.
pub open spec fn yields_taken_first(g: Adjacency, taken: Seq<Kmer>, other: Seq<Kmer>) -> bool {
    let at = taken[least_index(taken)];
    let first = superstring(turned(taken, least_index(taken)));
    &&& (forall|i: int| 0 <= i < other.len() ==> !lex_lt(at, #[trigger] other[i]))
        ==> extraction(g).superstrings == seq![first]
    &&& forall|j: int| #[trigger]
        is_least_after(other, at, j) ==> extraction(g).superstrings == seq![
            first,
            superstring(turned(other, j)),
        ]
}

/// Every node of the two cycles has a successor.
proof fn lemma_shared_live(g: Adjacency, c: Seq<Kmer>, d: Seq<Kmer>)
    requires
        share_first_node(g, c, d),
    ensures
        forall|i: int| 0 <= i < c.len() ==> is_live(g, #[trigger] c[i]),
        forall|i: int| 0 <= i < d.len() ==> is_live(g, #[trigger] d[i]),
{
    let x = c[0];
    assert(c.contains(x));
    assert(g[x].contains(c[after(0, c.len() as int)]));
    assert(is_live(g, x));
    assert forall|i: int| 0 <= i < c.len() implies is_live(g, #[trigger] c[i]) by {
        assert(c.contains(c[i]));
        if i >= 1 {
            assert(g[c[i]].contains(c[after(i, c.len() as int)]));
        }
    }
    assert forall|i: int| 0 <= i < d.len() implies is_live(g, #[trigger] d[i]) by {
        assert(d.contains(d[i]));
        if i >= 1 {
            assert(g[d[i]].contains(d[after(i, d.len() as int)]));
        }
    }
}

/// Where the successor of the common node in `c` precedes the one in `d`,
/// the walk takes `d` there; everywhere else it has one way to go.
proof fn lemma_shared_walks(g: Adjacency, c: Seq<Kmer>, d: Seq<Kmer>)
    requires
        share_first_node(g, c, d),
        lex_lt(c[after(0, c.len() as int)], d[after(0, d.len() as int)]),
    ensures
        is_walked_cycle(g, d),
        forall|i: int|
            1 <= i < c.len() ==> is_next(g, #[trigger] c[i], c[after(i, c.len() as int)]),
{
    lemma_shared_live(g, c, d);
    let nc = c.len() as int;
    let nd = d.len() as int;
    assert forall|i: int| 0 <= i < d.len() implies is_next(
        g,
        #[trigger] d[i],
        d[after(i, nd)],
    ) by {
        let u = d[i];
        let v = d[after(i, nd)];
        assert(d.contains(u));
        assert(is_live(g, v));
        if i >= 1 {
            assert(g[u] == set![v]);
            assert(g[u].contains(v));
        } else {
            assert(g[u].contains(v));
        }
    }
    assert forall|i: int| 1 <= i < c.len() implies is_next(
        g,
        #[trigger] c[i],
        c[after(i, nc)],
    ) by {
        let u = c[i];
        let v = c[after(i, nc)];
        assert(c.contains(u));
        assert(is_live(g, v));
        assert(g[u] == set![v]);
        assert(g[u].contains(v));
    }
}

/// Before `d` is pruned, no walk from a node of `c` other than the common
/// one closes: it goes on into `d` and comes back to the common node.
proof fn lemma_shared_rho(g: Adjacency, c: Seq<Kmer>, d: Seq<Kmer>, t: int)
    requires
        share_first_node(g, c, d),
        lex_lt(c[after(0, c.len() as int)], d[after(0, d.len() as int)]),
        1 <= t < c.len(),
    ensures
        !closes(g, c[t]),
{
    lemma_shared_walks(g, c, d);
    let nc = c.len() as int;
    let nd = d.len() as int;
    let a = nc - t;
    let round_d = turned(d, 0);
    let path = c.subrange(t, nc) + round_d;
    assert forall|s: int| 0 <= s < path.len() - 1 implies is_next(
        g,
        #[trigger] path[s],
        path[s + 1],
    ) by {
        if s < a - 1 {
            assert(path[s] == c[t + s]);
            assert(path[s + 1] == c[t + s + 1]);
            assert(is_next(g, c[t + s], c[after(t + s, nc)]));
        } else if s == a - 1 {
            assert(path[s] == c[nc - 1]);
            assert(path[s + 1] == round_d[0]);
            assert(round_d[0] == d[0]);
            assert(is_next(g, c[nc - 1], c[after(nc - 1, nc)]));
        } else {
            let b = s - a;
            assert(path[s] == round_d[b]);
            assert(path[s + 1] == round_d[b + 1]);
            assert(round(0, b + 1, nd) == after(round(0, b, nd), nd));
            assert(is_next(g, d[round(0, b, nd)], d[after(round(0, b, nd), nd)]));
        }
    }
    assert(path[0] == c[t]);
    assert(path[a] == round_d[0]);
    assert(path.last() == round_d[nd]);
    assert forall|s: int| 1 <= s < path.len() implies #[trigger] path[s] != path[0] by {
        if s < a {
            assert(path[s] == c[t + s]);
        } else {
            assert(path[s] == round_d[s - a]);
            assert(path[s] == d[round(0, s - a, nd)]);
        }
    }
    lemma_rho_walk(g, path, a);
}

/// Once the edges of `d` are removed, `c` is a simple cycle, and the nodes
/// of `d` other than the common one have no successor.
proof fn lemma_shared_unlinked(g: Adjacency, c: Seq<Kmer>, d: Seq<Kmer>)
    requires
        share_first_node(g, c, d),
    ensures
        is_simple_cycle(unlinked(g, d), c),
        forall|i: int| 1 <= i < d.len() ==> unlinked(g, d)[#[trigger] d[i]] == Set::<Kmer>::empty(),
        forall|u: Kmer| unlinked(g, d).dom().contains(u) <==> g.dom().contains(u),
{
    let h = unlinked(g, d);
    let nc = c.len() as int;
    let nd = d.len() as int;
    assert forall|i: int| 0 <= i < c.len() implies h.dom().contains(#[trigger] c[i]) && h[c[i]]
        == set![c[after(i, nc)]] by {
        assert(c.contains(c[i]));
        if i == 0 {
            assert(d.contains(d[0]));
            assert(d.index_of(c[0]) == 0);
            assert(h[c[0]] =~= set![c[after(0, nc)]]);
        } else {
            if d.contains(c[i]) {
                let j = d.index_of(c[i]);
                assert(d[j] == c[i]);
            }
        }
    }
    assert forall|i: int| 1 <= i < d.len() implies h[#[trigger] d[i]] == Set::<Kmer>::empty() by {
        assert(d.contains(d[i]));
        assert(d.index_of(d[i]) == i);
        assert(g[d[i]] == set![d[after(i, nd)]]);
        assert(h[d[i]] =~= Set::<Kmer>::empty());
    }
}

/// Up to the least node of `d` nothing is found; there the walk closes
/// round `d`. Returns the place of that node among the focal nodes.
proof fn lemma_shared_first_stage(g: Adjacency, c: Seq<Kmer>, d: Seq<Kmer>) -> (pm: int)
    requires
        share_first_node(g, c, d),
        lex_lt(c[after(0, c.len() as int)], d[after(0, d.len() as int)]),
    ensures
        enumerates(sorted_nodes(g), g.dom()),
        is_least_at(d, least_index(d)),
        0 <= pm < sorted_nodes(g).len(),
        sorted_nodes(g)[pm] == d[least_index(d)],
        extract_over(g, sorted_nodes(g).take(pm + 1)) == (Extraction {
            superstrings: seq![superstring(turned(d, least_index(d)))],
            graph: unlinked(g, d),
        }),
{
    assert forall|i: int| 0 <= i < c.len() implies g.dom().contains(#[trigger] c[i]) by {
        assert(c.contains(c[i]));
    }
    assert forall|i: int| 0 <= i < d.len() implies g.dom().contains(#[trigger] d[i]) by {
        assert(d.contains(d[i]));
    }
    lemma_sorted_nodes_of_two(g, c, d);
    lemma_least_exists(d);
    let focals = sorted_nodes(g);
    let jd = least_index(d);
    let m = d[jd];
    assert(d.contains(m));
    assert(focals.contains(m));
    let pm = focals.index_of(m);
    assert(focals[pm] == m);
    assert forall|i: int| 0 <= i < pm implies !closes(g, #[trigger] focals[i]) by {
        assert(focals.contains(focals[i]));
        lemma_before_least(focals, d, pm, i);
        let t = c.index_of(focals[i]);
        assert(c[t] == focals[i]);
        if t == 0 {
            assert(d.contains(d[0]));
        }
        lemma_shared_rho(g, c, d, t);
    }
    let start = Extraction { superstrings: Seq::empty(), graph: g };
    assert(focals.take(0) =~= Seq::<Kmer>::empty());
    assert(extract_over(g, focals.take(0)) == start);
    lemma_shared_walks(g, c, d);
    lemma_cycle_stage(g, focals, 0, pm, d, jd);
    assert(extract_over(g, focals.take(pm + 1)).superstrings =~= seq![
        superstring(turned(d, jd)),
    ]);
    pm
}

/// A focal node after the least node of `d` that is no node of `c` yields
/// nothing once `d` is pruned, and nothing once `c` is cleared as well.
proof fn lemma_shared_spent(g: Adjacency, c: Seq<Kmer>, d: Seq<Kmer>, u: Kmer)
    requires
        share_first_node(g, c, d),
        g.dom().contains(u),
        !c.contains(u),
    ensures
        !closes(unlinked(g, d), u),
        !closes(cleared(unlinked(g, d), c), u),
{
    lemma_shared_unlinked(g, c, d);
    assert(d.contains(u));
    let i = d.index_of(u);
    assert(d[i] == u);
    if i == 0 {
        assert(c.contains(c[0]));
    }
    lemma_no_successor_idle(unlinked(g, d), u);
    lemma_no_successor_idle(cleared(unlinked(g, d), c), u);
}

/// Where no node of `c` comes after the least node of `d`, the superstring
/// of `d` is all that is found.
proof fn lemma_shared_rest_none(g: Adjacency, c: Seq<Kmer>, d: Seq<Kmer>, pm: int)
    requires
        share_first_node(g, c, d),
        enumerates(sorted_nodes(g), g.dom()),
        0 <= pm < sorted_nodes(g).len(),
        sorted_nodes(g)[pm] == d[least_index(d)],
        extract_over(g, sorted_nodes(g).take(pm + 1)) == (Extraction {
            superstrings: seq![superstring(turned(d, least_index(d)))],
            graph: unlinked(g, d),
        }),
        forall|i: int| 0 <= i < c.len() ==> !lex_lt(d[least_index(d)], #[trigger] c[i]),
    ensures
        extraction(g).superstrings == seq![superstring(turned(d, least_index(d)))],
{
    let focals = sorted_nodes(g);
    let g1 = unlinked(g, d);
    assert forall|i: int| pm + 1 <= i < focals.len() implies !closes(g1, #[trigger] focals[i]) by {
        assert(focals.contains(focals[i]));
        assert(lex_lt(focals[pm], focals[i]));
        if c.contains(focals[i]) {
            let t = c.index_of(focals[i]);
            assert(c[t] == focals[i]);
        }
        lemma_shared_spent(g, c, d, focals[i]);
    }
    lemma_idle_focals(g, focals, pm + 1, focals.len() as int);
    assert(focals.take(focals.len() as int) =~= focals);
}

/// Where `c[j]` is the least node of `c` after the least node of `d`, the
/// superstring of `c` read from there is found second.
proof fn lemma_shared_rest_some(g: Adjacency, c: Seq<Kmer>, d: Seq<Kmer>, pm: int, j: int)
    requires
        share_first_node(g, c, d),
        enumerates(sorted_nodes(g), g.dom()),
        0 <= pm < sorted_nodes(g).len(),
        sorted_nodes(g)[pm] == d[least_index(d)],
        extract_over(g, sorted_nodes(g).take(pm + 1)) == (Extraction {
            superstrings: seq![superstring(turned(d, least_index(d)))],
            graph: unlinked(g, d),
        }),
        is_least_after(c, d[least_index(d)], j),
    ensures
        extraction(g).superstrings == seq![
            superstring(turned(d, least_index(d))),
            superstring(turned(c, j)),
        ],
{
    let focals = sorted_nodes(g);
    let g1 = unlinked(g, d);
    let m = d[least_index(d)];
    let r = c[j];
    assert(c.contains(r));
    assert(focals.contains(r));
    let pr = focals.index_of(r);
    assert(focals[pr] == r);
    assert(pr > pm) by {
        if pr < pm {
            assert(lex_lt(focals[pr], focals[pm]));
            lemma_lex_asymmetric(r, m);
        }
        lemma_lex_irreflexive(m);
    }
    assert forall|i: int| pm + 1 <= i < pr implies !closes(g1, #[trigger] focals[i]) by {
        assert(focals.contains(focals[i]));
        assert(lex_lt(focals[pm], focals[i]));
        assert(lex_lt(focals[i], focals[pr]));
        if c.contains(focals[i]) {
            let t = c.index_of(focals[i]);
            assert(c[t] == focals[i]);
            lemma_lex_irreflexive(r);
            lemma_lex_asymmetric(focals[i], r);
        }
        lemma_shared_spent(g, c, d, focals[i]);
    }
    lemma_shared_unlinked(g, c, d);
    lemma_simple_cycle_stage(g, focals, pm + 1, pr, c, j);
    let g2 = cleared(g1, c);
    assert forall|i: int| pr + 1 <= i < focals.len() implies !closes(g2, #[trigger] focals[i]) by {
        assert(focals.contains(focals[i]));
        if c.contains(focals[i]) {
            lemma_no_successor_idle(g2, focals[i]);
        } else {
            lemma_shared_spent(g, c, d, focals[i]);
        }
    }
    lemma_idle_focals(g, focals, pr + 1, focals.len() as int);
    assert(focals.take(focals.len() as int) =~= focals);
    assert(extraction(g).superstrings =~= seq![
        superstring(turned(d, least_index(d))),
        superstring(turned(c, j)),
    ]);
}

/// Where the successor of the common node in `c` precedes the one in `d`,
/// the walk takes `d` at the common node.
proof fn lemma_shared_taken(g: Adjacency, c: Seq<Kmer>, d: Seq<Kmer>)
    requires
        share_first_node(g, c, d),
        lex_lt(c[after(0, c.len() as int)], d[after(0, d.len() as int)]),
    ensures
        yields_taken_first(g, d, c),
{
    let pm = lemma_shared_first_stage(g, c, d);
    let at = d[least_index(d)];
    if forall|i: int| 0 <= i < c.len() ==> !lex_lt(at, #[trigger] c[i]) {
        lemma_shared_rest_none(g, c, d, pm);
    }
    assert forall|j: int| #[trigger] is_least_after(c, at, j) implies extraction(g).superstrings
        == seq![superstring(turned(d, least_index(d))), superstring(turned(c, j))] by {
        lemma_shared_rest_some(g, c, d, pm, j);
    }
}

/// Two cycles may be named in either order.
proof fn lemma_share_commutes(g: Adjacency, c: Seq<Kmer>, d: Seq<Kmer>)
    requires
        share_first_node(g, c, d),
    ensures
        share_first_node(g, d, c),
{
    let a = c[after(0, c.len() as int)];
    let b = d[after(0, d.len() as int)];
    assert(set![a, b] =~= set![b, a]);
}

/// A graph of two cycles with one node in common. At the common node the
/// walk takes the cycle whose next node is the greater. That cycle is found
/// first, read from its least node. The other is found second, read from the
/// least of its nodes that come after that node, if it has one; if it has
/// none, it is not found.
pub proof fn lemma_two_cycles_sharing_a_node(g: Adjacency, c: Seq<Kmer>, d: Seq<Kmer>)
    requires
        share_first_node(g, c, d),
    ensures
        lex_lt(c[after(0, c.len() as int)], d[after(0, d.len() as int)]) ==> yields_taken_first(
            g,
            d,
            c,
        ),
        lex_lt(d[after(0, d.len() as int)], c[after(0, c.len() as int)]) ==> yields_taken_first(
            g,
            c,
            d,
        ),
        lex_lt(c[after(0, c.len() as int)], d[after(0, d.len() as int)]) || lex_lt(
            d[after(0, d.len() as int)],
            c[after(0, c.len() as int)],
        ),
{
    lemma_lex_total(c[after(0, c.len() as int)], d[after(0, d.len() as int)]);
    if lex_lt(c[after(0, c.len() as int)], d[after(0, d.len() as int)]) {
        lemma_shared_taken(g, c, d);
    }
    if lex_lt(d[after(0, d.len() as int)], c[after(0, c.len() as int)]) {
        lemma_share_commutes(g, c, d);
        lemma_shared_taken(g, d, c);
    }
}

} // verus!
