//! The de Bruijn graph as a mathematical object: a map from each k-mer to
//! the set of k-mers that follow it, and what building, walking and pruning
//! mean on that map.

use crate::dna::spec_revcomp;
use crate::order::{lex_lt, strictly_ascending};
use vstd::prelude::*;

verus! {

/// A node: a string of k characters.
pub type Kmer = Seq<char>;

/// A graph: each node with the set of its successors.
pub type Adjacency = Map<Seq<char>, Set<Seq<char>>>;

/// `u` without its first character reads as `v` without its last.
pub open spec fn overlaps(u: Kmer, v: Kmer) -> bool {
    u.len() == v.len() && u.len() >= 1 && u.skip(1) == v.take(v.len() - 1)
}

/// The graph holds the edge from `u` to `v`.
pub open spec fn has_edge(g: Adjacency, u: Kmer, v: Kmer) -> bool {
    g.dom().contains(u) && g[u].contains(v)
}

/// What holds of every graph over k-mers: finitely many nodes, all of length
/// `k`; every successor is itself a node and overlaps its predecessor.
pub open spec fn valid_graph(g: Adjacency, k: nat) -> bool {
    &&& k >= 1
    &&& g.dom().finite()
    &&& forall|u: Kmer| #[trigger] g.dom().contains(u) ==> u.len() == k && g[u].finite()
    &&& forall|u: Kmer, v: Kmer| #[trigger]
        has_edge(g, u, v) ==> g.dom().contains(v) && overlaps(u, v)
}

/// The graph with `u` as a node; a new node has no successors.
pub open spec fn with_node(g: Adjacency, u: Kmer) -> Adjacency {
    if g.dom().contains(u) {
        g
    } else {
        g.insert(u, Set::empty())
    }
}

/// The graph with the edge from the node `u` to `v`.
pub open spec fn with_edge(g: Adjacency, u: Kmer, v: Kmer) -> Adjacency {
    g.insert(u, g[u].insert(v))
}

/// The graph without the edge from the node `u` to `v`.
pub open spec fn without_edge(g: Adjacency, u: Kmer, v: Kmer) -> Adjacency {
    g.insert(u, g[u].remove(v))
}

/// All of `w` but its last character.
pub open spec fn left_kmer(w: Seq<char>) -> Kmer {
    w.take(w.len() - 1)
}

/// All of `w` but its first character.
pub open spec fn right_kmer(w: Seq<char>) -> Kmer {
    w.skip(1)
}

/// The graph with every window of `windows` added: both halves of each window
/// are nodes, and the left half leads to the right half.
pub open spec fn with_windows(g: Adjacency, windows: Set<Seq<char>>) -> Adjacency {
    Map::new(
        |u: Kmer|
            g.dom().contains(u) || exists|w: Seq<char>| #[trigger]
                windows.contains(w) && (u == left_kmer(w) || u == right_kmer(w)),
        |u: Kmer|
            Set::new(
                |v: Kmer|
                    has_edge(g, u, v) || exists|w: Seq<char>| #[trigger]
                        windows.contains(w) && u == left_kmer(w) && v == right_kmer(w),
            ),
    )
}

/// The graph with the one window `w` added.
pub open spec fn with_kplus1_mer(g: Adjacency, w: Seq<char>) -> Adjacency {
    with_windows(g, set![w])
}

/// `w` is the window of `size` characters at `offset` of the read at index
/// `read`, on the strand itself or on its reverse complement.
pub open spec fn is_window_at(
    reads: Seq<Seq<char>>,
    size: nat,
    read_len: nat,
    w: Seq<char>,
    read: int,
    offset: int,
) -> bool {
    &&& 0 <= read < reads.len()
    &&& 0 <= offset <= read_len - size
    &&& (w == reads[read].subrange(offset, offset + size) || w == spec_revcomp(
        reads[read],
    ).subrange(offset, offset + size))
}

/// The windows of `size` characters of all reads and of their reverse
/// complements, at every offset from 0 to `read_len - size`.
pub open spec fn read_windows(reads: Seq<Seq<char>>, size: nat, read_len: nat) -> Set<Seq<char>> {
    Set::new(
        |w: Seq<char>|
            exists|read: int, offset: int| is_window_at(reads, size, read_len, w, read, offset),
    )
}

/// The node has at least one outgoing edge.
pub open spec fn is_live(g: Adjacency, v: Kmer) -> bool {
    g.dom().contains(v) && exists|x: Kmer| #[trigger] g[v].contains(x)
}

/// `v` is the successor that a walk takes from `u`: the lexicographically
/// greatest among the successors of `u` that have an outgoing edge themselves.
pub open spec fn is_next(g: Adjacency, u: Kmer, v: Kmer) -> bool {
    &&& has_edge(g, u, v)
    &&& is_live(g, v)
    &&& forall|x: Kmer| #[trigger] g[u].contains(x) && is_live(g, x) ==> x == v || lex_lt(x, v)
}

/// The node that a walk takes from `u`, if there is one.
pub open spec fn next_node(g: Adjacency, u: Kmer) -> Option<Kmer> {
    if exists|v: Kmer| is_next(g, u, v) {
        Some(choose|v: Kmer| is_next(g, u, v))
    } else {
        None
    }
}

/// The node reached from `start` after `steps` steps, if the walk gets that far.
pub open spec fn walk(g: Adjacency, start: Kmer, steps: nat) -> Option<Kmer>
    decreases steps,
{
    if steps == 0 {
        Some(start)
    } else {
        match walk(g, start, (steps - 1) as nat) {
            Some(u) => next_node(g, u),
            None => None,
        }
    }
}

/// The walk from `start` is back at `start` after `n` steps, for the first time.
pub open spec fn closes_at(g: Adjacency, start: Kmer, n: nat) -> bool {
    &&& n >= 1
    &&& walk(g, start, n) == Some(start)
    &&& forall|i: nat| 0 < i < n ==> #[trigger] walk(g, start, i) != Some(start)
}

/// The walk from `start` comes back to `start`.
pub open spec fn closes(g: Adjacency, start: Kmer) -> bool {
    exists|n: nat| closes_at(g, start, n)
}

/// The number of steps after which the walk from `start` is back at `start`.
pub open spec fn cycle_len(g: Adjacency, start: Kmer) -> nat {
    choose|n: nat| closes_at(g, start, n)
}

/// The closed walk from `start` back to `start`: `start` stands at both ends.
pub open spec fn cycle_path(g: Adjacency, start: Kmer) -> Seq<Kmer> {
    Seq::new(cycle_len(g, start) + 1, |i: int| walk(g, start, i as nat).unwrap())
}

/// The superstring of a closed walk: its first node in full, then the last
/// character of every node strictly between the two ends.
pub open spec fn superstring(path: Seq<Kmer>) -> Seq<char> {
    path[0] + Seq::new(
        if path.len() >= 2 {
            (path.len() - 2) as nat
        } else {
            0
        },
        |i: int| path[i + 1].last(),
    )
}

/// `v` follows `u` directly somewhere on the path.
pub open spec fn on_path(path: Seq<Kmer>, u: Kmer, v: Kmer) -> bool {
    exists|i: int| 0 <= i < path.len() - 1 && #[trigger] path[i] == u && path[i + 1] == v
}

/// The graph without the edges along the path; the nodes all stay.
pub open spec fn pruned(g: Adjacency, path: Seq<Kmer>) -> Adjacency {
    Map::new(
        |u: Kmer| g.dom().contains(u),
        |u: Kmer| Set::new(|v: Kmer| g[u].contains(v) && !on_path(path, u, v)),
    )
}

/// The superstrings found so far and the graph as pruned so far.
pub struct Extraction {
    pub superstrings: Seq<Seq<char>>,
    pub graph: Adjacency,
}

/// One focal node: where the walk from it closes, the superstring of the
/// closed walk is recorded and its edges are pruned; otherwise nothing changes.
pub open spec fn extract_from(e: Extraction, focal: Kmer) -> Extraction {
    if closes(e.graph, focal) {
        let path = cycle_path(e.graph, focal);
        Extraction {
            superstrings: e.superstrings.push(superstring(path)),
            graph: pruned(e.graph, path),
        }
    } else {
        e
    }
}

/// The focal nodes taken one after another, each on the graph as the ones
/// before it left it.
pub open spec fn extract_over(g: Adjacency, focals: Seq<Kmer>) -> Extraction
    decreases focals.len(),
{
    if focals.len() == 0 {
        Extraction { superstrings: Seq::empty(), graph: g }
    } else {
        extract_from(extract_over(g, focals.drop_last()), focals.last())
    }
}

/// `list` holds exactly the elements of `nodes`, in ascending order.
pub open spec fn enumerates(list: Seq<Kmer>, nodes: Set<Kmer>) -> bool {
    strictly_ascending(list) && forall|u: Kmer| list.contains(u) <==> nodes.contains(u)
}

/// The elements of a finite set of nodes in ascending order.
pub open spec fn sorted_list(nodes: Set<Kmer>) -> Seq<Kmer> {
    choose|list: Seq<Kmer>| enumerates(list, nodes)
}

/// The nodes of the graph in ascending order.
pub open spec fn sorted_nodes(g: Adjacency) -> Seq<Kmer> {
    sorted_list(g.dom())
}

/// Extraction over all nodes of the graph, in ascending order.
pub open spec fn extraction(g: Adjacency) -> Extraction {
    extract_over(g, sorted_nodes(g))
}

} // verus!
