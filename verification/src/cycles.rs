//! Finding the closed walks of the graph and reading them as superstrings.

use crate::graph::Graph;
use crate::model::{
    closes, closes_at, cycle_len, cycle_path, extract_over, extraction, has_edge, is_live, is_next,
    next_node, on_path, pruned, superstring, walk, without_edge, Adjacency, Extraction, Kmer,
};
use crate::order::{lemma_ascending_distinct, lex_lt};
use crate::walks::{
    lemma_closes_at_unique, lemma_next_node, lemma_rho_never_closes, lemma_walk_going_before,
    lemma_walk_in_graph, lemma_walk_stays_stopped,
};
use vstd::prelude::*;
use vstd::string::*;

verus! {

/// Distinct indices below `n` are at most `n` in number.
proof fn lemma_distinct_bounded(path: Seq<usize>, n: nat)
    requires
        path.no_duplicates(),
        forall|t: int| 0 <= t < path.len() ==> #[trigger] path[t] < n,
    ensures
        path.len() <= n,
{
    let as_ints = path.map_values(|x: usize| x as int);
    assert(as_ints.no_duplicates());
    as_ints.unique_seq_to_set();
    vstd::set_lib::lemma_int_range(0, n as int);
    assert(as_ints.to_set().subset_of(vstd::set_lib::set_int_range(0, n as int))) by {
        assert forall|x: int| as_ints.to_set().contains(x) implies vstd::set_lib::set_int_range(
            0,
            n as int,
        ).contains(x) by {
            let t = as_ints.index_of(x);
            assert(as_ints[t] == x);
            assert(path[t] < n);
        }
    }
    vstd::set_lib::lemma_len_subset(as_ints.to_set(), vstd::set_lib::set_int_range(0, n as int));
}

/// A path of fewer than two nodes has no edge to prune.
pub proof fn lemma_pruned_short(g: Adjacency, path: Seq<Kmer>)
    requires
        path.len() <= 1,
    ensures
        pruned(g, path) == g,
{
    let h = pruned(g, path);
    assert forall|u: Kmer| h.dom().contains(u) implies #[trigger] h[u] =~= g[u] by {}
    assert(h =~= g);
}

/// Pruning a path one node longer removes one more edge: the one that leads
/// to the added node.
pub proof fn lemma_pruned_step(g: Adjacency, path: Seq<Kmer>, i: int)
    requires
        0 <= i < path.len() - 1,
    ensures
        g.dom().contains(path[i]) ==> pruned(g, path.take(i + 2)) == without_edge(
            pruned(g, path.take(i + 1)),
            path[i],
            path[i + 1],
        ),
        !g.dom().contains(path[i]) ==> pruned(g, path.take(i + 2)) == pruned(
            g,
            path.take(i + 1),
        ),
{
    let shorter = path.take(i + 1);
    let longer = path.take(i + 2);
    let h0 = pruned(g, shorter);
    let h1 = pruned(g, longer);
    assert forall|u: Kmer, v: Kmer|
        on_path(longer, u, v) <==> (on_path(shorter, u, v) || (u == path[i] && v == path[i
            + 1])) by {
        if on_path(longer, u, v) {
            let a = choose|a: int|
                0 <= a < longer.len() - 1 && #[trigger] longer[a] == u && longer[a + 1] == v;
            if a < i {
                assert(shorter[a] == u && shorter[a + 1] == v);
            }
        }
        if on_path(shorter, u, v) {
            let a = choose|a: int|
                0 <= a < shorter.len() - 1 && #[trigger] shorter[a] == u && shorter[a + 1] == v;
            assert(longer[a] == u && longer[a + 1] == v);
        }
        if u == path[i] && v == path[i + 1] {
            assert(longer[i] == u && longer[i + 1] == v);
        }
    }
    if g.dom().contains(path[i]) {
        let target = without_edge(h0, path[i], path[i + 1]);
        assert forall|u: Kmer| h1.dom().contains(u) implies #[trigger] h1[u] =~= target[u] by {
            assert forall|v: Kmer| h1[u].contains(v) <==> target[u].contains(v) by {
                assert(on_path(longer, u, v) <==> (on_path(shorter, u, v) || (u == path[i] && v
                    == path[i + 1])));
            }
        }
        assert(h1 =~= target);
    } else {
        assert forall|u: Kmer| h1.dom().contains(u) implies #[trigger] h1[u] =~= h0[u] by {
            assert forall|v: Kmer| h1[u].contains(v) <==> h0[u].contains(v) by {
                assert(on_path(longer, u, v) <==> (on_path(shorter, u, v) || (u == path[i] && v
                    == path[i + 1])));
            }
        }
        assert(h1 =~= h0);
    }
}

/// The superstring of a closed walk: its first node in full, then the last
/// character of each node strictly between the first and the last.
pub fn extract_cycle(node_stack: &Vec<String>) -> (result: String)
    requires
        node_stack.len() >= 1,
        forall|i: int| 0 < i < node_stack.len() - 1 ==> (#[trigger] node_stack[i])@.len() >= 1,
    ensures
        result@ == superstring(node_stack.deep_view()),
{
    let ghost path = node_stack.deep_view();
    let mut result = node_stack[0].clone();
    let num_elems = node_stack.len();
    let mut i: usize = 1;
    while i < num_elems - 1
        invariant
            num_elems == node_stack.len(),
            num_elems >= 1,
            path == node_stack.deep_view(),
            1 <= i,
            num_elems >= 2 ==> i <= num_elems - 1,
            num_elems < 2 ==> i == 1,
            forall|i: int| 0 < i < node_stack.len() - 1 ==> (#[trigger] node_stack[i])@.len() >= 1,
            result@ == path[0] + Seq::new((i - 1) as nat, |a: int| path[a + 1].last()),
        decreases num_elems - i,
    {
        let elem = node_stack[i].as_str();
        let size = elem.unicode_len();
        assert(elem@ == path[i as int]);
        let ghost before = result@;
        result.append(elem.substring_char(size - 1, size));
        proof {
            assert(elem@.subrange(size - 1, size as int) =~= seq![elem@.last()]);
            assert(result@ =~= path[0] + Seq::new(i as nat, |a: int| path[a + 1].last()));
        }
        i += 1;
    }
    assert(result@ =~= superstring(path));
    result
}

impl Graph {
    /// Removes the edge between each node of `node_stack` and the one that
    /// follows it there. All nodes stay.
    pub fn prune(&mut self, node_stack: &Vec<String>)
        requires
            old(self).wf(),
        ensures
            final(self).wf(),
            final(self).kmer_len() == old(self).kmer_len(),
            final(self)@ == pruned(old(self)@, node_stack.deep_view()),
    {
        let ghost g0 = self@;
        let ghost path = node_stack.deep_view();
        if node_stack.len() == 0 {
            proof {
                lemma_pruned_short(g0, path);
            }
            return ;
        }
        proof {
            lemma_pruned_short(g0, path.take(1));
        }
        let mut i: usize = 0;
        while i < node_stack.len() - 1
            invariant
                node_stack.len() >= 1,
                0 <= i <= node_stack.len() - 1,
                path == node_stack.deep_view(),
                self.wf(),
                self.kmer_len() == old(self).kmer_len(),
                self@ == pruned(g0, path.take(i + 1)),
            decreases node_stack.len() - i,
        {
            let source = node_stack[i].as_str();
            let target = node_stack[i + 1].as_str();
            proof {
                assert(source@ == path[i as int]);
                assert(target@ == path[i + 1]);
                lemma_pruned_step(g0, path, i as int);
            }
            match self.index_of(source) {
                Some(at) => {
                    self.remove_arc(at, target);
                },
                None => {},
            }
            i += 1;
        }
        assert(path.take(node_stack.len() as int) =~= path);
    }

    /// Takes every node of the graph in ascending order as a focal node.
    /// Where the walk from the focal node closes, the superstring of the
    /// closed walk is recorded and the edges of the walk are removed from the
    /// graph, so that no later walk uses them. Returns the superstrings in the
    /// order of their focal nodes.
    pub fn get_cyclic_superstrings(&mut self) -> (result: Vec<String>)
        requires
            old(self).wf(),
        ensures
            final(self).wf(),
            final(self).kmer_len() == old(self).kmer_len(),
            result.deep_view() == extraction(old(self)@).superstrings,
            final(self)@ == extraction(old(self)@).graph,
    {
        let ghost g0 = self@;
        let all_nodes = self.nodes();
        let ghost focals = all_nodes.deep_view();
        let mut result: Vec<String> = Vec::new();
        let mut idx: usize = 0;
        assert(focals.take(0) =~= Seq::<Kmer>::empty());
        assert(result.deep_view() =~= Seq::<Seq<char>>::empty());
        while idx < all_nodes.len()
            invariant
                0 <= idx <= all_nodes.len(),
                focals == all_nodes.deep_view(),
                self.wf(),
                self.kmer_len() == old(self).kmer_len(),
                extract_over(g0, focals.take(idx as int)) == (Extraction {
                    superstrings: result.deep_view(),
                    graph: self@,
                }),
            decreases all_nodes.len() - idx,
        {
            let focal = all_nodes[idx].as_str();
            let ghost g = self@;
            let ghost found = result.deep_view();
            proof {
                assert(focal@ == focals[idx as int]);
                assert(focals.take(idx + 1).drop_last() =~= focals.take(idx as int));
                assert(focals.take(idx + 1).last() == focal@);
                self.lemma_valid();
            }
            match self.closed_walk(focal) {
                Some(cycle_stack) => {
                    proof {
                        let path = cycle_stack.deep_view();
                        let n = cycle_len(g, focal@);
                        assert(closes_at(g, focal@, n));
                        assert(path.len() == n + 1);
                        assert forall|i: int| 0 < i < cycle_stack.len() - 1 implies (
                        #[trigger] cycle_stack[i])@.len() >= 1 by {
                            assert(path[i] == cycle_stack[i]@);
                            lemma_walk_going_before(g, focal@, i as nat, n);
                            lemma_walk_in_graph(g, self.kmer_len(), focal@, i as nat);
                        }
                    }
                    let cyclic_superstring = extract_cycle(&cycle_stack);
                    result.push(cyclic_superstring);
                    self.prune(&cycle_stack);
                    proof {
                        assert(result.deep_view() =~= found.push(superstring(cycle_path(g, focal@))));
                    }
                },
                None => {},
            }
            idx += 1;
        }
        proof {
            assert(focals.take(all_nodes.len() as int) =~= focals);
        }
        result
    }

    /// The index of the node that a walk takes from the node at index `i`.
    pub(crate) fn next_index(&self, i: usize) -> (r: Option<usize>)
        requires
            self.wf(),
            i < self.labels.len(),
        ensures
            match r {
                Some(j) => j < self.labels.len() && next_node(
                    self@,
                    self.labels.deep_view()[i as int],
                ) == Some(self.labels.deep_view()[j as int]),
                None => next_node(self@, self.labels.deep_view()[i as int]) is None,
            },
    {
        let ghost g = self@;
        let ghost labels = self.labels.deep_view();
        let ghost edges = self.edges.deep_view();
        let ghost u = labels[i as int];
        let ghost row = edges[i as int];
        proof {
            self.lemma_view_at(i as int);
        }
        let mut j: usize = self.edges[i].len();
        while j > 0
            invariant
                self.wf(),
                i < self.labels.len(),
                g == self@,
                labels == self.labels.deep_view(),
                edges == self.edges.deep_view(),
                u == labels[i as int],
                row == edges[i as int],
                g.dom().contains(u),
                g[u] == row.to_set(),
                0 <= j <= row.len(),
                row.len() == self.edges[i as int].len(),
                forall|b: int| j <= b < row.len() ==> !is_live(g, #[trigger] row[b]),
            decreases j,
        {
            j -= 1;
            let candidate = self.edges[i][j].as_str();
            assert(candidate@ == row[j as int]);
            match self.index_of(candidate) {
                Some(t) => {
                    proof {
                        self.lemma_view_at(t as int);
                    }
                    if self.edges[t].len() > 0 {
                        proof {
                            let v = labels[t as int];
                            assert(edges[t as int].len() > 0);
                            assert(edges[t as int].to_set().contains(edges[t as int][0]));
                            assert(g[v].contains(edges[t as int][0]));
                            assert(is_live(g, v));
                            assert(row.to_set().contains(row[j as int]));
                            assert(has_edge(g, u, v));
                            assert forall|x: Kmer| #[trigger]
                                g[u].contains(x) && is_live(g, x) implies x == v || lex_lt(
                                x,
                                v,
                            ) by {
                                let b = row.index_of(x);
                                assert(row[b] == x);
                                if b < j {
                                    assert(lex_lt(row[b], row[j as int]));
                                }
                            }
                            lemma_next_node(g, u, v);
                        }
                        return Some(t);
                    }
                    proof {
                        assert(edges[t as int].len() == 0);
                        assert(edges[t as int].to_set() =~= Set::<Kmer>::empty());
                        assert(!is_live(g, row[j as int]));
                    }
                },
                None => {
                    assert(!is_live(g, row[j as int]));
                },
            }
        }
        proof {
            assert forall|v: Kmer| !is_next(g, u, v) by {
                if is_next(g, u, v) {
                    let b = row.index_of(v);
                    assert(row[b] == v);
                }
            }
        }
        None
    }

    /// The closed walk that starts at `focal`: from each node the walk goes on
    /// to the greatest successor that has a successor itself, and it closes
    /// when it is back at `focal`. The result holds `focal` at both ends.
    /// There is none where the walk ends at a node without such a successor,
    /// or runs into a node it has passed other than `focal`.
    pub fn closed_walk(&self, focal: &str) -> (r: Option<Vec<String>>)
        requires
            self.wf(),
        ensures
            r is Some <==> closes(self@, focal@),
            r matches Some(path) ==> path.deep_view() == cycle_path(self@, focal@),
    {
        let ghost g = self@;
        let ghost labels = self.labels.deep_view();
        let ghost f = focal@;
        let start = match self.index_of(focal) {
            Some(s) => s,
            None => {
                proof {
                    assert forall|v: Kmer| !is_next(g, f, v) by {}
                    assert(walk(g, f, 1) is None) by {
                        assert(walk(g, f, 0) == Some(f));
                        assert(next_node(g, f) is None);
                    }
                    assert forall|n: nat| !closes_at(g, f, n) by {
                        if n >= 1 {
                            lemma_walk_stays_stopped(g, f, 1, n);
                        }
                    }
                }
                return None;
            },
        };
        let n = self.labels.len();
        let mut visited: Vec<bool> = Vec::new();
        while visited.len() < n
            invariant
                n == self.labels.len(),
                visited.len() <= n,
                forall|j: int| 0 <= j < visited.len() ==> !visited[j],
            decreases n - visited.len(),
        {
            visited.push(false);
        }
        let mut path: Vec<usize> = Vec::new();
        let mut cur: usize = start;
        proof {
            lemma_ascending_distinct(labels);
        }
        loop
            invariant
                self.wf(),
                g == self@,
                labels == self.labels.deep_view(),
                labels.no_duplicates(),
                f == focal@,
                n == labels.len(),
                start < n,
                labels[start as int] == f,
                cur < n,
                visited.len() == n,
                forall|t: int| 0 <= t < path.len() ==> #[trigger] path[t] < n,
                forall|t: int|
                    0 <= t < path.len() ==> #[trigger] walk(g, f, t as nat) == Some(
                        labels[path[t] as int],
                    ),
                walk(g, f, path.len() as nat) == Some(labels[cur as int]),
                forall|j: int| 0 <= j < n ==> visited[j] == path@.contains(j as usize),
                path@.no_duplicates(),
                path.len() == 0 ==> cur == start,
                path.len() > 0 ==> path[0] == start,
                forall|i: nat| 1 <= i < path.len() ==> #[trigger] walk(g, f, i) != Some(f),
            decreases n - path.len(),
        {
            let ghost m = path.len() as nat;
            if visited[cur] {
                assert(path@.contains(cur));
                let ghost j = path@.index_of(cur);
                assert(path[j] == cur);
                if cur == start {
                    proof {
                        assert(closes_at(g, f, m));
                        assert forall|k: nat| closes_at(g, f, k) implies k == m by {
                            lemma_closes_at_unique(g, f, k, m);
                        }
                        assert(cycle_len(g, f) == m);
                    }
                    let mut out: Vec<String> = Vec::new();
                    let mut t: usize = 0;
                    while t < path.len()
                        invariant
                            0 <= t <= path.len(),
                            m == path.len(),
                            n == self.labels.len(),
                            labels == self.labels.deep_view(),
                            forall|t: int| 0 <= t < path.len() ==> #[trigger] path[t] < n,
                            forall|t: int|
                                0 <= t < path.len() ==> #[trigger] walk(g, f, t as nat) == Some(
                                    labels[path[t] as int],
                                ),
                            out.len() == t,
                            forall|a: int|
                                0 <= a < t ==> #[trigger] out.deep_view()[a] == walk(
                                    g,
                                    f,
                                    a as nat,
                                ).unwrap(),
                        decreases path.len() - t,
                    {
                        let ghost before = out.deep_view();
                        let label = self.labels[path[t]].clone();
                        assert(label@ == labels[path[t as int] as int]);
                        out.push(label);
                        proof {
                            assert(out.deep_view() =~= before.push(labels[path[t as int] as int]));
                            let at = t as int;
                            assert(walk(g, f, at as nat) == Some(labels[path[at] as int]));
                        }
                        t += 1;
                    }
                    let ghost before = out.deep_view();
                    let last = self.labels[start].clone();
                    out.push(last);
                    proof {
                        assert(out.deep_view() =~= before.push(f));
                        assert(out.deep_view() =~= cycle_path(g, f));
                    }
                    return Some(out);
                }
                proof {
                    assert(j >= 1);
                    assert(walk(g, f, j as nat) == Some(labels[path[j] as int]));
                    assert forall|i: nat| 1 <= i <= m implies #[trigger] walk(g, f, i) != Some(
                        f,
                    ) by {}
                    assert forall|k: nat| !closes_at(g, f, k) by {
                        if k >= 1 {
                            lemma_rho_never_closes(g, f, j as nat, m, k);
                        }
                    }
                }
                return None;
            }
            match self.next_index(cur) {
                None => {
                    proof {
                        assert(walk(g, f, m + 1) is None);
                        if m >= 1 {
                            assert(path@.contains(start));
                        }
                        assert forall|k: nat| !closes_at(g, f, k) by {
                            if k > m {
                                lemma_walk_stays_stopped(g, f, m + 1, k);
                            }
                        }
                    }
                    return None;
                },
                Some(next) => {
                    proof {
                        assert(!path@.contains(cur));
                        let longer = path@.push(cur);
                        assert(longer.no_duplicates());
                        assert forall|t: int| 0 <= t < longer.len() implies #[trigger] longer[t]
                            < n by {}
                        lemma_distinct_bounded(longer, n as nat);
                        if m >= 1 {
                            assert(path@.contains(start));
                            assert(cur != start);
                        }
                        assert(walk(g, f, m + 1) == Some(labels[next as int]));
                    }
                    let ghost old_path = path@;
                    let ghost old_visited = visited@;
                    visited[cur] = true;
                    path.push(cur);
                    proof {
                        assert forall|j: int| 0 <= j < n implies visited[j] == path@.contains(
                            j as usize,
                        ) by {
                            if j == cur {
                                assert(path@[m as int] == cur);
                            } else {
                                assert(visited[j] == old_visited[j]);
                                if old_path.contains(j as usize) {
                                    let t = old_path.index_of(j as usize);
                                    assert(path@[t] == j as usize);
                                }
                                if path@.contains(j as usize) {
                                    let t = path@.index_of(j as usize);
                                    assert(old_path[t] == j as usize);
                                }
                            }
                        }
                    }
                    cur = next;
                },
            }
        }
    }
}

} // verus!
