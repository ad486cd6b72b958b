//! The de Bruijn graph as it is stored: the nodes in ascending order, each
//! with the ascending list of its successors.

use crate::model::{
    enumerates, has_edge, overlaps, sorted_list, sorted_nodes, valid_graph, with_edge, with_node,
    without_edge, Adjacency, Kmer,
};
use crate::order::{lemma_ascending_distinct, lex_lt, search, strictly_ascending};
use crate::sorting::lemma_enumeration_unique;
use vstd::prelude::*;

verus! {

/// A directed graph over k-mers of one length, without parallel edges.
pub struct Graph {
    pub(crate) k: usize,
    pub(crate) labels: Vec<String>,
    pub(crate) edges: Vec<Vec<String>>,
}

impl View for Graph {
    type V = Adjacency;

    /// Each node with the set of its successors.
    open(crate) spec fn view(&self) -> Adjacency {
        Map::new(
            |u: Kmer| self.labels.deep_view().contains(u),
            |u: Kmer| self.edges.deep_view()[self.labels.deep_view().index_of(u)].to_set(),
        )
    }
}

impl Graph {
    /// The length of every node of this graph.
    pub open(crate) spec fn kmer_len(&self) -> nat {
        self.k as nat
    }

    /// The nodes stand in ascending order and all have the graph's length;
    /// each list of successors is ascending, and every successor is a node
    /// that overlaps its predecessor.
    pub open(crate) spec fn wf(&self) -> bool {
        let labels = self.labels.deep_view();
        let edges = self.edges.deep_view();
        &&& self.k >= 1
        &&& labels.len() == edges.len()
        &&& strictly_ascending(labels)
        &&& forall|i: int| 0 <= i < labels.len() ==> (#[trigger] labels[i]).len() == self.k
        &&& forall|i: int| 0 <= i < edges.len() ==> strictly_ascending(#[trigger] edges[i])
        &&& forall|i: int, j: int|
            0 <= i < edges.len() && 0 <= j < edges[i].len() ==> labels.contains(
                #[trigger] edges[i][j],
            ) && overlaps(labels[i], edges[i][j])
    }

    /// What the node at index `i` maps to.
    pub(crate) proof fn lemma_view_at(&self, i: int)
        requires
            self.wf(),
            0 <= i < self.labels.len(),
        ensures
            self@.dom().contains(self.labels.deep_view()[i]),
            self@[self.labels.deep_view()[i]] == self.edges.deep_view()[i].to_set(),
    {
        let labels = self.labels.deep_view();
        lemma_ascending_distinct(labels);
        assert(labels.contains(labels[i]));
        assert(labels.index_of(labels[i]) == i);
    }

    /// A well-formed graph is a valid graph over k-mers of its length.
    pub proof fn lemma_valid(&self)
        requires
            self.wf(),
        ensures
            valid_graph(self@, self.kmer_len()),
    {
        let labels = self.labels.deep_view();
        let edges = self.edges.deep_view();
        let g = self@;
        assert(g.dom() =~= labels.to_set());
        vstd::seq_lib::seq_to_set_is_finite(labels);
        assert forall|u: Kmer| #[trigger] g.dom().contains(u) implies u.len() == self.k
            && g[u].finite() by {
            let i = labels.index_of(u);
            self.lemma_view_at(i);
            vstd::seq_lib::seq_to_set_is_finite(edges[i]);
        }
        assert forall|u: Kmer, v: Kmer| #[trigger] has_edge(g, u, v) implies g.dom().contains(v)
            && overlaps(u, v) by {
            let i = labels.index_of(u);
            self.lemma_view_at(i);
            let j = edges[i].index_of(v);
            assert(edges[i][j] == v);
        }
    }

    /// The stored nodes are the nodes of the graph in ascending order.
    pub(crate) proof fn lemma_labels_sorted(&self)
        requires
            self.wf(),
        ensures
            enumerates(self.labels.deep_view(), self@.dom()),
            self.labels.deep_view() == sorted_nodes(self@),
    {
        let labels = self.labels.deep_view();
        assert(enumerates(labels, self@.dom()));
        lemma_enumeration_unique(labels, sorted_nodes(self@), self@.dom());
    }

    /// The stored successors of a node are its successors in ascending order.
    pub(crate) proof fn lemma_row_sorted(&self, i: int)
        requires
            self.wf(),
            0 <= i < self.labels.len(),
        ensures
            enumerates(self.edges.deep_view()[i], self@[self.labels.deep_view()[i]]),
            self.edges.deep_view()[i] == sorted_list(self@[self.labels.deep_view()[i]]),
    {
        let row = self.edges.deep_view()[i];
        let set = self@[self.labels.deep_view()[i]];
        self.lemma_view_at(i);
        assert(enumerates(row, set));
        lemma_enumeration_unique(row, sorted_list(set), set);
    }

    /// An empty graph over k-mers of length `k`.
    pub fn new(k: usize) -> (g: Graph)
        requires
            k >= 1,
        ensures
            g.wf(),
            g.kmer_len() == k,
            g@ == Map::<Kmer, Set<Kmer>>::empty(),
    {
        let g = Graph { k, labels: Vec::new(), edges: Vec::new() };
        assert(g@ =~= Map::<Kmer, Set<Kmer>>::empty());
        g
    }

    /// The length of every node of this graph.
    pub fn kmer_size(&self) -> (k: usize)
        ensures
            k == self.kmer_len(),
    {
        self.k
    }

    /// The number of nodes.
    pub fn node_count(&self) -> (n: usize)
        requires
            self.wf(),
        ensures
            n == self@.dom().len(),
    {
        proof {
            let labels = self.labels.deep_view();
            lemma_ascending_distinct(labels);
            labels.unique_seq_to_set();
            assert(self@.dom() =~= labels.to_set());
        }
        self.labels.len()
    }

    /// Whether `label` is a node of the graph.
    pub fn contains_node(&self, label: &str) -> (r: bool)
        requires
            self.wf(),
        ensures
            r == self@.dom().contains(label@),
    {
        self.index_of(label).is_some()
    }

    /// Whether the graph holds the edge from `from` to `to`.
    pub fn has_edge(&self, from: &str, to: &str) -> (r: bool)
        requires
            self.wf(),
        ensures
            r == has_edge(self@, from@, to@),
    {
        match self.index_of(from) {
            Some(i) => {
                proof {
                    self.lemma_view_at(i as int);
                }
                let ghost row = self.edges.deep_view()[i as int];
                assert(self.edges[i as int].deep_view() == row);
                match search(&self.edges[i], to) {
                    Ok(j) => {
                        assert(row[j as int] == to@);
                        assert(row.to_set().contains(row[j as int]));
                        true
                    },
                    Err(_) => false,
                }
            },
            None => false,
        }
    }

    /// The successors of the node `label`, in ascending order; `None` where
    /// `label` is no node of the graph.
    pub fn neighbours(&self, label: &str) -> (r: Option<Vec<String>>)
        requires
            self.wf(),
        ensures
            match r {
                Some(list) => self@.dom().contains(label@) && list.deep_view() == sorted_list(
                    self@[label@],
                ),
                None => !self@.dom().contains(label@),
            },
    {
        match self.index_of(label) {
            Some(i) => {
                proof {
                    self.lemma_view_at(i as int);
                }
                let ghost row = self.edges.deep_view()[i as int];
                assert(self.edges[i as int].deep_view() == row);
                let mut list: Vec<String> = Vec::new();
                let mut j: usize = 0;
                while j < self.edges[i].len()
                    invariant
                        i < self.edges.len(),
                        row == self.edges[i as int].deep_view(),
                        0 <= j <= row.len(),
                        list.deep_view() == row.take(j as int),
                    decreases row.len() - j,
                {
                    let ghost before = list.deep_view();
                    let successor = self.edges[i][j].clone();
                    list.push(successor);
                    assert(list.deep_view() =~= before.push(row[j as int]));
                    assert(list.deep_view() =~= row.take(j + 1));
                    j += 1;
                }
                proof {
                    assert(list.deep_view() =~= row);
                    self.lemma_row_sorted(i as int);
                }
                Some(list)
            },
            None => None,
        }
    }

    /// The nodes of the graph, in ascending order.
    pub fn nodes(&self) -> (list: Vec<String>)
        requires
            self.wf(),
        ensures
            list.deep_view() == sorted_nodes(self@),
    {
        let mut list: Vec<String> = Vec::new();
        let mut i: usize = 0;
        while i < self.labels.len()
            invariant
                0 <= i <= self.labels.len(),
                list.deep_view() == self.labels.deep_view().take(i as int),
            decreases self.labels.len() - i,
        {
            let ghost before = list.deep_view();
            let label = self.labels[i].clone();
            list.push(label);
            assert(list.deep_view() =~= before.push(self.labels.deep_view()[i as int]));
            assert(list.deep_view() =~= self.labels.deep_view().take(i + 1));
            i += 1;
        }
        proof {
            assert(list.deep_view() =~= self.labels.deep_view());
            self.lemma_labels_sorted();
        }
        list
    }

    /// The index of the node that reads `label`, if there is one.
    pub(crate) fn index_of(&self, label: &str) -> (r: Option<usize>)
        requires
            self.wf(),
        ensures
            match r {
                Some(i) => i < self.labels.len() && self.labels.deep_view()[i as int] == label@
                    && self@.dom().contains(label@),
                None => !self@.dom().contains(label@),
            },
    {
        match search(&self.labels, label) {
            Ok(i) => {
                assert(self.labels.deep_view().contains(self.labels.deep_view()[i as int]));
                Some(i)
            },
            Err(_) => None,
        }
    }

    /// Makes `label` a node, if it is none yet, and gives its index.
    pub(crate) fn ensure_node(&mut self, label: String) -> (idx: usize)
        requires
            old(self).wf(),
            label@.len() == old(self).kmer_len(),
        ensures
            final(self).wf(),
            final(self).kmer_len() == old(self).kmer_len(),
            final(self)@ == with_node(old(self)@, label@),
            idx < final(self).labels.len(),
            final(self).labels.deep_view()[idx as int] == label@,
    {
        let ghost before = *self;
        let ghost labels0 = self.labels.deep_view();
        let ghost edges0 = self.edges.deep_view();
        match search(&self.labels, label.as_str()) {
            Ok(i) => {
                assert(labels0.contains(labels0[i as int]));
                i
            },
            Err(i) => {
                let ghost text = label@;
                self.labels.insert(i, label);
                self.edges.insert(i, Vec::new());
                proof {
                    let labels1 = self.labels.deep_view();
                    let edges1 = self.edges.deep_view();
                    let p = i as int;
                    assert(labels1 =~= labels0.insert(p, text));
                    assert(edges1[p] =~= Seq::<Kmer>::empty());
                    assert(edges1 =~= edges0.insert(p, Seq::<Kmer>::empty()));
                    assert(strictly_ascending(labels1)) by {
                        assert forall|a: int, b: int| 0 <= a < b < labels1.len() implies lex_lt(
                            #[trigger] labels1[a],
                            #[trigger] labels1[b],
                        ) by {
                            let a0 = if a < p { a } else { a - 1 };
                            let b0 = if b < p { b } else { b - 1 };
                            if a != p && b != p {
                                assert(labels1[a] == labels0[a0]);
                                assert(labels1[b] == labels0[b0]);
                            } else if a == p {
                                assert(labels1[b] == labels0[b0]);
                            } else {
                                assert(labels1[a] == labels0[a0]);
                            }
                        }
                    }
                    assert forall|a: int| 0 <= a < labels1.len() implies (#[trigger] labels1[a]).len()
                        == self.k by {
                        if a != p {
                            let a0 = if a < p { a } else { a - 1 };
                            assert(labels1[a] == labels0[a0]);
                        }
                    }
                    assert forall|a: int| 0 <= a < edges1.len() implies strictly_ascending(
                        #[trigger] edges1[a],
                    ) by {
                        if a != p {
                            let a0 = if a < p { a } else { a - 1 };
                            assert(edges1[a] == edges0[a0]);
                        }
                    }
                    assert forall|a: int, b: int|
                        0 <= a < edges1.len() && 0 <= b < edges1[a].len() implies labels1.contains(
                        #[trigger] edges1[a][b],
                    ) && overlaps(labels1[a], edges1[a][b]) by {
                        let a0 = if a < p { a } else { a - 1 };
                        assert(edges1[a] == edges0[a0]);
                        assert(labels1[a] == labels0[a0]);
                        let x = edges0[a0][b];
                        assert(labels0.contains(x));
                        let t = labels0.index_of(x);
                        let t1 = if t < p { t } else { t + 1 };
                        assert(labels1[t1] == x);
                    }
                    assert(self.wf());
                    let g0 = before@;
                    let g1 = self@;
                    lemma_ascending_distinct(labels0);
                    lemma_ascending_distinct(labels1);
                    assert forall|u: Kmer| g1.dom().contains(u) <==> (g0.dom().contains(u) || u
                        == text) by {
                        if labels1.contains(u) {
                            let t = labels1.index_of(u);
                            if t != p {
                                let t0 = if t < p { t } else { t - 1 };
                                assert(labels0[t0] == u);
                            }
                        }
                        if labels0.contains(u) {
                            let t = labels0.index_of(u);
                            let t1 = if t < p { t } else { t + 1 };
                            assert(labels1[t1] == u);
                        }
                        if u == text {
                            assert(labels1[p] == u);
                        }
                    }
                    assert forall|u: Kmer| g1.dom().contains(u) implies #[trigger] g1[u]
                        == with_node(g0, text)[u] by {
                        let t = labels1.index_of(u);
                        assert(labels1[t] == u);
                        self.lemma_view_at(t);
                        if t == p {
                            assert(edges1[p].to_set() =~= Set::<Kmer>::empty());
                        } else {
                            let t0 = if t < p { t } else { t - 1 };
                            assert(labels0[t0] == u);
                            before.lemma_view_at(t0);
                            assert(edges1[t] == edges0[t0]);
                        }
                    }
                    assert(g1 =~= with_node(g0, text));
                }
                i
            },
        }
    }

    /// Two graphs with the same nodes whose successor lists differ at index
    /// `i` only map every other node to the same set.
    proof fn lemma_view_after_change(before: Graph, after: Graph, i: int)
        requires
            before.wf(),
            after.wf(),
            0 <= i < before.labels.len(),
            after.labels.deep_view() == before.labels.deep_view(),
            forall|a: int|
                0 <= a < before.edges.len() && a != i ==> #[trigger] after.edges.deep_view()[a]
                    == before.edges.deep_view()[a],
        ensures
            after@ == before@.insert(
                before.labels.deep_view()[i],
                after.edges.deep_view()[i].to_set(),
            ),
    {
        let labels = before.labels.deep_view();
        let g0 = before@;
        let g1 = after@;
        let target = g0.insert(labels[i], after.edges.deep_view()[i].to_set());
        lemma_ascending_distinct(labels);
        assert(labels.contains(labels[i]));
        assert forall|u: Kmer| g1.dom().contains(u) implies #[trigger] g1[u] == target[u] by {
            let t = labels.index_of(u);
            assert(labels[t] == u);
            after.lemma_view_at(t);
            before.lemma_view_at(t);
        }
        assert(g1 =~= target);
    }

    /// Adds the edge from the node at index `i` to the node `to`.
    pub(crate) fn insert_arc(&mut self, i: usize, to: String)
        requires
            old(self).wf(),
            i < old(self).labels.len(),
            old(self)@.dom().contains(to@),
            overlaps(old(self).labels.deep_view()[i as int], to@),
        ensures
            final(self).wf(),
            final(self).kmer_len() == old(self).kmer_len(),
            final(self).labels.deep_view() == old(self).labels.deep_view(),
            final(self)@ == with_edge(old(self)@, old(self).labels.deep_view()[i as int], to@),
    {
        let ghost before = *self;
        let ghost labels = self.labels.deep_view();
        let ghost edges0 = self.edges.deep_view();
        let ghost text = to@;
        let ghost row0 = edges0[i as int];
        proof {
            before.lemma_view_at(i as int);
        }
        assert(self.edges[i as int].deep_view() == row0);
        match search(&self.edges[i], to.as_str()) {
            Ok(j) => {
                proof {
                    assert(row0[j as int] == text);
                    assert(row0.to_set().insert(text) =~= row0.to_set());
                    assert(before@.insert(labels[i as int], row0.to_set()) =~= before@);
                }
            },
            Err(j) => {
                self.edges[i].insert(j, to);
                proof {
                    let edges1 = self.edges.deep_view();
                    let row1 = edges1[i as int];
                    let p = j as int;
                    assert(row1 =~= row0.insert(p, text));
                    assert forall|a: int| 0 <= a < edges1.len() && a != i implies #[trigger] edges1[a]
                        == edges0[a] by {
                        assert(edges1[a] =~= edges0[a]);
                    }
                    assert(strictly_ascending(row1)) by {
                        assert forall|a: int, b: int| 0 <= a < b < row1.len() implies lex_lt(
                            #[trigger] row1[a],
                            #[trigger] row1[b],
                        ) by {
                            let a0 = if a < p { a } else { a - 1 };
                            let b0 = if b < p { b } else { b - 1 };
                            if a != p && b != p {
                                assert(row1[a] == row0[a0]);
                                assert(row1[b] == row0[b0]);
                            } else if a == p {
                                assert(row1[b] == row0[b0]);
                            } else {
                                assert(row1[a] == row0[a0]);
                            }
                        }
                    }
                    assert forall|a: int, b: int|
                        0 <= a < edges1.len() && 0 <= b < edges1[a].len() implies labels.contains(
                        #[trigger] edges1[a][b],
                    ) && overlaps(labels[a], edges1[a][b]) by {
                        if a != i {
                            assert(edges1[a] == edges0[a]);
                            assert(labels.contains(edges0[a][b]));
                        } else if b != p {
                            let b0 = if b < p { b } else { b - 1 };
                            assert(row1[b] == row0[b0]);
                            assert(labels.contains(edges0[a][b0]));
                        }
                    }
                    assert(self.wf());
                    Self::lemma_view_after_change(before, *self, i as int);
                    assert(row1.to_set() =~= row0.to_set().insert(text)) by {
                        assert forall|x: Kmer| row1.to_set().contains(x) <==> row0.to_set().insert(
                            text,
                        ).contains(x) by {
                            if row1.contains(x) {
                                let t = row1.index_of(x);
                                if t != p {
                                    let t0 = if t < p { t } else { t - 1 };
                                    assert(row0[t0] == x);
                                }
                            }
                            if row0.contains(x) {
                                let t = row0.index_of(x);
                                let t1 = if t < p { t } else { t + 1 };
                                assert(row1[t1] == x);
                            }
                            if x == text {
                                assert(row1[p] == x);
                            }
                        }
                    }
                }
            },
        }
    }

    /// Removes the edge from the node at index `i` to `to`, if there is one.
    pub(crate) fn remove_arc(&mut self, i: usize, to: &str)
        requires
            old(self).wf(),
            i < old(self).labels.len(),
        ensures
            final(self).wf(),
            final(self).kmer_len() == old(self).kmer_len(),
            final(self).labels.deep_view() == old(self).labels.deep_view(),
            final(self)@ == without_edge(old(self)@, old(self).labels.deep_view()[i as int], to@),
    {
        let ghost before = *self;
        let ghost labels = self.labels.deep_view();
        let ghost edges0 = self.edges.deep_view();
        let ghost text = to@;
        let ghost row0 = edges0[i as int];
        proof {
            before.lemma_view_at(i as int);
            lemma_ascending_distinct(row0);
        }
        assert(self.edges[i as int].deep_view() == row0);
        match search(&self.edges[i], to) {
            Ok(j) => {
                self.edges[i].remove(j);
                proof {
                    let edges1 = self.edges.deep_view();
                    let row1 = edges1[i as int];
                    let p = j as int;
                    assert(row1 =~= row0.remove(p));
                    assert forall|a: int| 0 <= a < edges1.len() && a != i implies #[trigger] edges1[a]
                        == edges0[a] by {
                        assert(edges1[a] =~= edges0[a]);
                    }
                    assert(strictly_ascending(row1)) by {
                        assert forall|a: int, b: int| 0 <= a < b < row1.len() implies lex_lt(
                            #[trigger] row1[a],
                            #[trigger] row1[b],
                        ) by {
                            let a0 = if a < p { a } else { a + 1 };
                            let b0 = if b < p { b } else { b + 1 };
                            assert(row1[a] == row0[a0]);
                            assert(row1[b] == row0[b0]);
                        }
                    }
                    assert forall|a: int, b: int|
                        0 <= a < edges1.len() && 0 <= b < edges1[a].len() implies labels.contains(
                        #[trigger] edges1[a][b],
                    ) && overlaps(labels[a], edges1[a][b]) by {
                        if a != i {
                            assert(edges1[a] == edges0[a]);
                            assert(labels.contains(edges0[a][b]));
                        } else {
                            let b0 = if b < p { b } else { b + 1 };
                            assert(row1[b] == row0[b0]);
                            assert(labels.contains(edges0[a][b0]));
                        }
                    }
                    assert(self.wf());
                    Self::lemma_view_after_change(before, *self, i as int);
                    assert(row1.to_set() =~= row0.to_set().remove(text)) by {
                        assert forall|x: Kmer| row1.to_set().contains(x) <==> row0.to_set().remove(
                            text,
                        ).contains(x) by {
                            if row1.contains(x) {
                                let t = row1.index_of(x);
                                let t0 = if t < p { t } else { t + 1 };
                                assert(row0[t0] == x);
                            }
                            if row0.contains(x) && x != text {
                                let t = row0.index_of(x);
                                let t1 = if t < p { t } else { t - 1 };
                                assert(row1[t1] == x);
                            }
                        }
                    }
                }
            },
            Err(_) => {
                proof {
                    assert(row0.to_set().remove(text) =~= row0.to_set());
                    assert(before@.insert(labels[i as int], row0.to_set()) =~= before@);
                }
            },
        }
    }
}

} // verus!
