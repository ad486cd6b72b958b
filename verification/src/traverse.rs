//! A depth-first reading of the graph that leaves the graph as it is.

use crate::graph::Graph;
use crate::model::{is_live, sorted_list, sorted_nodes, Adjacency, Kmer};
use crate::order::lemma_ascending_distinct;
use vstd::prelude::*;
use vstd::string::*;

verus! {

/// The state of the search.
pub struct Search {
    /// The nodes still to visit, the next one last.
    pub pending: Seq<Kmer>,
    /// The nodes visited so far.
    pub seen: Set<Kmer>,
    /// The nodes visited since a superstring was last recorded.
    pub current: Set<Kmer>,
    /// The text read since the search left its focal node.
    pub text: Seq<char>,
    /// The superstrings recorded so far.
    pub found: Seq<Seq<char>>,
}

/// The search meets the successor `w` of the node it visits. Where `w` was
/// visited since the last record, the text is recorded and the record of
/// visits starts anew. Where `w` was never visited and has a successor, it is
/// put on top of the nodes to visit.
pub open spec fn meet(g: Adjacency, s: Search, w: Kmer) -> Search {
    let closed = s.current.contains(w);
    let found = if closed {
        s.found.push(s.text)
    } else {
        s.found
    };
    let current = if closed {
        Set::empty()
    } else {
        s.current
    };
    let pending = if !s.seen.contains(w) && is_live(g, w) {
        s.pending.push(w)
    } else {
        s.pending
    };
    Search { pending, seen: s.seen, current, text: s.text, found }
}

/// The search meets the nodes of `row` one after another.
pub open spec fn meet_each(g: Adjacency, s: Search, row: Seq<Kmer>) -> Search
    decreases row.len(),
{
    if row.len() == 0 {
        s
    } else {
        meet(g, meet_each(g, s, row.drop_last()), row.last())
    }
}

/// The search visits the node on top of those to visit: the text grows by
/// the node, in full where the text is empty and by its last character
/// otherwise, and the search meets the successors of the node in ascending
/// order.
pub open spec fn visit(g: Adjacency, s: Search) -> Search {
    let v = s.pending.last();
    let text = if s.text.len() == 0 {
        v
    } else {
        s.text.push(v.last())
    };
    let arrived = Search {
        pending: s.pending.drop_last(),
        seen: s.seen.insert(v),
        current: s.current.insert(v),
        text,
        found: s.found,
    };
    meet_each(g, arrived, sorted_list(g[v]))
}

/// The state after `n` visits.
pub open spec fn after_visits(g: Adjacency, s: Search, n: nat) -> Search
    decreases n,
{
    if n == 0 {
        s
    } else {
        visit(g, after_visits(g, s, (n - 1) as nat))
    }
}

/// After `n` visits, and not before, no node is left to visit.
pub open spec fn settles_at(g: Adjacency, s: Search, n: nat) -> bool {
    &&& after_visits(g, s, n).pending.len() == 0
    &&& forall|i: nat| i < n ==> (#[trigger] after_visits(g, s, i)).pending.len() > 0
}

/// The state in which no node is left to visit.
pub open spec fn settled(g: Adjacency, s: Search) -> Search {
    after_visits(g, s, choose|n: nat| settles_at(g, s, n))
}

/// The search from one focal node: none where the node has been visited;
/// otherwise the text and the record of visits start anew, and the search
/// runs until no node is left to visit.
pub open spec fn search_from(g: Adjacency, s: Search, focal: Kmer) -> Search {
    if s.seen.contains(focal) {
        s
    } else {
        settled(
            g,
            Search {
                pending: seq![focal],
                seen: s.seen,
                current: Set::empty(),
                text: Seq::empty(),
                found: s.found,
            },
        )
    }
}

/// The searches from the focal nodes, one after another.
pub open spec fn search_over(g: Adjacency, focals: Seq<Kmer>) -> Search
    decreases focals.len(),
{
    if focals.len() == 0 {
        Search {
            pending: Seq::empty(),
            seen: Set::empty(),
            current: Set::empty(),
            text: Seq::empty(),
            found: Seq::empty(),
        }
    } else {
        search_from(g, search_over(g, focals.drop_last()), focals.last())
    }
}

/// How many entries are false.
pub open spec fn count_false(marks: Seq<bool>) -> nat
    decreases marks.len(),
{
    if marks.len() == 0 {
        0
    } else {
        count_false(marks.drop_last()) + if marks.last() {
            0nat
        } else {
            1nat
        }
    }
}

/// Setting an entry makes one false entry fewer, if the entry was false.
proof fn lemma_count_false_set(marks: Seq<bool>, i: int)
    requires
        0 <= i < marks.len(),
    ensures
        count_false(marks.update(i, true)) + (if marks[i] {
            0nat
        } else {
            1nat
        }) == count_false(marks),
    decreases marks.len(),
{
    let set = marks.update(i, true);
    if i == marks.len() - 1 {
        assert(set.drop_last() =~= marks.drop_last());
    } else {
        lemma_count_false_set(marks.drop_last(), i);
        assert(set.drop_last() =~= marks.drop_last().update(i, true));
    }
}

/// Where an entry is false, at least one is.
proof fn lemma_count_false_positive(marks: Seq<bool>, i: int)
    requires
        0 <= i < marks.len(),
        !marks[i],
    ensures
        count_false(marks) >= 1,
    decreases marks.len(),
{
    if i < marks.len() - 1 {
        lemma_count_false_positive(marks.drop_last(), i);
    }
}

/// A list of `n` entries, all false.
fn all_false(n: usize) -> (marks: Vec<bool>)
    ensures
        marks.len() == n,
        forall|i: int| 0 <= i < n ==> !marks[i],
{
    let mut marks: Vec<bool> = Vec::new();
    while marks.len() < n
        invariant
            marks.len() <= n,
            forall|i: int| 0 <= i < marks.len() ==> !marks[i],
        decreases n - marks.len(),
    {
        marks.push(false);
    }
    marks
}

/// The nodes at the indices of `pending`.
spec fn labels_at(labels: Seq<Kmer>, pending: Seq<usize>) -> Seq<Kmer> {
    Seq::new(pending.len(), |i: int| labels[pending[i] as int])
}

/// What the decrease of a search is measured by: the nodes never visited,
/// not counting the one on top of those to visit.
spec fn unvisited_below(marks: Seq<bool>, pending: Seq<usize>) -> int {
    count_false(marks) - if pending.len() > 0 && !marks[pending.last() as int] {
        1int
    } else {
        0int
    }
}

impl Graph {
    /// Reads superstrings off the graph by a depth-first search, and leaves
    /// the graph as it is. The nodes are taken in ascending order as focal
    /// nodes; one that has been visited by then is passed over. The search
    /// from a focal node visits the node last put on its list of nodes to
    /// visit. The text of the search begins with the focal node and grows by
    /// the last character of every further node visited. From the visited node
    /// the search looks at each successor in ascending order: where it has
    /// visited the successor since it last recorded a superstring, it records
    /// the text as it stands; a successor never visited that has a successor
    /// itself is put on the list.
    pub fn _get_cyclic_superstrings_2(&self) -> (result: Vec<String>)
        requires
            self.wf(),
        ensures
            result.deep_view() == search_over(self@, sorted_nodes(self@)).found,
    {
        let ghost g = self@;
        let ghost labels = self.labels.deep_view();
        let n = self.labels.len();
        let mut result: Vec<String> = Vec::new();
        let mut cur_nodes_to_visit: Vec<usize> = Vec::new();
        let mut all_visited: Vec<bool> = all_false(n);
        let ghost mut state = search_over(g, labels.take(0));
        proof {
            assert(labels.take(0) =~= Seq::<Kmer>::empty());
            assert(result.deep_view() =~= state.found);
            lemma_ascending_distinct(labels);
        }
        let mut focal: usize = 0;
        while focal < n
            invariant
                self.wf(),
                g == self@,
                labels == self.labels.deep_view(),
                labels.no_duplicates(),
                n == labels.len(),
                0 <= focal <= n,
                state == search_over(g, labels.take(focal as int)),
                cur_nodes_to_visit.len() == 0,
                all_visited.len() == n,
                forall|i: int| 0 <= i < n ==> all_visited[i] == state.seen.contains(labels[i]),
                result.deep_view() == state.found,
            decreases n - focal,
        {
            proof {
                assert(labels.take(focal + 1).drop_last() =~= labels.take(focal as int));
                assert(labels.take(focal + 1).last() == labels[focal as int]);
            }
            if !all_visited[focal] {
                cur_nodes_to_visit.push(focal);
                let mut cur_visited: Vec<bool> = all_false(n);
                let mut cyclic_superstring = String::new();
                let ghost start = Search {
                    pending: seq![labels[focal as int]],
                    seen: state.seen,
                    current: Set::empty(),
                    text: Seq::empty(),
                    found: state.found,
                };
                let ghost mut s = start;
                let ghost mut steps: nat = 0;
                proof {
                    assert(s.pending =~= labels_at(labels, cur_nodes_to_visit@));
                    lemma_count_false_positive(all_visited@, focal as int);
                }
                while cur_nodes_to_visit.len() > 0
                    invariant
                        self.wf(),
                        g == self@,
                        labels == self.labels.deep_view(),
                        labels.no_duplicates(),
                        n == labels.len(),
                        s == after_visits(g, start, steps),
                        forall|i: nat|
                            i < steps ==> (#[trigger] after_visits(g, start, i)).pending.len() > 0,
                        forall|i: int|
                            0 <= i < cur_nodes_to_visit.len() ==> #[trigger] cur_nodes_to_visit[i]
                                < n,
                        s.pending == labels_at(labels, cur_nodes_to_visit@),
                        all_visited.len() == n,
                        cur_visited.len() == n,
                        forall|i: int| 0 <= i < n ==> all_visited[i] == s.seen.contains(labels[i]),
                        forall|i: int| 0 <= i < n ==> cur_visited[i] == s.current.contains(labels[i]),
                        s.text == cyclic_superstring@,
                        s.found == result.deep_view(),
                        unvisited_below(all_visited@, cur_nodes_to_visit@) >= 0,
                    decreases
                            unvisited_below(all_visited@, cur_nodes_to_visit@),
                            cur_nodes_to_visit.len(),
                {
                    let ghost before = s;
                    let ghost marks0 = all_visited@;
                    let ghost pending0 = cur_nodes_to_visit@;
                    let visited_node = cur_nodes_to_visit.pop().unwrap();
                    let ghost rest = cur_nodes_to_visit@;
                    let ghost v = labels[visited_node as int];
                    proof {
                        assert(before.pending.last() == v);
                        assert(before.pending.drop_last() =~= labels_at(labels, rest));
                        lemma_count_false_set(marks0, visited_node as int);
                        self.lemma_view_at(visited_node as int);
                        self.lemma_row_sorted(visited_node as int);
                    }
                    all_visited[visited_node] = true;
                    cur_visited[visited_node] = true;
                    let label = self.labels[visited_node].as_str();
                    if cyclic_superstring.as_str().is_empty() {
                        cyclic_superstring.append(label);
                        assert(cyclic_superstring@ =~= v);
                    } else {
                        let ghost text = cyclic_superstring@;
                        cyclic_superstring.append(label.substring_char(self.k - 1, self.k));
                        assert(cyclic_superstring@ =~= text.push(v.last()));
                    }
                    let ghost arrived = Search {
                        pending: before.pending.drop_last(),
                        seen: before.seen.insert(v),
                        current: before.current.insert(v),
                        text: cyclic_superstring@,
                        found: before.found,
                    };
                    let ghost row = self.edges.deep_view()[visited_node as int];
                    proof {
                        s = arrived;
                        assert(row.take(0) =~= Seq::<Kmer>::empty());
                    }
                    let ghost marks1 = all_visited@;
                    proof {
                        assert(marks1 =~= marks0.update(visited_node as int, true));
                        assert(pending0.last() == visited_node);
                        assert(unvisited_below(marks0, pending0) == count_false(marks1));
                    }
                    let mut j: usize = 0;
                    while j < self.edges[visited_node].len()
                        invariant
                            self.wf(),
                            g == self@,
                            labels == self.labels.deep_view(),
                            labels.no_duplicates(),
                            n == labels.len(),
                            visited_node < n,
                            row == self.edges.deep_view()[visited_node as int],
                            row.len() == self.edges[visited_node as int].len(),
                            0 <= j <= row.len(),
                            s == meet_each(g, arrived, row.take(j as int)),
                            forall|i: int|
                                0 <= i < cur_nodes_to_visit.len()
                                    ==> #[trigger] cur_nodes_to_visit[i] < n,
                            s.pending == labels_at(labels, cur_nodes_to_visit@),
                            all_visited@ == marks1,
                            all_visited.len() == n,
                            cur_visited.len() == n,
                            forall|i: int|
                                0 <= i < n ==> all_visited[i] == s.seen.contains(labels[i]),
                            forall|i: int|
                                0 <= i < n ==> cur_visited[i] == s.current.contains(labels[i]),
                            s.text == cyclic_superstring@,
                            s.found == result.deep_view(),
                            cur_nodes_to_visit.len() >= rest.len(),
                            cur_nodes_to_visit.len() == rest.len() ==> cur_nodes_to_visit@ == rest,
                            cur_nodes_to_visit.len() > rest.len() ==> !all_visited[cur_nodes_to_visit@.last() as int],
                        decreases row.len() - j,
                    {
                        let ghost met = s;
                        let ghost w = row[j as int];
                        let neighbour = self.edges[visited_node][j].as_str();
                        proof {
                            assert(neighbour@ == w);
                            assert(row.take(j + 1).drop_last() =~= row.take(j as int));
                            assert(row.take(j + 1).last() == w);
                            assert(labels.contains(w));
                        }
                        match self.index_of(neighbour) {
                            Some(at) => {
                                proof {
                                    self.lemma_view_at(at as int);
                                }
                                if cur_visited[at] {
                                    let ghost found = result.deep_view();
                                    result.push(cyclic_superstring.clone());
                                    cur_visited = all_false(n);
                                    assert(result.deep_view() =~= found.push(cyclic_superstring@));
                                }
                                if !all_visited[at] {
                                    let num_edges_of_neighbour = self.edges[at].len();
                                    proof {
                                        let out = self.edges.deep_view()[at as int];
                                        if out.len() > 0 {
                                            assert(out.to_set().contains(out[0]));
                                        } else {
                                            assert(out.to_set() =~= Set::<Kmer>::empty());
                                        }
                                    }
                                    if num_edges_of_neighbour > 0 {
                                        let ghost pending = cur_nodes_to_visit@;
                                        cur_nodes_to_visit.push(at);
                                        assert(labels_at(labels, cur_nodes_to_visit@) =~= labels_at(
                                            labels,
                                            pending,
                                        ).push(w));
                                    }
                                }
                            },
                            None => {},
                        }
                        proof {
                            s = meet(g, met, w);
                        }
                        j += 1;
                    }
                    proof {
                        assert(row.take(row.len() as int) =~= row);
                        assert(s == visit(g, before));
                        steps = steps + 1;
                        if cur_nodes_to_visit.len() > 0 {
                            let top = cur_nodes_to_visit@.last() as int;
                            assert(cur_nodes_to_visit[cur_nodes_to_visit.len() - 1] < n);
                            if !all_visited[top] {
                                lemma_count_false_positive(all_visited@, top);
                            }
                        }
                    }
                }
                proof {
                    assert(settles_at(g, start, steps));
                    assert(settled(g, start) == s);
                    state = s;
                }
            }
            focal += 1;
        }
        proof {
            assert(labels.take(n as int) =~= labels);
            self.lemma_labels_sorted();
        }
        result
    }
}

} // verus!
