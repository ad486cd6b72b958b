//! Building the graph from windows of the reads.

use crate::dna::{is_dna, lemma_revcomp_is_dna, revcomp, spec_revcomp};
use crate::graph::Graph;
use crate::model::{
    has_edge, is_window_at, left_kmer, read_windows, right_kmer, with_edge, with_kplus1_mer,
    with_node, with_windows, Adjacency, Kmer,
};
use vstd::prelude::*;
use vstd::string::*;

verus! {

/// Adding one set of windows and then another adds their union.
pub proof fn lemma_with_windows_union(g: Adjacency, a: Set<Seq<char>>, b: Set<Seq<char>>)
    ensures
        with_windows(with_windows(g, a), b) == with_windows(g, a.union(b)),
{
    let ga = with_windows(g, a);
    let gab = with_windows(ga, b);
    let gu = with_windows(g, a.union(b));
    assert forall|u: Kmer| gab.dom().contains(u) <==> gu.dom().contains(u) by {
        if gab.dom().contains(u) {
            if ga.dom().contains(u) {
                if !g.dom().contains(u) {
                    let w = choose|w: Seq<char>| #[trigger]
                        a.contains(w) && (u == left_kmer(w) || u == right_kmer(w));
                    assert(a.union(b).contains(w));
                }
            } else {
                let w = choose|w: Seq<char>| #[trigger]
                    b.contains(w) && (u == left_kmer(w) || u == right_kmer(w));
                assert(a.union(b).contains(w));
            }
        }
        if gu.dom().contains(u) && !g.dom().contains(u) {
            let w = choose|w: Seq<char>| #[trigger]
                a.union(b).contains(w) && (u == left_kmer(w) || u == right_kmer(w));
            if a.contains(w) {
                assert(ga.dom().contains(u));
            } else {
                assert(b.contains(w));
            }
        }
    }
    assert forall|u: Kmer| gab.dom().contains(u) implies #[trigger] gab[u] =~= gu[u] by {
        assert forall|v: Kmer| gab[u].contains(v) <==> gu[u].contains(v) by {
            if gab[u].contains(v) {
                if has_edge(ga, u, v) {
                    if !has_edge(g, u, v) {
                        let w = choose|w: Seq<char>| #[trigger]
                            a.contains(w) && u == left_kmer(w) && v == right_kmer(w);
                        assert(a.union(b).contains(w));
                    }
                } else {
                    let w = choose|w: Seq<char>| #[trigger]
                        b.contains(w) && u == left_kmer(w) && v == right_kmer(w);
                    assert(a.union(b).contains(w));
                }
            }
            if gu[u].contains(v) && !has_edge(g, u, v) {
                let w = choose|w: Seq<char>| #[trigger]
                    a.union(b).contains(w) && u == left_kmer(w) && v == right_kmer(w);
                if a.contains(w) {
                    assert(ga.dom().contains(u));
                    assert(has_edge(ga, u, v));
                } else {
                    assert(b.contains(w));
                }
            }
        }
    }
    assert(gab =~= gu);
}

/// Adding no window changes nothing.
pub proof fn lemma_with_no_windows(g: Adjacency)
    ensures
        with_windows(g, Set::empty()) == g,
{
    let h = with_windows(g, Set::empty());
    assert forall|u: Kmer| h.dom().contains(u) implies #[trigger] h[u] =~= g[u] by {}
    assert(h =~= g);
}

/// Adding the same window twice changes nothing.
pub proof fn lemma_add_twice(g: Adjacency, w: Seq<char>)
    ensures
        with_kplus1_mer(with_kplus1_mer(g, w), w) == with_kplus1_mer(g, w),
{
    lemma_with_windows_union(g, set![w], set![w]);
    assert(set![w].union(set![w]) =~= set![w]);
}

/// Adding a window amounts to making both of its halves nodes and drawing the
/// edge from the left half to the right half.
pub proof fn lemma_with_kplus1_mer(g: Adjacency, w: Seq<char>)
    ensures
        with_kplus1_mer(g, w) == with_edge(
            with_node(with_node(g, right_kmer(w)), left_kmer(w)),
            left_kmer(w),
            right_kmer(w),
        ),
        with_kplus1_mer(g, w).dom().contains(left_kmer(w)),
        with_kplus1_mer(g, w).dom().contains(right_kmer(w)),
        with_kplus1_mer(g, w)[left_kmer(w)].contains(right_kmer(w)),
{
    let l = left_kmer(w);
    let r = right_kmer(w);
    let h = with_node(with_node(g, r), l);
    let target = with_edge(h, l, r);
    let gw = with_kplus1_mer(g, w);
    assert(set![w].contains(w));
    assert forall|u: Kmer| gw.dom().contains(u) implies #[trigger] gw[u] =~= target[u] by {
        assert forall|v: Kmer| gw[u].contains(v) <==> target[u].contains(v) by {
            if target[u].contains(v) && !has_edge(g, u, v) {
                assert(set![w].contains(w) && u == left_kmer(w) && v == right_kmer(w));
            }
        }
    }
    assert(gw =~= target);
}

/// The windows of the reads before index `read`, and those of the read at
/// that index that start before `offset`.
spec fn windows_before(
    reads: Seq<Seq<char>>,
    size: nat,
    read_len: nat,
    read: int,
    offset: int,
) -> Set<Seq<char>> {
    Set::new(
        |w: Seq<char>|
            exists|a: int, b: int|
                is_window_at(reads, size, read_len, w, a, b) && (a < read || (a == read && b
                    < offset)),
    )
}

/// Going one offset further adds the window of the strand and the window of
/// its reverse complement at that offset.
proof fn lemma_windows_before_step(
    reads: Seq<Seq<char>>,
    size: nat,
    read_len: nat,
    read: int,
    offset: int,
)
    requires
        0 <= read < reads.len(),
        0 <= offset <= read_len - size,
    ensures
        windows_before(reads, size, read_len, read, offset + 1) == windows_before(
            reads,
            size,
            read_len,
            read,
            offset,
        ).union(set![reads[read].subrange(offset, offset + size)]).union(
            set![spec_revcomp(reads[read]).subrange(offset, offset + size)],
        ),
{
    let before = windows_before(reads, size, read_len, read, offset);
    let after = windows_before(reads, size, read_len, read, offset + 1);
    let fw = reads[read].subrange(offset, offset + size);
    let rv = spec_revcomp(reads[read]).subrange(offset, offset + size);
    let target = before.union(set![fw]).union(set![rv]);
    assert forall|w: Seq<char>| after.contains(w) <==> target.contains(w) by {
        if after.contains(w) {
            let (a, b) = choose|a: int, b: int|
                is_window_at(reads, size, read_len, w, a, b) && (a < read || (a == read && b
                    < offset + 1));
            if a == read && b == offset {
                assert(w == fw || w == rv);
            } else {
                assert(is_window_at(reads, size, read_len, w, a, b) && (a < read || (a == read
                    && b < offset)));
            }
        }
        if before.contains(w) {
            let (a, b) = choose|a: int, b: int|
                is_window_at(reads, size, read_len, w, a, b) && (a < read || (a == read && b
                    < offset));
            assert(is_window_at(reads, size, read_len, w, a, b) && (a < read || (a == read && b
                < offset + 1)));
        }
        if w == fw || w == rv {
            assert(is_window_at(reads, size, read_len, w, read, offset) && (read < read || (read
                == read && offset < offset + 1)));
        }
    }
    assert(after =~= target);
}

/// Past the last offset of one read lies the first offset of the next.
proof fn lemma_windows_before_next(reads: Seq<Seq<char>>, size: nat, read_len: nat, read: int)
    ensures
        windows_before(reads, size, read_len, read, read_len - size + 1) == windows_before(
            reads,
            size,
            read_len,
            read + 1,
            0,
        ),
{
    let here = windows_before(reads, size, read_len, read, read_len - size + 1);
    let next = windows_before(reads, size, read_len, read + 1, 0);
    assert forall|w: Seq<char>| here.contains(w) <==> next.contains(w) by {
        if here.contains(w) {
            let (a, b) = choose|a: int, b: int|
                is_window_at(reads, size, read_len, w, a, b) && (a < read || (a == read && b
                    < read_len - size + 1));
            assert(is_window_at(reads, size, read_len, w, a, b) && (a < read + 1 || (a == read
                + 1 && b < 0)));
        }
        if next.contains(w) {
            let (a, b) = choose|a: int, b: int|
                is_window_at(reads, size, read_len, w, a, b) && (a < read + 1 || (a == read + 1
                    && b < 0));
            assert(is_window_at(reads, size, read_len, w, a, b) && (a < read || (a == read && b
                < read_len - size + 1)));
        }
    }
    assert(here =~= next);
}

impl Graph {
    /// Adds the window `kplus1_mer` to the graph: its first k characters and
    /// its last k characters become nodes, unless they are nodes already, and
    /// the first leads to the second.
    pub fn add_nodes_from_kplus1_mer(&mut self, kplus1_mer: &str)
        requires
            old(self).wf(),
            kplus1_mer@.len() == old(self).kmer_len() + 1,
        ensures
            final(self).wf(),
            final(self).kmer_len() == old(self).kmer_len(),
            final(self)@ == with_kplus1_mer(old(self)@, kplus1_mer@),
            final(self)@.dom().contains(left_kmer(kplus1_mer@)),
            final(self)@.dom().contains(right_kmer(kplus1_mer@)),
            final(self)@[left_kmer(kplus1_mer@)].contains(right_kmer(kplus1_mer@)),
    {
        let size = kplus1_mer.unicode_len();
        let left = kplus1_mer.substring_char(0, size - 1).to_owned();
        let right = kplus1_mer.substring_char(1, size).to_owned();
        proof {
            lemma_with_kplus1_mer(self@, kplus1_mer@);
            assert(left@ =~= left_kmer(kplus1_mer@));
            assert(right@ =~= right_kmer(kplus1_mer@));
            assert(left@.skip(1) =~= right@.take(right@.len() - 1));
        }
        self.ensure_node(right.clone());
        let from = self.ensure_node(left);
        self.insert_arc(from, right);
    }

    /// Adds to the graph every window of `k_size` characters of every read
    /// and of its reverse complement, at the offsets from 0 to
    /// `seq_size - k_size`.
    pub fn add_kplus1_mers_from_sequences(
        &mut self,
        sequences: &Vec<String>,
        k_size: usize,
        seq_size: usize,
    )
        requires
            old(self).wf(),
            k_size == old(self).kmer_len() + 1,
            k_size <= seq_size,
            forall|r: int|
                0 <= r < sequences.len() ==> (#[trigger] sequences[r])@.len() >= seq_size
                    && is_dna(sequences[r]@),
        ensures
            final(self).wf(),
            final(self).kmer_len() == old(self).kmer_len(),
            final(self)@ == with_windows(
                old(self)@,
                read_windows(sequences.deep_view(), k_size as nat, seq_size as nat),
            ),
    {
        let ghost g0 = self@;
        let ghost reads = sequences.deep_view();
        let ghost size = k_size as nat;
        let ghost read_len = seq_size as nat;
        proof {
            assert(windows_before(reads, size, read_len, 0, 0) =~= Set::<Seq<char>>::empty());
            lemma_with_no_windows(g0);
        }
        let mut r: usize = 0;
        while r < sequences.len()
            invariant
                0 <= r <= sequences.len(),
                reads == sequences.deep_view(),
                size == k_size,
                read_len == seq_size,
                self.wf(),
                self.kmer_len() + 1 == k_size,
                k_size <= seq_size,
                forall|r: int|
                    0 <= r < sequences.len() ==> (#[trigger] sequences[r])@.len() >= seq_size
                        && is_dna(sequences[r]@),
                self@ == with_windows(g0, windows_before(reads, size, read_len, r as int, 0)),
            decreases sequences.len() - r,
        {
            let sequence = sequences[r].as_str();
            let reverse = revcomp(sequence);
            proof {
                lemma_revcomp_is_dna(sequence@);
                assert(reads[r as int] == sequence@);
            }
            let mut i: usize = 0;
            while i <= seq_size - k_size
                invariant
                    0 <= r < sequences.len(),
                    0 <= i <= seq_size - k_size + 1,
                    reads == sequences.deep_view(),
                    reads[r as int] == sequence@,
                    reverse@ == spec_revcomp(sequence@),
                    sequence@.len() >= seq_size,
                    size == k_size,
                    read_len == seq_size,
                    self.wf(),
                    self.kmer_len() + 1 == k_size,
                    k_size <= seq_size,
                    self@ == with_windows(
                        g0,
                        windows_before(reads, size, read_len, r as int, i as int),
                    ),
                decreases seq_size - k_size + 1 - i,
            {
                let ghost done = windows_before(reads, size, read_len, r as int, i as int);
                let forward_window = sequence.substring_char(i, i + k_size);
                let reverse_window = reverse.as_str().substring_char(i, i + k_size);
                self.add_nodes_from_kplus1_mer(forward_window);
                self.add_nodes_from_kplus1_mer(reverse_window);
                proof {
                    lemma_with_windows_union(g0, done, set![forward_window@]);
                    lemma_with_windows_union(
                        g0,
                        done.union(set![forward_window@]),
                        set![reverse_window@],
                    );
                    lemma_windows_before_step(reads, size, read_len, r as int, i as int);
                }
                i += 1;
            }
            proof {
                lemma_windows_before_next(reads, size, read_len, r as int);
            }
            r += 1;
        }
        proof {
            let all = windows_before(reads, size, read_len, sequences.len() as int, 0);
            let target = read_windows(reads, size, read_len);
            assert forall|w: Seq<char>| all.contains(w) <==> target.contains(w) by {
                if all.contains(w) {
                    let (a, b) = choose|a: int, b: int|
                        is_window_at(reads, size, read_len, w, a, b) && (a < sequences.len() || (a
                            == sequences.len() && b < 0));
                    assert(is_window_at(reads, size, read_len, w, a, b));
                }
                if target.contains(w) {
                    let (a, b) = choose|a: int, b: int|
                        is_window_at(reads, size, read_len, w, a, b);
                    assert(is_window_at(reads, size, read_len, w, a, b) && (a < sequences.len()
                        || (a == sequences.len() && b < 0)));
                }
            }
            assert(all =~= target);
        }
    }
}

} // verus!
