//! Ascending enumerations of sets of nodes, and their least elements.

use crate::model::{enumerates, sorted_list, sorted_nodes, Adjacency, Kmer};
use crate::order::{
    lemma_ascending_distinct, lemma_lex_asymmetric, lemma_lex_irreflexive, lemma_lex_total,
    lemma_lex_transitive, lex_lt, strictly_ascending,
};
use vstd::prelude::*;

verus! {

/// A set has one ascending enumeration at most.
pub proof fn lemma_enumeration_unique(a: Seq<Kmer>, b: Seq<Kmer>, nodes: Set<Kmer>)
    requires
        enumerates(a, nodes),
        enumerates(b, nodes),
    ensures
        a == b,
    decreases a.len(),
{
    if a.len() == 0 {
        if b.len() > 0 {
            assert(b.contains(b[0]));
            assert(a.contains(b[0]));
        }
        assert(a =~= b);
    } else {
        let top = a.last();
        assert(a.contains(top));
        assert(b.contains(top));
        let j = b.index_of(top);
        assert(b[j] == top);
        if j < b.len() - 1 {
            let other = b.last();
            assert(b.contains(other));
            assert(a.contains(other));
            let i = a.index_of(other);
            assert(a[i] == other);
            assert(lex_lt(b[j], b[b.len() - 1]));
            if i < a.len() - 1 {
                assert(lex_lt(a[i], a[a.len() - 1]));
                lemma_lex_asymmetric(top, other);
            } else {
                lemma_lex_irreflexive(top);
            }
        }
        let a0 = a.drop_last();
        let b0 = b.drop_last();
        let rest = nodes.remove(top);
        lemma_ascending_distinct(a);
        lemma_ascending_distinct(b);
        assert forall|u: Kmer| a0.contains(u) <==> rest.contains(u) by {
            if a0.contains(u) {
                let i = a0.index_of(u);
                assert(a[i] == u);
                assert(a.contains(u));
            }
            if rest.contains(u) {
                assert(a.contains(u));
                let i = a.index_of(u);
                assert(a0[i] == u);
            }
        }
        assert forall|u: Kmer| b0.contains(u) <==> rest.contains(u) by {
            if b0.contains(u) {
                let i = b0.index_of(u);
                assert(b[i] == u);
                assert(b.contains(u));
            }
            if rest.contains(u) {
                assert(b.contains(u));
                let i = b.index_of(u);
                assert(b0[i] == u);
            }
        }
        assert(strictly_ascending(a0)) by {
            assert forall|i: int, j: int| 0 <= i < j < a0.len() implies lex_lt(
                #[trigger] a0[i],
                #[trigger] a0[j],
            ) by {
                assert(lex_lt(a[i], a[j]));
            }
        }
        assert(strictly_ascending(b0)) by {
            assert forall|i: int, j: int| 0 <= i < j < b0.len() implies lex_lt(
                #[trigger] b0[i],
                #[trigger] b0[j],
            ) by {
                assert(lex_lt(b[i], b[j]));
            }
        }
        lemma_enumeration_unique(a0, b0, rest);
        assert(a =~= a0.push(top));
        assert(b =~= b0.push(top));
    }
}

/// An ascending list with one more element is an ascending list again, once
/// the element stands in its place.
proof fn lemma_insert_ascending(list: Seq<Kmer>, x: Kmer) -> (longer: Seq<Kmer>)
    requires
        strictly_ascending(list),
        !list.contains(x),
    ensures
        strictly_ascending(longer),
        forall|u: Kmer| longer.contains(u) <==> list.contains(u) || u == x,
    decreases list.len(),
{
    if list.len() == 0 {
        let longer = seq![x];
        assert(longer[0] == x);
        assert forall|u: Kmer| longer.contains(u) <==> list.contains(u) || u == x by {
            if longer.contains(u) {
                let i = longer.index_of(u);
                assert(longer[i] == u);
            }
        }
        longer
    } else {
        let top = list.last();
        assert(list.contains(top));
        lemma_lex_total(top, x);
        if lex_lt(top, x) {
            let longer = list.push(x);
            assert forall|i: int, j: int| 0 <= i < j < longer.len() implies lex_lt(
                #[trigger] longer[i],
                #[trigger] longer[j],
            ) by {
                if j == list.len() {
                    if i < list.len() - 1 {
                        assert(lex_lt(list[i], list[list.len() - 1]));
                        lemma_lex_transitive(list[i], top, x);
                    }
                } else {
                    assert(lex_lt(list[i], list[j]));
                }
            }
            assert forall|u: Kmer| longer.contains(u) <==> list.contains(u) || u == x by {
                if longer.contains(u) {
                    let i = longer.index_of(u);
                    assert(longer[i] == u);
                    if i < list.len() {
                        assert(list[i] == u);
                    }
                }
                if list.contains(u) {
                    let i = list.index_of(u);
                    assert(longer[i] == u);
                }
                if u == x {
                    assert(longer[list.len() as int] == u);
                }
            }
            longer
        } else {
            let rest = list.drop_last();
            assert(strictly_ascending(rest)) by {
                assert forall|i: int, j: int| 0 <= i < j < rest.len() implies lex_lt(
                    #[trigger] rest[i],
                    #[trigger] rest[j],
                ) by {
                    assert(lex_lt(list[i], list[j]));
                }
            }
            assert(!rest.contains(x)) by {
                if rest.contains(x) {
                    let i = rest.index_of(x);
                    assert(list[i] == x);
                }
            }
            let shorter = lemma_insert_ascending(rest, x);
            let longer = shorter.push(top);
            assert forall|i: int, j: int| 0 <= i < j < longer.len() implies lex_lt(
                #[trigger] longer[i],
                #[trigger] longer[j],
            ) by {
                if j == shorter.len() {
                    assert(shorter.contains(shorter[i]));
                    if rest.contains(shorter[i]) {
                        let a = rest.index_of(shorter[i]);
                        assert(lex_lt(list[a], list[list.len() - 1]));
                    }
                }
            }
            assert forall|u: Kmer| longer.contains(u) <==> list.contains(u) || u == x by {
                if longer.contains(u) {
                    let i = longer.index_of(u);
                    assert(longer[i] == u);
                    if i < shorter.len() {
                        assert(shorter.contains(shorter[i]));
                        if rest.contains(u) {
                            let a = rest.index_of(u);
                            assert(list[a] == u);
                        }
                    }
                }
                if list.contains(u) {
                    let i = list.index_of(u);
                    if i < rest.len() {
                        assert(rest[i] == u);
                        assert(shorter.contains(u));
                        let a = shorter.index_of(u);
                        assert(longer[a] == u);
                    } else {
                        assert(longer[shorter.len() as int] == u);
                    }
                }
                if u == x {
                    assert(shorter.contains(u));
                    let a = shorter.index_of(u);
                    assert(longer[a] == u);
                }
            }
            longer
        }
    }
}

/// The elements of a list can be put in ascending order.
proof fn lemma_sort(list: Seq<Kmer>) -> (sorted: Seq<Kmer>)
    ensures
        strictly_ascending(sorted),
        forall|u: Kmer| sorted.contains(u) <==> list.contains(u),
    decreases list.len(),
{
    if list.len() == 0 {
        list
    } else {
        let rest = lemma_sort(list.drop_last());
        let x = list.last();
        assert forall|u: Kmer| list.contains(u) <==> list.drop_last().contains(u) || u == x by {
            if list.contains(u) {
                let i = list.index_of(u);
                if i < list.len() - 1 {
                    assert(list.drop_last()[i] == u);
                }
            }
            if list.drop_last().contains(u) {
                let i = list.drop_last().index_of(u);
                assert(list[i] == u);
            }
            if u == x {
                assert(list[list.len() - 1] == u);
            }
        }
        if rest.contains(x) {
            rest
        } else {
            lemma_insert_ascending(rest, x)
        }
    }
}

/// A finite set of nodes has an ascending enumeration, and `sorted_list` is
/// that enumeration.
pub proof fn lemma_sorted_list(nodes: Set<Kmer>)
    requires
        nodes.finite(),
    ensures
        enumerates(sorted_list(nodes), nodes),
{
    nodes.lemma_to_seq_to_set_id();
    let listed = nodes.to_seq();
    let sorted = lemma_sort(listed);
    assert forall|u: Kmer| sorted.contains(u) <==> nodes.contains(u) by {
        assert(listed.to_set().contains(u) <==> listed.contains(u));
    }
    assert(enumerates(sorted, nodes));
}

/// The nodes of a graph whose nodes are those of `list` have an ascending
/// enumeration, and `sorted_nodes` is that enumeration.
pub proof fn lemma_sorted_nodes(g: Adjacency, list: Seq<Kmer>)
    requires
        forall|u: Kmer| g.dom().contains(u) <==> list.contains(u),
    ensures
        enumerates(sorted_nodes(g), g.dom()),
{
    assert(g.dom() =~= list.to_set());
    vstd::seq_lib::seq_to_set_is_finite(list);
    lemma_sorted_list(g.dom());
}

/// The nodes of a graph made of two lists of nodes have an ascending
/// enumeration.
pub proof fn lemma_sorted_nodes_of_two(g: Adjacency, first: Seq<Kmer>, second: Seq<Kmer>)
    requires
        forall|i: int| 0 <= i < first.len() ==> g.dom().contains(#[trigger] first[i]),
        forall|i: int| 0 <= i < second.len() ==> g.dom().contains(#[trigger] second[i]),
        forall|u: Kmer| g.dom().contains(u) ==> first.contains(u) || second.contains(u),
    ensures
        enumerates(sorted_nodes(g), g.dom()),
        forall|u: Kmer|
            sorted_nodes(g).contains(u) <==> first.contains(u) || second.contains(u),
{
    let all = first + second;
    assert forall|u: Kmer| g.dom().contains(u) <==> all.contains(u) by {
        if first.contains(u) {
            let i = first.index_of(u);
            assert(all[i] == u);
        }
        if second.contains(u) {
            let i = second.index_of(u);
            assert(all[first.len() + i] == u);
        }
        if all.contains(u) {
            let i = all.index_of(u);
            if i < first.len() {
                assert(first[i] == u);
            } else {
                assert(second[i - first.len()] == u);
            }
        }
    }
    lemma_sorted_nodes(g, all);
    assert forall|u: Kmer|
        sorted_nodes(g).contains(u) <==> first.contains(u) || second.contains(u) by {
        if first.contains(u) {
            let i = first.index_of(u);
            assert(first[i] == u);
        }
        if second.contains(u) {
            let i = second.index_of(u);
            assert(second[i] == u);
        }
    }
}

/// The element at index `j` precedes every other element of the list.
pub open spec fn is_least_at(list: Seq<Kmer>, j: int) -> bool {
    &&& 0 <= j < list.len()
    &&& forall|i: int| 0 <= i < list.len() && i != j ==> lex_lt(list[j], #[trigger] list[i])
}

/// The index of the least element of a list of distinct elements.
pub open spec fn least_index(list: Seq<Kmer>) -> int {
    choose|j: int| is_least_at(list, j)
}

/// A list of distinct elements, not empty, has a least element.
pub proof fn lemma_least_exists(list: Seq<Kmer>)
    requires
        list.len() >= 1,
        list.no_duplicates(),
    ensures
        is_least_at(list, least_index(list)),
    decreases list.len(),
{
    if list.len() == 1 {
        assert(is_least_at(list, 0));
    } else {
        let rest = list.drop_last();
        lemma_least_exists(rest);
        let j = least_index(rest);
        let top = list.last();
        lemma_lex_total(rest[j], top);
        assert(rest[j] == list[j]);
        if lex_lt(list[j], top) {
            assert forall|i: int| 0 <= i < list.len() && i != j implies lex_lt(
                list[j],
                #[trigger] list[i],
            ) by {
                if i < rest.len() {
                    assert(lex_lt(rest[j], rest[i]));
                }
            }
            assert(is_least_at(list, j));
        } else {
            let m = list.len() - 1;
            assert forall|i: int| 0 <= i < list.len() && i != m implies lex_lt(
                list[m],
                #[trigger] list[i],
            ) by {
                if i != j {
                    assert(lex_lt(rest[j], rest[i]));
                    lemma_lex_transitive(top, list[j], list[i]);
                }
            }
            assert(is_least_at(list, m));
        }
    }
}

/// In an ascending list, whatever stands before the least element of
/// `part` is no element of `part`.
pub proof fn lemma_before_least(focals: Seq<Kmer>, part: Seq<Kmer>, at: int, i: int)
    requires
        strictly_ascending(focals),
        is_least_at(part, least_index(part)),
        0 <= i < at < focals.len(),
        focals[at] == part[least_index(part)],
    ensures
        !part.contains(focals[i]),
{
    let j = least_index(part);
    assert(lex_lt(focals[i], focals[at]));
    if part.contains(focals[i]) {
        let t = part.index_of(focals[i]);
        assert(part[t] == focals[i]);
        if t == j {
            lemma_lex_irreflexive(part[j]);
        } else {
            assert(lex_lt(part[j], part[t]));
            lemma_lex_asymmetric(part[j], part[t]);
        }
    }
}

/// Where the nodes of an ascending list are those of two lists, the lesser
/// of their two least elements stands first.
pub proof fn lemma_least_first(focals: Seq<Kmer>, first: Seq<Kmer>, second: Seq<Kmer>)
    requires
        strictly_ascending(focals),
        forall|u: Kmer| focals.contains(u) <==> first.contains(u) || second.contains(u),
        is_least_at(first, least_index(first)),
        is_least_at(second, least_index(second)),
        lex_lt(first[least_index(first)], second[least_index(second)]),
    ensures
        focals.len() >= 2,
        focals[0] == first[least_index(first)],
        focals.index_of(second[least_index(second)]) >= 1,
        focals[focals.index_of(second[least_index(second)])] == second[least_index(second)],
{
    let ja = least_index(first);
    let jb = least_index(second);
    let a = first[ja];
    let b = second[jb];
    assert(first.contains(a));
    assert(second.contains(b));
    assert(focals.contains(a));
    assert(focals.contains(b));
    let pa = focals.index_of(a);
    let pb = focals.index_of(b);
    assert(focals[pa] == a && focals[pb] == b);
    lemma_lex_irreflexive(a);
    if pa > 0 {
        assert(lex_lt(focals[0], focals[pa]));
        assert(focals.contains(focals[0]));
        if first.contains(focals[0]) {
            lemma_before_least(focals, first, pa, 0);
        } else {
            let t = second.index_of(focals[0]);
            assert(second[t] == focals[0]);
            if t != jb {
                assert(lex_lt(second[jb], second[t]));
                lemma_lex_transitive(a, b, focals[0]);
            }
            lemma_lex_asymmetric(a, focals[0]);
        }
    }
}

/// The element at index `j` is the least of those that `bound` precedes.
pub open spec fn is_least_after(list: Seq<Kmer>, bound: Kmer, j: int) -> bool {
    &&& 0 <= j < list.len()
    &&& lex_lt(bound, list[j])
    &&& forall|i: int|
        0 <= i < list.len() && i != j && lex_lt(bound, #[trigger] list[i]) ==> lex_lt(
            list[j],
            list[i],
        )
}

} // verus!
