//! Lexicographic order on character sequences, and search in sorted lists.

use vstd::prelude::*;
use vstd::std_specs::iter::IteratorSpec;
use vstd::string::*;

verus! {

/// `a` and `b` agree on their first `i` characters, and at position `i`
/// either `a` has ended while `b` goes on, or `a` holds the smaller character.
pub open spec fn splits_before(a: Seq<char>, b: Seq<char>, i: int) -> bool {
    &&& 0 <= i <= a.len()
    &&& i < b.len()
    &&& a.take(i) == b.take(i)
    &&& i < a.len() ==> a[i] < b[i]
}

/// Strict lexicographic order by character code.
pub open spec fn lex_lt(a: Seq<char>, b: Seq<char>) -> bool {
    exists|i: int| splits_before(a, b, i)
}

/// Every element is lexicographically smaller than all that follow it.
pub open spec fn strictly_ascending(s: Seq<Seq<char>>) -> bool {
    forall|i: int, j: int| 0 <= i < j < s.len() ==> lex_lt(#[trigger] s[i], #[trigger] s[j])
}

/// No sequence precedes itself.
pub proof fn lemma_lex_irreflexive(a: Seq<char>)
    ensures
        !lex_lt(a, a),
{
}

/// The order is transitive.
pub proof fn lemma_lex_transitive(a: Seq<char>, b: Seq<char>, c: Seq<char>)
    requires
        lex_lt(a, b),
        lex_lt(b, c),
    ensures
        lex_lt(a, c),
{
    let i = choose|i: int| splits_before(a, b, i);
    let j = choose|j: int| splits_before(b, c, j);
    let m = if i <= j { i } else { j };
    assert(a.take(m) == c.take(m)) by {
        assert(a.take(m) =~= a.take(i).take(m));
        assert(b.take(m) =~= b.take(i).take(m));
        assert(b.take(m) =~= b.take(j).take(m));
        assert(c.take(m) =~= c.take(j).take(m));
    }
    if i < j {
        assert(b[i] == b.take(j)[i]);
        assert(c[i] == c.take(j)[i]);
    } else if j < i {
        assert(a[j] == a.take(i)[j]);
        assert(b[j] == b.take(i)[j]);
    }
    assert(splits_before(a, c, m));
}

/// No two sequences precede each other.
pub proof fn lemma_lex_asymmetric(a: Seq<char>, b: Seq<char>)
    requires
        lex_lt(a, b),
    ensures
        !lex_lt(b, a),
{
    if lex_lt(b, a) {
        lemma_lex_transitive(a, b, a);
        lemma_lex_irreflexive(a);
    }
}

/// Any two distinct sequences are ordered one way or the other.
pub proof fn lemma_lex_total(a: Seq<char>, b: Seq<char>)
    ensures
        a == b || lex_lt(a, b) || lex_lt(b, a),
    decreases a.len(),
{
    if a.len() == 0 {
        if b.len() == 0 {
            assert(a =~= b);
        } else {
            assert(a.take(0) =~= b.take(0));
            assert(splits_before(a, b, 0));
        }
    } else if b.len() == 0 {
        assert(a.take(0) =~= b.take(0));
        assert(splits_before(b, a, 0));
    } else if a[0] < b[0] {
        assert(a.take(0) =~= b.take(0));
        assert(splits_before(a, b, 0));
    } else if b[0] < a[0] {
        assert(a.take(0) =~= b.take(0));
        assert(splits_before(b, a, 0));
    } else {
        let a1 = a.drop_first();
        let b1 = b.drop_first();
        lemma_lex_total(a1, b1);
        if a1 == b1 {
            assert(a =~= seq![a[0]] + a1);
            assert(b =~= seq![b[0]] + b1);
        } else if lex_lt(a1, b1) {
            let i = choose|i: int| splits_before(a1, b1, i);
            assert(a.take(i + 1) =~= seq![a[0]] + a1.take(i));
            assert(b.take(i + 1) =~= seq![b[0]] + b1.take(i));
            assert(splits_before(a, b, i + 1));
        } else {
            let i = choose|i: int| splits_before(b1, a1, i);
            assert(a.take(i + 1) =~= seq![a[0]] + a1.take(i));
            assert(b.take(i + 1) =~= seq![b[0]] + b1.take(i));
            assert(splits_before(b, a, i + 1));
        }
    }
}

/// In a strictly ascending list no element occurs twice.
pub proof fn lemma_ascending_distinct(s: Seq<Seq<char>>)
    requires
        strictly_ascending(s),
    ensures
        s.no_duplicates(),
{
    assert forall|i: int, j: int| 0 <= i < s.len() && 0 <= j < s.len() && i != j implies s[i]
        != s[j] by {
        lemma_lex_irreflexive(s[i]);
        if i < j {
            assert(lex_lt(s[i], s[j]));
        } else {
            assert(lex_lt(s[j], s[i]));
        }
    }
}

/// How one character sequence stands to another in lexicographic order.
#[derive(Clone, Copy, Debug, PartialEq, Eq)]
pub enum Precedence {
    Before,
    Same,
    After,
}

/// Compares two strings character by character.
pub fn compare(a: &str, b: &str) -> (r: Precedence)
    ensures
        r is Before <==> lex_lt(a@, b@),
        r is Same <==> a@ == b@,
        r is After <==> lex_lt(b@, a@),
{
    let mut rest_a = a.chars();
    let mut rest_b = b.chars();
    let ghost mut i: int = 0;
    loop
        invariant
            0 <= i <= a@.len(),
            i <= b@.len(),
            rest_a.remaining() == a@.skip(i),
            rest_b.remaining() == b@.skip(i),
            a@.take(i) == b@.take(i),
        decreases a@.len() - i,
    {
        let next_a = rest_a.next();
        let next_b = rest_b.next();
        match (next_a, next_b) {
            (None, None) => {
                proof {
                    assert(a@.take(i) =~= a@);
                    assert(b@.take(i) =~= b@);
                    lemma_lex_irreflexive(a@);
                }
                return Precedence::Same;
            },
            (None, Some(_)) => {
                proof {
                    assert(splits_before(a@, b@, i));
                    lemma_lex_asymmetric(a@, b@);
                    lemma_lex_irreflexive(a@);
                }
                return Precedence::Before;
            },
            (Some(_), None) => {
                proof {
                    assert(splits_before(b@, a@, i));
                    lemma_lex_asymmetric(b@, a@);
                    lemma_lex_irreflexive(a@);
                }
                return Precedence::After;
            },
            (Some(x), Some(y)) => {
                if x < y {
                    proof {
                        assert(splits_before(a@, b@, i));
                        lemma_lex_asymmetric(a@, b@);
                        lemma_lex_irreflexive(a@);
                    }
                    return Precedence::Before;
                }
                if y < x {
                    proof {
                        assert(splits_before(b@, a@, i));
                        lemma_lex_asymmetric(b@, a@);
                        lemma_lex_irreflexive(a@);
                    }
                    return Precedence::After;
                }
                proof {
                    assert(a@.take(i + 1) =~= a@.take(i).push(a@[i]));
                    assert(b@.take(i + 1) =~= b@.take(i).push(b@[i]));
                    assert(a@.skip(i).drop_first() =~= a@.skip(i + 1));
                    assert(b@.skip(i).drop_first() =~= b@.skip(i + 1));
                    i = i + 1;
                }
            },
        }
    }
}

/// Binary search in a strictly ascending list of strings: `Ok` with the index
/// of the element that reads `key`, or `Err` with the index at which `key`
/// would have to be inserted to keep the list ascending.
pub fn search(list: &Vec<String>, key: &str) -> (r: Result<usize, usize>)
    requires
        strictly_ascending(list.deep_view()),
    ensures
        r is Ok <==> list.deep_view().contains(key@),
        match r {
            Ok(i) => i < list.len() && list.deep_view()[i as int] == key@,
            Err(i) => {
                &&& i <= list.len()
                &&& forall|j: int| 0 <= j < i ==> lex_lt(#[trigger] list.deep_view()[j], key@)
                &&& forall|j: int|
                    i <= j < list.len() ==> lex_lt(key@, #[trigger] list.deep_view()[j])
            },
        },
{
    let ghost texts = list.deep_view();
    proof {
        lemma_lex_irreflexive(key@);
    }
    let mut lo: usize = 0;
    let mut hi: usize = list.len();
    while lo < hi
        invariant
            texts == list.deep_view(),
            strictly_ascending(texts),
            0 <= lo <= hi <= list.len(),
            forall|j: int| 0 <= j < lo ==> lex_lt(#[trigger] texts[j], key@),
            forall|j: int| hi <= j < list.len() ==> lex_lt(key@, #[trigger] texts[j]),
        decreases hi - lo,
    {
        let mid: usize = lo + (hi - lo) / 2;
        assert(texts[mid as int] == list[mid as int]@);
        match compare(list[mid].as_str(), key) {
            Precedence::Same => {
                assert(texts.contains(texts[mid as int]));
                return Ok(mid);
            },
            Precedence::Before => {
                assert forall|j: int| 0 <= j < mid + 1 implies lex_lt(#[trigger] texts[j], key@) by {
                    if j < mid {
                        lemma_lex_transitive(texts[j], texts[mid as int], key@);
                    }
                }
                lo = mid + 1;
            },
            Precedence::After => {
                assert forall|j: int| mid <= j < list.len() implies lex_lt(
                    key@,
                    #[trigger] texts[j],
                ) by {
                    if mid < j {
                        lemma_lex_transitive(key@, texts[mid as int], texts[j]);
                    }
                }
                hi = mid;
            },
        }
    }
    assert(!texts.contains(key@)) by {
        if texts.contains(key@) {
            let j = texts.index_of(key@);
            assert(texts[j] == key@);
        }
    }
    Err(lo)
}

} // verus!
