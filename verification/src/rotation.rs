//! Whether one circular string is a rotation of another.

use crate::dna::to_chars;
use vstd::prelude::*;

verus! {

/// `query` stands in `text` from position `at` on.
pub open spec fn occurs_at(query: Seq<char>, text: Seq<char>, at: int) -> bool {
    0 <= at && at + query.len() <= text.len() && text.subrange(at, at + query.len()) == query
}

/// `query` is a contiguous part of `text`.
pub open spec fn is_substring(query: Seq<char>, text: Seq<char>) -> bool {
    exists|at: int| occurs_at(query, text, at)
}

/// `query` can be read off the circular string `target`: it is a contiguous
/// part of `target` written twice in a row.
pub open spec fn is_rotation(query: Seq<char>, target: Seq<char>) -> bool {
    is_substring(query, target + target)
}

/// Whether `query` stands in `text` from position `at` on.
fn matches_at(query: &Vec<char>, text: &Vec<char>, at: usize) -> (r: bool)
    requires
        at + query.len() <= text.len(),
    ensures
        r == occurs_at(query@, text@, at as int),
{
    let mut i: usize = 0;
    while i < query.len()
        invariant
            0 <= i <= query.len(),
            at + query.len() <= text.len(),
            text@.subrange(at as int, at + i) == query@.take(i as int),
        decreases query.len() - i,
    {
        if text[at + i] != query[i] {
            assert(text@.subrange(at as int, at + query.len())[i as int] == text@[at + i]);
            return false;
        }
        assert(text@.subrange(at as int, at + i + 1) =~= text@.subrange(at as int, at + i).push(
            text@[at + i],
        ));
        assert(query@.take(i + 1) =~= query@.take(i as int).push(query@[i as int]));
        i += 1;
    }
    assert(query@.take(query.len() as int) =~= query@);
    true
}

/// Whether `query_str` is a contiguous part of `target_str` written twice in
/// a row, which is what makes it a rotation of the circular string
/// `target_str`.
pub fn is_cyclic_permutation(query_str: &str, target_str: &str) -> (r: bool)
    ensures
        r == is_rotation(query_str@, target_str@),
{
    let query = to_chars(query_str);
    let target = to_chars(target_str);
    let mut doubled: Vec<char> = Vec::new();
    let mut round: usize = 0;
    while round < 2
        invariant
            0 <= round <= 2,
            target@ == target_str@,
            round == 0 ==> doubled@ == Seq::<char>::empty(),
            round == 1 ==> doubled@ == target@,
            round == 2 ==> doubled@ == target@ + target@,
        decreases 2 - round,
    {
        let ghost before = doubled@;
        let mut i: usize = 0;
        while i < target.len()
            invariant
                0 <= i <= target.len(),
                doubled@ == before + target@.take(i as int),
            decreases target.len() - i,
        {
            doubled.push(target[i]);
            assert(target@.take(i + 1) =~= target@.take(i as int).push(target@[i as int]));
            assert(doubled@ =~= before + target@.take(i + 1));
            i += 1;
        }
        assert(target@.take(target.len() as int) =~= target@);
        assert(before + target@ =~= doubled@);
        assert(Seq::<char>::empty() + target@ =~= target@);
        round += 1;
    }
    if query.len() > doubled.len() {
        assert forall|at: int| !occurs_at(query@, doubled@, at) by {}
        return false;
    }
    let last = doubled.len() - query.len();
    let mut at: usize = 0;
    loop
        invariant
            0 <= at <= last,
            last == doubled.len() - query.len(),
            query.len() <= doubled.len(),
            query@ == query_str@,
            doubled@ == target_str@ + target_str@,
            forall|b: int| 0 <= b < at ==> !occurs_at(query@, doubled@, b),
        decreases last - at,
    {
        if matches_at(&query, &doubled, at) {
            return true;
        }
        if at == last {
            assert forall|b: int| !occurs_at(query@, doubled@, b) by {}
            return false;
        }
        at += 1;
    }
}

} // verus!
