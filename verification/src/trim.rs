//! What is done to the superstrings after extraction: shaving and filtering.

use crate::graph::Graph;
use vstd::prelude::*;
use vstd::string::*;

verus! {

/// `s` without its first `k_size - 2` characters; nothing is left of a
/// string that is shorter than that.
pub open spec fn shaved(s: Seq<char>, k_size: nat) -> Seq<char> {
    if 2 <= k_size <= s.len() + 2 {
        s.skip(k_size - 2)
    } else {
        Seq::empty()
    }
}

/// Shaving by `k_size`, as a function of the string.
pub open spec fn shave_by(k_size: nat) -> spec_fn(Seq<char>) -> Seq<char> {
    |s: Seq<char>| shaved(s, k_size)
}

/// Whether a string has at least `min` characters, as a function of the string.
pub open spec fn at_least(min: nat) -> spec_fn(Seq<char>) -> bool {
    |s: Seq<char>| s.len() >= min
}

impl Graph {
    /// Drops the first `k_size - 2` characters of every superstring: the
    /// walk over k-mers has counted the overlap where the cycle closes twice.
    pub fn shave_cyclic_superstrings(
        &self,
        cyclic_superstrings: &mut Vec<String>,
        k_size: usize,
    )
        requires
            k_size >= 2,
        ensures
            final(cyclic_superstrings).deep_view() == old(cyclic_superstrings).deep_view().map_values(
                shave_by(k_size as nat),
            ),
    {
        let drop = k_size - 2;
        let mut i: usize = 0;
        while i < cyclic_superstrings.len()
            invariant
                drop == k_size - 2,
                0 <= i <= cyclic_superstrings.len(),
                cyclic_superstrings.len() == old(cyclic_superstrings).len(),
                forall|j: int|
                    0 <= j < i ==> (#[trigger] cyclic_superstrings[j])@ == shaved(
                        old(cyclic_superstrings)[j]@,
                        k_size as nat,
                    ),
                forall|j: int|
                    i <= j < cyclic_superstrings.len() ==> #[trigger] cyclic_superstrings[j]
                        == old(cyclic_superstrings)[j],
            decreases cyclic_superstrings.len() - i,
        {
            let whole = cyclic_superstrings[i].as_str();
            let size = whole.unicode_len();
            let new_string = if drop <= size {
                let kept = whole.substring_char(drop, size).to_owned();
                assert(kept@ =~= shaved(whole@, k_size as nat));
                kept
            } else {
                String::new()
            };
            cyclic_superstrings[i] = new_string;
            i += 1;
        }
        assert(cyclic_superstrings.deep_view() =~= old(cyclic_superstrings).deep_view().map_values(
            shave_by(k_size as nat),
        ));
    }

    /// The superstrings of at least `min_seq_size` characters, in their
    /// order: a circular template that is shorter than a read cannot hold it.
    pub fn filter_cyclic_superstrings(
        &self,
        cyclic_superstrings: &Vec<String>,
        min_seq_size: usize,
    ) -> (result: Vec<String>)
        ensures
            result.deep_view() == cyclic_superstrings.deep_view().filter(
                at_least(min_seq_size as nat),
            ),
    {
        let ghost all = cyclic_superstrings.deep_view();
        let ghost keep = at_least(min_seq_size as nat);
        let mut result: Vec<String> = Vec::new();
        let mut i: usize = 0;
        proof {
            reveal(Seq::filter);
            assert(all.take(0) =~= Seq::<Seq<char>>::empty());
            assert(result.deep_view() =~= all.take(0).filter(keep));
        }
        while i < cyclic_superstrings.len()
            invariant
                0 <= i <= cyclic_superstrings.len(),
                all == cyclic_superstrings.deep_view(),
                keep == at_least(min_seq_size as nat),
                result.deep_view() == all.take(i as int).filter(keep),
            decreases cyclic_superstrings.len() - i,
        {
            let ghost before = result.deep_view();
            proof {
                reveal(Seq::filter);
                assert(all.take(i + 1).drop_last() =~= all.take(i as int));
                assert(all.take(i + 1).last() == cyclic_superstrings[i as int]@);
            }
            if cyclic_superstrings[i].as_str().unicode_len() >= min_seq_size {
                let kept = cyclic_superstrings[i].clone();
                result.push(kept);
                assert(result.deep_view() =~= before.push(cyclic_superstrings[i as int]@));
            }
            i += 1;
        }
        assert(all.take(cyclic_superstrings.len() as int) =~= all);
        result
    }
}

} // verus!
