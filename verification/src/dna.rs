//! The DNA alphabet and the reverse complement of a strand.

use vstd::prelude::*;
use vstd::string::*;

verus! {

/// One of the four bases, in upper case.
pub open spec fn is_upper_base(c: char) -> bool {
    c == 'A' || c == 'C' || c == 'G' || c == 'T'
}

/// One of the four bases, in either case.
pub open spec fn is_base(c: char) -> bool {
    is_upper_base(c) || c == 'a' || c == 'c' || c == 'g' || c == 't'
}

/// A strand: every character is a base, in either case.
pub open spec fn is_dna(s: Seq<char>) -> bool {
    forall|i: int| 0 <= i < s.len() ==> is_base(#[trigger] s[i])
}

/// A strand written in upper case only.
pub open spec fn is_upper_dna(s: Seq<char>) -> bool {
    forall|i: int| 0 <= i < s.len() ==> is_upper_base(#[trigger] s[i])
}

/// The base that pairs with `c`, in upper case: A with T, C with G.
pub open spec fn complement(c: char) -> char {
    if c == 'A' || c == 'a' {
        'T'
    } else if c == 'C' || c == 'c' {
        'G'
    } else if c == 'G' || c == 'g' {
        'C'
    } else {
        'A'
    }
}

/// The reverse complement: the complements of the bases of `s`, last base first.
pub open spec fn spec_revcomp(s: Seq<char>) -> Seq<char> {
    Seq::new(s.len(), |i: int| complement(s[s.len() - 1 - i]))
}

/// The characters of a string, in order.
pub fn to_chars(s: &str) -> (chars: Vec<char>)
    ensures
        chars@ == s@,
{
    let mut chars: Vec<char> = Vec::new();
    for c in it: s.chars()
        invariant
            it.seq() == s@,
            chars@ == it.seq().take(it.index() as int),
    {
        chars.push(c);
    }
    chars
}

/// Whether every character of `s` is one of A, C, G, T in either case.
pub fn is_dna_sequence(s: &str) -> (r: bool)
    ensures
        r == is_dna(s@),
{
    for c in it: s.chars()
        invariant
            it.seq() == s@,
            is_dna(it.seq().take(it.index() as int)),
    {
        let known = c == 'A' || c == 'C' || c == 'G' || c == 'T' || c == 'a' || c == 'c' || c == 'g'
            || c == 't';
        if !known {
            return false;
        }
        proof {
            let done = it.index() as int;
            assert(s@.take(done + 1) =~= s@.take(done).push(c));
        }
    }
    assert(s@.take(s@.len() as int) =~= s@);
    true
}

/// The complement of one base, as a string of one character.
fn complement_of(c: char) -> (r: &'static str)
    requires
        is_base(c),
    ensures
        r@ == seq![complement(c)],
{
    proof {
        reveal_strlit("A");
        reveal_strlit("C");
        reveal_strlit("G");
        reveal_strlit("T");
    }
    let r = if c == 'A' || c == 'a' {
        "T"
    } else if c == 'C' || c == 'c' {
        "G"
    } else if c == 'G' || c == 'g' {
        "C"
    } else {
        "A"
    };
    assert(r@ =~= seq![complement(c)]);
    r
}

/// The reverse complement of a strand, in upper case.
pub fn revcomp(input_string: &str) -> (result: String)
    requires
        is_dna(input_string@),
    ensures
        result@ == spec_revcomp(input_string@),
{
    let bases = to_chars(input_string);
    let mut result = String::new();
    let mut i: usize = bases.len();
    while i > 0
        invariant
            i <= bases.len(),
            bases@ == input_string@,
            is_dna(bases@),
            result@ == spec_revcomp(bases@).take(bases.len() - i),
        decreases i,
    {
        i -= 1;
        let base = bases[i];
        result.append(complement_of(base));
        assert(result@ =~= spec_revcomp(bases@).take(bases.len() - i));
    }
    assert(result@ =~= spec_revcomp(bases@));
    result
}

/// Taking the reverse complement twice gives the strand back, for a strand
/// written in upper case.
pub proof fn lemma_revcomp_involution(s: Seq<char>)
    requires
        is_upper_dna(s),
    ensures
        spec_revcomp(spec_revcomp(s)) == s,
{
    assert(spec_revcomp(spec_revcomp(s)) =~= s);
}

/// The reverse complement of a strand is a strand of the same length, in
/// upper case.
pub proof fn lemma_revcomp_is_dna(s: Seq<char>)
    ensures
        spec_revcomp(s).len() == s.len(),
        is_upper_dna(spec_revcomp(s)),
        is_dna(spec_revcomp(s)),
{
}

} // verus!
