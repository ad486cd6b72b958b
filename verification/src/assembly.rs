//! The sweep over window sizes that looks for a stable circular template.

use crate::dna::{is_dna, is_dna_sequence};
use crate::graph::Graph;
use crate::model::{extraction, read_windows, with_windows, Adjacency};
use crate::rotation::{is_cyclic_permutation, is_rotation, occurs_at};
use crate::trim::{at_least, shave_by};
use vstd::prelude::*;
use vstd::string::*;

verus! {

/// The graph of all windows of `k_size` characters of the reads and of their
/// reverse complements.
pub open spec fn graph_of_reads(reads: Seq<Seq<char>>, k_size: nat, read_len: nat) -> Adjacency {
    with_windows(Map::empty(), read_windows(reads, k_size, read_len))
}

/// The superstrings that are left at one window size: those extracted from
/// the graph of the reads, shaved, of which the ones at least as long as a
/// read are kept.
pub open spec fn candidates(reads: Seq<Seq<char>>, k_size: nat, read_len: nat) -> Seq<Seq<char>> {
    extraction(graph_of_reads(reads, k_size, read_len)).superstrings.map_values(
        shave_by(k_size),
    ).filter(at_least(read_len))
}

/// At this window size exactly two superstrings are left: the two strands of
/// one circular template.
pub open spec fn resolves(reads: Seq<Seq<char>>, k_size: nat, read_len: nat) -> bool {
    candidates(reads, k_size, read_len).len() == 2
}

/// The window sizes from `read_len` down to `low` that resolve, largest first.
pub open spec fn resolved_sizes(reads: Seq<Seq<char>>, read_len: nat, low: nat) -> Seq<nat>
    decreases read_len + 1 - low,
{
    if low > read_len {
        Seq::empty()
    } else {
        let above = resolved_sizes(reads, read_len, low + 1);
        if resolves(reads, low, read_len) {
            above.push(low)
        } else {
            above
        }
    }
}

/// The template that a list of resolving sizes stands for: the first
/// superstring of the first size.
pub open spec fn template_for(reads: Seq<Seq<char>>, read_len: nat, sizes: Seq<nat>) -> Option<
    Seq<char>,
> {
    if sizes.len() == 0 {
        None
    } else {
        Some(candidates(reads, sizes[0], read_len)[0])
    }
}

/// What a resolving window size found.
pub struct ResolutionModel {
    pub k_size: nat,
    pub superstrings: Seq<Seq<char>>,
    pub agrees: bool,
}

/// What the sweep found.
pub struct AssemblyModel {
    pub template: Option<Seq<char>>,
    pub resolutions: Seq<ResolutionModel>,
}

/// What the window size `k_size` found, held against the template: the two
/// superstrings, and whether one of them is a rotation of the template.
pub open spec fn resolution_at(
    reads: Seq<Seq<char>>,
    read_len: nat,
    template: Seq<char>,
    k_size: nat,
) -> ResolutionModel {
    let found = candidates(reads, k_size, read_len);
    ResolutionModel {
        k_size,
        superstrings: found,
        agrees: is_rotation(found[0], template) || is_rotation(found[1], template),
    }
}

/// The outcome of the sweep from the read length down to 3: the template is
/// the first superstring of the largest window size that resolves, and every
/// resolving size is listed, largest first.
pub open spec fn assembly_of(reads: Seq<Seq<char>>) -> AssemblyModel {
    let read_len = reads[0].len();
    let sizes = resolved_sizes(reads, read_len, 3);
    let template = template_for(reads, read_len, sizes);
    AssemblyModel {
        template,
        resolutions: Seq::new(
            sizes.len(),
            |i: int| resolution_at(reads, read_len, template.unwrap(), sizes[i]),
        ),
    }
}

/// A window size at which exactly two superstrings were left.
#[derive(Debug, PartialEq, Eq)]
pub struct Resolution {
    /// The window size.
    pub k_size: usize,
    /// The two superstrings, in the order of extraction.
    pub superstrings: Vec<String>,
    /// Whether one of the two is a rotation of the template.
    pub agrees: bool,
}

impl View for Resolution {
    type V = ResolutionModel;

    open spec fn view(&self) -> ResolutionModel {
        ResolutionModel {
            k_size: self.k_size as nat,
            superstrings: self.superstrings.deep_view(),
            agrees: self.agrees,
        }
    }
}

/// The outcome of a sweep over all window sizes.
#[derive(Debug, PartialEq, Eq)]
pub struct Assembly {
    /// The template, if any window size resolved.
    pub template: Option<String>,
    /// The window sizes that resolved, largest first.
    pub resolutions: Vec<Resolution>,
}

impl View for Assembly {
    type V = AssemblyModel;

    open spec fn view(&self) -> AssemblyModel {
        AssemblyModel {
            template: match self.template {
                Some(t) => Some(t@),
                None => None,
            },
            resolutions: Seq::new(self.resolutions.len() as nat, |i: int| self.resolutions[i]@),
        }
    }
}

/// Why a set of reads cannot be assembled.
#[derive(Debug, Clone, Copy, PartialEq, Eq)]
pub enum AssemblyError {
    /// There is no read.
    NoReads,
    /// Some read is longer or shorter than the first.
    UnequalReadLengths,
    /// Some read holds a character that is no base.
    NotDna,
}

/// All reads have `read_len` characters and hold bases only.
pub open spec fn reads_fit(reads: Seq<Seq<char>>, read_len: nat) -> bool {
    forall|r: int| 0 <= r < reads.len() ==> (#[trigger] reads[r]).len() == read_len && is_dna(reads[r])
}

/// The superstrings that are left at the window size `k_size`: a graph is
/// built from the reads, its superstrings are extracted and shaved, and
/// those at least as long as a read are kept.
pub fn cyclic_superstrings_at(sequences: &Vec<String>, k_size: usize, seq_size: usize) -> (found:
    Vec<String>)
    requires
        2 <= k_size <= seq_size,
        reads_fit(sequences.deep_view(), seq_size as nat),
    ensures
        found.deep_view() == candidates(sequences.deep_view(), k_size as nat, seq_size as nat),
{
    let mut graph = Graph::new(k_size - 1);
    assert forall|r: int| 0 <= r < sequences.len() implies (#[trigger] sequences[r])@.len()
        >= seq_size && is_dna(sequences[r]@) by {
        assert(sequences.deep_view()[r] == sequences[r]@);
    }
    graph.add_kplus1_mers_from_sequences(sequences, k_size, seq_size);
    let mut cyclic_superstrings = graph.get_cyclic_superstrings();
    graph.shave_cyclic_superstrings(&mut cyclic_superstrings, k_size);
    graph.filter_cyclic_superstrings(&cyclic_superstrings, seq_size)
}

/// Every string is a rotation of itself.
pub proof fn lemma_rotation_reflexive(s: Seq<char>)
    ensures
        is_rotation(s, s),
{
    assert((s + s).subrange(0, s.len() as int) =~= s);
    assert(occurs_at(s, s + s, 0));
}

/// Sweeps the window size from the length of the reads down to 3. At each
/// size the superstrings of the reads are extracted, shaved and filtered;
/// where exactly two are left, the size resolves. The first superstring of
/// the largest size that resolves is the template, and every later size that
/// resolves is held against it. All sizes are swept, whatever they find.
///
/// Reads that cannot be swept are refused: an empty set, reads of unequal
/// length, and reads that hold anything but bases.
pub fn assemble(sequences: &Vec<String>) -> (result: Result<Assembly, AssemblyError>)
    ensures
        match result {
            Ok(assembly) => {
                &&& sequences.len() > 0
                &&& reads_fit(sequences.deep_view(), sequences[0]@.len())
                &&& assembly@ == assembly_of(sequences.deep_view())
            },
            Err(AssemblyError::NoReads) => sequences.len() == 0,
            Err(AssemblyError::UnequalReadLengths) => {
                &&& sequences.len() > 0
                &&& exists|r: int|
                    0 <= r < sequences.len() && (#[trigger] sequences[r])@.len()
                        != sequences[0]@.len()
            },
            Err(AssemblyError::NotDna) => {
                &&& sequences.len() > 0
                &&& forall|r: int|
                    0 <= r < sequences.len() ==> (#[trigger] sequences[r])@.len()
                        == sequences[0]@.len()
                &&& exists|r: int| 0 <= r < sequences.len() && !is_dna((#[trigger] sequences[r])@)
            },
        },
{
    if sequences.len() == 0 {
        return Err(AssemblyError::NoReads);
    }
    let ghost reads = sequences.deep_view();
    let seq_size = sequences[0].as_str().unicode_len();
    let mut r: usize = 0;
    while r < sequences.len()
        invariant
            0 <= r <= sequences.len(),
            sequences.len() > 0,
            seq_size == sequences[0]@.len(),
            forall|i: int| 0 <= i < r ==> (#[trigger] sequences[i])@.len() == seq_size,
        decreases sequences.len() - r,
    {
        if sequences[r].as_str().unicode_len() != seq_size {
            return Err(AssemblyError::UnequalReadLengths);
        }
        r += 1;
    }
    let mut r: usize = 0;
    while r < sequences.len()
        invariant
            0 <= r <= sequences.len(),
            sequences.len() > 0,
            seq_size == sequences[0]@.len(),
            forall|i: int| 0 <= i < sequences.len() ==> (#[trigger] sequences[i])@.len() == seq_size,
            forall|i: int| 0 <= i < r ==> is_dna((#[trigger] sequences[i])@),
        decreases sequences.len() - r,
    {
        if !is_dna_sequence(sequences[r].as_str()) {
            return Err(AssemblyError::NotDna);
        }
        r += 1;
    }
    let ghost read_len = seq_size as nat;
    assert(reads_fit(reads, read_len)) by {
        assert forall|i: int| 0 <= i < reads.len() implies (#[trigger] reads[i]).len() == read_len
            && is_dna(reads[i]) by {
            assert(reads[i] == sequences[i]@);
        }
    }
    let mut template: Option<String> = None;
    let mut resolutions: Vec<Resolution> = Vec::new();
    let mut k_size: usize = seq_size;
    while k_size >= 3
        invariant
            reads == sequences.deep_view(),
            read_len == seq_size,
            reads_fit(reads, read_len),
            2 <= k_size <= seq_size || k_size == seq_size,
            match template {
                Some(t) => Some(t@),
                None => None,
            } == template_for(reads, read_len, resolved_sizes(reads, read_len, (k_size + 1) as nat)),
            resolutions.len() == resolved_sizes(reads, read_len, (k_size + 1) as nat).len(),
            forall|i: int|
                0 <= i < resolutions.len() ==> (#[trigger] resolutions[i])@ == resolution_at(
                    reads,
                    read_len,
                    template_for(
                        reads,
                        read_len,
                        resolved_sizes(reads, read_len, (k_size + 1) as nat),
                    ).unwrap(),
                    resolved_sizes(reads, read_len, (k_size + 1) as nat)[i],
                ),
        decreases k_size,
    {
        let ghost above = resolved_sizes(reads, read_len, (k_size + 1) as nat);
        let ghost here = resolved_sizes(reads, read_len, k_size as nat);
        let found = cyclic_superstrings_at(sequences, k_size, seq_size);
        if found.len() == 2 {
            assert(here == above.push(k_size as nat));
            let agrees = match &template {
                None => {
                    proof {
                        lemma_rotation_reflexive(found[0]@);
                        assert(found.deep_view()[0] == found[0]@);
                    }
                    template = Some(found[0].clone());
                    true
                },
                Some(adopted) => {
                    assert(found.deep_view()[0] == found[0]@);
                    assert(found.deep_view()[1] == found[1]@);
                    is_cyclic_permutation(found[0].as_str(), adopted.as_str())
                        || is_cyclic_permutation(found[1].as_str(), adopted.as_str())
                },
            };
            resolutions.push(Resolution { k_size, superstrings: found, agrees });
        } else {
            assert(here == above);
        }
        k_size -= 1;
    }
    let assembly = Assembly { template, resolutions };
    proof {
        let sizes = resolved_sizes(reads, read_len, 3);
        if k_size + 1 > 3 {
            // no window size was swept
            assert(resolved_sizes(reads, read_len, (k_size + 1) as nat) == sizes) by {
                lemma_no_sizes(reads, read_len, 3);
                lemma_no_sizes(reads, read_len, (k_size + 1) as nat);
            }
        }
        assert(assembly@.resolutions =~= assembly_of(reads).resolutions);
    }
    Ok(assembly)
}

/// Above the read length there is no window size.
proof fn lemma_no_sizes(reads: Seq<Seq<char>>, read_len: nat, low: nat)
    requires
        low > read_len,
    ensures
        resolved_sizes(reads, read_len, low) == Seq::<nat>::empty(),
{
}

} // verus!
