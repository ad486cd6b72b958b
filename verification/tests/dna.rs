use gasm::dna::{is_dna_sequence, revcomp, to_chars};

#[test]
fn test_revcomp() {
    let input_str = String::from("TGTAA");
    assert_eq!(revcomp(&input_str), String::from("TTACA"));
}

#[test]
fn revcomp_twice_gives_the_strand_back() {
    for strand in ["", "A", "ACGT", "TGTAA", "GGGCCCATATTA"] {
        assert_eq!(revcomp(&revcomp(strand)), String::from(strand));
    }
}

#[test]
fn revcomp_pairs_each_base() {
    assert_eq!(revcomp("A"), "T");
    assert_eq!(revcomp("C"), "G");
    assert_eq!(revcomp("G"), "C");
    assert_eq!(revcomp("T"), "A");
    assert_eq!(revcomp(""), "");
}

#[test]
fn revcomp_reads_lower_case_and_writes_upper_case() {
    assert_eq!(revcomp("tgtaa"), "TTACA");
    assert_eq!(revcomp("aCgT"), "ACGT");
    assert_eq!(revcomp(&revcomp("acc")), "ACC");
}

#[test]
fn dna_check_accepts_bases_only() {
    assert!(is_dna_sequence(""));
    assert!(is_dna_sequence("ACGTacgt"));
    assert!(!is_dna_sequence("ACGU"));
    assert!(!is_dna_sequence("ACG T"));
    assert!(!is_dna_sequence("N"));
}

#[test]
fn chars_of_a_string() {
    assert_eq!(to_chars("ACG"), vec!['A', 'C', 'G']);
    assert!(to_chars("").is_empty());
}
