use gasm::assembly::{assemble, cyclic_superstrings_at, AssemblyError};

fn strings(items: &[&str]) -> Vec<String> {
    items.iter().map(|s| String::from(*s)).collect()
}

#[test]
fn no_reads_are_refused() {
    assert_eq!(assemble(&strings(&[])), Err(AssemblyError::NoReads));
}

#[test]
fn reads_of_unequal_length_are_refused() {
    assert_eq!(
        assemble(&strings(&["ACGT", "ACG"])),
        Err(AssemblyError::UnequalReadLengths)
    );
    assert_eq!(
        assemble(&strings(&["ACG", "ACXT"])),
        Err(AssemblyError::UnequalReadLengths)
    );
}

#[test]
fn reads_with_other_characters_are_refused() {
    assert_eq!(assemble(&strings(&["ACGT", "ACNT"])), Err(AssemblyError::NotDna));
    assert_eq!(assemble(&strings(&["AC-T"])), Err(AssemblyError::NotDna));
}

#[test]
fn superstrings_at_the_full_window() {
    // the six reads of five characters of the circular string AACCGT
    let reads = strings(&["AACCG", "ACCGT", "CCGTA", "CGTAA", "GTAAC", "TAACC"]);
    assert_eq!(
        cyclic_superstrings_at(&reads, 5, 5),
        strings(&["CGTAAC", "GTTACG"])
    );
    assert_eq!(
        cyclic_superstrings_at(&reads, 4, 5),
        strings(&["CCGTAA", "GGTTAC"])
    );
}

#[test]
fn sweep_adopts_the_first_superstring_of_the_largest_size() {
    let reads = strings(&["AACCG", "ACCGT", "CCGTA", "CGTAA", "GTAAC", "TAACC"]);
    let assembly = assemble(&reads).unwrap();
    assert_eq!(assembly.template, Some(String::from("CGTAAC")));
    let sizes: Vec<usize> = assembly.resolutions.iter().map(|r| r.k_size).collect();
    assert_eq!(sizes, vec![5, 4, 3]);
    assert_eq!(
        assembly.resolutions[0].superstrings,
        strings(&["CGTAAC", "GTTACG"])
    );
    assert!(assembly.resolutions[0].agrees);
    assert_eq!(
        assembly.resolutions[1].superstrings,
        strings(&["CCGTAA", "GGTTAC"])
    );
    assert!(assembly.resolutions[1].agrees);
    assert_eq!(
        assembly.resolutions[2].superstrings,
        strings(&["CGTTA", "CGGTAAC"])
    );
    assert!(!assembly.resolutions[2].agrees);
}

#[test]
fn sweep_without_a_resolving_size_has_no_template() {
    let reads = strings(&["ATGCA", "TGCAT", "GCATG", "CATGC"]);
    let assembly = assemble(&reads).unwrap();
    assert_eq!(assembly.template, None);
    assert!(assembly.resolutions.is_empty());
}

#[test]
fn reads_shorter_than_three_are_not_swept() {
    let assembly = assemble(&strings(&["AC", "GT"])).unwrap();
    assert_eq!(assembly.template, None);
    assert!(assembly.resolutions.is_empty());
    let assembly = assemble(&strings(&[""])).unwrap();
    assert_eq!(assembly.template, None);
}
