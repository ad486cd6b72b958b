use gasm::rotation::is_cyclic_permutation;

#[test]
fn test_cyclic_permutations() {
    assert!(is_cyclic_permutation(
        &String::from("TTACA"),
        &String::from("ACATT")
    ));
    assert!(!is_cyclic_permutation(
        &String::from("TTAA"),
        &String::from("TTTT")
    ));
}

#[test]
fn a_string_is_a_rotation_of_itself() {
    assert!(is_cyclic_permutation("ACATT", "ACATT"));
    assert!(is_cyclic_permutation("", ""));
}

#[test]
fn every_rotation_is_found() {
    for query in ["ACATT", "CATTA", "ATTAC", "TTACA", "TACAT"] {
        assert!(is_cyclic_permutation(query, "ACATT"));
    }
    assert!(!is_cyclic_permutation("ACTAT", "ACATT"));
}

#[test]
fn query_longer_than_the_doubled_target_is_none() {
    assert!(!is_cyclic_permutation("ACGTACGTA", "ACGT"));
    assert!(!is_cyclic_permutation("A", ""));
}

#[test]
fn query_is_sought_in_the_doubled_target() {
    // ACAC holds ACA and CAC; a shorter part counts too
    assert!(is_cyclic_permutation("ACA", "AC"));
    assert!(is_cyclic_permutation("CA", "ACATT"));
    assert!(is_cyclic_permutation("", "ACGT"));
    assert!(!is_cyclic_permutation("ACC", "AC"));
}
