use gasm::graph::Graph;

fn strings(items: &[&str]) -> Vec<String> {
    items.iter().map(|s| String::from(*s)).collect()
}

#[test]
fn shave_drops_k_minus_two_characters() {
    let graph = Graph::new(3);
    let mut found = strings(&["ATGAT", "AAATAA"]);
    graph.shave_cyclic_superstrings(&mut found, 3);
    assert_eq!(found, strings(&["TGAT", "AATAA"]));
    graph.shave_cyclic_superstrings(&mut found, 2);
    assert_eq!(found, strings(&["TGAT", "AATAA"]));
    graph.shave_cyclic_superstrings(&mut found, 6);
    assert_eq!(found, strings(&["", "A"]));
}

#[test]
fn shave_leaves_nothing_of_a_short_string() {
    let graph = Graph::new(3);
    let mut found = strings(&["ACG", ""]);
    graph.shave_cyclic_superstrings(&mut found, 7);
    assert_eq!(found, strings(&["", ""]));
}

#[test]
fn filter_keeps_the_long_enough_in_order() {
    let graph = Graph::new(3);
    let found = strings(&["ACGT", "AC", "ACGTA", "", "TTTT"]);
    assert_eq!(
        graph.filter_cyclic_superstrings(&found, 4),
        strings(&["ACGT", "ACGTA", "TTTT"])
    );
    assert_eq!(graph.filter_cyclic_superstrings(&found, 0), found);
    assert!(graph.filter_cyclic_superstrings(&found, 6).is_empty());
    assert!(graph.filter_cyclic_superstrings(&strings(&[]), 1).is_empty());
}
