use gasm::graph::Graph;

fn graph_of(k: usize, windows: &[&str]) -> Graph {
    let mut graph = Graph::new(k);
    for window in windows {
        graph.add_nodes_from_kplus1_mer(window);
    }
    graph
}

fn strings(items: &[&str]) -> Vec<String> {
    items.iter().map(|s| String::from(*s)).collect()
}

#[test]
fn depth_first_finds_nothing_without_a_cycle() {
    let graph = graph_of(3, &["ATGC"]);
    assert!(graph._get_cyclic_superstrings_2().is_empty());
    assert!(Graph::new(3)._get_cyclic_superstrings_2().is_empty());
}

#[test]
fn depth_first_reads_a_single_cycle() {
    let graph = graph_of(3, &["ATGA", "TGAT", "GATG"]);
    assert_eq!(graph._get_cyclic_superstrings_2(), strings(&["ATGAT"]));
    // the graph is left as it was
    assert!(graph.has_edge("ATG", "TGA"));
    assert!(graph.has_edge("TGA", "GAT"));
    assert!(graph.has_edge("GAT", "ATG"));
}

#[test]
fn depth_first_reads_two_cycles_apart() {
    let graph = graph_of(3, &["ATGA", "TGAT", "GATG", "TAAA", "AAAT", "AATA", "ATAA"]);
    assert_eq!(
        graph._get_cyclic_superstrings_2(),
        strings(&["AAATAA", "ATGAT"])
    );
}

#[test]
fn depth_first_reads_one_of_two_cycles_with_a_shared_node() {
    // from ATG the search goes round by TGC and records ATGCAT; it then
    // reads on by TGA and GAT, and comes back to ATG, which it has not
    // visited since the record
    let graph = graph_of(3, &["ATGA", "ATGC", "TGAT", "GATG", "TGCA", "GCAT", "CATG"]);
    assert_eq!(graph._get_cyclic_superstrings_2(), strings(&["ATGCAT"]));
}

#[test]
fn depth_first_passes_over_a_dead_end() {
    let graph = graph_of(3, &["ATGA", "TGAT", "TGAC", "GATG"]);
    assert_eq!(graph._get_cyclic_superstrings_2(), strings(&["ATGAT"]));
}

#[test]
fn depth_first_reads_a_loop() {
    let graph = graph_of(3, &["AAAA"]);
    assert_eq!(graph._get_cyclic_superstrings_2(), strings(&["AAA"]));
}
