use gasm::cycles::extract_cycle;
use gasm::graph::Graph;

fn graph_of(k: usize, windows: &[&str]) -> Graph {
    let mut graph = Graph::new(k);
    for window in windows {
        graph.add_nodes_from_kplus1_mer(window);
    }
    graph
}

fn strings(items: &[&str]) -> Vec<String> {
    items.iter().map(|s| String::from(*s)).collect()
}

#[test]
fn test_no_directed_cycle() {
    let mut graph = graph_of(3, &["ATGC"]);
    assert_eq!(0, graph.get_cyclic_superstrings().len());
}

#[test]
fn test_single_directed_cycle() {
    let mut graph = graph_of(3, &["ATGA", "TGAT", "GATG"]);
    assert_eq!(vec![String::from("ATGAT")], graph.get_cyclic_superstrings());
}

#[test]
fn test_single_directed_cycle_with_empty_branchout() {
    let mut graph = graph_of(3, &["ATGA", "TGAT", "TGAC", "GATG"]);
    assert_eq!(graph.neighbours("GAC"), Some(vec![]));
    assert_eq!(vec![String::from("ATGAT")], graph.get_cyclic_superstrings());
}

#[test]
fn test_two_directed_cycles() {
    let mut graph = graph_of(3, &["ATGA", "TGAT", "GATG", "TAAA", "AAAT", "AATA", "ATAA"]);
    assert_eq!(
        vec![String::from("AAATAA"), String::from("ATGAT")],
        graph.get_cyclic_superstrings()
    );
}

#[test]
fn test_two_directed_cycles_with_one_shared_node() {
    let mut graph = graph_of(3, &["ATGA", "ATGC", "TGAT", "GATG", "TGCA", "GCAT", "CATG"]);
    assert_eq!(
        graph.neighbours("ATG"),
        Some(vec![String::from("TGA"), String::from("TGC")])
    );
    assert_eq!(
        vec![String::from("ATGCAT"), String::from("GATGA")],
        graph.get_cyclic_superstrings()
    );
}

#[test]
fn shared_node_after_one_cycle_leaves_that_cycle_unread() {
    // CC leads to CA and CG; the walks from AC and CA run into CC twice
    let mut graph = graph_of(2, &["CCA", "CAC", "ACC", "CCG", "CGC", "GCC"]);
    assert_eq!(strings(&["CCGC"]), graph.get_cyclic_superstrings());
    assert!(graph.has_edge("CC", "CA"));
    assert!(!graph.has_edge("CC", "CG"));
}

#[test]
fn extraction_prunes_the_edges_of_each_cycle() {
    let mut graph = graph_of(3, &["ATGA", "TGAT", "TGAC", "GATG"]);
    graph.get_cyclic_superstrings();
    assert_eq!(graph.node_count(), 4);
    assert_eq!(graph.neighbours("ATG"), Some(vec![]));
    assert_eq!(graph.neighbours("GAT"), Some(vec![]));
    assert_eq!(graph.neighbours("TGA"), Some(strings(&["GAC"])));
    assert!(graph.get_cyclic_superstrings().is_empty());
}

#[test]
fn single_cycle_gives_one_superstring_of_n_plus_k_minus_one() {
    // five nodes of four characters
    let mut graph = graph_of(4, &["ACGTA", "CGTAA", "GTAAC", "TAACG", "AACGT"]);
    let mut found = graph.get_cyclic_superstrings();
    assert_eq!(found, strings(&["AACGTAAC"]));
    assert_eq!(found[0].len(), 5 + 4 - 1);
    graph.shave_cyclic_superstrings(&mut found, 4);
    assert_eq!(found, strings(&["CGTAAC"]));
    assert_eq!(found[0].len(), 5 + 1);
}

#[test]
fn loop_on_one_node_gives_the_node() {
    let mut graph = graph_of(3, &["AAAA"]);
    assert_eq!(strings(&["AAA"]), graph.get_cyclic_superstrings());
    assert!(!graph.has_edge("AAA", "AAA"));
}

#[test]
fn empty_graph_gives_nothing() {
    let mut graph = Graph::new(3);
    assert!(graph.get_cyclic_superstrings().is_empty());
}

#[test]
fn closed_walk_holds_the_focal_node_at_both_ends() {
    let graph = graph_of(3, &["ATGA", "TGAT", "GATG", "ATGC"]);
    assert_eq!(
        graph.closed_walk("GAT"),
        Some(strings(&["GAT", "ATG", "TGA", "GAT"]))
    );
    assert_eq!(graph.closed_walk("TGC"), None);
    assert_eq!(graph.closed_walk("CCC"), None);
}

#[test]
fn walk_into_a_passed_node_gives_none() {
    // from ACG the walk reaches the cycle CGT, GTC, TCG and never comes back
    let graph = graph_of(3, &["ACGT", "CGTC", "GTCG", "TCGT"]);
    assert_eq!(graph.closed_walk("ACG"), None);
    assert_eq!(
        graph.closed_walk("CGT"),
        Some(strings(&["CGT", "GTC", "TCG", "CGT"]))
    );
}

#[test]
fn extract_cycle_takes_first_node_and_last_characters() {
    assert_eq!(extract_cycle(&strings(&["ATG", "TGA", "GAT", "ATG"])), "ATGAT");
    assert_eq!(extract_cycle(&strings(&["ATG"])), "ATG");
    assert_eq!(extract_cycle(&strings(&["AAA", "AAA"])), "AAA");
}

#[test]
fn prune_removes_the_edges_along_the_path() {
    let mut graph = graph_of(3, &["ATGA", "TGAT", "GATG", "ATGC"]);
    graph.prune(&strings(&["ATG", "TGA", "GAT"]));
    assert!(!graph.has_edge("ATG", "TGA"));
    assert!(!graph.has_edge("TGA", "GAT"));
    assert!(graph.has_edge("GAT", "ATG"));
    assert!(graph.has_edge("ATG", "TGC"));
    assert_eq!(graph.node_count(), 4);
    graph.prune(&strings(&[]));
    graph.prune(&strings(&["CCC", "ATG"]));
    graph.prune(&strings(&["GAT", "TGC"]));
    assert!(graph.has_edge("GAT", "ATG"));
}

#[test]
fn superstring_reads_the_nodes_of_its_walk_back() {
    let graph = graph_of(4, &["ACGTA", "CGTAA", "GTAAC", "TAACG", "AACGT"]);
    let walk = graph.closed_walk("AACG").unwrap();
    let text = extract_cycle(&walk);
    assert_eq!(text.len(), 4 + walk.len() - 2);
    for (i, node) in walk.iter().take(walk.len() - 1).enumerate() {
        assert_eq!(&text[i..i + 4], node);
    }
}

#[test]
fn superstrings_begin_with_their_focal_nodes_in_ascending_order() {
    let mut graph = graph_of(3, &["ATGA", "TGAT", "GATG", "TAAA", "AAAT", "AATA", "ATAA"]);
    let nodes = graph.nodes();
    let found = graph.get_cyclic_superstrings();
    let starts: Vec<&str> = found.iter().map(|s| &s[..3]).collect();
    assert_eq!(starts, vec!["AAA", "ATG"]);
    assert!(starts.iter().all(|s| nodes.contains(&String::from(*s))));
}

#[test]
fn extraction_keeps_the_nodes_and_adds_no_edge() {
    let windows = ["ATGA", "ATGC", "TGAT", "GATG", "TGCA", "GCAT", "CATG"];
    let before = graph_of(3, &windows);
    let mut after = graph_of(3, &windows);
    after.get_cyclic_superstrings();
    assert_eq!(before.nodes(), after.nodes());
    for from in after.nodes() {
        for to in after.neighbours(&from).unwrap() {
            assert!(before.has_edge(&from, &to));
        }
    }
}
