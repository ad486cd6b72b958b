use gasm::graph::Graph;

#[test]
fn test_add_node_to_empty_graph() {
    let mut graph = Graph::new(3);
    graph.add_nodes_from_kplus1_mer(&String::from("ATGG"));
    assert_eq!(graph.node_count(), 2);
    let result = graph.neighbours("ATG");
    assert_eq!(result.as_ref().unwrap().len(), 1);
    assert!(result.unwrap().contains(&String::from("TGG")));
}

#[test]
fn test_add_existing_kplus1_mer_to_graph_does_nothing() {
    let mut graph = Graph::new(3);
    graph.add_nodes_from_kplus1_mer("ATGC");
    assert_eq!(graph.nodes(), vec![String::from("ATG"), String::from("TGC")]);
    assert_eq!(graph.neighbours("ATG"), Some(vec![String::from("TGC")]));
    assert_eq!(graph.neighbours("TGC"), Some(vec![]));
    graph.add_nodes_from_kplus1_mer(&String::from("ATGC"));
    assert_eq!(graph.node_count(), 2);
}

#[test]
fn test_add_kplus1_mer_to_graph_with_existing_node() {
    let mut graph = Graph::new(3);
    graph.add_nodes_from_kplus1_mer("ATGC");
    graph.add_nodes_from_kplus1_mer(&String::from("ATGA"));
    assert_eq!(graph.node_count(), 3);
    let result = graph.neighbours("ATG");
    assert_eq!(result.as_ref().unwrap().len(), 2);
    assert!(result.as_ref().unwrap().contains(&String::from("TGC")));
    assert!(result.as_ref().unwrap().contains(&String::from("TGA")));
}

#[test]
fn new_graph_is_empty() {
    let graph = Graph::new(3);
    assert_eq!(graph.kmer_size(), 3);
    assert_eq!(graph.node_count(), 0);
    assert!(graph.nodes().is_empty());
    assert!(!graph.contains_node("ATG"));
    assert_eq!(graph.neighbours("ATG"), None);
    assert!(!graph.has_edge("ATG", "TGG"));
}

#[test]
fn added_window_gives_both_nodes_and_the_edge() {
    let mut graph = Graph::new(4);
    graph.add_nodes_from_kplus1_mer("GATTA");
    assert!(graph.contains_node("GATT"));
    assert!(graph.contains_node("ATTA"));
    assert!(graph.has_edge("GATT", "ATTA"));
    assert!(!graph.has_edge("ATTA", "GATT"));
    assert_eq!(graph.neighbours("ATTA"), Some(vec![]));
}

#[test]
fn adding_a_window_twice_changes_nothing() {
    let mut once = Graph::new(3);
    once.add_nodes_from_kplus1_mer("ATGC");
    once.add_nodes_from_kplus1_mer("TGCA");
    let mut twice = Graph::new(3);
    twice.add_nodes_from_kplus1_mer("ATGC");
    twice.add_nodes_from_kplus1_mer("TGCA");
    twice.add_nodes_from_kplus1_mer("ATGC");
    twice.add_nodes_from_kplus1_mer("TGCA");
    assert_eq!(once.nodes(), twice.nodes());
    for node in once.nodes() {
        assert_eq!(once.neighbours(&node), twice.neighbours(&node));
    }
}

#[test]
fn nodes_and_neighbours_come_in_ascending_order() {
    let mut graph = Graph::new(2);
    for window in ["TGT", "TGC", "TGA", "GTG", "CTG", "ATG"] {
        graph.add_nodes_from_kplus1_mer(window);
    }
    assert_eq!(
        graph.nodes(),
        vec!["AT", "CT", "GA", "GC", "GT", "TG"]
            .into_iter()
            .map(String::from)
            .collect::<Vec<String>>()
    );
    assert_eq!(
        graph.neighbours("TG"),
        Some(vec![String::from("GA"), String::from("GC"), String::from("GT")])
    );
}

#[test]
fn window_with_equal_halves_gives_a_loop() {
    let mut graph = Graph::new(3);
    graph.add_nodes_from_kplus1_mer("AAAA");
    assert_eq!(graph.node_count(), 1);
    assert!(graph.has_edge("AAA", "AAA"));
}

#[test]
fn graph_of_one_read_holds_both_strands() {
    let mut graph = Graph::new(3);
    let reads = vec![String::from("ATGCA")];
    graph.add_kplus1_mers_from_sequences(&reads, 4, 5);
    // windows of the read: ATGC, TGCA; of its reverse complement TGCAT: TGCA, GCAT
    assert_eq!(
        graph.nodes(),
        vec![
            String::from("ATG"),
            String::from("CAT"),
            String::from("GCA"),
            String::from("TGC")
        ]
    );
    assert!(graph.has_edge("ATG", "TGC"));
    assert!(graph.has_edge("TGC", "GCA"));
    assert!(graph.has_edge("GCA", "CAT"));
    assert_eq!(graph.neighbours("CAT"), Some(vec![]));
}

#[test]
fn graph_of_reads_at_full_window_has_one_window_per_strand() {
    let mut graph = Graph::new(4);
    let reads = vec![String::from("AACCG")];
    graph.add_kplus1_mers_from_sequences(&reads, 5, 5);
    // the read AACCG and its reverse complement CGGTT
    assert_eq!(
        graph.nodes(),
        vec![
            String::from("AACC"),
            String::from("ACCG"),
            String::from("CGGT"),
            String::from("GGTT")
        ]
    );
    assert!(graph.has_edge("AACC", "ACCG"));
    assert!(graph.has_edge("CGGT", "GGTT"));
}
