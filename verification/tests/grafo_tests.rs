//! The simpler adjacency-set graph and its searches.

use uninformed_search::graph::Graph;
use uninformed_search::graph::Node;

#[test]
fn nodi_e_problema() {
    let n = Node::from_state(7);
    assert_eq!(n.get_state(), 7);
    assert_eq!(Node::new().get_state(), 0);
    let mut g = Graph::new();
    g.set_search_problem(Node::from_state(1), Node::from_state(2));
    let p = g.get_problem();
    assert_eq!(p.get_start().get_state(), 1);
    assert_eq!(p.get_end().get_state(), 2);
    assert!(p.is_goal(Node::from_state(2)));
    assert!(!p.is_goal(Node::from_state(1)));
}

#[test]
fn inserimento_archi_e_conteggio() {
    let mut g = Graph::new();
    g.insert_edge(0, 1);
    assert_eq!(g.edge_count, 1);
    // The same connection again adds nothing.
    g.insert_edge(0, 1);
    assert_eq!(g.edge_count, 1);
    g.insert_edge(1, 0);
    assert_eq!(g.edge_count, 1);
    // A self-loop never counts: its second insertion finds the first.
    g.insert_edge(2, 2);
    assert_eq!(g.edge_count, 1);
    g.insert_edge(1, 2);
    assert_eq!(g.edge_count, 2);
}

#[test]
fn caricamento_per_righe() {
    let mut g = Graph::new();
    g.load_dataset(&b"0 1\n1 2\nrumore\n1 2".to_vec());
    assert_eq!(g.edge_count, 2);
    assert_eq!(g.nodes.len(), 3);
}

#[test]
fn ricerche_di_raggiungibilita() {
    let mut g = Graph::new();
    g.load_dataset(&b"0 1\n1 2\n3 4".to_vec());
    g.set_search_problem(Node::from_state(0), Node::from_state(2));
    let trovato = g.breadth_first_search();
    assert_eq!(trovato.unwrap().get_state(), 2);
    let trovato2 = g.best_first_search();
    assert_eq!(trovato2.unwrap().get_state(), 2);
    g.set_search_problem(Node::from_state(0), Node::from_state(4));
    assert!(g.breadth_first_search().is_none());
    assert!(g.best_first_search().is_none());
    g.set_search_problem(Node::from_state(3), Node::from_state(3));
    assert_eq!(g.breadth_first_search().unwrap().get_state(), 3);
    assert_eq!(g.best_first_search().unwrap().get_state(), 3);
}

#[test]
fn strategie_non_implementate() {
    let mut g = Graph::new();
    g.insert_edge(0, 1);
    assert!(g.uniform_cost_search().is_none());
    assert!(g.depth_first_search().is_none());
    assert!(g.depth_limited_search().is_none());
    assert!(g.iterative_deepening_search().is_none());
    assert!(g.bi_directional_search().is_none());
    assert!(g.greedy_search().is_none());
    assert!(g.a_star_search().is_none());
}

#[test]
fn stima_della_dimensione() {
    let mut g = Graph::new();
    assert_eq!(g.estimate_dataset_size(), 0);
    g.insert_edge(0, 1);
    // Two present states, each with one neighbour: 2 * (28 + 28) bytes.
    assert_eq!(g.estimate_dataset_size(), 112);
}

#[test]
fn gz_anche_per_questo_grafo() {
    let testo = b"0 1\n1 2";
    let mut enc = flate2::write::GzEncoder::new(Vec::new(), flate2::Compression::default());
    std::io::Write::write_all(&mut enc, testo).unwrap();
    let compressi = enc.finish().unwrap();
    let g = Graph::from_gz_dataset(&compressi).unwrap();
    assert_eq!(g.edge_count, 2);
    assert!(Graph::from_gz_dataset(&b"\x1f\x8b male".to_vec()).is_none());
}
