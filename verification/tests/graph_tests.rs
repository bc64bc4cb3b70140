use graph_creation::graph::{Graph, GraphError, NodeRegistry};

#[test]
fn registry_allocates_monotonically() {
    let mut reg = NodeRegistry::new();
    assert_eq!(reg.allocate(), 0);
    assert_eq!(reg.allocate(), 1);
    assert_eq!(reg.allocate(), 2);
}

#[test]
fn create_point_issues_fresh_consecutive_ids() {
    let mut g = Graph::new();
    assert_eq!(g.create_point(), 0);
    assert_eq!(g.create_point(), 1);
    assert_eq!(g.create_point(), 2);
    assert_eq!(g.num_points(), 3);
    assert_eq!(g.get_points(), vec![0, 1, 2]);
}

#[test]
fn create_relation_allows_multi_edges() {
    let mut g = Graph::new();
    let p1 = g.create_point();
    let p2 = g.create_point();
    g.create_relation(p1, p2).unwrap();
    g.create_relation(p1, p2).unwrap();
    assert_eq!(g.get_relations_of_point(p1), vec![p2, p2]);
    assert_eq!(g.out_degree(p1), 2);
    assert!(g.is_adjacent(p1, p2));
    assert!(!g.is_adjacent(p2, p1));
}

#[test]
fn create_relation_missing_node_leaves_graph_unchanged() {
    let mut g = Graph::new();
    let p1 = g.create_point();
    let before = g.get_points();
    assert_eq!(g.create_relation(p1, 7), Err(GraphError::MissingNode));
    assert_eq!(g.create_relation(7, p1), Err(GraphError::MissingNode));
    assert_eq!(g.get_points(), before);
    assert_eq!(g.get_relations_of_point(p1), Vec::<usize>::new());
    assert_eq!(g.out_degree(p1), 0);
}

#[test]
fn remove_relation_removes_one_occurrence() {
    let mut g = Graph::new();
    let p1 = g.create_point();
    let p2 = g.create_point();
    g.create_relation(p1, p2).unwrap();
    g.create_relation(p1, p2).unwrap();
    g.remove_relation(p1, p2);
    assert!(g.is_adjacent(p1, p2));
    assert_eq!(g.out_degree(p1), 1);
    g.remove_relation(p1, p2);
    assert!(!g.is_adjacent(p1, p2));
    assert_eq!(g.out_degree(p1), 0);
}

#[test]
fn remove_relation_is_a_no_op_when_absent() {
    let mut g = Graph::new();
    let p1 = g.create_point();
    let p2 = g.create_point();
    g.create_relation(p1, p2).unwrap();
    g.remove_relation(p2, p1);
    g.remove_relation(9, p1);
    g.remove_relation(p1, 9);
    assert_eq!(g.get_relations_of_point(p1), vec![p2]);
}

#[test]
fn remove_relation_removes_the_first_occurrence() {
    let mut g = Graph::new();
    let p1 = g.create_point();
    let p2 = g.create_point();
    let p3 = g.create_point();
    g.create_relation(p1, p2).unwrap();
    g.create_relation(p1, p3).unwrap();
    g.create_relation(p1, p2).unwrap();
    g.remove_relation(p1, p2);
    assert_eq!(g.get_relations_of_point(p1), vec![p3, p2]);
}

#[test]
fn queries_on_unknown_points_are_empty() {
    let g = Graph::new();
    assert_eq!(g.get_relations_of_point(3), Vec::<usize>::new());
    assert_eq!(g.out_degree(3), 0);
    assert!(!g.is_adjacent(3, 4));
    assert_eq!(g.get_points(), Vec::<usize>::new());
}
