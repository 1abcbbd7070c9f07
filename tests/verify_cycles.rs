use cuckoo::graph::{Graph, Node};

fn hexagon() -> Graph {
    Graph::from(vec![(0, 0), (1, 0), (1, 2), (3, 2), (3, 3), (0, 3)])
}

#[test]
fn verify_cycle() {
    let edges = vec![(0, 0), (1, 0), (1, 2), (3, 2), (3, 3), (0, 3)];
    let graph = Graph::from(edges);
    let cycle = [0, 1, 2, 3, 4, 5];
    assert!(graph.verify(6, &cycle));
}

#[test]
fn fail_verify_cycle() {
    let edges = vec![(0, 0), (0, 1), (1, 0), (1, 1), (6, 6), (6, 7), (7, 6), (7, 7)];
    let graph = Graph::from(edges);
    let cycle = [0, 1, 2, 3, 4, 5, 6, 7];
    assert!(!graph.verify(8, &cycle));
}

#[test]
fn it_works() {
    let result = 2 + 2;
    assert_eq!(result, 4);
}

#[test]
fn verify_accepts_any_order() {
    let g = hexagon();
    assert!(g.verify(6, &[5, 3, 1, 0, 2, 4]));
    assert!(g.verify(6, &[5, 4, 3, 2, 1, 0]));
}

#[test]
fn verify_rejects_length_mismatch() {
    let g = hexagon();
    assert!(!g.verify(4, &[0, 1, 2, 3, 4, 5]));
    assert!(!g.verify(8, &[0, 1, 2, 3, 4, 5]));
    assert!(!g.verify(6, &[0, 1, 2, 3, 4]));
}

#[test]
fn verify_rejects_repeated_position() {
    let g = hexagon();
    assert!(!g.verify(6, &[0, 1, 2, 3, 4, 4]));
    assert!(!g.verify(2, &[3, 3]));
}

#[test]
fn verify_rejects_position_out_of_range() {
    let g = hexagon();
    assert!(!g.verify(6, &[0, 1, 2, 3, 4, 6]));
    assert!(!g.verify(6, &[0, 1, 2, 3, 4, usize::MAX]));
}

#[test]
fn verify_rejects_loose_end() {
    let g = hexagon();
    assert!(!g.verify(4, &[0, 1, 2, 3]));
}

#[test]
fn verify_rejects_branching() {
    // U0 has three edges among the selected ones.
    let g = Graph::from(vec![(0, 0), (1, 0), (1, 1), (0, 1), (0, 2), (2, 2), (2, 0)]);
    assert!(g.verify(4, &[0, 1, 2, 3]));
    assert!(!g.verify(6, &[0, 1, 2, 3, 4, 5]));
}

#[test]
fn verify_rejects_two_disjoint_two_cycles() {
    let g = Graph::from(vec![(0, 0), (0, 0), (1, 1), (1, 1)]);
    assert!(g.verify(2, &[0, 1]));
    assert!(g.verify(2, &[2, 3]));
    assert!(!g.verify(4, &[0, 1, 2, 3]));
}

#[test]
fn verify_empty_candidate_is_false() {
    let g = hexagon();
    assert!(!g.verify(0, &[]));
    let empty = Graph::from_pairs(vec![]);
    assert!(!empty.verify(0, &[]));
    assert!(!empty.verify(1, &[0]));
}

#[test]
fn verify_keeps_partitions_apart() {
    // U1 and V1 share an index but are different nodes: no cycle here.
    let g = Graph::from(vec![(0, 1), (1, 0)]);
    assert!(!g.verify(2, &[0, 1]));
}

#[test]
fn node_pairs_are_turned_to_u_first() {
    let g = Graph::from(vec![
        (Node::U(0), Node::V(1)),
        (Node::V(2), Node::U(3)),
        (Node::U(4), Node::U(5)),
        (Node::V(6), Node::V(7)),
    ]);
    assert_eq!(g.edge_count(), 2);
    assert_eq!(g.edge_at(0), Some((Node::U(0), Node::V(1))));
    assert_eq!(g.edge_at(1), Some((Node::U(3), Node::V(2))));
    assert_eq!(g.edge_at(2), None);
}

#[test]
fn node_pairs_build_the_same_cycle() {
    let g = Graph::from(vec![
        (Node::U(0), Node::V(0)),
        (Node::V(0), Node::U(1)),
        (Node::U(1), Node::V(2)),
        (Node::V(2), Node::U(0)),
    ]);
    assert!(g.verify(4, &[0, 1, 2, 3]));
    assert_eq!(g.solve(4), Some(vec![0, 1, 2, 3]));
}

#[test]
fn node_pairs_flip_and_drop() {
    let g = Graph::from(vec![
        (Node::V(2), Node::U(1)),
        (Node::U(0), Node::U(1)),
        (Node::U(3), Node::V(4)),
    ]);
    assert_eq!(g.edge_count(), 2);
    assert_eq!(g.edge_at(0), Some((Node::U(1), Node::V(2))));
    assert_eq!(g.edge_at(1), Some((Node::U(3), Node::V(4))));
}
