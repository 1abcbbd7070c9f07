use cuckoo::adjacency::AdjacencyIndex;
use cuckoo::graph::{Graph, Node};
use cuckoo::search::search;
use cuckoo::sip::SipHash;

#[test]
fn hash_vectors() {
    assert_eq!(SipHash::new([0, 0, 0, 0]).hash(0), 0x3c4ceb5cc070daa0);
    assert_eq!(SipHash::new([1, 2, 3, 4]).hash(0), 0xb9197079e9d6636c);
    assert_eq!(SipHash::new([1, 2, 3, 4]).hash(7), 0x7da6c0d90e780883);
    let key = [
        0x0706050403020100,
        0x0f0e0d0c0b0a0908,
        0x1716151413121110,
        0x1f1e1d1c1b1a1918,
    ];
    assert_eq!(SipHash::new(key).hash(42), 0xf89af8e3c4e13436);
}

#[test]
fn hash_is_deterministic() {
    let a = SipHash::new([9, 8, 7, 6]);
    let b = SipHash::new([9, 8, 7, 6]);
    for w in 0..64u64 {
        assert_eq!(a.hash(w), a.hash(w));
        assert_eq!(a.hash(w), b.hash(w));
    }
}

#[test]
fn graph_edges_follow_the_hash() {
    let g = Graph::new([1, 2, 3, 4], 8);
    let expected = [(4, 0), (3, 0), (5, 2), (2, 3), (6, 2), (5, 1), (1, 2), (7, 4)];
    assert_eq!(g.edge_count(), 8);
    assert_eq!(g.node_count(), 16);
    for (i, (u, v)) in expected.iter().enumerate() {
        assert_eq!(g.edge_at(i), Some((Node::U(*u), Node::V(*v))));
    }
    assert_eq!(g.edge_at(8), None);
}

#[test]
fn graph_is_deterministic() {
    let a = Graph::new([5, 6, 7, 8], 1000);
    let b = Graph::new([5, 6, 7, 8], 1000);
    assert_eq!(a.edge_count(), 1000);
    for i in 0..1000 {
        assert_eq!(a.edge_at(i), b.edge_at(i));
        let (u, v) = a.edge_at(i).unwrap();
        match (u, v) {
            (Node::U(x), Node::V(y)) => assert!(x < 1000 && y < 1000),
            _ => panic!("edge does not join U to V"),
        }
    }
}

#[test]
fn empty_graph_has_no_cycle() {
    let g = Graph::new([1, 2, 3, 4], 0);
    assert_eq!(g.edge_count(), 0);
    assert_eq!(g.node_count(), 0);
    assert_eq!(g.solve(2), None);
    assert!(!g.verify(0, &[]));
}

#[test]
fn solve_finds_the_hexagon() {
    let g = Graph::from(vec![(0, 0), (1, 0), (1, 2), (3, 2), (3, 3), (0, 3), (5, 9)]);
    assert_eq!(g.solve(6), Some(vec![0, 1, 2, 3, 4, 5]));
    assert_eq!(g.solve(4), None);
    assert_eq!(g.solve(0), None);
}

#[test]
fn solve_skips_closed_walks_that_are_not_cycles() {
    // Two squares through U0: the only closed walks of length 8 pass U0
    // twice, and a square is there to be found.
    let g = Graph::from(vec![(0, 0), (1, 0), (1, 1), (0, 1), (0, 2), (2, 2), (2, 3), (0, 3)]);
    assert_eq!(g.solve(8), None);
    let c = g.solve(4).unwrap();
    assert!(g.verify(4, &c));
}

#[test]
fn solved_cycles_verify() {
    for seed in 0..20u64 {
        let g = Graph::new([seed, seed + 1, 2 * seed, 7], 64);
        for len in [2usize, 4, 6, 8] {
            if let Some(c) = g.solve(len) {
                assert_eq!(c.len(), len);
                assert!(c.windows(2).all(|w| w[0] < w[1]));
                assert!(g.verify(len, &c));
            }
        }
    }
}

#[test]
fn trimming_keeps_cycle_edges() {
    // A hexagon with a tail U3 - V9 - U5 - V8 hanging off it.
    let g = Graph::from(vec![(0, 0), (1, 0), (1, 2), (3, 2), (3, 3), (0, 3), (3, 9), (5, 9), (5, 8)]);
    let mut index = AdjacencyIndex::from_graph(&g);
    assert!((0..9).all(|e| index.is_live(e)));
    assert_eq!(index.degree(Node::U(3)), 3);
    index.trim(&g, 1);
    for e in 0..6 {
        assert!(index.is_live(e));
    }
    assert!(!index.is_live(8));
    index.trim(&g, 10);
    for e in 0..6 {
        assert!(index.is_live(e));
    }
    assert!(!index.is_live(6));
    assert!(!index.is_live(7));
    assert_eq!(index.degree(Node::U(3)), 2);
    assert_eq!(index.degree(Node::V(9)), 0);
    assert_eq!(search(&g, &index, 6), Some(vec![0, 1, 2, 3, 4, 5]));
}

#[test]
fn trimming_a_graph_without_cycles_empties_it() {
    let g = Graph::from(vec![(0, 0), (1, 0), (1, 1), (2, 1)]);
    let mut index = AdjacencyIndex::from_graph(&g);
    index.trim(&g, 0);
    assert!((0..4).all(|e| index.is_live(e)));
    index.trim(&g, 5);
    assert!((0..4).all(|e| !index.is_live(e)));
    assert_eq!(search(&g, &index, 4), None);
}

#[test]
fn solve_finds_a_two_cycle_of_parallel_edges() {
    let g = Graph::from(vec![(0, 0), (1, 1), (0, 0)]);
    assert_eq!(g.solve(2), Some(vec![0, 2]));
    assert!(g.verify(2, &[2, 0]));
}

#[test]
fn solve_agrees_with_a_known_cycle() {
    // A square hidden among pendant edges, listed out of order.
    let g = Graph::from(vec![(9, 9), (2, 5), (8, 1), (7, 5), (2, 6), (7, 6), (4, 4)]);
    assert!(g.verify(4, &[1, 3, 5, 4]));
    assert_eq!(g.solve(4), Some(vec![1, 3, 4, 5]));
    assert_eq!(g.solve(6), None);
}

#[test]
fn one_round_empties_a_short_path() {
    let g = Graph::from(vec![(0, 0), (1, 0)]);
    let mut index = AdjacencyIndex::from_graph(&g);
    index.trim(&g, 1);
    assert!(!index.is_live(0));
    assert!(!index.is_live(1));
}

#[test]
fn trimming_keeps_a_path_between_two_cycles() {
    // Two squares, on U0..U1/V0..V1 and on U2..U3/V2..V3, joined by the
    // edge U1 - V2: every node keeps degree two, so nothing goes.
    let g = Graph::from(vec![
        (0, 0), (1, 0), (1, 1), (0, 1),
        (2, 2), (3, 2), (3, 3), (2, 3),
        (1, 2),
    ]);
    let mut index = AdjacencyIndex::from_graph(&g);
    index.trim(&g, 20);
    assert!((0..9).all(|e| index.is_live(e)));
    assert_eq!(index.degree(Node::U(1)), 3);
}
