use unit_calc::algorithm::{bfs, find_first_shortest_path, find_paths_between};
use std::collections::HashMap;
use unit_calc::idgen::IDGenerator;
use unit_calc::registry::{Conversion, Unit};

/// 0 - 1 - 2 - 3, and 4 on its own.
fn line_graph() -> Vec<Vec<usize>> {
    vec![vec![1], vec![0, 2], vec![1, 3], vec![2], vec![]]
}

#[test]
fn bfs_distances_and_parents() {
    let (parent, distance) = bfs(&line_graph(), 1);
    assert_eq!(distance, vec![1, 0, 1, 2, usize::MAX]);
    assert_eq!(parent, vec![1, usize::MAX, 1, 2, usize::MAX]);
}

#[test]
fn first_reachable_end_is_taken() {
    let mut ends = vec![4, 3, 2];
    let path = find_first_shortest_path(&line_graph(), 0, &mut ends);
    assert_eq!(path, Some(vec![0, 1, 2, 3]));
    assert_eq!(ends, vec![4, 2]);
    let mut ends = vec![4];
    assert_eq!(find_first_shortest_path(&line_graph(), 0, &mut ends), None);
    assert_eq!(ends, vec![4]);
}

#[test]
fn matching_is_one_to_one() {
    let paths = find_paths_between(&vec![0, 3, 4], &vec![2, 2], &line_graph());
    assert_eq!(paths, vec![vec![0, 1, 2], vec![3, 2]]);
    let paths = find_paths_between(&vec![0, 1], &vec![3], &line_graph());
    assert_eq!(paths, vec![vec![0, 1, 2, 3]]);
}

#[test]
fn id_generator() {
    let mut gen = IDGenerator::new(5);
    assert_eq!(gen.max(), None);
    assert_eq!(gen.next(), 5);
    assert_eq!(gen.next(), 6);
    assert_eq!(gen.peek(), 7);
    assert_eq!(gen.max(), Some(6));
    gen.clear();
    assert_eq!(gen.peek(), 5);
    assert_eq!(gen.max(), None);
}

#[test]
fn unit_edges() {
    let mut gen = IDGenerator::new(0);
    let mut a: Unit<f64> = Unit::new("inch".to_string(), &mut gen);
    let b: Unit<f64> = Unit::new("foot".to_string(), &mut gen);
    assert_eq!((a.get_id(), b.get_id()), (0, 1));
    assert_eq!(a.get_name(), "inch");
    assert!(!a.contains_edge_to(1));
    a.push_edge(b.get_id(), Conversion::new(1.0, 12.0));
    assert!(a.contains_edge_to(1));
    assert_eq!(a.connected_ids(), vec![1]);
    let c = a.convert(1).unwrap();
    assert_eq!((c.numerator, c.denominator), (1.0, 12.0));
    assert!(a.convert(0).is_none());
    let mut graph = HashMap::new();
    a.insert_into(&mut graph);
    assert!(graph.contains_key(&0));
}
