use cycle_finder::Graph;

fn cycles_of(edges: &[(usize, usize)]) -> Vec<Vec<usize>> {
    Graph::from(edges.to_vec()).find_cycles()
}

fn composite() -> Vec<(usize, usize)> {
    vec![
        (1, 2),
        (2, 3),
        (3, 4),
        (4, 5),
        (5, 6),
        (6, 1),
        (3, 7),
        (7, 8),
        (8, 2),
        (9, 10),
        (10, 11),
        (11, 9),
    ]
}

/// The edges that a cycle walks, each as (source, destination). A cycle lists its
/// nodes against the direction of the edges: each node is followed by a predecessor.
fn edge_set(cycle: &[usize]) -> Vec<(usize, usize)> {
    let mut edges: Vec<(usize, usize)> = cycle.windows(2).map(|w| (w[1], w[0])).collect();
    edges.sort();
    edges.dedup();
    edges
}

fn node_set(cycle: &[usize]) -> Vec<usize> {
    let mut nodes = cycle.to_vec();
    nodes.sort();
    nodes.dedup();
    nodes
}

#[test]
fn empty_edge_list_has_no_cycles() {
    assert_eq!(cycles_of(&[]), Vec::<Vec<usize>>::new());
}

#[test]
fn acyclic_graph_has_no_cycles() {
    assert_eq!(cycles_of(&[(1, 2), (2, 3)]), Vec::<Vec<usize>>::new());
}

#[test]
fn back_reference_without_bridge_yields_nothing() {
    assert_eq!(cycles_of(&[(3, 1), (2, 1), (3, 2)]), Vec::<Vec<usize>>::new());
}

#[test]
fn single_simple_cycle() {
    let cycles = cycles_of(&[(1, 2), (2, 3), (3, 4), (4, 5), (5, 6), (6, 1)]);
    assert_eq!(cycles, vec![vec![1, 6, 5, 4, 3, 2, 1]]);
    assert_eq!(node_set(&cycles[0]), vec![1, 2, 3, 4, 5, 6]);
    assert_eq!(
        edge_set(&cycles[0]),
        vec![(1, 2), (2, 3), (3, 4), (4, 5), (5, 6), (6, 1)]
    );
}

#[test]
fn single_simple_cycle_in_any_edge_order() {
    let cycles = cycles_of(&[(4, 5), (6, 1), (2, 3), (1, 2), (5, 6), (3, 4)]);
    assert_eq!(cycles, vec![vec![1, 6, 5, 4, 3, 2, 1]]);
}

#[test]
fn disjoint_triangle() {
    let cycles = cycles_of(&[(9, 10), (10, 11), (11, 9)]);
    assert_eq!(cycles, vec![vec![9, 11, 10, 9]]);
    assert_eq!(node_set(&cycles[0]), vec![9, 10, 11]);
}

#[test]
fn disjoint_triangle_beside_another_component() {
    let cycles = cycles_of(&[(1, 2), (2, 3), (9, 10), (10, 11), (11, 9), (20, 21), (21, 20)]);
    assert_eq!(cycles, vec![vec![9, 11, 10, 9], vec![20, 21, 20]]);
    let triangles: Vec<&Vec<usize>> =
        cycles.iter().filter(|c| node_set(c) == vec![9, 10, 11]).collect();
    assert_eq!(triangles.len(), 1);
}

#[test]
fn self_loop() {
    assert_eq!(cycles_of(&[(7, 7)]), vec![vec![7, 7]]);
    assert_eq!(cycles_of(&[(0, 0)]), vec![vec![0, 0]]);
}

#[test]
fn self_loop_beside_an_edge() {
    assert_eq!(cycles_of(&[(1, 2), (2, 2)]), vec![vec![2, 2]]);
}

#[test]
fn two_node_cycle() {
    assert_eq!(cycles_of(&[(1, 2), (2, 1)]), vec![vec![1, 2, 1]]);
}

#[test]
fn parallel_edges_collapse() {
    assert_eq!(cycles_of(&[(1, 2), (1, 2), (2, 1), (2, 1)]), vec![vec![1, 2, 1]]);
}

#[test]
fn composite_example() {
    let cycles = Graph::from(composite()).find_cycles();
    assert_eq!(
        cycles,
        vec![
            vec![3, 2, 8, 7, 3],
            vec![1, 6, 5, 4, 3, 2, 1],
            vec![9, 11, 10, 9],
        ]
    );
    let mut edge_sets: Vec<Vec<(usize, usize)>> = cycles.iter().map(|c| edge_set(c)).collect();
    edge_sets.sort();
    assert_eq!(
        edge_sets,
        vec![
            vec![(1, 2), (2, 3), (3, 4), (4, 5), (5, 6), (6, 1)],
            vec![(2, 3), (3, 7), (7, 8), (8, 2)],
            vec![(9, 10), (10, 11), (11, 9)],
        ]
    );
}

#[test]
fn route_is_stitched_to_an_earlier_cycle() {
    let cycles = cycles_of(&[(1, 2), (2, 3), (3, 1), (2, 4), (4, 1)]);
    assert_eq!(cycles, vec![vec![1, 4, 2, 1], vec![1, 3, 2, 1]]);
}

#[test]
fn stitched_cycles_of_a_dense_graph() {
    let cycles = cycles_of(&[(1, 2), (2, 3), (3, 4), (4, 1), (2, 4), (3, 1)]);
    assert_eq!(
        cycles,
        vec![vec![1, 4, 3, 2, 1], vec![1, 4, 2, 1], vec![1, 3, 2, 1]]
    );
}

#[test]
fn cycle_that_misses_the_root() {
    let cycles = cycles_of(&[(1, 2), (2, 3), (3, 1), (3, 2)]);
    assert_eq!(cycles, vec![vec![3, 2, 3], vec![1, 3, 2, 1]]);
}

#[test]
fn every_cycle_is_closed() {
    let graphs: Vec<Vec<(usize, usize)>> = vec![
        composite(),
        vec![(5, 5)],
        vec![(1, 2), (2, 3), (3, 1), (2, 4), (4, 1)],
        vec![(1, 2), (2, 3), (3, 4), (4, 1), (2, 4), (3, 1)],
    ];
    for edges in graphs {
        let cycles = Graph::from(edges).find_cycles();
        assert!(!cycles.is_empty());
        for cycle in cycles {
            assert!(cycle.len() >= 2);
            assert_eq!(cycle.first(), cycle.last());
        }
    }
}

#[test]
fn every_cycle_walks_edges_of_the_graph() {
    let edges = vec![(1, 2), (2, 3), (3, 4), (4, 1), (2, 4), (3, 1)];
    let cycles = Graph::from(edges.clone()).find_cycles();
    for cycle in cycles {
        for pair in cycle.windows(2) {
            assert!(edges.contains(&(pair[1], pair[0])));
        }
    }
}

#[test]
fn repeated_calls_agree() {
    let graph = Graph::from(composite());
    let first = graph.find_cycles();
    let second = graph.find_cycles();
    assert_eq!(first, second);
    assert_eq!(first.len(), 3);
}

#[test]
fn edge_order_does_not_matter() {
    let mut reversed = composite();
    reversed.reverse();
    assert_eq!(
        Graph::from(reversed).find_cycles(),
        Graph::from(composite()).find_cycles()
    );
}

#[test]
fn every_self_loop_gives_its_cycle() {
    let cycles = cycles_of(&[(1, 2), (2, 3), (3, 1), (2, 2), (3, 3), (4, 4), (4, 1)]);
    assert!(cycles.contains(&vec![2, 2]));
    assert!(cycles.contains(&vec![3, 3]));
    assert!(cycles.contains(&vec![4, 4]));
    assert!(!cycles.contains(&vec![1, 1]));
}

#[test]
fn largest_ids_are_accepted() {
    let top = usize::MAX;
    assert_eq!(cycles_of(&[(top, 0), (0, top)]), vec![vec![0, top, 0]]);
}

#[test]
fn larger_predecessor_is_walked_first() {
    let cycles = cycles_of(&[(2, 1), (1, 2), (3, 1), (1, 3)]);
    assert_eq!(cycles, vec![vec![1, 3, 1], vec![1, 2, 1]]);
}

#[test]
fn triangle_is_found_from_any_start() {
    let relabelled = cycles_of(&[(10, 9), (9, 11), (11, 10)]);
    assert_eq!(relabelled, vec![vec![9, 10, 11, 9]]);

    let entered_at_ten = cycles_of(&[(9, 10), (10, 11), (11, 9), (10, 5)]);
    assert_eq!(entered_at_ten, vec![vec![10, 9, 11, 10]]);

    let with_tails = cycles_of(&[(9, 10), (10, 11), (11, 9), (1, 9), (11, 12)]);
    assert_eq!(with_tails, vec![vec![9, 11, 10, 9]]);

    for cycles in [relabelled, entered_at_ten, with_tails] {
        assert_eq!(cycles.len(), 1);
        assert_eq!(node_set(&cycles[0]), vec![9, 10, 11]);
    }
}
