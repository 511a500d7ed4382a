use zooid_lake::graph::PartGraph;

/// A chain 10 - 20 - 30 - 40 - 50 with a branch 20 - 60.
fn chain() -> PartGraph {
    PartGraph {
        bodies: vec![10, 20, 30, 40, 50, 60],
        neighbors: vec![vec![1], vec![0, 2, 5], vec![1, 3], vec![2, 4], vec![3], vec![1]],
    }
}

#[test]
fn traversal_lists_every_connected_part_with_its_distance() {
    let g = chain();
    assert_eq!(
        g.traverse_connected(10),
        vec![(20, 1), (30, 2), (40, 3), (50, 4), (60, 2)]
    );
    assert_eq!(
        g.traverse_connected(30),
        vec![(20, 1), (10, 2), (60, 2), (40, 1), (50, 2)]
    );
}

#[test]
fn traversal_of_missing_part_is_empty() {
    assert_eq!(chain().traverse_connected(99), vec![]);
    assert_eq!(chain().body_of(99), None);
    assert_eq!(chain().body_of(40), Some(3));
}

#[test]
fn traversal_never_steps_straight_back() {
    // Two parallel joints between the same parts: each is walked once, never back.
    let g = PartGraph { bodies: vec![1, 2], neighbors: vec![vec![1, 1], vec![0, 0]] };
    assert_eq!(g.traverse_connected(1), vec![(2, 1), (2, 1)]);
}

#[test]
fn connected_parts_start_with_the_origin() {
    assert_eq!(chain().connected_parts(50), vec![50, 40, 30, 20, 10, 60]);
    assert_eq!(chain().connected_parts(7), vec![7]);
}

#[test]
fn parts_die_beyond_three_joints_from_a_heart() {
    let g = chain();
    let hearts = vec![10];
    assert!(g.heart_within_reach(20, &hearts));
    assert!(g.heart_within_reach(40, &hearts));
    assert!(!g.heart_within_reach(50, &hearts));
    // A heart does not count itself.
    assert!(!g.heart_within_reach(10, &hearts));
    assert!(g.heart_within_reach(50, &vec![30]));
}

#[test]
fn joining_two_creatures_keeps_one_tree() {
    // Two creatures 1 - 2 and 3 - 4; a new joint between parts 2 and 3 joins them into one tree,
    // and the walk from every part still reaches each other part exactly once.
    let joined = PartGraph {
        bodies: vec![1, 2, 3, 4],
        neighbors: vec![vec![1], vec![0, 2], vec![3, 1], vec![2]],
    };
    assert_eq!(joined.traverse_connected(1), vec![(2, 1), (3, 2), (4, 3)]);
    assert_eq!(joined.traverse_connected(4), vec![(3, 1), (2, 2), (1, 3)]);
    assert_eq!(joined.connected_parts(2), vec![2, 1, 3, 4]);
}

#[test]
fn a_tree_traversal_reports_each_part_once_and_never_the_origin() {
    // On the branching chain, each part other than the origin appears exactly once.
    for origin in [10u64, 20, 30, 40, 50, 60] {
        let visits = chain().traverse_connected(origin);
        let mut bodies: Vec<u64> = visits.iter().map(|v| v.0).collect();
        assert!(!bodies.contains(&origin));
        assert_eq!(bodies.len(), 5);
        bodies.sort();
        bodies.dedup();
        assert_eq!(bodies.len(), 5);
    }
}
