use segment_tree::Max;
use segment_tree::Min;
use segment_tree::Node;
use segment_tree::SegmentTree;
use segment_tree::Sum;
use segment_tree::TreeType;
use segment_tree::build_max_tree;
use segment_tree::build_min_tree;
use segment_tree::build_sum_tree;
use segment_tree::tree_container_indexes_manager;

#[test]
fn sum_scenario() {
    let mut tree = build_sum_tree(vec![2, 1, 4, 3]);
    assert_eq!(tree.query_sum(vec![(0, 4)]), vec![10]);
    assert_eq!(tree.query_sum(vec![(1, 3)]), vec![5]);
    tree.update_sum(vec![(10, 2)]);
    assert_eq!(tree.query_sum(vec![(1, 3)]), vec![11]);
    assert_eq!(tree.query_sum(vec![(0, 4)]), vec![16]);
}

#[test]
fn min_scenario() {
    let mut tree = build_min_tree(vec![5, 3, 8, 1, 9]);
    assert_eq!(tree.query_min(vec![(0, 5)]), vec![1]);
    assert_eq!(tree.query_min(vec![(2, 4)]), vec![1]);
    tree.update_min(vec![(10, 3)]);
    assert_eq!(tree.query_min(vec![(2, 4)]), vec![8]);
}

#[test]
fn max_scenario() {
    let mut tree = build_max_tree(vec![5, 3, 8, 1, 9]);
    assert_eq!(tree.query_max(vec![(0, 5), (0, 2), (3, 5)]), vec![9, 5, 9]);
    tree.update_max(vec![(20, 1), (0, 4)]);
    assert_eq!(tree.query_max(vec![(0, 5), (3, 5)]), vec![20, 1]);
}

#[test]
fn batch_order_and_lengths() {
    let tree = build_sum_tree(vec![1, 2, 3, 4]);
    let answers = tree.query_sum(vec![(0, 1), (0, 2), (0, 3), (0, 4), (1, 2)]);
    assert_eq!(answers, vec![1, 3, 6, 10, 2]);
}

#[test]
fn facade_len_and_empty() {
    let tree = build_min_tree(vec![7, 7, 7]);
    assert_eq!(tree.len(), 3);
    assert!(!tree.is_empty());
    let empty = build_sum_tree(vec![]);
    assert_eq!(empty.len(), 0);
    assert!(empty.is_empty());
    assert_eq!(empty.container(), vec![None]);
}

#[test]
fn facade_container_round_trip() {
    // the exported container reconstructs a tree that answers identically
    let tree = build_sum_tree(vec![4, -2, 9, 1]);
    let exported = tree.container();
    assert_eq!(
        exported,
        vec![Some(12), Some(2), Some(10), Some(4), Some(-2), Some(9), Some(1)]
    );
    let nodes: Vec<Node> = exported.iter().map(|o| Node(*o)).collect();
    let rebuilt = SegmentTree::take_from(nodes, 4, 4, TreeType::Sum);
    for start in 0..4usize {
        for end in (start + 1)..=4usize {
            let expected = tree.query_sum(vec![(start, end)])[0];
            assert_eq!(
                rebuilt.query(segment_tree::Range::new(start, end)),
                Some(expected)
            );
        }
    }
}

#[test]
fn update_batches_apply_in_list_order() {
    let mut tree = build_sum_tree(vec![0, 0]);
    tree.update_sum(vec![(5, 0), (7, 0), (2, 1)]);
    // the later update to index 0 wins
    assert_eq!(tree.query_sum(vec![(0, 2)]), vec![9]);
}

#[test]
fn index_geometry_base_case() {
    let manager = tree_container_indexes_manager(5);
    assert_eq!(manager.len(), 15);
    // root covers the whole real range
    assert_eq!(manager[0], Some((0, 5)));
    // leaf slots map to their unit ranges, in order
    assert_eq!(
        &manager[7..12],
        &[Some((0, 1)), Some((1, 2)), Some((2, 3)), Some((3, 4)), Some((4, 5))]
    );
    // padding leaves and all-padding internal slots are absent
    assert_eq!(&manager[12..15], &[None, None, None]);
    assert_eq!(manager[6], None);
    // internal slots merge their children
    assert_eq!(manager[3], Some((0, 2)));
    assert_eq!(manager[4], Some((2, 4)));
    assert_eq!(manager[5], Some((4, 5)));
    assert_eq!(manager[1], Some((0, 4)));
    assert_eq!(manager[2], Some((4, 5)));
}

#[test]
fn index_geometry_small_lengths() {
    assert_eq!(tree_container_indexes_manager(0), vec![None]);
    assert_eq!(tree_container_indexes_manager(1), vec![Some((0, 1))]);
    assert_eq!(
        tree_container_indexes_manager(2),
        vec![Some((0, 2)), Some((0, 1)), Some((1, 2))]
    );
}

#[test]
fn policy_elements() {
    assert_eq!(Sum::new(2).combine(Sum::new(3)).value(), 5);
    assert_eq!(Min::new(4).combine(Min::new(9)).value(), 4);
    assert_eq!(Min::new(9).combine(Min::new(4)).value(), 4);
    assert_eq!(Max::new(4).combine(Max::new(9)).value(), 9);
    assert_eq!(Max::new(-1).combine(Max::new(-7)).value(), -1);
}
