use segment_tree::Node;
use segment_tree::Range;
use segment_tree::SegmentTree;
use segment_tree::TreeType;

fn query_one(tree: &SegmentTree, start: usize, end: usize) -> Option<i64> {
    tree.query(Range::new(start, end))
}

#[test]
fn sum_build_query_equivalence() {
    let values: Vec<i64> = vec![2, -1, 4, 3, 7];
    let tree = SegmentTree::build_from(&values, TreeType::Sum);
    for start in 0..values.len() {
        for end in (start + 1)..=values.len() {
            let expected: i64 = values[start..end].iter().sum();
            assert_eq!(query_one(&tree, start, end), Some(expected));
        }
    }
}

#[test]
fn min_build_query_equivalence() {
    let values: Vec<i64> = vec![5, 3, 8, 1, 9, -2, 4];
    let tree = SegmentTree::build_from(&values, TreeType::Min);
    for start in 0..values.len() {
        for end in (start + 1)..=values.len() {
            let expected: i64 = *values[start..end].iter().min().unwrap();
            assert_eq!(query_one(&tree, start, end), Some(expected));
        }
    }
}

#[test]
fn max_build_query_equivalence() {
    let values: Vec<i64> = vec![5, 3, 8, 1, 9, -2, 4];
    let tree = SegmentTree::build_from(&values, TreeType::Max);
    for start in 0..values.len() {
        for end in (start + 1)..=values.len() {
            let expected: i64 = *values[start..end].iter().max().unwrap();
            assert_eq!(query_one(&tree, start, end), Some(expected));
        }
    }
}

#[test]
fn full_range_identity() {
    let values: Vec<i64> = vec![4, 9, 2, 6, 5, 1];
    let sum_tree = SegmentTree::build_from(&values, TreeType::Sum);
    assert_eq!(query_one(&sum_tree, 0, values.len()), Some(27));
    let min_tree = SegmentTree::build_from(&values, TreeType::Min);
    assert_eq!(query_one(&min_tree, 0, values.len()), Some(1));
    let max_tree = SegmentTree::build_from(&values, TreeType::Max);
    assert_eq!(query_one(&max_tree, 0, values.len()), Some(9));
}

#[test]
fn out_of_range_query_is_absent() {
    let values: Vec<i64> = vec![1, 2, 3];
    let tree = SegmentTree::build_from(&values, TreeType::Sum);
    assert_eq!(query_one(&tree, 0, 4), None);
    assert_eq!(query_one(&tree, 2, 100), None);
}

#[test]
fn empty_sequence_tree() {
    let values: Vec<i64> = vec![];
    let tree = SegmentTree::build_from(&values, TreeType::Sum);
    assert_eq!(tree.len(), 0);
    assert!(tree.is_empty());
    // any valid range reaches past the empty sequence: absent, no abort
    assert_eq!(query_one(&tree, 0, 1), None);
}

#[test]
fn update_is_local() {
    let values: Vec<i64> = vec![10, 20, 30, 40, 50];
    let mut tree = SegmentTree::build_from(&values, TreeType::Sum);
    tree.update(7, 2);
    // queries covering index 2 reflect the new value
    assert_eq!(query_one(&tree, 0, 5), Some(10 + 20 + 7 + 40 + 50));
    assert_eq!(query_one(&tree, 2, 3), Some(7));
    assert_eq!(query_one(&tree, 1, 4), Some(20 + 7 + 40));
    // queries excluding index 2 are unaffected
    assert_eq!(query_one(&tree, 0, 2), Some(30));
    assert_eq!(query_one(&tree, 3, 5), Some(90));
}

#[test]
fn repeated_updates() {
    let values: Vec<i64> = vec![1, 1, 1, 1];
    let mut tree = SegmentTree::build_from(&values, TreeType::Max);
    tree.update(5, 0);
    tree.update(9, 3);
    tree.update(2, 0);
    assert_eq!(query_one(&tree, 0, 4), Some(9));
    assert_eq!(query_one(&tree, 0, 2), Some(2));
    assert_eq!(query_one(&tree, 1, 3), Some(1));
}

#[test]
fn round_trip_through_exported_container() {
    let values: Vec<i64> = vec![6, -3, 2, 8, 5];
    let tree = SegmentTree::build_from(&values, TreeType::Min);
    let exported = tree.export_container();
    let nodes: Vec<Node> = exported.iter().map(|o| Node(*o)).collect();
    let rebuilt = SegmentTree::take_from(
        nodes,
        values.len(),
        values.len().next_power_of_two(),
        TreeType::Min,
    );
    for start in 0..values.len() {
        for end in (start + 1)..=values.len() {
            assert_eq!(
                query_one(&rebuilt, start, end),
                query_one(&tree, start, end)
            );
        }
    }
    // an out-of-range query agrees too
    assert_eq!(query_one(&rebuilt, 0, 6), query_one(&tree, 0, 6));
}

#[test]
fn exported_container_layout() {
    // len = 3, so P = 4: seven slots, leaves in [3, 6), padding at 6
    let values: Vec<i64> = vec![1, 2, 3];
    let tree = SegmentTree::build_from(&values, TreeType::Sum);
    let exported = tree.export_container();
    assert_eq!(
        exported,
        vec![
            Some(6),
            Some(3),
            Some(3),
            Some(1),
            Some(2),
            Some(3),
            None
        ]
    );
}

#[test]
fn single_element_tree() {
    let values: Vec<i64> = vec![42];
    let mut tree = SegmentTree::build_from(&values, TreeType::Sum);
    assert_eq!(tree.len(), 1);
    assert_eq!(query_one(&tree, 0, 1), Some(42));
    tree.update(-5, 0);
    assert_eq!(query_one(&tree, 0, 1), Some(-5));
}
