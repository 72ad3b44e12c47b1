use oram::heap_tree::HeapTree;
use oram::wide_heap_tree::WideHeapTree;

fn print_depth_pos_index(height: usize, depth: usize, path: u32) {
    assert!(depth < height);
    let level_offset: usize = (1 << depth) - 1;
    let mask = level_offset as u32;
    let _ret = level_offset + (path & mask) as usize;
}

#[test]
fn print_heap_tree_info() {
    for depth in 0..3 {
        for path in 0..4 {
            print_depth_pos_index(3, depth, path);
        }
    }
}

#[test]
fn binary_tree_keeps_existing_indices() {
    let tree = HeapTree::<usize>::new(3);

    assert_eq!(tree.branching_factor, 2);
    assert_eq!(tree.tree.len(), 7);
    assert_eq!(tree.leaf_count(), 4);

    assert_eq!(tree.get_index(0, 0), 0);
    assert_eq!(tree.get_index(1, 0), 1);
    assert_eq!(tree.get_index(1, 1), 2);
    assert_eq!(tree.get_index(2, 0), 3);
    assert_eq!(tree.get_index(2, 2), 5);
    assert_eq!(tree.get_index(2, 1), 4);
    assert_eq!(tree.get_index(2, 3), 6);
}

#[test]
fn ternary_tree_uses_branching_factor_for_size_and_indices() {
    let tree = HeapTree::<usize>::new_with_branching_factor(3, 3);

    assert_eq!(tree.branching_factor, 3);
    assert_eq!(tree.tree.len(), 13);
    assert_eq!(tree.leaf_count(), 9);

    assert_eq!(tree.get_index(0, 8), 0);
    assert_eq!(tree.get_index(1, 0), 1);
    assert_eq!(tree.get_index(1, 1), 2);
    assert_eq!(tree.get_index(1, 2), 3);
    assert_eq!(tree.get_index(2, 0), 4);
    assert_eq!(tree.get_index(2, 5), 9);
    assert_eq!(tree.get_index(2, 8), 12);
}

#[test]
fn quaternary_tree_can_select_siblings_by_digit() {
    let mut tree = HeapTree::<usize>::new_with_branching_factor(3, 4);
    for (i, item) in tree.tree.iter_mut().enumerate() {
        *item = i;
    }

    assert_eq!(tree.branching_factor, 4);
    assert_eq!(tree.tree.len(), 21);
    assert_eq!(tree.leaf_count(), 16);

    assert_eq!(*tree.get_sibling_at(2, 14, 0), tree.get_index(2, 2));
    assert_eq!(*tree.get_sibling_at(2, 14, 1), tree.get_index(2, 6));
    assert_eq!(*tree.get_sibling_at(2, 14, 2), tree.get_index(2, 10));
    assert_eq!(*tree.get_sibling_at(2, 14, 3), tree.get_index(2, 14));
}

#[test]
fn quaternary_tree_does_not_require_full_bottom_layer() {
    let tree = HeapTree::<usize>::new_with_leaf_count_and_value(3, 4, 8, 0);

    assert_eq!(tree.branching_factor, 4);
    assert_eq!(tree.height, 3);
    assert_eq!(tree.leaf_count(), 8);
    assert_eq!(tree.level_width(0), 1);
    assert_eq!(tree.level_width(1), 4);
    assert_eq!(tree.level_width(2), 8);
    assert_eq!(tree.tree.len(), 13);

    assert_eq!(tree.get_index(0, 7), 0);
    assert_eq!(tree.get_index(1, 7), 4);
    assert_eq!(tree.get_index(2, 7), 12);
}

#[test]
fn binary_siblings_differ_in_one_bit() {
    let mut tree = HeapTree::<usize>::new(4);
    for (i, item) in tree.tree.iter_mut().enumerate() {
        *item = i;
    }
    for path in 0..8u32 {
        for depth in 1..4usize {
            let other = path ^ (1 << (depth - 1));
            assert_eq!(*tree.get_sibling(depth, path), tree.get_index(depth, other));
        }
    }
}

#[test]
fn writing_a_node_changes_that_node_alone() {
    let mut tree = HeapTree::new_with(3, 1u32);
    *tree.get_path_at_depth_mut(2, 2) = 9;
    assert_eq!(tree.tree, vec![1, 1, 1, 1, 1, 9, 1]);
    assert_eq!(*tree.get_path_at_depth(2, 2), 9);
    assert_eq!(*tree.get_path_at_depth(1, 2), 1);
}

#[test]
fn ternary_tree_has_expected_shape_and_indices() {
    let tree = WideHeapTree::<u8>::new(3, 3);
    assert_eq!(tree.len(), 13);
    assert!(!tree.is_empty());
    assert_eq!(tree.get_index(0, 8), 0);
    assert_eq!(tree.get_index(1, 8), 3);
    assert_eq!(tree.get_index(2, 8), 12);
}

#[test]
fn mutable_path_access_and_siblings_work() {
    let mut tree = WideHeapTree::<u8>::new(3, 3);
    *tree.get_path_at_depth_mut(2, 7) = 42;
    assert_eq!(*tree.get_path_at_depth(2, 7), 42);

    let (before, after) = tree.get_siblings(2, 7);
    let siblings: Vec<_> = before.into_iter().chain(after).copied().collect();
    assert_eq!(siblings, vec![0, 0]);
}

#[test]
fn siblings_are_the_other_children_of_the_parent() {
    let mut tree = WideHeapTree::<u8>::new(3, 3);
    *tree.get_path_at_depth_mut(2, 1) = 5;
    let (before, after) = tree.get_siblings(2, 7);
    assert_eq!((before, after), (vec![&5, &0], vec![]));

    let mut tree = WideHeapTree::<u8>::new(3, 4);
    for path in 0..16 {
        *tree.get_path_at_depth_mut(2, path) = path as u8;
    }
    let (before, after) = tree.get_siblings(2, 6);
    assert_eq!((before, after), (vec![&2], vec![&10, &14]));
}

#[test]
fn binary_indices_match_heap_tree() {
    let wide = WideHeapTree::<u8>::new(4, 2);
    let binary = HeapTree::<u8>::new(4);
    for depth in 0..4 {
        for path in 0..8 {
            assert_eq!(wide.get_index(depth, path), binary.get_index(depth, path));
        }
    }
}
