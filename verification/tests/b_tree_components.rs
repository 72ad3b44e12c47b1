//! Nodes of search trees and the arrays they are made of.

use oram::b_tree_components::{
    oblivious_read_maybe_update_index, BTreeNode, BpTreeNode, BpValueNode, ObliviousArray,
    EXACT_MATCH, PREDECESSOR, SUCCESSOR,
};
use oram::linear_oram::{oblivious_memcpy, LinearORAM, OOption};
use oram::prelude::DUMMY_POS;

#[test]
fn b_tree_node_has_values_and_ptrs() {
    let keys = [10_u64, 20, 30];
    let values = [100_u64, 200, 300];
    let ptrs = [1, 2, 3, 4];
    let mut node = BTreeNode::<u64, u64, 3, 4>::new(&keys, &values, &ptrs, 3);

    let (exact, index, ptr) = node.search_update_pair_index(20, 8, EXACT_MATCH);
    assert!(exact.is_some());
    let exact = exact.unwrap();
    assert_eq!(exact.key, 20);
    assert_eq!(exact.value, 200);
    assert_eq!(index, 2);
    assert_eq!(ptr, 3);

    let (successor, index, ptr) = node.search_update_pair_index(25, 9, SUCCESSOR);
    assert!(successor.is_some());
    let successor = successor.unwrap();
    assert_eq!(successor.key, 30);
    assert_eq!(successor.value, 300);
    assert_eq!(index, 2);
    assert_eq!(ptr, 8);

    let (predecessor, index, ptr) = node.search_update_pair_index(25, 10, PREDECESSOR);
    assert!(predecessor.is_some());
    let predecessor = predecessor.unwrap();
    assert_eq!(predecessor.key, 20);
    assert_eq!(predecessor.value, 200);
    assert_eq!(index, 2);
    assert_eq!(ptr, 9);
}

#[test]
fn value_node_search_pair_supports_successor_and_predecessor() {
    let keys = [10_u64, 20, 30, 40];
    let values = [100_u64, 200, 300, 400];
    let mut node = BpValueNode::<u64, u64, 4>::new(&keys, &values, 4);

    let successor = node.search_pair(25, SUCCESSOR);
    assert!(successor.is_some());
    let successor = successor.unwrap();
    assert_eq!(successor.key, 30);
    assert_eq!(successor.value, 300);

    let predecessor = node.search_pair(25, PREDECESSOR);
    assert!(predecessor.is_some());
    let predecessor = predecessor.unwrap();
    assert_eq!(predecessor.key, 20);
    assert_eq!(predecessor.value, 200);

    let exact_successor = node.search_pair(30, SUCCESSOR);
    assert!(exact_successor.is_some());
    let exact_successor = exact_successor.unwrap();
    assert_eq!(exact_successor.key, 40);
    assert_eq!(exact_successor.value, 400);

    let exact_predecessor = node.search_pair(30, PREDECESSOR);
    assert!(exact_predecessor.is_some());
    let exact_predecessor = exact_predecessor.unwrap();
    assert_eq!(exact_predecessor.key, 20);
    assert_eq!(exact_predecessor.value, 200);

    let below_min_successor = node.search_pair(5, SUCCESSOR);
    assert!(below_min_successor.is_some());
    let below_min_successor = below_min_successor.unwrap();
    assert_eq!(below_min_successor.key, 10);
    assert_eq!(below_min_successor.value, 100);

    let above_max_predecessor = node.search_pair(45, PREDECESSOR);
    assert!(above_max_predecessor.is_some());
    let above_max_predecessor = above_max_predecessor.unwrap();
    assert_eq!(above_max_predecessor.key, 40);
    assert_eq!(above_max_predecessor.value, 400);

    let exact_min = node.search_pair(10, EXACT_MATCH);
    assert!(exact_min.is_some());
    let exact_min = exact_min.unwrap();
    assert_eq!(exact_min.key, 10);
    assert_eq!(exact_min.value, 100);

    let exact_max = node.search_pair(40, EXACT_MATCH);
    assert!(exact_max.is_some());
    let exact_max = exact_max.unwrap();
    assert_eq!(exact_max.key, 40);
    assert_eq!(exact_max.value, 400);

    assert!(!node.search_pair(40, SUCCESSOR).is_some());
    assert!(!node.search_pair(10, PREDECESSOR).is_some());
    assert!(!node.search_pair(25, EXACT_MATCH).is_some());
}

#[test]
fn an_array_reads_and_writes_only_inside() {
    let mut array = ObliviousArray::<u64, 3>::new([5, 6, 7]);
    let mut ret = 99;
    array.read(1, &mut ret);
    assert_eq!(ret, 6);
    array.read(3, &mut ret);
    assert_eq!(ret, 6);
    array.write(2, 8);
    array.write(3, 9);
    assert_eq!(array.data, [5, 6, 8]);
    array.read_update(0, 4, &mut ret);
    assert_eq!((ret, array.data), (5, [4, 6, 8]));
    array.read_maybe_update(1, &OOption::new(1, false), &mut ret);
    assert_eq!((ret, array.data), (6, [4, 6, 8]));
    array.read_maybe_update(1, &OOption::new(1, true), &mut ret);
    assert_eq!((ret, array.data), (6, [4, 1, 8]));
    array.renew(&[2, 3]);
    assert_eq!(array.data, [2, 3, 8]);

    let mut data = [1u64, 2];
    oblivious_read_maybe_update_index(&mut data, 5, &mut ret, &OOption::new(7, true));
    assert_eq!((ret, data), (6, [1, 2]));
    oblivious_memcpy(&mut data, &[8, 9], 1);
    assert_eq!(data, [1, 8]);
}

#[test]
fn an_exact_search_finds_the_first_copy() {
    let array = ObliviousArray::<u64, 5>::new([3, 7, 7, 9, 7]);
    assert_eq!(array.search_exact(7), 1);
    assert_eq!(array.search_exact(4), 5);
    assert_eq!(array.search_exact_prefix(9, 3), 5);
    assert_eq!(array.search_exact_prefix(7, 2), 1);
    assert_eq!(array.search_exact_prefix(9, 9), 3);
}

#[test]
fn a_successor_search_counts_the_keys_up_to_the_key() {
    let array = ObliviousArray::<u64, 4>::new([10, 20, 30, 5]);
    let (mut index, mut exact) = (9, true);
    array.search_succ_prefix(20, &mut index, &mut exact, 3);
    assert_eq!((index, exact), (2, true));
    array.search_succ_prefix(25, &mut index, &mut exact, 3);
    assert_eq!((index, exact), (2, false));
    array.search_succ(100, &mut index, &mut exact);
    assert_eq!((index, exact), (4, false));
}

#[test]
fn an_inner_node_goes_down_left_of_an_exact_match_only_for_predecessors() {
    let mut node = BpTreeNode::<u64, 3, 4>::new(&[10, 20], &[1, 2, 3], 2);
    assert_eq!(node.search_update_index(20, 7, EXACT_MATCH), (2, 3));
    assert_eq!(node.search_update_index(20, 8, PREDECESSOR), (1, 2));
    assert_eq!(node.ptrs.data, [1, 8, 7, DUMMY_POS]);
    let (found, child, ptr) = node.search_update_key_index(15, 9, SUCCESSOR);
    assert_eq!((found.unwrap(), child, ptr), (20, 1, 8));
    let (found, child, ptr) = node.search_update_key_index(20, 4, SUCCESSOR);
    assert_eq!((found.is_some(), child, ptr), (false, 2, 7));
    node.renew(&[1, 2, 3], &[4, 5, 6, 7], 3);
    assert_eq!(node.search_update_index(2, 0, SUCCESSOR), (2, 6));
}

#[test]
fn a_failed_update_leaves_the_values() {
    let mut node = BpValueNode::<u64, u64, 4>::new(&[10, 20], &[100, 200], 2);
    assert_eq!(node.search_update(20, 7, EXACT_MATCH).unwrap(), 200);
    assert_eq!(node.values.data, [100, 7, 0, 0]);
    assert!(!node.search_update(15, 9, EXACT_MATCH).is_some());
    assert!(!node.search_update(20, 9, SUCCESSOR).is_some());
    assert_eq!(node.values.data, [100, 7, 0, 0]);
    assert_eq!(node.search(20, PREDECESSOR).unwrap(), 100);
    assert_eq!(node.search_key(12, SUCCESSOR).unwrap(), 20);
    node.renew(&[1, 2, 3, 4], &[5, 6, 7, 8], 4);
    assert_eq!(node.search(3, EXACT_MATCH).unwrap(), 7);
}

#[test]
fn a_linear_array_gives_back_what_was_written() {
    let mut oram = LinearORAM::<u64>::new(3);
    let mut ret = 5;
    oram.read(2, &mut ret);
    assert_eq!(ret, 0);
    oram.write(2, 11);
    oram.write(3, 12);
    oram.read(2, &mut ret);
    assert_eq!(ret, 11);
    oram.read(3, &mut ret);
    assert_eq!(ret, 11);
    assert_eq!(oram.data, [0, 0, 11]);
}
