//! The mock lane ORAM.

use oram::prelude::K;
use oram::test_lane_oram::{
    queue_size_frequencies, Node, PerfectBaryTree, Slot, SlotLocation, TestLaneBlock, TestLaneOram,
};

fn block_at(oram: &TestLaneOram, node_index: usize, slot_index: usize) -> Option<TestLaneBlock> {
    oram.tree.node_slots(node_index).unwrap()[slot_index].as_ref().cloned()
}

fn count_key(oram: &TestLaneOram, key: K) -> usize {
    oram.tree
        .all_slots()
        .iter()
        .filter(|slot| slot.as_ref().is_some_and(|block| block.key == key))
        .count()
}

#[test]
fn test_perfect_bary_tree_shape() {
    let tree = PerfectBaryTree::<usize>::new(3, 3, 2);

    assert_eq!(tree.levels(), 3);
    assert_eq!(tree.branching_factor(), 3);
    assert_eq!(tree.slots_per_node(), 2);
    assert_eq!(tree.node_count(), 40);
    assert_eq!(tree.leaf_count(), 27);
    assert_eq!(tree.capacity(), 80);
    assert_eq!(tree.level_width(0), Some(1));
    assert_eq!(tree.level_width(1), Some(3));
    assert_eq!(tree.level_width(2), Some(9));
    assert_eq!(tree.level_width(3), Some(27));
    assert_eq!(tree.level_width(4), None);
    assert_eq!(tree.node_index(3, 26), Some(39));
    assert_eq!(tree.path_offset_at_level(2, 17), Some(5));
    assert_eq!(tree.path_node_index(3, 26), Some(39));
    assert_eq!(tree.path_node_indices(26), Some(vec![0, 3, 12, 39]));
    assert_eq!(tree.common_prefix_depth(26, 25), Some(2));
    assert_eq!(tree.parent_index(6), Some(1));
    assert_eq!(tree.children_indices(1), Some(vec![4, 5, 6]));
    assert_eq!(tree.children_indices(13), None);
}

#[test]
fn test_insert_on_empty_tree_updates_position_map_and_fills_root() {
    let mut oram = TestLaneOram::new(2, 2, 3, 2);
    oram.position_map[7] = 0;

    let result = oram.insert_with_new_pos(7, 3);

    assert_eq!(result.old_pos, 0);
    assert_eq!(result.new_pos, 3);
    assert_eq!(result.removed_from, None);
    assert_eq!(result.queue_len, 0);
    assert_eq!(oram.key_bound(), 8);
    assert_eq!(oram.pos_bound(), 4);
    assert_eq!(oram.position_for_key(7), 3);
    assert_eq!(block_at(&oram, 0, 0), Some(TestLaneBlock::new(7, 3)));
}

#[test]
fn test_insert_removes_existing_key_from_old_path_before_reinserting() {
    let mut oram = TestLaneOram::new(2, 2, 3, 2);
    oram.position_map[1] = 0;
    oram.insert_with_new_pos(1, 0);
    let leaf_on_old_path = oram.tree.path_node_index(2, 0).unwrap();

    let result = oram.insert_with_new_pos(1, 3);

    assert_eq!(result.old_pos, 0);
    assert_eq!(result.new_pos, 3);
    assert_eq!(
        result.removed_from,
        Some(SlotLocation { node_index: leaf_on_old_path, slot_index: 0 })
    );
    assert_eq!(result.queue_len, 0);
    assert_eq!(oram.position_for_key(1), 3);
    assert_eq!(count_key(&oram, 1), 1);
    assert_eq!(block_at(&oram, 0, 0), Some(TestLaneBlock::new(1, 3)));
}

#[test]
fn test_evict_fills_empty_root_slots_from_queue_left_first() {
    let mut oram = TestLaneOram::new(2, 2, 3, 2);
    oram.position_map[0] = 3;
    oram.position_map[1] = 3;
    oram.queue.push_back(TestLaneBlock::new(0, 3));
    oram.queue.push_back(TestLaneBlock::new(1, 3));

    oram.evict_path(0);

    assert!(oram.queue.is_empty());
    assert_eq!(block_at(&oram, 0, 0), Some(TestLaneBlock::new(0, 3)));
    assert_eq!(block_at(&oram, 0, 1), Some(TestLaneBlock::new(1, 3)));
    assert_eq!(block_at(&oram, 0, 2), None);
}

#[test]
fn test_evict_keeps_items_queued_when_root_is_full_and_no_lane_has_empty_slots() {
    let mut oram = TestLaneOram::new(0, 2, 2, 1);
    let root_slots = oram.tree.node_slots_mut(0).unwrap();
    root_slots[0] = Slot::Full(TestLaneBlock::new(0, 0));
    root_slots[1] = Slot::Full(TestLaneBlock::new(0, 0));
    oram.queue.push_back(TestLaneBlock::new(0, 0));

    oram.evict_path(0);

    assert_eq!(oram.queue.len(), 1);
    assert_eq!(oram.queue.front().map(|block| block.key), Some(0));
}

#[test]
fn test_lane_eviction_moves_root_slot_down() {
    let mut oram = TestLaneOram::new(2, 2, 3, 1);
    let leaf_on_path = oram.tree.path_node_index(2, 0).unwrap();
    oram.tree.node_slots_mut(0).unwrap()[0] = Slot::Full(TestLaneBlock::new(0, 0));

    oram.evict_path(0);

    assert_eq!(block_at(&oram, 0, 0), None);
    assert_eq!(block_at(&oram, leaf_on_path, 0), Some(TestLaneBlock::new(0, 0)));
}

#[test]
fn test_lane_eviction_shifts_eligible_chain_down() {
    let mut oram = TestLaneOram::new(2, 2, 3, 1);
    let child_on_path = oram.tree.path_node_index(1, 0).unwrap();
    let leaf_on_path = oram.tree.path_node_index(2, 0).unwrap();

    oram.tree.node_slots_mut(0).unwrap()[0] = Slot::Full(TestLaneBlock::new(0, 1));
    oram.tree.node_slots_mut(child_on_path).unwrap()[0] = Slot::Full(TestLaneBlock::new(1, 0));

    oram.evict_path(0);

    assert_eq!(block_at(&oram, 0, 0), None);
    assert_eq!(block_at(&oram, child_on_path, 0), Some(TestLaneBlock::new(0, 1)));
    assert_eq!(block_at(&oram, leaf_on_path, 0), Some(TestLaneBlock::new(1, 0)));
}

#[test]
fn test_reinserting_queued_key_does_not_duplicate_queue_entry() {
    let mut oram = TestLaneOram::new(1, 2, 3, 1);
    oram.inserted[0] = true;
    oram.queue.push_back(TestLaneBlock::new(0, 0));

    for slot in oram.tree.node_slots_mut(0).unwrap() {
        *slot = Slot::Full(TestLaneBlock::new(1, 0));
    }

    let result = oram.insert_with_new_pos(0, 1);

    assert_eq!(result.removed_from, None);
    assert_eq!(oram.queue.len(), 1);
    assert_eq!(oram.position_for_key(0), 1);

    for slot in oram.tree.node_slots_mut(0).unwrap() {
        *slot = Slot::Empty;
    }
    oram.evict_path(0);

    assert!(oram.queue.is_empty());
    assert_eq!(block_at(&oram, 0, 0), Some(TestLaneBlock::new(0, 1)));
}

#[test]
fn test_position_map_has_y_times_leaf_count_entries() {
    let mut oram = TestLaneOram::new(2, 2, 3, 2);

    assert_eq!(oram.keys_per_leaf(), 2);
    assert_eq!(oram.pos_bound(), 4);
    assert_eq!(oram.key_bound(), 8);
    assert_eq!(oram.position_map.len(), 8);
    assert!(oram.position_map.iter().all(|pos| *pos < oram.pos_bound()));

    oram.insert_with_new_pos(7, 3);

    assert_eq!(oram.position_for_key(7), 3);
}

#[test]
fn test_queue_size_frequencies_records_each_iteration() {
    let iterations = 25;
    let frequencies = queue_size_frequencies(2, 2, 1, 2, iterations);

    assert_eq!(frequencies.values().sum::<usize>(), iterations);
    assert!(frequencies.keys().all(|queue_len| *queue_len <= iterations + 4));
    assert!(queue_size_frequencies(2, 2, 1, 2, 0).is_empty());
}

#[test]
fn random_insert_uses_a_leaf_of_the_tree() {
    let mut oram = TestLaneOram::new(3, 2, 2, 1);
    for key in 0..oram.key_bound() {
        let old = oram.position_for_key(key);
        let result = oram.insert(key);
        assert_eq!(result.old_pos, old);
        assert!(result.new_pos < oram.pos_bound());
        assert_eq!(oram.position_for_key(key), result.new_pos);
    }
}

#[test]
fn node_slots_fill_and_empty() {
    let mut node = Node::<u32>::new(3);
    assert_eq!(node.first_empty_slot_index(), Some(0));
    assert_eq!(node.take_first_full(), None);
    node.slots_mut()[0] = Slot::Full(4);
    node.slots_mut()[1] = Slot::Full(5);
    assert_eq!(node.first_empty_slot_index(), Some(2));
    assert_eq!(node.occupied_slot_count(), 2);
    assert!(!node.is_full());
    node.slots_mut()[2] = Slot::Full(6);
    assert!(node.is_full());
    assert_eq!(node.take_first_matching(|item| *item > 4), Some((1, 5)));
    assert_eq!(node.take_first_matching(|item| *item > 9), None);
    assert_eq!(node.take_first_full(), Some((0, 4)));
    assert_eq!(node.slots(), &[Slot::Empty, Slot::Empty, Slot::Full(6)]);
}

#[test]
fn tree_items_leave_in_level_order() {
    let mut tree = PerfectBaryTree::<u32>::new(1, 2, 2);
    assert_eq!(tree.take_first_full(), None);
    tree.node_slots_mut(1).unwrap()[1] = Slot::Full(7);
    tree.node_slots_mut(2).unwrap()[0] = Slot::Full(8);
    assert!(tree.node_slots_mut(3).is_none());
    assert!(tree.node_slots(3).is_none());
    assert_eq!(tree.occupied_slot_count(), 2);
    assert!(!tree.is_full());
    assert_eq!(
        tree.take_first_matching(|item| *item == 8),
        Some((SlotLocation { node_index: 2, slot_index: 0 }, 8))
    );
    assert_eq!(tree.take_first_full(), Some((SlotLocation { node_index: 1, slot_index: 1 }, 7)));
    assert_eq!(tree.occupied_slot_count(), 0);
}

#[test]
fn children_of_a_node_name_it_as_their_parent() {
    let tree = PerfectBaryTree::<u32>::new(3, 4, 1);
    for node in 0..tree.node_count() {
        for child in tree.children_indices(node).unwrap_or_default() {
            assert_eq!(tree.parent_index(child), Some(node));
        }
    }
    assert_eq!(tree.parent_index(0), None);
    assert_eq!(tree.parent_index(tree.node_count()), None);
}

#[test]
fn paths_climb_to_the_root() {
    let tree = PerfectBaryTree::<u32>::new(3, 3, 1);
    for leaf in 0..tree.leaf_count() {
        for level in 1..=tree.levels() {
            let node = tree.path_node_index(level, leaf).unwrap();
            assert_eq!(tree.parent_index(node), tree.path_node_index(level - 1, leaf));
        }
    }
    assert_eq!(tree.path_node_index(4, 0), None);
    assert_eq!(tree.path_node_indices(27), None);
    assert_eq!(tree.common_prefix_depth(27, 0), None);
}

#[test]
fn a_chain_replaces_a_block_above_an_unreachable_slot() {
    let mut oram = TestLaneOram::new(2, 2, 1, 1);
    let child = oram.tree.path_node_index(1, 0).unwrap();
    oram.tree.node_slots_mut(0).unwrap()[0] = Slot::Full(TestLaneBlock::new(2, 1));
    oram.tree.node_slots_mut(child).unwrap()[0] = Slot::Full(TestLaneBlock::new(3, 1));

    oram.evict_path(0);

    assert_eq!(block_at(&oram, child, 0), Some(TestLaneBlock::new(2, 1)));
    assert_eq!(count_key(&oram, 3), 0);
}

#[test]
fn common_prefixes_are_symmetric_and_end_where_paths_part() {
    let tree = PerfectBaryTree::<u32>::new(3, 3, 1);
    for a in 0..tree.leaf_count() {
        assert_eq!(tree.common_prefix_depth(a, a), Some(3));
        for b in 0..tree.leaf_count() {
            let depth = tree.common_prefix_depth(a, b).unwrap();
            assert_eq!(tree.common_prefix_depth(b, a), Some(depth));
            for level in 0..=3 {
                assert_eq!(
                    tree.path_node_index(level, a) == tree.path_node_index(level, b),
                    level <= depth
                );
            }
        }
    }
}

#[test]
fn an_insert_takes_a_key_out_of_the_tree_and_stores_it_once() {
    let mut oram = TestLaneOram::new(3, 2, 4, 1);
    let nodes = oram.tree.node_count();
    for step in 0..200usize {
        let key = step * 3 % oram.key_bound();
        let new_pos = step * 5 % oram.pos_bound();
        let queued = oram.queue.iter().any(|block| block.key == key);
        let in_tree = count_key(&oram, key) > 0;
        assert!(!(queued && in_tree));
        let result = oram.insert_with_new_pos(key, new_pos);
        assert_eq!(result.removed_from.is_some(), in_tree);
        for other in 0..oram.key_bound() {
            let waiting = oram.queue.iter().filter(|block| block.key == other).count();
            assert!(count_key(&oram, other) + waiting <= 1);
        }
        for node in 0..nodes {
            for slot in 0..4 {
                if let Some(block) = block_at(&oram, node, slot) {
                    assert_eq!(block.pos, oram.position_for_key(block.key));
                    let path = oram.tree.path_node_indices(block.pos).unwrap();
                    assert!(path.contains(&node));
                }
            }
        }
    }
}

#[test]
fn an_insert_replaces_a_block_that_can_go_no_deeper() {
    let mut oram = TestLaneOram::new(2, 2, 1, 1);
    oram.position_map[3] = 0;
    oram.position_map[2] = 0;
    oram.insert_with_new_pos(3, 1);
    let child = oram.tree.path_node_index(1, 0).unwrap();
    assert_eq!(block_at(&oram, child, 0), Some(TestLaneBlock::new(3, 1)));
    oram.insert_with_new_pos(2, 1);
    assert_eq!(block_at(&oram, child, 0), Some(TestLaneBlock::new(2, 1)));
    assert_eq!(count_key(&oram, 3), 0);
}
