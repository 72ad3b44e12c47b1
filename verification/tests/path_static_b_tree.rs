//! The static B+ tree over oblivious RAMs.

use oram::path_static_b_tree::{populate_level, BigInlineBpTree};

#[test]
fn builds_small_tree_with_first_level_over_final_level() {
    let mut keys = [30_u64, 10, 60, 20, 50, 40];
    let mut values = [300_u64, 100, 600, 200, 500, 400];

    let tree = BigInlineBpTree::<u64, u64, 2, 3, 2, 3, 2>::new(&mut keys, &mut values);

    assert_eq!(keys, [10, 20, 30, 40, 50, 60]);
    assert_eq!(values, [100, 200, 300, 400, 500, 600]);
    assert_eq!(tree.n, 6);
    assert_eq!(tree.recursive_orams.len(), 0);
}

#[test]
fn lookup_small_tree_with_first_level_over_final_level() {
    let mut keys = [30_u64, 10, 60, 20, 50, 40];
    let mut values = [300_u64, 100, 600, 200, 500, 400];

    let mut tree = BigInlineBpTree::<u64, u64, 2, 3, 2, 3, 2>::new(&mut keys, &mut values);

    for i in 1..=6 {
        let ret = tree.point_lookup(i * 10);
        assert!(ret.is_some());
        assert_eq!(ret.unwrap(), i * 100);
    }

    let ret = tree.point_lookup(35);
    assert!(!ret.is_some());
}

#[test]
fn builds_small_tree_with_recursive_level() {
    let mut keys = [
        15_u64, 3, 29, 1, 18, 9, 22, 7, 30, 12, 5, 25, 16, 2, 27, 10, 20, 6, 24, 14, 8, 19, 4, 28,
        11, 21, 13, 23, 17, 26,
    ];
    let mut values = [
        150_u64, 30, 290, 10, 180, 90, 220, 70, 300, 120, 50, 250, 160, 20, 270, 100, 200, 60, 240,
        140, 80, 190, 40, 280, 110, 210, 130, 230, 170, 260,
    ];

    let tree = BigInlineBpTree::<u64, u64, 4, 4, 2, 3, 2>::new(&mut keys, &mut values);

    assert_eq!(
        keys,
        [
            1, 2, 3, 4, 5, 6, 7, 8, 9, 10, 11, 12, 13, 14, 15, 16, 17, 18, 19, 20, 21, 22, 23, 24,
            25, 26, 27, 28, 29, 30,
        ]
    );
    assert_eq!(
        values,
        [
            10, 20, 30, 40, 50, 60, 70, 80, 90, 100, 110, 120, 130, 140, 150, 160, 170, 180, 190,
            200, 210, 220, 230, 240, 250, 260, 270, 280, 290, 300,
        ]
    );
    assert_eq!(tree.n, 30);
    assert_eq!(tree.recursive_orams.len(), 1);
}

#[test]
fn lookup_small_tree_with_recursive_level() {
    let mut keys = [
        15_u64, 3, 29, 1, 18, 9, 22, 7, 30, 12, 5, 25, 16, 2, 27, 10, 20, 6, 24, 14, 8, 19, 4, 28,
        11, 21, 13, 23, 17, 26,
    ];
    let mut values = [
        150_u64, 30, 290, 10, 180, 90, 220, 70, 300, 120, 50, 250, 160, 20, 270, 100, 200, 60, 240,
        140, 80, 190, 40, 280, 110, 210, 130, 230, 170, 260,
    ];

    let mut tree = BigInlineBpTree::<u64, u64, 4, 4, 2, 3, 2>::new(&mut keys, &mut values);

    for _ in 0..3 {
        for i in 1..25 {
            let ret = tree.point_lookup(i);
            assert!(ret.is_some());
            assert_eq!(ret.unwrap(), i * 10);
        }
    }

    let ret = tree.point_lookup(0);
    assert!(!ret.is_some());
}

#[test]
fn lookups_go_down_several_inner_levels() {
    let mut keys: Vec<u64> = (0..200).map(|i| (i * 77) % 200 * 2).collect();
    let mut values: Vec<u64> = keys.iter().map(|key| key + 1).collect();
    let mut tree = BigInlineBpTree::<u64, u64, 15, 8, 2, 3, 2>::new(&mut keys, &mut values);
    assert_eq!(tree.recursive_orams.len(), 2);
    for _ in 0..3 {
        for key in 0..400u64 {
            assert!(tree.intact);
            assert_eq!(tree.reaches(key), key < 288);
            if tree.reaches(key) {
                let ret = tree.point_lookup(key);
                assert_eq!(ret.is_some(), key % 2 == 0, "key {key}");
                if ret.is_some() {
                    assert_eq!(ret.unwrap(), key + 1);
                }
            }
        }
    }
}

#[test]
fn one_pair_makes_a_tree() {
    let mut tree = BigInlineBpTree::<u64, u64, 2, 3, 2, 3, 4>::new(&mut [8], &mut [9]);
    assert_eq!(tree.point_lookup(8).unwrap(), 9);
    assert!(!tree.point_lookup(7).is_some());
    assert!(!tree.point_lookup(9).is_some());
}

#[test]
fn equal_keys_give_one_of_their_values() {
    let mut keys = [4u64, 4, 4, 4, 1];
    let mut values = [1u64, 2, 3, 4, 5];
    let mut tree = BigInlineBpTree::<u64, u64, 2, 3, 2, 3, 2>::new(&mut keys, &mut values);
    assert_eq!(keys, [1, 4, 4, 4, 4]);
    assert_eq!(values[0], 5);
    assert!((1..=4).contains(&tree.point_lookup(4).unwrap()));
    assert_eq!(tree.point_lookup(1).unwrap(), 5);
}

#[test]
fn populating_a_level_changes_nothing() {
    let mut data = [1u64, 2];
    let mut ret = 3;
    populate_level::<u64, u64, 2>(&mut data, 0, &mut ret, 9);
    assert_eq!((data, ret), ([1, 2], 3));
}

#[test]
fn levels_are_added_until_the_first_level_has_space() {
    let mut keys = [1u64, 2, 3, 4, 5, 6, 7, 8];
    let mut values = [10u64, 20, 30, 40, 50, 60, 70, 80];
    let mut tree = BigInlineBpTree::<u64, u64, 2, 3, 2, 3, 2>::new(&mut keys, &mut values);
    assert_eq!(tree.recursive_orams.len(), 1);
    for key in 1..=8u64 {
        assert!(tree.reaches(key));
        assert_eq!(tree.point_lookup(key).unwrap(), 10 * key);
    }
    assert!(tree.reaches(9));
    assert!(!tree.point_lookup(9).is_some());
    assert!(!tree.point_lookup(0).is_some());
}

#[test]
fn a_tree_is_built_at_given_positions() {
    let mut keys = [8u64, 7, 6, 5, 4, 3, 2, 1];
    let mut values = [80u64, 70, 60, 50, 40, 30, 20, 10];
    let positions = vec![vec![3, 0, 3, 1], vec![1, 0]];
    let mut tree = BigInlineBpTree::<u64, u64, 2, 3, 2, 3, 2>::from_positions(
        &mut keys,
        &mut values,
        &positions,
    );
    assert_eq!(keys, [1, 2, 3, 4, 5, 6, 7, 8]);
    assert!(tree.intact);
    assert_eq!(tree.first_level.ptrs.data[..2], [1, 0]);
    assert_eq!(tree.point_lookup(8).unwrap(), 80);
    assert_eq!(tree.point_lookup(1).unwrap(), 10);
}

#[test]
fn a_tree_with_every_node_at_one_leaf_loses_some() {
    for (count, intact) in [(20, true), (200, false)] {
        let mut keys: Vec<u64> = (0..count as u64).collect();
        let mut values = keys.clone();
        let tree = BigInlineBpTree::<u64, u64, 255, 256, 2, 3, 1>::from_positions(
            &mut keys,
            &mut values,
            &vec![vec![0; count]],
        );
        assert_eq!(tree.recursive_orams.len(), 0);
        assert_eq!(tree.intact, intact);
    }
}
