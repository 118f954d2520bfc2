//! Tests for list construction, mutation, iteration and hashing.

use milhouse::builder::Builder;
use milhouse::packed_leaf::PackedLeaf;
use milhouse::error::Error;
use milhouse::level_iter::LevelNode;
use milhouse::tree::Tree;
use milhouse::list::List;
use milhouse::utils::compute_level;
use milhouse::vector::Vector;
use ssz::Encode;
use ssz_types::{FixedVector, VariableList};
use tree_hash::TreeHash;
use typenum::U16;

/// The level of an odd index is always 0.
#[test]
fn odd_index_level() {
    let depth = 5;
    let packing_depth = 0;
    for i in (0..2usize.pow(depth as u32)).filter(|i| i % 2 == 1) {
        assert_eq!(compute_level(i, depth, packing_depth), 0);
    }
}

/// The level of indices below the packing depth is 0.
#[test]
fn packing_depth_level() {
    let depth = 10;
    let packing_depth = 3;
    assert_eq!(
        compute_level(0, depth, packing_depth),
        depth + packing_depth
    );
    assert_eq!(compute_level(1, depth, packing_depth), 0);
    assert_eq!(compute_level(2, depth, packing_depth), 0);
    assert_eq!(compute_level(4, depth, packing_depth), 0);
    assert_eq!(compute_level(8, depth, packing_depth), 3);
}

#[test]
fn depth_upper_limit() {
    assert!(matches!(
        Builder::new(62, 0),
        Err(Error::BuilderInvalidDepth { depth: 62 })
    ));
    assert!(matches!(Builder::new(61, 0), Ok(b) if b.depth == 61));
}

#[test]
fn basic_mutation() {
    let mut list = List::new(8, vec![1, 2, 3, 4]).unwrap();

    assert_eq!(list.get(0), Some(1));
    list.set(0, 11).unwrap();
    assert_eq!(list.get(0), Some(11));

    // Applying the changes should persist them.
    assert!(list.has_pending_updates());
    list.apply_updates().unwrap();
    assert!(!list.has_pending_updates());

    // Apply empty updates should be OK.
    list.apply_updates().unwrap();

    assert_eq!(list.get(0), Some(11));
}

#[test]
fn u64_packed_list_build_and_iter() {
    for len in 0..=16u64 {
        let vec = (0..len).map(|i| 2 * i).collect::<Vec<u64>>();
        let list = List::new(16, vec.clone()).unwrap();

        let mut from_iter = Vec::new();
        let mut it = list.iter();
        while let Some(v) = it.next() {
            from_iter.push(v);
        }
        assert_eq!(vec, from_iter);

        for i in 0..len as usize {
            assert_eq!(list.get(i), vec.get(i).copied());
        }
    }
}

#[test]
fn u64_packed_list_tree_hash() {
    for len in 0..=16u64 {
        let vec = (0..len).map(|i| 2 * i).collect::<Vec<u64>>();
        let list = List::new(16, vec.clone()).unwrap();
        let var_list = VariableList::<u64, U16>::new(vec.clone()).unwrap();

        assert_eq!(
            list.tree_hash_root().bytes.as_slice(),
            var_list.tree_hash_root().as_slice()
        );
    }
}

#[test]
fn u64_packed_vector_build_and_iter() {
    let len = 16;

    let vec = (0..len).map(|i| 2 * i).collect::<Vec<u64>>();
    let vector = Vector::new(16, vec.clone()).unwrap();

    let mut from_iter = Vec::new();
    let mut it = vector.iter();
    while let Some(v) = it.next() {
        from_iter.push(v);
    }
    assert_eq!(vec, from_iter);

    for i in 0..len as usize {
        assert_eq!(vector.get(i), vec.get(i).copied());
    }
}

#[test]
fn u64_packed_vector_tree_hash() {
    let len = 16;
    let vec = (0..len).map(|i| 2 * i).collect::<Vec<u64>>();
    let vector = Vector::new(16, vec.clone()).unwrap();
    let fixed_vector = FixedVector::<u64, U16>::new(vec.clone()).unwrap();

    assert_eq!(
        vector.tree_hash_root().bytes.as_slice(),
        fixed_vector.tree_hash_root().as_slice()
    );
}

#[test]
fn out_of_order_mutations() {
    let mut vec = vec![0u64; 16];
    let mut list = List::new(16, vec.clone()).unwrap();
    let mutations = vec![
        (4, 12),
        (3, 900),
        (0, 1),
        (15, 2),
        (13, 4),
        (7, 17),
        (9, 3),
        (0, 5),
        (6, 100),
        (5, 42),
    ];

    for (i, v) in mutations {
        list.set(i, v).unwrap();
        vec[i] = v;
        assert_eq!(list.get(i), Some(v));
    }

    assert_eq!(list.to_vec(), vec);
}

#[test]
fn build_packed_u64_list() {
    let n = 32usize;
    let vec = (0..n as u64).collect::<Vec<_>>();

    for k in 0..n {
        let sub_vec = vec[0..k].to_vec();

        let fast_list = List::try_from_iter(32, &sub_vec).unwrap();
        let slow_list = List::try_from_iter_slow(32, &sub_vec).unwrap();

        assert!(fast_list.eq_list(&slow_list));
        assert_eq!(fast_list.to_vec(), sub_vec);
        assert_eq!(
            fast_list.tree_hash_root().bytes,
            slow_list.tree_hash_root().bytes
        );
    }
}

#[test]
fn vector_mutate_last() {
    let mut vector = Vector::new(4, vec![1, 2, 3, 4]).unwrap();
    vector.set(3, 44).unwrap();
    assert_eq!(vector.get(3), Some(44));
    vector.apply_updates().unwrap();
    assert_eq!(vector.to_vec(), vec![1, 2, 3, 44]);

    let rebuilt = Vector::new(4, vec![1, 2, 3, 44]).unwrap();
    assert_eq!(
        vector.tree_hash_root().bytes,
        rebuilt.tree_hash_root().bytes
    );
}

#[test]
fn level_iter_pop_front_basic_packed() {
    let vec: Vec<u64> = vec![10, 11, 12, 13, 14, 15, 16, 17, 18, 19, 20];
    let list = List::new(32, vec.clone()).unwrap();
    assert_eq!(list.len(), 11);

    for from in 4..vec.len() {
        let mut list = list.clone();
        let mut level_iter = list.level_iter_from(from).unwrap();
        let mut i = 0;
        while let Some(level) = level_iter.next() {
            match level {
                LevelNode::PackedLeaf(leaf) => {
                    assert!(from.trailing_zeros() < 2, "from = {from}");
                    assert_eq!(leaf, vec[i + from]);
                }
                LevelNode::Internal(_node) => {
                    let level = if from == 0 { 5 } else { from.trailing_zeros() };
                    assert!(level >= 2);
                }
            }
            i += 1;
        }

        list.pop_front(from).unwrap();
        assert_eq!(list.len(), vec.len() - from);
        assert_eq!(list.to_vec().as_slice(), &vec[from..]);
    }
}

#[test]
fn level_iter_pop_front_basic_packed_17() {
    let vec: Vec<u64> = vec![
        10, 11, 12, 13, 14, 15, 16, 17, 18, 19, 20, 0, 0, 0, 0, 0, 666,
    ];
    let list = List::new(32, vec.clone()).unwrap();
    assert_eq!(list.len(), 17);

    for from in 0..vec.len() {
        let mut list = list.clone();
        let mut level_iter = list.level_iter_from(from).unwrap();
        let mut i = 0;
        while let Some(level) = level_iter.next() {
            match level {
                LevelNode::PackedLeaf(leaf) => {
                    assert!(from.trailing_zeros() < 2);
                    assert_eq!(leaf, vec[i + from]);
                }
                LevelNode::Internal(_node) => {
                    let level = if from == 0 { 5 } else { from.trailing_zeros() };
                    assert!(level >= 2);
                }
            }
            i += 1;
        }

        list.pop_front(from).unwrap();
        assert_eq!(list.len(), vec.len() - from);
        assert_eq!(list.to_vec().as_slice(), &vec[from..]);
    }
}

#[test]
fn pop_front_zero_noop() {
    let vec: Vec<u64> = vec![10, 11, 12, 13, 14, 15, 16, 17, 18, 19, 20];
    let mut list = List::new(32, vec.clone()).unwrap();

    list.apply_updates().unwrap();
    let mut popped_list = list.clone();
    popped_list.pop_front(0).unwrap();

    let mut iter_a = list.level_iter_from(0).unwrap();
    let mut iter_b = popped_list.level_iter_from(0).unwrap();
    loop {
        match (iter_a.next(), iter_b.next()) {
            (Some(LevelNode::Internal(a)), Some(LevelNode::Internal(b))) => {
                assert!(std::sync::Arc::ptr_eq(&a, &b));
            }
            (None, None) => break,
            _ => panic!("internal node expected"),
        }
    }
}

#[test]
fn pop_front_shares_suffix_subtrees() {
    // 16 values in a depth-3 tree; removing the first 8 must reuse the
    // subtree holding values 8..16 by pointer.
    let vec: Vec<u64> = (0..16).collect();
    let mut list = List::new(32, vec.clone()).unwrap();
    list.apply_updates().unwrap();
    let original_tree = list.interface.tree.clone();

    let mut popped = list.clone();
    popped.pop_front(8).unwrap();
    assert_eq!(popped.to_vec().as_slice(), &vec[8..]);

    let suffix_subtree = match &*original_tree {
        Tree::Node { left, .. } => match &**left {
            Tree::Node { right, .. } => right.clone(),
            _ => panic!("internal node expected"),
        },
        _ => panic!("internal node expected"),
    };
    let rebuilt_subtree = match &*popped.interface.tree {
        Tree::Node { left, .. } => match &**left {
            Tree::Node { left, .. } => left.clone(),
            _ => panic!("internal node expected"),
        },
        _ => panic!("internal node expected"),
    };
    assert!(std::sync::Arc::ptr_eq(&suffix_subtree, &rebuilt_subtree));
}

#[test]
fn pop_front_equivalence() {
    let vec: Vec<u64> = (10u64..=20).collect();
    let list = List::new(32, vec.clone()).unwrap();

    for n in 0..=vec.len() {
        let mut fast = list.clone();
        let mut slow = list.clone();
        fast.pop_front(n).unwrap();
        slow.pop_front_slow(n).unwrap();
        assert!(fast.eq_list(&slow));
        assert_eq!(fast.to_vec().as_slice(), &vec[n..]);
    }

    let mut over = list.clone();
    assert_eq!(
        over.pop_front(12).unwrap_err(),
        Error::OutOfBoundsIterFrom { index: 12, len: 11 }
    );
}

#[test]
fn repeat_equivalence() {
    for max in [16usize, 64] {
        for n in 0..=max {
            let fast = List::repeat(max, 7, n).unwrap();
            let slow = List::repeat_slow(max, 7, n).unwrap();
            assert!(fast.eq_list(&slow));
            assert_eq!(
                fast.tree_hash_root().bytes,
                slow.tree_hash_root().bytes
            );
        }
    }
    assert_eq!(
        List::repeat(16, 7, 17).unwrap_err(),
        Error::ListFull { len: 16 }
    );
}

#[test]
fn ssz_round_trip() {
    for len in 0..=16u64 {
        let vec = (0..len).map(|i| i.wrapping_mul(0x9e3779b97f4a7c15)).collect::<Vec<u64>>();
        let list = List::new(16, vec.clone()).unwrap();
        let encoded = list.to_ssz_bytes();

        // bit-exact compatibility with the canonical encoder
        let var_list = VariableList::<u64, U16>::new(vec.clone()).unwrap();
        assert_eq!(encoded, var_list.as_ssz_bytes());

        let decoded = List::from_ssz_bytes(16, &encoded).unwrap();
        assert!(decoded.eq_list(&list));
    }

    let vec: Vec<u64> = vec![5, 6, 7, 8];
    let vector = Vector::new(4, vec.clone()).unwrap();
    let encoded = vector.to_ssz_bytes();
    let fixed = FixedVector::<u64, typenum::U4>::new(vec).unwrap();
    assert_eq!(encoded, fixed.as_ssz_bytes());
    let decoded = Vector::from_ssz_bytes(4, &encoded).unwrap();
    assert!(decoded.eq_vector(&vector));
}

#[test]
fn ssz_decode_errors() {
    let bytes = vec![0u8; 12];
    assert_eq!(
        List::from_ssz_bytes(16, &bytes).unwrap_err(),
        Error::InvalidSszBytesLen {
            len: 12,
            expected_multiple: 8
        }
    );

    let bytes = vec![0u8; 8 * 17];
    assert_eq!(
        List::from_ssz_bytes(16, &bytes).unwrap_err(),
        Error::SszListTooLong {
            num_items: 17,
            max_len: 16
        }
    );

    let empty: Vec<u8> = Vec::new();
    let list = List::from_ssz_bytes(16, &empty).unwrap();
    assert_eq!(list.len(), 0);
}

#[test]
fn tree_hash_mixes_in_length() {
    // Scenario: sixteen even values hash identically to the canonical list.
    let vec: Vec<u64> = vec![0, 2, 4, 6, 8, 10, 12, 14, 16, 18, 20, 22, 24, 26, 28, 30];
    let list = List::new(16, vec.clone()).unwrap();
    let var_list = VariableList::<u64, U16>::new(vec).unwrap();
    assert_eq!(
        list.tree_hash_root().bytes.as_slice(),
        var_list.tree_hash_root().as_slice()
    );

    // A list and a vector of the same values hash differently: the list's
    // root has its length mixed in.
    let values: Vec<u64> = vec![1, 2, 3, 4];
    let l = List::new(4, values.clone()).unwrap();
    let v = Vector::new(4, values).unwrap();
    assert_ne!(l.tree_hash_root().bytes, v.tree_hash_root().bytes);
}

#[test]
fn large_list_tree_hash() {
    let vec = (0..1000u64).map(|i| i * i).collect::<Vec<u64>>();
    let list = List::new(1024, vec.clone()).unwrap();
    let var_list = VariableList::<u64, typenum::U1024>::new(vec).unwrap();
    assert_eq!(
        list.tree_hash_root().bytes.as_slice(),
        var_list.tree_hash_root().as_slice()
    );
}

#[test]
fn staged_writes_match_plain_vec() {
    // Interleave pushes, overwrites and flushes, mirroring them on a Vec.
    let mut list = List::new(8, vec![1, 2, 3]).unwrap();
    let mut model = vec![1u64, 2, 3];

    list.push(4).unwrap();
    model.push(4);
    list.set(1, 22).unwrap();
    model[1] = 22;
    assert_eq!(list.to_vec(), model);

    list.apply_updates().unwrap();
    assert_eq!(list.to_vec(), model);

    list.set(0, 11).unwrap();
    model[0] = 11;
    list.push(5).unwrap();
    model.push(5);
    list.push(6).unwrap();
    model.push(6);
    assert_eq!(list.to_vec(), model);

    list.apply_updates().unwrap();
    assert_eq!(list.to_vec(), model);

    // scenario: one overwrite applied and read back
    let mut l = List::new(16, (0..5u64).collect::<Vec<u64>>()).unwrap();
    l.set(0, 100).unwrap();
    l.apply_updates().unwrap();
    assert_eq!(l.get(0), Some(100));
    assert_eq!(l.len(), 5);
}

#[test]
fn apply_updates_is_idempotent() {
    let mut list = List::new(8, vec![1, 2, 3]).unwrap();
    list.set(2, 33).unwrap();
    list.apply_updates().unwrap();
    let tree_after_first = list.interface.tree.clone();
    let contents = list.to_vec();

    list.apply_updates().unwrap();
    // the second application is a no-op: same tree, same contents
    assert!(std::sync::Arc::ptr_eq(&tree_after_first, &list.interface.tree));
    assert_eq!(list.to_vec(), contents);
}

#[test]
fn push_and_bounds_errors() {
    let mut list = List::new(2, vec![1, 2]).unwrap();
    assert_eq!(list.push(3).unwrap_err(), Error::ListFull { len: 2 });
    assert_eq!(
        list.set(2, 9).unwrap_err(),
        Error::OutOfBoundsUpdate { index: 2, len: 2 }
    );
    assert_eq!(
        list.iter_from(3).unwrap_err(),
        Error::OutOfBoundsIterFrom { index: 3, len: 2 }
    );

    let mut vector = Vector::new(2, vec![1, 2]).unwrap();
    assert_eq!(vector.push(3).unwrap_err(), Error::PushNotSupported);
    assert_eq!(
        Vector::new(2, vec![1]).unwrap_err(),
        Error::WrongVectorLength {
            len: 1,
            expected: 2
        }
    );
}

#[test]
fn rebase_scenario() {
    let base = List::new(16, vec![1, 2, 3, 4, 5, 6, 7, 8, 9, 10, 11, 12]).unwrap();
    let mut b = base.clone();
    b.set(0, 9).unwrap();
    b.apply_updates().unwrap();

    let mut rebased = b.clone();
    rebased.rebase_on(&base).unwrap();
    assert!(rebased.eq_list(&b));
    assert_eq!(
        rebased.tree_hash_root().bytes,
        b.tree_hash_root().bytes
    );

    // The untouched right half of the tree is shared with the base by
    // pointer after the rebase.
    match (&*rebased.interface.tree, &*base.interface.tree) {
        (
            milhouse::tree::Tree::Node { right: r1, .. },
            milhouse::tree::Tree::Node { right: r2, .. },
        ) => {
            assert!(std::sync::Arc::ptr_eq(r1, r2));
        }
        _ => panic!("expected internal nodes"),
    }

    // Rebasing on an identical list adopts the base's whole tree.
    let copy = List::new(32, (0..20u64).collect::<Vec<u64>>()).unwrap();
    let mut twin = List::new(32, (0..20u64).collect::<Vec<u64>>()).unwrap();
    twin.rebase_on(&copy).unwrap();
    assert!(std::sync::Arc::ptr_eq(
        &twin.interface.tree,
        &copy.interface.tree
    ));
}

#[test]
fn packed_leaf_errors() {
    let mut leaf = PackedLeaf::repeat(5, 4);
    assert_eq!(leaf.push(6).unwrap_err(), Error::PackedLeafFull { len: 4 });

    let mut partial = PackedLeaf::single(1);
    assert_eq!(
        partial.insert_mut(3, 9).unwrap_err(),
        Error::PackedLeafOutOfBounds {
            sub_index: 3,
            len: 1
        }
    );
    partial.insert_mut(1, 9).unwrap();
    assert_eq!(partial.values, vec![1, 9]);
}

#[test]
fn iter_from_ranges() {
    let vec: Vec<u64> = (0..24).collect();
    let list = List::new(32, vec.clone()).unwrap();
    for i in 0..=vec.len() {
        let mut it = list.iter_from(i).unwrap();
        let mut collected = Vec::new();
        while let Some(v) = it.next() {
            collected.push(v);
        }
        assert_eq!(collected.as_slice(), &vec[i..]);
    }
    assert_eq!(
        list.iter_from(25).unwrap_err(),
        Error::OutOfBoundsIterFrom { index: 25, len: 24 }
    );
}
