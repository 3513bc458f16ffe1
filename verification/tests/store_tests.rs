use kv_store::btree::btree_node::BTreeNode;
use kv_store::btree::internal_node::InternalNode;
use kv_store::btree::leaf_node::LeafNode;
use kv_store::btree::outline::OutlineLine;
use kv_store::btree::page_managers::page_manager::PageManager;
use kv_store::btree::test_utils::{
    get_empty_internal_root, get_empty_leaf_root, get_root_page, new_internal, new_leaf, new_persistent_page_manager,
};
use kv_store::errors::KvError;

#[test]
fn stored_value_is_read_back_and_other_keys_stay() {
    let mut tree = get_empty_leaf_root(96);
    tree.set(b"apple", b"red").unwrap();
    tree.set(b"banana", b"yellow").unwrap();
    tree.set(b"apple", b"green").unwrap();
    assert_eq!(tree.get(b"apple").unwrap(), Some(b"green".to_vec()));
    assert_eq!(tree.get(b"banana").unwrap(), Some(b"yellow".to_vec()));
    assert_eq!(tree.get(b"cherry").unwrap(), None);
}

#[test]
fn deleted_key_is_gone_and_other_keys_stay() {
    let mut tree = get_empty_leaf_root(96);
    tree.set(b"apple", b"red").unwrap();
    tree.set(b"banana", b"yellow").unwrap();
    tree.delete(b"apple").unwrap();
    assert_eq!(tree.get(b"apple").unwrap(), None);
    assert_eq!(tree.get(b"banana").unwrap(), Some(b"yellow".to_vec()));
}

#[test]
fn deleting_a_new_key_gives_back_the_tree() {
    let mut tree = get_empty_leaf_root(96);
    let keys: Vec<Vec<u8>> = (0..40).map(|i| format!("k{:03}", i).into_bytes()).collect();
    for k in keys.iter() {
        tree.set(k, b"v").unwrap();
    }
    tree.set(b"k0205", b"new").unwrap();
    tree.delete(b"k0205").unwrap();
    assert_eq!(tree.get(b"k0205").unwrap(), None);
    for k in keys.iter() {
        assert_eq!(tree.get(k).unwrap(), Some(b"v".to_vec()));
    }
}

#[test]
fn empty_tree_holds_nothing() {
    let tree = get_empty_leaf_root(64);
    assert_eq!(tree.get(b"").unwrap(), None);
    assert_eq!(tree.get(b"anything").unwrap(), None);
}

#[test]
fn empty_key_and_value_are_stored() {
    let mut tree = get_empty_leaf_root(64);
    tree.set(b"", b"").unwrap();
    assert_eq!(tree.get(b"").unwrap(), Some(Vec::new()));
    tree.delete(b"").unwrap();
    assert_eq!(tree.get(b"").unwrap(), None);
}

#[test]
fn entry_bigger_than_a_page_is_refused_and_changes_nothing() {
    let mut tree = get_empty_leaf_root(64);
    tree.set(b"small", b"v").unwrap();
    let big = vec![7u8; 100];
    let res = tree.set(b"big", &big);
    assert!(matches!(res, Err(KvError::TreeLogicError(_))));
    assert_eq!(tree.get(b"big").unwrap(), None);
    assert_eq!(tree.get(b"small").unwrap(), Some(b"v".to_vec()));
}

#[test]
fn deleting_everything_in_any_order_leaves_an_empty_tree() {
    let mut tree = get_empty_leaf_root(96);
    let keys: Vec<Vec<u8>> = (0..200).map(|i| format!("{:05}", (i * 37) % 200).into_bytes()).collect();
    for (i, k) in keys.iter().enumerate() {
        tree.set(k, format!("value{}", i).as_bytes()).unwrap();
    }
    assert!(tree.page_manager.get_pages().len() > 3);
    for (i, k) in keys.iter().enumerate() {
        assert_eq!(tree.get(k).unwrap(), Some(format!("value{}", i).into_bytes()));
    }
    for k in keys.iter().rev() {
        tree.delete(k).unwrap();
        assert_eq!(tree.get(k).unwrap(), None);
    }
    for k in keys.iter() {
        assert!(matches!(tree.delete(k), Err(KvError::KeyNotFound(ref d)) if d == k));
    }
}

#[test]
fn root_gives_way_to_its_only_child() {
    let mut tree = get_empty_leaf_root(96);
    let keys: Vec<Vec<u8>> = (0..12).map(|i| format!("{:04}", i).into_bytes()).collect();
    for k in keys.iter() {
        tree.set(k, b"x").unwrap();
    }
    let root_before = get_root_page(&tree);
    assert!(!tree.page_manager.get_node(root_before).unwrap().is_leaf());
    for k in keys.iter() {
        tree.delete(k).unwrap();
    }
    let root_after = get_root_page(&tree);
    assert!(tree.page_manager.get_node(root_after).unwrap().is_leaf());
    assert!(tree.page_manager.get_node(root_before).is_err() || root_after == root_before);
}

#[test]
fn delete_reports_an_internal_node_without_routing_key() {
    // Thin limit 20, below what an internal node with a single child counts for (24).
    let mut tree = get_empty_internal_root(40);
    let a = new_internal(&mut tree.page_manager);
    let b = new_internal(&mut tree.page_manager);
    let c = new_leaf(&mut tree.page_manager);
    let d = new_leaf(&mut tree.page_manager);
    let root_page = get_root_page(&tree);
    let mut root = tree.page_manager.take_node(root_page).unwrap();
    root.as_internal_mut().push_lasts(b"k".to_vec(), a);
    root.as_internal_mut().push_child(b);
    tree.page_manager.put_node(root_page, root);
    let mut an = tree.page_manager.take_node(a).unwrap();
    an.as_internal_mut().push_child(c);
    tree.page_manager.put_node(a, an);
    let mut bn = tree.page_manager.take_node(b).unwrap();
    bn.as_internal_mut().push_child(d);
    tree.page_manager.put_node(b, bn);
    let res = tree.delete(b"a");
    assert!(matches!(res, Err(KvError::TreeLogicError(_))));
}

#[test]
fn thin_leaf_borrows_from_its_neighbour() {
    let mut tree = get_empty_internal_root(96);
    let l1 = new_leaf(&mut tree.page_manager);
    let l2 = new_leaf(&mut tree.page_manager);
    let root_page = get_root_page(&tree);
    let mut root = tree.page_manager.take_node(root_page).unwrap();
    root.as_internal_mut().push_lasts(b"b".to_vec(), l1);
    root.as_internal_mut().push_child(l2);
    tree.page_manager.put_node(root_page, root);
    let mut n1 = tree.page_manager.take_node(l1).unwrap();
    n1.as_leaf_mut().push_lasts(b"a".to_vec(), b"1".to_vec());
    n1.as_leaf_mut().push_lasts(b"b".to_vec(), b"2".to_vec());
    tree.page_manager.put_node(l1, n1);
    let mut n2 = tree.page_manager.take_node(l2).unwrap();
    for (k, v) in [(b"c", b"3"), (b"d", b"4"), (b"e", b"5"), (b"f", b"6")] {
        n2.as_leaf_mut().push_lasts(k.to_vec(), v.to_vec());
    }
    tree.page_manager.put_node(l2, n2);
    // l1 counts 16 + 2 * 18 = 52 > 48, l2 counts 16 + 4 * 18 = 88: descending into l1 is direct.
    tree.delete(b"a").unwrap();
    // l1 now counts 34 <= 48 and l2 can spare an entry: "c" moves over.
    tree.delete(b"b").unwrap();
    let root = tree.page_manager.get_node(root_page).unwrap().as_internal();
    assert_eq!(root.keys, vec![b"c".to_vec()]);
    let n1 = tree.page_manager.get_node(l1).unwrap().as_leaf();
    assert_eq!(n1.keys, vec![b"c".to_vec()]);
    let n2 = tree.page_manager.get_node(l2).unwrap().as_leaf();
    assert_eq!(n2.keys, vec![b"d".to_vec(), b"e".to_vec(), b"f".to_vec()]);
    assert_eq!(tree.get(b"c").unwrap(), Some(b"3".to_vec()));
    assert_eq!(tree.get(b"f").unwrap(), Some(b"6".to_vec()));
}

#[test]
fn nodes_of_both_kinds_are_built_empty() {
    let leaf = LeafNode::new();
    assert!(leaf.keys.is_empty() && leaf.values.is_empty());
    let internal = InternalNode::new();
    assert!(internal.keys.is_empty() && internal.children.is_empty());
    assert!(BTreeNode::Leaf(leaf).is_leaf());
    assert!(!BTreeNode::Internal(internal).is_leaf());
}

#[test]
fn small_entries_are_never_refused() {
    // With nodes of 96 bytes, keys and values of up to 6 bytes count for at most 14 bytes
    // each, and 4 * 14 + 40 <= 96.
    let mut tree = get_empty_leaf_root(96);
    let mut seed = 7u64;
    let mut stored = Vec::new();
    for i in 0..500u32 {
        seed = seed.wrapping_mul(6364136223846793005).wrapping_add(1442695040888963407);
        let key = format!("{:06}", seed % 1_000_000).into_bytes();
        let value = format!("{}", i % 1000).into_bytes();
        tree.set(&key, &value).unwrap();
        stored.push((key, value));
    }
    for (i, (key, _)) in stored.iter().enumerate() {
        if i % 3 == 0 {
            let _ = tree.delete(key);
        }
    }
    for (key, value) in stored.iter().skip(1).step_by(7) {
        tree.set(key, value).unwrap();
        assert_eq!(tree.get(key).unwrap(), Some(value.clone()));
    }
}

#[test]
fn freed_ids_are_handed_out_again_smallest_first() {
    let mut m = new_persistent_page_manager(96);
    let a = m.alloc_node(BTreeNode::Leaf(LeafNode::new())).unwrap();
    let b = m.alloc_node(BTreeNode::Leaf(LeafNode::new())).unwrap();
    let c = m.alloc_node(BTreeNode::Leaf(LeafNode::new())).unwrap();
    assert_eq!((a, b, c), (0, 1, 2));
    m.delete(c).unwrap();
    m.delete(a).unwrap();
    assert_eq!(m.alloc_node(BTreeNode::Leaf(LeafNode::new())).unwrap(), 0);
    assert_eq!(m.alloc_node(BTreeNode::Leaf(LeafNode::new())).unwrap(), 2);
    assert_eq!(m.alloc_node(BTreeNode::Leaf(LeafNode::new())).unwrap(), 3);
}

#[test]
fn full_root_leaf_splits_under_a_new_one_key_root() {
    // Each entry of one-byte key and value counts 18, the header 16: a third entry makes 70 > 64.
    let mut tree = get_empty_leaf_root(64);
    tree.set(b"a", b"1").unwrap();
    tree.set(b"b", b"2").unwrap();
    assert_eq!(get_root_page(&tree), 0);
    tree.set(b"c", b"3").unwrap();
    assert_eq!(get_root_page(&tree), 1);
    let root = tree.page_manager.get_node(1).unwrap().as_internal();
    assert_eq!(root.keys, vec![b"a".to_vec()]);
    assert_eq!(root.children, vec![0, 2]);
    assert_eq!(tree.page_manager.get_node(0).unwrap().as_leaf().keys, vec![b"a".to_vec()]);
    assert_eq!(tree.page_manager.get_node(2).unwrap().as_leaf().keys, vec![b"b".to_vec(), b"c".to_vec()]);
    for (k, v) in [(b"a", b"1"), (b"b", b"2"), (b"c", b"3")] {
        assert_eq!(tree.get(k).unwrap(), Some(v.to_vec()));
    }
}

#[test]
fn third_wide_entry_splits_the_root_and_is_stored() {
    let mut tree = get_empty_leaf_root(96);
    tree.set(b"key00001", b"value001").unwrap();
    tree.set(b"key00002", b"value002").unwrap();
    tree.set(b"key00003", b"value003").unwrap();
    assert!(!tree.page_manager.get_node(get_root_page(&tree)).unwrap().is_leaf());
    assert_eq!(tree.get(b"key00001").unwrap(), Some(b"value001".to_vec()));
    assert_eq!(tree.get(b"key00002").unwrap(), Some(b"value002".to_vec()));
    assert_eq!(tree.get(b"key00003").unwrap(), Some(b"value003".to_vec()));
}

#[test]
fn deletion_through_fat_children_changes_only_the_leaf() {
    let mut tree = get_empty_leaf_root(64);
    tree.set(b"a", b"1").unwrap();
    tree.set(b"b", b"2").unwrap();
    tree.set(b"c", b"3").unwrap();
    // Leaf 2 holds b and c (16 + 36 = 52 > 32): the way down to it passes no thin child.
    let root_keys = tree.page_manager.get_node(1).unwrap().as_internal().keys.clone();
    let root_children = tree.page_manager.get_node(1).unwrap().as_internal().children.clone();
    let left_keys = tree.page_manager.get_node(0).unwrap().as_leaf().keys.clone();
    tree.delete(b"c").unwrap();
    assert_eq!(get_root_page(&tree), 1);
    assert_eq!(tree.page_manager.get_node(1).unwrap().as_internal().keys, root_keys);
    assert_eq!(tree.page_manager.get_node(1).unwrap().as_internal().children, root_children);
    assert_eq!(tree.page_manager.get_node(0).unwrap().as_leaf().keys, left_keys);
    assert_eq!(tree.page_manager.get_node(2).unwrap().as_leaf().keys, vec![b"b".to_vec()]);
}

#[test]
fn outline_shows_pages_then_entries_last_child_first() {
    let mut tree = get_empty_leaf_root(64);
    tree.set(b"a", b"1").unwrap();
    tree.set(b"b", b"2").unwrap();
    tree.set(b"c", b"3").unwrap();
    let lines = tree.outline();
    assert_eq!(
        lines,
        vec![
            OutlineLine::Page { page: 1, depth: 0 },
            OutlineLine::Page { page: 2, depth: 1 },
            OutlineLine::Entry { leaf: 2, index: 0, depth: 1, under_last: false },
            OutlineLine::Entry { leaf: 2, index: 1, depth: 1, under_last: false },
            OutlineLine::Page { page: 0, depth: 1 },
            OutlineLine::Entry { leaf: 0, index: 0, depth: 1, under_last: true },
        ]
    );
}

#[test]
fn outline_of_an_empty_tree_is_its_root() {
    let tree = get_empty_leaf_root(64);
    assert_eq!(tree.outline(), vec![OutlineLine::Page { page: 0, depth: 0 }]);
}

#[test]
fn pushing_then_removing_the_last_entry_gives_the_leaf_back() {
    let mut leaf = LeafNode::new();
    leaf.push_lasts(b"a".to_vec(), b"1".to_vec());
    let keys = leaf.keys.clone();
    let values = leaf.values.clone();
    let (kt, it, next, pad) =
        (leaf.header.keys_total_size, leaf.header.items_total_size, leaf.header.next, leaf.header._padding);
    leaf.push_lasts(b"b".to_vec(), b"22".to_vec());
    let (k, v) = leaf.remove_lasts();
    assert_eq!((k, v), (b"b".to_vec(), b"22".to_vec()));
    assert_eq!(leaf.keys, keys);
    assert_eq!(leaf.values, values);
    assert_eq!(
        (leaf.header.keys_total_size, leaf.header.items_total_size, leaf.header.next, leaf.header._padding),
        (kt, it, next, pad)
    );
}

#[test]
fn splitting_off_then_appending_the_tail_gives_the_leaf_back() {
    let mut leaf = LeafNode::new();
    for (k, v) in [(b"a", b"1"), (b"b", b"2"), (b"c", b"3")] {
        leaf.push_lasts(k.to_vec(), v.to_vec());
    }
    let keys = leaf.keys.clone();
    let values = leaf.values.clone();
    let (kt, it) = (leaf.header.keys_total_size, leaf.header.items_total_size);
    let (mut tail_keys, mut tail_values) = leaf.split_off(1);
    assert_eq!(leaf.keys, vec![b"a".to_vec()]);
    assert_eq!(leaf.header.keys_total_size, kt - 18);
    leaf.append(&mut tail_keys, &mut tail_values);
    assert_eq!(leaf.keys, keys);
    assert_eq!(leaf.values, values);
    assert_eq!((leaf.header.keys_total_size, leaf.header.items_total_size), (kt, it));
}

#[test]
fn storing_the_same_pair_twice_changes_nothing_more() {
    let mut tree = get_empty_leaf_root(96);
    tree.set(b"k", b"v").unwrap();
    tree.set(b"other", b"w").unwrap();
    tree.set(b"k", b"v").unwrap();
    assert_eq!(tree.get(b"k").unwrap(), Some(b"v".to_vec()));
    assert_eq!(tree.get(b"other").unwrap(), Some(b"w".to_vec()));
}

#[test]
fn merging_the_last_two_children_frees_them_and_the_root() {
    let mut tree = get_empty_internal_root(96);
    let l1 = new_leaf(&mut tree.page_manager);
    let l2 = new_leaf(&mut tree.page_manager);
    assert_eq!((l1, l2), (1, 2));
    let root_page = get_root_page(&tree);
    let mut root = tree.page_manager.take_node(root_page).unwrap();
    root.as_internal_mut().push_lasts(b"a".to_vec(), l1);
    root.as_internal_mut().push_child(l2);
    tree.page_manager.put_node(root_page, root);
    let mut n1 = tree.page_manager.take_node(l1).unwrap();
    n1.as_leaf_mut().push_lasts(b"a".to_vec(), b"1".to_vec());
    tree.page_manager.put_node(l1, n1);
    let mut n2 = tree.page_manager.take_node(l2).unwrap();
    n2.as_leaf_mut().push_lasts(b"b".to_vec(), b"2".to_vec());
    tree.page_manager.put_node(l2, n2);
    tree.delete(b"b").unwrap();
    assert_eq!(get_root_page(&tree), 1);
    let leaf = tree.page_manager.get_node(1).unwrap().as_leaf();
    assert_eq!(leaf.keys, vec![b"a".to_vec()]);
    assert_eq!(leaf.values, vec![b"1".to_vec()]);
    assert!(matches!(tree.page_manager.get_node(0), Err(KvError::PageNotFound(0))));
    assert!(matches!(tree.page_manager.get_node(2), Err(KvError::PageNotFound(2))));
    assert_eq!(tree.get(b"a").unwrap(), Some(b"1".to_vec()));
}

#[test]
fn storing_twice_in_a_leaf_changes_nothing_more() {
    let mut once = LeafNode::new();
    once.push_lasts(b"a".to_vec(), b"1".to_vec());
    once.push_lasts(b"c".to_vec(), b"3".to_vec());
    let mut twice = LeafNode::new();
    twice.push_lasts(b"a".to_vec(), b"1".to_vec());
    twice.push_lasts(b"c".to_vec(), b"3".to_vec());
    once.set_key_value(b"b", b"22");
    twice.set_key_value(b"b", b"22");
    twice.set_key_value(b"b", b"22");
    assert_eq!(once.keys, twice.keys);
    assert_eq!(once.values, twice.values);
    assert_eq!(once.header, twice.header);
}

#[test]
fn small_pages_still_delete_present_keys() {
    // Thin limit 20, below what an internal node with a single child counts for.
    let mut tree = get_empty_leaf_root(40);
    tree.set(b"k", b"v").unwrap();
    tree.delete(b"k").unwrap();
    assert_eq!(tree.get(b"k").unwrap(), None);
    assert!(matches!(tree.delete(b"k"), Err(KvError::KeyNotFound(_))));
}

#[test]
fn a_grown_root_can_take_a_second_key_at_once() {
    // Entries count 35, 24 and 24 (a 16-byte header: 99 of 100); a fourth of 40 splits the
    // root, and the right half (64) is split again before it takes the entry.
    let mut tree = get_empty_leaf_root(100);
    tree.set(b"a", &[b'x'; 18]).unwrap();
    tree.set(b"b", &[b'y'; 7]).unwrap();
    tree.set(b"c", &[b'z'; 7]).unwrap();
    assert_eq!(get_root_page(&tree), 0);
    tree.set(b"d", &[b'w'; 23]).unwrap();
    let root = tree.page_manager.get_node(get_root_page(&tree)).unwrap().as_internal();
    assert_eq!(root.keys.len(), 2);
    assert_eq!(root.children.len(), 3);
    assert_eq!(root.children[0], 0);
    assert_eq!(tree.get(b"d").unwrap(), Some(vec![b'w'; 23]));
}
