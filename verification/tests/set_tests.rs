use kv_store::btree::common::PageId;
use kv_store::btree::page_managers::page_manager::PageManager;
use kv_store::btree::test_utils::{get_empty_internal_root, get_empty_leaf_root, get_root_page, new_internal, new_leaf};

#[test]
fn test_first_set_in_root() {
    let mut tree = get_empty_leaf_root(64);
    tree.set(b"hello", b"world!").unwrap();

    let root = tree.page_manager.get_node(get_root_page(&tree)).unwrap().as_leaf();

    assert_eq!(root.header.keys_total_size, 5 + 8);
    assert_eq!(root.header.items_total_size, 6 + 8);
    assert_eq!(root.keys, vec![b"hello".to_vec()]);
    assert_eq!(root.values, vec![b"world!".to_vec()]);
}

#[test]
fn leaf_root_should_decide_to_split_when_full() {
    let mut tree = get_empty_leaf_root(64);

    tree.set(b"hi0", b"world").unwrap();
    tree.set(b"hi1", b"world").unwrap();

    assert_eq!(tree.page_manager.get_pages().len(), 1);
    // 64 - 16 - 2 * (3 + 5 + 2 * 8) = 0 bytes left
    tree.maybe_split_root(b"8longkey", b"3val").unwrap();
    assert_eq!(tree.page_manager.get_pages().len(), 3);
}

#[test]
fn internal_root_should_decide_to_split_when_full() {
    let mut tree = get_empty_internal_root(96);

    {
        let root_page = get_root_page(&tree);
        let mut root_node = tree.page_manager.take_node(root_page).unwrap();
        let root = root_node.as_internal_mut();
        // 80 bytes left
        root.push_lasts(b"k1".to_vec(), 1u64); // 2 + 8 + 8 = 18 bytes
        root.push_lasts(b"k2".to_vec(), 2u64); // 2 + 8 + 8 = 18 bytes
        root.push_lasts(b"k3".to_vec(), 3u64); // 2 + 8 + 8 = 18 bytes
        root.push_child(4u64); // 8 bytes
        tree.page_manager.put_node(root_page, root_node);
    }

    assert_eq!(tree.page_manager.get_pages().len(), 1);

    // 18 bytes left
    tree.maybe_split_root(b"k", b"val1").unwrap();
    assert_eq!(tree.page_manager.get_pages().len(), 1);

    tree.maybe_split_root(b"k1", b"val-000000001").unwrap();
    assert_eq!(tree.page_manager.get_pages().len(), 1);

    tree.maybe_split_root(b"key01", b"v1").unwrap();
    assert_eq!(tree.page_manager.get_pages().len(), 3);

    assert!(!tree.page_manager.get_node(0u64).unwrap().is_leaf());
    assert!(!tree.page_manager.get_node(2u64).unwrap().is_leaf());
    assert!(!tree.page_manager.get_node(1u64).unwrap().is_leaf());
}

#[test]
fn test_internal_node_split() {
    let mut tree = get_empty_internal_root(64);

    let i1_page = new_internal(&mut tree.page_manager);
    let i2_page = new_internal(&mut tree.page_manager);
    {
        let root_page = get_root_page(&tree);
        let mut root_node = tree.page_manager.take_node(root_page).unwrap();
        root_node.as_internal_mut().push_lasts(b"key6".to_vec(), i1_page);
        root_node.as_internal_mut().push_child(i2_page);
        tree.page_manager.put_node(root_page, root_node);
    }
    {
        let mut i1_node = tree.page_manager.take_node(i1_page).unwrap();
        let i1 = i1_node.as_internal_mut();
        // 48 bytes left
        i1.push_lasts(b"key0".to_vec(), 00u64);
        i1.push_lasts(b"key1".to_vec(), 10u64);
        i1.push_lasts(b"key2".to_vec(), 20u64);
        i1.push_child(30u64);
        tree.page_manager.put_node(i1_page, i1_node);
    }
    let root_page = get_root_page(&tree);
    tree.split_internal(root_page, i1_page, 0).unwrap();

    let root = tree.page_manager.get_node(root_page).unwrap().as_internal();
    assert_eq!(root.keys, vec![b"key1".to_vec(), b"key6".to_vec()]);
    assert_eq!(root.children.len(), 3);

    let first_child_page = root.get_child_by_index(0);
    let second_child_page = root.get_child_by_index(1);
    let third_child_page = root.get_child_by_index(2);

    assert_eq!(tree.page_manager.get_pages().len() - 1, second_child_page as usize);

    let first_child = tree.page_manager.get_node(first_child_page).unwrap().as_internal();
    assert_eq!(first_child.keys, vec![b"key0".to_vec()]);
    assert_eq!(first_child.children, vec![00u64, 10u64]);

    let second_child = tree.page_manager.get_node(second_child_page).unwrap().as_internal();
    assert_eq!(second_child.keys, vec![b"key2".to_vec()]);
    assert_eq!(second_child.children, vec![20u64, 30u64]);

    let third_child = tree.page_manager.get_node(third_child_page).unwrap().as_internal();
    assert_eq!(third_child.keys, Vec::<Vec<u8>>::new());
    assert_eq!(third_child.children, Vec::<PageId>::new());
}

#[test]
fn test_leaf_node_split() {
    let mut tree = get_empty_internal_root(96);

    let l1_page = new_leaf(&mut tree.page_manager);
    let l2_page = new_leaf(&mut tree.page_manager);
    {
        let root_page = get_root_page(&tree);
        let mut root_node = tree.page_manager.take_node(root_page).unwrap();
        root_node.as_internal_mut().push_lasts(b"k6".to_vec(), l1_page);
        root_node.as_internal_mut().push_child(l2_page);
        tree.page_manager.put_node(root_page, root_node);
    }
    {
        let mut l1_node = tree.page_manager.take_node(l1_page).unwrap();
        let l1 = l1_node.as_leaf_mut();
        // 48 bytes left
        l1.push_lasts(b"k0".to_vec(), b"v0".to_vec());
        l1.push_lasts(b"k1".to_vec(), b"v1".to_vec());
        l1.push_lasts(b"k2".to_vec(), b"v2".to_vec());
        l1.push_lasts(b"k3".to_vec(), b"v3".to_vec());
        tree.page_manager.put_node(l1_page, l1_node);
    }
    let root_page = get_root_page(&tree);
    tree.split_leaf(root_page, l1_page, 0).unwrap();

    let root = tree.page_manager.get_node(root_page).unwrap().as_internal();
    assert_eq!(root.keys, vec![b"k1".to_vec(), b"k6".to_vec()]);
    assert_eq!(root.children.len(), 3);

    let first_leaf_page = root.get_child_by_index(0);
    let second_leaf_page = root.get_child_by_index(1);
    let third_leaf_page = root.get_child_by_index(2);

    assert_eq!(tree.page_manager.get_pages().len() - 1, second_leaf_page as usize);

    let first_leaf = tree.page_manager.get_node(first_leaf_page).unwrap().as_leaf();
    assert_eq!(first_leaf.keys, vec![b"k0".to_vec(), b"k1".to_vec()]);
    assert_eq!(first_leaf.values, vec![b"v0".to_vec(), b"v1".to_vec()]);

    let second_leaf = tree.page_manager.get_node(second_leaf_page).unwrap().as_leaf();
    assert_eq!(second_leaf.keys, vec![b"k2".to_vec(), b"k3".to_vec()]);
    assert_eq!(second_leaf.values, vec![b"v2".to_vec(), b"v3".to_vec()]);

    let third_leaf = tree.page_manager.get_node(third_leaf_page).unwrap().as_leaf();
    assert_eq!(third_leaf.keys, Vec::<Vec<u8>>::new());
    assert_eq!(third_leaf.values, Vec::<Vec<u8>>::new());
}
