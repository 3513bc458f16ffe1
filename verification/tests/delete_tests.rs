use kv_store::btree::page_managers::page_manager::PageManager;
use kv_store::btree::test_utils::{get_empty_internal_root, get_root_page, new_internal, new_leaf};

#[test]
fn test_internal_node_merge() {
    let mut tree = get_empty_internal_root(64);

    let i1_page = new_internal(&mut tree.page_manager);
    let i2_page = new_internal(&mut tree.page_manager);
    let root_page = get_root_page(&tree);
    {
        let mut root_node = tree.page_manager.take_node(root_page).unwrap();
        root_node.as_internal_mut().push_lasts(b"key6".to_vec(), i1_page);
        root_node.as_internal_mut().push_child(i2_page);
        tree.page_manager.put_node(root_page, root_node);

        let mut i1_node = tree.page_manager.take_node(i1_page).unwrap();
        i1_node.as_internal_mut().push_lasts(b"key0".to_vec(), 00u64);
        i1_node.as_internal_mut().push_child(10u64);
        tree.page_manager.put_node(i1_page, i1_node);

        let mut i2_node = tree.page_manager.take_node(i2_page).unwrap();
        i2_node.as_internal_mut().push_lasts(b"key7".to_vec(), 70u64);
        i2_node.as_internal_mut().push_child(80u64);
        tree.page_manager.put_node(i2_page, i2_node);

        tree.merge_children(i1_page, i2_page, 0, root_page);
    }
    let merged = tree.page_manager.get_node(i1_page).unwrap().as_internal();
    assert_eq!(merged.keys, vec![b"key0".to_vec(), b"key6".to_vec(), b"key7".to_vec()]);
    assert_eq!(merged.children, vec![00u64, 10u64, 70u64, 80u64]);
}

#[test]
fn test_leaf_node_merge() {
    let mut tree = get_empty_internal_root(64);

    let l1_page = new_leaf(&mut tree.page_manager);
    let l2_page = new_leaf(&mut tree.page_manager);
    let root_page = get_root_page(&tree);
    {
        let mut root_node = tree.page_manager.take_node(root_page).unwrap();
        root_node.as_internal_mut().push_lasts(b"key6".to_vec(), l1_page);
        root_node.as_internal_mut().push_child(l2_page);
        tree.page_manager.put_node(root_page, root_node);

        let mut l1_node = tree.page_manager.take_node(l1_page).unwrap();
        l1_node.as_leaf_mut().push_lasts(b"key0".to_vec(), b"value0".to_vec());
        tree.page_manager.put_node(l1_page, l1_node);

        let mut l2_node = tree.page_manager.take_node(l2_page).unwrap();
        l2_node.as_leaf_mut().push_lasts(b"key7".to_vec(), b"value7".to_vec());
        tree.page_manager.put_node(l2_page, l2_node);

        let parent_page = get_root_page(&tree);
        tree.merge_children(l1_page, l2_page, 0, parent_page);
    }
    let merged = tree.page_manager.get_node(l1_page).unwrap().as_leaf();
    assert_eq!(merged.keys, vec![b"key0".to_vec(), b"key7".to_vec()]);
    assert_eq!(merged.values, vec![b"value0".to_vec(), b"value7".to_vec()]);
}
