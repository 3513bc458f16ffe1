use kv_store::btree::common::{binary_search_key, compare_keys};
use kv_store::btree::page_managers::file_utils::{frame, framed_len};
use kv_store::btree::page_managers::page_manager::PageManager;
use kv_store::btree::test_utils::{new_leaf, new_persistent_page_manager};
use kv_store::errors::KvError;

#[test]
fn frame_puts_the_length_first_low_byte_first() {
    assert_eq!(frame(b"hello"), vec![5, 0, b'h', b'e', b'l', b'l', b'o']);
    assert_eq!(frame(b""), vec![0, 0]);
    let long = vec![1u8; 300];
    let framed = frame(&long);
    assert_eq!(&framed[..2], &[44, 1]);
    assert_eq!(&framed[2..], &long[..]);
}

#[test]
fn framed_length_is_read_back() {
    let long = vec![9u8; 1000];
    let framed = frame(&long);
    assert_eq!(framed_len(&framed[..2]), 1000);
    assert_eq!(framed_len(&[255, 255]), 65535);
}

#[test]
fn frame_length_wraps_at_two_bytes() {
    let huge = vec![0u8; 65537];
    let framed = frame(&huge);
    assert_eq!(&framed[..2], &[1, 0]);
    assert_eq!(framed.len(), 65539);
}

#[test]
fn freed_page_ids_come_back_smallest_first() {
    let mut pm = new_persistent_page_manager(64);
    let a = new_leaf(&mut pm);
    let b = new_leaf(&mut pm);
    let c = new_leaf(&mut pm);
    assert_eq!((a, b, c), (0, 1, 2));
    pm.delete(c).unwrap();
    pm.delete(a).unwrap();
    assert_eq!(new_leaf(&mut pm), 0);
    assert_eq!(new_leaf(&mut pm), 2);
    assert_eq!(new_leaf(&mut pm), 3);
}

#[test]
fn missing_page_is_reported() {
    let pm = new_persistent_page_manager(64);
    assert!(matches!(pm.get_node(999), Err(KvError::PageNotFound(999))));
}

#[test]
fn blocks_follow_each_other() {
    let pm = new_persistent_page_manager(64);
    assert_eq!(pm.get_block_offset(0), 0);
    assert_eq!(pm.get_block_offset(3), 198);
}

#[test]
fn written_pages_are_handed_out_once() {
    let mut pm = new_persistent_page_manager(64);
    let a = new_leaf(&mut pm);
    let b = new_leaf(&mut pm);
    pm.delete(a).unwrap();
    let mut dirty = pm.drain_dirty_pages();
    dirty.sort();
    assert_eq!(dirty, vec![b]);
    assert!(pm.drain_dirty_pages().is_empty());
    pm.mark_dirty(b).unwrap();
    assert_eq!(pm.drain_dirty_pages(), vec![b]);
}

#[test]
fn keys_compare_byte_by_byte() {
    assert!(compare_keys(b"abc", b"abd") < 0);
    assert!(compare_keys(b"ab", b"abc") < 0);
    assert_eq!(compare_keys(b"abc", b"abc"), 0);
    assert!(compare_keys(b"b", b"abc") > 0);
    assert!(compare_keys(b"", b"") == 0);
}

#[test]
fn binary_search_finds_keys_and_places() {
    let keys = vec![b"a".to_vec(), b"c".to_vec(), b"e".to_vec()];
    assert_eq!(binary_search_key(b"c", &keys), Ok(1));
    assert_eq!(binary_search_key(b"b", &keys), Err(1));
    assert_eq!(binary_search_key(b"f", &keys), Err(3));
    assert_eq!(binary_search_key(b"", &keys), Err(0));
}
