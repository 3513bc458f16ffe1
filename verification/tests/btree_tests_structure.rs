use kv_store::btree::btree_node::StorageMeta;

const EXPECTED_HEADER_SIZE_LEAF: usize = 16;
const EXPECTED_HEADER_SIZE_INTERNAL: usize = 16;

#[test]
fn test_header_sizes_should_be_constants() {
    assert_eq!(std::mem::size_of::<StorageMeta>(), EXPECTED_HEADER_SIZE_LEAF);
    assert_eq!(std::mem::size_of::<StorageMeta>(), EXPECTED_HEADER_SIZE_INTERNAL);
}
