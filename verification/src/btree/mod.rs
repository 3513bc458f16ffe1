pub mod btree;
pub mod btree_node;
pub mod common;
pub mod delete;
pub mod entry_sizes;
pub mod get;
pub mod internal_node;
pub mod key_order;
pub mod laws;
pub mod leaf_node;
pub mod outline;
pub mod page_managers;
pub mod set;
pub mod sibling_lemmas;
pub mod test_utils;
pub mod traits;
pub mod tree_lemmas;
pub mod tree_spec;

pub use btree::BTree;
