//! The tree: a root page, the size limits that decide when nodes split and merge, and the
//! page manager that holds the nodes.
use vstd::prelude::*;

use crate::btree::btree_node::BTreeNode;
use crate::btree::common::PageId;
use crate::btree::leaf_node::LeafNode;
use crate::btree::page_managers::page_manager::PageManager;
use crate::btree::page_managers::persistent_page_manager::PersistentPageManager;
use crate::btree::tree_spec::{tree_map, wf_subtree};

verus! {

/// The kind of operation a log record is about.
pub enum OperationType {
    Get,
    Delete,
    SetValue,
}

/// A record of one operation: what it was, when it started and how long it took.
pub struct BTreeLogItem {
    pub operation_type: OperationType,
    pub start_timestamp_nanos: u128,
    pub duration: u128,
}

impl BTreeLogItem {
    pub fn new(operation_type: OperationType, start_timestamp_nanos: u128, duration: u128) -> (r: Self)
        ensures
            r.operation_type == operation_type,
            r.start_timestamp_nanos == start_timestamp_nanos,
            r.duration == duration,
    {
        BTreeLogItem { operation_type, start_timestamp_nanos, duration }
    }
}

/// A map from byte strings to byte strings, kept in a B+ tree of pages.
///
/// A node is split when an insertion would make it count for more than
/// `node_fat_limit_bytes`; a node that counts for no more than `node_thin_limit_bytes`
/// borrows from or is merged with a sibling when a deletion passes through it.
pub struct BTree {
    pub root: PageId,
    pub node_fat_limit_bytes: u16,
    pub node_thin_limit_bytes: u16,
    pub page_manager: PersistentPageManager,
    /// The number of levels below the root.
    pub height: Ghost<nat>,
}

impl View for BTree {
    type V = Map<Seq<u8>, Seq<u8>>;

    /// The map that the tree holds.
    open spec fn view(&self) -> Map<Seq<u8>, Seq<u8>> {
        tree_map(self.page_manager.pages(), self.root, self.height@ as int)
    }
}

impl BTree {
    /// The pages below the root form a well-formed tree, an internal root has a routing
    /// key, and the thin limit is half the fat one.
    pub open spec fn wf(&self) -> bool {
        &&& self.page_manager.inv()
        &&& wf_subtree(self.page_manager.pages(), self.root, self.height@ as int, None, None)
        &&& self.height@ > 0 ==> self.page_manager.pages()[self.root].key_seq().len() >= 1
        &&& self.node_thin_limit_bytes == self.node_fat_limit_bytes / 2
    }

    /// The value that the tree holds for `k`, if any.
    pub open spec fn value_of(&self, k: Seq<u8>) -> Option<Seq<u8>> {
        if self@.contains_key(k) {
            Some(self@[k])
        } else {
            None
        }
    }

    /// An empty tree whose root is a new leaf page; nodes split beyond `useful_page_size`
    /// bytes and count as thin at half that.
    pub fn new(page_manager: PersistentPageManager, useful_page_size: u16) -> (r: Self)
        requires
            page_manager.inv(),
            page_manager.next_page_id() is Some,
        ensures
            r.wf(),
            r@ == Map::<Seq<u8>, Seq<u8>>::empty(),
            r.height@ == 0,
            r.root == page_manager.next_page_id()->0,
            r.page_manager.pages() == page_manager.pages().insert(r.root, r.page_manager.pages()[r.root]),
            r.node_fat_limit_bytes == useful_page_size,
            r.node_thin_limit_bytes == useful_page_size / 2,
            (r.page_manager.pages()[r.root] matches BTreeNode::Leaf(l) && l.keys@.len() == 0
                && l.values@.len() == 0 && l.header.is_fresh()),
            r.page_manager.ids_left() == page_manager.ids_left() - 1,
            r.page_manager.free_ids() == page_manager.free_ids().remove(r.root),
            page_manager.free_ids().is_empty() ==> r.root == page_manager.fresh_id()
                && r.page_manager.fresh_id() == page_manager.fresh_id() + 1,
            !page_manager.free_ids().is_empty() ==> page_manager.free_ids().contains(r.root)
                && r.page_manager.fresh_id() == page_manager.fresh_id(),
    {
        let mut page_manager = page_manager;
        let root = LeafNode::new();
        let ghost root_node = BTreeNode::Leaf(root);
        let root_page = match page_manager.alloc_node(BTreeNode::Leaf(root)) {
            Ok(id) => id,
            Err(_) => vstd::pervasive::unreached(),
        };
        let tree = BTree {
            root: root_page,
            node_fat_limit_bytes: useful_page_size,
            node_thin_limit_bytes: useful_page_size / 2,
            page_manager,
            height: Ghost(0),
        };
        proof {
            let pages = tree.page_manager.pages();
            assert(pages[root_page] == root_node);
            assert(crate::btree::key_order::sorted_keys(root_node.key_seq()));
            assert(wf_subtree(pages, root_page, 0, None, None));
            assert(tree@ =~= Map::<Seq<u8>, Seq<u8>>::empty()) by {
                assert forall|k: Seq<u8>| !(#[trigger] crate::btree::tree_spec::lookup(pages, root_page, 0, k) is Some) by {
                    assert(root_node.key_seq().len() == 0);
                }
            }
        }
        tree
    }
}

} // verus!
