//! Looking a key up: follow the routing keys from the root down to a leaf.
use vstd::prelude::*;

use crate::btree::btree::BTree;
use crate::btree::btree_node::BTreeNode;
use crate::btree::common::PageId;
use crate::btree::page_managers::page_manager::PageManager;
use crate::btree::tree_spec::{lookup, wf_subtree};
use crate::errors::KvResult;

verus! {

/// The byte string held by an optional vector.
pub open spec fn opt_bytes(o: Option<Vec<u8>>) -> Option<Seq<u8>> {
    match o {
        Some(v) => Some(v@),
        None => None,
    }
}

impl BTree {
    /// The value stored under `key`, if any.
    pub fn get(&self, key: &[u8]) -> (r: KvResult<Option<Vec<u8>>>)
        requires
            self.wf(),
        ensures
            r matches Ok(v) && opt_bytes(v) == self.value_of(key@),
    {
        let r = self.recursive_get(key, self.root, Ghost(self.height@ as int), Ghost(None), Ghost(None));
        r
    }

    fn recursive_get(
        &self,
        key: &[u8],
        page: PageId,
        Ghost(h): Ghost<int>,
        Ghost(lo): Ghost<Option<Seq<u8>>>,
        Ghost(hi): Ghost<Option<Seq<u8>>>,
    ) -> (r: KvResult<Option<Vec<u8>>>)
        requires
            self.page_manager.inv(),
            wf_subtree(self.page_manager.pages(), page, h, lo, hi),
        ensures
            r matches Ok(v) && opt_bytes(v) == lookup(self.page_manager.pages(), page, h, key@),
        decreases h,
    {
        let ghost pages = self.page_manager.pages();
        let node = match self.page_manager.get_node(page) {
            Ok(node) => node,
            Err(_) => vstd::pervasive::unreached(),
        };
        match node {
            BTreeNode::Internal(n) => {
                let child_idx = n.route_key_to_index(key);
                let child = n.get_child_by_index(child_idx);
                proof {
                    let ks = n.key_seq();
                    assert(pages[page] == *node);
                    assert(crate::btree::tree_spec::children_of(pages[page])[child_idx as int]
                        == n.children@[child_idx as int]);
                    assert(wf_subtree(
                        pages,
                        n.children@[child_idx as int],
                        h - 1,
                        crate::btree::tree_spec::child_lo(ks, lo, child_idx as int),
                        crate::btree::tree_spec::child_hi(ks, hi, child_idx as int),
                    ));
                }
                self.recursive_get(
                    key,
                    child,
                    Ghost(h - 1),
                    Ghost(crate::btree::tree_spec::child_lo(n.key_seq(), lo, child_idx as int)),
                    Ghost(crate::btree::tree_spec::child_hi(n.key_seq(), hi, child_idx as int)),
                )
            },
            BTreeNode::Leaf(n) => {
                let value = n.get_value_by_key(key);
                match value {
                    Some(value) => Ok(Some(value.clone())),
                    None => Ok(None),
                }
            },
        }
    }
}

} // verus!
