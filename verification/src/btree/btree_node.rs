//! The header that every node carries, and a node of either kind.
use vstd::prelude::*;

use crate::btree::common::{PageId, NULL_PAGE_ID};
use crate::btree::internal_node::InternalNode;
use crate::btree::leaf_node::LeafNode;
use crate::btree::traits::{add_size, wrap16};

verus! {

/// Bytes the header of a node takes in its page.
pub const STORAGE_META_SIZE: u16 = 16;

/// The header of a node: a link to a next page, and what its keys and its other entries
/// (values or child page ids) count for.
#[derive(Debug, PartialEq, Eq)]
pub struct StorageMeta {
    pub next: PageId,
    pub items_total_size: u16,
    pub keys_total_size: u16,
    pub _padding: [u8; 4],
}

impl StorageMeta {
    /// Nothing counted, no next page, and zero padding.
    pub open spec fn is_fresh(&self) -> bool {
        &&& self.next == NULL_PAGE_ID
        &&& self.items_total_size == 0
        &&& self.keys_total_size == 0
        &&& self._padding@ == seq![0u8, 0u8, 0u8, 0u8]
    }

    /// A header with nothing counted and no next page.
    pub fn new() -> (r: Self)
        ensures
            r.is_fresh(),
    {
        Self { items_total_size: 0, keys_total_size: 0, next: NULL_PAGE_ID, _padding: [0, 0, 0, 0] }
    }

    /// The size of the header together with what it counts, wrapping around at 2^16.
    pub open spec fn spec_total_size(&self) -> u16 {
        wrap16(self.items_total_size + self.keys_total_size + STORAGE_META_SIZE)
    }

    /// What the node counts for in its page: its entries and the header itself.
    pub fn total_size_bytes(&self) -> (r: u16)
        ensures
            r == self.spec_total_size(),
    {
        let s = add_size(self.items_total_size, self.keys_total_size);
        let r = add_size(s, STORAGE_META_SIZE);
        proof {
            crate::btree::traits::lemma_wrap16_add(
                self.items_total_size + self.keys_total_size,
                STORAGE_META_SIZE as int,
            );
            crate::btree::traits::lemma_wrap16_idem(STORAGE_META_SIZE as int);
        }
        r
    }
}

/// A node of the tree: an internal node that routes keys to child pages, or a leaf that
/// holds keys and their values.
#[derive(Debug)]
pub enum BTreeNode {
    Internal(InternalNode),
    Leaf(LeafNode),
}

impl BTreeNode {
    pub open spec fn header(&self) -> StorageMeta {
        match self {
            BTreeNode::Internal(node) => node.header,
            BTreeNode::Leaf(node) => node.header,
        }
    }

    /// The keys of the node, as byte strings.
    pub open spec fn key_seq(&self) -> Seq<Seq<u8>> {
        match self {
            BTreeNode::Internal(node) => node.key_seq(),
            BTreeNode::Leaf(node) => node.key_seq(),
        }
    }

    /// Whether the header counts exactly what the node holds (modulo 2^16).
    pub open spec fn sizes_ok(&self) -> bool {
        match self {
            BTreeNode::Internal(node) => node.sizes_ok(),
            BTreeNode::Leaf(node) => node.sizes_ok(),
        }
    }

    /// What the node counts for in its page.
    pub fn total_size_bytes(&self) -> (r: u16)
        ensures
            r == self.header().spec_total_size(),
    {
        match self {
            BTreeNode::Internal(node) => node.header.total_size_bytes(),
            BTreeNode::Leaf(node) => node.header.total_size_bytes(),
        }
    }

    /// The number of keys, taken modulo 2^16.
    pub fn key_count(&self) -> (r: u16)
        ensures
            r == wrap16(self.key_seq().len() as int),
    {
        let n = match self {
            BTreeNode::Internal(node) => node.get_keys().len(),
            BTreeNode::Leaf(node) => node.get_keys().len(),
        };
        (n % 0x10000) as u16
    }

    pub fn is_leaf(&self) -> (r: bool)
        ensures
            r <==> self is Leaf,
    {
        match self {
            BTreeNode::Leaf(_) => true,
            _ => false,
        }
    }

    pub fn as_internal(&self) -> (r: &InternalNode)
        requires
            self is Internal,
        ensures
            *r == self->Internal_0,
    {
        match self {
            BTreeNode::Internal(node) => node,
            BTreeNode::Leaf(_) => vstd::pervasive::unreached(),
        }
    }

    pub fn as_internal_mut(&mut self) -> (r: &mut InternalNode)
        requires
            *old(self) is Internal,
        ensures
            *r == (*old(self))->Internal_0,
            *final(self) == BTreeNode::Internal(*final(r)),
    {
        match self {
            BTreeNode::Internal(node) => node,
            BTreeNode::Leaf(_) => vstd::pervasive::unreached(),
        }
    }

    pub fn as_leaf(&self) -> (r: &LeafNode)
        requires
            self is Leaf,
        ensures
            *r == self->Leaf_0,
    {
        match self {
            BTreeNode::Leaf(node) => node,
            BTreeNode::Internal(_) => vstd::pervasive::unreached(),
        }
    }

    pub fn as_leaf_mut(&mut self) -> (r: &mut LeafNode)
        requires
            *old(self) is Leaf,
        ensures
            *r == (*old(self))->Leaf_0,
            *final(self) == BTreeNode::Leaf(*final(r)),
    {
        match self {
            BTreeNode::Leaf(node) => node,
            BTreeNode::Internal(_) => vstd::pervasive::unreached(),
        }
    }
}

} // verus!
