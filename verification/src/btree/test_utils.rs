//! Building small trees by hand: a page manager, a tree with an empty root of either kind,
//! and new empty nodes in pages of their own.
use vstd::prelude::*;

use crate::btree::btree::BTree;
use crate::btree::btree_node::BTreeNode;
use crate::btree::common::{PageId, NULL_PAGE_ID, PAGE_SIZE_PREFIX_BYTES};
use crate::btree::internal_node::InternalNode;
use crate::btree::leaf_node::LeafNode;
use crate::btree::page_managers::page_manager::PageManager;
use crate::btree::page_managers::persistent_page_manager::PersistentPageManager;

verus! {

/// A page manager with no pages, whose blocks have room for `page_size` useful bytes and
/// the length prefix in front of them.
pub fn new_persistent_page_manager(page_size: u16) -> (r: PersistentPageManager)
    requires
        page_size + PAGE_SIZE_PREFIX_BYTES <= u16::MAX,
    ensures
        r.inv(),
        r.pages() == Map::<PageId, BTreeNode>::empty(),
        r.allocated() == Set::<PageId>::empty(),
        r.next_page_id() == Some(0u64),
        r.spec_block_size() == page_size + PAGE_SIZE_PREFIX_BYTES,
        r.free_ids() == Set::<PageId>::empty(),
        r.fresh_id() == 0,
        r.ids_left() == NULL_PAGE_ID,
{
    PersistentPageManager::new(page_size + PAGE_SIZE_PREFIX_BYTES)
}

/// An empty tree whose root is a leaf, with nodes of `page_size` useful bytes.
pub fn get_empty_leaf_root(page_size: u16) -> (r: BTree)
    requires
        page_size + PAGE_SIZE_PREFIX_BYTES <= u16::MAX,
    ensures
        r.wf(),
        r@ == Map::<Seq<u8>, Seq<u8>>::empty(),
        r.height@ == 0,
        r.node_fat_limit_bytes == page_size,
        r.node_thin_limit_bytes == page_size / 2,
        r.root == 0,
        r.page_manager.pages().dom() == set![0u64],
        (r.page_manager.pages()[r.root] matches BTreeNode::Leaf(l) && l.keys@.len() == 0
            && l.values@.len() == 0 && l.header.is_fresh()),
        r.page_manager.free_ids() == Set::<PageId>::empty(),
        r.page_manager.fresh_id() == 1,
        r.page_manager.next_page_id() == Some(1u64),
        r.page_manager.ids_left() == NULL_PAGE_ID - 1,
{
    let manager = new_persistent_page_manager(page_size);
    let r = BTree::new(manager, page_size);
    proof {
        assert(r.page_manager.pages().dom() =~= set![0u64]);
        assert(r.page_manager.free_ids() =~= Set::<PageId>::empty());
        r.page_manager.lemma_next_page_id();
    }
    r
}

/// A tree whose root is an internal node with no keys and no children yet, to be filled
/// in by hand; the leaf root that a new tree starts with is freed first.
pub fn get_empty_internal_root(page_size: u16) -> (r: BTree)
    requires
        page_size + PAGE_SIZE_PREFIX_BYTES <= u16::MAX,
    ensures
        r.page_manager.inv(),
        r.page_manager.pages().dom() == set![r.root],
        r.page_manager.pages()[r.root] is Internal,
        r.page_manager.pages()[r.root]->Internal_0.keys@.len() == 0,
        r.page_manager.pages()[r.root]->Internal_0.children@.len() == 0,
        r.page_manager.pages()[r.root].sizes_ok(),
        r.page_manager.pages()[r.root]->Internal_0.header.is_fresh(),
        r.node_fat_limit_bytes == page_size,
        r.node_thin_limit_bytes == page_size / 2,
        r.root == 0,
        r.page_manager.free_ids() == Set::<PageId>::empty(),
        r.page_manager.fresh_id() == 1,
        r.page_manager.next_page_id() == Some(1u64),
        r.page_manager.ids_left() == NULL_PAGE_ID - 1,
{
    let manager = new_persistent_page_manager(page_size);
    let mut tree = BTree::new(manager, page_size);
    let old_root = get_root_page(&tree);
    proof {
        tree.page_manager.lemma_ids();
    }
    let _ = tree.page_manager.delete(old_root);
    let internal_root = BTreeNode::Internal(InternalNode::new());
    let ghost root_node = internal_root;
    let root_page = match tree.page_manager.alloc_node(internal_root) {
        Ok(id) => id,
        Err(_) => vstd::pervasive::unreached(),
    };
    tree.root = root_page;
    tree.height = Ghost(1);
    proof {
        assert(tree.page_manager.pages().dom() =~= set![root_page]);
        assert(tree.page_manager.pages()[root_page] == root_node);
        tree.page_manager.lemma_ids();
        assert(tree.page_manager.free_ids() =~= Set::<PageId>::empty());
        tree.page_manager.lemma_next_page_id();
    }
    tree
}

/// A new empty internal node in a page of its own.
pub fn new_internal(manager: &mut PersistentPageManager) -> (r: PageId)
    requires
        old(manager).inv(),
        old(manager).next_page_id() is Some,
    ensures
        final(manager).inv(),
        r == old(manager).next_page_id()->0,
        final(manager).pages().dom() == old(manager).pages().dom().insert(r),
        final(manager).pages()[r] is Internal,
        final(manager).pages()[r]->Internal_0.keys@.len() == 0,
        final(manager).pages()[r]->Internal_0.children@.len() == 0,
        final(manager).pages()[r].sizes_ok(),
        final(manager).pages()[r]->Internal_0.header.is_fresh(),
        final(manager).free_ids() == old(manager).free_ids().remove(r),
        final(manager).ids_left() == old(manager).ids_left() - 1,
        old(manager).free_ids().is_empty() ==> r == old(manager).fresh_id()
            && final(manager).fresh_id() == old(manager).fresh_id() + 1,
        old(manager).free_ids().is_empty() && old(manager).fresh_id() + 1 < NULL_PAGE_ID
            ==> final(manager).next_page_id() == Some((old(manager).fresh_id() + 1) as u64),
        forall|q: PageId|
            q != r ==> #[trigger] final(manager).pages().contains_key(q) == old(manager).pages().contains_key(q)
                && (old(manager).pages().contains_key(q) ==> final(manager).pages()[q] == old(
                manager,
            ).pages()[q]),
{
    let node = InternalNode::new();
    let r = match manager.alloc_node(BTreeNode::Internal(node)) {
        Ok(id) => id,
        Err(_) => vstd::pervasive::unreached(),
    };
    proof {
        manager.lemma_next_page_id();
    }
    r
}

/// A new empty leaf in a page of its own.
pub fn new_leaf(manager: &mut PersistentPageManager) -> (r: PageId)
    requires
        old(manager).inv(),
        old(manager).next_page_id() is Some,
    ensures
        final(manager).inv(),
        r == old(manager).next_page_id()->0,
        final(manager).pages().dom() == old(manager).pages().dom().insert(r),
        final(manager).pages()[r] is Leaf,
        final(manager).pages()[r]->Leaf_0.keys@.len() == 0,
        final(manager).pages()[r]->Leaf_0.values@.len() == 0,
        final(manager).pages()[r].sizes_ok(),
        final(manager).pages()[r]->Leaf_0.header.is_fresh(),
        final(manager).free_ids() == old(manager).free_ids().remove(r),
        final(manager).ids_left() == old(manager).ids_left() - 1,
        old(manager).free_ids().is_empty() ==> r == old(manager).fresh_id()
            && final(manager).fresh_id() == old(manager).fresh_id() + 1,
        old(manager).free_ids().is_empty() && old(manager).fresh_id() + 1 < NULL_PAGE_ID
            ==> final(manager).next_page_id() == Some((old(manager).fresh_id() + 1) as u64),
        forall|q: PageId|
            q != r ==> #[trigger] final(manager).pages().contains_key(q) == old(manager).pages().contains_key(q)
                && (old(manager).pages().contains_key(q) ==> final(manager).pages()[q] == old(
                manager,
            ).pages()[q]),
{
    let node = LeafNode::new();
    let r = match manager.alloc_node(BTreeNode::Leaf(node)) {
        Ok(id) => id,
        Err(_) => vstd::pervasive::unreached(),
    };
    proof {
        manager.lemma_next_page_id();
    }
    r
}

/// The page of the root.
pub fn get_root_page(tree: &BTree) -> (r: PageId)
    ensures
        r == tree.root,
{
    tree.root
}

} // verus!
