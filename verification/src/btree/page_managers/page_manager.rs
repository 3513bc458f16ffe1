//! What the tree asks of whatever keeps its nodes in pages.
use std::collections::HashMap;
use vstd::prelude::*;

use crate::btree::btree_node::BTreeNode;
use crate::btree::common::PageId;
use crate::errors::{KvError, KvResult};

verus! {

/// A store of nodes, each in a page with an id of its own.
pub trait PageManager: Sized {
    /// The manager's own invariant.
    spec fn inv(&self) -> bool;

    /// The node in each page.
    spec fn pages(&self) -> Map<PageId, BTreeNode>;

    /// The ids handed out and not freed since; a node taken out of its page leaves the id
    /// here until the page is freed.
    spec fn allocated(&self) -> Set<PageId>;

    /// The id that the next allocation will hand out, if there is one left.
    spec fn next_page_id(&self) -> Option<PageId>;

    /// Every page in use has an id that was handed out, and the id handed out next is not
    /// one of those.
    proof fn lemma_ids(&self)
        requires
            self.inv(),
        ensures
            self.pages().dom().subset_of(self.allocated()),
            self.next_page_id() matches Some(id) ==> !self.allocated().contains(id),
    ;

    /// The node in `page`, or `PageNotFound`.
    fn get_node(&self, page: PageId) -> (r: KvResult<&BTreeNode>)
        requires
            self.inv(),
        ensures
            match r {
                Ok(node) => self.pages().contains_key(page) && *node == self.pages()[page],
                Err(e) => !self.pages().contains_key(page) && e == KvError::PageNotFound(page),
            },
    ;

    /// Every page and its node.
    fn get_pages(&self) -> (r: &HashMap<PageId, BTreeNode>)
        requires
            self.inv(),
        ensures
            r@ == self.pages(),
    ;

    /// Takes the node out of `page` to change it; `put_node` puts it back.
    fn take_node(&mut self, page: PageId) -> (r: KvResult<BTreeNode>)
        requires
            old(self).inv(),
        ensures
            final(self).inv(),
            final(self).next_page_id() == old(self).next_page_id(),
            final(self).allocated() == old(self).allocated(),
            match r {
                Ok(node) => {
                    &&& old(self).pages().contains_key(page)
                    &&& node == old(self).pages()[page]
                    &&& final(self).pages() == old(self).pages().remove(page)
                },
                Err(e) => {
                    &&& !old(self).pages().contains_key(page)
                    &&& e == KvError::PageNotFound(page)
                    &&& final(self).pages() == old(self).pages()
                },
            },
    ;

    /// Puts `node` into `page`, a page that was handed out and not freed.
    fn put_node(&mut self, page: PageId, node: BTreeNode)
        requires
            old(self).inv(),
            old(self).allocated().contains(page),
        ensures
            final(self).inv(),
            final(self).pages() == old(self).pages().insert(page, node),
            final(self).next_page_id() == old(self).next_page_id(),
            final(self).allocated() == old(self).allocated(),
    ;

    /// Puts `node` into a page of its own and returns the page's id.
    fn alloc_node(&mut self, node: BTreeNode) -> (r: KvResult<PageId>)
        requires
            old(self).inv(),
        ensures
            final(self).inv(),
            match old(self).next_page_id() {
                Some(id) => {
                    &&& r == Ok::<PageId, KvError>(id)
                    &&& final(self).pages() == old(self).pages().insert(id, node)
                    &&& final(self).allocated() == old(self).allocated().insert(id)
                },
                None => {
                    &&& r is Err
                    &&& final(self).pages() == old(self).pages()
                    &&& final(self).allocated() == old(self).allocated()
                    &&& final(self).next_page_id() == old(self).next_page_id()
                },
            },
    ;

    /// Frees `page`, an id handed out and not freed since: its node, if it is in its page,
    /// is dropped, and its id may be handed out again.
    fn delete(&mut self, page: PageId) -> (r: KvResult<()>)
        requires
            old(self).inv(),
            old(self).allocated().contains(page),
        ensures
            final(self).inv(),
            r is Ok,
            final(self).pages() == old(self).pages().remove(page),
            final(self).allocated() == old(self).allocated().remove(page),
            final(self).next_page_id() is Some,
    ;

    /// Notes that `page_id` is to be written out at the next sync.
    fn mark_dirty(&mut self, page_id: PageId) -> (r: KvResult<()>)
        requires
            old(self).inv(),
        ensures
            final(self).inv(),
            r is Ok,
            final(self).pages() == old(self).pages(),
            final(self).next_page_id() == old(self).next_page_id(),
            final(self).allocated() == old(self).allocated(),
    ;
}

} // verus!
