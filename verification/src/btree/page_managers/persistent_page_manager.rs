//! Pages held in memory and handed out by id; freed ids are handed out again, smallest
//! first. Which pages were written since the last sync is kept for whoever writes them out.
use std::collections::HashMap;
use vstd::prelude::*;

use crate::btree::btree_node::BTreeNode;
use crate::btree::common::{PageId, NULL_PAGE_ID};
use crate::btree::page_managers::page_manager::PageManager;
use crate::errors::{KvError, KvResult};

verus! {

broadcast use vstd::std_specs::hash::group_hash_axioms;

pub struct PersistentPageManager {
    next_free_page_id: PageId,
    pages: HashMap<PageId, BTreeNode>,
    /// Freed ids, largest first, so that the smallest is at the end.
    free_list: Vec<PageId>,
    dirty_pages: Vec<PageId>,
    block_size: u16,
}

impl PersistentPageManager {
    /// The freed ids, waiting to be handed out again.
    pub closed spec fn free_ids(&self) -> Set<PageId> {
        self.free_list@.to_set()
    }

    /// The pages to be written out at the next sync.
    pub closed spec fn dirty_ids(&self) -> Set<PageId> {
        self.dirty_pages@.to_set()
    }

    pub closed spec fn spec_block_size(&self) -> u16 {
        self.block_size
    }

    /// The smallest id never handed out.
    pub closed spec fn fresh_id(&self) -> PageId {
        self.next_free_page_id
    }

    /// The id handed out next: the smallest freed id while there is one, else the smallest
    /// id never handed out, while it is below the null id.
    pub proof fn lemma_next_page_id(&self)
        requires
            self.inv(),
        ensures
            self.fresh_id() <= NULL_PAGE_ID,
            self.free_ids().is_empty() ==> self.next_page_id() == if self.fresh_id() < NULL_PAGE_ID {
                Some(self.fresh_id())
            } else {
                None
            },
            !self.free_ids().is_empty() ==> (self.next_page_id() matches Some(id) && self.free_ids().contains(id)
                && forall|f: PageId| #[trigger] self.free_ids().contains(f) ==> id <= f),
    {
        let fl = self.free_list@;
        if fl.len() > 0 {
            assert(fl.contains(fl.last()));
            assert forall|f: PageId| #[trigger] self.free_ids().contains(f) implies fl.last() <= f by {
                let k = choose|k: int| 0 <= k < fl.len() && fl[k] == f;
                if k < fl.len() - 1 {
                    assert(fl[k] > fl[fl.len() - 1]);
                }
            }
        } else {
            assert(self.free_ids() =~= Set::<PageId>::empty());
        }
        if !self.free_ids().is_empty() {
            let f = self.free_ids().choose();
            assert(self.free_ids().contains(f));
            assert(fl.contains(f));
        }
    }

    /// How many more ids can be handed out: the freed ones and those never handed out.
    pub closed spec fn ids_left(&self) -> int {
        self.free_list@.len() + (NULL_PAGE_ID - self.next_free_page_id)
    }

    /// An allocation finds an id exactly when some are left.
    pub proof fn lemma_ids_left(&self)
        requires
            self.inv(),
        ensures
            self.ids_left() >= 0,
            self.next_page_id() is Some <==> self.ids_left() > 0,
    {
    }

    /// A manager with no pages, whose pages are `block_size` bytes apart in the file.
    pub fn new(block_size: u16) -> (r: Self)
        ensures
            r.inv(),
            r.pages() == Map::<PageId, BTreeNode>::empty(),
            r.allocated() == Set::<PageId>::empty(),
            r.next_page_id() == Some(0u64),
            r.free_ids() == Set::<PageId>::empty(),
            r.dirty_ids() == Set::<PageId>::empty(),
            r.spec_block_size() == block_size,
            r.ids_left() == NULL_PAGE_ID,
            r.fresh_id() == 0,
    {
        let r = Self {
            next_free_page_id: 0,
            pages: HashMap::new(),
            free_list: Vec::new(),
            dirty_pages: Vec::new(),
            block_size,
        };
        assert(r.allocated() =~= Set::<PageId>::empty());
        assert(r.free_ids() =~= Set::<PageId>::empty());
        assert(r.dirty_ids() =~= Set::<PageId>::empty());
        r
    }

    /// Whether an allocation would find an id to hand out.
    pub fn can_alloc(&self) -> (r: bool)
        requires
            self.inv(),
        ensures
            r == self.next_page_id() is Some,
    {
        self.free_list.len() > 0 || self.next_free_page_id < NULL_PAGE_ID
    }

    /// Where `page_id` starts in the file.
    pub fn get_block_offset(&self, page_id: PageId) -> (r: u64)
        requires
            self.spec_block_size() * page_id <= u64::MAX,
        ensures
            r == self.spec_block_size() * page_id,
    {
        (self.block_size as u64) * page_id
    }

    /// Hands out the pages written since the last sync that are still in use, each once,
    /// and forgets them.
    pub fn drain_dirty_pages(&mut self) -> (r: Vec<PageId>)
        requires
            old(self).inv(),
        ensures
            final(self).inv(),
            final(self).pages() == old(self).pages(),
            final(self).allocated() == old(self).allocated(),
            final(self).next_page_id() == old(self).next_page_id(),
            final(self).free_ids() == old(self).free_ids(),
            final(self).dirty_ids() == Set::<PageId>::empty(),
            final(self).ids_left() == old(self).ids_left(),
            final(self).fresh_id() == old(self).fresh_id(),
            r@.no_duplicates(),
            r@.to_set() == old(self).dirty_ids().intersect(old(self).pages().dom()),
    {
        let mut out: Vec<PageId> = Vec::new();
        let mut i: usize = 0;
        while i < self.dirty_pages.len()
            invariant
                self == old(self),
                0 <= i <= self.dirty_pages@.len(),
                self.inv(),
                out@.no_duplicates(),
                forall|p: PageId|
                    out@.contains(p) <==> (exists|j: int|
                        0 <= j < i && self.dirty_pages@[j] == p) && self.pages@.contains_key(p),
            decreases self.dirty_pages@.len() - i,
        {
            let p = self.dirty_pages[i];
            if self.pages.contains_key(&p) {
                proof {
                    if out@.contains(p) {
                        let j = choose|j: int| 0 <= j < i && self.dirty_pages@[j] == p;
                        assert(self.dirty_pages@[j] == self.dirty_pages@[i as int]);
                    }
                }
                let ghost prev = out@;
                out.push(p);
                proof {
                    assert forall|q: PageId|
                        out@.contains(q) <==> (exists|j: int|
                            0 <= j < i + 1 && self.dirty_pages@[j] == q)
                            && self.pages@.contains_key(q) by {
                        if out@.contains(q) && q != p {
                            assert(prev.contains(q)) by {
                                let k = choose|k: int| 0 <= k < out@.len() && out@[k] == q;
                                assert(prev[k] == q);
                            }
                        }
                        if (exists|j: int| 0 <= j < i + 1 && self.dirty_pages@[j] == q)
                            && self.pages@.contains_key(q) && q != p {
                            let j = choose|j: int| 0 <= j < i + 1 && self.dirty_pages@[j] == q;
                            assert(j < i);
                            assert(prev.contains(q));
                            let k = choose|k: int| 0 <= k < prev.len() && prev[k] == q;
                            assert(out@[k] == q);
                        }
                        if q == p {
                            assert(out@[out@.len() - 1] == p);
                        }
                    }
                }
            } else {
                proof {
                    assert forall|q: PageId|
                        out@.contains(q) <==> (exists|j: int|
                            0 <= j < i + 1 && self.dirty_pages@[j] == q)
                            && self.pages@.contains_key(q) by {
                        if (exists|j: int| 0 <= j < i + 1 && self.dirty_pages@[j] == q)
                            && self.pages@.contains_key(q) {
                            let j = choose|j: int| 0 <= j < i + 1 && self.dirty_pages@[j] == q;
                            assert(j < i);
                        }
                    }
                }
            }
            i = i + 1;
        }
        self.dirty_pages.clear();
        proof {
            assert(self.dirty_ids() =~= Set::<PageId>::empty());
            assert(out@.to_set() =~= old(self).dirty_ids().intersect(old(self).pages().dom())) by {
                assert forall|q: PageId|
                    out@.to_set().contains(q) <==> old(self).dirty_ids().intersect(
                        old(self).pages().dom(),
                    ).contains(q) by {
                    if old(self).dirty_pages@.contains(q) && old(self).pages@.contains_key(q) {
                        let j = choose|j: int|
                            0 <= j < old(self).dirty_pages@.len() && old(self).dirty_pages@[j]
                                == q;
                        assert(exists|j: int|
                            0 <= j < old(self).dirty_pages@.len() && old(self).dirty_pages@[j]
                                == q);
                    }
                }
            }
        }
        out
    }
}

impl PageManager for PersistentPageManager {
    closed spec fn inv(&self) -> bool {
        &&& self.next_free_page_id <= NULL_PAGE_ID
        &&& forall|i: int, j: int|
            0 <= i < j < self.free_list@.len() ==> #[trigger] self.free_list@[i]
                > #[trigger] self.free_list@[j]
        &&& forall|i: int|
            0 <= i < self.free_list@.len() ==> #[trigger] self.free_list@[i]
                < self.next_free_page_id
        &&& forall|p: PageId| #[trigger]
            self.pages@.contains_key(p) ==> p < self.next_free_page_id
                && !self.free_list@.contains(p)
        &&& self.dirty_pages@.no_duplicates()
    }

    closed spec fn pages(&self) -> Map<PageId, BTreeNode> {
        self.pages@
    }

    closed spec fn allocated(&self) -> Set<PageId> {
        Set::new(|p: PageId| p < self.next_free_page_id && !self.free_list@.contains(p))
    }

    closed spec fn next_page_id(&self) -> Option<PageId> {
        if self.free_list@.len() > 0 {
            Some(self.free_list@.last())
        } else if self.next_free_page_id < NULL_PAGE_ID {
            Some(self.next_free_page_id)
        } else {
            None
        }
    }

    proof fn lemma_ids(&self) {
        if self.free_list@.len() > 0 {
            assert(self.free_list@.contains(self.free_list@.last()));
        }
    }

    fn get_pages(&self) -> (r: &HashMap<PageId, BTreeNode>) {
        &self.pages
    }

    fn get_node(&self, page: PageId) -> (r: KvResult<&BTreeNode>) {
        match self.pages.get(&page) {
            Some(node) => Ok(node),
            None => Err(KvError::PageNotFound(page)),
        }
    }

    fn take_node(&mut self, page: PageId) -> (r: KvResult<BTreeNode>)
        ensures
            final(self).ids_left() == old(self).ids_left(),
            final(self).fresh_id() == old(self).fresh_id(),
            final(self).free_ids() == old(self).free_ids(),
    {
        match self.pages.remove(&page) {
            Some(node) => {
                assert(self.allocated() =~= old(self).allocated());
                Ok(node)
            },
            None => {
                assert(self.pages@ == old(self).pages@);
                Err(KvError::PageNotFound(page))
            },
        }
    }

    fn put_node(&mut self, page: PageId, node: BTreeNode)
        ensures
            final(self).ids_left() == old(self).ids_left(),
            final(self).fresh_id() == old(self).fresh_id(),
            final(self).free_ids() == old(self).free_ids(),
    {
        self.pages.insert(page, node);
        assert(self.allocated() =~= old(self).allocated());
    }

    fn alloc_node(&mut self, node: BTreeNode) -> (r: KvResult<PageId>)
        ensures
            r matches Ok(id) ==> forall|f: PageId| old(self).free_ids().contains(f) ==> id <= f,
            r is Ok ==> final(self).free_ids() == old(self).free_ids().remove(r->Ok_0),
            r is Ok ==> final(self).dirty_ids() == old(self).dirty_ids().insert(r->Ok_0),
            r is Ok ==> final(self).ids_left() == old(self).ids_left() - 1,
            r is Err ==> final(self).ids_left() == old(self).ids_left(),
            r is Ok && old(self).free_ids().is_empty() ==> r->Ok_0 == old(self).fresh_id()
                && final(self).fresh_id() == old(self).fresh_id() + 1,
            r is Ok && !old(self).free_ids().is_empty() ==> old(self).free_ids().contains(r->Ok_0)
                && final(self).fresh_id() == old(self).fresh_id(),
            r is Err ==> final(self).fresh_id() == old(self).fresh_id(),
    {
        let id = match self.free_list.pop() {
            Some(id) => {
                proof {
                    let fl = old(self).free_list@;
                    assert forall|f: PageId| old(self).free_ids().contains(f) implies id <= f by {
                        let k = choose|k: int| 0 <= k < fl.len() && fl[k] == f;
                        if k < fl.len() - 1 {
                            assert(fl[k] > fl[fl.len() - 1]);
                        }
                    }
                    assert forall|p: PageId| #[trigger] self.free_list@.contains(p) <==> (
                    fl.contains(p) && p != id) by {
                        if fl.contains(p) && p != id {
                            let k = choose|k: int| 0 <= k < fl.len() && fl[k] == p;
                            assert(self.free_list@[k] == p);
                        }
                        if self.free_list@.contains(p) {
                            let k = choose|k: int|
                                0 <= k < self.free_list@.len() && self.free_list@[k] == p;
                            assert(fl[k] == p);
                            assert(fl[k] > fl[fl.len() - 1]);
                        }
                    }
                    assert(self.free_ids() =~= old(self).free_ids().remove(id));
                }
                id
            },
            None => {
                if self.next_free_page_id == NULL_PAGE_ID {
                    return Err(KvError::TreeLogicError("no page ids left".to_string()));
                }
                let id = self.next_free_page_id;
                self.next_free_page_id = self.next_free_page_id + 1;
                assert(self.free_ids() =~= old(self).free_ids().remove(id));
                id
            },
        };
        self.pages.insert(id, node);
        proof {
            if self.dirty_pages@.contains(id) {
            }
        }
        let ghost before_dirty = self.dirty_pages@;
        if !vec_contains(&self.dirty_pages, id) {
            self.dirty_pages.push(id);
            proof {
                assert forall|i: int, j: int|
                    0 <= i < j < self.dirty_pages@.len() implies self.dirty_pages@[i]
                    != self.dirty_pages@[j] by {
                    if j == self.dirty_pages@.len() - 1 {
                        assert(before_dirty[i] == self.dirty_pages@[i]);
                    }
                }
            }
        }
        proof {
            assert(self.allocated() =~= old(self).allocated().insert(id));
            before_dirty.lemma_push_to_set_commute(id);
            assert(self.dirty_ids() =~= old(self).dirty_ids().insert(id));
        }
        Ok(id)
    }

    fn delete(&mut self, page: PageId) -> (r: KvResult<()>)
        ensures
            final(self).free_ids() == old(self).free_ids().insert(page),
            final(self).dirty_ids() == old(self).dirty_ids(),
            final(self).ids_left() == old(self).ids_left() + 1,
            final(self).fresh_id() == old(self).fresh_id(),
    {
        self.pages.remove(&page);
        let mut i: usize = 0;
        while i < self.free_list.len() && self.free_list[i] > page
            invariant
                self.free_list == old(self).free_list,
                0 <= i <= self.free_list@.len(),
                forall|j: int| 0 <= j < i ==> self.free_list@[j] > page,
            decreases self.free_list@.len() - i,
        {
            i = i + 1;
        }
        let ghost fl = self.free_list@;
        self.free_list.insert(i, page);
        proof {
            assert(!fl.contains(page));
            assert forall|a: int, b: int|
                0 <= a < b < self.free_list@.len() implies #[trigger] self.free_list@[a]
                > #[trigger] self.free_list@[b] by {
                if b < i {
                } else if b == i {
                } else if a < i {
                    assert(self.free_list@[b] == fl[b - 1]);
                    assert(fl[b - 1] < page) by {
                        if fl[i as int] != page && b - 1 > i {
                            assert(fl[i as int] > fl[b - 1]);
                        }
                    }
                } else if a == i {
                    assert(self.free_list@[b] == fl[b - 1]);
                    if b - 1 > i {
                        assert(fl[i as int] > fl[b - 1]);
                    }
                    assert(fl[i as int] <= page);
                    assert(fl[i as int] != page);
                } else {
                    assert(self.free_list@[a] == fl[a - 1]);
                    assert(self.free_list@[b] == fl[b - 1]);
                }
            }
            assert forall|p: PageId| #[trigger] self.free_list@.contains(p) <==> (fl.contains(p)
                || p == page) by {
                if fl.contains(p) {
                    let k = choose|k: int| 0 <= k < fl.len() && fl[k] == p;
                    if k < i {
                        assert(self.free_list@[k] == p);
                    } else {
                        assert(self.free_list@[k + 1] == p);
                    }
                }
                if p == page {
                    assert(self.free_list@[i as int] == page);
                }
                if self.free_list@.contains(p) {
                    let k = choose|k: int|
                        0 <= k < self.free_list@.len() && self.free_list@[k] == p;
                    if k < i {
                        assert(fl[k] == p);
                    } else if k > i {
                        assert(fl[k - 1] == p);
                    }
                }
            }
            assert(self.allocated() =~= old(self).allocated().remove(page));
            assert(self.free_ids() =~= old(self).free_ids().insert(page));
        }
        Ok(())
    }

    fn mark_dirty(&mut self, page_id: PageId) -> (r: KvResult<()>)
        ensures
            final(self).dirty_ids() == old(self).dirty_ids().insert(page_id),
            final(self).ids_left() == old(self).ids_left(),
            final(self).fresh_id() == old(self).fresh_id(),
            final(self).free_ids() == old(self).free_ids(),
    {
        let ghost before = self.dirty_pages@;
        if !vec_contains(&self.dirty_pages, page_id) {
            self.dirty_pages.push(page_id);
            proof {
                assert forall|i: int, j: int|
                    0 <= i < j < self.dirty_pages@.len() implies self.dirty_pages@[i]
                    != self.dirty_pages@[j] by {
                    if j == self.dirty_pages@.len() - 1 {
                        assert(before[i] == self.dirty_pages@[i]);
                    }
                }
            }
        }
        proof {
            before.lemma_push_to_set_commute(page_id);
        }
        assert(self.dirty_ids() =~= old(self).dirty_ids().insert(page_id));
        Ok(())
    }
}

/// Whether `v` holds `x`.
fn vec_contains(v: &Vec<PageId>, x: PageId) -> (r: bool)
    ensures
        r == v@.contains(x),
{
    let mut i: usize = 0;
    while i < v.len()
        invariant
            0 <= i <= v@.len(),
            forall|j: int| 0 <= j < i ==> v@[j] != x,
        decreases v@.len() - i,
    {
        if v[i] == x {
            return true;
        }
        i = i + 1;
    }
    false
}

} // verus!
