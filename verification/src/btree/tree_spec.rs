//! What a tree of pages means: which pages form a well-formed B+ tree of a given height
//! whose keys lie within given bounds, and what such a tree maps each key to.
use vstd::prelude::*;

use crate::btree::btree_node::BTreeNode;
use crate::btree::common::PageId;
use crate::btree::key_order::{key_lt, route, sorted_keys};

verus! {

broadcast use crate::btree::key_order::group_key_order;

/// `k` is greater than the lower bound `lo`, when there is one.
pub open spec fn above(k: Seq<u8>, lo: Option<Seq<u8>>) -> bool {
    match lo {
        Some(l) => key_lt(l, k),
        None => true,
    }
}

/// `k` is at most the upper bound `hi`, when there is one.
pub open spec fn at_most(k: Seq<u8>, hi: Option<Seq<u8>>) -> bool {
    match hi {
        Some(h) => !key_lt(h, k),
        None => true,
    }
}

/// `k` is smaller than the upper bound `hi`, when there is one.
pub open spec fn below(k: Seq<u8>, hi: Option<Seq<u8>>) -> bool {
    match hi {
        Some(h) => key_lt(k, h),
        None => true,
    }
}

/// `lo < k <= hi`, each bound only where there is one.
pub open spec fn in_range(k: Seq<u8>, lo: Option<Seq<u8>>, hi: Option<Seq<u8>>) -> bool {
    above(k, lo) && at_most(k, hi)
}

/// The lower bound of child `i` of a node with routing keys `keys` and lower bound `lo`.
pub open spec fn child_lo(keys: Seq<Seq<u8>>, lo: Option<Seq<u8>>, i: int) -> Option<Seq<u8>> {
    if i == 0 {
        lo
    } else {
        Some(keys[i - 1])
    }
}

/// The upper bound of child `i` of a node with routing keys `keys` and upper bound `hi`.
pub open spec fn child_hi(keys: Seq<Seq<u8>>, hi: Option<Seq<u8>>, i: int) -> Option<Seq<u8>> {
    if i == keys.len() {
        hi
    } else {
        Some(keys[i])
    }
}

/// The child pages of a node (none for a leaf).
pub open spec fn children_of(n: BTreeNode) -> Seq<PageId> {
    match n {
        BTreeNode::Internal(m) => m.children@,
        BTreeNode::Leaf(_) => Seq::empty(),
    }
}

/// Page `q` is `p` or a page below `p`, going down at most `h` levels.
pub open spec fn in_subtree(pages: Map<PageId, BTreeNode>, p: PageId, h: int, q: PageId) -> bool
    decreases h,
{
    q == p || (h > 0 && pages.contains_key(p) && exists|j: int|
        0 <= j < children_of(pages[p]).len() && in_subtree(
            pages,
            #[trigger] children_of(pages[p])[j],
            h - 1,
            q,
        ))
}

/// What a node must satisfy on its own to stand at height `h` with bounds `lo` and `hi`:
/// leaves at height 0 and internal nodes above, sorted keys within the bounds (the routing
/// keys of an internal node strictly below the upper bound), one more child than routing
/// keys, as many values as keys, and a header that counts it all.
pub open spec fn node_ok(n: BTreeNode, h: int, lo: Option<Seq<u8>>, hi: Option<Seq<u8>>) -> bool {
    &&& n.sizes_ok()
    &&& sorted_keys(n.key_seq())
    &&& forall|i: int| 0 <= i < n.key_seq().len() ==> in_range(#[trigger] n.key_seq()[i], lo, hi)
    &&& match n {
        BTreeNode::Leaf(l) => h == 0 && l.paired(),
        BTreeNode::Internal(m) => {
            &&& h > 0
            &&& m.children@.len() == m.keys@.len() + 1
            &&& forall|i: int| 0 <= i < m.keys@.len() ==> below(#[trigger] n.key_seq()[i], hi)
        },
    }
}

/// The pages below `p` form a well-formed tree of height `h` whose keys lie within
/// `lo` and `hi`: every node is fine on its own, each child's keys lie between the routing
/// keys around it, and no page is reached twice.
pub open spec fn wf_subtree(
    pages: Map<PageId, BTreeNode>,
    p: PageId,
    h: int,
    lo: Option<Seq<u8>>,
    hi: Option<Seq<u8>>,
) -> bool
    decreases h,
{
    &&& pages.contains_key(p)
    &&& node_ok(pages[p], h, lo, hi)
    &&& h > 0 ==> {
        let n = pages[p];
        let ks = n.key_seq();
        let cs = children_of(n);
        &&& forall|j: int|
            0 <= j < cs.len() ==> wf_subtree(
                pages,
                #[trigger] cs[j],
                h - 1,
                child_lo(ks, lo, j),
                child_hi(ks, hi, j),
            )
        &&& forall|j1: int, j2: int, q: PageId|
            0 <= j1 < cs.len() && 0 <= j2 < cs.len() && j1 != j2 && #[trigger] in_subtree(
                pages,
                cs[j1],
                h - 1,
                q,
            ) ==> !#[trigger] in_subtree(pages, cs[j2], h - 1, q)
        &&& forall|j: int| 0 <= j < cs.len() ==> !in_subtree(pages, #[trigger] cs[j], h - 1, p)
    }
}

/// The value that the tree below `p`, of height `h`, holds for `k`: found by following the
/// routing keys down to a leaf.
pub open spec fn lookup(pages: Map<PageId, BTreeNode>, p: PageId, h: int, k: Seq<u8>) -> Option<
    Seq<u8>,
>
    decreases h,
{
    if !pages.contains_key(p) {
        None
    } else {
        match pages[p] {
            BTreeNode::Leaf(l) => l.spec_get(k),
            BTreeNode::Internal(m) => {
                let j = route(m.key_seq(), k);
                if h > 0 && 0 <= j < m.children@.len() {
                    lookup(pages, m.children@[j], h - 1, k)
                } else {
                    None
                }
            },
        }
    }
}

/// The map held by the tree below `p`.
pub open spec fn tree_map(pages: Map<PageId, BTreeNode>, p: PageId, h: int) -> Map<
    Seq<u8>,
    Seq<u8>,
> {
    Map::new(|k: Seq<u8>| lookup(pages, p, h, k) is Some, |k: Seq<u8>| lookup(pages, p, h, k)->0)
}

/// Every page of a well-formed tree is in use.
pub proof fn lemma_subtree_pages_exist(
    pages: Map<PageId, BTreeNode>,
    p: PageId,
    h: int,
    lo: Option<Seq<u8>>,
    hi: Option<Seq<u8>>,
    q: PageId,
)
    requires
        wf_subtree(pages, p, h, lo, hi),
        in_subtree(pages, p, h, q),
    ensures
        pages.contains_key(q),
    decreases h,
{
    if q != p {
        let cs = children_of(pages[p]);
        let ks = pages[p].key_seq();
        let j = choose|j: int| 0 <= j < cs.len() && in_subtree(pages, #[trigger] cs[j], h - 1, q);
        assert(wf_subtree(pages, cs[j], h - 1, child_lo(ks, lo, j), child_hi(ks, hi, j)));
        lemma_subtree_pages_exist(pages, cs[j], h - 1, child_lo(ks, lo, j), child_hi(ks, hi, j), q);
    }
}

/// A page below a child is below the parent.
pub proof fn lemma_child_in_subtree(pages: Map<PageId, BTreeNode>, p: PageId, h: int, j: int, q: PageId)
    requires
        h > 0,
        pages.contains_key(p),
        0 <= j < children_of(pages[p]).len(),
        in_subtree(pages, children_of(pages[p])[j], h - 1, q),
    ensures
        in_subtree(pages, p, h, q),
{
}

/// The pages below `p` and what the tree below `p` holds are the same in both maps.
pub open spec fn same_below(
    pages: Map<PageId, BTreeNode>,
    pages2: Map<PageId, BTreeNode>,
    p: PageId,
    h: int,
) -> bool {
    &&& forall|q: PageId| #[trigger] in_subtree(pages2, p, h, q) == in_subtree(pages, p, h, q)
    &&& forall|k: Seq<u8>| #[trigger] lookup(pages2, p, h, k) == lookup(pages, p, h, k)
}

/// Which pages are below `p`, and what the tree below `p` holds, depend only on the pages
/// below `p`.
pub proof fn lemma_frame(
    pages: Map<PageId, BTreeNode>,
    pages2: Map<PageId, BTreeNode>,
    p: PageId,
    h: int,
)
    requires
        forall|q: PageId|
            #[trigger] in_subtree(pages, p, h, q) ==> pages2.contains_key(q) == pages.contains_key(q)
                && (pages.contains_key(q) ==> pages2[q] == pages[q]),
    ensures
        same_below(pages, pages2, p, h),
    decreases h,
{
    assert(in_subtree(pages, p, h, p));
    if h > 0 && pages.contains_key(p) {
        let cs = children_of(pages[p]);
        assert forall|j: int| 0 <= j < cs.len() implies #[trigger] same_below(
            pages,
            pages2,
            cs[j],
            h - 1,
        ) by {
            assert forall|q: PageId| #[trigger] in_subtree(pages, cs[j], h - 1, q) implies pages2.contains_key(q)
                == pages.contains_key(q) && (pages.contains_key(q) ==> pages2[q] == pages[q]) by {
                lemma_child_in_subtree(pages, p, h, j, q);
            }
            lemma_frame(pages, pages2, cs[j], h - 1);
        }
        assert forall|q: PageId| #[trigger] in_subtree(pages2, p, h, q) == in_subtree(pages, p, h, q) by {
            if in_subtree(pages, p, h, q) && q != p {
                let j = choose|j: int| 0 <= j < cs.len() && in_subtree(pages, #[trigger] cs[j], h - 1, q);
                assert(same_below(pages, pages2, cs[j], h - 1));
                assert(in_subtree(pages2, cs[j], h - 1, q));
            }
            if in_subtree(pages2, p, h, q) && q != p {
                let j = choose|j: int| 0 <= j < cs.len() && in_subtree(pages2, #[trigger] cs[j], h - 1, q);
                assert(same_below(pages, pages2, cs[j], h - 1));
                assert(in_subtree(pages, cs[j], h - 1, q));
            }
        }
        assert forall|k: Seq<u8>| #[trigger] lookup(pages2, p, h, k) == lookup(pages, p, h, k) by {
            match pages[p] {
                BTreeNode::Internal(m) => {
                    let j = route(m.key_seq(), k);
                    if 0 <= j < m.children@.len() {
                        assert(same_below(pages, pages2, cs[j], h - 1));
                        assert(lookup(pages2, m.children@[j], h - 1, k) == lookup(
                            pages,
                            m.children@[j],
                            h - 1,
                            k,
                        ));
                    }
                },
                BTreeNode::Leaf(_) => {},
            }
        }
    }
}

/// The pages of `pages2` agree with those of `pages` on every page below `p`.
pub open spec fn agree_below(
    pages: Map<PageId, BTreeNode>,
    pages2: Map<PageId, BTreeNode>,
    p: PageId,
    h: int,
) -> bool {
    forall|q: PageId|
        #[trigger] in_subtree(pages, p, h, q) ==> pages2.contains_key(q) == pages.contains_key(q)
            && (pages.contains_key(q) ==> pages2[q] == pages[q])
}

/// A well-formed tree stays well-formed, and holds the same, wherever nothing below its
/// root changes.
pub proof fn lemma_frame_wf(
    pages: Map<PageId, BTreeNode>,
    pages2: Map<PageId, BTreeNode>,
    p: PageId,
    h: int,
    lo: Option<Seq<u8>>,
    hi: Option<Seq<u8>>,
)
    requires
        wf_subtree(pages, p, h, lo, hi),
        agree_below(pages, pages2, p, h),
    ensures
        wf_subtree(pages2, p, h, lo, hi),
        same_below(pages, pages2, p, h),
    decreases h,
{
    lemma_frame(pages, pages2, p, h);
    assert(in_subtree(pages, p, h, p));
    if h > 0 {
        let n = pages[p];
        let ks = n.key_seq();
        let cs = children_of(n);
        assert forall|j: int| 0 <= j < cs.len() implies wf_subtree(
            pages2,
            #[trigger] cs[j],
            h - 1,
            child_lo(ks, lo, j),
            child_hi(ks, hi, j),
        ) && same_below(pages, pages2, cs[j], h - 1) by {
            assert(wf_subtree(pages, cs[j], h - 1, child_lo(ks, lo, j), child_hi(ks, hi, j)));
            assert forall|q: PageId| #[trigger] in_subtree(pages, cs[j], h - 1, q) implies pages2.contains_key(q)
                == pages.contains_key(q) && (pages.contains_key(q) ==> pages2[q] == pages[q]) by {
                lemma_child_in_subtree(pages, p, h, j, q);
            }
            lemma_frame_wf(pages, pages2, cs[j], h - 1, child_lo(ks, lo, j), child_hi(ks, hi, j));
        }
        assert(children_of(pages2[p]) == cs);
        assert forall|j1: int, j2: int, q: PageId|
            0 <= j1 < cs.len() && 0 <= j2 < cs.len() && j1 != j2 && #[trigger] in_subtree(
                pages2,
                cs[j1],
                h - 1,
                q,
            ) implies !#[trigger] in_subtree(pages2, cs[j2], h - 1, q) by {
            assert(same_below(pages, pages2, cs[j1], h - 1));
            assert(same_below(pages, pages2, cs[j2], h - 1));
        }
        assert forall|j: int| 0 <= j < cs.len() implies !in_subtree(pages2, #[trigger] cs[j], h - 1, p) by {
            assert(same_below(pages, pages2, cs[j], h - 1));
        }
    }
}

/// A child of a well-formed node, none of whose pages is among `changed`, is just as it
/// was in `pages2` when `pages2` differs from `pages` only at pages of `changed` and at
/// pages not in use in `pages`.
pub proof fn lemma_unchanged_child(
    pages: Map<PageId, BTreeNode>,
    pages2: Map<PageId, BTreeNode>,
    p: PageId,
    h: int,
    lo: Option<Seq<u8>>,
    hi: Option<Seq<u8>>,
    j: int,
    changed: Set<PageId>,
)
    requires
        wf_subtree(pages, p, h, lo, hi),
        h > 0,
        0 <= j < children_of(pages[p]).len(),
        forall|q: PageId|
            pages.contains_key(q) && !changed.contains(q) ==> #[trigger] pages2.contains_key(q)
                && pages2[q] == pages[q],
        forall|q: PageId|
            changed.contains(q) ==> !#[trigger] in_subtree(pages, children_of(pages[p])[j], h - 1, q),
    ensures
        ({
            let c = children_of(pages[p])[j];
            let ks = pages[p].key_seq();
            &&& wf_subtree(pages2, c, h - 1, child_lo(ks, lo, j), child_hi(ks, hi, j))
            &&& wf_subtree(pages, c, h - 1, child_lo(ks, lo, j), child_hi(ks, hi, j))
            &&& same_below(pages, pages2, c, h - 1)
            &&& forall|q: PageId| #[trigger] in_subtree(pages, c, h - 1, q) ==> pages.contains_key(q)
        }),
{
    let c = children_of(pages[p])[j];
    let ks = pages[p].key_seq();
    assert(wf_subtree(pages, c, h - 1, child_lo(ks, lo, j), child_hi(ks, hi, j)));
    assert forall|q: PageId| #[trigger] in_subtree(pages, c, h - 1, q) implies pages.contains_key(q) by {
        lemma_subtree_pages_exist(pages, c, h - 1, child_lo(ks, lo, j), child_hi(ks, hi, j), q);
    }
    assert forall|q: PageId| #[trigger] in_subtree(pages, c, h - 1, q) implies pages2.contains_key(q)
        == pages.contains_key(q) && (pages.contains_key(q) ==> pages2[q] == pages[q]) by {
        assert(pages.contains_key(q));
        assert(!changed.contains(q));
        assert(pages2.contains_key(q));
    }
    lemma_frame_wf(pages, pages2, c, h - 1, child_lo(ks, lo, j), child_hi(ks, hi, j));
}

/// Whether `q` lies on the way that `key` is routed along from `p`, `p` itself included,
/// going down at most `h` levels.
pub open spec fn on_route(pages: Map<PageId, BTreeNode>, p: PageId, h: int, key: Seq<u8>, q: PageId) -> bool
    decreases h,
{
    q == p || (h > 0 && pages.contains_key(p) && pages[p] is Internal && 0 <= route(pages[p].key_seq(), key)
        < children_of(pages[p]).len() && on_route(
        pages,
        children_of(pages[p])[route(pages[p].key_seq(), key)],
        h - 1,
        key,
        q,
    ))
}

/// A page on the way of `key` is below the page it starts from.
pub proof fn lemma_on_route_in_subtree(pages: Map<PageId, BTreeNode>, p: PageId, h: int, key: Seq<u8>, q: PageId)
    requires
        on_route(pages, p, h, key, q),
    ensures
        in_subtree(pages, p, h, q),
    decreases h,
{
    if q != p {
        let j = route(pages[p].key_seq(), key);
        lemma_on_route_in_subtree(pages, children_of(pages[p])[j], h - 1, key, q);
        lemma_child_in_subtree(pages, p, h, j, q);
    }
}

/// The way of `key` from `p` depends only on the pages below `p`.
pub proof fn lemma_on_route_frame(
    pages: Map<PageId, BTreeNode>,
    pages2: Map<PageId, BTreeNode>,
    p: PageId,
    h: int,
    key: Seq<u8>,
    q: PageId,
)
    requires
        agree_below(pages, pages2, p, h),
    ensures
        on_route(pages2, p, h, key, q) == on_route(pages, p, h, key, q),
    decreases h,
{
    assert(in_subtree(pages, p, h, p));
    if h > 0 && pages.contains_key(p) && pages[p] is Internal {
        let j = route(pages[p].key_seq(), key);
        let cs = children_of(pages[p]);
        if 0 <= j < cs.len() {
            assert forall|x: PageId| #[trigger] in_subtree(pages, cs[j], h - 1, x) implies pages2.contains_key(x)
                == pages.contains_key(x) && (pages.contains_key(x) ==> pages2[x] == pages[x]) by {
                lemma_child_in_subtree(pages, p, h, j, x);
            }
            lemma_on_route_frame(pages, pages2, cs[j], h - 1, key, q);
        }
    }
}

/// The page that `key` is routed to from `page` after `h` levels, or the first leaf on the
/// way.
pub open spec fn path_leaf(pages: Map<PageId, BTreeNode>, page: PageId, h: int, key: Seq<u8>) -> PageId
    decreases h,
{
    if h > 0 && pages.contains_key(page) && pages[page] is Internal && 0 <= route(pages[page].key_seq(), key)
        < children_of(pages[page]).len() {
        path_leaf(pages, children_of(pages[page])[route(pages[page].key_seq(), key)], h - 1, key)
    } else {
        page
    }
}

/// Every key of a well-formed tree lies within its bounds.
pub proof fn lemma_lookup_in_range(
    pages: Map<PageId, BTreeNode>,
    p: PageId,
    h: int,
    lo: Option<Seq<u8>>,
    hi: Option<Seq<u8>>,
    k: Seq<u8>,
)
    requires
        wf_subtree(pages, p, h, lo, hi),
        lookup(pages, p, h, k) is Some,
    ensures
        in_range(k, lo, hi),
    decreases h,
{
    match pages[p] {
        BTreeNode::Leaf(l) => {
            let ks = l.key_seq();
            let i = choose|i: int| 0 <= i < ks.len() && ks[i] == k;
            assert(in_range(pages[p].key_seq()[i], lo, hi));
        },
        BTreeNode::Internal(m) => {
            let ks = m.key_seq();
            let j = route(ks, k);
            crate::btree::key_order::lemma_route(ks, k);
            assert(children_of(pages[p])[j] == m.children@[j]);
            lemma_lookup_in_range(pages, m.children@[j], h - 1, child_lo(ks, lo, j), child_hi(ks, hi, j), k);
            if j > 0 {
                assert(in_range(ks[j - 1], lo, hi));
            }
            if j < ks.len() {
                assert(in_range(ks[j], lo, hi));
            }
        },
    }
}

} // verus!
