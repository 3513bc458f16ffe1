//! Deleting a key: on the way down from the root, every child that is thin is first filled
//! up from a sibling that can spare an entry, or merged with it, so that the leaf reached
//! can lose an entry.
use vstd::prelude::*;

use crate::btree::btree::BTree;
use crate::btree::btree_node::{BTreeNode, STORAGE_META_SIZE};
use crate::btree::common::PageId;
use crate::btree::entry_sizes::{
    lemma_merged_within,
    lemma_rotated_within,
    lemma_seq_within_edit,
    node_within,
    pages_within,
    stays_within,
};
use crate::btree::key_order::{key_lt, keys_view, lemma_keys_view_edits, route, sorted_keys};
use crate::btree::page_managers::page_manager::PageManager;
use crate::btree::sibling_lemmas::{
    siblings_in,
    joined_children,
    joined_keys,
    joined_values,
    lemma_merge_premises,
    lemma_rotate_premises,
    lemma_siblings,
    merged_shape,
    rotated_key,
    rotated_shape,
};
use crate::btree::traits::{bytes_size, lemma_wrap16_idem, sum_sizes, wrap16, PAGE_ID_SIZE};
use crate::btree::tree_lemmas::{
    lemma_parent_after_child_update,
    lemma_parent_after_merge,
    lemma_parent_after_rotate,
};
use crate::btree::tree_spec::{
    child_hi,
    child_lo,
    children_of,
    in_range,
    in_subtree,
    lemma_child_in_subtree,
    lookup,
    path_leaf,
    tree_map,
    wf_subtree,
};
use crate::errors::{KvError, KvResult};

verus! {

broadcast use crate::btree::key_order::group_key_order;

/// What `merge_children` asks: three distinct pages in use, an internal parent with a
/// routing key at `a`, and two nodes of the same kind, the right one holding entries that
/// the left one can take.
pub open spec fn can_merge(
    pages: Map<PageId, BTreeNode>,
    parent: PageId,
    a: int,
    left: PageId,
    right: PageId,
) -> bool {
    &&& parent != left && parent != right && left != right
    &&& pages.contains_key(parent) && pages.contains_key(left) && pages.contains_key(right)
    &&& pages[parent] is Internal
    &&& 0 <= a < pages[parent].key_seq().len()
    &&& pages[left] is Internal <==> pages[right] is Internal
    &&& match pages[right] {
        BTreeNode::Leaf(l) => l.keys@.len() <= l.values@.len() + 1 && l.values@.len() <= l.keys@.len()
            + 1,
        BTreeNode::Internal(n) => n.children@.len() <= n.keys@.len() + 2 && n.keys@.len()
            <= n.children@.len(),
    }
}

/// What moving an entry between neighbouring children `a` and `a + 1` of `parent` asks:
/// three distinct pages in use, the two being those children, of the same kind, each
/// holding as many entries as its kind asks and counted by its header, and the donor
/// holding a key to give (two for a leaf, which must keep one).
pub open spec fn can_rotate(
    pages: Map<PageId, BTreeNode>,
    parent: PageId,
    a: int,
    donor_is_prev: bool,
) -> bool {
    let cs = children_of(pages[parent]);
    let x = cs[a];
    let y = cs[a + 1];
    let donor = if donor_is_prev {
        x
    } else {
        y
    };
    &&& pages.contains_key(parent) && pages[parent] is Internal
    &&& 0 <= a < pages[parent].key_seq().len()
    &&& a + 1 < cs.len()
    &&& parent != x && parent != y && x != y
    &&& pages.contains_key(x) && pages.contains_key(y)
    &&& pages[x] is Internal <==> pages[y] is Internal
    &&& forall|q: PageId| (q == x || q == y) ==> match #[trigger] pages[q] {
        BTreeNode::Leaf(l) => l.paired(),
        BTreeNode::Internal(n) => n.children@.len() == n.keys@.len() + 1,
    }
    &&& pages[parent].sizes_ok() && pages[x].sizes_ok() && pages[y].sizes_ok()
    &&& pages[donor].key_seq().len() >= if pages[donor] is Internal {
        1int
    } else {
        2int
    }
}

/// What deleting `key` leaves of the tree below `page`: still a well-formed tree within the
/// same bounds, made of no page that was not below `page` before, every other page as it
/// was, and holding what it held, without `key` when `removed`.
pub open spec fn deleted_below(
    pages: Map<PageId, BTreeNode>,
    pages2: Map<PageId, BTreeNode>,
    page: PageId,
    h: int,
    lo: Option<Seq<u8>>,
    hi: Option<Seq<u8>>,
    key: Seq<u8>,
    removed: bool,
) -> bool {
    &&& wf_subtree(pages2, page, h, lo, hi)
    &&& pages2.dom().subset_of(pages.dom())
    &&& forall|q: PageId|
        pages.contains_key(q) && !in_subtree(pages, page, h, q) ==> #[trigger] pages2.contains_key(q)
            && pages2[q] == pages[q]
    &&& forall|q: PageId| #[trigger] in_subtree(pages2, page, h, q) ==> in_subtree(pages, page, h, q)
    &&& forall|k: Seq<u8>|
        #[trigger] lookup(pages2, page, h, k) == if removed && k == key {
            None
        } else {
            lookup(pages, page, h, k)
        }
}

/// What a deletion answers: `Ok` only for a key that was there, `KeyNotFound` with the key
/// only for one that was not, and otherwise only `TreeLogicError`, which never comes when
/// a thin node is at least as big as an internal node with a single child.
pub open spec fn delete_outcome(r: KvResult<()>, key: Seq<u8>, present: bool, thin: u16) -> bool {
    &&& r is Ok ==> present
    &&& (r matches Err(KvError::KeyNotFound(k)) ==> k@ == key && !present)
    &&& r is Err ==> (r matches Err(KvError::KeyNotFound(_))) || (r matches Err(
        KvError::TreeLogicError(_),
    ))
    &&& thin >= STORAGE_META_SIZE + PAGE_ID_SIZE ==> r is Ok || (r matches Err(
        KvError::KeyNotFound(_),
    ))
}

/// Whether every child on the way from `page` down to the leaf of `key` counts for more
/// than `thin`, so that a deletion passes down without filling up or merging any.
#[verifier::opaque]
pub open spec fn fat_path(pages: Map<PageId, BTreeNode>, page: PageId, h: int, key: Seq<u8>, thin: u16) -> bool
    decreases h,
{
    &&& pages.contains_key(page)
    &&& match pages[page] {
        BTreeNode::Internal(m) => {
            let j = route(m.key_seq(), key);
            &&& h > 0
            &&& 0 <= j < m.children@.len()
            &&& pages.contains_key(m.children@[j])
            &&& pages[m.children@[j]].header().spec_total_size() > thin
            &&& fat_path(pages, m.children@[j], h - 1, key, thin)
        },
        BTreeNode::Leaf(_) => true,
    }
}

/// Whether deleting `key` rebalances at internal node `p`: the child that `key` goes to
/// counts for no more than `thin`, and it has a neighbour.
pub open spec fn thin_step(pages: Map<PageId, BTreeNode>, p: PageId, key: Seq<u8>, thin: u16) -> bool {
    let n = pages[p];
    let cs = children_of(n);
    let j = route(n.key_seq(), key);
    &&& n is Internal
    &&& 0 <= j < cs.len()
    &&& cs.len() >= 2
    &&& pages[cs[j]].header().spec_total_size() <= thin
}

/// The first of the two neighbouring children of `p` that a rebalancing for `key` involves:
/// the child before the one `key` goes to, if there is one, else that child itself.
pub open spec fn pair_start(pages: Map<PageId, BTreeNode>, p: PageId, key: Seq<u8>) -> int {
    let j = route(pages[p].key_seq(), key);
    if j > 0 {
        j - 1
    } else {
        j
    }
}

/// The neighbour that the thin child of `key` borrows from or merges with: the child before
/// it if there is one, else the child after it.
pub open spec fn donor_of(pages: Map<PageId, BTreeNode>, p: PageId, key: Seq<u8>) -> PageId {
    let j = route(pages[p].key_seq(), key);
    let cs = children_of(pages[p]);
    if j > 0 {
        cs[j - 1]
    } else {
        cs[j + 1]
    }
}

/// Whether a neighbour can give up an entry: it counts for more than `thin` and holds more
/// than two keys.
pub open spec fn can_donate(n: BTreeNode, thin: u16) -> bool {
    n.header().spec_total_size() > thin && wrap16(n.key_seq().len() as int) > 2
}

/// Whether, on the way of `key` down from `page`, an internal node with no routing key is
/// met whose only child, where `key` goes, counts for no more than `thin`: a thin child
/// with no neighbour to borrow from or merge with.
pub open spec fn stranded_on_route(pages: Map<PageId, BTreeNode>, page: PageId, h: int, key: Seq<u8>, thin: u16) -> bool
    decreases h,
{
    let n = pages[page];
    let c = children_of(n)[route(n.key_seq(), key)];
    &&& h > 0
    &&& pages.contains_key(page)
    &&& n is Internal
    &&& 0 <= route(n.key_seq(), key) < children_of(n).len()
    &&& pages.contains_key(c)
    &&& (n.key_seq().len() == 0 && pages[c].header().spec_total_size() <= thin) || stranded_on_route(
        pages,
        c,
        h - 1,
        key,
        thin,
    )
}

/// Whether the way of `key` meets a stranded thin child depends only on the pages below.
proof fn lemma_stranded_frame(
    pages: Map<PageId, BTreeNode>,
    pages2: Map<PageId, BTreeNode>,
    p: PageId,
    h: int,
    key: Seq<u8>,
    thin: u16,
)
    requires
        crate::btree::tree_spec::agree_below(pages, pages2, p, h),
    ensures
        stranded_on_route(pages2, p, h, key, thin) == stranded_on_route(pages, p, h, key, thin),
    decreases h,
{
    assert(in_subtree(pages, p, h, p));
    if h > 0 && pages.contains_key(p) && pages[p] is Internal {
        let j = route(pages[p].key_seq(), key);
        let cs = children_of(pages[p]);
        if 0 <= j < cs.len() {
            assert forall|x: PageId| #[trigger] in_subtree(pages, cs[j], h - 1, x) implies pages2.contains_key(x)
                == pages.contains_key(x) && (pages.contains_key(x) ==> pages2[x] == pages[x]) by {
                lemma_child_in_subtree(pages, p, h, j, x);
            }
            assert(in_subtree(pages, cs[j], h - 1, cs[j]));
            lemma_stranded_frame(pages, pages2, cs[j], h - 1, key, thin);
        }
    }
}

/// For a key routed to internal child `a` or `a + 1` of `p`, the place that the joined run of
/// the two gives it holds the grandchild that the child it was routed to gives it.
proof fn lemma_joined_route(
    pages: Map<PageId, BTreeNode>,
    p: PageId,
    h: int,
    lo: Option<Seq<u8>>,
    hi: Option<Seq<u8>>,
    a: int,
    key: Seq<u8>,
)
    requires
        siblings_in(pages, pages, p, h, lo, hi, a),
        pages[children_of(pages[p])[a]] is Internal,
        route(pages[p].key_seq(), key) == a || route(pages[p].key_seq(), key) == a + 1,
    ensures
        h > 1,
        ({
            let cs = children_of(pages[p]);
            let c = cs[route(pages[p].key_seq(), key)];
            let nx = pages[cs[a]].key_seq().len();
            let kk = joined_keys(pages, p, a);
            let gg = joined_children(pages, p, a);
            let jj = route(kk, key);
            &&& sorted_keys(kk)
            &&& gg.len() == kk.len() + 1
            &&& 0 <= jj <= kk.len()
            &&& pages[c] is Internal
            &&& 0 <= route(pages[c].key_seq(), key) < children_of(pages[c]).len()
            &&& children_of(pages[c])[route(pages[c].key_seq(), key)] == gg[jj]
            &&& route(pages[p].key_seq(), key) == a ==> jj <= nx
            &&& route(pages[p].key_seq(), key) == a + 1 ==> jj >= nx + 1
        }),
{
    lemma_siblings(pages, pages, p, h, lo, hi, a);
    assert(wf_subtree(
        pages,
        children_of(pages[p])[a],
        h - 1,
        crate::btree::sibling_lemmas::joined_lo(pages, p, lo, a),
        Some(pages[p].key_seq()[a]),
    ));
    assert(h > 1);
    crate::btree::sibling_lemmas::lemma_joined_internal(pages, pages, p, h, lo, hi, a);
    let ks = pages[p].key_seq();
    let cs = children_of(pages[p]);
    let s = ks[a];
    let x = cs[a];
    let y = cs[a + 1];
    let kx = pages[x].key_seq();
    let ky = pages[y].key_seq();
    let nx = kx.len() as int;
    let kk = joined_keys(pages, p, a);
    let gg = joined_children(pages, p, a);
    assert(kk == kx.push(s) + ky);
    assert(wf_subtree(pages, x, h - 1, crate::btree::sibling_lemmas::joined_lo(pages, p, lo, a), Some(s)));
    assert(wf_subtree(pages, y, h - 1, Some(s), crate::btree::sibling_lemmas::joined_hi(pages, p, hi, a)));
    crate::btree::key_order::lemma_route(ks, key);
    crate::btree::key_order::lemma_route(kk, key);
    assert(kk[nx] == s);
    if route(ks, key) == a {
        assert(!key_lt(s, key));
        crate::btree::key_order::lemma_route(kx, key);
        let jx = route(kx, key);
        assert forall|j: int| 0 <= j < jx implies key_lt(#[trigger] kk[j], key) by {
            assert(kk[j] == kx[j]);
        }
        assert forall|j: int| jx <= j < kk.len() implies !key_lt(#[trigger] kk[j], key) by {
            if j < nx {
                assert(kk[j] == kx[j]);
            } else if j > nx {
                assert(key_lt(kk[nx], kk[j]));
            }
        }
        crate::btree::key_order::lemma_route_unique(kk, key, jx);
        assert(gg[jx] == children_of(pages[x])[jx]);
    } else {
        assert(key_lt(s, key));
        crate::btree::key_order::lemma_route(ky, key);
        let jy = route(ky, key);
        assert forall|j: int| 0 <= j < nx + 1 + jy implies key_lt(#[trigger] kk[j], key) by {
            if j < nx {
                assert(key_lt(kk[j], kk[nx]));
            } else if j > nx {
                assert(kk[j] == ky[j - nx - 1]);
            }
        }
        assert forall|j: int| nx + 1 + jy <= j < kk.len() implies !key_lt(#[trigger] kk[j], key) by {
            assert(kk[j] == ky[j - nx - 1]);
        }
        crate::btree::key_order::lemma_route_unique(kk, key, nx + 1 + jy);
        assert(gg[nx + 1 + jy] == children_of(pages[y])[jy]);
    }
}

/// When a node rebuilt from entries `u` to `v` of the joined run of children `a` and `a + 1`
/// of `p`, holding a routing key, leads the way of a key routed within that part to a
/// stranded thin child, the child the key was routed to before led it there too.
proof fn lemma_stranded_after_join(
    pages0: Map<PageId, BTreeNode>,
    pages1: Map<PageId, BTreeNode>,
    p: PageId,
    h: int,
    lo: Option<Seq<u8>>,
    hi: Option<Seq<u8>>,
    a: int,
    key: Seq<u8>,
    u: int,
    v: int,
    c2: PageId,
    thin: u16,
)
    requires
        siblings_in(pages0, pages0, p, h, lo, hi, a),
        pages0[children_of(pages0[p])[a]] is Internal,
        route(pages0[p].key_seq(), key) == a || route(pages0[p].key_seq(), key) == a + 1,
        forall|z: PageId|
            pages0.contains_key(z) && z != p && z != children_of(pages0[p])[a] && z != children_of(pages0[p])[a
                + 1] ==> #[trigger] pages1.contains_key(z) && pages1[z] == pages0[z],
        pages1.contains_key(c2),
        pages1[c2] is Internal,
        0 <= u <= route(joined_keys(pages0, p, a), key) <= v <= joined_keys(pages0, p, a).len(),
        u < v,
        pages1[c2].key_seq() == joined_keys(pages0, p, a).subrange(u, v),
        children_of(pages1[c2]) == joined_children(pages0, p, a).subrange(u, v + 1),
        stranded_on_route(pages1, c2, h - 1, key, thin),
    ensures
        stranded_on_route(pages0, children_of(pages0[p])[route(pages0[p].key_seq(), key)], h - 1, key, thin),
{
    lemma_joined_route(pages0, p, h, lo, hi, a, key);
    crate::btree::sibling_lemmas::lemma_joined_internal(pages0, pages0, p, h, lo, hi, a);
    let kk = joined_keys(pages0, p, a);
    let gg = joined_children(pages0, p, a);
    let jj = route(kk, key);
    crate::btree::key_order::lemma_route_prefix(kk, v, key);
    crate::btree::key_order::lemma_sorted_subrange(kk, 0, v);
    crate::btree::key_order::lemma_route_suffix(kk.subrange(0, v), u, key);
    assert(kk.subrange(0, v).subrange(u, v) =~= kk.subrange(u, v));
    assert(route(pages1[c2].key_seq(), key) == jj - u);
    assert(children_of(pages1[c2])[jj - u] == gg[jj]);
    assert(pages1[c2].key_seq().len() != 0);
    assert(stranded_on_route(pages1, gg[jj], h - 2, key, thin));
    let cs = children_of(pages0[p]);
    assert forall|z: PageId| #[trigger] in_subtree(pages0, gg[jj], h - 2, z) implies pages1.contains_key(z)
        == pages0.contains_key(z) && (pages0.contains_key(z) ==> pages1[z] == pages0[z]) by {
        assert(pages0.contains_key(z) && z != p && z != cs[a] && z != cs[a + 1]);
    }
    lemma_stranded_frame(pages0, pages1, gg[jj], h - 2, key, thin);
    let c = cs[route(pages0[p].key_seq(), key)];
    lemma_siblings(pages0, pages0, p, h, lo, hi, a);
    assert(pages0.contains_key(c));
    assert(in_subtree(pages0, gg[jj], h - 2, gg[jj]));
    assert(pages0.contains_key(gg[jj]));
    assert(children_of(pages0[c])[route(pages0[c].key_seq(), key)] == gg[jj]);
    assert(stranded_on_route(pages0, c, h - 1, key, thin));
}

/// After children `a` and `a + 1` of `p` were merged into child `a`, a stranded thin child
/// on the way of `key` below the merged child was on the way of `key` from `p` before.
proof fn lemma_stranded_after_merge(
    pages0: Map<PageId, BTreeNode>,
    pages1: Map<PageId, BTreeNode>,
    p: PageId,
    h: int,
    lo: Option<Seq<u8>>,
    hi: Option<Seq<u8>>,
    a: int,
    key: Seq<u8>,
    thin: u16,
)
    requires
        wf_subtree(pages0, p, h, lo, hi),
        h > 0,
        0 <= a,
        a + 1 < children_of(pages0[p]).len(),
        merged_shape(pages0, pages1, p, a),
        route(pages0[p].key_seq(), key) == a || route(pages0[p].key_seq(), key) == a + 1,
        stranded_on_route(pages1, children_of(pages0[p])[a], h - 1, key, thin),
    ensures
        stranded_on_route(pages0, p, h, key, thin),
{
    let cs = children_of(pages0[p]);
    let x = cs[a];
    lemma_siblings(pages0, pages0, p, h, lo, hi, a);
    assert(pages1.dom() == pages0.dom().remove(cs[a + 1]));
    if pages0[x] is Internal {
        let kk = joined_keys(pages0, p, a);
        let gg = joined_children(pages0, p, a);
        assert(pages1[x].key_seq().len() >= 1);
        lemma_joined_route(pages0, p, h, lo, hi, a, key);
        assert(kk.subrange(0, kk.len() as int) =~= kk);
        assert(gg.subrange(0, kk.len() + 1int) =~= gg);
        lemma_stranded_after_join(pages0, pages1, p, h, lo, hi, a, key, 0, kk.len() as int, x, thin);
        let c = cs[route(pages0[p].key_seq(), key)];
        assert(pages0.contains_key(c));
    } else {
        assert(pages1[x] is Leaf);
    }
    assert(stranded_on_route(pages0, p, h, key, thin));
}

/// Whether every page below `page` in `pages` that is still in use in `pages2` is below
/// `page2` there: the pages that left the tree are exactly those that were freed.
pub open spec fn none_left_behind(
    pages: Map<PageId, BTreeNode>,
    pages2: Map<PageId, BTreeNode>,
    page: PageId,
    h: int,
    page2: PageId,
    h2: int,
) -> bool {
    forall|q: PageId|
        #[trigger] in_subtree(pages, page, h, q) && pages2.contains_key(q) ==> in_subtree(pages2, page2, h2, q)
}

/// A page strictly below internal child `a` or `a + 1` of `p` is below one of the children
/// of the joined run of the two.
proof fn lemma_joined_covers(
    pages: Map<PageId, BTreeNode>,
    p: PageId,
    h: int,
    lo: Option<Seq<u8>>,
    hi: Option<Seq<u8>>,
    a: int,
    b: int,
    q: PageId,
) -> (j: int)
    requires
        siblings_in(pages, pages, p, h, lo, hi, a),
        pages[children_of(pages[p])[a]] is Internal,
        b == a || b == a + 1,
        in_subtree(pages, children_of(pages[p])[b], h - 1, q),
        q != children_of(pages[p])[b],
    ensures
        0 <= j < joined_children(pages, p, a).len(),
        in_subtree(pages, joined_children(pages, p, a)[j], h - 2, q),
        b == a ==> j < pages[children_of(pages[p])[a]].key_seq().len() + 1,
        b == a + 1 ==> j >= pages[children_of(pages[p])[a]].key_seq().len() + 1,
{
    lemma_siblings(pages, pages, p, h, lo, hi, a);
    let cs = children_of(pages[p]);
    let x = cs[a];
    let c = cs[b];
    let gg = joined_children(pages, p, a);
    let gx = children_of(pages[x]);
    assert(wf_subtree(pages, x, h - 1, crate::btree::sibling_lemmas::joined_lo(pages, p, lo, a), Some(pages[p].key_seq()[a])));
    assert(gx.len() == pages[x].key_seq().len() + 1);
    let gc = children_of(pages[c]);
    let k = choose|k: int| 0 <= k < gc.len() && in_subtree(pages, #[trigger] gc[k], h - 1 - 1, q);
    if b == a {
        assert(gg[k] == gc[k]);
        k
    } else {
        assert(gg[gx.len() + k] == gc[k]);
        gx.len() + k
    }
}

/// Every page below `p` that a rotation between children `a` and `a + 1` kept in use is
/// still below `p`.
proof fn lemma_rotation_keeps_pages(
    pages0: Map<PageId, BTreeNode>,
    pages1: Map<PageId, BTreeNode>,
    p: PageId,
    h: int,
    lo: Option<Seq<u8>>,
    hi: Option<Seq<u8>>,
    a: int,
    i: int,
)
    requires
        wf_subtree(pages0, p, h, lo, hi),
        wf_subtree(pages1, p, h, lo, hi),
        h > 0,
        0 <= a,
        a + 1 < children_of(pages0[p]).len(),
        rotated_shape(pages0, pages1, p, a, i),
    ensures
        none_left_behind(pages0, pages1, p, h, p, h),
{
    let cs = children_of(pages0[p]);
    let ks = pages0[p].key_seq();
    let x = cs[a];
    let y = cs[a + 1];
    lemma_siblings(pages0, pages1, p, h, lo, hi, a);
    assert(children_of(pages1[p]) == cs);
    assert forall|q: PageId| #[trigger] in_subtree(pages0, p, h, q) && pages1.contains_key(q) implies in_subtree(
        pages1,
        p,
        h,
        q,
    ) by {
        if q != p {
            let j = choose|j: int| 0 <= j < cs.len() && in_subtree(pages0, #[trigger] cs[j], h - 1, q);
            if j != a && j != a + 1 {
                let changed = set![p, x, y];
                assert forall|z: PageId| changed.contains(z) implies !#[trigger] in_subtree(pages0, cs[j], h - 1, z) by {
                    assert(in_subtree(pages0, cs[a], h - 1, x));
                    assert(in_subtree(pages0, cs[a + 1], h - 1, y));
                }
                crate::btree::tree_spec::lemma_unchanged_child(pages0, pages1, p, h, lo, hi, j, changed);
                lemma_child_in_subtree(pages1, p, h, j, q);
            } else if q == cs[j] {
                assert(in_subtree(pages1, cs[j], h - 1, q));
                lemma_child_in_subtree(pages1, p, h, j, q);
            } else {
                assert(pages0[x] is Internal);
                crate::btree::sibling_lemmas::lemma_joined_internal(pages0, pages1, p, h, lo, hi, a);
                let jj = lemma_joined_covers(pages0, p, h, lo, hi, a, j, q);
                let gg = joined_children(pages0, p, a);
                let n = joined_keys(pages0, p, a).len() as int;
                assert(crate::btree::tree_spec::same_below(pages0, pages1, gg[jj], h - 2));
                assert(in_subtree(pages1, gg[jj], h - 2, q));
                if jj <= i {
                    assert(children_of(pages1[x])[jj] == gg[jj]);
                    lemma_child_in_subtree(pages1, x, h - 1, jj, q);
                    lemma_child_in_subtree(pages1, p, h, a, q);
                } else {
                    assert(children_of(pages1[y])[jj - i - 1] == gg[jj]);
                    lemma_child_in_subtree(pages1, y, h - 1, jj - i - 1, q);
                    lemma_child_in_subtree(pages1, p, h, a + 1, q);
                }
            }
        }
    }
}

/// Every page below `p` that merging children `a` and `a + 1` kept in use is still below
/// `p`.
proof fn lemma_merge_keeps_pages(
    pages0: Map<PageId, BTreeNode>,
    pages1: Map<PageId, BTreeNode>,
    p: PageId,
    h: int,
    lo: Option<Seq<u8>>,
    hi: Option<Seq<u8>>,
    a: int,
)
    requires
        wf_subtree(pages0, p, h, lo, hi),
        wf_subtree(pages1, p, h, lo, hi),
        h > 0,
        0 <= a,
        a + 1 < children_of(pages0[p]).len(),
        merged_shape(pages0, pages1, p, a),
    ensures
        none_left_behind(pages0, pages1, p, h, p, h),
{
    let cs = children_of(pages0[p]);
    let x = cs[a];
    let y = cs[a + 1];
    lemma_siblings(pages0, pages1, p, h, lo, hi, a);
    let cs1 = children_of(pages1[p]);
    assert(cs1 == cs.remove(a + 1));
    assert forall|q: PageId| #[trigger] in_subtree(pages0, p, h, q) && pages1.contains_key(q) implies in_subtree(
        pages1,
        p,
        h,
        q,
    ) by {
        if q != p {
            let j = choose|j: int| 0 <= j < cs.len() && in_subtree(pages0, #[trigger] cs[j], h - 1, q);
            if j != a && j != a + 1 {
                let changed = set![p, x, y];
                assert forall|z: PageId| changed.contains(z) implies !#[trigger] in_subtree(pages0, cs[j], h - 1, z) by {
                    assert(in_subtree(pages0, cs[a], h - 1, x));
                    assert(in_subtree(pages0, cs[a + 1], h - 1, y));
                }
                crate::btree::tree_spec::lemma_unchanged_child(pages0, pages1, p, h, lo, hi, j, changed);
                let j1 = if j < a { j } else { j - 1 };
                assert(cs1[j1] == cs[j]);
                lemma_child_in_subtree(pages1, p, h, j1, q);
            } else if q == cs[j] {
                assert(q == x);
                assert(cs1[a] == x);
                assert(in_subtree(pages1, cs1[a], h - 1, q));
                lemma_child_in_subtree(pages1, p, h, a, q);
            } else {
                assert(pages0[x] is Internal);
                crate::btree::sibling_lemmas::lemma_joined_internal(pages0, pages1, p, h, lo, hi, a);
                let jj = lemma_joined_covers(pages0, p, h, lo, hi, a, j, q);
                let gg = joined_children(pages0, p, a);
                assert(crate::btree::tree_spec::same_below(pages0, pages1, gg[jj], h - 2));
                assert(in_subtree(pages1, gg[jj], h - 2, q));
                assert(children_of(pages1[x])[jj] == gg[jj]);
                lemma_child_in_subtree(pages1, x, h - 1, jj, q);
                assert(cs1[a] == x);
                lemma_child_in_subtree(pages1, p, h, a, q);
            }
        }
    }
}

/// A deletion below child `j` of `p` that left none of the child's pages behind leaves
/// none of `p`'s behind.
proof fn lemma_none_left_through_child(
    pages1: Map<PageId, BTreeNode>,
    pages2: Map<PageId, BTreeNode>,
    p: PageId,
    h: int,
    lo: Option<Seq<u8>>,
    hi: Option<Seq<u8>>,
    j: int,
    key: Seq<u8>,
    removed: bool,
)
    requires
        wf_subtree(pages1, p, h, lo, hi),
        h > 0,
        0 <= j < children_of(pages1[p]).len(),
        deleted_below(
            pages1,
            pages2,
            children_of(pages1[p])[j],
            h - 1,
            child_lo(pages1[p].key_seq(), lo, j),
            child_hi(pages1[p].key_seq(), hi, j),
            key,
            removed,
        ),
        none_left_behind(pages1, pages2, children_of(pages1[p])[j], h - 1, children_of(pages1[p])[j], h - 1),
        pages2[p] == pages1[p],
        pages2.contains_key(p),
    ensures
        none_left_behind(pages1, pages2, p, h, p, h),
{
    let cs = children_of(pages1[p]);
    let c = cs[j];
    assert forall|q: PageId| #[trigger] in_subtree(pages1, p, h, q) && pages2.contains_key(q) implies in_subtree(
        pages2,
        p,
        h,
        q,
    ) by {
        if q != p {
            let k = choose|k: int| 0 <= k < cs.len() && in_subtree(pages1, #[trigger] cs[k], h - 1, q);
            if k == j {
                assert(in_subtree(pages2, c, h - 1, q));
            } else {
                assert forall|z: PageId| #[trigger] in_subtree(pages1, cs[k], h - 1, z) implies pages2.contains_key(z)
                    == pages1.contains_key(z) && (pages1.contains_key(z) ==> pages2[z] == pages1[z]) by {
                    assert(!in_subtree(pages1, c, h - 1, z));
                    crate::btree::tree_spec::lemma_subtree_pages_exist(
                        pages1,
                        cs[k],
                        h - 1,
                        child_lo(pages1[p].key_seq(), lo, k),
                        child_hi(pages1[p].key_seq(), hi, k),
                        z,
                    );
                }
                crate::btree::tree_spec::lemma_frame(pages1, pages2, cs[k], h - 1);
                assert(in_subtree(pages2, cs[k], h - 1, q));
            }
            lemma_child_in_subtree(pages2, p, h, k, q);
        }
    }
}

/// Two steps that each leave no page behind leave none behind together.
proof fn lemma_none_left_compose(
    pages0: Map<PageId, BTreeNode>,
    pages1: Map<PageId, BTreeNode>,
    pages2: Map<PageId, BTreeNode>,
    p: PageId,
    h: int,
)
    requires
        none_left_behind(pages0, pages1, p, h, p, h),
        none_left_behind(pages1, pages2, p, h, p, h),
        pages2.dom().subset_of(pages1.dom()),
    ensures
        none_left_behind(pages0, pages2, p, h, p, h),
{
    assert forall|q: PageId| #[trigger] in_subtree(pages0, p, h, q) && pages2.contains_key(q) implies in_subtree(
        pages2,
        p,
        h,
        q,
    ) by {
        assert(pages1.contains_key(q));
        assert(in_subtree(pages1, p, h, q));
    }
}

/// Whether some page other than the leaf that `key` is routed to was freed or changed.
pub open spec fn rebalanced(
    pages: Map<PageId, BTreeNode>,
    pages2: Map<PageId, BTreeNode>,
    page: PageId,
    h: int,
    key: Seq<u8>,
) -> bool {
    exists|q: PageId|
        #[trigger] pages.contains_key(q) && q != path_leaf(pages, page, h, key) && (!pages2.contains_key(q)
            || pages2[q] != pages[q])
}

/// The page that `key` is routed to is below the page it starts from.
proof fn lemma_path_leaf_in_subtree(pages: Map<PageId, BTreeNode>, p: PageId, h: int, key: Seq<u8>)
    ensures
        in_subtree(pages, p, h, path_leaf(pages, p, h, key)),
    decreases h,
{
    if h > 0 && pages.contains_key(p) && pages[p] is Internal && 0 <= route(pages[p].key_seq(), key)
        < children_of(pages[p]).len() {
        let j = route(pages[p].key_seq(), key);
        lemma_path_leaf_in_subtree(pages, children_of(pages[p])[j], h - 1, key);
        lemma_child_in_subtree(pages, p, h, j, path_leaf(pages, children_of(pages[p])[j], h - 1, key));
    }
}

/// An internal page of a well-formed tree is not the page that `key` is routed to from it.
proof fn lemma_path_leaf_below(
    pages: Map<PageId, BTreeNode>,
    p: PageId,
    h: int,
    lo: Option<Seq<u8>>,
    hi: Option<Seq<u8>>,
    key: Seq<u8>,
)
    requires
        wf_subtree(pages, p, h, lo, hi),
        pages[p] is Internal,
    ensures
        path_leaf(pages, p, h, key) != p,
{
    let ks = pages[p].key_seq();
    let j = route(ks, key);
    crate::btree::key_order::lemma_route(ks, key);
    let c = children_of(pages[p])[j];
    lemma_path_leaf_in_subtree(pages, c, h - 1, key);
    assert(!in_subtree(pages, c, h - 1, p));
}

/// Leaving the pages as they are deletes nothing.
proof fn lemma_nothing_deleted(
    pages: Map<PageId, BTreeNode>,
    page: PageId,
    h: int,
    lo: Option<Seq<u8>>,
    hi: Option<Seq<u8>>,
    key: Seq<u8>,
)
    requires
        wf_subtree(pages, page, h, lo, hi),
    ensures
        deleted_below(pages, pages, page, h, lo, hi, key, false),
{
}

/// A deletion below child `j` of `p`, after `p` itself was rebuilt without deleting
/// anything, is a deletion below `p`.
#[verifier::spinoff_prover]
proof fn lemma_delete_through_child(
    pages0: Map<PageId, BTreeNode>,
    pages1: Map<PageId, BTreeNode>,
    pages2: Map<PageId, BTreeNode>,
    p: PageId,
    h: int,
    lo: Option<Seq<u8>>,
    hi: Option<Seq<u8>>,
    j: int,
    key: Seq<u8>,
    removed: bool,
)
    requires
        wf_subtree(pages0, p, h, lo, hi),
        deleted_below(pages0, pages1, p, h, lo, hi, key, false),
        h > 0,
        0 <= j < children_of(pages1[p]).len(),
        route(pages1[p].key_seq(), key) == j,
        deleted_below(
            pages1,
            pages2,
            children_of(pages1[p])[j],
            h - 1,
            child_lo(pages1[p].key_seq(), lo, j),
            child_hi(pages1[p].key_seq(), hi, j),
            key,
            removed,
        ),
    ensures
        deleted_below(pages0, pages2, p, h, lo, hi, key, removed),
        pages2[p] == pages1[p],
        pages2.contains_key(p),
        lookup(pages1, children_of(pages1[p])[j], h - 1, key) == lookup(pages0, p, h, key),
{
    let ks1 = pages1[p].key_seq();
    let c = children_of(pages1[p])[j];
    lemma_parent_after_child_update(pages1, pages2, p, h, lo, hi, j);
    assert(!in_subtree(pages1, c, h - 1, p));
    assert forall|q: PageId|
        pages0.contains_key(q) && !in_subtree(pages0, p, h, q) implies #[trigger] pages2.contains_key(q)
        && pages2[q] == pages0[q] by {
        assert(pages1.contains_key(q) && pages1[q] == pages0[q]);
        if in_subtree(pages1, c, h - 1, q) {
            lemma_child_in_subtree(pages1, p, h, j, q);
            assert(in_subtree(pages0, p, h, q));
        }
        assert(!in_subtree(pages1, c, h - 1, q));
        assert(pages2.contains_key(q) && pages2[q] == pages1[q]);
    }
    assert forall|q: PageId| #[trigger] in_subtree(pages2, p, h, q) implies in_subtree(pages0, p, h, q) by {
        crate::btree::tree_spec::lemma_subtree_pages_exist(pages2, p, h, lo, hi, q);
        assert(pages1.contains_key(q));
    }
    assert forall|k: Seq<u8>| #[trigger] lookup(pages2, p, h, k) == if removed && k == key {
        None
    } else {
        lookup(pages0, p, h, k)
    } by {
        crate::btree::key_order::lemma_route(ks1, k);
        if route(ks1, k) == j {
            assert(lookup(pages1, p, h, k) == lookup(pages1, c, h - 1, k));
        }
    }
    assert(lookup(pages1, p, h, key) == lookup(pages1, c, h - 1, key));
}

/// A leaf that lost the entry of `key`, if it held one, is a deletion of `key`.
proof fn lemma_leaf_delete(
    pages0: Map<PageId, BTreeNode>,
    pages2: Map<PageId, BTreeNode>,
    page: PageId,
    lo: Option<Seq<u8>>,
    hi: Option<Seq<u8>>,
    key: Seq<u8>,
    removed: bool,
)
    requires
        wf_subtree(pages0, page, 0, lo, hi),
        pages2 == pages0.insert(page, pages2[page]),
        pages2[page] is Leaf,
        pages2[page]->Leaf_0.paired(),
        pages2[page].sizes_ok(),
        ({
            let ks = pages0[page].key_seq();
            let vs = pages0[page]->Leaf_0.value_seq();
            let i = route(ks, key);
            &&& removed <==> (i < ks.len() && ks[i] == key)
            &&& removed ==> pages2[page].key_seq() == ks.remove(i) && pages2[page]->Leaf_0.value_seq()
                == vs.remove(i)
            &&& !removed ==> pages2[page] == pages0[page]
        }),
    ensures
        deleted_below(pages0, pages2, page, 0, lo, hi, key, removed),
        removed <==> lookup(pages0, page, 0, key) is Some,
{
    let ks = pages0[page].key_seq();
    let vs = pages0[page]->Leaf_0.value_seq();
    let i = route(ks, key);
    crate::btree::key_order::lemma_route(ks, key);
    crate::btree::key_order::lemma_keys_view_edits(pages0[page]->Leaf_0.keys@, 0, vstd::pervasive::arbitrary(), pages0[page]->Leaf_0.keys@);
    crate::btree::key_order::lemma_keys_view_edits(pages0[page]->Leaf_0.values@, 0, vstd::pervasive::arbitrary(), pages0[page]->Leaf_0.values@);
    assert(pages2.dom() =~= pages0.dom());
    if removed {
        let ks2 = ks.remove(i);
        crate::btree::key_order::lemma_route_remove(ks, i, key);
        assert forall|t: int| 0 <= t < ks2.len() implies in_range(#[trigger] ks2[t], lo, hi) by {
            if t < i {
                assert(ks2[t] == ks[t]);
            } else {
                assert(ks2[t] == ks[t + 1]);
            }
        }
        assert forall|t: int| 0 <= t < pages2[page].key_seq().len() implies in_range(
            #[trigger] pages2[page].key_seq()[t],
            lo,
            hi,
        ) by {
            assert(pages2[page].key_seq()[t] == ks2[t]);
        }
        assert(wf_subtree(pages2, page, 0, lo, hi));
        assert forall|k: Seq<u8>| #[trigger] lookup(pages2, page, 0, k) == if removed && k == key {
            None
        } else {
            lookup(pages0, page, 0, k)
        } by {
            crate::btree::leaf_node::lemma_find_value_remove(ks, vs, i, k);
        }
        crate::btree::leaf_node::lemma_find_value(ks, vs, key, i);
    } else {
        assert forall|t: int| 0 <= t < ks.len() implies ks[t] != key by {
            if t < i {
                assert(key_lt(ks[t], key));
            } else if t > i {
                assert(key_lt(ks[i], ks[t]));
            }
        }
    }
}

/// What the tree below a root holds after a deletion there.
proof fn lemma_tree_map_after_delete(
    pages0: Map<PageId, BTreeNode>,
    pages2: Map<PageId, BTreeNode>,
    root: PageId,
    h: int,
    key: Seq<u8>,
    removed: bool,
)
    requires
        forall|k: Seq<u8>|
            #[trigger] lookup(pages2, root, h, k) == if removed && k == key {
                None
            } else {
                lookup(pages0, root, h, k)
            },
    ensures
        tree_map(pages2, root, h) == if removed {
            tree_map(pages0, root, h).remove(key)
        } else {
            tree_map(pages0, root, h)
        },
{
    if removed {
        assert(tree_map(pages2, root, h) =~= tree_map(pages0, root, h).remove(key));
    } else {
        assert(tree_map(pages2, root, h) =~= tree_map(pages0, root, h));
    }
}

/// An internal node with no routing key and a single child, counted by its header, counts
/// for its header and one page id.
proof fn lemma_lone_child_size(n: BTreeNode)
    requires
        n is Internal,
        n.sizes_ok(),
        n.key_seq().len() == 0,
        children_of(n).len() == 1,
    ensures
        n.header().spec_total_size() == STORAGE_META_SIZE + PAGE_ID_SIZE,
{
    assert(sum_sizes(n.key_seq()) == 0);
    lemma_wrap16_idem(0);
    lemma_wrap16_idem(8);
    lemma_wrap16_idem(24);
}

/// Moving entries between children `a` and `a + 1` of `p` as `fill_up` does deletes
/// nothing, and the new routing key between them lies on the side of the old one where the
/// entries came from.
proof fn lemma_rotation_keeps_tree(
    pages0: Map<PageId, BTreeNode>,
    pages1: Map<PageId, BTreeNode>,
    p: PageId,
    h: int,
    lo: Option<Seq<u8>>,
    hi: Option<Seq<u8>>,
    a: int,
    i: int,
    key: Seq<u8>,
)
    requires
        wf_subtree(pages0, p, h, lo, hi),
        h > 0,
        0 <= a,
        a + 1 < children_of(pages0[p]).len(),
        rotated_shape(pages0, pages1, p, a, i),
    ensures
        deleted_below(pages0, pages1, p, h, lo, hi, key, false),
        pages1[p].key_seq() == pages0[p].key_seq().update(a, rotated_key(pages0, p, a, i)),
        children_of(pages1[p]) == children_of(pages0[p]),
        ({
            let s = pages0[p].key_seq()[a];
            let s2 = rotated_key(pages0, p, a, i);
            let nx = pages0[children_of(pages0[p])[a]].key_seq().len();
            &&& i < nx ==> key_lt(s2, s)
            &&& i > nx ==> key_lt(s, s2)
        }),
{
    let cs = children_of(pages0[p]);
    lemma_rotate_premises(pages0, pages1, p, h, lo, hi, a, i);
    lemma_parent_after_rotate(pages0, pages1, p, h, lo, hi, a, rotated_key(pages0, p, a, i));
    assert(in_subtree(pages0, cs[a], h - 1, cs[a]));
    assert(in_subtree(pages0, cs[a + 1], h - 1, cs[a + 1]));
    lemma_child_in_subtree(pages0, p, h, a, cs[a]);
    lemma_child_in_subtree(pages0, p, h, a + 1, cs[a + 1]);
    assert(in_subtree(pages0, p, h, p));
    assert(pages1.dom().subset_of(pages0.dom()));
}

/// Merging children `a` and `a + 1` of `p` as `recursive_delete` does deletes nothing.
proof fn lemma_merge_keeps_tree(
    pages0: Map<PageId, BTreeNode>,
    pages1: Map<PageId, BTreeNode>,
    p: PageId,
    h: int,
    lo: Option<Seq<u8>>,
    hi: Option<Seq<u8>>,
    a: int,
    key: Seq<u8>,
)
    requires
        wf_subtree(pages0, p, h, lo, hi),
        h > 0,
        0 <= a,
        a + 1 < children_of(pages0[p]).len(),
        merged_shape(pages0, pages1, p, a),
    ensures
        deleted_below(pages0, pages1, p, h, lo, hi, key, false),
        pages1[p].key_seq() == pages0[p].key_seq().remove(a),
        children_of(pages1[p]) == children_of(pages0[p]).remove(a + 1),
{
    let cs = children_of(pages0[p]);
    lemma_merge_premises(pages0, pages1, p, h, lo, hi, a);
    lemma_parent_after_merge(pages0, pages1, p, h, lo, hi, a);
    assert(in_subtree(pages0, cs[a], h - 1, cs[a]));
    assert(in_subtree(pages0, cs[a + 1], h - 1, cs[a + 1]));
    lemma_child_in_subtree(pages0, p, h, a, cs[a]);
    lemma_child_in_subtree(pages0, p, h, a + 1, cs[a + 1]);
    assert(in_subtree(pages0, p, h, p));
    assert(pages1.dom().subset_of(pages0.dom()));
}

/// A key within the bounds of a node lies within the bounds of the child it is routed to.
proof fn lemma_key_in_child(ks: Seq<Seq<u8>>, lo: Option<Seq<u8>>, hi: Option<Seq<u8>>, key: Seq<u8>)
    requires
        sorted_keys(ks),
        in_range(key, lo, hi),
    ensures
        0 <= route(ks, key) <= ks.len(),
        in_range(key, child_lo(ks, lo, route(ks, key)), child_hi(ks, hi, route(ks, key))),
{
    crate::btree::key_order::lemma_route(ks, key);
    let r = route(ks, key);
    if r > 0 {
        assert(key_lt(ks[r - 1], key));
    }
    if r < ks.len() {
        assert(!key_lt(ks[r], key));
    }
}

impl BTree {
    /// Moves the entries of the node in `right_page` to the end of the node in
    /// `left_page`; between internal nodes the routing key at `left_child_index` of the
    /// parent comes down between the two. The right node is left empty and the parent as
    /// it was.
    pub fn merge_children(
        &mut self,
        left_page: PageId,
        right_page: PageId,
        left_child_index: usize,
        parent_page: PageId,
    )
        requires
            old(self).page_manager.inv(),
            can_merge(
                old(self).page_manager.pages(),
                parent_page,
                left_child_index as int,
                left_page,
                right_page,
            ),
        ensures
            final(self).page_manager.inv(),
            final(self).root == old(self).root,
            final(self).height == old(self).height,
            final(self).node_fat_limit_bytes == old(self).node_fat_limit_bytes,
            final(self).node_thin_limit_bytes == old(self).node_thin_limit_bytes,
            final(self).page_manager.ids_left() == old(self).page_manager.ids_left(),
            ({
                let pages = old(self).page_manager.pages();
                let pages2 = final(self).page_manager.pages();
                let xn = pages[left_page];
                let yn = pages[right_page];
                let s = pages[parent_page].key_seq()[left_child_index as int];
                &&& pages2.dom() == pages.dom()
                &&& forall|q: PageId|
                    pages.contains_key(q) && q != left_page && q != right_page ==> #[trigger] pages2[q]
                        == pages[q]
                &&& pages2[right_page].key_seq().len() == 0
                &&& xn is Internal ==> {
                    &&& pages2[left_page] is Internal
                    &&& pages2[left_page].key_seq() == xn.key_seq().push(s) + yn.key_seq()
                    &&& children_of(pages2[left_page]) == children_of(xn) + children_of(yn)
                }
                &&& xn is Leaf ==> {
                    &&& pages2[left_page] is Leaf
                    &&& pages2[left_page].key_seq() == xn.key_seq() + yn.key_seq()
                    &&& pages2[left_page]->Leaf_0.value_seq() == xn->Leaf_0.value_seq()
                        + yn->Leaf_0.value_seq()
                }
                &&& xn.sizes_ok() ==> pages2[left_page].sizes_ok()
            }),
    {
        let ghost pages = self.page_manager.pages();
        let pulled_down_key = match self.page_manager.get_node(parent_page) {
            Ok(node) => node.as_internal().get_keys()[left_child_index].clone(),
            Err(_) => vstd::pervasive::unreached(),
        };
        proof {
            let pk = pages[parent_page]->Internal_0.keys@;
            lemma_keys_view_edits(pk, 0, vstd::pervasive::arbitrary(), pk);
            self.page_manager.lemma_ids();
        }
        let mut left = match self.page_manager.take_node(left_page) {
            Ok(node) => node,
            Err(_) => vstd::pervasive::unreached(),
        };
        let mut right = match self.page_manager.take_node(right_page) {
            Ok(node) => node,
            Err(_) => vstd::pervasive::unreached(),
        };
        let ghost xn = left;
        let ghost yn = right;
        if left.is_leaf() {
            let (keys, values) = right.as_leaf_mut().get_key_values_mut();
            left.as_leaf_mut().append(keys, values);
            proof {
                let xl = xn->Leaf_0;
                let yl = yn->Leaf_0;
                lemma_keys_view_edits(xl.keys@, 0, vstd::pervasive::arbitrary(), yl.keys@);
                lemma_keys_view_edits(xl.values@, 0, vstd::pervasive::arbitrary(), yl.values@);
                lemma_keys_view_edits(right->Leaf_0.keys@, 0, vstd::pervasive::arbitrary(), right->Leaf_0.keys@);
            }
        } else {
            let (keys, children) = right.as_internal_mut().get_key_children_mut();
            keys.insert(0, pulled_down_key);
            left.as_internal_mut().append(keys, children);
            proof {
                let xi = xn->Internal_0;
                let yi = yn->Internal_0;
                let moved = yi.keys@.insert(0, pulled_down_key);
                lemma_keys_view_edits(xi.keys@, 0, vstd::pervasive::arbitrary(), moved);
                lemma_keys_view_edits(yi.keys@, 0, pulled_down_key, yi.keys@);
                assert(keys_view(yi.keys@).insert(0, pulled_down_key@) =~= seq![pulled_down_key@]
                    + keys_view(yi.keys@));
                assert(xn.key_seq() + (seq![pulled_down_key@] + yn.key_seq()) =~= xn.key_seq().push(
                    pulled_down_key@,
                ) + yn.key_seq());
                lemma_keys_view_edits(right->Internal_0.keys@, 0, vstd::pervasive::arbitrary(), right->Internal_0.keys@);
            }
        }
        proof {
            self.page_manager.lemma_ids();
        }
        self.page_manager.put_node(left_page, left);
        self.page_manager.put_node(right_page, right);
        proof {
            let pages2 = self.page_manager.pages();
            assert(pages2.dom() =~= pages.dom());
            assert(pages2[left_page] == left);
            assert(pages2[right_page] == right);
        }
    }
    /// Moves one entry into the thin child `thin_child_index` of `parent_page` from its
    /// neighbour `donor_page`, the child before it when `donor_is_prev` and the child after
    /// it otherwise, and sets the routing key between the two to match: between internal
    /// nodes the entry goes through the parent, between leaves it moves across.
    fn fill_up(
        &mut self,
        thin_page: PageId,
        donor_page: PageId,
        thin_child_index: usize,
        donor_is_prev: bool,
        parent_page: PageId,
    ) -> (r: KvResult<()>)
        requires
            old(self).page_manager.inv(),
            ({
                let pages = old(self).page_manager.pages();
                let cs = children_of(pages[parent_page]);
                let a = if donor_is_prev {
                    thin_child_index - 1
                } else {
                    thin_child_index as int
                };
                &&& can_rotate(pages, parent_page, a, donor_is_prev)
                &&& donor_is_prev ==> thin_child_index >= 1 && cs[a] == donor_page && cs[a + 1]
                    == thin_page
                &&& !donor_is_prev ==> cs[a] == thin_page && cs[a + 1] == donor_page
            }),
        ensures
            final(self).page_manager.inv(),
            final(self).root == old(self).root,
            final(self).height == old(self).height,
            final(self).node_fat_limit_bytes == old(self).node_fat_limit_bytes,
            final(self).node_thin_limit_bytes == old(self).node_thin_limit_bytes,
            final(self).page_manager.ids_left() == old(self).page_manager.ids_left(),
            r is Ok,
            ({
                let pages = old(self).page_manager.pages();
                let a = if donor_is_prev {
                    thin_child_index - 1
                } else {
                    thin_child_index as int
                };
                let nx = pages[children_of(pages[parent_page])[a]].key_seq().len() as int;
                let i = if donor_is_prev {
                    nx - 1
                } else {
                    nx + 1
                };
                rotated_shape(pages, final(self).page_manager.pages(), parent_page, a, i)
            }),
    {
        let ghost pages = self.page_manager.pages();
        let ghost a: int = if donor_is_prev {
            thin_child_index - 1
        } else {
            thin_child_index as int
        };
        let ghost ks = pages[parent_page].key_seq();
        let ghost cs = children_of(pages[parent_page]);
        let ghost x = cs[a];
        let ghost y = cs[a + 1];
        let thin_is_leaf = match self.page_manager.get_node(thin_page) {
            Ok(node) => node.is_leaf(),
            Err(_) => vstd::pervasive::unreached(),
        };
        proof {
            self.page_manager.lemma_ids();
        }
        let mut parent = match self.page_manager.take_node(parent_page) {
            Ok(node) => node,
            Err(_) => vstd::pervasive::unreached(),
        };
        let mut thin = match self.page_manager.take_node(thin_page) {
            Ok(node) => node,
            Err(_) => vstd::pervasive::unreached(),
        };
        let mut donor = match self.page_manager.take_node(donor_page) {
            Ok(node) => node,
            Err(_) => vstd::pervasive::unreached(),
        };
        let ghost pn = parent;
        let ghost xn = pages[x];
        let ghost yn = pages[y];
        let ghost kx = xn.key_seq();
        let ghost ky = yn.key_seq();
        let ghost kk = joined_keys(pages, parent_page, a);
        let ghost n = kk.len() as int;
        proof {
            let pk = pn->Internal_0.keys@;
            lemma_keys_view_edits(pk, 0, vstd::pervasive::arbitrary(), pk);
        }
        if !thin_is_leaf {
            let ghost gx = children_of(xn);
            let ghost gy = children_of(yn);
            let ghost gg = joined_children(pages, parent_page, a);
            if donor_is_prev {
                let parent_key_idx = thin_child_index - 1;
                let parent_key = parent.as_internal().get_keys()[parent_key_idx].clone();
                let (donor_key, donor_child_ptr) = donor.as_internal_mut().remove_lasts();
                thin.as_internal_mut().push_firsts(parent_key, donor_child_ptr);
                parent.as_internal_mut().overwrite_key(parent_key_idx, donor_key);
                proof {
                    let i = kx.len() - 1int;
                    lemma_keys_view_edits(xn->Internal_0.keys@, i, vstd::pervasive::arbitrary(), xn->Internal_0.keys@);
                    assert(kk == kx.push(ks[a]) + ky);
                    assert(kk.subrange(0, i) =~= kx.drop_last());
                    assert(kk.subrange(i + 1, n) =~= ky.insert(0, ks[a]));
                    assert(gg.subrange(0, i + 1) =~= gx.remove(kx.len() as int));
                    assert(gg.subrange(i + 1, n + 1) =~= gy.insert(0, gx[kx.len() as int]));
                    assert(kk[i] == kx[i]);
                }
            } else {
                let parent_key_idx = thin_child_index;
                let parent_key = parent.as_internal().get_keys()[parent_key_idx].clone();
                let (donor_key, donor_child_ptr) = donor.as_internal_mut().remove_firsts();
                thin.as_internal_mut().push_lasts(parent_key, donor_child_ptr);
                parent.as_internal_mut().overwrite_key(parent_key_idx, donor_key);
                proof {
                    let i = kx.len() + 1int;
                    lemma_keys_view_edits(yn->Internal_0.keys@, 0, vstd::pervasive::arbitrary(), yn->Internal_0.keys@);
                    assert(kk == kx.push(ks[a]) + ky);
                    assert(kk.subrange(0, i) =~= kx.push(ks[a]));
                    assert(kk.subrange(i + 1, n) =~= ky.remove(0));
                    assert(gg.subrange(0, i + 1) =~= gx.push(gy[0]));
                    assert(gg.subrange(i + 1, n + 1) =~= gy.remove(0));
                    assert(kk[i] == ky[0]);
                }
            }
        } else {
            let ghost vv = joined_values(pages, parent_page, a);
            let ghost vx = xn->Leaf_0.value_seq();
            let ghost vy = yn->Leaf_0.value_seq();
            if donor_is_prev {
                let (key, value) = donor.as_leaf_mut().remove_lasts();
                thin.as_leaf_mut().push_firsts(key, value);
                let n_left = donor.as_leaf().get_keys().len();
                let new_separator = donor.as_leaf().get_keys()[n_left - 1].clone();
                parent.as_internal_mut().overwrite_key(thin_child_index - 1, new_separator);
                proof {
                    let i = kx.len() - 1int;
                    let xl = xn->Leaf_0;
                    lemma_keys_view_edits(xl.keys@, i, vstd::pervasive::arbitrary(), xl.keys@);
                    lemma_keys_view_edits(donor->Leaf_0.keys@, 0, vstd::pervasive::arbitrary(), donor->Leaf_0.keys@);
                    assert(kk == kx + ky);
                    assert(vv == vx + vy);
                    assert(kk.subrange(0, i) =~= kx.drop_last());
                    assert(vv.subrange(0, i) =~= vx.remove(i));
                    assert(kk.subrange(i, n) =~= ky.insert(0, kx[i]));
                    assert(vv.subrange(i, n) =~= vy.insert(0, vx[i]));
                    assert(kk[i - 1] == kx[i - 1]);
                }
            } else {
                let (key, value) = donor.as_leaf_mut().remove_firsts();
                thin.as_leaf_mut().push_lasts(key, value);
                let n_left = thin.as_leaf().get_keys().len();
                let new_separator = thin.as_leaf().get_keys()[n_left - 1].clone();
                parent.as_internal_mut().overwrite_key(thin_child_index, new_separator);
                proof {
                    let i = kx.len() + 1int;
                    lemma_keys_view_edits(yn->Leaf_0.keys@, 0, vstd::pervasive::arbitrary(), yn->Leaf_0.keys@);
                    lemma_keys_view_edits(thin->Leaf_0.keys@, 0, vstd::pervasive::arbitrary(), thin->Leaf_0.keys@);
                    assert(kk == kx + ky);
                    assert(vv == vx + vy);
                    assert(kk.subrange(0, i) =~= kx.push(ky[0]));
                    assert(vv.subrange(0, i) =~= vx.insert(kx.len() as int, vy[0]));
                    assert(kk.subrange(i, n) =~= ky.remove(0));
                    assert(vv.subrange(i, n) =~= vy.remove(0));
                    assert(kk[i - 1] == ky[0]);
                }
            }
        }
        proof {
            self.page_manager.lemma_ids();
        }
        self.page_manager.put_node(parent_page, parent);
        self.page_manager.put_node(thin_page, thin);
        self.page_manager.put_node(donor_page, donor);
        proof {
            let pages2 = self.page_manager.pages();
            assert(pages2.dom() =~= pages.dom());
            assert(pages2[parent_page] == parent);
            assert(pages2[thin_page] == thin);
            assert(pages2[donor_page] == donor);
        }
        Ok(())
    }
    /// Deletes `key` from the tree below `current_page`, of height `h` with keys within
    /// `lo` and `hi`. On the way down, a child that counts for no more than the thin limit
    /// is first filled up from a neighbour that counts for more and holds more than two
    /// keys, or else merged with it. When `current_is_root`, a root that loses its last
    /// routing key gives way to its only child, and the tree shrinks by one level.
    #[verifier::spinoff_prover]
    #[verifier::rlimit(80)]
    fn recursive_delete(
        &mut self,
        key: &[u8],
        current_page: PageId,
        current_is_root: bool,
        Ghost(h): Ghost<int>,
        Ghost(lo): Ghost<Option<Seq<u8>>>,
        Ghost(hi): Ghost<Option<Seq<u8>>>,
    ) -> (r: KvResult<()>)
        requires
            old(self).page_manager.inv(),
            wf_subtree(old(self).page_manager.pages(), current_page, h, lo, hi),
            in_range(key@, lo, hi),
            old(self).node_thin_limit_bytes >= STORAGE_META_SIZE + PAGE_ID_SIZE ==> !(old(
                self,
            ).page_manager.pages()[current_page] is Internal && old(self).page_manager.pages()[current_page].key_seq().len()
                == 0),
            current_is_root ==> {
                &&& old(self).wf()
                &&& current_page == old(self).root
                &&& h == old(self).height@
                &&& lo is None
                &&& hi is None
            },
        ensures
            final(self).page_manager.inv(),
            final(self).node_fat_limit_bytes == old(self).node_fat_limit_bytes,
            final(self).node_thin_limit_bytes == old(self).node_thin_limit_bytes,
            delete_outcome(
                r,
                key@,
                lookup(old(self).page_manager.pages(), current_page, h, key@) is Some,
                old(self).node_thin_limit_bytes,
            ),
            stays_within(old(self).page_manager.pages(), final(self).page_manager.pages()),
            (r matches Err(KvError::TreeLogicError(_))) ==> stranded_on_route(
                old(self).page_manager.pages(),
                current_page,
                h,
                key@,
                old(self).node_thin_limit_bytes,
            ),
            final(self).page_manager.ids_left() >= old(self).page_manager.ids_left(),
            final(self).height@ <= old(self).height@,
            r is Ok && !fat_path(old(self).page_manager.pages(), current_page, h, key@, old(self).node_thin_limit_bytes)
                ==> rebalanced(old(self).page_manager.pages(), final(self).page_manager.pages(), current_page, h, key@),
            ({
                let pages = old(self).page_manager.pages();
                let pages2 = final(self).page_manager.pages();
                let ks = pages[current_page].key_seq();
                let cs = children_of(pages[current_page]);
                let a = pair_start(pages, current_page, key@);
                let thin = old(self).node_thin_limit_bytes;
                let nx = pages[cs[a]].key_seq().len() as int;
                let i = if route(ks, key@) > 0 {
                    nx - 1
                } else {
                    nx + 1
                };
                &&& thin_step(pages, current_page, key@, thin) && can_donate(
                    pages[donor_of(pages, current_page, key@)],
                    thin,
                ) ==> {
                    &&& pages2.contains_key(current_page)
                    &&& pages2[current_page].key_seq() == ks.update(a, rotated_key(pages, current_page, a, i))
                    &&& children_of(pages2[current_page]) == cs
                    &&& final(self).root == old(self).root
                }
                &&& thin_step(pages, current_page, key@, thin) && !can_donate(
                    pages[donor_of(pages, current_page, key@)],
                    thin,
                ) ==> {
                    &&& !pages2.contains_key(cs[a + 1])
                    &&& !(current_is_root && ks.len() == 1) ==> {
                        &&& pages2.contains_key(current_page)
                        &&& pages2[current_page].key_seq() == ks.remove(a)
                        &&& children_of(pages2[current_page]) == cs.remove(a + 1)
                    }
                    &&& current_is_root && ks.len() == 1 ==> {
                        &&& !pages2.contains_key(current_page)
                        &&& final(self).root == cs[a] || !pages2.contains_key(cs[a])
                    }
                }
            }),
            fat_path(old(self).page_manager.pages(), current_page, h, key@, old(self).node_thin_limit_bytes) ==> {
                let pages = old(self).page_manager.pages();
                let pages2 = final(self).page_manager.pages();
                &&& pages2.dom() == pages.dom()
                &&& forall|q: PageId|
                    pages.contains_key(q) && q != path_leaf(pages, current_page, h, key@) ==> #[trigger] pages2[q]
                        == pages[q]
                &&& final(self).page_manager.ids_left() == old(self).page_manager.ids_left()
                &&& final(self).root == old(self).root
                &&& final(self).height == old(self).height
            },
            !current_is_root ==> {
                &&& final(self).root == old(self).root
                &&& final(self).height == old(self).height
                &&& none_left_behind(
                    old(self).page_manager.pages(),
                    final(self).page_manager.pages(),
                    current_page,
                    h,
                    current_page,
                    h,
                )
                &&& deleted_below(
                    old(self).page_manager.pages(),
                    final(self).page_manager.pages(),
                    current_page,
                    h,
                    lo,
                    hi,
                    key@,
                    r is Ok,
                )
            },
            current_is_root ==> {
                &&& final(self).wf()
                &&& final(self)@ == if r is Ok {
                    old(self)@.remove(key@)
                } else {
                    old(self)@
                }
                &&& final(self).root == old(self).root || (!final(self).page_manager.pages().contains_key(
                    old(self).root,
                ) && in_subtree(old(self).page_manager.pages(), old(self).root, h, final(self).root))
                &&& none_left_behind(
                    old(self).page_manager.pages(),
                    final(self).page_manager.pages(),
                    current_page,
                    h,
                    final(self).root,
                    final(self).height@ as int,
                )
            },
            final(self).page_manager.pages().dom().subset_of(old(self).page_manager.pages().dom()),
        decreases h,
    {
        let ghost pages0 = self.page_manager.pages();
        let thin_limit = self.node_thin_limit_bytes;
        let is_leaf = match self.page_manager.get_node(current_page) {
            Ok(node) => node.is_leaf(),
            Err(_) => vstd::pervasive::unreached(),
        };
        if is_leaf {
            proof {
                self.page_manager.lemma_ids();
            }
            let mut node = match self.page_manager.take_node(current_page) {
                Ok(node) => node,
                Err(_) => vstd::pervasive::unreached(),
            };
            let r = node.as_leaf_mut().delete_key(key);
            self.page_manager.put_node(current_page, node);
            proof {
                let pages2 = self.page_manager.pages();
                assert(pages2 == pages0.insert(current_page, pages2[current_page]));
                lemma_leaf_delete(pages0, pages2, current_page, lo, hi, key@, r is Ok);
                assert(path_leaf(pages0, current_page, h, key@) == current_page);
                assert(pages2.dom() =~= pages0.dom());
                assert(none_left_behind(pages0, pages2, current_page, h, current_page, h)) by {
                    assert(children_of(pages0[current_page]).len() == 0);
                }
                assert(fat_path(pages0, current_page, h, key@, thin_limit)) by {
                    reveal_with_fuel(fat_path, 1);
                }
                if current_is_root {
                    lemma_tree_map_after_delete(pages0, pages2, current_page, h, key@, r is Ok);
                }
                assert forall|b: int| pages_within(pages0, b) implies #[trigger] pages_within(pages2, b) by {
                    let n0 = pages0[current_page];
                    assert(node_within(n0, b));
                    let i = route(n0.key_seq(), key@);
                    if r is Ok {
                        lemma_keys_view_edits(n0->Leaf_0.keys@, 0, vstd::pervasive::arbitrary(), n0->Leaf_0.keys@);
                        lemma_keys_view_edits(n0->Leaf_0.values@, 0, vstd::pervasive::arbitrary(), n0->Leaf_0.values@);
                        assert(crate::btree::tree_spec::node_ok(n0, 0, lo, hi));
                        crate::btree::key_order::lemma_route(n0.key_seq(), key@);
                        assert(i < n0.key_seq().len());
                        assert(n0->Leaf_0.paired());
                        assert(i < n0->Leaf_0.value_seq().len());
                        assert(crate::btree::entry_sizes::seq_within(n0->Leaf_0.value_seq(), b));
                        assert(bytes_size(n0->Leaf_0.value_seq()[i].len()) <= b);
                        lemma_seq_within_edit(n0.key_seq(), i, n0.key_seq()[i], b);
                        lemma_seq_within_edit(n0->Leaf_0.value_seq(), i, n0->Leaf_0.value_seq()[i], b);
                    }
                    assert forall|q: PageId| #[trigger] pages2.contains_key(q) implies node_within(pages2[q], b) by {
                        if q != current_page {
                            assert(pages0.contains_key(q));
                        }
                    }
                }
            }
            return r;
        }
        let (child_index, child_page, n_children) = {
            let node = match self.page_manager.get_node(current_page) {
                Ok(node) => node.as_internal(),
                Err(_) => vstd::pervasive::unreached(),
            };
            let idx = node.route_key_to_index(key);
            (idx, node.get_child_by_index(idx), node.children.len())
        };
        let ghost ks0 = pages0[current_page].key_seq();
        let ghost cs0 = children_of(pages0[current_page]);
        proof {
            lemma_key_in_child(ks0, lo, hi, key@);
            assert(cs0[child_index as int] == child_page);
            assert(wf_subtree(
                pages0,
                child_page,
                h - 1,
                child_lo(ks0, lo, child_index as int),
                child_hi(ks0, hi, child_index as int),
            ));
        }
        let child_size = match self.page_manager.get_node(child_page) {
            Ok(node) => node.total_size_bytes(),
            Err(_) => vstd::pervasive::unreached(),
        };
        if child_size > thin_limit {
            proof {
                let cn = pages0[child_page];
                if cn is Internal && cn.key_seq().len() == 0 {
                    lemma_lone_child_size(cn);
                }
                lemma_nothing_deleted(pages0, current_page, h, lo, hi, key@);
            }
            let res = self.recursive_delete(
                key,
                child_page,
                false,
                Ghost(h - 1),
                Ghost(child_lo(ks0, lo, child_index as int)),
                Ghost(child_hi(ks0, hi, child_index as int)),
            );
            proof {
                let pages2 = self.page_manager.pages();
                lemma_delete_through_child(pages0, pages0, pages2, current_page, h, lo, hi, child_index as int, key@, res is Ok);
                lemma_none_left_through_child(pages0, pages2, current_page, h, lo, hi, child_index as int, key@, res is Ok);
                if current_is_root {
                    lemma_tree_map_after_delete(pages0, pages2, current_page, h, key@, res is Ok);
                }
                if res matches Err(KvError::TreeLogicError(_)) {
                    assert(stranded_on_route(pages0, current_page, h, key@, thin_limit));
                }
                assert(path_leaf(pages0, current_page, h, key@) == path_leaf(pages0, child_page, h - 1, key@));
                if fat_path(pages0, current_page, h, key@, thin_limit) {
                    reveal_with_fuel(fat_path, 1);
                    assert(fat_path(pages0, child_page, h - 1, key@, thin_limit));
                }
                if !fat_path(pages0, current_page, h, key@, thin_limit) {
                    assert(!fat_path(pages0, child_page, h - 1, key@, thin_limit)) by {
                        reveal_with_fuel(fat_path, 1);
                    }
                }
            }
            return res;
        }
        proof {
            if fat_path(pages0, current_page, h, key@, thin_limit) {
                reveal_with_fuel(fat_path, 1);
                assert(false);
            }
        }
        if n_children < 2 {
            proof {
                assert(pages0[current_page].key_seq().len() == 0);
                assert(stranded_on_route(pages0, current_page, h, key@, thin_limit));
            }
            return Err(KvError::TreeLogicError("internal node without a routing key".to_string()));
        }
        let donor_is_prev = child_index > 0;
        let donor_page = {
            let node = match self.page_manager.get_node(current_page) {
                Ok(node) => node.as_internal(),
                Err(_) => vstd::pervasive::unreached(),
            };
            if donor_is_prev {
                node.get_child_by_index(child_index - 1)
            } else {
                node.get_child_by_index(child_index + 1)
            }
        };
        let ghost a: int = if donor_is_prev {
            child_index - 1
        } else {
            child_index as int
        };
        proof {
            assert(donor_page == if donor_is_prev { cs0[a] } else { cs0[a + 1] });
            lemma_siblings(pages0, pages0, current_page, h, lo, hi, a);
            assert(wf_subtree(pages0, cs0[a], h - 1, child_lo(ks0, lo, a), child_hi(ks0, hi, a)));
            assert(wf_subtree(pages0, cs0[a + 1], h - 1, child_lo(ks0, lo, a + 1), child_hi(ks0, hi, a + 1)));
        }
        let (donor_size, donor_keys) = match self.page_manager.get_node(donor_page) {
            Ok(node) => (node.total_size_bytes(), node.key_count()),
            Err(_) => vstd::pervasive::unreached(),
        };
        if donor_size > thin_limit && donor_keys > 2 {
            proof {
                let dn = pages0[donor_page];
                lemma_wrap16_idem(dn.key_seq().len() as int);
                assert(can_rotate(pages0, current_page, a, donor_is_prev));
            }
            let _ = self.fill_up(child_page, donor_page, child_index, donor_is_prev, current_page);
            let ghost pages1 = self.page_manager.pages();
            let ghost nx = pages0[cs0[a]].key_seq().len() as int;
            let ghost i = if donor_is_prev {
                nx - 1
            } else {
                nx + 1
            };
            let ghost ks1 = pages1[current_page].key_seq();
            proof {
                lemma_rotated_within(pages0, pages1, current_page, a, i);
                lemma_rotation_keeps_tree(pages0, pages1, current_page, h, lo, hi, a, i, key@);
                crate::btree::key_order::lemma_route(ks0, key@);
                crate::btree::key_order::lemma_route_update(ks0, a, rotated_key(pages0, current_page, a, i), key@);
                assert(route(ks1, key@) == child_index);
                lemma_key_in_child(ks1, lo, hi, key@);
                assert(children_of(pages1[current_page])[child_index as int] == child_page);
                assert(wf_subtree(
                    pages1,
                    child_page,
                    h - 1,
                    child_lo(ks1, lo, child_index as int),
                    child_hi(ks1, hi, child_index as int),
                ));
            }
            let res = self.recursive_delete(
                key,
                child_page,
                false,
                Ghost(h - 1),
                Ghost(child_lo(ks1, lo, child_index as int)),
                Ghost(child_hi(ks1, hi, child_index as int)),
            );
            proof {
                let pages2 = self.page_manager.pages();
                lemma_delete_through_child(pages0, pages1, pages2, current_page, h, lo, hi, child_index as int, key@, res is Ok);
                lemma_rotation_keeps_pages(pages0, pages1, current_page, h, lo, hi, a, i);
                lemma_none_left_through_child(pages1, pages2, current_page, h, lo, hi, child_index as int, key@, res is Ok);
                lemma_none_left_compose(pages0, pages1, pages2, current_page, h);
                assert(rebalanced(pages0, pages2, current_page, h, key@)) by {
                    lemma_path_leaf_below(pages0, current_page, h, lo, hi, key@);
                    assert(pages1[current_page].key_seq()[a] != pages0[current_page].key_seq()[a]);
                    assert(pages2[current_page] != pages0[current_page]);
                }
                if current_is_root {
                    lemma_tree_map_after_delete(pages0, pages2, current_page, h, key@, res is Ok);
                }
                if res matches Err(KvError::TreeLogicError(_)) {
                    assert(stranded_on_route(pages0, current_page, h, key@, thin_limit)) by {
                        if pages1[child_page] is Internal {
                            assert(pages1[child_page].key_seq().len() >= 1);
                            let n = joined_keys(pages0, current_page, a).len() as int;
                            let (u, v) = if donor_is_prev {
                                (nx, n)
                            } else {
                                (0int, nx + 1)
                            };
                            lemma_joined_route(pages0, current_page, h, lo, hi, a, key@);
                            lemma_stranded_after_join(pages0, pages1, current_page, h, lo, hi, a, key@, u, v, child_page, thin_limit);
                        }
                    }
                }
            }
            return res;
        }
        let (left_page, right_page, left_idx) = if donor_is_prev {
            (donor_page, child_page, child_index - 1)
        } else {
            (child_page, donor_page, child_index)
        };
        self.merge_children(left_page, right_page, left_idx, current_page);
        proof {
            self.page_manager.lemma_ids();
        }
        let _ = self.page_manager.delete(right_page);
        proof {
            self.page_manager.lemma_ids();
            assert(right_page == cs0[a + 1]);
            assert(current_page != right_page);
        }
        let mut parent = match self.page_manager.take_node(current_page) {
            Ok(node) => node,
            Err(_) => vstd::pervasive::unreached(),
        };
        let _ = parent.as_internal_mut().remove_key_child(left_idx, left_idx + 1);
        let parent_empty = parent.as_internal().get_keys().len() == 0;
        self.page_manager.put_node(current_page, parent);
        let ghost pages1 = self.page_manager.pages();
        let ghost ks1 = pages1[current_page].key_seq();
        proof {
            assert(pages1.dom() =~= pages0.dom().remove(right_page));
            assert(merged_shape(pages0, pages1, current_page, a));
            lemma_merged_within(pages0, pages1, current_page, a);
            lemma_merge_keeps_tree(pages0, pages1, current_page, h, lo, hi, a, key@);
            crate::btree::key_order::lemma_route(ks0, key@);
            crate::btree::key_order::lemma_route_remove(ks0, a, key@);
            assert(route(ks1, key@) == a);
            lemma_key_in_child(ks1, lo, hi, key@);
            assert(children_of(pages1[current_page])[a] == left_page);
            assert(wf_subtree(pages1, left_page, h - 1, child_lo(ks1, lo, a), child_hi(ks1, hi, a)));
        }
        if current_is_root && parent_empty {
            proof {
                assert(!in_subtree(pages1, left_page, h - 1, current_page));
                assert(children_of(pages1[current_page]).len() == 1);
            }
            proof {
                self.page_manager.lemma_ids();
            }
            let _ = self.page_manager.delete(current_page);
            self.root = left_page;
            self.height = Ghost((h - 1) as nat);
            proof {
                let pages3 = self.page_manager.pages();
                assert forall|q: PageId| #[trigger] in_subtree(pages1, left_page, h - 1, q) implies pages3.contains_key(q)
                    == pages1.contains_key(q) && (pages1.contains_key(q) ==> pages3[q] == pages1[q]) by {}
                crate::btree::tree_spec::lemma_frame_wf(pages1, pages3, left_page, h - 1, None, None);
                assert forall|k: Seq<u8>| #[trigger] lookup(pages3, left_page, h - 1, k) == lookup(pages0, current_page, h, k) by {
                    assert(lookup(pages1, current_page, h, k) == lookup(pages1, left_page, h - 1, k));
                }
                assert(self@ =~= old(self)@);
                assert forall|b: int| pages_within(pages0, b) implies #[trigger] pages_within(pages3, b) by {
                    assert(pages_within(pages1, b));
                    assert forall|q: PageId| #[trigger] pages3.contains_key(q) implies node_within(pages3[q], b) by {
                        assert(pages1.contains_key(q));
                    }
                }
            }
            let ghost pages3 = self.page_manager.pages();
            let res = self.recursive_delete(key, left_page, true, Ghost(h - 1), Ghost(None), Ghost(None));
            proof {
                let pages4 = self.page_manager.pages();
                assert(rebalanced(pages0, pages4, current_page, h, key@)) by {
                    lemma_path_leaf_below(pages0, current_page, h, lo, hi, key@);
                    assert(!pages4.contains_key(current_page));
                }
                assert(none_left_behind(pages0, pages4, current_page, h, self.root, self.height@ as int)) by {
                    lemma_merge_keeps_pages(pages0, pages1, current_page, h, lo, hi, a);
                    assert forall|q: PageId|
                        #[trigger] in_subtree(pages0, current_page, h, q) && pages4.contains_key(q) implies in_subtree(
                        pages4,
                        self.root,
                        self.height@ as int,
                        q,
                    ) by {
                        assert(pages3.contains_key(q));
                        assert(pages1.contains_key(q) && q != current_page);
                        assert(in_subtree(pages1, current_page, h, q));
                        let cs1 = children_of(pages1[current_page]);
                        let j = choose|j: int| 0 <= j < cs1.len() && in_subtree(pages1, #[trigger] cs1[j], h - 1, q);
                        assert(j == 0 && a == 0);
                        assert(in_subtree(pages1, left_page, h - 1, q));
                        assert(in_subtree(pages3, left_page, h - 1, q));
                    }
                }
                assert forall|b: int| pages_within(pages0, b) implies #[trigger] pages_within(pages4, b) by {
                    assert(pages_within(pages3, b));
                }
                if self.root != left_page {
                    assert(in_subtree(pages1, left_page, h - 1, self.root));
                    lemma_child_in_subtree(pages1, current_page, h, a, self.root);
                }
                lemma_child_in_subtree(pages1, current_page, h, a, left_page);
                if res matches Err(KvError::TreeLogicError(_)) {
                    assert(stranded_on_route(pages0, current_page, h, key@, thin_limit)) by {
                        lemma_stranded_frame(pages1, pages3, left_page, h - 1, key@, thin_limit);
                        lemma_stranded_after_merge(pages0, pages1, current_page, h, lo, hi, a, key@, thin_limit);
                    }
                }
            }
            return res;
        }
        let res = self.recursive_delete(
            key,
            left_page,
            false,
            Ghost(h - 1),
            Ghost(child_lo(ks1, lo, a)),
            Ghost(child_hi(ks1, hi, a)),
        );
        proof {
            let pages2 = self.page_manager.pages();
            lemma_delete_through_child(pages0, pages1, pages2, current_page, h, lo, hi, a, key@, res is Ok);
            lemma_merge_keeps_pages(pages0, pages1, current_page, h, lo, hi, a);
            lemma_none_left_through_child(pages1, pages2, current_page, h, lo, hi, a, key@, res is Ok);
            lemma_none_left_compose(pages0, pages1, pages2, current_page, h);
            assert(rebalanced(pages0, pages2, current_page, h, key@)) by {
                lemma_path_leaf_below(pages0, current_page, h, lo, hi, key@);
                assert(pages1[current_page].key_seq().len() != pages0[current_page].key_seq().len());
                assert(pages2[current_page] != pages0[current_page]);
            }
            if current_is_root {
                lemma_tree_map_after_delete(pages0, pages2, current_page, h, key@, res is Ok);
            }
            if res matches Err(KvError::TreeLogicError(_)) {
                assert(stranded_on_route(pages0, current_page, h, key@, thin_limit)) by {
                    lemma_stranded_after_merge(pages0, pages1, current_page, h, lo, hi, a, key@, thin_limit);
                }
            }
        }
        res
    }

    /// Deletes `key` and its value. A thin child met on the way down is first filled up from
    /// a neighbour or merged with it; the call fails with `KeyNotFound` for a key the tree
    /// does not hold, and with `TreeLogicError` only where a thin child on the way has no
    /// neighbour, its parent holding no routing key.
    pub fn delete(&mut self, key: &[u8]) -> (r: KvResult<()>)
        requires
            old(self).wf(),
        ensures
            final(self).wf(),
            final(self).node_fat_limit_bytes == old(self).node_fat_limit_bytes,
            final(self).node_thin_limit_bytes == old(self).node_thin_limit_bytes,
            r is Ok ==> old(self)@.contains_key(key@) && final(self)@ == old(self)@.remove(key@),
            r is Err ==> final(self)@ == old(self)@,
            delete_outcome(r, key@, old(self)@.contains_key(key@), old(self).node_thin_limit_bytes),
            old(self).node_thin_limit_bytes >= STORAGE_META_SIZE + PAGE_ID_SIZE ==> (r is Ok
                <==> old(self)@.contains_key(key@)),
            stays_within(old(self).page_manager.pages(), final(self).page_manager.pages()),
            (r matches Err(KvError::TreeLogicError(_))) ==> stranded_on_route(
                old(self).page_manager.pages(),
                old(self).root,
                old(self).height@ as int,
                key@,
                old(self).node_thin_limit_bytes,
            ),
            !stranded_on_route(
                old(self).page_manager.pages(),
                old(self).root,
                old(self).height@ as int,
                key@,
                old(self).node_thin_limit_bytes,
            ) ==> (r is Ok <==> old(self)@.contains_key(key@)),
            ({
                let pages = old(self).page_manager.pages();
                let pages2 = final(self).page_manager.pages();
                let root = old(self).root;
                let ks = pages[root].key_seq();
                let cs = children_of(pages[root]);
                let a = pair_start(pages, root, key@);
                let thin = old(self).node_thin_limit_bytes;
                let nx = pages[cs[a]].key_seq().len() as int;
                let i = if route(ks, key@) > 0 {
                    nx - 1
                } else {
                    nx + 1
                };
                &&& thin_step(pages, root, key@, thin) && can_donate(pages[donor_of(pages, root, key@)], thin)
                    ==> {
                    &&& pages2.contains_key(root)
                    &&& pages2[root].key_seq() == ks.update(a, rotated_key(pages, root, a, i))
                    &&& children_of(pages2[root]) == cs
                    &&& final(self).root == root
                }
                &&& thin_step(pages, root, key@, thin) && !can_donate(pages[donor_of(pages, root, key@)], thin)
                    ==> {
                    &&& !pages2.contains_key(cs[a + 1])
                    &&& ks.len() != 1 ==> {
                        &&& pages2.contains_key(root)
                        &&& pages2[root].key_seq() == ks.remove(a)
                        &&& children_of(pages2[root]) == cs.remove(a + 1)
                    }
                    &&& ks.len() == 1 ==> {
                        &&& !pages2.contains_key(root)
                        &&& final(self).root == cs[a] || !pages2.contains_key(cs[a])
                    }
                }
            }),
            final(self).page_manager.ids_left() >= old(self).page_manager.ids_left(),
            final(self).height@ <= old(self).height@,
            final(self).page_manager.pages().dom().subset_of(old(self).page_manager.pages().dom()),
            final(self).root == old(self).root || (!final(self).page_manager.pages().contains_key(old(self).root)
                && in_subtree(old(self).page_manager.pages(), old(self).root, old(self).height@ as int, final(self).root)),
            none_left_behind(
                old(self).page_manager.pages(),
                final(self).page_manager.pages(),
                old(self).root,
                old(self).height@ as int,
                final(self).root,
                final(self).height@ as int,
            ),
            r is Ok && !fat_path(
                old(self).page_manager.pages(),
                old(self).root,
                old(self).height@ as int,
                key@,
                old(self).node_thin_limit_bytes,
            ) ==> rebalanced(
                old(self).page_manager.pages(),
                final(self).page_manager.pages(),
                old(self).root,
                old(self).height@ as int,
                key@,
            ),
            fat_path(
                old(self).page_manager.pages(),
                old(self).root,
                old(self).height@ as int,
                key@,
                old(self).node_thin_limit_bytes,
            ) ==> {
                let pages = old(self).page_manager.pages();
                let pages2 = final(self).page_manager.pages();
                &&& pages2.dom() == pages.dom()
                &&& forall|q: PageId|
                    pages.contains_key(q) && q != path_leaf(pages, old(self).root, old(self).height@ as int, key@)
                        ==> #[trigger] pages2[q] == pages[q]
                &&& final(self).page_manager.ids_left() == old(self).page_manager.ids_left()
                &&& final(self).root == old(self).root
                &&& final(self).height == old(self).height
            },
    {
        let root = self.root;
        proof {
            let pages = self.page_manager.pages();
            assert(old(self)@.contains_key(key@) == (lookup(pages, root, self.height@ as int, key@) is Some));
        }
        self.recursive_delete(key, root, true, Ghost(self.height@ as int), Ghost(None), Ghost(None))
    }
}

} // verus!
