//! Storing a key: on the way down from the root, every child that the new entry would
//! make too big is split first, so that the leaf reached has room.
use vstd::prelude::*;

use crate::btree::btree::BTree;
use crate::btree::btree_node::{BTreeNode, STORAGE_META_SIZE};
use crate::btree::common::PageId;
use crate::btree::entry_sizes::{
    entries_small,
    entry_fits,
    grows_within,
    lemma_internal_split_within,
    lemma_leaf_split_within,
    lemma_seq_within_edit,
    lemma_small_node_fits,
    node_within,
    pages_within,
    stays_within,
};
use crate::btree::internal_node::InternalNode;
use crate::btree::key_order::{key_lt, route, sorted_keys};
use crate::btree::leaf_node::LeafNode;
use crate::btree::page_managers::page_manager::PageManager;
use crate::btree::traits::{add_size, bytes_size, wrap16, SerializedSize, PAGE_ID_SIZE};
use crate::btree::tree_lemmas::{
    internal_split_done,
    lemma_parent_after_child_update,
    lemma_parent_after_split,
    lemma_split_internal_premises,
    lemma_split_leaf_premises,
};
use crate::btree::tree_spec::{
    child_hi,
    child_lo,
    children_of,
    in_range,
    in_subtree,
    lemma_child_in_subtree,
    lemma_on_route_frame,
    lemma_on_route_in_subtree,
    lookup,
    on_route,
    path_leaf,
    wf_subtree,
};
use crate::errors::{KvError, KvResult};

verus! {

broadcast use crate::btree::key_order::group_key_order;

/// Where a leaf split cuts, going on from entry `index` with `size` counted so far: entries
/// are counted into the left half while it is under `thin` (and holds none yet), leaving at
/// least one entry for the right half.
pub open spec fn leaf_split_from(
    ks: Seq<Seq<u8>>,
    vs: Seq<Seq<u8>>,
    thin: u16,
    index: int,
    size: u16,
) -> int
    decreases ks.len() - index,
{
    if 0 <= index && (size < thin || index < 1) && index < ks.len() - 1 {
        leaf_split_from(
            ks,
            vs,
            thin,
            index + 1,
            wrap16(wrap16(size + bytes_size(ks[index].len())) + bytes_size(vs[index].len())),
        )
    } else {
        index
    }
}

/// Where a leaf with keys `ks` and values `vs` is split.
pub open spec fn leaf_split_index(ks: Seq<Seq<u8>>, vs: Seq<Seq<u8>>, thin: u16) -> int {
    leaf_split_from(ks, vs, thin, 0, STORAGE_META_SIZE)
}

/// Where an internal split cuts, going on from key `index` with `size` counted so far: keys
/// and child ids are counted into the left half while it is under `thin` (or holds at most
/// one key), leaving at least one key for the right half.
pub open spec fn internal_split_from(ks: Seq<Seq<u8>>, thin: u16, index: int, size: u16) -> int
    decreases ks.len() - index,
{
    if 0 <= index && (size < thin || index <= 1) && index < ks.len() - 1 {
        internal_split_from(
            ks,
            thin,
            index + 1,
            wrap16(size + wrap16(bytes_size(ks[index].len()) + PAGE_ID_SIZE)),
        )
    } else {
        index
    }
}

/// Where an internal node with routing keys `ks` is split: never before its second key.
pub open spec fn internal_split_index(ks: Seq<Seq<u8>>, thin: u16) -> int {
    let i = internal_split_from(ks, thin, 0, wrap16(STORAGE_META_SIZE + PAGE_ID_SIZE));
    if i < 1 {
        1
    } else {
        i
    }
}

proof fn lemma_leaf_split_from(ks: Seq<Seq<u8>>, vs: Seq<Seq<u8>>, thin: u16, index: int, size: u16)
    requires
        0 <= index <= ks.len() - 1,
    ensures
        index <= leaf_split_from(ks, vs, thin, index, size) <= ks.len() - 1,
        index == 0 && ks.len() >= 2 ==> leaf_split_from(ks, vs, thin, index, size) >= 1,
    decreases ks.len() - index,
{
    if (size < thin || index < 1) && index < ks.len() - 1 {
        lemma_leaf_split_from(
            ks,
            vs,
            thin,
            index + 1,
            wrap16(wrap16(size + bytes_size(ks[index].len())) + bytes_size(vs[index].len())),
        );
    }
}

proof fn lemma_internal_split_from(ks: Seq<Seq<u8>>, thin: u16, index: int, size: u16)
    requires
        0 <= index <= ks.len() - 1,
    ensures
        index <= internal_split_from(ks, thin, index, size) <= ks.len() - 1,
    decreases ks.len() - index,
{
    if (size < thin || index <= 1) && index < ks.len() - 1 {
        lemma_internal_split_from(
            ks,
            thin,
            index + 1,
            wrap16(size + wrap16(bytes_size(ks[index].len()) + PAGE_ID_SIZE)),
        );
    }
}

/// The pages after splitting leaf `c`, child `ci` of `p`, at `i` into itself and the new
/// page `r`: the keys before `i` stay, the rest move to `r`, and the last key that stays
/// becomes the routing key between the two. Headers that counted their node still do.
pub open spec fn leaf_split_shape(
    pages: Map<PageId, BTreeNode>,
    pages2: Map<PageId, BTreeNode>,
    p: PageId,
    ci: int,
    c: PageId,
    r: PageId,
    i: int,
) -> bool {
    let pn = pages[p];
    let cn = pages[c];
    let kc = cn.key_seq();
    let vc = cn->Leaf_0.value_seq();
    &&& pages2.dom() == pages.dom().insert(r)
    &&& forall|q: PageId|
        pages.contains_key(q) && q != p && q != c ==> #[trigger] pages2[q] == pages[q]
    &&& pages2[p] is Internal
    &&& pages2[p].key_seq() == pn.key_seq().insert(ci, kc[i - 1])
    &&& children_of(pages2[p]) == children_of(pn).insert(ci + 1, r)
    &&& pages2[c] is Leaf
    &&& pages2[c].key_seq() == kc.subrange(0, i)
    &&& pages2[c]->Leaf_0.value_seq() == vc.subrange(0, i)
    &&& pages2[r] is Leaf
    &&& pages2[r].key_seq() == kc.subrange(i, kc.len() as int)
    &&& pages2[r]->Leaf_0.value_seq() == vc.subrange(i, kc.len() as int)
    &&& pn.sizes_ok() ==> pages2[p].sizes_ok()
    &&& cn.sizes_ok() ==> pages2[c].sizes_ok() && pages2[r].sizes_ok()
}

/// The pages after splitting internal node `c`, child `ci` of `p`, at `i` into itself and
/// the new page `r`: the routing keys before `i - 1` and the children before `i` stay, the
/// key at `i - 1` moves up, and the rest move to `r`. Headers that counted their node
/// still do.
pub open spec fn internal_split_shape(
    pages: Map<PageId, BTreeNode>,
    pages2: Map<PageId, BTreeNode>,
    p: PageId,
    ci: int,
    c: PageId,
    r: PageId,
    i: int,
) -> bool {
    let pn = pages[p];
    let cn = pages[c];
    let kc = cn.key_seq();
    let gc = children_of(cn);
    &&& pages2.dom() == pages.dom().insert(r)
    &&& forall|q: PageId|
        pages.contains_key(q) && q != p && q != c ==> #[trigger] pages2[q] == pages[q]
    &&& pages2[p] is Internal
    &&& pages2[p].key_seq() == pn.key_seq().insert(ci, kc[i - 1])
    &&& children_of(pages2[p]) == children_of(pn).insert(ci + 1, r)
    &&& pages2[c] is Internal
    &&& pages2[c].key_seq() == kc.subrange(0, i - 1)
    &&& children_of(pages2[c]) == gc.subrange(0, i)
    &&& pages2[r] is Internal
    &&& pages2[r].key_seq() == kc.subrange(i, kc.len() as int)
    &&& children_of(pages2[r]) == gc.subrange(i, gc.len() as int)
    &&& pn.sizes_ok() ==> pages2[p].sizes_ok()
    &&& cn.sizes_ok() ==> pages2[c].sizes_ok() && pages2[r].sizes_ok()
}

/// Whether storing `value` under `key` would make `node` count for more than `fat`.
pub open spec fn would_overflow(node: BTreeNode, key: Seq<u8>, value: Seq<u8>, fat: u16) -> bool {
    let total = node.header().spec_total_size();
    match node {
        BTreeNode::Leaf(l) => match l.spec_get(key) {
            Some(old) => bytes_size(value.len()) > bytes_size(old.len()) && wrap16(
                total + bytes_size(value.len()) - bytes_size(old.len()),
            ) > fat,
            None => wrap16(total + bytes_size(key.len()) + bytes_size(value.len())) > fat,
        },
        BTreeNode::Internal(_) => wrap16(total + bytes_size(key.len()) + PAGE_ID_SIZE) > fat,
    }
}

/// Whether `node` cannot take `value` under `key`: the entry would make it too big, and it
/// holds too few keys to be split.
pub open spec fn blocked_at(node: BTreeNode, key: Seq<u8>, value: Seq<u8>, fat: u16) -> bool {
    would_overflow(node, key, value, fat) && node.key_seq().len() <= 1
}

/// After child `ci` of `p`, where `key` is routed, was split into itself and the new page
/// `r`, a page strictly below the half that `key` is now routed to, on its way, was on its
/// way below the child before.
proof fn lemma_on_route_after_split(
    pages: Map<PageId, BTreeNode>,
    pages2: Map<PageId, BTreeNode>,
    p: PageId,
    h: int,
    lo: Option<Seq<u8>>,
    hi: Option<Seq<u8>>,
    ci: int,
    r: PageId,
    thin: u16,
    key: Seq<u8>,
    q: PageId,
)
    requires
        wf_subtree(pages, p, h, lo, hi),
        wf_subtree(pages2, p, h, lo, hi),
        h > 0,
        0 <= ci < children_of(pages[p]).len(),
        route(pages[p].key_seq(), key) == ci,
        pages[children_of(pages[p])[ci]].key_seq().len() >= 2,
        !pages.contains_key(r),
        ({
            let c = children_of(pages[p])[ci];
            let cn = pages[c];
            &&& cn is Leaf ==> leaf_split_shape(
                pages,
                pages2,
                p,
                ci,
                c,
                r,
                leaf_split_index(cn.key_seq(), cn->Leaf_0.value_seq(), thin),
            )
            &&& cn is Internal ==> internal_split_shape(
                pages,
                pages2,
                p,
                ci,
                c,
                r,
                internal_split_index(cn.key_seq(), thin),
            )
        }),
        ({
            let j2 = route(pages2[p].key_seq(), key);
            let c2 = children_of(pages2[p])[j2];
            &&& 0 <= j2 < children_of(pages2[p]).len()
            &&& on_route(pages2, c2, h - 1, key, q)
            &&& q != c2
        }),
    ensures
        on_route(pages, children_of(pages[p])[ci], h - 1, key, q),
{
    let ks = pages[p].key_seq();
    let cs = children_of(pages[p]);
    let c = cs[ci];
    let cn = pages[c];
    let kc = cn.key_seq();
    let ks2 = pages2[p].key_seq();
    let j2 = route(ks2, key);
    let c2 = children_of(pages2[p])[j2];
    assert(wf_subtree(pages, c, h - 1, child_lo(ks, lo, ci), child_hi(ks, hi, ci)));
    let i = if cn is Leaf {
        leaf_split_index(kc, cn->Leaf_0.value_seq(), thin)
    } else {
        internal_split_index(kc, thin)
    };
    if cn is Leaf {
        lemma_leaf_split_from(kc, cn->Leaf_0.value_seq(), thin, 0, STORAGE_META_SIZE);
    } else {
        lemma_internal_split_from(kc, thin, 0, wrap16(STORAGE_META_SIZE + PAGE_ID_SIZE));
    }
    let m = kc[i - 1];
    assert(ks2 == ks.insert(ci, m));
    crate::btree::key_order::lemma_route_insert(ks, ci, m, key);
    assert(j2 == ci || j2 == ci + 1);
    assert(children_of(pages2[p]) == cs.insert(ci + 1, r));
    if cn is Internal {
        let gc = children_of(cn);
        assert(h - 1 > 0);
        crate::btree::key_order::lemma_route(kc, key);
        let j = route(kc, key);
        if j2 == ci {
            assert(c2 == c);
            assert(!key_lt(m, key));
            if j > i - 1 {
                assert(key_lt(kc[i - 1], key));
            }
            crate::btree::key_order::lemma_route_prefix(kc, i - 1, key);
            assert(children_of(pages2[c])[j] == gc[j]);
        } else {
            assert(c2 == r);
            assert(key_lt(m, key));
            if j < i {
                assert(!key_lt(kc[i - 1], key));
            }
            crate::btree::key_order::lemma_route_suffix(kc, i, key);
            assert(children_of(pages2[r])[j - i] == gc[j]);
        }
        let g = gc[j];
        assert(on_route(pages2, g, h - 2, key, q));
        assert(wf_subtree(pages, g, h - 2, child_lo(kc, child_lo(ks, lo, ci), j), child_hi(kc, child_hi(ks, hi, ci), j)));
        assert forall|x: PageId| #[trigger] in_subtree(pages, g, h - 2, x) implies pages2.contains_key(x)
            == pages.contains_key(x) && (pages.contains_key(x) ==> pages2[x] == pages[x]) by {
            lemma_child_in_subtree(pages, c, h - 1, j, x);
            crate::btree::tree_spec::lemma_subtree_pages_exist(
                pages,
                g,
                h - 2,
                child_lo(kc, child_lo(ks, lo, ci), j),
                child_hi(kc, child_hi(ks, hi, ci), j),
                x,
            );
            assert(!in_subtree(pages, cs[ci], h - 1, p));
            assert(!in_subtree(pages, gc[j], h - 2, c));
        }
        lemma_on_route_frame(pages, pages2, g, h - 2, key, q);
    }
}

/// Whether leaf `n2` is leaf `n` with `value` stored under `key`: the value of a key it
/// holds is replaced, else the entry goes where the key's order puts it; the header keeps
/// its link and padding and counts the new contents.
pub open spec fn leaf_stored(n: BTreeNode, n2: BTreeNode, key: Seq<u8>, value: Seq<u8>) -> bool {
    let ks = n.key_seq();
    let vs = n->Leaf_0.value_seq();
    let i = route(ks, key);
    &&& n2 is Leaf
    &&& n2->Leaf_0.header.next == n->Leaf_0.header.next
    &&& n2->Leaf_0.header._padding == n->Leaf_0.header._padding
    &&& n.sizes_ok() ==> n2.sizes_ok()
    &&& if i < ks.len() && ks[i] == key {
        &&& n2.key_seq() == ks
        &&& n2->Leaf_0.value_seq() == vs.update(i, value)
    } else {
        &&& n2.key_seq() == ks.insert(i, key)
        &&& n2->Leaf_0.value_seq() == vs.insert(i, value)
    }
}

/// Whether `part` holds the entries `a` to `b` of `whole` (for internal nodes, the routing
/// keys `a` to `b` and the children around them), with a header that counts it.
pub open spec fn part_at(part: BTreeNode, whole: BTreeNode, a: int, b: int) -> bool {
    &&& part.sizes_ok()
    &&& 0 <= a <= b <= whole.key_seq().len()
    &&& part.key_seq() == whole.key_seq().subrange(a, b)
    &&& match (part, whole) {
        (BTreeNode::Leaf(pl), BTreeNode::Leaf(wl)) => b <= wl.value_seq().len() && pl.value_seq()
            == wl.value_seq().subrange(a, b),
        (BTreeNode::Internal(_), BTreeNode::Internal(_)) => b + 1 <= children_of(whole).len()
            && children_of(part) == children_of(whole).subrange(a, b + 1),
        _ => false,
    }
}

/// Whether `part` holds a run of the entries of `whole`, as a half of a split does.
pub open spec fn part_of(part: BTreeNode, whole: BTreeNode) -> bool {
    exists|a: int, b: int| #[trigger] part_at(part, whole, a, b)
}

/// Whether storing `value` under `key` would leave every node on the way from `page` down
/// to the leaf of `key` within `fat`, so that no node on it needs splitting.
#[verifier::opaque]
pub open spec fn fits_on_path(
    pages: Map<PageId, BTreeNode>,
    page: PageId,
    h: int,
    key: Seq<u8>,
    value: Seq<u8>,
    fat: u16,
) -> bool
    decreases h,
{
    &&& pages.contains_key(page)
    &&& !would_overflow(pages[page], key, value, fat)
    &&& match pages[page] {
        BTreeNode::Internal(m) => {
            let j = route(m.key_seq(), key);
            h > 0 && 0 <= j < m.children@.len() && fits_on_path(
                pages,
                m.children@[j],
                h - 1,
                key,
                value,
                fat,
            )
        },
        BTreeNode::Leaf(_) => true,
    }
}

/// One step of `fits_on_path`: the node itself fits, and, when it is internal, so does the
/// path below the child that `key` is routed to.
pub proof fn lemma_fits_on_path(
    pages: Map<PageId, BTreeNode>,
    page: PageId,
    h: int,
    key: Seq<u8>,
    value: Seq<u8>,
    fat: u16,
)
    requires
        fits_on_path(pages, page, h, key, value, fat),
    ensures
        pages.contains_key(page),
        !would_overflow(pages[page], key, value, fat),
        pages[page] is Internal ==> h > 0 && 0 <= route(pages[page].key_seq(), key) < children_of(
            pages[page],
        ).len() && fits_on_path(
            pages,
            children_of(pages[page])[route(pages[page].key_seq(), key)],
            h - 1,
            key,
            value,
            fat,
        ),
{
    reveal_with_fuel(fits_on_path, 1);
}

/// What a split asks of the pages: two distinct pages in use, an internal parent, and a
/// place among its children for the new child.
pub open spec fn can_split_at(
    pages: Map<PageId, BTreeNode>,
    parent_page: PageId,
    child_page: PageId,
    child_idx: int,
) -> bool {
    &&& parent_page != child_page
    &&& pages.contains_key(parent_page)
    &&& pages.contains_key(child_page)
    &&& pages[parent_page] is Internal
    &&& child_idx <= pages[parent_page].key_seq().len()
    &&& child_idx < children_of(pages[parent_page]).len()
    &&& match pages[child_page] {
        BTreeNode::Leaf(l) => l.paired(),
        BTreeNode::Internal(n) => n.keys@.len() <= n.children@.len() + 1 && n.children@.len()
            <= n.keys@.len() + 1,
    }
}

/// A split done as `maybe_split` does it, or none, keeps every key and value within the
/// bounds that covered them.
proof fn lemma_maybe_split_within(
    pages: Map<PageId, BTreeNode>,
    pages1: Map<PageId, BTreeNode>,
    p: PageId,
    ci: int,
    c: PageId,
    r: PageId,
    thin: u16,
    split: bool,
)
    requires
        can_split_at(pages, p, c, ci),
        0 <= ci,
        !split ==> pages1 == pages,
        split ==> pages[c].key_seq().len() >= 2,
        split && pages[c] is Leaf ==> leaf_split_shape(
            pages,
            pages1,
            p,
            ci,
            c,
            r,
            leaf_split_index(pages[c].key_seq(), pages[c]->Leaf_0.value_seq(), thin),
        ),
        split && pages[c] is Internal ==> internal_split_shape(
            pages,
            pages1,
            p,
            ci,
            c,
            r,
            internal_split_index(pages[c].key_seq(), thin),
        ),
    ensures
        stays_within(pages, pages1),
{
    let cn = pages[c];
    if split {
        match cn {
            BTreeNode::Leaf(l) => {
                crate::btree::key_order::lemma_keys_view_edits(l.keys@, 0, vstd::pervasive::arbitrary(), l.keys@);
                crate::btree::key_order::lemma_keys_view_edits(l.values@, 0, vstd::pervasive::arbitrary(), l.values@);
                lemma_leaf_split_from(cn.key_seq(), l.value_seq(), thin, 0, STORAGE_META_SIZE);
                lemma_leaf_split_within(pages, pages1, p, ci, c, r, leaf_split_index(cn.key_seq(), l.value_seq(), thin));
            },
            BTreeNode::Internal(_) => {
                lemma_internal_split_from(cn.key_seq(), thin, 0, wrap16(STORAGE_META_SIZE + PAGE_ID_SIZE));
                lemma_internal_split_within(pages, pages1, p, ci, c, r, internal_split_index(cn.key_seq(), thin));
            },
        }
    }
}

/// A split done as `split_leaf` or `split_internal` does it keeps a well-formed tree
/// well-formed, keeps what it holds, and adds no page below it but the new one.
proof fn lemma_split_keeps_tree(
    pages: Map<PageId, BTreeNode>,
    pages2: Map<PageId, BTreeNode>,
    p: PageId,
    h: int,
    lo: Option<Seq<u8>>,
    hi: Option<Seq<u8>>,
    ci: int,
    r: PageId,
    thin: u16,
)
    requires
        wf_subtree(pages, p, h, lo, hi),
        h > 0,
        0 <= ci < children_of(pages[p]).len(),
        pages[children_of(pages[p])[ci]].key_seq().len() >= 2,
        !pages.contains_key(r),
        ({
            let c = children_of(pages[p])[ci];
            let cn = pages[c];
            &&& cn is Leaf ==> leaf_split_shape(
                pages,
                pages2,
                p,
                ci,
                c,
                r,
                leaf_split_index(cn.key_seq(), cn->Leaf_0.value_seq(), thin),
            )
            &&& cn is Internal ==> internal_split_shape(
                pages,
                pages2,
                p,
                ci,
                c,
                r,
                internal_split_index(cn.key_seq(), thin),
            )
        }),
    ensures
        wf_subtree(pages2, p, h, lo, hi),
        forall|k: Seq<u8>| #[trigger] lookup(pages2, p, h, k) == lookup(pages, p, h, k),
        forall|q: PageId| #[trigger] in_subtree(pages2, p, h, q) ==> in_subtree(pages, p, h, q) || q == r,
        pages2.dom() == pages.dom().insert(r),
        pages2[p].key_seq().len() == pages[p].key_seq().len() + 1,
{
    let ks = pages[p].key_seq();
    let cs = children_of(pages[p]);
    let c = cs[ci];
    let cn = pages[c];
    let kc = cn.key_seq();
    assert(wf_subtree(pages, c, h - 1, child_lo(ks, lo, ci), child_hi(ks, hi, ci)));
    match cn {
        BTreeNode::Leaf(l) => {
            let i = leaf_split_index(kc, l.value_seq(), thin);
            lemma_leaf_split_from(kc, l.value_seq(), thin, 0, STORAGE_META_SIZE);
            crate::btree::key_order::lemma_keys_view_edits(l.keys@, 0, vstd::pervasive::arbitrary(), l.keys@);
            crate::btree::key_order::lemma_keys_view_edits(l.values@, 0, vstd::pervasive::arbitrary(), l.values@);
            lemma_split_leaf_premises(pages, pages2, p, h, lo, hi, ci, r, i);
            lemma_parent_after_split(pages, pages2, p, h, lo, hi, ci, r, kc[i - 1]);
        },
        BTreeNode::Internal(n) => {
            let i = internal_split_index(kc, thin);
            lemma_internal_split_from(kc, thin, 0, wrap16(STORAGE_META_SIZE + PAGE_ID_SIZE));
            assert(internal_split_done(pages, pages2, p, h, lo, hi, ci, r, i));
            lemma_split_internal_premises(pages, pages2, p, h, lo, hi, ci, r, i);
            lemma_parent_after_split(pages, pages2, p, h, lo, hi, ci, r, kc[i - 1]);
        },
    }
}

/// A page strictly below a child of `p`, after child `ci` of `p` was split into `c` and `r`,
/// is none of the pages the split touched: it was below `p` before, and is unchanged.
proof fn lemma_below_split_unchanged(
    pages: Map<PageId, BTreeNode>,
    pages2: Map<PageId, BTreeNode>,
    p: PageId,
    h: int,
    lo: Option<Seq<u8>>,
    hi: Option<Seq<u8>>,
    ci: int,
    c: PageId,
    r: PageId,
    j: int,
    q: PageId,
)
    requires
        wf_subtree(pages, p, h, lo, hi),
        wf_subtree(pages2, p, h, lo, hi),
        h > 0,
        0 <= ci,
        ci + 1 < children_of(pages2[p]).len(),
        children_of(pages2[p])[ci] == c,
        children_of(pages2[p])[ci + 1] == r,
        forall|x: PageId| pages.contains_key(x) && x != p && x != c ==> #[trigger] pages2[x] == pages[x],
        forall|x: PageId| #[trigger] in_subtree(pages2, p, h, x) ==> in_subtree(pages, p, h, x) || x == r,
        0 <= j < children_of(pages2[p]).len(),
        in_subtree(pages2, children_of(pages2[p])[j], h - 1, q),
        q != children_of(pages2[p])[j],
    ensures
        q != p,
        q != c,
        q != r,
        in_subtree(pages, p, h, q),
        pages.contains_key(q),
        pages2[q] == pages[q],
{
    let cs = children_of(pages2[p]);
    assert(!in_subtree(pages2, cs[j], h - 1, p));
    if j != ci {
        assert(!in_subtree(pages2, cs[ci], h - 1, q));
    }
    if j != ci + 1 {
        assert(!in_subtree(pages2, cs[ci + 1], h - 1, q));
    }
    lemma_child_in_subtree(pages2, p, h, j, q);
    crate::btree::tree_spec::lemma_subtree_pages_exist(pages, p, h, lo, hi, q);
}

/// A new root above a well-formed tree, with no routing key and the old root as its only
/// child, is a well-formed tree one level higher that holds the same.
proof fn lemma_new_root(
    pages: Map<PageId, BTreeNode>,
    pages1: Map<PageId, BTreeNode>,
    old_root: PageId,
    new_root: PageId,
    h: int,
)
    requires
        wf_subtree(pages, old_root, h, None, None),
        !pages.contains_key(new_root),
        pages1 == pages.insert(new_root, pages1[new_root]),
        pages1[new_root] is Internal,
        pages1[new_root].key_seq().len() == 0,
        children_of(pages1[new_root]) == seq![old_root],
        pages1[new_root].sizes_ok(),
    ensures
        wf_subtree(pages1, new_root, h + 1, None, None),
        forall|k: Seq<u8>| #[trigger] lookup(pages1, new_root, h + 1, k) == lookup(pages, old_root, h, k),
{
    assert forall|q: PageId| #[trigger] in_subtree(pages, old_root, h, q) implies pages.contains_key(q) by {
        crate::btree::tree_spec::lemma_subtree_pages_exist(pages, old_root, h, None, None, q);
    }
    assert(crate::btree::tree_spec::agree_below(pages, pages1, old_root, h));
    crate::btree::tree_spec::lemma_frame_wf(pages, pages1, old_root, h, None, None);
    let ks = pages1[new_root].key_seq();
    let cs = children_of(pages1[new_root]);
    assert(cs[0] == old_root);
    assert(child_lo(ks, None, 0) == None::<Seq<u8>>);
    assert(child_hi(ks, None, 0) == None::<Seq<u8>>);
    assert(!in_subtree(pages1, old_root, h, new_root));
    assert(wf_subtree(pages1, new_root, h + 1, None, None));
    assert forall|k: Seq<u8>| #[trigger] lookup(pages1, new_root, h + 1, k) == lookup(pages, old_root, h, k) by {
        assert(route(ks, k) == 0);
        assert(lookup(pages1, new_root, h + 1, k) == lookup(pages1, cs[0], h, k));
    }
}

impl BTree {
    /// Splits leaf `child_page`, child `child_idx` of `parent_page`, in two, the second
    /// half going to a new page that becomes child `child_idx + 1`.
    pub fn split_leaf(&mut self, parent_page: PageId, child_page: PageId, child_idx: usize) -> (r: KvResult<()>)
        requires
            old(self).page_manager.inv(),
            old(self).page_manager.pages().contains_key(child_page),
            old(self).page_manager.pages()[child_page] is Leaf,
            old(self).page_manager.pages()[child_page].key_seq().len() >= 2 ==> can_split_at(
                old(self).page_manager.pages(),
                parent_page,
                child_page,
                child_idx as int,
            ),
        ensures
            final(self).page_manager.inv(),
            final(self).root == old(self).root,
            final(self).height == old(self).height,
            final(self).node_fat_limit_bytes == old(self).node_fat_limit_bytes,
            final(self).node_thin_limit_bytes == old(self).node_thin_limit_bytes,
            ({
                let pages = old(self).page_manager.pages();
                let leaf = pages[child_page]->Leaf_0;
                let n = leaf.key_seq().len();
                &&& n <= 1 ==> (r matches Err(KvError::TreeLogicError(m)) && m@
                    == "Key-value pair exceeds maximum page size"@)
                &&& n >= 2 ==> (r is Ok <==> old(self).page_manager.next_page_id() is Some)
                &&& n >= 2 && r is Err ==> (r matches Err(KvError::TreeLogicError(m)) && m@
                    == "no page ids left"@)
                &&& r is Err ==> (r matches Err(KvError::TreeLogicError(_)))
                &&& r is Err ==> final(self).page_manager.pages() == pages
                &&& final(self).page_manager.ids_left() == old(self).page_manager.ids_left() - if r is Ok {
                    1int
                } else {
                    0int
                }
                &&& r is Ok ==> leaf_split_shape(
                    pages,
                    final(self).page_manager.pages(),
                    parent_page,
                    child_idx as int,
                    child_page,
                    old(self).page_manager.next_page_id()->0,
                    leaf_split_index(
                        leaf.key_seq(),
                        leaf.value_seq(),
                        old(self).node_thin_limit_bytes,
                    ),
                )
            }),
    {
        let ghost pages = self.page_manager.pages();
        let ghost leaf0 = pages[child_page]->Leaf_0;
        let ghost ks = leaf0.key_seq();
        let ghost vs = leaf0.value_seq();
        let ghost new_id = self.page_manager.next_page_id()->0;
        proof {
            self.page_manager.lemma_ids();
        }
        let thin = self.node_thin_limit_bytes;
        let index = {
            let child = match self.page_manager.get_node(child_page) {
                Ok(node) => node.as_leaf(),
                Err(_) => vstd::pervasive::unreached(),
            };
            let n = child.get_keys().len();
            if n <= 1 {
                return Err(KvError::TreeLogicError("Key-value pair exceeds maximum page size".to_string()));
            }
            let mut size: u16 = STORAGE_META_SIZE;
            let mut index: usize = 0;
            proof {
                crate::btree::key_order::lemma_keys_view_edits(child.keys@, 0, vstd::pervasive::arbitrary(), child.keys@);
                crate::btree::key_order::lemma_keys_view_edits(child.values@, 0, vstd::pervasive::arbitrary(), child.values@);
            }
            while (size < thin || index < 1) && index < n - 1
                invariant
                    *child == leaf0,
                    n == ks.len(),
                    ks.len() == child.keys@.len(),
                    vs.len() == child.values@.len(),
                    forall|j: int| 0 <= j < ks.len() ==> #[trigger] ks[j] == child.keys@[j]@,
                    forall|j: int| 0 <= j < vs.len() ==> #[trigger] vs[j] == child.values@[j]@,
                    n >= 2,
                    leaf0.paired(),
                    0 <= index <= n - 1,
                    leaf_split_from(ks, vs, thin, index as int, size) == leaf_split_index(ks, vs, thin),
                decreases n - index,
            {
                let (key, value) = child.get_key_value_by_index(index);
                size = add_size(size, key.byte_size());
                size = add_size(size, value.byte_size());
                index = index + 1;
            }
            proof {
                lemma_leaf_split_from(ks, vs, thin, 0, STORAGE_META_SIZE);
            }
            index
        };
        if !self.page_manager.can_alloc() {
            return Err(KvError::TreeLogicError("no page ids left".to_string()));
        }
        let mut child = match self.page_manager.take_node(child_page) {
            Ok(node) => node,
            Err(_) => vstd::pervasive::unreached(),
        };
        let ghost old_child = child;
        let (mut keys, mut values) = child.as_leaf_mut().split_off(index);
        let mut new_node = LeafNode::new();
        new_node.append(&mut keys, &mut values);
        let promoted = child.as_leaf().keys[index - 1].clone();
        proof {
            crate::btree::key_order::lemma_keys_view_edits(leaf0.keys@, index as int, vstd::pervasive::arbitrary(), leaf0.keys@);
            crate::btree::key_order::lemma_keys_view_edits(leaf0.values@, index as int, vstd::pervasive::arbitrary(), leaf0.values@);
            assert(new_node.keys@ =~= leaf0.keys@.subrange(index as int, leaf0.keys@.len() as int));
            assert(new_node.values@ =~= leaf0.values@.subrange(index as int, leaf0.values@.len() as int));
        }
        let ghost left = child;
        let ghost right = BTreeNode::Leaf(new_node);
        self.page_manager.put_node(child_page, child);
        proof {
            self.page_manager.lemma_ids();
        }
        let new_page = match self.page_manager.alloc_node(BTreeNode::Leaf(new_node)) {
            Ok(id) => id,
            Err(_) => vstd::pervasive::unreached(),
        };
        let mut parent = match self.page_manager.take_node(parent_page) {
            Ok(node) => node,
            Err(_) => vstd::pervasive::unreached(),
        };
        let ghost old_parent = parent;
        assert(new_page != parent_page);
        assert(old_parent == pages[parent_page]);
        assert(child_idx < children_of(old_parent).len());
        let n_children = parent.as_internal().children.len();
        let next_idx = child_idx + 1;
        parent.as_internal_mut().insert_key_child(child_idx, promoted, next_idx, new_page);
        proof {
            self.page_manager.lemma_ids();
        }
        self.page_manager.put_node(parent_page, parent);
        proof {
            let pages2 = self.page_manager.pages();
            assert(pages2[child_page] == left);
            assert(pages2[new_page] == right);
            assert(pages2[parent_page] == parent);
            assert(pages2.dom() =~= pages.dom().insert(new_page));
        }
        Ok(())
    }

    /// Splits internal node `child_page`, child `child_idx` of `parent_page`, in two: one
    /// routing key moves up into the parent and the keys and children after it go to a
    /// new page that becomes child `child_idx + 1`.
    pub fn split_internal(&mut self, parent_page: PageId, child_page: PageId, child_idx: usize) -> (r: KvResult<()>)
        requires
            old(self).page_manager.inv(),
            old(self).page_manager.pages().contains_key(child_page),
            old(self).page_manager.pages()[child_page] is Internal,
            old(self).page_manager.pages()[child_page].key_seq().len() >= 2 ==> can_split_at(
                old(self).page_manager.pages(),
                parent_page,
                child_page,
                child_idx as int,
            ),
        ensures
            final(self).page_manager.inv(),
            final(self).root == old(self).root,
            final(self).height == old(self).height,
            final(self).node_fat_limit_bytes == old(self).node_fat_limit_bytes,
            final(self).node_thin_limit_bytes == old(self).node_thin_limit_bytes,
            ({
                let pages = old(self).page_manager.pages();
                let ks = pages[child_page].key_seq();
                let n = ks.len();
                &&& n <= 1 ==> (r matches Err(KvError::TreeLogicError(m)) && m@
                    == "Page size too small to split internal node"@)
                &&& n >= 2 ==> (r is Ok <==> old(self).page_manager.next_page_id() is Some)
                &&& n >= 2 && r is Err ==> (r matches Err(KvError::TreeLogicError(m)) && m@
                    == "no page ids left"@)
                &&& r is Err ==> (r matches Err(KvError::TreeLogicError(_)))
                &&& r is Err ==> final(self).page_manager.pages() == pages
                &&& final(self).page_manager.ids_left() == old(self).page_manager.ids_left() - if r is Ok {
                    1int
                } else {
                    0int
                }
                &&& r is Ok ==> internal_split_shape(
                    pages,
                    final(self).page_manager.pages(),
                    parent_page,
                    child_idx as int,
                    child_page,
                    old(self).page_manager.next_page_id()->0,
                    internal_split_index(ks, old(self).node_thin_limit_bytes),
                )
            }),
    {
        let ghost pages = self.page_manager.pages();
        let ghost node0 = pages[child_page]->Internal_0;
        let ghost ks = node0.key_seq();
        proof {
            self.page_manager.lemma_ids();
        }
        let thin = self.node_thin_limit_bytes;
        let index = {
            let child = match self.page_manager.get_node(child_page) {
                Ok(node) => node.as_internal(),
                Err(_) => vstd::pervasive::unreached(),
            };
            let n_keys = child.get_keys().len();
            if n_keys <= 1 {
                return Err(KvError::TreeLogicError("Page size too small to split internal node".to_string()));
            }
            let mut size: u16 = add_size(STORAGE_META_SIZE, PAGE_ID_SIZE);
            let mut index: usize = 0;
            let child_keys = child.get_keys();
            proof {
                crate::btree::key_order::lemma_keys_view_edits(child.keys@, 0, vstd::pervasive::arbitrary(), child.keys@);
            }
            while (size < thin || index <= 1) && index < n_keys - 1
                invariant
                    *child == node0,
                    *child_keys == node0.keys,
                    n_keys == ks.len(),
                    n_keys >= 2,
                    0 <= index <= n_keys - 1,
                    ks.len() == child_keys@.len(),
                    forall|j: int| 0 <= j < ks.len() ==> #[trigger] ks[j] == child_keys@[j]@,
                    internal_split_from(ks, thin, index as int, size) == internal_split_from(
                        ks,
                        thin,
                        0,
                        wrap16(STORAGE_META_SIZE + PAGE_ID_SIZE),
                    ),
                decreases n_keys - index,
            {
                size = add_size(size, add_size(child_keys[index].byte_size(), PAGE_ID_SIZE));
                index = index + 1;
            }
            proof {
                lemma_internal_split_from(ks, thin, 0, wrap16(STORAGE_META_SIZE + PAGE_ID_SIZE));
            }
            if index < 1 {
                1
            } else {
                index
            }
        };
        if !self.page_manager.can_alloc() {
            return Err(KvError::TreeLogicError("no page ids left".to_string()));
        }
        let mut child = match self.page_manager.take_node(child_page) {
            Ok(node) => node,
            Err(_) => vstd::pervasive::unreached(),
        };
        let (mut keys, mut children) = child.as_internal_mut().split_off(index);
        let mut new_node = InternalNode::new();
        new_node.append(&mut keys, &mut children);
        let promoted = child.as_internal_mut().pop_last_key();
        proof {
            crate::btree::key_order::lemma_keys_view_edits(node0.keys@, index as int, vstd::pervasive::arbitrary(), node0.keys@);
            crate::btree::key_order::lemma_keys_view_edits(node0.keys@, index - 1, vstd::pervasive::arbitrary(), node0.keys@);
            assert(new_node.keys@ =~= node0.keys@.subrange(index as int, node0.keys@.len() as int));
            assert(new_node.children@ =~= node0.children@.subrange(index as int, node0.children@.len() as int));
            assert(node0.keys@.subrange(0, index as int).drop_last() =~= node0.keys@.subrange(0, index - 1));
            assert(crate::btree::key_order::keys_view(node0.keys@).subrange(0, index as int).drop_last()
                =~= crate::btree::key_order::keys_view(node0.keys@).subrange(0, index - 1));
        }
        let ghost left = child;
        let ghost right = BTreeNode::Internal(new_node);
        self.page_manager.put_node(child_page, child);
        proof {
            self.page_manager.lemma_ids();
        }
        let new_page = match self.page_manager.alloc_node(BTreeNode::Internal(new_node)) {
            Ok(id) => id,
            Err(_) => vstd::pervasive::unreached(),
        };
        let mut parent = match self.page_manager.take_node(parent_page) {
            Ok(node) => node,
            Err(_) => vstd::pervasive::unreached(),
        };
        let ghost old_parent = parent;
        assert(new_page != parent_page);
        assert(old_parent == pages[parent_page]);
        let n_children = parent.as_internal().children.len();
        let next_idx = child_idx + 1;
        parent.as_internal_mut().insert_key_child(child_idx, promoted, next_idx, new_page);
        proof {
            self.page_manager.lemma_ids();
        }
        self.page_manager.put_node(parent_page, parent);
        proof {
            let pages2 = self.page_manager.pages();
            assert(pages2[child_page] == left);
            assert(pages2[new_page] == right);
            assert(pages2[parent_page] == parent);
            assert(pages2.dom() =~= pages.dom().insert(new_page));
        }
        Ok(())
    }

    /// Splits child `child_idx` of `parent_page`, the node in `child_page`, when storing
    /// `value` under `key` would make it count for more than the fat limit; says whether it
    /// split.
    pub fn maybe_split(
        &mut self,
        parent_page: PageId,
        child_page: PageId,
        child_idx: usize,
        key: &[u8],
        value: &[u8],
    ) -> (r: KvResult<bool>)
        requires
            old(self).page_manager.inv(),
            can_split_at(old(self).page_manager.pages(), parent_page, child_page, child_idx as int),
            sorted_keys(old(self).page_manager.pages()[child_page].key_seq()),
        ensures
            final(self).page_manager.inv(),
            final(self).root == old(self).root,
            final(self).height == old(self).height,
            final(self).node_fat_limit_bytes == old(self).node_fat_limit_bytes,
            final(self).node_thin_limit_bytes == old(self).node_thin_limit_bytes,
            ({
                let pages = old(self).page_manager.pages();
                let cn = pages[child_page];
                let full = would_overflow(cn, key@, value@, old(self).node_fat_limit_bytes);
                let thin = old(self).node_thin_limit_bytes;
                let r_id = old(self).page_manager.next_page_id()->0;
                &&& !full <==> r == Ok::<bool, KvError>(false)
                &&& !full ==> final(self).page_manager.pages() == pages
                &&& final(self).page_manager.ids_left() == old(self).page_manager.ids_left() - if r
                    == Ok::<bool, KvError>(true) {
                    1int
                } else {
                    0int
                }
                &&& r is Err ==> (r matches Err(KvError::TreeLogicError(_)))
                &&& r is Err ==> final(self).page_manager.pages() == pages
                &&& full && cn.key_seq().len() >= 2 && old(self).page_manager.next_page_id() is Some
                    ==> r == Ok::<bool, KvError>(true)
                &&& r == Ok::<bool, KvError>(true) ==> cn.key_seq().len() >= 2
                    && old(self).page_manager.next_page_id() is Some
                &&& r == Ok::<bool, KvError>(true) && cn is Leaf ==> leaf_split_shape(
                    pages,
                    final(self).page_manager.pages(),
                    parent_page,
                    child_idx as int,
                    child_page,
                    r_id,
                    leaf_split_index(cn.key_seq(), cn->Leaf_0.value_seq(), thin),
                )
                &&& r == Ok::<bool, KvError>(true) && cn is Internal ==> internal_split_shape(
                    pages,
                    final(self).page_manager.pages(),
                    parent_page,
                    child_idx as int,
                    child_page,
                    r_id,
                    internal_split_index(cn.key_seq(), thin),
                )
            }),
    {
        let fat = self.node_fat_limit_bytes;
        let is_full = {
            let child = match self.page_manager.get_node(child_page) {
                Ok(node) => node,
                Err(_) => vstd::pervasive::unreached(),
            };
            let total = child.total_size_bytes();
            if child.is_leaf() {
                let leaf = child.as_leaf();
                match leaf.get_value_by_key(key) {
                    Some(old_val) => {
                        let old_val_size = old_val.byte_size();
                        let new_val_size = value.byte_size();
                        if new_val_size > old_val_size {
                            add_size(leaf.header.total_size_bytes(), new_val_size - old_val_size) > fat
                        } else {
                            false
                        }
                    },
                    None => {
                        let r = add_size(add_size(key.byte_size(), value.byte_size()), total) > fat;
                        proof {
                            crate::btree::traits::lemma_wrap16_shift(
                                bytes_size(key@.len()) + bytes_size(value@.len()),
                                total as int,
                            );
                        }
                        r
                    },
                }
            } else {
                let additional_bytes = add_size(key.byte_size(), PAGE_ID_SIZE);
                let r = add_size(additional_bytes, total) > fat;
                proof {
                    crate::btree::traits::lemma_wrap16_shift(
                        bytes_size(key@.len()) + PAGE_ID_SIZE,
                        total as int,
                    );
                }
                r
            }
        };
        if !is_full {
            return Ok(false);
        }
        let is_leaf = match self.page_manager.get_node(child_page) {
            Ok(node) => node.is_leaf(),
            Err(_) => vstd::pervasive::unreached(),
        };
        if is_leaf {
            match self.split_leaf(parent_page, child_page, child_idx) {
                Ok(()) => Ok(true),
                Err(e) => Err(e),
            }
        } else {
            match self.split_internal(parent_page, child_page, child_idx) {
                Ok(()) => Ok(true),
                Err(e) => Err(e),
            }
        }
    }

    /// Splits the root when storing `value` under `key` would make it count for more than
    /// the fat limit: a new root takes the two halves as its children, and the tree grows
    /// one level.
    pub fn maybe_split_root(&mut self, key: &[u8], value: &[u8]) -> (r: KvResult<()>)
        requires
            old(self).page_manager.inv(),
            old(self).page_manager.pages().contains_key(old(self).root),
            sorted_keys(old(self).page_manager.pages()[old(self).root].key_seq()),
            match old(self).page_manager.pages()[old(self).root] {
                BTreeNode::Leaf(l) => l.paired(),
                BTreeNode::Internal(n) => n.keys@.len() <= n.children@.len() + 1
                    && n.children@.len() <= n.keys@.len() + 1,
            },
        ensures
            final(self).page_manager.inv(),
            final(self).node_fat_limit_bytes == old(self).node_fat_limit_bytes,
            final(self).node_thin_limit_bytes == old(self).node_thin_limit_bytes,
            ({
                let pages = old(self).page_manager.pages();
                let rn = pages[old(self).root];
                let full = would_overflow(rn, key@, value@, old(self).node_fat_limit_bytes);
                &&& !full ==> r is Ok
                &&& ({
                    let total = rn.header().spec_total_size();
                    let fat = old(self).node_fat_limit_bytes;
                    let grows = match rn {
                        BTreeNode::Leaf(l) => match l.spec_get(key@) {
                            Some(o) => bytes_size(value@.len()) > bytes_size(o.len()) && wrap16(
                                total + bytes_size(value@.len()) - bytes_size(o.len()),
                            ) > fat,
                            None => wrap16(total + bytes_size(key@.len()) + bytes_size(value@.len())) > fat,
                        },
                        BTreeNode::Internal(_) => wrap16(total + bytes_size(key@.len()) + PAGE_ID_SIZE) > fat,
                    };
                    &&& !grows ==> r is Ok && final(self).root == old(self).root && final(self).height
                        == old(self).height && final(self).page_manager.pages() == pages
                    &&& grows && rn.key_seq().len() >= 2 && old(self).page_manager.ids_left() >= 2 ==> r is Ok
                        && final(self).height@ == old(self).height@ + 1 && final(self).root != old(self).root
                    &&& grows && rn.key_seq().len() <= 1 ==> r is Err && final(self).page_manager.pages() == pages
                })
                &&& r is Err ==> full && (r matches Err(KvError::TreeLogicError(_)))
                &&& full && rn.key_seq().len() <= 1 ==> r is Err
                &&& full && rn.key_seq().len() >= 2 && old(self).page_manager.ids_left() >= 2 ==> r is Ok
                &&& final(self).page_manager.ids_left() == old(self).page_manager.ids_left() - if full
                    && r is Ok {
                    2int
                } else {
                    0int
                }
                &&& stays_within(pages, final(self).page_manager.pages())
                &&& !(full && r is Ok) ==> {
                    &&& final(self).root == old(self).root
                    &&& final(self).height == old(self).height
                    &&& final(self).page_manager.pages() == pages
                }
                &&& full && r is Ok ==> {
                    &&& final(self).height@ == old(self).height@ + 1
                    &&& final(self).root == old(self).page_manager.next_page_id()->0
                    &&& final(self).page_manager.pages()[final(self).root].key_seq().len() == 1
                    &&& children_of(final(self).page_manager.pages()[final(self).root])[0] == old(
                        self,
                    ).root
                }
                &&& old(self).wf() ==> final(self).wf() && final(self)@ == old(self)@
                &&& old(self).wf() && full && r is Ok ==> {
                    let pages2 = final(self).page_manager.pages();
                    let nr = final(self).root;
                    let cs = children_of(pages2[nr]);
                    &&& cs.len() == 2
                    &&& cs[0] == old(self).root
                    &&& pages2.dom() == pages.dom().insert(nr).insert(cs[1])
                    &&& !pages.contains_key(nr) && !pages.contains_key(cs[1]) && nr != cs[1]
                    &&& old(self).page_manager.free_ids().remove(nr).is_empty() ==> cs[1] == old(
                        self,
                    ).page_manager.fresh_id() + if old(self).page_manager.free_ids().is_empty() {
                        1int
                    } else {
                        0int
                    }
                    &&& !old(self).page_manager.free_ids().remove(nr).is_empty() ==> old(
                        self,
                    ).page_manager.free_ids().contains(cs[1]) && forall|f: PageId|
                        #[trigger] old(self).page_manager.free_ids().remove(nr).contains(f) ==> cs[1] <= f
                    &&& part_of(pages2[cs[0]], rn)
                    &&& part_of(pages2[cs[1]], rn)
                    &&& rn is Leaf ==> {
                        let i = leaf_split_index(rn.key_seq(), rn->Leaf_0.value_seq(), old(self).node_thin_limit_bytes);
                        &&& part_at(pages2[cs[0]], rn, 0, i)
                        &&& part_at(pages2[cs[1]], rn, i, rn.key_seq().len() as int)
                        &&& pages2[nr].key_seq() == seq![rn.key_seq()[i - 1]]
                    }
                    &&& rn is Internal ==> {
                        let i = internal_split_index(rn.key_seq(), old(self).node_thin_limit_bytes);
                        &&& part_at(pages2[cs[0]], rn, 0, i - 1)
                        &&& part_at(pages2[cs[1]], rn, i, rn.key_seq().len() as int)
                        &&& pages2[nr].key_seq() == seq![rn.key_seq()[i - 1]]
                    }
                    &&& forall|q: PageId|
                        #[trigger] in_subtree(pages2, nr, old(self).height@ + 1int, q) && q != nr && q != cs[0]
                            && q != cs[1] ==> in_subtree(pages, old(self).root, old(self).height@ as int, q)
                            && pages.contains_key(q) && pages2[q] == pages[q]
                    &&& forall|q: PageId|
                        #[trigger] on_route(pages2, nr, old(self).height@ + 1int, key@, q) && q != nr && q != cs[0]
                            && q != cs[1] ==> on_route(pages, old(self).root, old(self).height@ as int, key@, q)
                }
            }),
    {
        let ghost pages = self.page_manager.pages();
        let ghost h = self.height@ as int;
        let root = self.root;
        let fat = self.node_fat_limit_bytes;
        proof {
            self.page_manager.lemma_ids_left();
        }
        let (is_full, is_leaf, n_keys) = {
            let root_node = match self.page_manager.get_node(root) {
                Ok(node) => node,
                Err(_) => vstd::pervasive::unreached(),
            };
            let is_full = match root_node {
                BTreeNode::Leaf(leaf) => {
                    match leaf.get_value_by_key(key) {
                        Some(old_val) => {
                            let old_val_size = old_val.byte_size();
                            let new_val_size = value.byte_size();
                            if new_val_size > old_val_size {
                                add_size(leaf.header.total_size_bytes(), new_val_size - old_val_size) > fat
                            } else {
                                false
                            }
                        },
                        None => {
                            let total = leaf.header.total_size_bytes();
                            let r = add_size(add_size(total, key.byte_size()), value.byte_size()) > fat;
                            proof {
                                crate::btree::traits::lemma_wrap16_shift(
                                    total + bytes_size(key@.len()),
                                    bytes_size(value@.len()) as int,
                                );
                            }
                            r
                        },
                    }
                },
                BTreeNode::Internal(internal) => {
                    let total = internal.header.total_size_bytes();
                    let r = add_size(add_size(total, key.byte_size()), PAGE_ID_SIZE) > fat;
                    proof {
                        crate::btree::traits::lemma_wrap16_shift(
                            total + bytes_size(key@.len()),
                            PAGE_ID_SIZE as int,
                        );
                    }
                    r
                },
            };
            let n_keys = match root_node {
                BTreeNode::Leaf(leaf) => leaf.get_keys().len(),
                BTreeNode::Internal(internal) => internal.get_keys().len(),
            };
            (is_full, root_node.is_leaf(), n_keys)
        };
        if !is_full {
            return Ok(());
        }
        if n_keys <= 1 {
            if is_leaf {
                return Err(KvError::TreeLogicError("Key-value pair exceeds maximum page size".to_string()));
            } else {
                return Err(KvError::TreeLogicError("Page size too small to split internal node".to_string()));
            }
        }
        if !self.page_manager.can_alloc() {
            return Err(KvError::TreeLogicError("no page ids left".to_string()));
        }
        let mut new_root = InternalNode::new();
        new_root.push_child(root);
        proof {
            self.page_manager.lemma_ids();
            crate::btree::key_order::lemma_keys_view_edits(new_root.keys@, 0, vstd::pervasive::arbitrary(), new_root.keys@);
        }
        let ghost new_root_node = BTreeNode::Internal(new_root);
        let new_root_id = match self.page_manager.alloc_node(BTreeNode::Internal(new_root)) {
            Ok(id) => id,
            Err(_) => vstd::pervasive::unreached(),
        };
        let ghost pages1 = self.page_manager.pages();
        proof {
            assert(pages1 == pages.insert(new_root_id, new_root_node));
            assert(children_of(new_root_node) =~= seq![root]);
            if old(self).wf() {
                lemma_new_root(pages, pages1, root, new_root_id, h);
            }
            self.page_manager.lemma_ids();
            self.page_manager.lemma_ids_left();
            assert forall|b: int| pages_within(pages, b) implies #[trigger] pages_within(pages1, b) by {
                assert forall|q: PageId| #[trigger] pages1.contains_key(q) implies node_within(pages1[q], b) by {
                    if q != new_root_id {
                        assert(pages.contains_key(q));
                    }
                }
            }
        }
        let ghost next_id = self.page_manager.next_page_id();
        let ghost pm1 = self.page_manager;
        proof {
            pm1.lemma_next_page_id();
            old(self).page_manager.lemma_next_page_id();
        }
        let res = if is_leaf {
            self.split_leaf(new_root_id, root, 0)
        } else {
            self.split_internal(new_root_id, root, 0)
        };
        match res {
            Ok(()) => {
                self.root = new_root_id;
                self.height = Ghost((h + 1) as nat);
                proof {
                    let pages2 = self.page_manager.pages();
                    let rn = pages[root];
                    if is_leaf {
                        lemma_leaf_split_from(rn.key_seq(), rn->Leaf_0.value_seq(), self.node_thin_limit_bytes, 0, STORAGE_META_SIZE);
                        lemma_leaf_split_within(pages1, pages2, new_root_id, 0, root, next_id->0, leaf_split_index(rn.key_seq(), rn->Leaf_0.value_seq(), self.node_thin_limit_bytes));
                    } else {
                        lemma_internal_split_from(rn.key_seq(), self.node_thin_limit_bytes, 0, wrap16(STORAGE_META_SIZE + PAGE_ID_SIZE));
                        lemma_internal_split_within(pages1, pages2, new_root_id, 0, root, next_id->0, internal_split_index(rn.key_seq(), self.node_thin_limit_bytes));
                    }
                    if old(self).wf() {
                        lemma_split_keeps_tree(
                            pages1,
                            self.page_manager.pages(),
                            new_root_id,
                            h + 1,
                            None,
                            None,
                            0,
                            next_id->0,
                            self.node_thin_limit_bytes,
                        );
                        assert(self@ =~= old(self)@);
                        let pages2 = self.page_manager.pages();
                        let r2 = next_id->0;
                        let cs = children_of(pages2[new_root_id]);
                        assert(cs =~= seq![root, r2]);
                        let kc = rn.key_seq();
                        if is_leaf {
                            let i = leaf_split_index(kc, rn->Leaf_0.value_seq(), self.node_thin_limit_bytes);
                            assert(part_at(pages2[root], rn, 0, i));
                            assert(part_at(pages2[r2], rn, i, kc.len() as int));
                            assert(pages2[new_root_id].key_seq() =~= seq![kc[i - 1]]);
                        } else {
                            let i = internal_split_index(kc, self.node_thin_limit_bytes);
                            assert(part_at(pages2[root], rn, 0, i - 1));
                            assert(part_at(pages2[r2], rn, i, kc.len() as int));
                            assert(pages2[new_root_id].key_seq() =~= seq![kc[i - 1]]);
                        }
                        assert forall|x: PageId| #[trigger] in_subtree(pages, root, h, x) implies pages.contains_key(x) by {
                            crate::btree::tree_spec::lemma_subtree_pages_exist(pages, root, h, None, None, x);
                        }
                        assert(crate::btree::tree_spec::agree_below(pages, pages1, root, h));
                        crate::btree::tree_spec::lemma_frame(pages, pages1, root, h);
                        assert forall|q: PageId|
                            #[trigger] in_subtree(pages2, new_root_id, h + 1, q) && q != new_root_id && q != cs[0]
                                && q != cs[1] implies in_subtree(pages, root, h, q) && pages.contains_key(q)
                                && pages2[q] == pages[q] by {
                            assert(in_subtree(pages1, new_root_id, h + 1, q));
                            let j = choose|j: int|
                                0 <= j < children_of(pages1[new_root_id]).len() && in_subtree(
                                    pages1,
                                    #[trigger] children_of(pages1[new_root_id])[j],
                                    h,
                                    q,
                                );
                            assert(j == 0);
                            assert(in_subtree(pages1, root, h, q));
                            crate::btree::tree_spec::lemma_subtree_pages_exist(pages, root, h, None, None, q);
                        }
                        assert forall|q: PageId|
                            #[trigger] on_route(pages2, new_root_id, h + 1, key@, q) && q != new_root_id && q != cs[0]
                                && q != cs[1] implies on_route(pages, root, h, key@, q) by {
                            assert(pages1[new_root_id].key_seq().len() == 0);
                            assert(route(pages1[new_root_id].key_seq(), key@) == 0);
                            assert(children_of(pages1[new_root_id])[0] == root);
                            lemma_on_route_after_split(
                                pages1,
                                pages2,
                                new_root_id,
                                h + 1,
                                None,
                                None,
                                0,
                                r2,
                                self.node_thin_limit_bytes,
                                key@,
                                q,
                            );
                            lemma_on_route_frame(pages, pages1, root, h, key@, q);
                        }
                    }
                }
                Ok(())
            },
            Err(e) => {
                proof {
                    assert(self.page_manager.pages().contains_key(new_root_id));
                }
                proof {
                    self.page_manager.lemma_ids();
                }
                let _ = self.page_manager.delete(new_root_id);
                proof {
                    assert(self.page_manager.pages() =~= pages);
                }
                Err(e)
            },
        }
    }

    /// Stores `value` under `key` in the tree below `page`, splitting on the way down each
    /// child that the entry would make too big.
    #[verifier::spinoff_prover]
    #[verifier::rlimit(100)]
    pub fn recursive_set(
        &mut self,
        key: &[u8],
        value: &[u8],
        page: PageId,
        Ghost(h): Ghost<int>,
        Ghost(lo): Ghost<Option<Seq<u8>>>,
        Ghost(hi): Ghost<Option<Seq<u8>>>,
    ) -> (r: KvResult<()>)
        requires
            old(self).page_manager.inv(),
            wf_subtree(old(self).page_manager.pages(), page, h, lo, hi),
            in_range(key@, lo, hi),
        ensures
            final(self).page_manager.inv(),
            final(self).root == old(self).root,
            final(self).height == old(self).height,
            final(self).node_fat_limit_bytes == old(self).node_fat_limit_bytes,
            final(self).node_thin_limit_bytes == old(self).node_thin_limit_bytes,
            ({
                let pages = old(self).page_manager.pages();
                let pages2 = final(self).page_manager.pages();
                &&& wf_subtree(pages2, page, h, lo, hi)
                &&& pages2[page].key_seq().len() >= pages[page].key_seq().len()
                &&& pages2[page].key_seq().len() <= pages[page].key_seq().len() + 1
                &&& pages[page] is Internal && pages2[page].key_seq().len() == pages[page].key_seq().len() + 1
                    ==> final(self).page_manager.ids_left() < old(self).page_manager.ids_left()
                &&& pages[page] is Internal ==> children_of(pages2[page])[0] == children_of(pages[page])[0]
                &&& forall|q: PageId|
                    pages.contains_key(q) && !in_subtree(pages, page, h, q) ==> #[trigger] pages2.contains_key(q)
                        && pages2[q] == pages[q]
                &&& forall|q: PageId|
                    #[trigger] in_subtree(pages2, page, h, q) ==> in_subtree(pages, page, h, q)
                        || !pages.contains_key(q)
                &&& r is Ok ==> forall|k: Seq<u8>|
                    #[trigger] lookup(pages2, page, h, k) == if k == key@ {
                        Some(value@)
                    } else {
                        lookup(pages, page, h, k)
                    }
                &&& r is Err ==> (r matches Err(KvError::TreeLogicError(_)))
                &&& r is Err ==> forall|k: Seq<u8>| #[trigger] lookup(pages2, page, h, k) == lookup(pages, page, h, k)
                &&& pages[page] is Leaf ==> r is Ok
                &&& pages[page] is Leaf ==> leaf_stored(pages[page], pages2[page], key@, value@)
                &&& grows_within(pages, pages2, key@, value@)
                &&& old(self).page_manager.ids_left() - h <= final(self).page_manager.ids_left()
                    <= old(self).page_manager.ids_left()
                &&& entries_small(pages, key@, value@, old(self).node_fat_limit_bytes)
                    && old(self).page_manager.ids_left() >= h ==> r is Ok
                &&& r is Err ==> old(self).page_manager.ids_left() < h || exists|q: PageId|
                    q != page && pages.contains_key(q) && #[trigger] on_route(pages, page, h, key@, q)
                        && blocked_at(pages[q], key@, value@, old(self).node_fat_limit_bytes)
                &&& (pages[page] is Internal && fits_on_path(
                    pages,
                    children_of(pages[page])[route(pages[page].key_seq(), key@)],
                    h - 1,
                    key@,
                    value@,
                    old(self).node_fat_limit_bytes,
                )) ==> r is Ok
                &&& (pages[page] is Leaf || fits_on_path(
                    pages,
                    children_of(pages[page])[route(pages[page].key_seq(), key@)],
                    h - 1,
                    key@,
                    value@,
                    old(self).node_fat_limit_bytes,
                )) ==> {
                    &&& pages2.dom() == pages.dom()
                    &&& final(self).page_manager.ids_left() == old(self).page_manager.ids_left()
                    &&& forall|q: PageId|
                        pages.contains_key(q) && q != path_leaf(pages, page, h, key@) ==> #[trigger] pages2[q]
                            == pages[q]
                }
                &&& (r is Ok && pages[page] is Internal && !fits_on_path(
                    pages,
                    children_of(pages[page])[route(pages[page].key_seq(), key@)],
                    h - 1,
                    key@,
                    value@,
                    old(self).node_fat_limit_bytes,
                )) ==> final(self).page_manager.ids_left() < old(self).page_manager.ids_left()
            }),
        decreases h,
    {
        let ghost pages0 = self.page_manager.pages();
        let is_leaf = match self.page_manager.get_node(page) {
            Ok(node) => node.is_leaf(),
            Err(_) => vstd::pervasive::unreached(),
        };
        if is_leaf {
            proof {
                self.page_manager.lemma_ids();
            }
            let mut node = match self.page_manager.take_node(page) {
                Ok(node) => node,
                Err(_) => vstd::pervasive::unreached(),
            };
            let ghost old_leaf = node->Leaf_0;
            node.as_leaf_mut().set_key_value(key, value);
            let ghost new_leaf = node->Leaf_0;
            self.page_manager.put_node(page, node);
            proof {
                let pages2 = self.page_manager.pages();
                assert(pages2 == pages0.insert(page, node));
                assert(path_leaf(pages0, page, h, key@) == page);
                assert(pages2.dom() =~= pages0.dom());
                let ks = old_leaf.key_seq();
                crate::btree::key_order::lemma_keys_view_edits(old_leaf.keys@, 0, vstd::pervasive::arbitrary(), old_leaf.keys@);
                crate::btree::key_order::lemma_keys_view_edits(old_leaf.values@, 0, vstd::pervasive::arbitrary(), old_leaf.values@);
                crate::btree::key_order::lemma_route(ks, key@);
                assert forall|i: int| 0 <= i < new_leaf.key_seq().len() implies in_range(
                    #[trigger] node.key_seq()[i],
                    lo,
                    hi,
                ) by {
                    let j = route(ks, key@);
                    if !(j < ks.len() && ks[j] == key@) {
                        if i < j {
                            assert(new_leaf.key_seq()[i] == ks[i]);
                        } else if i > j {
                            assert(new_leaf.key_seq()[i] == ks[i - 1]);
                        }
                    }
                }
                assert(wf_subtree(pages2, page, h, lo, hi));
                assert forall|k: Seq<u8>| #[trigger] lookup(pages2, page, h, k) == if k == key@ {
                    Some(value@)
                } else {
                    lookup(pages0, page, h, k)
                } by {
                    crate::btree::leaf_node::lemma_find_value_put(ks, old_leaf.value_seq(), key@, value@, k);
                }
                assert forall|q: PageId| #[trigger] in_subtree(pages2, page, h, q) implies in_subtree(
                    pages0,
                    page,
                    h,
                    q,
                ) || !pages0.contains_key(q) by {}
                assert forall|b: int|
                    pages_within(pages0, b) && bytes_size(key@.len()) <= b && bytes_size(value@.len())
                        <= b implies #[trigger] pages_within(pages2, b) by {
                    assert(node_within(pages0[page], b));
                    let i = route(ks, key@);
                    lemma_seq_within_edit(ks, i, key@, b);
                    lemma_seq_within_edit(old_leaf.value_seq(), i, value@, b);
                    assert forall|q: PageId| #[trigger] pages2.contains_key(q) implies node_within(pages2[q], b) by {
                        if q != page {
                            assert(pages0.contains_key(q));
                        }
                    }
                }
            }
            return Ok(());
        }
        let (child_idx, child_page) = {
            let node = match self.page_manager.get_node(page) {
                Ok(node) => node.as_internal(),
                Err(_) => vstd::pervasive::unreached(),
            };
            let idx = node.route_key_to_index(key);
            (idx, node.get_child_by_index(idx))
        };
        proof {
            let ks = pages0[page].key_seq();
            assert(children_of(pages0[page])[child_idx as int] == child_page);
            assert(wf_subtree(pages0, child_page, h - 1, child_lo(ks, lo, child_idx as int), child_hi(ks, hi, child_idx as int)));
            assert(in_subtree(pages0, child_page, h - 1, child_page));
            assert(!in_subtree(pages0, child_page, h - 1, page));
            self.page_manager.lemma_ids();
        }
        let ghost r_id = self.page_manager.next_page_id()->0;
        proof {
            if fits_on_path(pages0, child_page, h - 1, key@, value@, self.node_fat_limit_bytes) {
                lemma_fits_on_path(pages0, child_page, h - 1, key@, value@, self.node_fat_limit_bytes);
            }
            self.page_manager.lemma_ids_left();
            if entries_small(pages0, key@, value@, self.node_fat_limit_bytes)
                && self.page_manager.ids_left() >= h {
                let b = choose|b: int|
                    pages_within(pages0, b) && #[trigger] entry_fits(key@, value@, b, self.node_fat_limit_bytes);
                assert(node_within(pages0[child_page], b));
                if pages0[child_page].key_seq().len() <= 1 {
                    lemma_small_node_fits(pages0[child_page], key@, value@, b, self.node_fat_limit_bytes);
                }
            }
        }
        let split = match self.maybe_split(page, child_page, child_idx, key, value) {
            Ok(b) => b,
            Err(e) => {
                proof {
                    lemma_child_in_subtree(pages0, page, h, child_idx as int, child_page);
                    assert(on_route(pages0, child_page, h - 1, key@, child_page));
                    assert(on_route(pages0, page, h, key@, child_page));
                    if pages0[child_page].key_seq().len() <= 1 {
                        assert(blocked_at(pages0[child_page], key@, value@, self.node_fat_limit_bytes));
                    }
                    assert forall|q: PageId| #[trigger] in_subtree(self.page_manager.pages(), page, h, q)
                        implies in_subtree(pages0, page, h, q) || !pages0.contains_key(q) by {}
                    assert forall|b: int|
                        pages_within(pages0, b) && bytes_size(key@.len()) <= b && bytes_size(value@.len())
                            <= b implies #[trigger] pages_within(self.page_manager.pages(), b) by {}
                }
                return Err(e);
            },
        };
        let ghost pages1 = self.page_manager.pages();
        let ghost ids1 = self.page_manager.ids_left();
        let ghost ci0 = child_idx as int;
        let ghost c0 = child_page;
        proof {
            lemma_maybe_split_within(pages0, pages1, page, child_idx as int, child_page, r_id, self.node_thin_limit_bytes, split);
            if split {
                lemma_split_keeps_tree(pages0, pages1, page, h, lo, hi, child_idx as int, r_id, self.node_thin_limit_bytes);
            }
            assert forall|q: PageId| #[trigger] in_subtree(pages1, page, h, q) implies in_subtree(
                pages0,
                page,
                h,
                q,
            ) || !pages0.contains_key(q) by {}
        }
        let (child_idx, child_page) = if split {
            let node = match self.page_manager.get_node(page) {
                Ok(node) => node.as_internal(),
                Err(_) => vstd::pervasive::unreached(),
            };
            let idx = node.route_key_to_index(key);
            (idx, node.get_child_by_index(idx))
        } else {
            (child_idx, child_page)
        };
        let ghost ks1 = pages1[page].key_seq();
        let ghost clo = child_lo(ks1, lo, child_idx as int);
        let ghost chi = child_hi(ks1, hi, child_idx as int);
        proof {
            crate::btree::key_order::lemma_route(ks1, key@);
            assert(children_of(pages1[page])[child_idx as int] == child_page);
            assert(wf_subtree(pages1, child_page, h - 1, clo, chi));
            if child_idx > 0 {
                assert(in_range(ks1[child_idx - 1], lo, hi));
            }
            if child_idx < ks1.len() {
                assert(in_range(ks1[child_idx as int], lo, hi));
            }
            assert(in_range(key@, clo, chi));
        }
        let res = self.recursive_set(key, value, child_page, Ghost(h - 1), Ghost(clo), Ghost(chi));
        proof {
            let pages2 = self.page_manager.pages();
            assert forall|b: int|
                pages_within(pages0, b) && bytes_size(key@.len()) <= b && bytes_size(value@.len())
                    <= b implies #[trigger] pages_within(pages2, b) by {
                assert(pages_within(pages1, b));
            }
            if entries_small(pages0, key@, value@, self.node_fat_limit_bytes) && old(self).page_manager.ids_left() >= h {
                let b = choose|b: int|
                    pages_within(pages0, b) && #[trigger] entry_fits(key@, value@, b, self.node_fat_limit_bytes);
                assert(pages_within(pages1, b));
                assert(entries_small(pages1, key@, value@, self.node_fat_limit_bytes));
                assert(ids1 >= h - 1);
            }
        }
        proof {
            let pages2 = self.page_manager.pages();
            assert(children_of(pages1[page])[child_idx as int] == child_page);
            assert forall|q: PageId|
                pages1.contains_key(q) && !in_subtree(pages1, child_page, h - 1, q) implies #[trigger] pages2.contains_key(q)
                && pages2[q] == pages1[q] by {}
            lemma_parent_after_child_update(pages1, pages2, page, h, lo, hi, child_idx as int);
            assert(!in_subtree(pages1, child_page, h - 1, page));
            assert(pages2[page] == pages1[page]);
            assert forall|q: PageId|
                pages0.contains_key(q) && !in_subtree(pages0, page, h, q) implies #[trigger] pages2.contains_key(q)
                && pages2[q] == pages0[q] by {
                if in_subtree(pages1, child_page, h - 1, q) {
                    crate::btree::tree_spec::lemma_child_in_subtree(pages1, page, h, child_idx as int, q);
                }
                assert(pages1.contains_key(q) && pages1[q] == pages0[q]);
            }
            assert forall|q: PageId| #[trigger] in_subtree(pages2, page, h, q) implies in_subtree(
                pages0,
                page,
                h,
                q,
            ) || !pages0.contains_key(q) by {
                if in_subtree(pages1, page, h, q) {
                } else {
                    assert(!pages1.contains_key(q));
                }
            }
            if res is Err && ids1 >= h - 1 {
                let fat = self.node_fat_limit_bytes;
                let q = choose|q: PageId|
                    q != child_page && pages1.contains_key(q) && #[trigger] on_route(pages1, child_page, h - 1, key@, q)
                        && blocked_at(pages1[q], key@, value@, fat);
                lemma_on_route_in_subtree(pages1, child_page, h - 1, key@, q);
                if split {
                    lemma_below_split_unchanged(pages0, pages1, page, h, lo, hi, ci0, c0, r_id, child_idx as int, q);
                    lemma_on_route_after_split(pages0, pages1, page, h, lo, hi, ci0, r_id, self.node_thin_limit_bytes, key@, q);
                    assert(on_route(pages0, c0, h - 1, key@, q));
                } else {
                    lemma_child_in_subtree(pages0, page, h, child_idx as int, q);
                }
                assert(on_route(pages0, page, h, key@, q));
                assert(q != page && pages0.contains_key(q) && blocked_at(pages0[q], key@, value@, fat));
            }
            let fat = self.node_fat_limit_bytes;
            if split {
                assert(children_of(pages1[page]) == children_of(pages0[page]).insert(ci0 + 1, r_id));
                assert(children_of(pages1[page])[0] == children_of(pages0[page])[0]);
                assert(pages1[page].key_seq().len() == pages0[page].key_seq().len() + 1);
            }
            if fits_on_path(pages0, c0, h - 1, key@, value@, fat) {
                lemma_fits_on_path(pages0, c0, h - 1, key@, value@, fat);
                assert(!split);
                assert(path_leaf(pages0, page, h, key@) == path_leaf(pages0, c0, h - 1, key@));
            }
            if res is Ok && !fits_on_path(pages0, c0, h - 1, key@, value@, fat) && !split {
                assert(pages0[c0] is Internal) by {
                    reveal_with_fuel(fits_on_path, 1);
                }
                assert(!fits_on_path(
                    pages0,
                    children_of(pages0[c0])[route(pages0[c0].key_seq(), key@)],
                    h - 2,
                    key@,
                    value@,
                    fat,
                )) by {
                    reveal_with_fuel(fits_on_path, 1);
                    assert(wf_subtree(pages0, c0, h - 1, clo, chi));
                    crate::btree::key_order::lemma_route(pages0[c0].key_seq(), key@);
                }
            }
            if res is Ok {
                assert forall|k: Seq<u8>| #[trigger] lookup(pages2, page, h, k) == if k == key@ {
                    Some(value@)
                } else {
                    lookup(pages0, page, h, k)
                } by {
                    crate::btree::key_order::lemma_route(ks1, k);
                    assert(lookup(pages1, page, h, k) == lookup(pages0, page, h, k));
                    if route(ks1, k) == child_idx {
                        assert(lookup(pages1, page, h, k) == lookup(pages1, child_page, h - 1, k));
                    }
                }
            } else {
                assert forall|k: Seq<u8>| #[trigger] lookup(pages2, page, h, k) == lookup(pages0, page, h, k) by {
                    crate::btree::key_order::lemma_route(ks1, k);
                    assert(lookup(pages1, page, h, k) == lookup(pages0, page, h, k));
                    if route(ks1, k) == child_idx {
                        assert(lookup(pages1, page, h, k) == lookup(pages1, child_page, h - 1, k));
                    }
                }
            }
        }
        res
    }

    /// Stores `value` under `key`: the value of an existing key is replaced. Every node on
    /// the way down that the entry would make too big is split first; the call fails only
    /// where such a node (or a half of a split root) holds a single key or none, or where
    /// page ids run out.
    pub fn set(&mut self, key: &[u8], value: &[u8]) -> (r: KvResult<()>)
        requires
            old(self).wf(),
        ensures
            final(self).wf(),
            r is Ok ==> final(self)@ == old(self)@.insert(key@, value@),
            r is Err ==> final(self)@ == old(self)@,
            r is Err ==> (r matches Err(KvError::TreeLogicError(_))),
            fits_on_path(
                old(self).page_manager.pages(),
                old(self).root,
                old(self).height@ as int,
                key@,
                value@,
                old(self).node_fat_limit_bytes,
            ) ==> r is Ok,
            entries_small(old(self).page_manager.pages(), key@, value@, old(self).node_fat_limit_bytes)
                && old(self).page_manager.ids_left() >= old(self).height@ + 3 ==> r is Ok,
            r is Err ==> old(self).page_manager.ids_left() < old(self).height@ + 3 || (exists|q: PageId|
                q != old(self).root && old(self).page_manager.pages().contains_key(q) && #[trigger] on_route(
                    old(self).page_manager.pages(),
                    old(self).root,
                    old(self).height@ as int,
                    key@,
                    q,
                ) && blocked_at(old(self).page_manager.pages()[q], key@, value@, old(self).node_fat_limit_bytes))
                || (exists|n: BTreeNode|
                #[trigger] part_of(n, old(self).page_manager.pages()[old(self).root]) && blocked_at(
                    n,
                    key@,
                    value@,
                    old(self).node_fat_limit_bytes,
                )),
            grows_within(old(self).page_manager.pages(), final(self).page_manager.pages(), key@, value@),
            final(self).node_fat_limit_bytes == old(self).node_fat_limit_bytes,
            final(self).node_thin_limit_bytes == old(self).node_thin_limit_bytes,
            final(self).height@ == old(self).height@ || final(self).height@ == old(self).height@ + 1,
            final(self).height@ == old(self).height@ ==> final(self).root == old(self).root,
            !would_overflow(
                old(self).page_manager.pages()[old(self).root],
                key@,
                value@,
                old(self).node_fat_limit_bytes,
            ) ==> final(self).root == old(self).root && final(self).height == old(self).height,
            old(self).page_manager.ids_left() - old(self).height@ - 3 <= final(self).page_manager.ids_left()
                <= old(self).page_manager.ids_left(),
            ({
                let rn = old(self).page_manager.pages()[old(self).root];
                let total = rn.header().spec_total_size();
                let fat = old(self).node_fat_limit_bytes;
                let grows = if rn is Leaf {
                    if old(self)@.contains_key(key@) {
                        bytes_size(value@.len()) > bytes_size(old(self)@[key@].len()) && wrap16(
                            total + bytes_size(value@.len()) - bytes_size(old(self)@[key@].len()),
                        ) > fat
                    } else {
                        wrap16(total + bytes_size(key@.len()) + bytes_size(value@.len())) > fat
                    }
                } else {
                    wrap16(total + bytes_size(key@.len()) + PAGE_ID_SIZE) > fat
                };
                &&& !grows ==> final(self).root == old(self).root && final(self).height == old(self).height
                &&& !grows && rn is Leaf ==> r is Ok && final(self)@ == old(self)@.insert(key@, value@)
                &&& grows && rn.key_seq().len() >= 2 && old(self).page_manager.ids_left() >= 2
                    ==> final(self).height@ == old(self).height@ + 1
                &&& grows && rn.key_seq().len() <= 1 ==> r is Err && final(self)@ == old(self)@
            }),
            final(self).height@ == old(self).height@ + 1 ==> {
                let rn2 = final(self).page_manager.pages()[final(self).root];
                &&& rn2 is Internal
                &&& final(self).root == old(self).page_manager.next_page_id()->0
                &&& children_of(rn2)[0] == old(self).root
                &&& 1 <= rn2.key_seq().len() <= 2
                &&& children_of(rn2).len() == rn2.key_seq().len() + 1
                &&& rn2.key_seq().len() == 2 ==> final(self).page_manager.ids_left() < old(
                    self,
                ).page_manager.ids_left() - 2
            },
            fits_on_path(
                old(self).page_manager.pages(),
                old(self).root,
                old(self).height@ as int,
                key@,
                value@,
                old(self).node_fat_limit_bytes,
            ) ==> {
                let pages = old(self).page_manager.pages();
                let pages2 = final(self).page_manager.pages();
                &&& pages2.dom() == pages.dom()
                &&& final(self).page_manager.ids_left() == old(self).page_manager.ids_left()
                &&& final(self).root == old(self).root
                &&& final(self).height == old(self).height
                &&& forall|q: PageId|
                    pages.contains_key(q) && q != path_leaf(pages, old(self).root, old(self).height@ as int, key@)
                        ==> #[trigger] pages2[q] == pages[q]
            },
            r is Ok && !fits_on_path(
                old(self).page_manager.pages(),
                old(self).root,
                old(self).height@ as int,
                key@,
                value@,
                old(self).node_fat_limit_bytes,
            ) ==> final(self).page_manager.ids_left() < old(self).page_manager.ids_left(),
            old(self).height@ == 0 && !would_overflow(
                old(self).page_manager.pages()[old(self).root],
                key@,
                value@,
                old(self).node_fat_limit_bytes,
            ) ==> r is Ok && final(self).root == old(self).root && leaf_stored(
                old(self).page_manager.pages()[old(self).root],
                final(self).page_manager.pages()[old(self).root],
                key@,
                value@,
            ),
    {
        proof {
            let pages0 = self.page_manager.pages();
            if fits_on_path(pages0, self.root, self.height@ as int, key@, value@, self.node_fat_limit_bytes) {
                lemma_fits_on_path(pages0, self.root, self.height@ as int, key@, value@, self.node_fat_limit_bytes);
            }
            if entries_small(pages0, key@, value@, self.node_fat_limit_bytes) {
                let b = choose|b: int|
                    pages_within(pages0, b) && #[trigger] entry_fits(key@, value@, b, self.node_fat_limit_bytes);
                assert(node_within(pages0[self.root], b));
                assert(crate::btree::tree_spec::node_ok(pages0[self.root], self.height@ as int, None, None));
                if pages0[self.root].key_seq().len() <= 1 {
                    lemma_small_node_fits(pages0[self.root], key@, value@, b, self.node_fat_limit_bytes);
                }
            }
        }
        match self.maybe_split_root(key, value) {
            Ok(()) => {},
            Err(e) => {
                proof {
                    let rn = old(self).page_manager.pages()[old(self).root];
                    if rn.key_seq().len() <= 1 {
                        match rn {
                            BTreeNode::Leaf(l) => {
                                assert(l.value_seq() =~= l.value_seq().subrange(0, rn.key_seq().len() as int));
                            },
                            BTreeNode::Internal(_) => {
                                assert(children_of(rn) =~= children_of(rn).subrange(0, rn.key_seq().len() + 1int));
                            },
                        }
                        assert(rn.key_seq() =~= rn.key_seq().subrange(0, rn.key_seq().len() as int));
                        assert(part_at(rn, rn, 0, rn.key_seq().len() as int));
                        assert(part_of(rn, rn));
                        assert(blocked_at(rn, key@, value@, self.node_fat_limit_bytes));
                    }
                }
                return Err(e);
            },
        }
        let ghost mid = self@;
        let root = self.root;
        let ghost pages1 = self.page_manager.pages();
        let res = self.recursive_set(key, value, root, Ghost(self.height@ as int), Ghost(None), Ghost(None));
        proof {
            let pages0 = old(self).page_manager.pages();
            let pages2 = self.page_manager.pages();
            assert forall|b: int|
                pages_within(pages0, b) && bytes_size(key@.len()) <= b && bytes_size(value@.len())
                    <= b implies #[trigger] pages_within(pages2, b) by {
                assert(pages_within(pages1, b));
            }
            if entries_small(pages0, key@, value@, self.node_fat_limit_bytes) {
                let b = choose|b: int|
                    pages_within(pages0, b) && #[trigger] entry_fits(key@, value@, b, self.node_fat_limit_bytes);
                assert(pages_within(pages1, b));
                assert(entries_small(pages1, key@, value@, self.node_fat_limit_bytes));
            }
        }
        proof {
            if res is Ok {
                assert(self@ =~= old(self)@.insert(key@, value@));
            } else {
                assert(self@ =~= old(self)@);
            }
            let pages0 = old(self).page_manager.pages();
            let h0 = old(self).height@ as int;
            let root0 = old(self).root;
            let fat = self.node_fat_limit_bytes;
            let rn0 = pages0[root0];
            if !would_overflow(rn0, key@, value@, fat) && rn0 is Internal {
                crate::btree::key_order::lemma_route(rn0.key_seq(), key@);
                assert(fits_on_path(pages0, root0, h0, key@, value@, fat) == fits_on_path(
                    pages0,
                    children_of(rn0)[route(rn0.key_seq(), key@)],
                    h0 - 1,
                    key@,
                    value@,
                    fat,
                )) by {
                    reveal_with_fuel(fits_on_path, 1);
                }
            }
            if !would_overflow(rn0, key@, value@, fat) && rn0 is Leaf {
                assert(fits_on_path(pages0, root0, h0, key@, value@, fat)) by {
                    reveal_with_fuel(fits_on_path, 1);
                }
            }
            if would_overflow(rn0, key@, value@, fat) {
                assert(!fits_on_path(pages0, root0, h0, key@, value@, fat)) by {
                    reveal_with_fuel(fits_on_path, 1);
                }
            }
            if res is Err && pages1 != pages0 && !(old(self).page_manager.ids_left() < h0 + 3) {
                let nr = root;
                let cs = children_of(pages1[nr]);
                let q = choose|q: PageId|
                    q != nr && pages1.contains_key(q) && #[trigger] on_route(pages1, nr, h0 + 1, key@, q) && blocked_at(
                        pages1[q],
                        key@,
                        value@,
                        fat,
                    );
                let j = route(pages1[nr].key_seq(), key@);
                assert(on_route(pages1, cs[j], h0, key@, q));
                lemma_on_route_in_subtree(pages1, cs[j], h0, key@, q);
                if q == cs[j] {
                    assert(part_of(pages1[q], pages0[root0]));
                } else {
                    assert(!in_subtree(pages1, cs[j], h0, nr));
                    if j == 0 {
                        assert(!in_subtree(pages1, cs[1], h0, q));
                    } else {
                        assert(!in_subtree(pages1, cs[0], h0, q));
                    }
                    lemma_child_in_subtree(pages1, nr, h0 + 1, j, q);
                    assert(in_subtree(pages0, root0, h0, q) && pages0[q] == pages1[q]);
                    assert(on_route(pages0, root0, h0, key@, q));
                }
            }
        }
        res
    }
}

} // verus!
