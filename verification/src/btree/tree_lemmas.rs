//! How splitting, merging and rotating nodes keep a tree well-formed and keep what it holds.
use vstd::prelude::*;

use crate::btree::btree_node::BTreeNode;
use crate::btree::common::PageId;
use crate::btree::key_order::{
    key_lt,
    lemma_route,
    lemma_route_insert,
    lemma_route_remove,
    lemma_route_update,
    lemma_sorted_insert,
    route,
    sorted_keys,
};
use crate::btree::leaf_node::lemma_find_value_subrange;
use crate::btree::tree_spec::{
    above,
    below,
    child_hi,
    child_lo,
    children_of,
    in_range,
    in_subtree,
    lemma_child_in_subtree,
    lemma_subtree_pages_exist,
    lemma_unchanged_child,
    lookup,
    same_below,
    wf_subtree,
};

verus! {

broadcast use crate::btree::key_order::group_key_order;

/// An internal node with exactly these routing keys and children, whose header counts them.
pub open spec fn internal_holds(n: BTreeNode, ks: Seq<Seq<u8>>, cs: Seq<PageId>) -> bool {
    &&& n is Internal
    &&& n.key_seq() == ks
    &&& children_of(n) == cs
    &&& n.sizes_ok()
}

/// A leaf with exactly these keys and values, whose header counts them.
pub open spec fn leaf_holds(n: BTreeNode, ks: Seq<Seq<u8>>, vs: Seq<Seq<u8>>) -> bool {
    &&& n is Leaf
    &&& n.key_seq() == ks
    &&& n->Leaf_0.value_seq() == vs
    &&& ks.len() == vs.len()
    &&& n.sizes_ok()
}

/// Where a page below child `j` of the parent after a split comes from: the old child at
/// the same place before the split, the old child `c` that was split, or the new page `r`.
pub open spec fn split_origin(
    pages: Map<PageId, BTreeNode>,
    cs: Seq<PageId>,
    h: int,
    ci: int,
    r: PageId,
    j: int,
    q: PageId,
) -> bool {
    ||| j < ci && in_subtree(pages, cs[j], h - 1, q)
    ||| j == ci && in_subtree(pages, cs[ci], h - 1, q)
    ||| j == ci + 1 && (q == r || (in_subtree(pages, cs[ci], h - 1, q) && q != cs[ci]))
    ||| j > ci + 1 && in_subtree(pages, cs[j - 1], h - 1, q)
}

/// What a split asks of the two halves of the split child, in `pages2`.
pub open spec fn split_premises(
    pages: Map<PageId, BTreeNode>,
    pages2: Map<PageId, BTreeNode>,
    p: PageId,
    h: int,
    lo: Option<Seq<u8>>,
    hi: Option<Seq<u8>>,
    ci: int,
    r: PageId,
    m: Seq<u8>,
) -> bool {
    let ks = pages[p].key_seq();
    let cs = children_of(pages[p]);
    let c = cs[ci];
    &&& wf_subtree(pages, p, h, lo, hi)
    &&& h > 0
    &&& 0 <= ci < cs.len()
    &&& !pages.contains_key(r)
    &&& pages2.contains_key(p)
    &&& internal_holds(pages2[p], ks.insert(ci, m), cs.insert(ci + 1, r))
    &&& above(m, child_lo(ks, lo, ci))
    &&& ci < ks.len() ==> key_lt(m, ks[ci])
    &&& ci == ks.len() ==> below(m, hi)
    &&& forall|q: PageId|
        pages.contains_key(q) && q != p && q != c ==> #[trigger] pages2.contains_key(q)
            && pages2[q] == pages[q]
    &&& wf_subtree(pages2, c, h - 1, child_lo(ks, lo, ci), Some(m))
    &&& wf_subtree(pages2, r, h - 1, Some(m), child_hi(ks, hi, ci))
    &&& forall|q: PageId| #[trigger] in_subtree(pages2, c, h - 1, q) ==> in_subtree(pages, c, h - 1, q)
    &&& forall|q: PageId|
        #[trigger] in_subtree(pages2, r, h - 1, q) ==> q == r || (in_subtree(pages, c, h - 1, q) && q
            != c)
    &&& forall|q: PageId| #[trigger] in_subtree(pages2, c, h - 1, q) ==> !in_subtree(pages2, r, h - 1, q)
    &&& forall|k: Seq<u8>|
        !key_lt(m, k) ==> #[trigger] lookup(pages2, c, h - 1, k) == lookup(pages, c, h - 1, k)
    &&& forall|k: Seq<u8>|
        key_lt(m, k) ==> #[trigger] lookup(pages2, r, h - 1, k) == lookup(pages, c, h - 1, k)
}

/// The routing keys of the parent after a split are sorted and within its bounds.
proof fn lemma_split_parent_keys(
    pages: Map<PageId, BTreeNode>,
    pages2: Map<PageId, BTreeNode>,
    p: PageId,
    h: int,
    lo: Option<Seq<u8>>,
    hi: Option<Seq<u8>>,
    ci: int,
    r: PageId,
    m: Seq<u8>,
)
    requires
        split_premises(pages, pages2, p, h, lo, hi, ci, r, m),
    ensures
        sorted_keys(pages[p].key_seq().insert(ci, m)),
        forall|i: int|
            0 <= i < pages[p].key_seq().insert(ci, m).len() ==> in_range(
                #[trigger] pages[p].key_seq().insert(ci, m)[i],
                lo,
                hi,
            ),
{
    let ks = pages[p].key_seq();
    let ks2 = ks.insert(ci, m);
    if ci > 0 {
        assert(in_range(ks[ci - 1], lo, hi));
    }
    if ci < ks.len() {
        assert(in_range(ks[ci], lo, hi));
    }
    lemma_sorted_insert(ks, ci, m);
    assert(in_range(m, lo, hi)) by {
        if ci > 0 {
            assert(in_range(ks[ci - 1], lo, hi));
            if lo is Some {
                assert(key_lt(lo->0, ks[ci - 1]));
            }
        }
        if ci < ks.len() {
            assert(in_range(ks[ci], lo, hi));
            if hi is Some {
                assert(!key_lt(hi->0, ks[ci]));
            }
        }
    }
    assert forall|i: int| 0 <= i < ks2.len() implies in_range(#[trigger] ks2[i], lo, hi) by {
        if i < ci {
            assert(ks2[i] == ks[i]);
        } else if i > ci {
            assert(ks2[i] == ks[i - 1]);
        }
    }
}

/// The children of the parent after a split: each is a well-formed tree within its bounds,
/// and the pages below it come from where `split_origin` says.
proof fn lemma_split_children(
    pages: Map<PageId, BTreeNode>,
    pages2: Map<PageId, BTreeNode>,
    p: PageId,
    h: int,
    lo: Option<Seq<u8>>,
    hi: Option<Seq<u8>>,
    ci: int,
    r: PageId,
    m: Seq<u8>,
)
    requires
        split_premises(pages, pages2, p, h, lo, hi, ci, r, m),
    ensures
        ({
            let ks = pages[p].key_seq();
            let cs = children_of(pages[p]);
            let ks2 = ks.insert(ci, m);
            let cs2 = cs.insert(ci + 1, r);
            &&& forall|j: int|
                0 <= j < cs2.len() ==> wf_subtree(
                    pages2,
                    #[trigger] cs2[j],
                    h - 1,
                    child_lo(ks2, lo, j),
                    child_hi(ks2, hi, j),
                )
            &&& forall|j: int, q: PageId|
                0 <= j < cs2.len() && #[trigger] in_subtree(pages2, cs2[j], h - 1, q)
                    ==> split_origin(pages, cs, h, ci, r, j, q)
            &&& forall|j: int|
                0 <= j < cs.len() && j != ci ==> #[trigger] same_below(pages, pages2, cs[j], h - 1)
        }),
{
    let ks = pages[p].key_seq();
    let cs = children_of(pages[p]);
    let c = cs[ci];
    let ks2 = ks.insert(ci, m);
    let cs2 = cs.insert(ci + 1, r);
    assert(in_subtree(pages, c, h - 1, c));
    let changed = set![p, c];
    assert forall|j: int| 0 <= j < cs.len() && j != ci implies {
        &&& wf_subtree(pages2, #[trigger] cs[j], h - 1, child_lo(ks, lo, j), child_hi(ks, hi, j))
        &&& same_below(pages, pages2, cs[j], h - 1)
    } by {
        assert(!in_subtree(pages, cs[j], h - 1, c));
        assert forall|q: PageId| changed.contains(q) implies !#[trigger] in_subtree(
            pages,
            children_of(pages[p])[j],
            h - 1,
            q,
        ) by {}
        lemma_unchanged_child(pages, pages2, p, h, lo, hi, j, changed);
    }
    assert forall|j: int| 0 <= j < cs2.len() implies wf_subtree(
        pages2,
        #[trigger] cs2[j],
        h - 1,
        child_lo(ks2, lo, j),
        child_hi(ks2, hi, j),
    ) by {
        if j < ci {
            assert(cs2[j] == cs[j]);
            assert(child_lo(ks2, lo, j) == child_lo(ks, lo, j));
            assert(child_hi(ks2, hi, j) == child_hi(ks, hi, j));
        } else if j == ci {
            assert(cs2[j] == c);
            assert(child_lo(ks2, lo, j) == child_lo(ks, lo, j));
        } else if j == ci + 1 {
            assert(cs2[j] == r);
            assert(child_hi(ks2, hi, j) == child_hi(ks, hi, ci));
        } else {
            assert(cs2[j] == cs[j - 1]);
            assert(child_lo(ks2, lo, j) == child_lo(ks, lo, j - 1));
            assert(child_hi(ks2, hi, j) == child_hi(ks, hi, j - 1));
        }
    }
    assert forall|j: int, q: PageId|
        0 <= j < cs2.len() && #[trigger] in_subtree(pages2, cs2[j], h - 1, q) implies split_origin(
        pages,
        cs,
        h,
        ci,
        r,
        j,
        q,
    ) by {
        if j < ci {
            assert(cs2[j] == cs[j]);
            assert(same_below(pages, pages2, cs[j], h - 1));
        } else if j > ci + 1 {
            assert(cs2[j] == cs[j - 1]);
            assert(same_below(pages, pages2, cs[j - 1], h - 1));
        } else if j == ci {
            assert(cs2[j] == c);
        } else {
            assert(cs2[j] == r);
        }
    }
}

/// The parent of a child that was split in two, `c` keeping the keys up to `m` and the new
/// page `r` taking those above it, with `m` inserted as routing key between them.
pub proof fn lemma_parent_after_split(
    pages: Map<PageId, BTreeNode>,
    pages2: Map<PageId, BTreeNode>,
    p: PageId,
    h: int,
    lo: Option<Seq<u8>>,
    hi: Option<Seq<u8>>,
    ci: int,
    r: PageId,
    m: Seq<u8>,
)
    requires
        split_premises(pages, pages2, p, h, lo, hi, ci, r, m),
    ensures
        wf_subtree(pages2, p, h, lo, hi),
        forall|k: Seq<u8>| #[trigger] lookup(pages2, p, h, k) == lookup(pages, p, h, k),
        forall|q: PageId| #[trigger] in_subtree(pages2, p, h, q) ==> in_subtree(pages, p, h, q) || q == r,
{
    let ks = pages[p].key_seq();
    let cs = children_of(pages[p]);
    let c = cs[ci];
    let ks2 = ks.insert(ci, m);
    let cs2 = cs.insert(ci + 1, r);
    let n2 = pages2[p];
    lemma_split_parent_keys(pages, pages2, p, h, lo, hi, ci, r, m);
    lemma_split_children(pages, pages2, p, h, lo, hi, ci, r, m);
    assert(children_of(n2) == cs2);
    assert(n2.key_seq() == ks2);
    assert(wf_subtree(pages2, p, h, lo, hi)) by {
        assert forall|j1: int, j2: int, q: PageId|
            0 <= j1 < cs2.len() && 0 <= j2 < cs2.len() && j1 != j2 && #[trigger] in_subtree(
                pages2,
                cs2[j1],
                h - 1,
                q,
            ) implies !#[trigger] in_subtree(pages2, cs2[j2], h - 1, q) by {
            if in_subtree(pages2, cs2[j2], h - 1, q) {
                assert(split_origin(pages, cs, h, ci, r, j1, q));
                assert(split_origin(pages, cs, h, ci, r, j2, q));
                let o1 = if j1 <= ci { j1 } else { j1 - 1 };
                let o2 = if j2 <= ci { j2 } else { j2 - 1 };
                if q == r {
                    let o = if j1 != ci + 1 { o1 } else { o2 };
                    assert(in_subtree(pages, cs[o], h - 1, q));
                    lemma_subtree_pages_exist(pages, cs[o], h - 1, child_lo(ks, lo, o), child_hi(ks, hi, o), q);
                } else if o1 != o2 {
                    assert(in_subtree(pages, cs[o1], h - 1, q));
                    assert(in_subtree(pages, cs[o2], h - 1, q));
                } else if j1 == ci {
                    assert(cs2[j1] == c && cs2[j2] == r);
                } else {
                    assert(cs2[j2] == c && cs2[j1] == r);
                }
            }
        }
        assert forall|j: int| 0 <= j < cs2.len() implies !in_subtree(pages2, #[trigger] cs2[j], h - 1, p) by {
            if in_subtree(pages2, cs2[j], h - 1, p) {
                assert(split_origin(pages, cs, h, ci, r, j, p));
                let o = if j <= ci { j } else { j - 1 };
                assert(in_subtree(pages, cs[o], h - 1, p));
            }
        }
    }
    assert forall|k: Seq<u8>| #[trigger] lookup(pages2, p, h, k) == lookup(pages, p, h, k) by {
        lemma_route(ks, k);
        lemma_route_insert(ks, ci, m, k);
        let j = route(ks, k);
        let j2 = route(ks2, k);
        assert(lookup(pages, p, h, k) == lookup(pages, cs[j], h - 1, k));
        assert(lookup(pages2, p, h, k) == lookup(pages2, cs2[j2], h - 1, k));
        if j < ci {
            assert(cs2[j2] == cs[j]);
            assert(same_below(pages, pages2, cs[j], h - 1));
        } else if j > ci {
            assert(cs2[j2] == cs[j]);
            assert(same_below(pages, pages2, cs[j], h - 1));
        } else if !key_lt(m, k) {
            assert(cs2[j2] == c);
        } else {
            assert(cs2[j2] == r);
        }
    }
    assert forall|q: PageId| #[trigger] in_subtree(pages2, p, h, q) implies in_subtree(pages, p, h, q)
        || q == r by {
        if q != p {
            let j = choose|j: int| 0 <= j < cs2.len() && in_subtree(pages2, #[trigger] cs2[j], h - 1, q);
            assert(split_origin(pages, cs, h, ci, r, j, q));
            let o = if j <= ci { j } else { j - 1 };
            if q != r {
                assert(in_subtree(pages, cs[o], h - 1, q));
                lemma_child_in_subtree(pages, p, h, o, q);
            }
        }
    }
}

/// Splitting a leaf child at `i`: the keys before `i` stay, the rest go to the new page `r`,
/// and the last key that stays becomes the routing key between them.
pub proof fn lemma_split_leaf_premises(
    pages: Map<PageId, BTreeNode>,
    pages2: Map<PageId, BTreeNode>,
    p: PageId,
    h: int,
    lo: Option<Seq<u8>>,
    hi: Option<Seq<u8>>,
    ci: int,
    r: PageId,
    i: int,
)
    requires
        wf_subtree(pages, p, h, lo, hi),
        h > 0,
        0 <= ci < children_of(pages[p]).len(),
        pages[children_of(pages[p])[ci]] is Leaf,
        1 <= i < pages[children_of(pages[p])[ci]].key_seq().len(),
        !pages.contains_key(r),
        pages2.dom() == pages.dom().insert(r),
        forall|q: PageId|
            pages.contains_key(q) && q != p && q != children_of(pages[p])[ci] ==> #[trigger] pages2[q]
                == pages[q],
        ({
            let ks = pages[p].key_seq();
            let cs = children_of(pages[p]);
            let cn = pages[cs[ci]];
            let kc = cn.key_seq();
            let vc = cn->Leaf_0.value_seq();
            &&& internal_holds(pages2[p], ks.insert(ci, kc[i - 1]), cs.insert(ci + 1, r))
            &&& leaf_holds(pages2[cs[ci]], kc.subrange(0, i), vc.subrange(0, i))
            &&& leaf_holds(pages2[r], kc.subrange(i, kc.len() as int), vc.subrange(i, kc.len() as int))
        }),
    ensures
        split_premises(
            pages,
            pages2,
            p,
            h,
            lo,
            hi,
            ci,
            r,
            pages[children_of(pages[p])[ci]].key_seq()[i - 1],
        ),
{
    let ks = pages[p].key_seq();
    let cs = children_of(pages[p]);
    let c = cs[ci];
    let cn = pages[c];
    let kc = cn.key_seq();
    let vc = cn->Leaf_0.value_seq();
    let n = kc.len();
    let m = kc[i - 1];
    let clo = child_lo(ks, lo, ci);
    let chi = child_hi(ks, hi, ci);
    assert(wf_subtree(pages, c, h - 1, clo, chi));
    assert(h - 1 == 0);
    assert(in_range(kc[i - 1], clo, chi));
    assert(in_range(kc[n - 1], clo, chi));
    assert(key_lt(kc[i - 1], kc[n - 1]) || i - 1 == n - 1);
    if ci < ks.len() {
        assert(!key_lt(ks[ci], kc[n - 1]));
        assert(key_lt(m, ks[ci]));
    }
    // The two halves.
    let k1 = kc.subrange(0, i);
    let k2 = kc.subrange(i, n as int);
    crate::btree::key_order::lemma_sorted_subrange(kc, 0, i);
    crate::btree::key_order::lemma_sorted_subrange(kc, i, n as int);
    assert forall|t: int| 0 <= t < k1.len() implies in_range(#[trigger] k1[t], clo, Some(m)) by {
        assert(k1[t] == kc[t]);
        assert(in_range(kc[t], clo, chi));
        if t < i - 1 {
            assert(key_lt(kc[t], kc[i - 1]));
        }
    }
    assert forall|t: int| 0 <= t < k2.len() implies in_range(#[trigger] k2[t], Some(m), chi) by {
        assert(k2[t] == kc[t + i]);
        assert(in_range(kc[t + i], clo, chi));
        assert(key_lt(kc[i - 1], kc[t + i]));
    }
    assert(pages2[c].key_seq() == k1);
    assert(pages2[r].key_seq() == k2);
    assert(wf_subtree(pages2, c, 0, clo, Some(m)));
    assert(wf_subtree(pages2, r, 0, Some(m), chi));
    assert forall|k: Seq<u8>| !key_lt(m, k) implies #[trigger] lookup(pages2, c, h - 1, k) == lookup(
        pages,
        c,
        h - 1,
        k,
    ) by {
        assert forall|t: int| 0 <= t < kc.len() && kc[t] == k implies 0 <= t < i by {
            if t >= i {
                assert(key_lt(kc[i - 1], kc[t]));
            }
        }
        lemma_find_value_subrange(kc, vc, 0, i, k);
    }
    assert forall|k: Seq<u8>| key_lt(m, k) implies #[trigger] lookup(pages2, r, h - 1, k) == lookup(
        pages,
        c,
        h - 1,
        k,
    ) by {
        assert forall|t: int| 0 <= t < kc.len() && kc[t] == k implies i <= t < n by {
            if t < i - 1 {
                assert(key_lt(kc[t], kc[i - 1]));
            }
        }
        lemma_find_value_subrange(kc, vc, i, n as int, k);
    }
}

/// The pages after splitting internal child `ci` of `p` at `i` into itself and the new
/// page `r`: the routing keys before `i - 1` and the children before `i` stay, the key at
/// `i - 1` moves up as routing key, and the rest go to `r`.
pub open spec fn internal_split_done(
    pages: Map<PageId, BTreeNode>,
    pages2: Map<PageId, BTreeNode>,
    p: PageId,
    h: int,
    lo: Option<Seq<u8>>,
    hi: Option<Seq<u8>>,
    ci: int,
    r: PageId,
    i: int,
) -> bool {
    let ks = pages[p].key_seq();
    let cs = children_of(pages[p]);
    let cn = pages[cs[ci]];
    let kc = cn.key_seq();
    let gc = children_of(cn);
    &&& wf_subtree(pages, p, h, lo, hi)
    &&& h > 0
    &&& 0 <= ci < cs.len()
    &&& cn is Internal
    &&& 1 <= i < kc.len()
    &&& !pages.contains_key(r)
    &&& pages2.dom() == pages.dom().insert(r)
    &&& forall|q: PageId|
        pages.contains_key(q) && q != p && q != cs[ci] ==> #[trigger] pages2[q] == pages[q]
    &&& internal_holds(pages2[p], ks.insert(ci, kc[i - 1]), cs.insert(ci + 1, r))
    &&& internal_holds(pages2[cs[ci]], kc.subrange(0, i - 1), gc.subrange(0, i))
    &&& internal_holds(pages2[r], kc.subrange(i, kc.len() as int), gc.subrange(i, gc.len() as int))
}

/// After an internal split, the grandchildren below the split child are as they were.
proof fn lemma_internal_split_grandchildren(
    pages: Map<PageId, BTreeNode>,
    pages2: Map<PageId, BTreeNode>,
    p: PageId,
    h: int,
    lo: Option<Seq<u8>>,
    hi: Option<Seq<u8>>,
    ci: int,
    r: PageId,
    i: int,
)
    requires
        internal_split_done(pages, pages2, p, h, lo, hi, ci, r, i),
    ensures
        ({
            let ks = pages[p].key_seq();
            let cs = children_of(pages[p]);
            let c = cs[ci];
            let kc = pages[c].key_seq();
            let gc = children_of(pages[c]);
            let clo = child_lo(ks, lo, ci);
            let chi = child_hi(ks, hi, ci);
            &&& wf_subtree(pages, c, h - 1, clo, chi)
            &&& h - 1 > 0
            &&& forall|j: int|
                0 <= j < gc.len() ==> wf_subtree(
                    pages2,
                    #[trigger] gc[j],
                    h - 2,
                    child_lo(kc, clo, j),
                    child_hi(kc, chi, j),
                ) && same_below(pages, pages2, gc[j], h - 2)
            &&& forall|j: int, q: PageId|
                0 <= j < gc.len() && #[trigger] in_subtree(pages, gc[j], h - 2, q) ==> pages.contains_key(q)
                    && q != c && q != p
        }),
{
    let ks = pages[p].key_seq();
    let cs = children_of(pages[p]);
    let c = cs[ci];
    let gc = children_of(pages[c]);
    let clo = child_lo(ks, lo, ci);
    let chi = child_hi(ks, hi, ci);
    assert(wf_subtree(pages, c, h - 1, clo, chi));
    assert(in_subtree(pages, c, h - 1, c));
    let changed = set![p, c];
    assert forall|j: int| 0 <= j < gc.len() implies {
        &&& wf_subtree(pages2, #[trigger] gc[j], h - 2, child_lo(pages[c].key_seq(), clo, j), child_hi(pages[c].key_seq(), chi, j))
        &&& same_below(pages, pages2, gc[j], h - 2)
        &&& forall|q: PageId| #[trigger] in_subtree(pages, gc[j], h - 2, q) ==> pages.contains_key(q) && q != c && q != p
    } by {
        assert forall|q: PageId| changed.contains(q) implies !#[trigger] in_subtree(
            pages,
            children_of(pages[c])[j],
            h - 2,
            q,
        ) by {
            if q == p && in_subtree(pages, gc[j], h - 2, p) {
                lemma_child_in_subtree(pages, c, h - 1, j, p);
            }
        }
        assert forall|q: PageId|
            pages.contains_key(q) && !changed.contains(q) implies #[trigger] pages2.contains_key(q)
            && pages2[q] == pages[q] by {}
        lemma_unchanged_child(pages, pages2, c, h - 1, clo, chi, j, changed);
    }
}

/// After an internal split, both halves are well-formed within their bounds.
proof fn lemma_internal_split_halves(
    pages: Map<PageId, BTreeNode>,
    pages2: Map<PageId, BTreeNode>,
    p: PageId,
    h: int,
    lo: Option<Seq<u8>>,
    hi: Option<Seq<u8>>,
    ci: int,
    r: PageId,
    i: int,
)
    requires
        internal_split_done(pages, pages2, p, h, lo, hi, ci, r, i),
    ensures
        ({
            let ks = pages[p].key_seq();
            let c = children_of(pages[p])[ci];
            let m = pages[c].key_seq()[i - 1];
            &&& wf_subtree(pages2, c, h - 1, child_lo(ks, lo, ci), Some(m))
            &&& wf_subtree(pages2, r, h - 1, Some(m), child_hi(ks, hi, ci))
        }),
{
    let ks = pages[p].key_seq();
    let cs = children_of(pages[p]);
    let c = cs[ci];
    let kc = pages[c].key_seq();
    let gc = children_of(pages[c]);
    let n = kc.len();
    let m = kc[i - 1];
    let clo = child_lo(ks, lo, ci);
    let chi = child_hi(ks, hi, ci);
    lemma_internal_split_grandchildren(pages, pages2, p, h, lo, hi, ci, r, i);
    let k1 = kc.subrange(0, i - 1);
    let g1 = gc.subrange(0, i);
    let k2 = kc.subrange(i, n as int);
    let g2 = gc.subrange(i, gc.len() as int);
    crate::btree::key_order::lemma_sorted_subrange(kc, 0, i - 1);
    crate::btree::key_order::lemma_sorted_subrange(kc, i, n as int);
    assert(pages2[c].key_seq() == k1 && children_of(pages2[c]) == g1);
    assert(pages2[r].key_seq() == k2 && children_of(pages2[r]) == g2);
    assert(wf_subtree(pages2, c, h - 1, clo, Some(m))) by {
        assert forall|t: int| 0 <= t < k1.len() implies in_range(#[trigger] k1[t], clo, Some(m)) by {
            assert(k1[t] == kc[t]);
            assert(in_range(kc[t], clo, chi));
            assert(key_lt(kc[t], kc[i - 1]));
        }
        assert forall|j: int| 0 <= j < g1.len() implies wf_subtree(
            pages2,
            #[trigger] g1[j],
            h - 2,
            child_lo(k1, clo, j),
            child_hi(k1, Some(m), j),
        ) by {
            assert(g1[j] == gc[j]);
            assert(child_lo(k1, clo, j) == child_lo(kc, clo, j));
            assert(child_hi(k1, Some(m), j) == child_hi(kc, chi, j));
        }
        assert forall|j1: int, j2: int, q: PageId|
            0 <= j1 < g1.len() && 0 <= j2 < g1.len() && j1 != j2 && #[trigger] in_subtree(
                pages2,
                g1[j1],
                h - 2,
                q,
            ) implies !#[trigger] in_subtree(pages2, g1[j2], h - 2, q) by {
            assert(g1[j1] == gc[j1] && g1[j2] == gc[j2]);
            assert(same_below(pages, pages2, gc[j1], h - 2));
            assert(same_below(pages, pages2, gc[j2], h - 2));
        }
        assert forall|j: int| 0 <= j < g1.len() implies !in_subtree(pages2, #[trigger] g1[j], h - 2, c) by {
            assert(g1[j] == gc[j]);
            assert(same_below(pages, pages2, gc[j], h - 2));
        }
    }
    assert(wf_subtree(pages2, r, h - 1, Some(m), chi)) by {
        assert forall|t: int| 0 <= t < k2.len() implies in_range(#[trigger] k2[t], Some(m), chi) by {
            assert(k2[t] == kc[t + i]);
            assert(in_range(kc[t + i], clo, chi));
            assert(key_lt(kc[i - 1], kc[t + i]));
        }
        assert forall|j: int| 0 <= j < g2.len() implies wf_subtree(
            pages2,
            #[trigger] g2[j],
            h - 2,
            child_lo(k2, Some(m), j),
            child_hi(k2, chi, j),
        ) by {
            assert(g2[j] == gc[j + i]);
            assert(child_lo(k2, Some(m), j) == child_lo(kc, clo, j + i));
            assert(child_hi(k2, chi, j) == child_hi(kc, chi, j + i));
        }
        assert forall|j1: int, j2: int, q: PageId|
            0 <= j1 < g2.len() && 0 <= j2 < g2.len() && j1 != j2 && #[trigger] in_subtree(
                pages2,
                g2[j1],
                h - 2,
                q,
            ) implies !#[trigger] in_subtree(pages2, g2[j2], h - 2, q) by {
            assert(g2[j1] == gc[j1 + i] && g2[j2] == gc[j2 + i]);
            assert(same_below(pages, pages2, gc[j1 + i], h - 2));
            assert(same_below(pages, pages2, gc[j2 + i], h - 2));
        }
        assert forall|j: int| 0 <= j < g2.len() implies !in_subtree(pages2, #[trigger] g2[j], h - 2, r) by {
            assert(g2[j] == gc[j + i]);
            assert(same_below(pages, pages2, gc[j + i], h - 2));
        }
    }
}

/// After an internal split: which pages lie below each half, and what each half holds.
proof fn lemma_internal_split_contents(
    pages: Map<PageId, BTreeNode>,
    pages2: Map<PageId, BTreeNode>,
    p: PageId,
    h: int,
    lo: Option<Seq<u8>>,
    hi: Option<Seq<u8>>,
    ci: int,
    r: PageId,
    i: int,
)
    requires
        internal_split_done(pages, pages2, p, h, lo, hi, ci, r, i),
    ensures
        ({
            let c = children_of(pages[p])[ci];
            let m = pages[c].key_seq()[i - 1];
            &&& forall|q: PageId| #[trigger] in_subtree(pages2, c, h - 1, q) ==> in_subtree(pages, c, h - 1, q)
            &&& forall|q: PageId|
                #[trigger] in_subtree(pages2, r, h - 1, q) ==> q == r || (in_subtree(pages, c, h - 1, q)
                    && q != c)
            &&& forall|q: PageId| #[trigger] in_subtree(pages2, c, h - 1, q) ==> !in_subtree(pages2, r, h - 1, q)
        }),
{
    let ks = pages[p].key_seq();
    let cs = children_of(pages[p]);
    let c = cs[ci];
    let kc = pages[c].key_seq();
    let gc = children_of(pages[c]);
    let n = kc.len();
    let m = kc[i - 1];
    lemma_internal_split_grandchildren(pages, pages2, p, h, lo, hi, ci, r, i);
    let g1 = gc.subrange(0, i);
    let g2 = gc.subrange(i, gc.len() as int);
    assert(children_of(pages2[c]) == g1);
    assert(children_of(pages2[r]) == g2);
    assert forall|q: PageId| #[trigger] in_subtree(pages2, c, h - 1, q) implies in_subtree(
        pages,
        c,
        h - 1,
        q,
    ) && (q == c || exists|j: int| 0 <= j < i && in_subtree(pages, #[trigger] gc[j], h - 2, q)) by {
        if q != c {
            let j = choose|j: int| 0 <= j < g1.len() && in_subtree(pages2, #[trigger] g1[j], h - 2, q);
            assert(g1[j] == gc[j]);
            assert(same_below(pages, pages2, gc[j], h - 2));
            lemma_child_in_subtree(pages, c, h - 1, j, q);
        }
    }
    assert forall|q: PageId| #[trigger] in_subtree(pages2, r, h - 1, q) implies q == r || (in_subtree(
        pages,
        c,
        h - 1,
        q,
    ) && q != c && exists|j: int| i <= j < gc.len() && in_subtree(pages, #[trigger] gc[j], h - 2, q)) by {
        if q != r {
            let j = choose|j: int| 0 <= j < g2.len() && in_subtree(pages2, #[trigger] g2[j], h - 2, q);
            assert(g2[j] == gc[j + i]);
            assert(same_below(pages, pages2, gc[j + i], h - 2));
            lemma_child_in_subtree(pages, c, h - 1, j + i, q);
            assert(in_subtree(pages, gc[j + i], h - 2, q));
        }
    }
    assert forall|q: PageId| #[trigger] in_subtree(pages2, c, h - 1, q) implies !in_subtree(
        pages2,
        r,
        h - 1,
        q,
    ) by {
        if in_subtree(pages2, r, h - 1, q) {
            if q == c {
            } else if q == r {
                let j = choose|j: int| 0 <= j < i && in_subtree(pages, #[trigger] gc[j], h - 2, q);
                assert(pages.contains_key(q));
            } else {
                let j1 = choose|j: int| 0 <= j < i && in_subtree(pages, #[trigger] gc[j], h - 2, q);
                let j2 = choose|j: int| i <= j < gc.len() && in_subtree(pages, #[trigger] gc[j], h - 2, q);
                assert(j1 != j2);
                assert(wf_subtree(pages, c, h - 1, child_lo(ks, lo, ci), child_hi(ks, hi, ci)));
            }
        }
    }
}

/// After an internal split, each half holds what the split child held on its side of the
/// key that moved up.
proof fn lemma_internal_split_lookups(
    pages: Map<PageId, BTreeNode>,
    pages2: Map<PageId, BTreeNode>,
    p: PageId,
    h: int,
    lo: Option<Seq<u8>>,
    hi: Option<Seq<u8>>,
    ci: int,
    r: PageId,
    i: int,
)
    requires
        internal_split_done(pages, pages2, p, h, lo, hi, ci, r, i),
    ensures
        ({
            let c = children_of(pages[p])[ci];
            let m = pages[c].key_seq()[i - 1];
            &&& forall|k: Seq<u8>|
                !key_lt(m, k) ==> #[trigger] lookup(pages2, c, h - 1, k) == lookup(pages, c, h - 1, k)
            &&& forall|k: Seq<u8>|
                key_lt(m, k) ==> #[trigger] lookup(pages2, r, h - 1, k) == lookup(pages, c, h - 1, k)
        }),
{
    let ks = pages[p].key_seq();
    let cs = children_of(pages[p]);
    let c = cs[ci];
    let kc = pages[c].key_seq();
    let gc = children_of(pages[c]);
    let m = kc[i - 1];
    lemma_internal_split_grandchildren(pages, pages2, p, h, lo, hi, ci, r, i);
    let g1 = gc.subrange(0, i);
    let g2 = gc.subrange(i, gc.len() as int);
    crate::btree::key_order::lemma_sorted_subrange(kc, 0, i - 1);
    crate::btree::key_order::lemma_sorted_subrange(kc, i, kc.len() as int);
    assert(children_of(pages2[c]) == g1);
    assert(children_of(pages2[r]) == g2);
    assert forall|k: Seq<u8>| !key_lt(m, k) implies #[trigger] lookup(pages2, c, h - 1, k) == lookup(
        pages,
        c,
        h - 1,
        k,
    ) by {
        lemma_route(kc, k);
        if route(kc, k) > i - 1 {
            assert(key_lt(kc[i - 1], k));
        }
        crate::btree::key_order::lemma_route_prefix(kc, i - 1, k);
        let j = route(kc, k);
        assert(g1[j] == gc[j]);
        assert(lookup(pages2, c, h - 1, k) == lookup(pages2, g1[j], h - 2, k));
        assert(lookup(pages, c, h - 1, k) == lookup(pages, gc[j], h - 2, k));
        assert(same_below(pages, pages2, gc[j], h - 2));
    }
    assert forall|k: Seq<u8>| key_lt(m, k) implies #[trigger] lookup(pages2, r, h - 1, k) == lookup(
        pages,
        c,
        h - 1,
        k,
    ) by {
        lemma_route(kc, k);
        if route(kc, k) < i {
            assert(!key_lt(kc[i - 1], k));
        }
        crate::btree::key_order::lemma_route_suffix(kc, i, k);
        let j = route(kc, k);
        assert(g2[j - i] == gc[j]);
        assert(lookup(pages2, r, h - 1, k) == lookup(pages2, g2[j - i], h - 2, k));
        assert(lookup(pages, c, h - 1, k) == lookup(pages, gc[j], h - 2, k));
        assert(same_below(pages, pages2, gc[j], h - 2));
    }
}

/// Splitting an internal child meets what `lemma_parent_after_split` asks.
pub proof fn lemma_split_internal_premises(
    pages: Map<PageId, BTreeNode>,
    pages2: Map<PageId, BTreeNode>,
    p: PageId,
    h: int,
    lo: Option<Seq<u8>>,
    hi: Option<Seq<u8>>,
    ci: int,
    r: PageId,
    i: int,
)
    requires
        internal_split_done(pages, pages2, p, h, lo, hi, ci, r, i),
    ensures
        split_premises(
            pages,
            pages2,
            p,
            h,
            lo,
            hi,
            ci,
            r,
            pages[children_of(pages[p])[ci]].key_seq()[i - 1],
        ),
{
    let ks = pages[p].key_seq();
    let cs = children_of(pages[p]);
    let c = cs[ci];
    let kc = pages[c].key_seq();
    let n = kc.len();
    let m = kc[i - 1];
    let clo = child_lo(ks, lo, ci);
    let chi = child_hi(ks, hi, ci);
    assert(wf_subtree(pages, c, h - 1, clo, chi));
    assert(in_range(kc[i - 1], clo, chi));
    assert(in_range(kc[n - 1], clo, chi));
    assert(key_lt(kc[i - 1], kc[n - 1]));
    if ci < ks.len() {
        assert(!key_lt(ks[ci], kc[n - 1]));
        assert(key_lt(m, ks[ci]));
    }
    lemma_internal_split_halves(pages, pages2, p, h, lo, hi, ci, r, i);
    lemma_internal_split_contents(pages, pages2, p, h, lo, hi, ci, r, i);
    lemma_internal_split_lookups(pages, pages2, p, h, lo, hi, ci, r, i);
}

/// A parent whose child `j` changed below it, and nothing else of the parent's pages: the
/// parent stays well-formed, and holds what the child now holds for the keys routed to it.
pub proof fn lemma_parent_after_child_update(
    pages: Map<PageId, BTreeNode>,
    pages2: Map<PageId, BTreeNode>,
    p: PageId,
    h: int,
    lo: Option<Seq<u8>>,
    hi: Option<Seq<u8>>,
    j: int,
)
    requires
        wf_subtree(pages, p, h, lo, hi),
        h > 0,
        0 <= j < children_of(pages[p]).len(),
        wf_subtree(
            pages2,
            children_of(pages[p])[j],
            h - 1,
            child_lo(pages[p].key_seq(), lo, j),
            child_hi(pages[p].key_seq(), hi, j),
        ),
        forall|q: PageId|
            pages.contains_key(q) && !in_subtree(pages, children_of(pages[p])[j], h - 1, q)
                ==> #[trigger] pages2.contains_key(q) && pages2[q] == pages[q],
        forall|q: PageId|
            #[trigger] in_subtree(pages2, children_of(pages[p])[j], h - 1, q) ==> in_subtree(
                pages,
                children_of(pages[p])[j],
                h - 1,
                q,
            ) || !pages.contains_key(q),
    ensures
        wf_subtree(pages2, p, h, lo, hi),
        forall|k: Seq<u8>|
            #[trigger] lookup(pages2, p, h, k) == if route(pages[p].key_seq(), k) == j {
                lookup(pages2, children_of(pages[p])[j], h - 1, k)
            } else {
                lookup(pages, p, h, k)
            },
        forall|q: PageId|
            #[trigger] in_subtree(pages2, p, h, q) ==> in_subtree(pages, p, h, q) || !pages.contains_key(q),
{
    let ks = pages[p].key_seq();
    let cs = children_of(pages[p]);
    let c = cs[j];
    assert(in_subtree(pages, c, h - 1, c));
    assert(!in_subtree(pages, c, h - 1, p));
    assert(pages2.contains_key(p) && pages2[p] == pages[p]);
    assert forall|i: int| 0 <= i < cs.len() && i != j implies {
        &&& wf_subtree(pages2, #[trigger] cs[i], h - 1, child_lo(ks, lo, i), child_hi(ks, hi, i))
        &&& same_below(pages, pages2, cs[i], h - 1)
        &&& forall|q: PageId| #[trigger] in_subtree(pages, cs[i], h - 1, q) ==> pages.contains_key(q)
    } by {
        let changed = Set::new(|q: PageId| in_subtree(pages, c, h - 1, q));
        assert forall|q: PageId| changed.contains(q) implies !#[trigger] in_subtree(
            pages,
            children_of(pages[p])[i],
            h - 1,
            q,
        ) by {}
        assert forall|q: PageId|
            pages.contains_key(q) && !changed.contains(q) implies #[trigger] pages2.contains_key(q)
            && pages2[q] == pages[q] by {}
        lemma_unchanged_child(pages, pages2, p, h, lo, hi, i, changed);
    }
    assert(wf_subtree(pages2, p, h, lo, hi)) by {
        assert forall|i: int| 0 <= i < cs.len() implies wf_subtree(
            pages2,
            #[trigger] cs[i],
            h - 1,
            child_lo(ks, lo, i),
            child_hi(ks, hi, i),
        ) by {}
        assert forall|j1: int, j2: int, q: PageId|
            0 <= j1 < cs.len() && 0 <= j2 < cs.len() && j1 != j2 && #[trigger] in_subtree(
                pages2,
                cs[j1],
                h - 1,
                q,
            ) implies !#[trigger] in_subtree(pages2, cs[j2], h - 1, q) by {
            if in_subtree(pages2, cs[j2], h - 1, q) {
                if j1 == j {
                    assert(in_subtree(pages, cs[j2], h - 1, q));
                    if !in_subtree(pages, c, h - 1, q) {
                        assert(pages.contains_key(q));
                    }
                } else if j2 == j {
                    assert(in_subtree(pages, cs[j1], h - 1, q));
                    if !in_subtree(pages, c, h - 1, q) {
                        assert(pages.contains_key(q));
                    }
                } else {
                    assert(in_subtree(pages, cs[j1], h - 1, q));
                    assert(in_subtree(pages, cs[j2], h - 1, q));
                }
            }
        }
        assert forall|i: int| 0 <= i < cs.len() implies !in_subtree(pages2, #[trigger] cs[i], h - 1, p) by {
            if i != j {
                assert(same_below(pages, pages2, cs[i], h - 1));
            }
        }
    }
    assert forall|k: Seq<u8>| #[trigger] lookup(pages2, p, h, k) == if route(ks, k) == j {
        lookup(pages2, c, h - 1, k)
    } else {
        lookup(pages, p, h, k)
    } by {
        lemma_route(ks, k);
        let i = route(ks, k);
        assert(lookup(pages2, p, h, k) == lookup(pages2, cs[i], h - 1, k));
        assert(lookup(pages, p, h, k) == lookup(pages, cs[i], h - 1, k));
        if i != j {
            assert(same_below(pages, pages2, cs[i], h - 1));
        }
    }
    assert forall|q: PageId| #[trigger] in_subtree(pages2, p, h, q) implies in_subtree(pages, p, h, q)
        || !pages.contains_key(q) by {
        if q != p {
            let i = choose|i: int| 0 <= i < cs.len() && in_subtree(pages2, #[trigger] cs[i], h - 1, q);
            if i != j {
                assert(same_below(pages, pages2, cs[i], h - 1));
                lemma_child_in_subtree(pages, p, h, i, q);
            } else if in_subtree(pages, c, h - 1, q) {
                lemma_child_in_subtree(pages, p, h, j, q);
            }
        }
    }
}

/// What rebalancing two neighbouring children `a` and `a + 1` of `p` asks: the routing key
/// between them becomes `s2`, each of the two pages holds a well-formed tree within its new
/// bounds, taken from the pages below the two, and together they hold what the two held.
pub open spec fn rotate_premises(
    pages: Map<PageId, BTreeNode>,
    pages2: Map<PageId, BTreeNode>,
    p: PageId,
    h: int,
    lo: Option<Seq<u8>>,
    hi: Option<Seq<u8>>,
    a: int,
    s2: Seq<u8>,
) -> bool {
    let ks = pages[p].key_seq();
    let cs = children_of(pages[p]);
    let x = cs[a];
    let y = cs[a + 1];
    &&& wf_subtree(pages, p, h, lo, hi)
    &&& h > 0
    &&& 0 <= a
    &&& a + 1 < cs.len()
    &&& pages2.dom() == pages.dom()
    &&& forall|q: PageId|
        pages.contains_key(q) && q != p && q != x && q != y ==> #[trigger] pages2[q] == pages[q]
    &&& internal_holds(pages2[p], ks.update(a, s2), cs)
    &&& above(s2, child_lo(ks, lo, a))
    &&& a + 1 < ks.len() ==> key_lt(s2, ks[a + 1])
    &&& a + 1 == ks.len() ==> below(s2, hi)
    &&& wf_subtree(pages2, x, h - 1, child_lo(ks, lo, a), Some(s2))
    &&& wf_subtree(pages2, y, h - 1, Some(s2), child_hi(ks, hi, a + 1))
    &&& forall|q: PageId|
        #[trigger] in_subtree(pages2, x, h - 1, q) ==> in_subtree(pages, x, h - 1, q) || in_subtree(
            pages,
            y,
            h - 1,
            q,
        )
    &&& forall|q: PageId|
        #[trigger] in_subtree(pages2, y, h - 1, q) ==> in_subtree(pages, x, h - 1, q) || in_subtree(
            pages,
            y,
            h - 1,
            q,
        )
    &&& forall|q: PageId| #[trigger] in_subtree(pages2, x, h - 1, q) ==> !in_subtree(pages2, y, h - 1, q)
    &&& forall|k: Seq<u8>|
        (route(ks, k) == a || route(ks, k) == a + 1) && !key_lt(s2, k) ==> #[trigger] lookup(
            pages2,
            x,
            h - 1,
            k,
        ) == lookup(pages, p, h, k)
    &&& forall|k: Seq<u8>|
        (route(ks, k) == a || route(ks, k) == a + 1) && key_lt(s2, k) ==> #[trigger] lookup(
            pages2,
            y,
            h - 1,
            k,
        ) == lookup(pages, p, h, k)
}

/// The other children of `p` are as they were when only `p` and the pages below children
/// `a` and `a + 1` changed.
proof fn lemma_other_children_unchanged(
    pages: Map<PageId, BTreeNode>,
    pages2: Map<PageId, BTreeNode>,
    p: PageId,
    h: int,
    lo: Option<Seq<u8>>,
    hi: Option<Seq<u8>>,
    a: int,
)
    requires
        wf_subtree(pages, p, h, lo, hi),
        h > 0,
        0 <= a,
        a + 1 < children_of(pages[p]).len(),
        forall|q: PageId|
            pages.contains_key(q) && q != p && !in_subtree(pages, children_of(pages[p])[a], h - 1, q)
                && !in_subtree(pages, children_of(pages[p])[a + 1], h - 1, q) ==> #[trigger] pages2.contains_key(q)
                && pages2[q] == pages[q],
    ensures
        ({
            let ks = pages[p].key_seq();
            let cs = children_of(pages[p]);
            forall|j: int|
                0 <= j < cs.len() && j != a && j != a + 1 ==> {
                    &&& wf_subtree(pages2, #[trigger] cs[j], h - 1, child_lo(ks, lo, j), child_hi(ks, hi, j))
                    &&& same_below(pages, pages2, cs[j], h - 1)
                    &&& forall|q: PageId| #[trigger] in_subtree(pages, cs[j], h - 1, q) ==> pages.contains_key(q)
                        && !in_subtree(pages, cs[a], h - 1, q) && !in_subtree(pages, cs[a + 1], h - 1, q)
                }
        }),
{
    let ks = pages[p].key_seq();
    let cs = children_of(pages[p]);
    assert forall|j: int| 0 <= j < cs.len() && j != a && j != a + 1 implies {
        &&& wf_subtree(pages2, #[trigger] cs[j], h - 1, child_lo(ks, lo, j), child_hi(ks, hi, j))
        &&& same_below(pages, pages2, cs[j], h - 1)
        &&& forall|q: PageId| #[trigger] in_subtree(pages, cs[j], h - 1, q) ==> pages.contains_key(q)
            && !in_subtree(pages, cs[a], h - 1, q) && !in_subtree(pages, cs[a + 1], h - 1, q)
    } by {
        let changed = Set::new(
            |q: PageId| q == p || in_subtree(pages, cs[a], h - 1, q) || in_subtree(pages, cs[a + 1], h - 1, q),
        );
        assert forall|q: PageId| changed.contains(q) implies !#[trigger] in_subtree(
            pages,
            children_of(pages[p])[j],
            h - 1,
            q,
        ) by {}
        assert forall|q: PageId|
            pages.contains_key(q) && !changed.contains(q) implies #[trigger] pages2.contains_key(q)
            && pages2[q] == pages[q] by {}
        lemma_unchanged_child(pages, pages2, p, h, lo, hi, j, changed);
    }
}

/// The parent after rebalancing two neighbouring children stays well-formed and holds what
/// it held.
pub proof fn lemma_parent_after_rotate(
    pages: Map<PageId, BTreeNode>,
    pages2: Map<PageId, BTreeNode>,
    p: PageId,
    h: int,
    lo: Option<Seq<u8>>,
    hi: Option<Seq<u8>>,
    a: int,
    s2: Seq<u8>,
)
    requires
        rotate_premises(pages, pages2, p, h, lo, hi, a, s2),
    ensures
        wf_subtree(pages2, p, h, lo, hi),
        forall|k: Seq<u8>| #[trigger] lookup(pages2, p, h, k) == lookup(pages, p, h, k),
        forall|q: PageId| #[trigger] in_subtree(pages2, p, h, q) ==> in_subtree(pages, p, h, q),
{
    let ks = pages[p].key_seq();
    let cs = children_of(pages[p]);
    let x = cs[a];
    let y = cs[a + 1];
    let ks2 = ks.update(a, s2);
    assert(in_subtree(pages, x, h - 1, x));
    assert(in_subtree(pages, y, h - 1, y));
    assert(!in_subtree(pages, x, h - 1, p));
    assert(!in_subtree(pages, y, h - 1, p));
    assert forall|q: PageId|
        pages.contains_key(q) && q != p && !in_subtree(pages, x, h - 1, q) && !in_subtree(pages, y, h - 1, q)
            implies #[trigger] pages2.contains_key(q) && pages2[q] == pages[q] by {}
    lemma_other_children_unchanged(pages, pages2, p, h, lo, hi, a);
    // The new routing key.
    assert(sorted_keys(ks2)) by {
        if a > 0 {
            assert(in_range(ks[a - 1], lo, hi));
        }
        assert forall|i: int, j: int| 0 <= i < j < ks2.len() implies #[trigger] key_lt(ks2[i], ks2[j]) by {
            if i == a {
                if j > a + 1 {
                    assert(key_lt(ks[a + 1], ks[j]));
                }
            } else if j == a {
                if i < a - 1 {
                    assert(key_lt(ks[i], ks[a - 1]));
                }
            }
        }
    }
    assert forall|i: int| 0 <= i < ks2.len() implies in_range(#[trigger] ks2[i], lo, hi) by {
        if i == a {
            if a > 0 {
                assert(in_range(ks[a - 1], lo, hi));
            }
            if a + 1 < ks.len() {
                assert(in_range(ks[a + 1], lo, hi));
            }
        }
    }
    assert(wf_subtree(pages2, p, h, lo, hi)) by {
        assert forall|j: int| 0 <= j < cs.len() implies wf_subtree(
            pages2,
            #[trigger] cs[j],
            h - 1,
            child_lo(ks2, lo, j),
            child_hi(ks2, hi, j),
        ) by {
            if j != a && j != a + 1 {
                assert(child_lo(ks2, lo, j) == child_lo(ks, lo, j));
                assert(child_hi(ks2, hi, j) == child_hi(ks, hi, j));
            } else if j == a {
                assert(child_lo(ks2, lo, j) == child_lo(ks, lo, j));
            } else {
                assert(child_hi(ks2, hi, j) == child_hi(ks, hi, j));
            }
        }
        assert forall|j1: int, j2: int, q: PageId|
            0 <= j1 < cs.len() && 0 <= j2 < cs.len() && j1 != j2 && #[trigger] in_subtree(
                pages2,
                cs[j1],
                h - 1,
                q,
            ) implies !#[trigger] in_subtree(pages2, cs[j2], h - 1, q) by {
            if in_subtree(pages2, cs[j2], h - 1, q) {
                let in1 = j1 == a || j1 == a + 1;
                let in2 = j2 == a || j2 == a + 1;
                if in1 && in2 {
                } else if in1 {
                    assert(in_subtree(pages, cs[j2], h - 1, q));
                    assert(in_subtree(pages, x, h - 1, q) || in_subtree(pages, y, h - 1, q));
                } else if in2 {
                    assert(in_subtree(pages, cs[j1], h - 1, q));
                    assert(in_subtree(pages, x, h - 1, q) || in_subtree(pages, y, h - 1, q));
                } else {
                    assert(in_subtree(pages, cs[j1], h - 1, q));
                    assert(in_subtree(pages, cs[j2], h - 1, q));
                }
            }
        }
        assert forall|j: int| 0 <= j < cs.len() implies !in_subtree(pages2, #[trigger] cs[j], h - 1, p) by {
            if j != a && j != a + 1 {
                assert(same_below(pages, pages2, cs[j], h - 1));
            }
        }
    }
    assert forall|k: Seq<u8>| #[trigger] lookup(pages2, p, h, k) == lookup(pages, p, h, k) by {
        lemma_route(ks, k);
        lemma_route_update(ks, a, s2, k);
        let j = route(ks, k);
        let j2 = route(ks2, k);
        assert(lookup(pages2, p, h, k) == lookup(pages2, cs[j2], h - 1, k));
        if j != a && j != a + 1 {
            assert(lookup(pages, p, h, k) == lookup(pages, cs[j], h - 1, k));
            assert(same_below(pages, pages2, cs[j], h - 1));
        }
    }
    assert forall|q: PageId| #[trigger] in_subtree(pages2, p, h, q) implies in_subtree(pages, p, h, q) by {
        if q != p {
            let j = choose|j: int| 0 <= j < cs.len() && in_subtree(pages2, #[trigger] cs[j], h - 1, q);
            if j != a && j != a + 1 {
                lemma_child_in_subtree(pages, p, h, j, q);
            } else if in_subtree(pages, x, h - 1, q) {
                lemma_child_in_subtree(pages, p, h, a, q);
            } else {
                lemma_child_in_subtree(pages, p, h, a + 1, q);
            }
        }
    }
}

/// What merging neighbouring children `a` and `a + 1` of `p` into the page of child `a`
/// asks: the page of child `a + 1` is no longer in use, the routing key between them is
/// gone, and the merged page holds a well-formed tree within the bounds of both, taken from
/// the pages below the two, that holds what the two held.
pub open spec fn merge_premises(
    pages: Map<PageId, BTreeNode>,
    pages2: Map<PageId, BTreeNode>,
    p: PageId,
    h: int,
    lo: Option<Seq<u8>>,
    hi: Option<Seq<u8>>,
    a: int,
) -> bool {
    let ks = pages[p].key_seq();
    let cs = children_of(pages[p]);
    let x = cs[a];
    let y = cs[a + 1];
    &&& wf_subtree(pages, p, h, lo, hi)
    &&& h > 0
    &&& 0 <= a
    &&& a + 1 < cs.len()
    &&& pages2.dom() == pages.dom().remove(y)
    &&& forall|q: PageId|
        pages.contains_key(q) && q != p && q != x && q != y ==> #[trigger] pages2[q] == pages[q]
    &&& internal_holds(pages2[p], ks.remove(a), cs.remove(a + 1))
    &&& wf_subtree(pages2, x, h - 1, child_lo(ks, lo, a), child_hi(ks, hi, a + 1))
    &&& forall|q: PageId|
        #[trigger] in_subtree(pages2, x, h - 1, q) ==> (in_subtree(pages, x, h - 1, q) || in_subtree(
            pages,
            y,
            h - 1,
            q,
        )) && q != y
    &&& forall|k: Seq<u8>|
        (route(ks, k) == a || route(ks, k) == a + 1) ==> #[trigger] lookup(pages2, x, h - 1, k)
            == lookup(pages, p, h, k)
}

/// The parent after merging two neighbouring children stays well-formed, holds what it
/// held, and no longer reaches the page that was merged away.
pub proof fn lemma_parent_after_merge(
    pages: Map<PageId, BTreeNode>,
    pages2: Map<PageId, BTreeNode>,
    p: PageId,
    h: int,
    lo: Option<Seq<u8>>,
    hi: Option<Seq<u8>>,
    a: int,
)
    requires
        merge_premises(pages, pages2, p, h, lo, hi, a),
    ensures
        wf_subtree(pages2, p, h, lo, hi),
        forall|k: Seq<u8>| #[trigger] lookup(pages2, p, h, k) == lookup(pages, p, h, k),
        forall|q: PageId|
            #[trigger] in_subtree(pages2, p, h, q) ==> in_subtree(pages, p, h, q) && q != children_of(
                pages[p],
            )[a + 1],
{
    let ks = pages[p].key_seq();
    let cs = children_of(pages[p]);
    let x = cs[a];
    let y = cs[a + 1];
    let ks2 = ks.remove(a);
    let cs2 = cs.remove(a + 1);
    assert(in_subtree(pages, x, h - 1, x));
    assert(in_subtree(pages, y, h - 1, y));
    assert(!in_subtree(pages, x, h - 1, p));
    assert(!in_subtree(pages, y, h - 1, p));
    assert forall|q: PageId|
        pages.contains_key(q) && q != p && !in_subtree(pages, x, h - 1, q) && !in_subtree(pages, y, h - 1, q)
            implies #[trigger] pages2.contains_key(q) && pages2[q] == pages[q] by {}
    lemma_other_children_unchanged(pages, pages2, p, h, lo, hi, a);
    lemma_route_remove(ks, a, Seq::empty());
    assert forall|i: int| 0 <= i < ks2.len() implies in_range(#[trigger] ks2[i], lo, hi) && below(ks2[i], hi) by {
        if i < a {
            assert(ks2[i] == ks[i]);
        } else {
            assert(ks2[i] == ks[i + 1]);
        }
    }
    assert forall|j: int| 0 <= j < cs2.len() implies wf_subtree(
        pages2,
        #[trigger] cs2[j],
        h - 1,
        child_lo(ks2, lo, j),
        child_hi(ks2, hi, j),
    ) by {
        if j < a {
            assert(cs2[j] == cs[j]);
            assert(child_lo(ks2, lo, j) == child_lo(ks, lo, j));
            assert(child_hi(ks2, hi, j) == child_hi(ks, hi, j));
        } else if j == a {
            assert(cs2[j] == x);
            assert(child_lo(ks2, lo, j) == child_lo(ks, lo, j));
            assert(child_hi(ks2, hi, j) == child_hi(ks, hi, j + 1));
        } else {
            assert(cs2[j] == cs[j + 1]);
            assert(child_lo(ks2, lo, j) == child_lo(ks, lo, j + 1));
            assert(child_hi(ks2, hi, j) == child_hi(ks, hi, j + 1));
        }
    }
    assert forall|j: int, q: PageId|
        0 <= j < cs2.len() && #[trigger] in_subtree(pages2, cs2[j], h - 1, q) implies {
        let o = if j <= a { j } else { j + 1 };
        &&& j == a ==> (in_subtree(pages, x, h - 1, q) || in_subtree(pages, y, h - 1, q)) && q != y
        &&& j != a ==> in_subtree(pages, cs[o], h - 1, q)
    } by {
        if j < a {
            assert(cs2[j] == cs[j]);
        } else if j > a {
            assert(cs2[j] == cs[j + 1]);
        } else {
            assert(cs2[j] == x);
        }
    }
    assert(wf_subtree(pages2, p, h, lo, hi)) by {
        assert forall|j1: int, j2: int, q: PageId|
            0 <= j1 < cs2.len() && 0 <= j2 < cs2.len() && j1 != j2 && #[trigger] in_subtree(
                pages2,
                cs2[j1],
                h - 1,
                q,
            ) implies !#[trigger] in_subtree(pages2, cs2[j2], h - 1, q) by {
            if in_subtree(pages2, cs2[j2], h - 1, q) {
                let o1 = if j1 <= a { j1 } else { j1 + 1 };
                let o2 = if j2 <= a { j2 } else { j2 + 1 };
                if j1 == a {
                    assert(in_subtree(pages, cs[o2], h - 1, q));
                    assert(in_subtree(pages, x, h - 1, q) || in_subtree(pages, y, h - 1, q));
                } else if j2 == a {
                    assert(in_subtree(pages, cs[o1], h - 1, q));
                    assert(in_subtree(pages, x, h - 1, q) || in_subtree(pages, y, h - 1, q));
                } else {
                    assert(in_subtree(pages, cs[o1], h - 1, q));
                    assert(in_subtree(pages, cs[o2], h - 1, q));
                }
            }
        }
        assert forall|j: int| 0 <= j < cs2.len() implies !in_subtree(pages2, #[trigger] cs2[j], h - 1, p) by {
            let o = if j <= a { j } else { j + 1 };
            if in_subtree(pages2, cs2[j], h - 1, p) {
                if j != a {
                    assert(in_subtree(pages, cs[o], h - 1, p));
                }
            }
        }
    }
    assert forall|k: Seq<u8>| #[trigger] lookup(pages2, p, h, k) == lookup(pages, p, h, k) by {
        lemma_route(ks, k);
        lemma_route_remove(ks, a, k);
        let j = route(ks, k);
        let j2 = route(ks2, k);
        assert(lookup(pages2, p, h, k) == lookup(pages2, cs2[j2], h - 1, k));
        if j < a {
            assert(cs2[j2] == cs[j]);
            assert(lookup(pages, p, h, k) == lookup(pages, cs[j], h - 1, k));
            assert(same_below(pages, pages2, cs[j], h - 1));
        } else if j > a + 1 {
            assert(cs2[j2] == cs[j]);
            assert(lookup(pages, p, h, k) == lookup(pages, cs[j], h - 1, k));
            assert(same_below(pages, pages2, cs[j], h - 1));
        } else {
            assert(cs2[j2] == x);
        }
    }
    assert forall|q: PageId| #[trigger] in_subtree(pages2, p, h, q) implies in_subtree(pages, p, h, q)
        && q != y by {
        if q != p {
            let j = choose|j: int| 0 <= j < cs2.len() && in_subtree(pages2, #[trigger] cs2[j], h - 1, q);
            let o = if j <= a { j } else { j + 1 };
            if j != a {
                lemma_child_in_subtree(pages, p, h, o, q);
                assert(!in_subtree(pages, y, h - 1, q) || o == a + 1);
            } else if in_subtree(pages, x, h - 1, q) {
                lemma_child_in_subtree(pages, p, h, a, q);
            } else {
                lemma_child_in_subtree(pages, p, h, a + 1, q);
            }
        } else {
            assert(pages.contains_key(p));
        }
    }
}

} // verus!
