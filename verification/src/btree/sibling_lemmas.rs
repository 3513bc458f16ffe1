//! Two neighbouring children taken together: with the routing key between them, their
//! entries form one sorted run, and a node made of any stretch of that run, put back in
//! the place of one of the two, is a well-formed tree. Merging two children and moving an
//! entry from one to the other both build their nodes that way.
use vstd::prelude::*;

use crate::btree::btree_node::BTreeNode;
use crate::btree::common::PageId;
use crate::btree::key_order::{key_lt, lemma_route, lemma_route_concat, route, sorted_keys};
use crate::btree::leaf_node::{find_value, lemma_find_value_subrange};
use crate::btree::tree_lemmas::{internal_holds, leaf_holds, merge_premises, rotate_premises};
use crate::btree::tree_spec::{
    below,
    child_hi,
    child_lo,
    children_of,
    in_range,
    in_subtree,
    lemma_child_in_subtree,
    lemma_unchanged_child,
    lookup,
    same_below,
    wf_subtree,
};

verus! {

broadcast use crate::btree::key_order::group_key_order;

/// The keys of children `a` and `a + 1` of `p` one after the other; for internal children
/// with the routing key between them in the middle.
pub open spec fn joined_keys(pages: Map<PageId, BTreeNode>, p: PageId, a: int) -> Seq<Seq<u8>> {
    let cs = children_of(pages[p]);
    let x = pages[cs[a]];
    let y = pages[cs[a + 1]];
    match x {
        BTreeNode::Internal(_) => x.key_seq().push(pages[p].key_seq()[a]) + y.key_seq(),
        BTreeNode::Leaf(_) => x.key_seq() + y.key_seq(),
    }
}

/// The children of internal children `a` and `a + 1` of `p`, one after the other.
pub open spec fn joined_children(pages: Map<PageId, BTreeNode>, p: PageId, a: int) -> Seq<PageId> {
    let cs = children_of(pages[p]);
    children_of(pages[cs[a]]) + children_of(pages[cs[a + 1]])
}

/// The values of leaf children `a` and `a + 1` of `p`, one after the other.
pub open spec fn joined_values(pages: Map<PageId, BTreeNode>, p: PageId, a: int) -> Seq<Seq<u8>> {
    let cs = children_of(pages[p]);
    pages[cs[a]]->Leaf_0.value_seq() + pages[cs[a + 1]]->Leaf_0.value_seq()
}

/// The lower bound of the two children `a` and `a + 1` of `p` taken together.
pub open spec fn joined_lo(pages: Map<PageId, BTreeNode>, p: PageId, lo: Option<Seq<u8>>, a: int) -> Option<
    Seq<u8>,
> {
    child_lo(pages[p].key_seq(), lo, a)
}

/// The upper bound of the two children `a` and `a + 1` of `p` taken together.
pub open spec fn joined_hi(pages: Map<PageId, BTreeNode>, p: PageId, hi: Option<Seq<u8>>, a: int) -> Option<
    Seq<u8>,
> {
    child_hi(pages[p].key_seq(), hi, a + 1)
}

/// Children `a` and `a + 1` of a well-formed `p`, and a `pages2` that keeps every page in
/// use but `p` and those two.
pub open spec fn siblings_in(
    pages: Map<PageId, BTreeNode>,
    pages2: Map<PageId, BTreeNode>,
    p: PageId,
    h: int,
    lo: Option<Seq<u8>>,
    hi: Option<Seq<u8>>,
    a: int,
) -> bool {
    let cs = children_of(pages[p]);
    &&& wf_subtree(pages, p, h, lo, hi)
    &&& h > 0
    &&& 0 <= a
    &&& a + 1 < cs.len()
    &&& forall|q: PageId|
        pages.contains_key(q) && q != p && q != cs[a] && q != cs[a + 1] ==> #[trigger] pages2.contains_key(q)
            && pages2[q] == pages[q]
}

/// What the joined run of two internal children gives: sorted keys strictly within the
/// bounds of the two, one child more than keys, each child a tree that `pages2` keeps and
/// that lies within the bounds the run gives it, no page below two of them, and every key
/// that `p` routes to one of the two found below the child the run routes it to.
pub open spec fn joined_ok(
    pages: Map<PageId, BTreeNode>,
    pages2: Map<PageId, BTreeNode>,
    p: PageId,
    h: int,
    lo: Option<Seq<u8>>,
    hi: Option<Seq<u8>>,
    a: int,
) -> bool {
    let ks = pages[p].key_seq();
    let cs = children_of(pages[p]);
    let x = cs[a];
    let y = cs[a + 1];
    let kk = joined_keys(pages, p, a);
    let gg = joined_children(pages, p, a);
    let jlo = joined_lo(pages, p, lo, a);
    let jhi = joined_hi(pages, p, hi, a);
    &&& sorted_keys(kk)
    &&& forall|i: int| 0 <= i < kk.len() ==> in_range(#[trigger] kk[i], jlo, jhi) && below(kk[i], jhi)
    &&& gg.len() == kk.len() + 1
    &&& x != y
    &&& forall|j: int|
        0 <= j < gg.len() ==> wf_subtree(
            pages2,
            #[trigger] gg[j],
            h - 2,
            child_lo(kk, jlo, j),
            child_hi(kk, jhi, j),
        ) && same_below(pages, pages2, gg[j], h - 2)
    &&& forall|j: int, q: PageId|
        0 <= j < gg.len() && #[trigger] in_subtree(pages, gg[j], h - 2, q) ==> pages.contains_key(q)
            && q != p && q != x && q != y && (in_subtree(pages, x, h - 1, q) || in_subtree(
            pages,
            y,
            h - 1,
            q,
        ))
    &&& forall|j1: int, j2: int, q: PageId|
        0 <= j1 < gg.len() && 0 <= j2 < gg.len() && j1 != j2 && #[trigger] in_subtree(
            pages,
            gg[j1],
            h - 2,
            q,
        ) ==> !#[trigger] in_subtree(pages, gg[j2], h - 2, q)
    &&& forall|k: Seq<u8>|
        (route(ks, k) == a || route(ks, k) == a + 1) ==> #[trigger] lookup(pages, p, h, k) == lookup(
            pages,
            gg[route(kk, k)],
            h - 2,
            k,
        )
}

/// The two children are distinct pages, neither of them the parent, and lie within their
/// bounds on either side of the routing key between them.
pub proof fn lemma_siblings(
    pages: Map<PageId, BTreeNode>,
    pages2: Map<PageId, BTreeNode>,
    p: PageId,
    h: int,
    lo: Option<Seq<u8>>,
    hi: Option<Seq<u8>>,
    a: int,
)
    requires
        siblings_in(pages, pages2, p, h, lo, hi, a),
    ensures
        ({
            let ks = pages[p].key_seq();
            let cs = children_of(pages[p]);
            let s = ks[a];
            let jlo = joined_lo(pages, p, lo, a);
            let jhi = joined_hi(pages, p, hi, a);
            &&& a < ks.len()
            &&& cs[a] != cs[a + 1]
            &&& p != cs[a] && p != cs[a + 1]
            &&& wf_subtree(pages, cs[a], h - 1, jlo, Some(s))
            &&& wf_subtree(pages, cs[a + 1], h - 1, Some(s), jhi)
            &&& in_range(s, jlo, jhi)
            &&& below(s, jhi)
            &&& forall|q: PageId| #[trigger] in_subtree(pages, cs[a], h - 1, q) ==> !in_subtree(pages, cs[a + 1], h - 1, q)
            &&& !in_subtree(pages, cs[a], h - 1, p)
            &&& !in_subtree(pages, cs[a + 1], h - 1, p)
            &&& pages[cs[a]] is Internal <==> pages[cs[a + 1]] is Internal
        }),
{
    let ks = pages[p].key_seq();
    let cs = children_of(pages[p]);
    assert(wf_subtree(pages, cs[a], h - 1, child_lo(ks, lo, a), child_hi(ks, hi, a)));
    assert(wf_subtree(pages, cs[a + 1], h - 1, child_lo(ks, lo, a + 1), child_hi(ks, hi, a + 1)));
    assert(in_subtree(pages, cs[a], h - 1, cs[a]));
    assert(in_subtree(pages, cs[a + 1], h - 1, cs[a + 1]));
    assert(in_range(ks[a], lo, hi));
    if a > 0 {
        assert(key_lt(ks[a - 1], ks[a]));
    }
    if a + 1 < ks.len() {
        assert(key_lt(ks[a], ks[a + 1]));
    }
}

/// The keys of two internal children with the routing key between them are sorted and lie
/// strictly within the bounds of the two.
proof fn lemma_joined_internal_keys(
    pages: Map<PageId, BTreeNode>,
    pages2: Map<PageId, BTreeNode>,
    p: PageId,
    h: int,
    lo: Option<Seq<u8>>,
    hi: Option<Seq<u8>>,
    a: int,
)
    requires
        siblings_in(pages, pages2, p, h, lo, hi, a),
        h > 1,
    ensures
        ({
            let kk = joined_keys(pages, p, a);
            let jlo = joined_lo(pages, p, lo, a);
            let jhi = joined_hi(pages, p, hi, a);
            &&& sorted_keys(kk)
            &&& forall|i: int| 0 <= i < kk.len() ==> in_range(#[trigger] kk[i], jlo, jhi) && below(kk[i], jhi)
            &&& joined_children(pages, p, a).len() == kk.len() + 1
        }),
{
    lemma_siblings(pages, pages2, p, h, lo, hi, a);
    let ks = pages[p].key_seq();
    let cs = children_of(pages[p]);
    let s = ks[a];
    let kx = pages[cs[a]].key_seq();
    let ky = pages[cs[a + 1]].key_seq();
    let jlo = joined_lo(pages, p, lo, a);
    let jhi = joined_hi(pages, p, hi, a);
    let kk = joined_keys(pages, p, a);
    assert(kk == kx.push(s) + ky);
    assert forall|i: int| 0 <= i < kx.len() implies key_lt(#[trigger] kx[i], s) && in_range(kx[i], jlo, jhi)
        && below(kx[i], jhi) by {
        assert(in_range(pages[cs[a]].key_seq()[i], jlo, Some(s)));
        assert(below(pages[cs[a]].key_seq()[i], Some(s)));
    }
    assert forall|i: int| 0 <= i < ky.len() implies key_lt(s, #[trigger] ky[i]) && in_range(ky[i], jlo, jhi)
        && below(ky[i], jhi) by {
        assert(in_range(pages[cs[a + 1]].key_seq()[i], Some(s), jhi));
        assert(below(pages[cs[a + 1]].key_seq()[i], jhi));
    }
    lemma_route_concat(kx, s, ky, s);
    assert forall|i: int| 0 <= i < kk.len() implies in_range(#[trigger] kk[i], jlo, jhi) && below(kk[i], jhi) by {
        if i < kx.len() {
            assert(kk[i] == kx[i]);
        } else if i == kx.len() {
            assert(kk[i] == s);
        } else {
            assert(kk[i] == ky[i - kx.len() - 1]);
        }
    }
}

/// Each child of the joined run is, in `pages2`, the tree it was, within the bounds that
/// the run gives it, and the pages below it lie below one of the two children.
proof fn lemma_joined_internal_children(
    pages: Map<PageId, BTreeNode>,
    pages2: Map<PageId, BTreeNode>,
    p: PageId,
    h: int,
    lo: Option<Seq<u8>>,
    hi: Option<Seq<u8>>,
    a: int,
)
    requires
        siblings_in(pages, pages2, p, h, lo, hi, a),
        h > 1,
    ensures
        ({
            let cs = children_of(pages[p]);
            let x = cs[a];
            let y = cs[a + 1];
            let kk = joined_keys(pages, p, a);
            let gg = joined_children(pages, p, a);
            let jlo = joined_lo(pages, p, lo, a);
            let jhi = joined_hi(pages, p, hi, a);
            &&& forall|j: int|
                0 <= j < gg.len() ==> wf_subtree(
                    pages2,
                    #[trigger] gg[j],
                    h - 2,
                    child_lo(kk, jlo, j),
                    child_hi(kk, jhi, j),
                ) && same_below(pages, pages2, gg[j], h - 2)
            &&& forall|j: int, q: PageId|
                0 <= j < gg.len() && #[trigger] in_subtree(pages, gg[j], h - 2, q) ==> pages.contains_key(q)
                    && q != p && q != x && q != y && (j < children_of(pages[x]).len() ==> in_subtree(
                    pages,
                    x,
                    h - 1,
                    q,
                )) && (j >= children_of(pages[x]).len() ==> in_subtree(pages, y, h - 1, q))
        }),
{
    lemma_siblings(pages, pages2, p, h, lo, hi, a);
    lemma_joined_internal_keys(pages, pages2, p, h, lo, hi, a);
    let ks = pages[p].key_seq();
    let cs = children_of(pages[p]);
    let s = ks[a];
    let x = cs[a];
    let y = cs[a + 1];
    let kx = pages[x].key_seq();
    let ky = pages[y].key_seq();
    let gx = children_of(pages[x]);
    let gy = children_of(pages[y]);
    let jlo = joined_lo(pages, p, lo, a);
    let jhi = joined_hi(pages, p, hi, a);
    let kk = joined_keys(pages, p, a);
    let gg = joined_children(pages, p, a);
    let changed = set![p, x, y];
    assert forall|q: PageId|
        pages.contains_key(q) && !changed.contains(q) implies #[trigger] pages2.contains_key(q)
        && pages2[q] == pages[q] by {}
    assert forall|j: int| 0 <= j < gg.len() implies {
        &&& wf_subtree(pages2, #[trigger] gg[j], h - 2, child_lo(kk, jlo, j), child_hi(kk, jhi, j))
        &&& same_below(pages, pages2, gg[j], h - 2)
        &&& forall|q: PageId| #[trigger] in_subtree(pages, gg[j], h - 2, q) ==> pages.contains_key(q)
            && q != p && q != x && q != y && (j < gx.len() ==> in_subtree(pages, x, h - 1, q)) && (j
            >= gx.len() ==> in_subtree(pages, y, h - 1, q))
    } by {
        if j < gx.len() {
            assert(gg[j] == gx[j]);
            assert(child_lo(kk, jlo, j) == child_lo(kx, jlo, j));
            assert(child_hi(kk, jhi, j) == child_hi(kx, Some(s), j));
            assert forall|q: PageId| changed.contains(q) implies !#[trigger] in_subtree(
                pages,
                children_of(pages[x])[j],
                h - 2,
                q,
            ) by {
                if in_subtree(pages, gx[j], h - 2, q) {
                    lemma_child_in_subtree(pages, x, h - 1, j, q);
                }
            }
            lemma_unchanged_child(pages, pages2, x, h - 1, jlo, Some(s), j, changed);
            assert forall|q: PageId| #[trigger] in_subtree(pages, gg[j], h - 2, q) implies in_subtree(
                pages,
                x,
                h - 1,
                q,
            ) by {
                lemma_child_in_subtree(pages, x, h - 1, j, q);
            }
        } else {
            let j2 = j - gx.len();
            assert(gg[j] == gy[j2]);
            assert(child_lo(kk, jlo, j) == child_lo(ky, Some(s), j2));
            assert(child_hi(kk, jhi, j) == child_hi(ky, jhi, j2));
            assert forall|q: PageId| changed.contains(q) implies !#[trigger] in_subtree(
                pages,
                children_of(pages[y])[j2],
                h - 2,
                q,
            ) by {
                if in_subtree(pages, gy[j2], h - 2, q) {
                    lemma_child_in_subtree(pages, y, h - 1, j2, q);
                    assert(in_subtree(pages, x, h - 1, x));
                }
            }
            lemma_unchanged_child(pages, pages2, y, h - 1, Some(s), jhi, j2, changed);
            assert forall|q: PageId| #[trigger] in_subtree(pages, gg[j], h - 2, q) implies in_subtree(
                pages,
                y,
                h - 1,
                q,
            ) by {
                lemma_child_in_subtree(pages, y, h - 1, j2, q);
            }
        }
    }
}

/// Two internal children of a well-formed node meet `joined_ok`.
pub proof fn lemma_joined_internal(
    pages: Map<PageId, BTreeNode>,
    pages2: Map<PageId, BTreeNode>,
    p: PageId,
    h: int,
    lo: Option<Seq<u8>>,
    hi: Option<Seq<u8>>,
    a: int,
)
    requires
        siblings_in(pages, pages2, p, h, lo, hi, a),
        h > 1,
    ensures
        joined_ok(pages, pages2, p, h, lo, hi, a),
{
    lemma_siblings(pages, pages2, p, h, lo, hi, a);
    lemma_joined_internal_keys(pages, pages2, p, h, lo, hi, a);
    lemma_joined_internal_children(pages, pages2, p, h, lo, hi, a);
    let ks = pages[p].key_seq();
    let cs = children_of(pages[p]);
    let s = ks[a];
    let x = cs[a];
    let y = cs[a + 1];
    let kx = pages[x].key_seq();
    let ky = pages[y].key_seq();
    let gx = children_of(pages[x]);
    let gy = children_of(pages[y]);
    let jlo = joined_lo(pages, p, lo, a);
    let jhi = joined_hi(pages, p, hi, a);
    let kk = joined_keys(pages, p, a);
    let gg = joined_children(pages, p, a);
    assert forall|j1: int, j2: int, q: PageId|
        0 <= j1 < gg.len() && 0 <= j2 < gg.len() && j1 != j2 && #[trigger] in_subtree(
            pages,
            gg[j1],
            h - 2,
            q,
        ) implies !#[trigger] in_subtree(pages, gg[j2], h - 2, q) by {
        if in_subtree(pages, gg[j2], h - 2, q) {
            if j1 < gx.len() && j2 < gx.len() {
                assert(gg[j1] == gx[j1] && gg[j2] == gx[j2]);
                assert(wf_subtree(pages, x, h - 1, jlo, Some(s)));
            } else if j1 >= gx.len() && j2 >= gx.len() {
                assert(gg[j1] == gy[j1 - gx.len()] && gg[j2] == gy[j2 - gx.len()]);
                assert(wf_subtree(pages, y, h - 1, Some(s), jhi));
            } else {
                assert(in_subtree(pages, x, h - 1, q) && in_subtree(pages, y, h - 1, q));
            }
        }
    }
    assert forall|k: Seq<u8>| (route(ks, k) == a || route(ks, k) == a + 1) implies #[trigger] lookup(
        pages,
        p,
        h,
        k,
    ) == lookup(pages, gg[route(kk, k)], h - 2, k) by {
        lemma_route(ks, k);
        assert forall|i: int| 0 <= i < kx.len() implies key_lt(#[trigger] kx[i], s) by {
            assert(below(pages[x].key_seq()[i], Some(s)));
        }
        assert forall|i: int| 0 <= i < ky.len() implies key_lt(s, #[trigger] ky[i]) by {
            assert(in_range(pages[y].key_seq()[i], Some(s), jhi));
        }
        lemma_route_concat(kx, s, ky, k);
        lemma_route(kx, k);
        lemma_route(ky, k);
        assert(kk == kx.push(s) + ky);
        if route(ks, k) == a {
            assert(lookup(pages, p, h, k) == lookup(pages, x, h - 1, k));
            assert(!key_lt(s, k));
            assert(gg[route(kx, k)] == gx[route(kx, k)]);
            assert(lookup(pages, x, h - 1, k) == lookup(pages, gx[route(kx, k)], h - 2, k));
        } else {
            assert(lookup(pages, p, h, k) == lookup(pages, y, h - 1, k));
            assert(key_lt(s, k));
            assert(gg[kx.len() + 1 + route(ky, k)] == gy[route(ky, k)]);
            assert(lookup(pages, y, h - 1, k) == lookup(pages, gy[route(ky, k)], h - 2, k));
        }
    }
}

/// An internal node at `z`, one of the two children, holding the stretch of the joined run
/// from key `u` to key `v` and the children from `u` to `v + 1`: a well-formed tree within
/// the bounds that the run gives the stretch, whose pages are `z` and those below the
/// children of the stretch, and that finds each key routed into the stretch where the run
/// does.
#[verifier::spinoff_prover]
#[verifier::rlimit(40)]
pub proof fn lemma_joined_slice(
    pages: Map<PageId, BTreeNode>,
    pages2: Map<PageId, BTreeNode>,
    p: PageId,
    h: int,
    lo: Option<Seq<u8>>,
    hi: Option<Seq<u8>>,
    a: int,
    z: PageId,
    u: int,
    v: int,
)
    requires
        joined_ok(pages, pages2, p, h, lo, hi, a),
        h > 1,
        z == children_of(pages[p])[a] || z == children_of(pages[p])[a + 1],
        0 <= u <= v <= joined_keys(pages, p, a).len(),
        pages2.contains_key(z),
        internal_holds(
            pages2[z],
            joined_keys(pages, p, a).subrange(u, v),
            joined_children(pages, p, a).subrange(u, v + 1),
        ),
    ensures
        ({
            let kk = joined_keys(pages, p, a);
            let gg = joined_children(pages, p, a);
            let jlo = joined_lo(pages, p, lo, a);
            let jhi = joined_hi(pages, p, hi, a);
            &&& wf_subtree(pages2, z, h - 1, child_lo(kk, jlo, u), child_hi(kk, jhi, v))
            &&& forall|q: PageId|
                #[trigger] in_subtree(pages2, z, h - 1, q) ==> q == z || exists|j: int|
                    u <= j <= v && #[trigger] in_subtree(pages, gg[j], h - 2, q)
            &&& forall|k: Seq<u8>|
                u <= route(kk, k) <= v ==> #[trigger] lookup(pages2, z, h - 1, k) == lookup(
                    pages,
                    gg[route(kk, k)],
                    h - 2,
                    k,
                )
        }),
{
    let kk = joined_keys(pages, p, a);
    let gg = joined_children(pages, p, a);
    let jlo = joined_lo(pages, p, lo, a);
    let jhi = joined_hi(pages, p, hi, a);
    let ksub = kk.subrange(u, v);
    let gsub = gg.subrange(u, v + 1);
    let zlo = child_lo(kk, jlo, u);
    let zhi = child_hi(kk, jhi, v);
    let n2 = pages2[z];
    crate::btree::key_order::lemma_sorted_subrange(kk, u, v);
    assert(n2.key_seq() == ksub);
    assert(children_of(n2) == gsub);
    assert forall|t: int| 0 <= t < ksub.len() implies in_range(#[trigger] ksub[t], zlo, zhi) && below(
        ksub[t],
        zhi,
    ) by {
        assert(ksub[t] == kk[u + t]);
        assert(in_range(kk[u + t], jlo, jhi) && below(kk[u + t], jhi));
        if u > 0 {
            assert(key_lt(kk[u - 1], kk[u + t]));
        }
        if v < kk.len() {
            assert(key_lt(kk[u + t], kk[v]));
        }
    }
    assert(n2->Internal_0.keys@.len() == ksub.len());
    assert forall|i: int| 0 <= i < n2->Internal_0.keys@.len() implies below(#[trigger] n2.key_seq()[i], zhi) by {
        assert(n2.key_seq()[i] == ksub[i]);
    }
    assert forall|j: int| 0 <= j < gsub.len() implies {
        &&& wf_subtree(pages2, #[trigger] gsub[j], h - 2, child_lo(ksub, zlo, j), child_hi(ksub, zhi, j))
        &&& same_below(pages, pages2, gsub[j], h - 2)
    } by {
        assert(gsub[j] == gg[u + j]);
        assert(wf_subtree(pages2, gg[u + j], h - 2, child_lo(kk, jlo, u + j), child_hi(kk, jhi, u + j)));
        if j > 0 {
            assert(ksub[j - 1] == kk[u + j - 1]);
        }
        if j < ksub.len() {
            assert(ksub[j] == kk[u + j]);
        }
        assert(child_lo(ksub, zlo, j) == child_lo(kk, jlo, u + j));
        assert(child_hi(ksub, zhi, j) == child_hi(kk, jhi, u + j));
    }
    assert(wf_subtree(pages2, z, h - 1, zlo, zhi)) by {
        assert forall|j1: int, j2: int, q: PageId|
            0 <= j1 < gsub.len() && 0 <= j2 < gsub.len() && j1 != j2 && #[trigger] in_subtree(
                pages2,
                gsub[j1],
                h - 2,
                q,
            ) implies !#[trigger] in_subtree(pages2, gsub[j2], h - 2, q) by {
            assert(gsub[j1] == gg[u + j1] && gsub[j2] == gg[u + j2]);
            assert(same_below(pages, pages2, gg[u + j1], h - 2));
            assert(same_below(pages, pages2, gg[u + j2], h - 2));
        }
        assert forall|j: int| 0 <= j < gsub.len() implies !in_subtree(pages2, #[trigger] gsub[j], h - 2, z) by {
            assert(gsub[j] == gg[u + j]);
            assert(same_below(pages, pages2, gg[u + j], h - 2));
        }
    }
    assert forall|q: PageId| #[trigger] in_subtree(pages2, z, h - 1, q) implies q == z || exists|j: int|
        u <= j <= v && #[trigger] in_subtree(pages, gg[j], h - 2, q) by {
        if q != z {
            let j = choose|j: int| 0 <= j < gsub.len() && in_subtree(pages2, #[trigger] gsub[j], h - 2, q);
            assert(gsub[j] == gg[u + j]);
            assert(same_below(pages, pages2, gg[u + j], h - 2));
            assert(in_subtree(pages, gg[u + j], h - 2, q));
        }
    }
    assert forall|k: Seq<u8>| u <= route(kk, k) <= v implies #[trigger] lookup(pages2, z, h - 1, k)
        == lookup(pages, gg[route(kk, k)], h - 2, k) by {
        crate::btree::key_order::lemma_route_slice(kk, u, v, k);
        let r = route(kk, k);
        assert(gsub[r - u] == gg[r]);
        assert(lookup(pages2, z, h - 1, k) == lookup(pages2, gsub[r - u], h - 2, k));
        assert(same_below(pages, pages2, gg[r], h - 2));
    }
}

/// What the joined run of two leaf children gives: sorted keys within the bounds of the
/// two, a value for each, and every key that `p` routes to one of the two found in it.
pub open spec fn joined_leaf_ok(
    pages: Map<PageId, BTreeNode>,
    p: PageId,
    h: int,
    lo: Option<Seq<u8>>,
    hi: Option<Seq<u8>>,
    a: int,
) -> bool {
    let ks = pages[p].key_seq();
    let cs = children_of(pages[p]);
    let kk = joined_keys(pages, p, a);
    let vv = joined_values(pages, p, a);
    let jlo = joined_lo(pages, p, lo, a);
    let jhi = joined_hi(pages, p, hi, a);
    &&& sorted_keys(kk)
    &&& forall|i: int| 0 <= i < kk.len() ==> in_range(#[trigger] kk[i], jlo, jhi)
    &&& kk.len() == vv.len()
    &&& cs[a] != cs[a + 1]
    &&& forall|k: Seq<u8>|
        (route(ks, k) == a || route(ks, k) == a + 1) ==> #[trigger] lookup(pages, p, h, k) == find_value(
            kk,
            vv,
            k,
        )
}

/// Two leaf children of a well-formed node meet `joined_leaf_ok`.
pub proof fn lemma_joined_leaf(
    pages: Map<PageId, BTreeNode>,
    pages2: Map<PageId, BTreeNode>,
    p: PageId,
    h: int,
    lo: Option<Seq<u8>>,
    hi: Option<Seq<u8>>,
    a: int,
)
    requires
        siblings_in(pages, pages2, p, h, lo, hi, a),
        h == 1,
    ensures
        joined_leaf_ok(pages, p, h, lo, hi, a),
{
    lemma_siblings(pages, pages2, p, h, lo, hi, a);
    let ks = pages[p].key_seq();
    let cs = children_of(pages[p]);
    let s = ks[a];
    let x = cs[a];
    let y = cs[a + 1];
    let kx = pages[x].key_seq();
    let ky = pages[y].key_seq();
    let vx = pages[x]->Leaf_0.value_seq();
    let vy = pages[y]->Leaf_0.value_seq();
    let jlo = joined_lo(pages, p, lo, a);
    let jhi = joined_hi(pages, p, hi, a);
    let kk = joined_keys(pages, p, a);
    let vv = joined_values(pages, p, a);
    assert(kk == kx + ky);
    assert forall|i: int| 0 <= i < kx.len() implies !key_lt(s, #[trigger] kx[i]) && in_range(kx[i], jlo, jhi) by {
        assert(in_range(pages[x].key_seq()[i], jlo, Some(s)));
    }
    assert forall|i: int| 0 <= i < ky.len() implies key_lt(s, #[trigger] ky[i]) && in_range(ky[i], jlo, jhi) by {
        assert(in_range(pages[y].key_seq()[i], Some(s), jhi));
    }
    assert(sorted_keys(kk)) by {
        assert forall|i: int, j: int| 0 <= i < j < kk.len() implies #[trigger] key_lt(kk[i], kk[j]) by {
            if j < kx.len() {
                assert(kk[i] == kx[i] && kk[j] == kx[j]);
            } else if i >= kx.len() {
                assert(kk[i] == ky[i - kx.len()] && kk[j] == ky[j - kx.len()]);
            } else {
                assert(kk[i] == kx[i] && kk[j] == ky[j - kx.len()]);
            }
        }
    }
    assert forall|i: int| 0 <= i < kk.len() implies in_range(#[trigger] kk[i], jlo, jhi) by {
        if i < kx.len() {
            assert(kk[i] == kx[i]);
        } else {
            assert(kk[i] == ky[i - kx.len()]);
        }
    }
    assert forall|k: Seq<u8>| (route(ks, k) == a || route(ks, k) == a + 1) implies #[trigger] lookup(
        pages,
        p,
        h,
        k,
    ) == find_value(kk, vv, k) by {
        lemma_route(ks, k);
        if route(ks, k) == a {
            assert(lookup(pages, p, h, k) == lookup(pages, x, 0, k));
            assert forall|t: int| 0 <= t < kk.len() && kk[t] == k implies 0 <= t < kx.len() by {
                if t >= kx.len() {
                    assert(kk[t] == ky[t - kx.len()]);
                }
            }
            lemma_find_value_subrange(kk, vv, 0, kx.len() as int, k);
            assert(kk.subrange(0, kx.len() as int) =~= kx);
            assert(vv.subrange(0, kx.len() as int) =~= vx);
        } else {
            assert(lookup(pages, p, h, k) == lookup(pages, y, 0, k));
            assert forall|t: int| 0 <= t < kk.len() && kk[t] == k implies kx.len() <= t < kk.len() by {
                if t < kx.len() {
                    assert(kk[t] == kx[t]);
                }
            }
            lemma_find_value_subrange(kk, vv, kx.len() as int, kk.len() as int, k);
            assert(kk.subrange(kx.len() as int, kk.len() as int) =~= ky);
            assert(vv.subrange(kx.len() as int, kk.len() as int) =~= vy);
        }
    }
}

/// The lower bound of a leaf holding the joined run from `u` on.
pub open spec fn leaf_slice_lo(kk: Seq<Seq<u8>>, jlo: Option<Seq<u8>>, u: int) -> Option<Seq<u8>> {
    if u == 0 {
        jlo
    } else {
        Some(kk[u - 1])
    }
}

/// The upper bound of a leaf holding the joined run up to `v`.
pub open spec fn leaf_slice_hi(kk: Seq<Seq<u8>>, jhi: Option<Seq<u8>>, v: int) -> Option<Seq<u8>> {
    if v == kk.len() {
        jhi
    } else {
        Some(kk[v - 1])
    }
}

/// A leaf at `z`, one of the two children, holding the stretch of the joined run from `u`
/// to `v`: a well-formed tree within the bounds of the stretch that finds every key all of
/// whose places in the run lie within the stretch.
pub proof fn lemma_joined_leaf_slice(
    pages: Map<PageId, BTreeNode>,
    pages2: Map<PageId, BTreeNode>,
    p: PageId,
    h: int,
    lo: Option<Seq<u8>>,
    hi: Option<Seq<u8>>,
    a: int,
    z: PageId,
    u: int,
    v: int,
)
    requires
        joined_leaf_ok(pages, p, h, lo, hi, a),
        0 <= u <= v <= joined_keys(pages, p, a).len(),
        v < joined_keys(pages, p, a).len() ==> v > 0,
        pages2.contains_key(z),
        leaf_holds(
            pages2[z],
            joined_keys(pages, p, a).subrange(u, v),
            joined_values(pages, p, a).subrange(u, v),
        ),
    ensures
        ({
            let kk = joined_keys(pages, p, a);
            let vv = joined_values(pages, p, a);
            let jlo = joined_lo(pages, p, lo, a);
            let jhi = joined_hi(pages, p, hi, a);
            &&& wf_subtree(pages2, z, 0, leaf_slice_lo(kk, jlo, u), leaf_slice_hi(kk, jhi, v))
            &&& forall|q: PageId| #[trigger] in_subtree(pages2, z, 0, q) ==> q == z
            &&& forall|k: Seq<u8>|
                (forall|t: int| 0 <= t < kk.len() && kk[t] == k ==> u <= t < v) ==> #[trigger] lookup(
                    pages2,
                    z,
                    0,
                    k,
                ) == find_value(kk, vv, k)
        }),
{
    let kk = joined_keys(pages, p, a);
    let vv = joined_values(pages, p, a);
    let jlo = joined_lo(pages, p, lo, a);
    let jhi = joined_hi(pages, p, hi, a);
    let ksub = kk.subrange(u, v);
    let zlo = leaf_slice_lo(kk, jlo, u);
    let zhi = leaf_slice_hi(kk, jhi, v);
    crate::btree::key_order::lemma_sorted_subrange(kk, u, v);
    assert forall|t: int| 0 <= t < ksub.len() implies in_range(#[trigger] ksub[t], zlo, zhi) by {
        assert(ksub[t] == kk[u + t]);
        assert(in_range(kk[u + t], jlo, jhi));
        if u > 0 {
            assert(key_lt(kk[u - 1], kk[u + t]));
        }
        if v < kk.len() && u + t < v - 1 {
            assert(key_lt(kk[u + t], kk[v - 1]));
        }
    }
    assert(pages2[z].key_seq() == ksub);
    assert(wf_subtree(pages2, z, 0, zlo, zhi));
    assert forall|k: Seq<u8>| (forall|t: int| 0 <= t < kk.len() && kk[t] == k ==> u <= t < v) implies #[trigger] lookup(
        pages2,
        z,
        0,
        k,
    ) == find_value(kk, vv, k) by {
        lemma_find_value_subrange(kk, vv, u, v, k);
    }
}

/// The pages after merging children `a` and `a + 1` of `p` into the page of child `a`: that
/// page holds the joined run, the page of child `a + 1` is freed, the routing key between
/// them is gone from `p`, and every other page is as it was.
pub open spec fn merged_shape(
    pages: Map<PageId, BTreeNode>,
    pages2: Map<PageId, BTreeNode>,
    p: PageId,
    a: int,
) -> bool {
    let ks = pages[p].key_seq();
    let cs = children_of(pages[p]);
    let x = cs[a];
    let y = cs[a + 1];
    &&& pages2.dom() == pages.dom().remove(y)
    &&& forall|q: PageId|
        pages.contains_key(q) && q != p && q != x && q != y ==> #[trigger] pages2[q] == pages[q]
    &&& internal_holds(pages2[p], ks.remove(a), cs.remove(a + 1))
    &&& pages[x] is Internal ==> internal_holds(
        pages2[x],
        joined_keys(pages, p, a),
        joined_children(pages, p, a),
    )
    &&& pages[x] is Leaf ==> leaf_holds(
        pages2[x],
        joined_keys(pages, p, a),
        joined_values(pages, p, a),
    )
}

/// Children `a` and `a + 1` of `p` merged into the page of child `a`, with the page of
/// child `a + 1` freed and the routing key between them taken out of `p`, meet
/// `merge_premises`.
pub proof fn lemma_merge_premises(
    pages: Map<PageId, BTreeNode>,
    pages2: Map<PageId, BTreeNode>,
    p: PageId,
    h: int,
    lo: Option<Seq<u8>>,
    hi: Option<Seq<u8>>,
    a: int,
)
    requires
        wf_subtree(pages, p, h, lo, hi),
        h > 0,
        0 <= a,
        a + 1 < children_of(pages[p]).len(),
        merged_shape(pages, pages2, p, a),
    ensures
        merge_premises(pages, pages2, p, h, lo, hi, a),
{
    let ks = pages[p].key_seq();
    let cs = children_of(pages[p]);
    let x = cs[a];
    let y = cs[a + 1];
    let kk = joined_keys(pages, p, a);
    assert(siblings_in(pages, pages2, p, h, lo, hi, a));
    lemma_siblings(pages, pages2, p, h, lo, hi, a);
    assert(in_subtree(pages, x, h - 1, x));
    if h > 1 {
        assert(wf_subtree(pages, x, h - 1, child_lo(ks, lo, a), child_hi(ks, hi, a)));
        lemma_joined_internal(pages, pages2, p, h, lo, hi, a);
        assert(kk.subrange(0, kk.len() as int) =~= kk);
        assert(joined_children(pages, p, a).subrange(0, kk.len() as int + 1) =~= joined_children(pages, p, a));
        lemma_joined_slice(pages, pages2, p, h, lo, hi, a, x, 0, kk.len() as int);
        let gg = joined_children(pages, p, a);
        assert forall|q: PageId| #[trigger] in_subtree(pages2, x, h - 1, q) implies (in_subtree(
            pages,
            x,
            h - 1,
            q,
        ) || in_subtree(pages, y, h - 1, q)) && q != y by {
            if q != x {
                let j = choose|j: int| 0 <= j <= kk.len() && #[trigger] in_subtree(pages, gg[j], h - 2, q);
            }
        }
        assert forall|k: Seq<u8>| (route(ks, k) == a || route(ks, k) == a + 1) implies #[trigger] lookup(
            pages2,
            x,
            h - 1,
            k,
        ) == lookup(pages, p, h, k) by {
            lemma_route(kk, k);
        }
    } else {
        lemma_joined_leaf(pages, pages2, p, h, lo, hi, a);
        assert(kk.subrange(0, kk.len() as int) =~= kk);
        assert(joined_values(pages, p, a).subrange(0, kk.len() as int) =~= joined_values(pages, p, a));
        lemma_joined_leaf_slice(pages, pages2, p, h, lo, hi, a, x, 0, kk.len() as int);
        assert forall|k: Seq<u8>| (route(ks, k) == a || route(ks, k) == a + 1) implies #[trigger] lookup(
            pages2,
            x,
            h - 1,
            k,
        ) == lookup(pages, p, h, k) by {}
    }
}

/// The routing key that moving entries between children `a` and `a + 1` puts between
/// them when the joined run is cut at `i`.
pub open spec fn rotated_key(pages: Map<PageId, BTreeNode>, p: PageId, a: int, i: int) -> Seq<u8> {
    let kk = joined_keys(pages, p, a);
    if pages[children_of(pages[p])[a]] is Internal {
        kk[i]
    } else {
        kk[i - 1]
    }
}

/// The pages after cutting the joined run of children `a` and `a + 1` of `p` at `i`: child
/// `a` holds the run before the cut, child `a + 1` the run after it, the key at the cut is
/// the new routing key between them, and every other page is as it was.
pub open spec fn rotated_shape(
    pages: Map<PageId, BTreeNode>,
    pages2: Map<PageId, BTreeNode>,
    p: PageId,
    a: int,
    i: int,
) -> bool {
    let ks = pages[p].key_seq();
    let cs = children_of(pages[p]);
    let x = cs[a];
    let y = cs[a + 1];
    let kk = joined_keys(pages, p, a);
    let gg = joined_children(pages, p, a);
    let vv = joined_values(pages, p, a);
    let n = kk.len() as int;
    &&& pages2.dom() == pages.dom()
    &&& forall|q: PageId|
        pages.contains_key(q) && q != p && q != x && q != y ==> #[trigger] pages2[q] == pages[q]
    &&& internal_holds(pages2[p], ks.update(a, rotated_key(pages, p, a, i)), cs)
    &&& pages[x] is Internal ==> {
        &&& 0 <= i < n
        &&& internal_holds(pages2[x], kk.subrange(0, i), gg.subrange(0, i + 1))
        &&& internal_holds(pages2[y], kk.subrange(i + 1, n), gg.subrange(i + 1, n + 1))
    }
    &&& pages[x] is Leaf ==> {
        &&& 1 <= i < n
        &&& leaf_holds(pages2[x], kk.subrange(0, i), vv.subrange(0, i))
        &&& leaf_holds(pages2[y], kk.subrange(i, n), vv.subrange(i, n))
    }
}

/// Children `a` and `a + 1` of `p` rebuilt from the joined run cut at `i`, with the key at
/// the cut as their new routing key, meet `rotate_premises`. The new routing key is below
/// the old one when the cut lies within child `a`, and above it when it lies within child
/// `a + 1`.
pub proof fn lemma_rotate_premises(
    pages: Map<PageId, BTreeNode>,
    pages2: Map<PageId, BTreeNode>,
    p: PageId,
    h: int,
    lo: Option<Seq<u8>>,
    hi: Option<Seq<u8>>,
    a: int,
    i: int,
)
    requires
        wf_subtree(pages, p, h, lo, hi),
        h > 0,
        0 <= a,
        a + 1 < children_of(pages[p]).len(),
        rotated_shape(pages, pages2, p, a, i),
    ensures
        rotate_premises(pages, pages2, p, h, lo, hi, a, rotated_key(pages, p, a, i)),
        ({
            let s = pages[p].key_seq()[a];
            let s2 = rotated_key(pages, p, a, i);
            let nx = pages[children_of(pages[p])[a]].key_seq().len();
            &&& i < nx ==> key_lt(s2, s)
            &&& i > nx ==> key_lt(s, s2)
        }),
{
    let ks = pages[p].key_seq();
    let cs = children_of(pages[p]);
    let x = cs[a];
    let y = cs[a + 1];
    let s = ks[a];
    let kk = joined_keys(pages, p, a);
    let gg = joined_children(pages, p, a);
    let vv = joined_values(pages, p, a);
    let n = kk.len() as int;
    let s2 = rotated_key(pages, p, a, i);
    let kx = pages[x].key_seq();
    let ky = pages[y].key_seq();
    let jlo = joined_lo(pages, p, lo, a);
    let jhi = joined_hi(pages, p, hi, a);
    assert(siblings_in(pages, pages2, p, h, lo, hi, a));
    lemma_siblings(pages, pages2, p, h, lo, hi, a);
    assert(in_subtree(pages, x, h - 1, x));
    assert(in_subtree(pages, y, h - 1, y));
    if h > 1 {
        assert(wf_subtree(pages, x, h - 1, child_lo(ks, lo, a), child_hi(ks, hi, a)));
        lemma_joined_internal(pages, pages2, p, h, lo, hi, a);
        lemma_joined_slice(pages, pages2, p, h, lo, hi, a, x, 0, i);
        lemma_joined_slice(pages, pages2, p, h, lo, hi, a, y, i + 1, n);
        assert(s2 == kk[i]);
        assert(in_range(kk[i], jlo, jhi) && below(kk[i], jhi));
        assert(kk == kx.push(s) + ky);
        assert(kk[kx.len() as int] == s);
        if i < kx.len() {
            assert(key_lt(kk[i], kk[kx.len() as int]));
        }
        if i > kx.len() {
            assert(key_lt(kk[kx.len() as int], kk[i]));
        }
        assert forall|q: PageId| #[trigger] in_subtree(pages2, x, h - 1, q) implies in_subtree(
            pages,
            x,
            h - 1,
            q,
        ) || in_subtree(pages, y, h - 1, q) by {
            if q != x {
                let j = choose|j: int| 0 <= j <= i && #[trigger] in_subtree(pages, gg[j], h - 2, q);
            }
        }
        assert forall|q: PageId| #[trigger] in_subtree(pages2, y, h - 1, q) implies in_subtree(
            pages,
            x,
            h - 1,
            q,
        ) || in_subtree(pages, y, h - 1, q) by {
            if q != y {
                let j = choose|j: int| i + 1 <= j <= n && #[trigger] in_subtree(pages, gg[j], h - 2, q);
            }
        }
        assert forall|q: PageId| #[trigger] in_subtree(pages2, x, h - 1, q) implies !in_subtree(
            pages2,
            y,
            h - 1,
            q,
        ) by {
            if in_subtree(pages2, y, h - 1, q) {
                if q == x {
                    let j2 = choose|j: int| i + 1 <= j <= n && #[trigger] in_subtree(pages, gg[j], h - 2, q);
                } else if q == y {
                    let j1 = choose|j: int| 0 <= j <= i && #[trigger] in_subtree(pages, gg[j], h - 2, q);
                } else {
                    let j1 = choose|j: int| 0 <= j <= i && #[trigger] in_subtree(pages, gg[j], h - 2, q);
                    let j2 = choose|j: int| i + 1 <= j <= n && #[trigger] in_subtree(pages, gg[j], h - 2, q);
                    assert(j1 != j2);
                }
            }
        }
        assert forall|k: Seq<u8>|
            (route(ks, k) == a || route(ks, k) == a + 1) && !key_lt(s2, k) implies #[trigger] lookup(
            pages2,
            x,
            h - 1,
            k,
        ) == lookup(pages, p, h, k) by {
            lemma_route(kk, k);
        }
        assert forall|k: Seq<u8>|
            (route(ks, k) == a || route(ks, k) == a + 1) && key_lt(s2, k) implies #[trigger] lookup(
            pages2,
            y,
            h - 1,
            k,
        ) == lookup(pages, p, h, k) by {
            lemma_route(kk, k);
        }
    } else {
        lemma_joined_leaf(pages, pages2, p, h, lo, hi, a);
        lemma_joined_leaf_slice(pages, pages2, p, h, lo, hi, a, x, 0, i);
        lemma_joined_leaf_slice(pages, pages2, p, h, lo, hi, a, y, i, n);
        assert(s2 == kk[i - 1]);
        assert(in_range(kk[i - 1], jlo, jhi));
        assert(key_lt(kk[i - 1], kk[n - 1]));
        assert(in_range(kk[n - 1], jlo, jhi));
        assert(kk == kx + ky);
        if i < kx.len() {
            assert(kk[i - 1] == kx[i - 1]);
            assert(key_lt(kx[i - 1], kx[kx.len() - 1]));
            assert(in_range(pages[x].key_seq()[kx.len() - 1], jlo, Some(s)));
        }
        if i > kx.len() {
            assert(kk[i - 1] == ky[i - 1 - kx.len()]);
            assert(in_range(pages[y].key_seq()[i - 1 - kx.len()], Some(s), jhi));
        }
        assert forall|k: Seq<u8>|
            (route(ks, k) == a || route(ks, k) == a + 1) && !key_lt(s2, k) implies #[trigger] lookup(
            pages2,
            x,
            h - 1,
            k,
        ) == lookup(pages, p, h, k) by {
            assert forall|t: int| 0 <= t < kk.len() && kk[t] == k implies 0 <= t < i by {
                if t >= i {
                    assert(key_lt(kk[i - 1], kk[t]));
                }
            }
        }
        assert forall|k: Seq<u8>|
            (route(ks, k) == a || route(ks, k) == a + 1) && key_lt(s2, k) implies #[trigger] lookup(
            pages2,
            y,
            h - 1,
            k,
        ) == lookup(pages, p, h, k) by {
            assert forall|t: int| 0 <= t < kk.len() && kk[t] == k implies i <= t < n by {
                if t < i - 1 {
                    assert(key_lt(kk[t], kk[i - 1]));
                }
            }
        }
    }
}

} // verus!
