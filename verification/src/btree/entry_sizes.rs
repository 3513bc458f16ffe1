//! Bounds on what single keys and values count for. A node that holds at most one key
//! never needs splitting for an entry within a bound small enough for the fat limit, and
//! splitting, merging and moving entries only move keys and values around, so a tree
//! whose entries are all within a bound stays so.
use vstd::prelude::*;

use crate::btree::btree_node::BTreeNode;
use crate::btree::common::PageId;
use crate::btree::set::{internal_split_shape, leaf_split_shape, would_overflow};
use crate::btree::sibling_lemmas::{joined_keys, joined_values, merged_shape, rotated_key, rotated_shape};
use crate::btree::traits::{bytes_size, lemma_sum_sizes_singleton, lemma_wrap16_idem, sum_sizes};
use crate::btree::tree_spec::children_of;

verus! {

/// Every byte string of `s` counts for at most `b` bytes.
pub open spec fn seq_within(s: Seq<Seq<u8>>, b: int) -> bool {
    forall|i: int| 0 <= i < s.len() ==> bytes_size(#[trigger] s[i].len()) <= b
}

/// Every key of `n`, and every value when `n` is a leaf, counts for at most `b` bytes.
pub open spec fn node_within(n: BTreeNode, b: int) -> bool {
    &&& seq_within(n.key_seq(), b)
    &&& n is Leaf ==> seq_within(n->Leaf_0.value_seq(), b)
}

/// Every node in `pages` is within `b`.
pub open spec fn pages_within(pages: Map<PageId, BTreeNode>, b: int) -> bool {
    forall|q: PageId| #[trigger] pages.contains_key(q) ==> node_within(pages[q], b)
}

/// Whatever bound covers every key and value of `pages` and the entry of `key` and
/// `value` covers every key and value of `pages2`.
pub open spec fn grows_within(
    pages: Map<PageId, BTreeNode>,
    pages2: Map<PageId, BTreeNode>,
    key: Seq<u8>,
    value: Seq<u8>,
) -> bool {
    forall|b: int|
        #![trigger pages_within(pages2, b)]
        pages_within(pages, b) && bytes_size(key.len()) <= b && bytes_size(value.len()) <= b
            ==> pages_within(pages2, b)
}

/// Whatever bound covers every key and value of `pages` covers those of `pages2`.
pub open spec fn stays_within(pages: Map<PageId, BTreeNode>, pages2: Map<PageId, BTreeNode>) -> bool {
    forall|b: int| #![trigger pages_within(pages2, b)] pages_within(pages, b) ==> pages_within(pages2, b)
}

/// The key and the value count for at most `b` bytes each, and four entries that big with
/// a node's header fit within `fat`.
pub open spec fn entry_fits(key: Seq<u8>, value: Seq<u8>, b: int, fat: u16) -> bool {
    &&& bytes_size(key.len()) <= b
    &&& bytes_size(value.len()) <= b
    &&& 4 * b + 40 <= fat
}

/// Some bound covers every key and value of `pages` and the entry of `key` and `value`,
/// and is small enough for `fat`.
pub open spec fn entries_small(pages: Map<PageId, BTreeNode>, key: Seq<u8>, value: Seq<u8>, fat: u16) -> bool {
    exists|b: int| pages_within(pages, b) && #[trigger] entry_fits(key, value, b, fat)
}

/// A node that holds at most one key, all within `b`, never needs splitting for an entry
/// that fits `b` and `fat`.
pub proof fn lemma_small_node_fits(n: BTreeNode, key: Seq<u8>, value: Seq<u8>, b: int, fat: u16)
    requires
        n.sizes_ok(),
        node_within(n, b),
        entry_fits(key, value, b, fat),
        n.key_seq().len() <= 1,
        n is Leaf ==> n->Leaf_0.paired(),
        n is Internal ==> children_of(n).len() == n.key_seq().len() + 1,
    ensures
        !would_overflow(n, key, value, fat),
{
    let ks = n.key_seq();
    assert(0 <= sum_sizes(ks) <= b) by {
        if ks.len() == 1 {
            assert(ks =~= seq![ks[0]]);
            lemma_sum_sizes_singleton(ks[0]);
        } else {
            assert(ks =~= Seq::<Seq<u8>>::empty());
        }
    }
    lemma_wrap16_idem(sum_sizes(ks));
    let total = n.header().spec_total_size();
    let bk = bytes_size(key.len());
    let bv = bytes_size(value.len());
    match n {
        BTreeNode::Leaf(l) => {
            let vs = l.value_seq();
            assert(0 <= sum_sizes(vs) <= b) by {
                if vs.len() == 1 {
                    assert(vs =~= seq![vs[0]]);
                    lemma_sum_sizes_singleton(vs[0]);
                } else {
                    assert(vs =~= Seq::<Seq<u8>>::empty());
                }
            }
            lemma_wrap16_idem(sum_sizes(vs));
            lemma_wrap16_idem(sum_sizes(vs) + sum_sizes(ks) + 16);
            assert(total <= 2 * b + 16);
            lemma_wrap16_idem(total + bk + bv);
            match l.spec_get(key) {
                Some(old) => {
                    let bo = bytes_size(old.len());
                    if bv > bo {
                        lemma_wrap16_idem(total + bv - bo);
                    }
                },
                None => {},
            }
        },
        BTreeNode::Internal(m) => {
            let items = 8 * (m.children@.len() as int);
            lemma_wrap16_idem(items);
            lemma_wrap16_idem(items + sum_sizes(ks) + 16);
            assert(total <= b + 32);
            lemma_wrap16_idem(total + bk + 8);
        },
    }
}

/// A stretch of byte strings within `b` is within `b`.
pub proof fn lemma_subrange_within(s: Seq<Seq<u8>>, b: int, lo: int, hi: int)
    requires
        seq_within(s, b),
        0 <= lo <= hi <= s.len(),
    ensures
        seq_within(s.subrange(lo, hi), b),
{
    assert forall|i: int| 0 <= i < hi - lo implies bytes_size(#[trigger] s.subrange(lo, hi)[i].len()) <= b by {
        assert(s.subrange(lo, hi)[i] == s[i + lo]);
    }
}


/// Inserting or replacing a byte string within `b`, or removing one, keeps a sequence
/// within `b`.
pub proof fn lemma_seq_within_edit(s: Seq<Seq<u8>>, i: int, x: Seq<u8>, b: int)
    requires
        seq_within(s, b),
        bytes_size(x.len()) <= b,
    ensures
        0 <= i <= s.len() ==> seq_within(s.insert(i, x), b),
        0 <= i < s.len() ==> seq_within(s.update(i, x), b),
        0 <= i < s.len() ==> seq_within(s.remove(i), b),
{
    if 0 <= i <= s.len() {
        let t = s.insert(i, x);
        assert forall|j: int| 0 <= j < t.len() implies bytes_size(#[trigger] t[j].len()) <= b by {
            if j < i {
                assert(t[j] == s[j]);
            } else if j > i {
                assert(t[j] == s[j - 1]);
            }
        }
    }
    if 0 <= i < s.len() {
        let t = s.update(i, x);
        assert forall|j: int| 0 <= j < t.len() implies bytes_size(#[trigger] t[j].len()) <= b by {
            if j != i {
                assert(t[j] == s[j]);
            }
        }
        let t2 = s.remove(i);
        assert forall|j: int| 0 <= j < t2.len() implies bytes_size(#[trigger] t2[j].len()) <= b by {
            if j < i {
                assert(t2[j] == s[j]);
            } else {
                assert(t2[j] == s[j + 1]);
            }
        }
    }
}


/// The keys of two neighbouring children with the routing key between them, and the
/// values of two neighbouring leaves, are within any bound that covers the three nodes.
pub proof fn lemma_joined_within(pages: Map<PageId, BTreeNode>, p: PageId, a: int, b: int)
    requires
        pages_within(pages, b),
        pages.contains_key(p),
        0 <= a < pages[p].key_seq().len(),
        a + 1 < children_of(pages[p]).len(),
        pages.contains_key(children_of(pages[p])[a]),
        pages.contains_key(children_of(pages[p])[a + 1]),
    ensures
        seq_within(joined_keys(pages, p, a), b),
        pages[children_of(pages[p])[a]] is Leaf && pages[children_of(pages[p])[a + 1]] is Leaf
            ==> seq_within(joined_values(pages, p, a), b),
{
    let cs = children_of(pages[p]);
    let x = pages[cs[a]];
    let y = pages[cs[a + 1]];
    assert(node_within(pages[p], b));
    assert(node_within(x, b));
    assert(node_within(y, b));
    let kk = joined_keys(pages, p, a);
    assert forall|i: int| 0 <= i < kk.len() implies bytes_size(#[trigger] kk[i].len()) <= b by {
        let nx = x.key_seq().len() as int;
        if x is Internal {
            if i < nx {
                assert(kk[i] == x.key_seq()[i]);
            } else if i == nx {
                assert(kk[i] == pages[p].key_seq()[a]);
            } else {
                assert(kk[i] == y.key_seq()[i - nx - 1]);
            }
        } else {
            if i < nx {
                assert(kk[i] == x.key_seq()[i]);
            } else {
                assert(kk[i] == y.key_seq()[i - nx]);
            }
        }
    }
    if x is Leaf && y is Leaf {
        let vv = joined_values(pages, p, a);
        let nv = x->Leaf_0.value_seq().len() as int;
        assert forall|i: int| 0 <= i < vv.len() implies bytes_size(#[trigger] vv[i].len()) <= b by {
            if i < nv {
                assert(vv[i] == x->Leaf_0.value_seq()[i]);
            } else {
                assert(vv[i] == y->Leaf_0.value_seq()[i - nv]);
            }
        }
    }
}

/// Moving entries between two neighbouring children keeps every key and value within
/// the bounds that covered them.
pub proof fn lemma_rotated_within(pages: Map<PageId, BTreeNode>, pages2: Map<PageId, BTreeNode>, p: PageId, a: int, i: int)
    requires
        rotated_shape(pages, pages2, p, a, i),
        pages[children_of(pages[p])[a]] is Leaf ==> pages[children_of(pages[p])[a]]->Leaf_0.paired()
            && pages[children_of(pages[p])[a + 1]]->Leaf_0.paired(),
        pages.contains_key(p),
        0 <= a < pages[p].key_seq().len(),
        a + 1 < children_of(pages[p]).len(),
        pages.contains_key(children_of(pages[p])[a]),
        pages.contains_key(children_of(pages[p])[a + 1]),
        pages[children_of(pages[p])[a]] is Internal <==> pages[children_of(pages[p])[a + 1]] is Internal,
    ensures
        stays_within(pages, pages2),
{
    let cs = children_of(pages[p]);
    let ks = pages[p].key_seq();
    let kk = joined_keys(pages, p, a);
    let n = kk.len() as int;
    assert forall|b: int| pages_within(pages, b) implies #[trigger] pages_within(pages2, b) by {
        lemma_joined_within(pages, p, a, b);
        let s2 = rotated_key(pages, p, a, i);
        assert(bytes_size(s2.len()) <= b);
        assert(node_within(pages[p], b));
        assert forall|q: PageId| #[trigger] pages2.contains_key(q) implies node_within(pages2[q], b) by {
            if q == p {
                let k2 = ks.update(a, s2);
                assert forall|t: int| 0 <= t < k2.len() implies bytes_size(#[trigger] k2[t].len()) <= b by {
                    if t != a {
                        assert(k2[t] == ks[t]);
                    }
                }
            } else if q == cs[a] || q == cs[a + 1] {
                let vv = joined_values(pages, p, a);
                if pages[cs[a]] is Leaf {
                    let xl = pages[cs[a]]->Leaf_0;
                    let yl = pages[cs[a + 1]]->Leaf_0;
                    crate::btree::key_order::lemma_keys_view_edits(xl.values@, 0, vstd::pervasive::arbitrary(), yl.values@);
                    crate::btree::key_order::lemma_keys_view_edits(xl.keys@, 0, vstd::pervasive::arbitrary(), yl.keys@);
                    crate::btree::key_order::lemma_keys_view_edits(yl.values@, 0, vstd::pervasive::arbitrary(), yl.values@);
                    crate::btree::key_order::lemma_keys_view_edits(yl.keys@, 0, vstd::pervasive::arbitrary(), yl.keys@);
                    assert(vv.len() == n);
                }
                lemma_subrange_within(kk, b, 0, i);
                lemma_subrange_within(kk, b, i + 1, n);
                if pages[cs[a]] is Leaf {
                    lemma_subrange_within(kk, b, i, n);
                    lemma_subrange_within(vv, b, 0, i);
                    lemma_subrange_within(vv, b, i, n);
                }
            } else {
                assert(pages.contains_key(q));
            }
        }
    }
}

/// Merging two neighbouring children keeps every key and value within the bounds that
/// covered them.
pub proof fn lemma_merged_within(pages: Map<PageId, BTreeNode>, pages2: Map<PageId, BTreeNode>, p: PageId, a: int)
    requires
        merged_shape(pages, pages2, p, a),
        pages.contains_key(p),
        0 <= a < pages[p].key_seq().len(),
        a + 1 < children_of(pages[p]).len(),
        pages.contains_key(children_of(pages[p])[a]),
        pages.contains_key(children_of(pages[p])[a + 1]),
        pages[children_of(pages[p])[a]] is Internal <==> pages[children_of(pages[p])[a + 1]] is Internal,
    ensures
        stays_within(pages, pages2),
{
    let cs = children_of(pages[p]);
    let ks = pages[p].key_seq();
    assert forall|b: int| pages_within(pages, b) implies #[trigger] pages_within(pages2, b) by {
        lemma_joined_within(pages, p, a, b);
        assert(node_within(pages[p], b));
        assert forall|q: PageId| #[trigger] pages2.contains_key(q) implies node_within(pages2[q], b) by {
            if q == p {
                let k2 = ks.remove(a);
                assert forall|t: int| 0 <= t < k2.len() implies bytes_size(#[trigger] k2[t].len()) <= b by {
                    if t < a {
                        assert(k2[t] == ks[t]);
                    } else {
                        assert(k2[t] == ks[t + 1]);
                    }
                }
            } else if q == cs[a] {
            } else {
                assert(pages.contains_key(q));
            }
        }
    }
}

/// Splitting a leaf child keeps every key and value within the bounds that covered them.
pub proof fn lemma_leaf_split_within(
    pages: Map<PageId, BTreeNode>,
    pages2: Map<PageId, BTreeNode>,
    p: PageId,
    ci: int,
    c: PageId,
    r: PageId,
    i: int,
)
    requires
        leaf_split_shape(pages, pages2, p, ci, c, r, i),
        pages.contains_key(p),
        pages.contains_key(c),
        pages[c] is Leaf,
        pages[c]->Leaf_0.paired(),
        1 <= i <= pages[c].key_seq().len(),
        0 <= ci <= pages[p].key_seq().len(),
    ensures
        stays_within(pages, pages2),
{
    let kc = pages[c].key_seq();
    let ks = pages[p].key_seq();
    assert forall|b: int| pages_within(pages, b) implies #[trigger] pages_within(pages2, b) by {
        assert(node_within(pages[p], b));
        assert(node_within(pages[c], b));
        assert forall|q: PageId| #[trigger] pages2.contains_key(q) implies node_within(pages2[q], b) by {
            if q == p {
                let k2 = ks.insert(ci, kc[i - 1]);
                assert forall|t: int| 0 <= t < k2.len() implies bytes_size(#[trigger] k2[t].len()) <= b by {
                    if t < ci {
                        assert(k2[t] == ks[t]);
                    } else if t > ci {
                        assert(k2[t] == ks[t - 1]);
                    }
                }
            } else if q == c || q == r {
                let vc = pages[c]->Leaf_0.value_seq();
                crate::btree::key_order::lemma_keys_view_edits(pages[c]->Leaf_0.values@, 0, vstd::pervasive::arbitrary(), pages[c]->Leaf_0.values@);
                crate::btree::key_order::lemma_keys_view_edits(pages[c]->Leaf_0.keys@, 0, vstd::pervasive::arbitrary(), pages[c]->Leaf_0.keys@);
                lemma_subrange_within(kc, b, 0, i);
                lemma_subrange_within(kc, b, i, kc.len() as int);
                lemma_subrange_within(vc, b, 0, i);
                lemma_subrange_within(vc, b, i, kc.len() as int);
            } else {
                assert(pages.contains_key(q));
            }
        }
    }
}

/// Splitting an internal child keeps every key within the bounds that covered them.
pub proof fn lemma_internal_split_within(
    pages: Map<PageId, BTreeNode>,
    pages2: Map<PageId, BTreeNode>,
    p: PageId,
    ci: int,
    c: PageId,
    r: PageId,
    i: int,
)
    requires
        internal_split_shape(pages, pages2, p, ci, c, r, i),
        pages.contains_key(p),
        pages.contains_key(c),
        pages[c] is Internal,
        1 <= i <= pages[c].key_seq().len(),
        0 <= ci <= pages[p].key_seq().len(),
    ensures
        stays_within(pages, pages2),
{
    let kc = pages[c].key_seq();
    let ks = pages[p].key_seq();
    assert forall|b: int| pages_within(pages, b) implies #[trigger] pages_within(pages2, b) by {
        assert(node_within(pages[p], b));
        assert(node_within(pages[c], b));
        assert forall|q: PageId| #[trigger] pages2.contains_key(q) implies node_within(pages2[q], b) by {
            if q == p {
                let k2 = ks.insert(ci, kc[i - 1]);
                assert forall|t: int| 0 <= t < k2.len() implies bytes_size(#[trigger] k2[t].len()) <= b by {
                    if t < ci {
                        assert(k2[t] == ks[t]);
                    } else if t > ci {
                        assert(k2[t] == ks[t - 1]);
                    }
                }
            } else if q == c || q == r {
                lemma_subrange_within(kc, b, 0, i - 1);
                lemma_subrange_within(kc, b, i, kc.len() as int);
            } else {
                assert(pages.contains_key(q));
            }
        }
    }
}

} // verus!
