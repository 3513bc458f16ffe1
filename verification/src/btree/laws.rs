//! What the operations of the tree promise together: a value stored can be read back, a
//! key deleted is gone, and neither touches any other key.
use vstd::prelude::*;

use crate::btree::btree::BTree;
use crate::btree::leaf_node::LeafNode;
use crate::btree::btree_node::BTreeNode;
use crate::btree::key_order::{keys_view, route, sorted_keys};
use crate::btree::set::{leaf_stored, would_overflow};
use crate::btree::traits::{bytes_size, lemma_wrap16_idem, lemma_wrap16_shift, sum_sizes, wrap16};

verus! {

/// After `set` stores `value` under `key` (its success leaves `before@.insert(key, value)`),
/// `get` finds `value` under `key` and finds every other key as before; storing a second
/// value under the same key replaces the first.
pub proof fn law_get_after_set(before: BTree, after: BTree, key: Seq<u8>, value: Seq<u8>, other: Seq<u8>)
    requires
        after@ == before@.insert(key, value),
    ensures
        after.value_of(key) == Some(value),
        other != key ==> after.value_of(other) == before.value_of(other),
{
}

/// After `delete` removes `key` (its success leaves `before@.remove(key)`), `get` finds
/// nothing under `key` and finds every other key as before.
pub proof fn law_get_after_delete(before: BTree, after: BTree, key: Seq<u8>, other: Seq<u8>)
    requires
        after@ == before@.remove(key),
    ensures
        after.value_of(key) == None::<Seq<u8>>,
        other != key ==> after.value_of(other) == before.value_of(other),
{
}

/// Deleting a key that was just stored, where the tree did not hold it before, gives back
/// what the tree held before.
pub proof fn law_delete_undoes_set(t0: BTree, t1: BTree, t2: BTree, key: Seq<u8>, value: Seq<u8>)
    requires
        !t0@.contains_key(key),
        t1@ == t0@.insert(key, value),
        t2@ == t1@.remove(key),
    ensures
        t2@ == t0@,
{
    assert(t2@ =~= t0@);
}

/// Storing the same value under the same key a second time changes nothing more.
pub proof fn law_set_twice(t0: BTree, t1: BTree, t2: BTree, key: Seq<u8>, value: Seq<u8>)
    requires
        t1@ == t0@.insert(key, value),
        t2@ == t1@.insert(key, value),
    ensures
        t2@ == t1@,
{
    assert(t2@ =~= t1@);
}

/// A size count that grows by `s` and then shrinks by `s` is back where it was, whatever it
/// was, as the header counts of a node are when an entry is pushed and taken off again.
pub proof fn law_size_round_trip(x: u16, s: u16)
    ensures
        wrap16(wrap16(x + s) - s) == x,
{
    lemma_wrap16_shift(x + s, s as int);
    lemma_wrap16_idem(x as int);
}

/// Pushing an entry onto a leaf (as `push_lasts` does) and taking the last entry off again
/// (as `remove_lasts` does) gives back the same keys, values and header.
pub proof fn law_leaf_push_then_remove_lasts(a: LeafNode, b: LeafNode, c: LeafNode, key: Seq<u8>, value: Seq<u8>)
    requires
        a.paired(),
        b.key_seq() == a.key_seq().push(key),
        b.value_seq() == a.value_seq().insert(a.keys@.len() as int, value),
        b.header.next == a.header.next,
        b.header._padding == a.header._padding,
        b.header.keys_total_size == wrap16(a.header.keys_total_size + bytes_size(key.len())),
        b.header.items_total_size == wrap16(a.header.items_total_size + bytes_size(value.len())),
        c.key_seq() == b.key_seq().drop_last(),
        c.value_seq() == b.value_seq().remove(b.key_seq().len() - 1),
        c.header.next == b.header.next,
        c.header._padding == b.header._padding,
        c.header.keys_total_size == wrap16(b.header.keys_total_size - bytes_size(b.key_seq().last().len())),
        c.header.items_total_size == wrap16(
            b.header.items_total_size - bytes_size(b.value_seq()[b.key_seq().len() - 1].len()),
        ),
    ensures
        c.key_seq() == a.key_seq(),
        c.value_seq() == a.value_seq(),
        c.header == a.header,
{
    crate::btree::key_order::lemma_keys_view_edits(a.keys@, 0, vstd::pervasive::arbitrary(), a.keys@);
    crate::btree::key_order::lemma_keys_view_edits(a.values@, 0, vstd::pervasive::arbitrary(), a.values@);
    assert(c.key_seq() =~= a.key_seq());
    assert(c.value_seq() =~= a.value_seq());
    law_size_round_trip(a.header.keys_total_size, bytes_size(key.len()));
    law_size_round_trip(a.header.items_total_size, bytes_size(value.len()));
}

/// A size count that shrinks by any amount and then grows by it again is back where it
/// was, as the header counts of a leaf are when its tail is split off and appended again.
pub proof fn law_size_shrink_then_grow(x: u16, s: int)
    ensures
        wrap16(wrap16(x - s) + s) == x,
{
    let m: int = 0x10000;
    let w = wrap16(x - s);
    assert(0 <= (x - s) % m < m);
    assert(w as int == (x - s) % m);
    vstd::arithmetic::div_mod::lemma_add_mod_noop_right(s, x - s, m);
    assert((s + (x - s) % m) % m == (s + (x - s)) % m);
    assert(s + (x - s) == x as int);
    vstd::arithmetic::div_mod::lemma_small_mod(x as nat, m as nat);
}

/// Splitting off the tail of a leaf (as `split_off` does) and appending it again (as
/// `append` does) gives back the same keys, values and header.
pub proof fn law_leaf_split_off_then_append(
    a: LeafNode,
    b: LeafNode,
    c: LeafNode,
    i: int,
    tail_keys: Seq<Vec<u8>>,
    tail_values: Seq<Vec<u8>>,
)
    requires
        0 <= i <= a.keys@.len(),
        i <= a.values@.len(),
        b.keys@ == a.keys@.subrange(0, i),
        b.values@ == a.values@.subrange(0, i),
        tail_keys == a.keys@.subrange(i, a.keys@.len() as int),
        tail_values == a.values@.subrange(i, a.values@.len() as int),
        b.header.next == a.header.next,
        b.header._padding == a.header._padding,
        b.header.keys_total_size == wrap16(a.header.keys_total_size - sum_sizes(keys_view(tail_keys))),
        b.header.items_total_size == wrap16(a.header.items_total_size - sum_sizes(keys_view(tail_values))),
        c.keys@ == b.keys@ + tail_keys,
        c.values@ == b.values@ + tail_values,
        c.header.next == b.header.next,
        c.header._padding == b.header._padding,
        c.header.keys_total_size == wrap16(b.header.keys_total_size + sum_sizes(keys_view(tail_keys))),
        c.header.items_total_size == wrap16(b.header.items_total_size + sum_sizes(keys_view(tail_values))),
    ensures
        c.keys@ == a.keys@,
        c.values@ == a.values@,
        c.header == a.header,
{
    assert(c.keys@ =~= a.keys@);
    assert(c.values@ =~= a.values@);
    law_size_shrink_then_grow(a.header.keys_total_size, sum_sizes(keys_view(tail_keys)));
    law_size_shrink_then_grow(a.header.items_total_size, sum_sizes(keys_view(tail_values)));
}

/// Storing a value under a key in a sorted leaf (as `set_key_value` does) and then storing
/// the same value under the same key again leaves the keys, the values and the header as the
/// first store left them.
pub proof fn law_leaf_set_twice(a: LeafNode, b: LeafNode, c: LeafNode, key: Seq<u8>, value: Seq<u8>)
    requires
        a.paired(),
        a.sizes_ok(),
        sorted_keys(a.key_seq()),
        leaf_stored(BTreeNode::Leaf(a), BTreeNode::Leaf(b), key, value),
        sorted_keys(b.key_seq()),
        leaf_stored(BTreeNode::Leaf(b), BTreeNode::Leaf(c), key, value),
    ensures
        c.key_seq() == b.key_seq(),
        c.value_seq() == b.value_seq(),
        c.header == b.header,
{
    broadcast use crate::btree::key_order::group_key_order;

    let ks = a.key_seq();
    let kb = b.key_seq();
    let i = route(ks, key);
    crate::btree::key_order::lemma_route(ks, key);
    if !(i < ks.len() && ks[i] == key) {
        crate::btree::key_order::lemma_route(kb, key);
        assert(kb[i] == key);
        let j = route(kb, key);
        if j < i {
            assert(crate::btree::key_order::key_lt(kb[j], kb[i]));
        } else if j > i {
            assert(!crate::btree::key_order::key_lt(kb[i], key));
        }
        assert(j == i);
    }
    let j = route(kb, key);
    assert(j < kb.len() && kb[j] == key);
    assert(c.value_seq() =~= b.value_seq());
    assert(c.key_seq() =~= b.key_seq());
}

/// Storing under a key that a leaf holds a value that counts for no more than the old one
/// never makes the leaf too big, whatever the limit.
pub proof fn law_overwrite_without_growth_fits(l: LeafNode, key: Seq<u8>, value: Seq<u8>, old_value: Seq<u8>, fat: u16)
    requires
        l.spec_get(key) == Some(old_value),
        bytes_size(value.len()) <= bytes_size(old_value.len()),
    ensures
        !would_overflow(BTreeNode::Leaf(l), key, value, fat),
{
}

/// Storing under a key that a leaf holds a bigger value makes the leaf too big exactly when
/// its size grown by the difference passes the limit; a new key counts in full, with its
/// value.
pub proof fn law_leaf_overflow_counts_the_growth(l: LeafNode, key: Seq<u8>, value: Seq<u8>, o: Seq<u8>, fat: u16)
    ensures
        l.spec_get(key) == Some(o) && bytes_size(value.len()) > bytes_size(o.len()) ==> (would_overflow(
            BTreeNode::Leaf(l),
            key,
            value,
            fat,
        ) <==> wrap16(l.header.spec_total_size() + bytes_size(value.len()) - bytes_size(o.len())) > fat),
        l.spec_get(key) is None ==> (would_overflow(BTreeNode::Leaf(l), key, value, fat) <==> wrap16(
            l.header.spec_total_size() + bytes_size(key.len()) + bytes_size(value.len()),
        ) > fat),
{
}

/// Storing anything through an internal node makes it too big exactly when its size grown by
/// a routing key and a child id passes the limit, whether or not the key is already stored
/// below.
pub proof fn law_internal_overflow_counts_a_key_and_a_child(
    n: crate::btree::internal_node::InternalNode,
    key: Seq<u8>,
    value: Seq<u8>,
    fat: u16,
)
    ensures
        would_overflow(BTreeNode::Internal(n), key, value, fat) <==> wrap16(
            n.header.spec_total_size() + bytes_size(key.len()) + crate::btree::traits::PAGE_ID_SIZE,
        ) > fat,
{
}

} // verus!
