//! Internal nodes: sorted routing keys between the ids of child pages.
use vstd::prelude::*;

use crate::btree::btree_node::StorageMeta;
use crate::btree::common::{binary_search_key, PageId};
use crate::btree::key_order::{keys_view, lemma_keys_view_edits, route, sorted_keys};
use crate::btree::leaf_node::sum_byte_sizes;
use crate::btree::traits::{
    add_size,
    bytes_size,
    lemma_sum_sizes_append,
    lemma_sum_sizes_edit,
    lemma_wrap16_shift,
    sub_size,
    sum_sizes,
    wrap16,
    SerializedSize,
    PAGE_ID_SIZE,
};

verus! {

/// A node that routes a key to the child between the routing keys around it: child `i`
/// holds the keys greater than `keys[i - 1]` and at most `keys[i]`.
#[derive(Debug)]
pub struct InternalNode {
    pub header: StorageMeta,
    pub keys: Vec<Vec<u8>>,
    pub children: Vec<PageId>,
}

/// What `n` page ids count for, modulo 2^16.
pub open spec fn children_size(n: int) -> u16 {
    wrap16(8 * n)
}

/// What the page ids of `children` count for together.
fn children_byte_size(children: &Vec<PageId>) -> (r: u16)
    ensures
        r == children_size(children@.len() as int),
{
    let n = children.len() % 0x10000;
    proof {
        vstd::arithmetic::div_mod::lemma_mul_mod_noop_right(8, children@.len() as int, 0x10000);
    }
    ((n * 8) % 0x10000) as u16
}

proof fn lemma_children_size_shift(h: u16, n: int, d: int)
    requires
        h == children_size(n),
    ensures
        wrap16(h + PAGE_ID_SIZE * d) == children_size(n + d),
        wrap16(h - PAGE_ID_SIZE * d) == children_size(n - d),
{
    crate::btree::traits::lemma_wrap16_add(8 * n, 8 * d);
    crate::btree::traits::lemma_wrap16_sub(8 * n, 8 * d);
    crate::btree::traits::lemma_wrap16_idem(h as int);
    assert(8 * n + 8 * d == 8 * (n + d));
    assert(8 * n - 8 * d == 8 * (n - d));
    vstd::arithmetic::div_mod::lemma_add_mod_noop(h as int, PAGE_ID_SIZE * d, 0x10000);
    vstd::arithmetic::div_mod::lemma_sub_mod_noop(h as int, PAGE_ID_SIZE * d, 0x10000);
    vstd::arithmetic::div_mod::lemma_add_mod_noop(8 * n, 8 * d, 0x10000);
    vstd::arithmetic::div_mod::lemma_sub_mod_noop(8 * n, 8 * d, 0x10000);
    vstd::arithmetic::div_mod::lemma_mod_twice(8 * d, 0x10000);
}

impl InternalNode {
    pub open spec fn key_seq(&self) -> Seq<Seq<u8>> {
        keys_view(self.keys@)
    }

    /// The header counts exactly the keys and the child ids (modulo 2^16).
    pub open spec fn sizes_ok(&self) -> bool {
        &&& self.header.keys_total_size == wrap16(sum_sizes(self.key_seq()))
        &&& self.header.items_total_size == children_size(self.children@.len() as int)
    }

    /// An internal node with no keys and no children.
    pub fn new() -> (r: Self)
        ensures
            r.keys@.len() == 0,
            r.children@.len() == 0,
            r.header.is_fresh(),
            r.sizes_ok(),
    {
        let r = InternalNode { header: StorageMeta::new(), keys: Vec::new(), children: Vec::new() };
        proof {
            lemma_keys_view_edits(r.keys@, 0, vstd::pervasive::arbitrary(), r.keys@);
            assert(r.key_seq() =~= Seq::<Seq<u8>>::empty());
            vstd::arithmetic::div_mod::lemma_small_mod(0, 0x10000);
        }
        r
    }

    /// The child that `key` is routed to.
    pub fn route_key_to_child(&self, key: &[u8]) -> (r: PageId)
        requires
            self.keys@.len() < self.children@.len(),
        ensures
            exists|i: int| 0 <= i <= self.keys@.len() && r == self.children@[i],
            sorted_keys(self.key_seq()) ==> r == self.children@[route(self.key_seq(), key@)],
    {
        let idx = self.route_key_to_index(key);
        self.get_child_by_index(idx)
    }

    /// The index of the child that `key` is routed to.
    pub fn route_key_to_index(&self, key: &[u8]) -> (r: usize)
        ensures
            r <= self.keys@.len(),
            sorted_keys(self.key_seq()) ==> r == route(self.key_seq(), key@),
    {
        match binary_search_key(key, &self.keys) {
            Ok(i) => i,
            Err(i) => i,
        }
    }

    pub fn get_child_by_index(&self, index: usize) -> (r: PageId)
        requires
            index < self.children@.len(),
        ensures
            r == self.children@[index as int],
    {
        self.children[index]
    }

    /// Cuts the node at `key_index`, keeping the keys and children before it and returning
    /// the rest.
    pub fn split_off(&mut self, key_index: usize) -> (r: (Vec<Vec<u8>>, Vec<PageId>))
        requires
            key_index <= old(self).keys@.len(),
            key_index <= old(self).children@.len(),
        ensures
            final(self).keys@ == old(self).keys@.subrange(0, key_index as int),
            final(self).children@ == old(self).children@.subrange(0, key_index as int),
            r.0@ == old(self).keys@.subrange(key_index as int, old(self).keys@.len() as int),
            r.1@ == old(self).children@.subrange(
                key_index as int,
                old(self).children@.len() as int,
            ),
            final(self).header.next == old(self).header.next,
            final(self).header._padding == old(self).header._padding,
            old(self).sizes_ok() ==> final(self).sizes_ok(),
    {
        let keys = self.keys.split_off(key_index);
        let children = self.children.split_off(key_index);
        let size_diff = sum_byte_sizes(&keys);
        self.header.keys_total_size = sub_size(self.header.keys_total_size, size_diff);
        let children_size_diff = children_byte_size(&children);
        self.header.items_total_size = sub_size(self.header.items_total_size, children_size_diff);
        proof {
            let ok = old(self).keys@;
            lemma_keys_view_edits(ok, key_index as int, vstd::pervasive::arbitrary(), ok);
            assert(ok =~= self.keys@ + keys@);
            lemma_keys_view_edits(self.keys@, 0, vstd::pervasive::arbitrary(), keys@);
            lemma_sum_sizes_append(keys_view(self.keys@), keys_view(keys@));
            if old(self).sizes_ok() {
                crate::btree::traits::lemma_wrap16_sub(
                    sum_sizes(keys_view(ok)),
                    sum_sizes(keys_view(keys@)),
                );
                crate::btree::traits::lemma_wrap16_idem(sum_sizes(keys_view(keys@)));
                crate::btree::traits::lemma_wrap16_sub(
                    8 * (old(self).children@.len() as int),
                    8 * (children@.len() as int),
                );
                crate::btree::traits::lemma_wrap16_idem(8 * (children@.len() as int));
                assert(8 * old(self).children@.len() - 8 * children@.len() == 8
                    * self.children@.len());
            }
        }
        (keys, children)
    }

    /// Adds `keys` and `children` at the end, leaving both arguments empty.
    pub fn append(&mut self, keys: &mut Vec<Vec<u8>>, children: &mut Vec<PageId>)
        requires
            old(keys)@.len() <= old(children)@.len() + 1,
            old(children)@.len() <= old(keys)@.len() + 1,
        ensures
            final(self).keys@ == old(self).keys@ + old(keys)@,
            final(self).children@ == old(self).children@ + old(children)@,
            final(keys)@.len() == 0,
            final(children)@.len() == 0,
            final(self).header.next == old(self).header.next,
            final(self).header._padding == old(self).header._padding,
            old(self).sizes_ok() ==> final(self).sizes_ok(),
    {
        let size_diff = sum_byte_sizes(keys);
        self.header.keys_total_size = add_size(self.header.keys_total_size, size_diff);
        let children_size_diff = children_byte_size(children);
        self.header.items_total_size = add_size(self.header.items_total_size, children_size_diff);
        self.keys.append(keys);
        self.children.append(children);
        proof {
            lemma_keys_view_edits(old(self).keys@, 0, vstd::pervasive::arbitrary(), old(keys)@);
            lemma_sum_sizes_append(keys_view(old(self).keys@), keys_view(old(keys)@));
            if old(self).sizes_ok() {
                crate::btree::traits::lemma_wrap16_add(
                    sum_sizes(keys_view(old(self).keys@)),
                    sum_sizes(keys_view(old(keys)@)),
                );
                crate::btree::traits::lemma_wrap16_add(
                    8 * (old(self).children@.len() as int),
                    8 * (old(children)@.len() as int),
                );
                assert(8 * old(self).children@.len() + 8 * old(children)@.len() == 8
                    * self.children@.len());
            }
        }
    }

    pub fn get_keys(&self) -> (r: &Vec<Vec<u8>>)
        ensures
            *r == self.keys,
    {
        &self.keys
    }

    pub fn push_child(&mut self, page_id: PageId)
        ensures
            final(self).keys == old(self).keys,
            final(self).children@ == old(self).children@.push(page_id),
            final(self).header.next == old(self).header.next,
            final(self).header._padding == old(self).header._padding,
            final(self).header.keys_total_size == old(self).header.keys_total_size,
            final(self).header.items_total_size == wrap16(old(self).header.items_total_size + PAGE_ID_SIZE),
            old(self).sizes_ok() ==> final(self).sizes_ok(),
    {
        self.children.push(page_id);
        self.header.items_total_size = add_size(self.header.items_total_size, page_id.byte_size());
        proof {
            if old(self).sizes_ok() {
                lemma_children_size_shift(
                    old(self).header.items_total_size,
                    old(self).children@.len() as int,
                    1,
                );
            }
        }
    }

    pub fn pop_last_key(&mut self) -> (r: Vec<u8>)
        requires
            old(self).keys@.len() > 0,
        ensures
            r == old(self).keys@.last(),
            final(self).keys@ == old(self).keys@.drop_last(),
            final(self).key_seq() == old(self).key_seq().drop_last(),
            final(self).children == old(self).children,
            final(self).header.next == old(self).header.next,
            final(self).header._padding == old(self).header._padding,
            final(self).header.keys_total_size == wrap16(
                old(self).header.keys_total_size - bytes_size(r@.len()),
            ),
            final(self).header.items_total_size == old(self).header.items_total_size,
            old(self).sizes_ok() ==> final(self).sizes_ok(),
    {
        let ghost n = self.keys@.len() - 1;
        let key = self.keys.pop().unwrap();
        self.header.keys_total_size = sub_size(self.header.keys_total_size, key.byte_size());
        proof {
            lemma_keys_view_edits(old(self).keys@, n, key, old(self).keys@);
            assert(old(self).keys@.remove(n) =~= self.keys@);
            lemma_sum_sizes_edit(old(self).key_seq(), n, key@);
            lemma_wrap16_shift(sum_sizes(old(self).key_seq()), bytes_size(key@.len()) as int);
            assert(old(self).key_seq().remove(n) =~= old(self).key_seq().drop_last());
        }
        key
    }

    pub fn insert_key_child(&mut self, key_index: usize, key: Vec<u8>, child_index: usize, child: PageId)
        requires
            key_index <= old(self).keys@.len(),
            child_index <= old(self).children@.len(),
            child_index <= key_index + 1,
            key_index <= child_index + 1,
        ensures
            final(self).keys@ == old(self).keys@.insert(key_index as int, key),
            final(self).children@ == old(self).children@.insert(child_index as int, child),
            final(self).key_seq() == old(self).key_seq().insert(key_index as int, key@),
            final(self).header.next == old(self).header.next,
            final(self).header._padding == old(self).header._padding,
            final(self).header.keys_total_size == wrap16(
                old(self).header.keys_total_size + bytes_size(key@.len()),
            ),
            final(self).header.items_total_size == wrap16(old(self).header.items_total_size + PAGE_ID_SIZE),
            old(self).sizes_ok() ==> final(self).sizes_ok(),
    {
        let key_len = key.byte_size();
        proof {
            lemma_keys_view_edits(old(self).keys@, key_index as int, key, old(self).keys@);
            lemma_sum_sizes_edit(old(self).key_seq(), key_index as int, key@);
            lemma_wrap16_shift(sum_sizes(old(self).key_seq()), bytes_size(key@.len()) as int);
            if old(self).sizes_ok() {
                lemma_children_size_shift(
                    old(self).header.items_total_size,
                    old(self).children@.len() as int,
                    1,
                );
            }
        }
        self.keys.insert(key_index, key);
        self.children.insert(child_index, child);
        self.header.keys_total_size = add_size(self.header.keys_total_size, key_len);
        self.header.items_total_size = add_size(self.header.items_total_size, child.byte_size());
    }

    pub fn remove_key_child(&mut self, key_index: usize, child_index: usize) -> (r: (Vec<u8>, PageId))
        requires
            key_index < old(self).keys@.len(),
            child_index < old(self).children@.len(),
            child_index <= key_index + 1,
            key_index <= child_index + 1,
        ensures
            r.0 == old(self).keys@[key_index as int],
            r.1 == old(self).children@[child_index as int],
            final(self).keys@ == old(self).keys@.remove(key_index as int),
            final(self).children@ == old(self).children@.remove(child_index as int),
            final(self).key_seq() == old(self).key_seq().remove(key_index as int),
            final(self).header.next == old(self).header.next,
            final(self).header._padding == old(self).header._padding,
            final(self).header.keys_total_size == wrap16(
                old(self).header.keys_total_size - bytes_size(r.0@.len()),
            ),
            final(self).header.items_total_size == wrap16(old(self).header.items_total_size - PAGE_ID_SIZE),
            old(self).sizes_ok() ==> final(self).sizes_ok(),
    {
        let key = self.keys.remove(key_index);
        let child = self.children.remove(child_index);
        self.header.keys_total_size = sub_size(self.header.keys_total_size, key.byte_size());
        self.header.items_total_size = sub_size(self.header.items_total_size, child.byte_size());
        proof {
            lemma_keys_view_edits(old(self).keys@, key_index as int, key, old(self).keys@);
            lemma_sum_sizes_edit(old(self).key_seq(), key_index as int, key@);
            lemma_wrap16_shift(sum_sizes(old(self).key_seq()), bytes_size(key@.len()) as int);
            if old(self).sizes_ok() {
                lemma_children_size_shift(
                    old(self).header.items_total_size,
                    old(self).children@.len() as int,
                    1,
                );
            }
        }
        (key, child)
    }

    pub fn push_firsts(&mut self, key: Vec<u8>, child: PageId)
        ensures
            final(self).keys@ == old(self).keys@.insert(0, key),
            final(self).children@ == old(self).children@.insert(0, child),
            final(self).key_seq() == old(self).key_seq().insert(0, key@),
            final(self).header.next == old(self).header.next,
            final(self).header._padding == old(self).header._padding,
            final(self).header.keys_total_size == wrap16(
                old(self).header.keys_total_size + bytes_size(key@.len()),
            ),
            final(self).header.items_total_size == wrap16(old(self).header.items_total_size + PAGE_ID_SIZE),
            old(self).sizes_ok() ==> final(self).sizes_ok(),
    {
        self.insert_key_child(0, key, 0, child);
    }

    pub fn push_lasts(&mut self, key: Vec<u8>, child: PageId)
        requires
            old(self).children@.len() <= old(self).keys@.len() + 1,
            old(self).keys@.len() <= old(self).children@.len() + 1,
        ensures
            final(self).keys@ == old(self).keys@.push(key),
            final(self).children@ == old(self).children@.push(child),
            final(self).key_seq() == old(self).key_seq().push(key@),
            final(self).header.next == old(self).header.next,
            final(self).header._padding == old(self).header._padding,
            final(self).header.keys_total_size == wrap16(
                old(self).header.keys_total_size + bytes_size(key@.len()),
            ),
            final(self).header.items_total_size == wrap16(old(self).header.items_total_size + PAGE_ID_SIZE),
            old(self).sizes_ok() ==> final(self).sizes_ok(),
    {
        let key_count = self.keys.len();
        let child_count = self.children.len();
        self.insert_key_child(key_count, key, child_count, child);
        assert(old(self).keys@.insert(key_count as int, key) =~= old(self).keys@.push(key));
        assert(old(self).children@.insert(child_count as int, child) =~= old(
            self,
        ).children@.push(child));
        assert(old(self).key_seq().insert(key_count as int, key@) =~= old(self).key_seq().push(
            key@,
        ));
    }

    /// Removes the last key and the last child.
    pub fn remove_lasts(&mut self) -> (r: (Vec<u8>, PageId))
        requires
            old(self).keys@.len() > 0,
            old(self).children@.len() > old(self).keys@.len(),
        ensures
            r.0 == old(self).keys@.last(),
            r.1 == old(self).children@[old(self).keys@.len() as int],
            final(self).keys@ == old(self).keys@.drop_last(),
            final(self).children@ == old(self).children@.remove(old(self).keys@.len() as int),
            final(self).key_seq() == old(self).key_seq().drop_last(),
            final(self).header.next == old(self).header.next,
            final(self).header._padding == old(self).header._padding,
            final(self).header.keys_total_size == wrap16(
                old(self).header.keys_total_size - bytes_size(r.0@.len()),
            ),
            final(self).header.items_total_size == wrap16(old(self).header.items_total_size - PAGE_ID_SIZE),
            old(self).sizes_ok() ==> final(self).sizes_ok(),
    {
        let key_count = self.keys.len();
        let r = self.remove_key_child(key_count - 1, key_count);
        assert(old(self).keys@.remove(key_count - 1) =~= old(self).keys@.drop_last());
        assert(old(self).key_seq().remove(key_count - 1) =~= old(self).key_seq().drop_last());
        r
    }

    /// Removes the first key and the first child.
    pub fn remove_firsts(&mut self) -> (r: (Vec<u8>, PageId))
        requires
            old(self).keys@.len() > 0,
            old(self).children@.len() > 0,
        ensures
            r.0 == old(self).keys@[0],
            r.1 == old(self).children@[0],
            final(self).keys@ == old(self).keys@.remove(0),
            final(self).children@ == old(self).children@.remove(0),
            final(self).key_seq() == old(self).key_seq().remove(0),
            final(self).header.next == old(self).header.next,
            final(self).header._padding == old(self).header._padding,
            final(self).header.keys_total_size == wrap16(
                old(self).header.keys_total_size - bytes_size(r.0@.len()),
            ),
            final(self).header.items_total_size == wrap16(old(self).header.items_total_size - PAGE_ID_SIZE),
            old(self).sizes_ok() ==> final(self).sizes_ok(),
    {
        self.remove_key_child(0, 0)
    }

    /// The keys and the children, to be changed in place; the header is not kept up to
    /// date by changes made through them.
    pub fn get_key_children_mut(&mut self) -> (r: (&mut Vec<Vec<u8>>, &mut Vec<PageId>))
        ensures
            *r.0 == old(self).keys,
            *r.1 == old(self).children,
            final(self).header == old(self).header,
            final(self).keys == *final(r.0),
            final(self).children == *final(r.1),
    {
        (&mut self.keys, &mut self.children)
    }

    pub fn get_key_children(&self) -> (r: (&Vec<Vec<u8>>, &Vec<PageId>))
        ensures
            *r.0 == self.keys,
            *r.1 == self.children,
    {
        (&self.keys, &self.children)
    }

    /// Replaces the key at `index`.
    pub fn overwrite_key(&mut self, index: usize, key: Vec<u8>)
        requires
            index < old(self).keys@.len(),
        ensures
            final(self).keys@ == old(self).keys@.update(index as int, key),
            final(self).key_seq() == old(self).key_seq().update(index as int, key@),
            final(self).children == old(self).children,
            final(self).header.next == old(self).header.next,
            final(self).header._padding == old(self).header._padding,
            old(self).sizes_ok() ==> final(self).sizes_ok(),
    {
        let size = key.byte_size();
        let old_size = self.keys[index].byte_size();
        self.keys.set(index, key);
        if size >= old_size {
            self.header.keys_total_size = add_size(self.header.keys_total_size, size - old_size);
        } else {
            self.header.keys_total_size = sub_size(self.header.keys_total_size, old_size - size);
        }
        proof {
            lemma_keys_view_edits(old(self).keys@, index as int, key, old(self).keys@);
            lemma_sum_sizes_edit(old(self).key_seq(), index as int, key@);
            let s = sum_sizes(old(self).key_seq());
            if size >= old_size {
                lemma_wrap16_shift(s, size - old_size);
            } else {
                lemma_wrap16_shift(s, old_size - size);
            }
        }
    }

    /// Replaces the child at `index`.
    pub fn overwrite_value(&mut self, index: usize, value: PageId)
        requires
            index < old(self).children@.len(),
        ensures
            final(self).keys == old(self).keys,
            final(self).children@ == old(self).children@.update(index as int, value),
            final(self).header == old(self).header,
    {
        let size = value.byte_size();
        let old_size = self.children[index].byte_size();
        self.children.set(index, value);
        if size >= old_size {
            self.header.items_total_size = add_size(self.header.items_total_size, size - old_size);
        } else {
            self.header.items_total_size = sub_size(self.header.items_total_size, old_size - size);
        }
        proof {
            crate::btree::traits::lemma_wrap16_idem(old(self).header.items_total_size as int);
        }
    }
}

} // verus!
