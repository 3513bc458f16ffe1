//! Leaves: sorted keys with their values, and a header that counts them.
use vstd::prelude::*;

use crate::btree::btree_node::StorageMeta;
use crate::btree::common::binary_search_key;
use crate::btree::key_order::{keys_view, lemma_keys_view_edits, route, sorted_keys};
use crate::btree::traits::{
    add_size,
    bytes_size,
    lemma_sum_sizes_append,
    lemma_sum_sizes_edit,
    lemma_sum_sizes_nonneg,
    lemma_wrap16_shift,
    sub_size,
    sum_sizes,
    wrap16,
    SerializedSize,
};
use crate::errors::{KvError, KvResult};

verus! {

broadcast use crate::btree::key_order::group_key_order;

#[derive(Debug)]
pub struct LeafNode {
    pub header: StorageMeta,
    pub keys: Vec<Vec<u8>>,
    pub values: Vec<Vec<u8>>,
}

/// The value of `k` among keys `ks` and values `vs`, if `k` is one of the keys.
pub open spec fn find_value(ks: Seq<Seq<u8>>, vs: Seq<Seq<u8>>, k: Seq<u8>) -> Option<Seq<u8>> {
    if exists|i: int| 0 <= i < ks.len() && ks[i] == k {
        Some(vs[choose|i: int| 0 <= i < ks.len() && ks[i] == k])
    } else {
        None
    }
}

/// With sorted keys, the value found is the one at the key's position.
pub proof fn lemma_find_value(ks: Seq<Seq<u8>>, vs: Seq<Seq<u8>>, k: Seq<u8>, i: int)
    requires
        sorted_keys(ks),
        0 <= i < ks.len(),
        ks[i] == k,
    ensures
        find_value(ks, vs, k) == Some(vs[i]),
{
    assert(exists|i2: int| 0 <= i2 < ks.len() && ks[i2] == k);
    let j = choose|j: int| 0 <= j < ks.len() && ks[j] == k;
    if j < i {
        assert(crate::btree::key_order::key_lt(ks[j], ks[i]));
    } else if j > i {
        assert(crate::btree::key_order::key_lt(ks[i], ks[j]));
    }
}

/// Looking a key up among a stretch of sorted keys that holds every place of the key.
pub proof fn lemma_find_value_subrange(ks: Seq<Seq<u8>>, vs: Seq<Seq<u8>>, a: int, b: int, k: Seq<u8>)
    requires
        sorted_keys(ks),
        ks.len() == vs.len(),
        0 <= a <= b <= ks.len(),
        forall|t: int| 0 <= t < ks.len() && ks[t] == k ==> a <= t < b,
    ensures
        find_value(ks.subrange(a, b), vs.subrange(a, b), k) == find_value(ks, vs, k),
{
    let ks2 = ks.subrange(a, b);
    let vs2 = vs.subrange(a, b);
    crate::btree::key_order::lemma_sorted_subrange(ks, a, b);
    if exists|t: int| 0 <= t < ks.len() && ks[t] == k {
        let t = choose|t: int| 0 <= t < ks.len() && ks[t] == k;
        lemma_find_value(ks, vs, k, t);
        assert(ks2[t - a] == k);
        lemma_find_value(ks2, vs2, k, t - a);
    } else {
        assert forall|t: int| 0 <= t < ks2.len() implies ks2[t] != k by {
            assert(ks2[t] == ks[t + a]);
        }
    }
}

/// Looking keys up after storing `v` under `k`, as `set_key_value` does with sorted keys.
pub proof fn lemma_find_value_put(ks: Seq<Seq<u8>>, vs: Seq<Seq<u8>>, k: Seq<u8>, v: Seq<u8>, x: Seq<u8>)
    requires
        sorted_keys(ks),
        ks.len() == vs.len(),
    ensures
        ({
            let i = route(ks, k);
            let (ks2, vs2) = if i < ks.len() && ks[i] == k {
                (ks, vs.update(i, v))
            } else {
                (ks.insert(i, k), vs.insert(i, v))
            };
            sorted_keys(ks2) ==> find_value(ks2, vs2, x) == if x == k {
                Some(v)
            } else {
                find_value(ks, vs, x)
            }
        }),
{
    let i = route(ks, k);
    crate::btree::key_order::lemma_route(ks, k);
    let (ks2, vs2) = if i < ks.len() && ks[i] == k {
        (ks, vs.update(i, v))
    } else {
        (ks.insert(i, k), vs.insert(i, v))
    };
    if sorted_keys(ks2) {
        if i < ks.len() && ks[i] == k {
            if x == k {
                lemma_find_value(ks2, vs2, x, i);
            } else if exists|t: int| 0 <= t < ks.len() && ks[t] == x {
                let t = choose|t: int| 0 <= t < ks.len() && ks[t] == x;
                lemma_find_value(ks, vs, x, t);
                lemma_find_value(ks2, vs2, x, t);
            }
        } else {
            if x == k {
                assert(ks2[i] == k);
                lemma_find_value(ks2, vs2, x, i);
            } else if exists|t: int| 0 <= t < ks.len() && ks[t] == x {
                let t = choose|t: int| 0 <= t < ks.len() && ks[t] == x;
                lemma_find_value(ks, vs, x, t);
                if t < i {
                    assert(ks2[t] == x);
                    lemma_find_value(ks2, vs2, x, t);
                } else {
                    assert(ks2[t + 1] == x);
                    lemma_find_value(ks2, vs2, x, t + 1);
                }
            } else {
                assert forall|t: int| 0 <= t < ks2.len() implies ks2[t] != x by {
                    if t < i {
                        assert(ks2[t] == ks[t]);
                    } else if t > i {
                        assert(ks2[t] == ks[t - 1]);
                    }
                }
            }
        }
    }
}

/// Looking keys up after removing the entry at `i` from sorted keys.
pub proof fn lemma_find_value_remove(ks: Seq<Seq<u8>>, vs: Seq<Seq<u8>>, i: int, x: Seq<u8>)
    requires
        sorted_keys(ks),
        ks.len() == vs.len(),
        0 <= i < ks.len(),
    ensures
        find_value(ks.remove(i), vs.remove(i), x) == if x == ks[i] {
            None
        } else {
            find_value(ks, vs, x)
        },
{
    let ks2 = ks.remove(i);
    let vs2 = vs.remove(i);
    crate::btree::key_order::lemma_route_remove(ks, i, x);
    if x == ks[i] {
        assert forall|t: int| 0 <= t < ks2.len() implies ks2[t] != x by {
            if t < i {
                assert(ks2[t] == ks[t]);
                assert(crate::btree::key_order::key_lt(ks[t], ks[i]));
            } else {
                assert(ks2[t] == ks[t + 1]);
                assert(crate::btree::key_order::key_lt(ks[i], ks[t + 1]));
            }
        }
    } else if exists|t: int| 0 <= t < ks.len() && ks[t] == x {
        let t = choose|t: int| 0 <= t < ks.len() && ks[t] == x;
        lemma_find_value(ks, vs, x, t);
        if t < i {
            assert(ks2[t] == x);
            lemma_find_value(ks2, vs2, x, t);
        } else {
            assert(ks2[t - 1] == x);
            lemma_find_value(ks2, vs2, x, t - 1);
        }
    } else {
        assert forall|t: int| 0 <= t < ks2.len() implies ks2[t] != x by {
            if t < i {
                assert(ks2[t] == ks[t]);
            } else {
                assert(ks2[t] == ks[t + 1]);
            }
        }
    }
}

impl LeafNode {
    pub open spec fn key_seq(&self) -> Seq<Seq<u8>> {
        keys_view(self.keys@)
    }

    pub open spec fn value_seq(&self) -> Seq<Seq<u8>> {
        keys_view(self.values@)
    }

    /// As many values as keys.
    pub open spec fn paired(&self) -> bool {
        self.keys@.len() == self.values@.len()
    }

    /// The header counts exactly the keys and the values (modulo 2^16).
    pub open spec fn sizes_ok(&self) -> bool {
        &&& self.header.keys_total_size == wrap16(sum_sizes(self.key_seq()))
        &&& self.header.items_total_size == wrap16(sum_sizes(self.value_seq()))
    }

    /// The value stored under `k`.
    pub open spec fn spec_get(&self, k: Seq<u8>) -> Option<Seq<u8>> {
        find_value(self.key_seq(), self.value_seq(), k)
    }

    /// An empty leaf.
    pub fn new() -> (r: Self)
        ensures
            r.keys@.len() == 0,
            r.values@.len() == 0,
            r.header.is_fresh(),
            r.sizes_ok(),
    {
        let r = Self { header: StorageMeta::new(), keys: Vec::new(), values: Vec::new() };
        proof {
            lemma_keys_view_edits(r.keys@, 0, vstd::pervasive::arbitrary(), r.keys@);
            assert(r.key_seq() =~= Seq::<Seq<u8>>::empty());
            assert(r.value_seq() =~= Seq::<Seq<u8>>::empty());
        }
        r
    }

    /// Stores `value` under `key`: replaces the value of an equal key, or inserts the pair at
    /// the place that keeps the keys sorted.
    pub fn set_key_value(&mut self, key: &[u8], value: &[u8])
        requires
            old(self).paired(),
        ensures
            final(self).paired(),
            final(self).header.next == old(self).header.next,
            final(self).header._padding == old(self).header._padding,
            old(self).sizes_ok() ==> final(self).sizes_ok(),
            sorted_keys(old(self).key_seq()) ==> {
                let ks = old(self).key_seq();
                let i = route(ks, key@);
                &&& sorted_keys(final(self).key_seq())
                &&& if i < ks.len() && ks[i] == key@ {
                    &&& final(self).key_seq() == ks
                    &&& final(self).value_seq() == old(self).value_seq().update(i, value@)
                } else {
                    &&& final(self).key_seq() == ks.insert(i, key@)
                    &&& final(self).value_seq() == old(self).value_seq().insert(i, value@)
                }
            },
    {
        let ghost ks = self.key_seq();
        let ghost vs = self.value_seq();
        let index = binary_search_key(key, &self.keys);
        match index {
            Ok(idx) => {
                let new_size = value.byte_size();
                let new_value = vstd::slice::slice_to_vec(value);
                let old_size = self.values[idx].byte_size();
                self.values.set(idx, new_value);
                if new_size >= old_size {
                    self.header.items_total_size = add_size(
                        self.header.items_total_size,
                        new_size - old_size,
                    );
                } else {
                    self.header.items_total_size = sub_size(
                        self.header.items_total_size,
                        old_size - new_size,
                    );
                }
                proof {
                    lemma_keys_view_edits(old(self).values@, idx as int, new_value, self.values@);
                    lemma_sum_sizes_edit(vs, idx as int, value@);
                    let s = sum_sizes(vs);
                    if new_size >= old_size {
                        lemma_wrap16_shift(s, new_size - old_size);
                    } else {
                        lemma_wrap16_shift(s, old_size - new_size);
                    }
                    assert(self.value_seq() == vs.update(idx as int, value@));
                    lemma_keys_view_edits(old(self).keys@, 0, vstd::pervasive::arbitrary(), self.keys@);
                    assert(ks[idx as int] == key@);
                    assert(self.key_seq() == ks);
                }
            },
            Err(idx) => {
                proof {
                    if sorted_keys(ks) {
                        crate::btree::key_order::lemma_route(ks, key@);
                        assert(sorted_keys(ks.insert(idx as int, key@))) by {
                            let ns = ks.insert(idx as int, key@);
                            assert forall|a: int, b: int| 0 <= a < b < ns.len() implies #[trigger] crate::btree::key_order::key_lt(
                                ns[a],
                                ns[b],
                            ) by {
                                if b < idx {
                                    assert(ns[a] == ks[a] && ns[b] == ks[b]);
                                } else if b == idx {
                                    assert(ns[a] == ks[a]);
                                } else if a < idx {
                                    assert(ns[a] == ks[a] && ns[b] == ks[b - 1]);
                                    assert(crate::btree::key_order::key_lt(key@, ks[b - 1]));
                                } else if a == idx {
                                    assert(ns[b] == ks[b - 1]);
                                    assert(ks[b - 1] != key@);
                                } else {
                                    assert(ns[a] == ks[a - 1] && ns[b] == ks[b - 1]);
                                }
                            }
                        }
                    }
                }
                let k = vstd::slice::slice_to_vec(key);
                let v = vstd::slice::slice_to_vec(value);
                self.insert_key_value(idx, k, idx, v);
                assert(self.key_seq() == ks.insert(idx as int, key@));
                assert(self.value_seq() == vs.insert(idx as int, value@));
            },
        }
    }

    /// The value stored under `key`.
    pub fn get_value_by_key(&self, key: &[u8]) -> (r: Option<&Vec<u8>>)
        requires
            self.paired(),
        ensures
            match r {
                Some(v) => exists|i: int|
                    0 <= i < self.key_seq().len() && self.key_seq()[i] == key@ && v@
                        == self.value_seq()[i],
                None => true,
            },
            sorted_keys(self.key_seq()) ==> match r {
                Some(v) => self.spec_get(key@) == Some(v@),
                None => self.spec_get(key@) is None,
            },
    {
        let idx = binary_search_key(key, &self.keys);
        proof {
            lemma_keys_view_edits(self.keys@, 0, vstd::pervasive::arbitrary(), self.keys@);
            lemma_keys_view_edits(self.values@, 0, vstd::pervasive::arbitrary(), self.values@);
        }
        match idx {
            Ok(idx) => {
                proof {
                    if sorted_keys(self.key_seq()) {
                        lemma_find_value(self.key_seq(), self.value_seq(), key@, idx as int);
                    }
                }
                assert(self.key_seq()[idx as int] == key@);
                Some(&self.values[idx])
            },
            Err(_) => None,
        }
    }

    /// Cuts the leaf at `key_index`, keeping what comes before and returning the rest.
    pub fn split_off(&mut self, key_index: usize) -> (r: (Vec<Vec<u8>>, Vec<Vec<u8>>))
        requires
            key_index <= old(self).keys@.len(),
            key_index <= old(self).values@.len(),
        ensures
            final(self).keys@ == old(self).keys@.subrange(0, key_index as int),
            final(self).values@ == old(self).values@.subrange(0, key_index as int),
            r.0@ == old(self).keys@.subrange(key_index as int, old(self).keys@.len() as int),
            r.1@ == old(self).values@.subrange(key_index as int, old(self).values@.len() as int),
            final(self).header.next == old(self).header.next,
            final(self).header._padding == old(self).header._padding,
            final(self).header.keys_total_size == wrap16(
                old(self).header.keys_total_size - sum_sizes(keys_view(r.0@)),
            ),
            final(self).header.items_total_size == wrap16(
                old(self).header.items_total_size - sum_sizes(keys_view(r.1@)),
            ),
            old(self).sizes_ok() ==> final(self).sizes_ok(),
    {
        let keys = self.keys.split_off(key_index);
        let values = self.values.split_off(key_index);
        let key_size_diff = sum_byte_sizes(&keys);
        let values_size_diff = sum_byte_sizes(&values);
        self.header.keys_total_size = sub_size(self.header.keys_total_size, key_size_diff);
        self.header.items_total_size = sub_size(self.header.items_total_size, values_size_diff);
        proof {
            let ok = old(self).keys@;
            let ov = old(self).values@;
            lemma_keys_view_edits(ok, key_index as int, vstd::pervasive::arbitrary(), ok);
            lemma_keys_view_edits(ov, key_index as int, vstd::pervasive::arbitrary(), ov);
            assert(ok =~= self.keys@ + keys@);
            assert(ov =~= self.values@ + values@);
            lemma_keys_view_edits(self.keys@, 0, vstd::pervasive::arbitrary(), keys@);
            lemma_keys_view_edits(self.values@, 0, vstd::pervasive::arbitrary(), values@);
            lemma_sum_sizes_append(keys_view(self.keys@), keys_view(keys@));
            lemma_sum_sizes_append(keys_view(self.values@), keys_view(values@));
            crate::btree::traits::lemma_wrap16_sub(
                old(self).header.keys_total_size as int,
                sum_sizes(keys_view(keys@)),
            );
            crate::btree::traits::lemma_wrap16_idem(old(self).header.keys_total_size as int);
            crate::btree::traits::lemma_wrap16_sub(
                old(self).header.items_total_size as int,
                sum_sizes(keys_view(values@)),
            );
            crate::btree::traits::lemma_wrap16_idem(old(self).header.items_total_size as int);
            if old(self).sizes_ok() {
                crate::btree::traits::lemma_wrap16_sub(
                    sum_sizes(keys_view(ok)),
                    sum_sizes(keys_view(keys@)),
                );
                crate::btree::traits::lemma_wrap16_sub(
                    sum_sizes(keys_view(ov)),
                    sum_sizes(keys_view(values@)),
                );
            }
        }
        (keys, values)
    }

    /// Adds `keys` and `values` at the end, leaving both arguments empty.
    pub fn append(&mut self, keys: &mut Vec<Vec<u8>>, values: &mut Vec<Vec<u8>>)
        requires
            old(keys)@.len() <= old(values)@.len() + 1,
            old(values)@.len() <= old(keys)@.len() + 1,
        ensures
            final(self).keys@ == old(self).keys@ + old(keys)@,
            final(self).values@ == old(self).values@ + old(values)@,
            final(keys)@.len() == 0,
            final(values)@.len() == 0,
            final(self).header.next == old(self).header.next,
            final(self).header._padding == old(self).header._padding,
            final(self).header.keys_total_size == wrap16(
                old(self).header.keys_total_size + sum_sizes(keys_view(old(keys)@)),
            ),
            final(self).header.items_total_size == wrap16(
                old(self).header.items_total_size + sum_sizes(keys_view(old(values)@)),
            ),
            old(self).sizes_ok() ==> final(self).sizes_ok(),
    {
        let keys_size = sum_byte_sizes(keys);
        let values_size = sum_byte_sizes(values);
        self.header.keys_total_size = add_size(self.header.keys_total_size, keys_size);
        self.header.items_total_size = add_size(self.header.items_total_size, values_size);
        self.keys.append(keys);
        self.values.append(values);
        proof {
            lemma_keys_view_edits(old(self).keys@, 0, vstd::pervasive::arbitrary(), old(keys)@);
            lemma_keys_view_edits(old(self).values@, 0, vstd::pervasive::arbitrary(), old(values)@);
            lemma_sum_sizes_append(keys_view(old(self).keys@), keys_view(old(keys)@));
            lemma_sum_sizes_append(keys_view(old(self).values@), keys_view(old(values)@));
            crate::btree::traits::lemma_wrap16_add(
                old(self).header.keys_total_size as int,
                sum_sizes(keys_view(old(keys)@)),
            );
            crate::btree::traits::lemma_wrap16_idem(old(self).header.keys_total_size as int);
            crate::btree::traits::lemma_wrap16_add(
                old(self).header.items_total_size as int,
                sum_sizes(keys_view(old(values)@)),
            );
            crate::btree::traits::lemma_wrap16_idem(old(self).header.items_total_size as int);
            if old(self).sizes_ok() {
                crate::btree::traits::lemma_wrap16_add(
                    sum_sizes(keys_view(old(self).keys@)),
                    sum_sizes(keys_view(old(keys)@)),
                );
                crate::btree::traits::lemma_wrap16_add(
                    sum_sizes(keys_view(old(self).values@)),
                    sum_sizes(keys_view(old(values)@)),
                );
            }
        }
    }

    pub fn get_keys(&self) -> (r: &Vec<Vec<u8>>)
        ensures
            *r == self.keys,
    {
        &self.keys
    }

    fn insert_key_value(&mut self, key_index: usize, key: Vec<u8>, value_index: usize, value: Vec<u8>)
        requires
            key_index <= old(self).keys@.len(),
            value_index <= old(self).values@.len(),
            value_index <= key_index + 1,
            key_index <= value_index + 1,
        ensures
            final(self).keys@ == old(self).keys@.insert(key_index as int, key),
            final(self).values@ == old(self).values@.insert(value_index as int, value),
            final(self).key_seq() == old(self).key_seq().insert(key_index as int, key@),
            final(self).value_seq() == old(self).value_seq().insert(value_index as int, value@),
            final(self).header.next == old(self).header.next,
            final(self).header._padding == old(self).header._padding,
            final(self).header.keys_total_size == wrap16(
                old(self).header.keys_total_size + bytes_size(key@.len()),
            ),
            final(self).header.items_total_size == wrap16(
                old(self).header.items_total_size + bytes_size(value@.len()),
            ),
            old(self).sizes_ok() ==> final(self).sizes_ok(),
    {
        self.header.keys_total_size = add_size(self.header.keys_total_size, key.byte_size());
        self.header.items_total_size = add_size(self.header.items_total_size, value.byte_size());
        proof {
            lemma_keys_view_edits(old(self).keys@, key_index as int, key, old(self).keys@);
            lemma_keys_view_edits(old(self).values@, value_index as int, value, old(self).values@);
            lemma_sum_sizes_edit(old(self).key_seq(), key_index as int, key@);
            lemma_sum_sizes_edit(old(self).value_seq(), value_index as int, value@);
            lemma_wrap16_shift(sum_sizes(old(self).key_seq()), bytes_size(key@.len()) as int);
            lemma_wrap16_shift(sum_sizes(old(self).value_seq()), bytes_size(value@.len()) as int);
        }
        self.keys.insert(key_index, key);
        self.values.insert(value_index, value);
    }

    fn remove_key_value(&mut self, key_index: usize, value_index: usize) -> (r: (Vec<u8>, Vec<u8>))
        requires
            key_index < old(self).keys@.len(),
            value_index < old(self).values@.len(),
            value_index <= key_index + 1,
            key_index <= value_index + 1,
        ensures
            r.0 == old(self).keys@[key_index as int],
            r.1 == old(self).values@[value_index as int],
            final(self).keys@ == old(self).keys@.remove(key_index as int),
            final(self).values@ == old(self).values@.remove(value_index as int),
            final(self).key_seq() == old(self).key_seq().remove(key_index as int),
            final(self).value_seq() == old(self).value_seq().remove(value_index as int),
            final(self).header.next == old(self).header.next,
            final(self).header._padding == old(self).header._padding,
            final(self).header.keys_total_size == wrap16(
                old(self).header.keys_total_size - bytes_size(r.0@.len()),
            ),
            final(self).header.items_total_size == wrap16(
                old(self).header.items_total_size - bytes_size(r.1@.len()),
            ),
            old(self).sizes_ok() ==> final(self).sizes_ok(),
    {
        let key = self.keys.remove(key_index);
        let value = self.values.remove(value_index);
        self.header.keys_total_size = sub_size(self.header.keys_total_size, key.byte_size());
        self.header.items_total_size = sub_size(self.header.items_total_size, value.byte_size());
        proof {
            lemma_keys_view_edits(old(self).keys@, key_index as int, key, old(self).keys@);
            lemma_keys_view_edits(old(self).values@, value_index as int, value, old(self).values@);
            lemma_sum_sizes_edit(old(self).key_seq(), key_index as int, key@);
            lemma_sum_sizes_edit(old(self).value_seq(), value_index as int, value@);
            lemma_wrap16_shift(sum_sizes(old(self).key_seq()), bytes_size(key@.len()) as int);
            lemma_wrap16_shift(sum_sizes(old(self).value_seq()), bytes_size(value@.len()) as int);
        }
        (key, value)
    }

    /// Removes `key` and its value; `KeyNotFound` when the leaf does not hold `key`.
    pub fn delete_key(&mut self, key: &[u8]) -> (r: KvResult<()>)
        requires
            old(self).paired(),
        ensures
            final(self).paired(),
            final(self).header.next == old(self).header.next,
            final(self).header._padding == old(self).header._padding,
            old(self).sizes_ok() ==> final(self).sizes_ok(),
            match r {
                Ok(()) => exists|i: int|
                    0 <= i < old(self).key_seq().len() && old(self).key_seq()[i] == key@
                        && final(self).key_seq() == old(self).key_seq().remove(i)
                        && final(self).value_seq() == old(self).value_seq().remove(i),
                Err(e) => {
                    &&& e matches KvError::KeyNotFound(k) && k@ == key@
                    &&& *final(self) == *old(self)
                },
            },
            sorted_keys(old(self).key_seq()) ==> {
                let ks = old(self).key_seq();
                let i = route(ks, key@);
                &&& (r is Ok <==> (i < ks.len() && ks[i] == key@))
                &&& r is Ok ==> final(self).key_seq() == ks.remove(i) && final(self).value_seq()
                    == old(self).value_seq().remove(i)
                &&& sorted_keys(final(self).key_seq())
            },
    {
        let ghost ks = self.key_seq();
        proof {
            lemma_keys_view_edits(self.keys@, 0, vstd::pervasive::arbitrary(), self.keys@);
        }
        match binary_search_key(key, &self.keys) {
            Ok(idx) => {
                let _ = self.remove_key_value(idx, idx);
                proof {
                    if sorted_keys(ks) {
                        let ns = ks.remove(idx as int);
                        assert forall|a: int, b: int| 0 <= a < b < ns.len() implies #[trigger] crate::btree::key_order::key_lt(
                            ns[a],
                            ns[b],
                        ) by {
                            if b < idx {
                                assert(ns[a] == ks[a] && ns[b] == ks[b]);
                            } else if a < idx {
                                assert(ns[a] == ks[a] && ns[b] == ks[b + 1]);
                            } else {
                                assert(ns[a] == ks[a + 1] && ns[b] == ks[b + 1]);
                            }
                        }
                    }
                }
                Ok(())
            },
            Err(_) => Err(KvError::KeyNotFound(vstd::slice::slice_to_vec(key))),
        }
    }

    pub fn push_firsts(&mut self, key: Vec<u8>, value: Vec<u8>)
        ensures
            final(self).keys@ == old(self).keys@.insert(0, key),
            final(self).values@ == old(self).values@.insert(0, value),
            final(self).key_seq() == old(self).key_seq().insert(0, key@),
            final(self).value_seq() == old(self).value_seq().insert(0, value@),
            final(self).header.next == old(self).header.next,
            final(self).header._padding == old(self).header._padding,
            final(self).header.keys_total_size == wrap16(
                old(self).header.keys_total_size + bytes_size(key@.len()),
            ),
            final(self).header.items_total_size == wrap16(
                old(self).header.items_total_size + bytes_size(value@.len()),
            ),
            old(self).sizes_ok() ==> final(self).sizes_ok(),
    {
        self.insert_key_value(0, key, 0, value);
    }

    pub fn push_lasts(&mut self, key: Vec<u8>, value: Vec<u8>)
        requires
            old(self).keys@.len() <= old(self).values@.len(),
        ensures
            final(self).keys@ == old(self).keys@.push(key),
            final(self).values@ == old(self).values@.insert(old(self).keys@.len() as int, value),
            final(self).key_seq() == old(self).key_seq().push(key@),
            final(self).value_seq() == old(self).value_seq().insert(
                old(self).keys@.len() as int,
                value@,
            ),
            final(self).header.next == old(self).header.next,
            final(self).header._padding == old(self).header._padding,
            final(self).header.keys_total_size == wrap16(
                old(self).header.keys_total_size + bytes_size(key@.len()),
            ),
            final(self).header.items_total_size == wrap16(
                old(self).header.items_total_size + bytes_size(value@.len()),
            ),
            old(self).sizes_ok() ==> final(self).sizes_ok(),
    {
        let key_count = self.keys.len();
        self.insert_key_value(key_count, key, key_count, value);
        assert(old(self).keys@.insert(key_count as int, key) =~= old(self).keys@.push(key));
        assert(old(self).key_seq().insert(key_count as int, key@) =~= old(self).key_seq().push(
            key@,
        ));
    }

    pub fn remove_lasts(&mut self) -> (r: (Vec<u8>, Vec<u8>))
        requires
            old(self).keys@.len() > 0,
            old(self).keys@.len() <= old(self).values@.len(),
        ensures
            r.0 == old(self).keys@.last(),
            r.1 == old(self).values@[old(self).keys@.len() - 1],
            final(self).keys@ == old(self).keys@.drop_last(),
            final(self).values@ == old(self).values@.remove(old(self).keys@.len() - 1),
            final(self).key_seq() == old(self).key_seq().drop_last(),
            final(self).value_seq() == old(self).value_seq().remove(old(self).keys@.len() - 1),
            final(self).header.next == old(self).header.next,
            final(self).header._padding == old(self).header._padding,
            final(self).header.keys_total_size == wrap16(
                old(self).header.keys_total_size - bytes_size(r.0@.len()),
            ),
            final(self).header.items_total_size == wrap16(
                old(self).header.items_total_size - bytes_size(r.1@.len()),
            ),
            old(self).sizes_ok() ==> final(self).sizes_ok(),
    {
        let key_count = self.keys.len();
        let r = self.remove_key_value(key_count - 1, key_count - 1);
        assert(old(self).keys@.remove(key_count - 1) =~= old(self).keys@.drop_last());
        assert(old(self).key_seq().remove(key_count - 1) =~= old(self).key_seq().drop_last());
        r
    }

    pub fn remove_firsts(&mut self) -> (r: (Vec<u8>, Vec<u8>))
        requires
            old(self).keys@.len() > 0,
            old(self).values@.len() > 0,
        ensures
            r.0 == old(self).keys@[0],
            r.1 == old(self).values@[0],
            final(self).keys@ == old(self).keys@.remove(0),
            final(self).values@ == old(self).values@.remove(0),
            final(self).key_seq() == old(self).key_seq().remove(0),
            final(self).value_seq() == old(self).value_seq().remove(0),
            final(self).header.next == old(self).header.next,
            final(self).header._padding == old(self).header._padding,
            final(self).header.keys_total_size == wrap16(
                old(self).header.keys_total_size - bytes_size(r.0@.len()),
            ),
            final(self).header.items_total_size == wrap16(
                old(self).header.items_total_size - bytes_size(r.1@.len()),
            ),
            old(self).sizes_ok() ==> final(self).sizes_ok(),
    {
        self.remove_key_value(0, 0)
    }

    /// The keys and the values, to be changed in place; the header is not kept up to date
    /// by changes made through them.
    pub fn get_key_values_mut(&mut self) -> (r: (&mut Vec<Vec<u8>>, &mut Vec<Vec<u8>>))
        ensures
            *r.0 == old(self).keys,
            *r.1 == old(self).values,
            final(self).header == old(self).header,
            final(self).keys == *final(r.0),
            final(self).values == *final(r.1),
    {
        (&mut self.keys, &mut self.values)
    }

    pub fn get_key_value_by_index(&self, index: usize) -> (r: (&Vec<u8>, &Vec<u8>))
        requires
            index < self.keys@.len(),
            index < self.values@.len(),
        ensures
            *r.0 == self.keys@[index as int],
            *r.1 == self.values@[index as int],
    {
        (&self.keys[index], &self.values[index])
    }
}

/// What the byte strings of `v` count for together, wrapping around at 2^16.
pub fn sum_byte_sizes(v: &Vec<Vec<u8>>) -> (r: u16)
    ensures
        r == wrap16(sum_sizes(keys_view(v@))),
{
    let mut total: u16 = 0;
    let mut i: usize = 0;
    while i < v.len()
        invariant
            0 <= i <= v@.len(),
            total == wrap16(sum_sizes(keys_view(v@.subrange(0, i as int)))),
        decreases v@.len() - i,
    {
        proof {
            let pre = v@.subrange(0, i as int);
            assert(v@.subrange(0, i + 1) =~= pre.push(v@[i as int]));
            lemma_keys_view_edits(pre, 0, v@[i as int], pre);
            let kp = keys_view(pre).push(v@[i as int]@);
            assert(kp.drop_last() =~= keys_view(pre));
            lemma_sum_sizes_nonneg(keys_view(pre));
            lemma_wrap16_shift(sum_sizes(keys_view(pre)), bytes_size(v@[i as int]@.len()) as int);
        }
        total = add_size(total, v[i].byte_size());
        i = i + 1;
    }
    assert(v@.subrange(0, v@.len() as int) =~= v@);
    total
}

} // verus!
