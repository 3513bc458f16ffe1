//! Page ids, the byte-wise order on keys, and binary search over sorted keys.
use vstd::prelude::*;

use crate::btree::key_order::{key_lt, keys_view, lemma_key_lt_common_prefix, route, sorted_keys};

verus! {

pub type PageId = u64;

/// The id that no page ever has.
pub const NULL_PAGE_ID: u64 = 0xffff_ffff_ffff_ffffu64;

/// Bytes in front of each serialized node that hold its length.
pub const PAGE_SIZE_PREFIX_BYTES: u16 = 2;

broadcast use crate::btree::key_order::group_key_order;

/// Three-way comparison of two keys: negative, zero or positive as `a` comes before,
/// equals or comes after `b`.
pub fn compare_keys(a: &[u8], b: &[u8]) -> (r: i8)
    ensures
        r < 0 <==> key_lt(a@, b@),
        r == 0 <==> a@ == b@,
        r > 0 <==> key_lt(b@, a@),
{
    let n: usize = if a.len() < b.len() {
        a.len()
    } else {
        b.len()
    };
    let mut i: usize = 0;
    while i < n
        invariant
            0 <= i <= n,
            n <= a@.len(),
            n <= b@.len(),
            n == a@.len() || n == b@.len(),
            a@.subrange(0, i as int) == b@.subrange(0, i as int),
        decreases n - i,
    {
        if a[i] != b[i] {
            proof {
                lemma_key_lt_common_prefix(a@, b@, i as int);
                lemma_key_lt_common_prefix(b@, a@, i as int);
                assert(a@.skip(i as int)[0] == a@[i as int]);
                assert(b@.skip(i as int)[0] == b@[i as int]);
                assert(a@.skip(i as int)[0] != b@.skip(i as int)[0]);
                assert(a@ != b@);
            }
            if a[i] < b[i] {
                return -1;
            } else {
                return 1;
            }
        }
        assert(a@.subrange(0, i + 1) =~= a@.subrange(0, i as int).push(a@[i as int]));
        assert(b@.subrange(0, i + 1) =~= b@.subrange(0, i as int).push(b@[i as int]));
        i = i + 1;
    }
    proof {
        lemma_key_lt_common_prefix(a@, b@, n as int);
        lemma_key_lt_common_prefix(b@, a@, n as int);
        assert(a@.skip(n as int).len() == a@.len() - n);
        assert(b@.skip(n as int).len() == b@.len() - n);
        if a@.len() == b@.len() {
            assert(a@ =~= a@.subrange(0, n as int));
            assert(b@ =~= b@.subrange(0, n as int));
        }
    }
    if a.len() < b.len() {
        -1
    } else if a.len() > b.len() {
        1
    } else {
        0
    }
}

/// Binary search of `key` in `vector`: `Ok` with the index of an equal key, or `Err` with
/// the index at which `key` would be inserted to keep sorted keys sorted.
pub fn binary_search_key(key: &[u8], vector: &Vec<Vec<u8>>) -> (r: Result<usize, usize>)
    ensures
        match r {
            Ok(i) => i < vector@.len() && vector@[i as int]@ == key@,
            Err(i) => i <= vector@.len(),
        },
        sorted_keys(keys_view(vector@)) ==> match r {
            Ok(i) => route(keys_view(vector@), key@) == i,
            Err(i) => {
                &&& route(keys_view(vector@), key@) == i
                &&& forall|j: int|
                    0 <= j < vector@.len() ==> #[trigger] vector@[j]@ != key@
            },
        },
{
    let ghost ks = keys_view(vector@);
    let mut lo: usize = 0;
    let mut hi: usize = vector.len();
    while lo < hi
        invariant
            0 <= lo <= hi <= vector@.len(),
            ks == keys_view(vector@),
            sorted_keys(ks) ==> forall|j: int| 0 <= j < lo ==> key_lt(#[trigger] ks[j], key@),
            sorted_keys(ks) ==> forall|j: int|
                hi <= j < vector@.len() ==> key_lt(key@, #[trigger] ks[j]),
        decreases hi - lo,
    {
        let mid = lo + (hi - lo) / 2;
        let c = compare_keys(vector[mid].as_slice(), key);
        assert(ks[mid as int] == vector@[mid as int]@);
        if c == 0 {
            proof {
                assert(ks[mid as int] == key@);
                if sorted_keys(ks) {
                    assert forall|j: int| mid <= j < ks.len() implies !key_lt(
                        #[trigger] ks[j],
                        key@,
                    ) by {
                        if j > mid {
                            assert(key_lt(ks[mid as int], ks[j]));
                        }
                    }
                    assert forall|j: int| 0 <= j < mid implies key_lt(#[trigger] ks[j], key@) by {
                        if j >= lo {
                            assert(key_lt(ks[j], ks[mid as int]));
                        }
                    }
                    crate::btree::key_order::lemma_route_unique(ks, key@, mid as int);
                }
            }
            return Ok(mid);
        } else if c < 0 {
            proof {
                assert(key_lt(ks[mid as int], key@));
                if sorted_keys(ks) {
                    assert forall|j: int| 0 <= j < mid + 1 implies key_lt(#[trigger] ks[j], key@) by {
                        if lo <= j < mid {
                            assert(key_lt(ks[j], ks[mid as int]));
                            assert(key_lt(ks[j], key@));
                        } else if j == mid {
                            assert(key_lt(ks[j], key@));
                        } else {
                            assert(j < lo);
                            assert(key_lt(ks[j], key@));
                        }
                    }
                }
            }
            lo = mid + 1;
        } else {
            proof {
                assert(key_lt(key@, ks[mid as int]));
                if sorted_keys(ks) {
                    assert forall|j: int| mid <= j < vector@.len() implies key_lt(
                        key@,
                        #[trigger] ks[j],
                    ) by {
                        if mid < j < hi {
                            assert(key_lt(ks[mid as int], ks[j]));
                        }
                    }
                }
            }
            hi = mid;
        }
    }
    proof {
        if sorted_keys(ks) {
            assert forall|j: int| lo <= j < ks.len() implies !key_lt(#[trigger] ks[j], key@) by {
                assert(key_lt(key@, ks[j]));
            }
            crate::btree::key_order::lemma_route_unique(ks, key@, lo as int);
            assert forall|j: int| 0 <= j < vector@.len() implies #[trigger] vector@[j]@ != key@ by {
                assert(ks[j] == vector@[j]@);
                if j < lo {
                    assert(key_lt(ks[j], key@));
                } else {
                    assert(key_lt(key@, ks[j]));
                }
            }
        }
    }
    Err(lo)
}

} // verus!
