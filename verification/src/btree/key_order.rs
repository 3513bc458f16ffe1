//! The order of keys: byte strings compared lexicographically.
use vstd::prelude::*;

verus! {

/// Lexicographic order on byte strings, the order of `<[u8] as Ord>`:
/// a proper prefix comes first, otherwise the first differing byte decides.
pub open spec fn key_lt(a: Seq<u8>, b: Seq<u8>) -> bool
    decreases a.len(),
{
    if a.len() == 0 {
        b.len() > 0
    } else if b.len() == 0 {
        false
    } else if a[0] != b[0] {
        a[0] < b[0]
    } else {
        key_lt(a.drop_first(), b.drop_first())
    }
}

/// The views of a vector of byte vectors.
pub open spec fn keys_view(v: Seq<Vec<u8>>) -> Seq<Seq<u8>> {
    v.map_values(|k: Vec<u8>| k@)
}

/// Strictly increasing keys: sorted, with no key twice.
pub open spec fn sorted_keys(s: Seq<Seq<u8>>) -> bool {
    forall|i: int, j: int| 0 <= i < j < s.len() ==> #[trigger] key_lt(s[i], s[j])
}

/// The number of keys that are smaller than `k`; for sorted keys, the index of the child
/// of an internal node that `k` is routed to.
pub open spec fn route(keys: Seq<Seq<u8>>, k: Seq<u8>) -> int
    decreases keys.len(),
{
    if keys.len() == 0 {
        0
    } else if key_lt(keys.last(), k) {
        keys.len() as int
    } else {
        route(keys.drop_last(), k)
    }
}

pub proof fn lemma_key_lt_irreflexive(a: Seq<u8>)
    ensures
        !key_lt(a, a),
    decreases a.len(),
{
    if a.len() > 0 {
        lemma_key_lt_irreflexive(a.drop_first());
    }
}

pub proof fn lemma_key_lt_asymmetric(a: Seq<u8>, b: Seq<u8>)
    ensures
        key_lt(a, b) ==> !key_lt(b, a),
    decreases a.len(),
{
    if a.len() > 0 && b.len() > 0 && a[0] == b[0] {
        lemma_key_lt_asymmetric(a.drop_first(), b.drop_first());
    }
}

pub proof fn lemma_key_lt_total(a: Seq<u8>, b: Seq<u8>)
    ensures
        a != b ==> key_lt(a, b) || key_lt(b, a),
    decreases a.len(),
{
    if a.len() > 0 && b.len() > 0 && a[0] == b[0] {
        lemma_key_lt_total(a.drop_first(), b.drop_first());
        if a.drop_first() == b.drop_first() {
            assert(a =~= seq![a[0]] + a.drop_first());
            assert(b =~= seq![b[0]] + b.drop_first());
        }
    } else if a.len() == 0 && b.len() == 0 {
        assert(a =~= b);
    }
}

pub proof fn lemma_key_lt_transitive(a: Seq<u8>, b: Seq<u8>, c: Seq<u8>)
    ensures
        key_lt(a, b) && key_lt(b, c) ==> key_lt(a, c),
    decreases a.len(),
{
    if a.len() > 0 && b.len() > 0 && c.len() > 0 && a[0] == b[0] && b[0] == c[0] {
        lemma_key_lt_transitive(a.drop_first(), b.drop_first(), c.drop_first());
    }
}

/// The laws of a strict total order for `key_lt`, for use as ambient facts.
pub broadcast proof fn lemma_key_order(a: Seq<u8>, b: Seq<u8>)
    ensures
        #[trigger] key_lt(a, b) ==> !key_lt(b, a) && a != b,
        a != b ==> key_lt(a, b) || key_lt(b, a),
{
    lemma_key_lt_asymmetric(a, b);
    lemma_key_lt_total(a, b);
    lemma_key_lt_irreflexive(a);
}

pub broadcast proof fn lemma_key_lt_trans(a: Seq<u8>, b: Seq<u8>, c: Seq<u8>)
    requires
        #[trigger] key_lt(a, b),
        #[trigger] key_lt(b, c),
    ensures
        key_lt(a, c),
{
    lemma_key_lt_transitive(a, b, c);
}

pub broadcast group group_key_order {
    lemma_key_order,
    lemma_key_lt_trans,
}

/// When two keys share their first `i` bytes, their order is that of what follows.
pub proof fn lemma_key_lt_common_prefix(a: Seq<u8>, b: Seq<u8>, i: int)
    requires
        0 <= i <= a.len(),
        i <= b.len(),
        a.subrange(0, i) == b.subrange(0, i),
    ensures
        key_lt(a, b) == key_lt(a.skip(i), b.skip(i)),
    decreases i,
{
    if i > 0 {
        assert(a[0] == a.subrange(0, i)[0]);
        assert(b[0] == b.subrange(0, i)[0]);
        assert(a.drop_first().subrange(0, i - 1) =~= a.subrange(0, i).drop_first());
        assert(b.drop_first().subrange(0, i - 1) =~= b.subrange(0, i).drop_first());
        lemma_key_lt_common_prefix(a.drop_first(), b.drop_first(), i - 1);
        assert(a.drop_first().skip(i - 1) =~= a.skip(i));
        assert(b.drop_first().skip(i - 1) =~= b.skip(i));
    } else {
        assert(a.skip(0) =~= a);
        assert(b.skip(0) =~= b);
    }
}

/// How `keys_view` goes along with the edits of a sequence.
pub proof fn lemma_keys_view_edits(v: Seq<Vec<u8>>, i: int, x: Vec<u8>, w: Seq<Vec<u8>>)
    ensures
        keys_view(v).len() == v.len(),
        forall|j: int| 0 <= j < v.len() ==> #[trigger] keys_view(v)[j] == v[j]@,
        0 <= i <= v.len() ==> keys_view(v.insert(i, x)) == keys_view(v).insert(i, x@),
        0 <= i < v.len() ==> keys_view(v.remove(i)) == keys_view(v).remove(i),
        0 <= i < v.len() ==> keys_view(v.update(i, x)) == keys_view(v).update(i, x@),
        0 <= i <= v.len() ==> keys_view(v.subrange(0, i)) == keys_view(v).subrange(0, i),
        0 <= i <= v.len() ==> keys_view(v.subrange(i, v.len() as int)) == keys_view(v).subrange(
            i,
            v.len() as int,
        ),
        keys_view(v + w) == keys_view(v) + keys_view(w),
        keys_view(v.push(x)) == keys_view(v).push(x@),
        keys_view(Seq::<Vec<u8>>::empty()) == Seq::<Seq<u8>>::empty(),
{
    if 0 <= i <= v.len() {
        assert(keys_view(v.insert(i, x)) =~= keys_view(v).insert(i, x@));
        assert(keys_view(v.subrange(0, i)) =~= keys_view(v).subrange(0, i));
        assert(keys_view(v.subrange(i, v.len() as int)) =~= keys_view(v).subrange(
            i,
            v.len() as int,
        ));
    }
    if 0 <= i < v.len() {
        assert(keys_view(v.remove(i)) =~= keys_view(v).remove(i));
        assert(keys_view(v.update(i, x)) =~= keys_view(v).update(i, x@));
    }
    assert(keys_view(v + w) =~= keys_view(v) + keys_view(w));
    assert(keys_view(v.push(x)) =~= keys_view(v).push(x@));
    assert(keys_view(Seq::<Vec<u8>>::empty()) =~= Seq::<Seq<u8>>::empty());
}

/// For sorted keys, `route` is the one index with every key before it smaller than `k`
/// and no key from it on smaller than `k`.
pub proof fn lemma_route(keys: Seq<Seq<u8>>, k: Seq<u8>)
    requires
        sorted_keys(keys),
    ensures
        0 <= route(keys, k) <= keys.len(),
        forall|j: int| 0 <= j < route(keys, k) ==> key_lt(#[trigger] keys[j], k),
        forall|j: int| route(keys, k) <= j < keys.len() ==> !key_lt(#[trigger] keys[j], k),
    decreases keys.len(),
{
    broadcast use group_key_order;

    if keys.len() > 0 {
        let pre = keys.drop_last();
        assert(sorted_keys(pre)) by {
            assert forall|i: int, j: int| 0 <= i < j < pre.len() implies #[trigger] key_lt(
                pre[i],
                pre[j],
            ) by {
                assert(pre[i] == keys[i] && pre[j] == keys[j]);
            }
        }
        lemma_route(pre, k);
        if key_lt(keys.last(), k) {
            assert forall|j: int| 0 <= j < keys.len() implies key_lt(#[trigger] keys[j], k) by {
                if j < keys.len() - 1 {
                    assert(key_lt(keys[j], keys[keys.len() - 1]));
                }
            }
        } else {
            assert forall|j: int| route(keys, k) <= j < keys.len() implies !key_lt(
                #[trigger] keys[j],
                k,
            ) by {
                if j < keys.len() - 1 {
                    assert(pre[j] == keys[j]);
                }
            }
            assert forall|j: int| 0 <= j < route(keys, k) implies key_lt(#[trigger] keys[j], k) by {
                assert(pre[j] == keys[j]);
            }
        }
    }
}

/// `route` is determined by the two properties of `lemma_route`.
pub proof fn lemma_route_unique(keys: Seq<Seq<u8>>, k: Seq<u8>, i: int)
    requires
        sorted_keys(keys),
        0 <= i <= keys.len(),
        forall|j: int| 0 <= j < i ==> key_lt(#[trigger] keys[j], k),
        forall|j: int| i <= j < keys.len() ==> !key_lt(#[trigger] keys[j], k),
    ensures
        route(keys, k) == i,
{
    lemma_route(keys, k);
    let r = route(keys, k);
    if r < i {
        assert(key_lt(keys[r], k));
    } else if r > i {
        assert(key_lt(keys[i], k));
    }
}

/// Routing among sorted keys after inserting `m` where it keeps them sorted.
pub proof fn lemma_route_insert(ks: Seq<Seq<u8>>, i: int, m: Seq<u8>, k: Seq<u8>)
    requires
        sorted_keys(ks),
        sorted_keys(ks.insert(i, m)),
        0 <= i <= ks.len(),
    ensures
        route(ks.insert(i, m), k) == ({
            let r = route(ks, k);
            if r < i {
                r
            } else if r > i {
                r + 1
            } else if !key_lt(m, k) {
                i
            } else {
                i + 1
            }
        }),
{
    broadcast use group_key_order;

    let ks2 = ks.insert(i, m);
    lemma_route(ks, k);
    let r = route(ks, k);
    let t = if r < i {
        r
    } else if r > i {
        r + 1
    } else if !key_lt(m, k) {
        i
    } else {
        i + 1
    };
    assert forall|j: int| 0 <= j < t implies key_lt(#[trigger] ks2[j], k) by {
        if j < i {
            assert(ks2[j] == ks[j]);
        } else if j > i {
            assert(ks2[j] == ks[j - 1]);
        } else {
            if r > i {
                assert(key_lt(ks[i], k));
                assert(ks2[i] == m);
                assert(ks2[i + 1] == ks[i]);
                assert(key_lt(ks2[i], ks2[i + 1]));
            }
        }
    }
    assert forall|j: int| t <= j < ks2.len() implies !key_lt(#[trigger] ks2[j], k) by {
        if j < i {
            assert(ks2[j] == ks[j]);
        } else if j > i {
            assert(ks2[j] == ks[j - 1]);
        } else {
            if r < i {
                assert(!key_lt(ks[r], k));
                assert(key_lt(ks2[r], ks2[i]));
            }
        }
    }
    lemma_route_unique(ks2, k, t);
}

/// Routing among the first `a` of sorted keys, for a key routed no further than `a`.
pub proof fn lemma_route_prefix(ks: Seq<Seq<u8>>, a: int, k: Seq<u8>)
    requires
        sorted_keys(ks),
        0 <= a <= ks.len(),
        route(ks, k) <= a,
    ensures
        route(ks.subrange(0, a), k) == route(ks, k),
{
    let s = ks.subrange(0, a);
    lemma_route(ks, k);
    assert(sorted_keys(s)) by {
        assert forall|i: int, j: int| 0 <= i < j < s.len() implies #[trigger] key_lt(s[i], s[j]) by {
            assert(s[i] == ks[i] && s[j] == ks[j]);
        }
    }
    assert forall|j: int| 0 <= j < route(ks, k) implies key_lt(#[trigger] s[j], k) by {
        assert(s[j] == ks[j]);
    }
    assert forall|j: int| route(ks, k) <= j < s.len() implies !key_lt(#[trigger] s[j], k) by {
        assert(s[j] == ks[j]);
    }
    lemma_route_unique(s, k, route(ks, k));
}

/// Routing among sorted keys from index `a` on, for a key routed at least as far as `a`.
pub proof fn lemma_route_suffix(ks: Seq<Seq<u8>>, a: int, k: Seq<u8>)
    requires
        sorted_keys(ks),
        0 <= a <= ks.len(),
        route(ks, k) >= a,
    ensures
        route(ks.subrange(a, ks.len() as int), k) == route(ks, k) - a,
{
    let s = ks.subrange(a, ks.len() as int);
    lemma_route(ks, k);
    assert(sorted_keys(s)) by {
        assert forall|i: int, j: int| 0 <= i < j < s.len() implies #[trigger] key_lt(s[i], s[j]) by {
            assert(s[i] == ks[i + a] && s[j] == ks[j + a]);
        }
    }
    assert forall|j: int| 0 <= j < route(ks, k) - a implies key_lt(#[trigger] s[j], k) by {
        assert(s[j] == ks[j + a]);
    }
    assert forall|j: int| route(ks, k) - a <= j < s.len() implies !key_lt(#[trigger] s[j], k) by {
        assert(s[j] == ks[j + a]);
    }
    lemma_route_unique(s, k, route(ks, k) - a);
}

/// Routing after removing the key at `i` from sorted keys.
pub proof fn lemma_route_remove(ks: Seq<Seq<u8>>, i: int, k: Seq<u8>)
    requires
        sorted_keys(ks),
        0 <= i < ks.len(),
    ensures
        sorted_keys(ks.remove(i)),
        route(ks.remove(i), k) == if route(ks, k) <= i {
            route(ks, k)
        } else {
            route(ks, k) - 1
        },
{
    broadcast use group_key_order;

    let s = ks.remove(i);
    lemma_route(ks, k);
    let r = route(ks, k);
    assert(sorted_keys(s)) by {
        assert forall|a: int, b: int| 0 <= a < b < s.len() implies #[trigger] key_lt(s[a], s[b]) by {
            let a2 = if a < i { a } else { a + 1 };
            let b2 = if b < i { b } else { b + 1 };
            assert(s[a] == ks[a2] && s[b] == ks[b2]);
        }
    }
    let t = if r <= i { r } else { r - 1 };
    assert forall|j: int| 0 <= j < t implies key_lt(#[trigger] s[j], k) by {
        if j < i {
            assert(s[j] == ks[j]);
        } else {
            assert(s[j] == ks[j + 1]);
        }
    }
    assert forall|j: int| t <= j < s.len() implies !key_lt(#[trigger] s[j], k) by {
        if j < i {
            assert(s[j] == ks[j]);
        } else {
            assert(s[j] == ks[j + 1]);
        }
    }
    lemma_route_unique(s, k, t);
}

/// Routing after replacing the key at `i` by `m` where that keeps the keys sorted.
pub proof fn lemma_route_update(ks: Seq<Seq<u8>>, i: int, m: Seq<u8>, k: Seq<u8>)
    requires
        sorted_keys(ks),
        sorted_keys(ks.update(i, m)),
        0 <= i < ks.len(),
    ensures
        route(ks.update(i, m), k) == ({
            let r = route(ks, k);
            if r < i || r > i + 1 {
                r
            } else if !key_lt(m, k) {
                i
            } else {
                i + 1
            }
        }),
{
    broadcast use group_key_order;

    let s = ks.update(i, m);
    lemma_route(ks, k);
    let r = route(ks, k);
    let t = if r < i || r > i + 1 {
        r
    } else if !key_lt(m, k) {
        i
    } else {
        i + 1
    };
    assert forall|j: int| 0 <= j < t implies key_lt(#[trigger] s[j], k) by {
        if j != i {
            assert(s[j] == ks[j]);
        } else if r > i + 1 {
            assert(key_lt(ks[i + 1], k));
            assert(key_lt(s[i], s[i + 1]));
        }
    }
    assert forall|j: int| t <= j < s.len() implies !key_lt(#[trigger] s[j], k) by {
        if j != i {
            assert(s[j] == ks[j]);
        } else if r < i {
            assert(!key_lt(ks[r], k));
            assert(key_lt(s[r], s[i]));
        }
    }
    lemma_route_unique(s, k, t);
}

/// Routing among sorted keys `a + [m] + b` where `m` lies between the two.
pub proof fn lemma_route_concat(a: Seq<Seq<u8>>, m: Seq<u8>, b: Seq<Seq<u8>>, k: Seq<u8>)
    requires
        sorted_keys(a),
        sorted_keys(b),
        forall|i: int| 0 <= i < a.len() ==> key_lt(#[trigger] a[i], m),
        forall|i: int| 0 <= i < b.len() ==> key_lt(m, #[trigger] b[i]),
    ensures
        sorted_keys(a.push(m) + b),
        route(a.push(m) + b, k) == if !key_lt(m, k) {
            route(a, k)
        } else {
            a.len() + 1 + route(b, k)
        },
{
    broadcast use group_key_order;

    let s = a.push(m) + b;
    assert(sorted_keys(s)) by {
        assert forall|x: int, y: int| 0 <= x < y < s.len() implies #[trigger] key_lt(s[x], s[y]) by {
            if y < a.len() {
                assert(s[x] == a[x] && s[y] == a[y]);
            } else if y == a.len() {
                assert(s[x] == a[x] && s[y] == m);
            } else if x < a.len() {
                assert(s[x] == a[x] && s[y] == b[y - a.len() - 1]);
                assert(key_lt(a[x], m));
            } else if x == a.len() {
                assert(s[x] == m && s[y] == b[y - a.len() - 1]);
            } else {
                assert(s[x] == b[x - a.len() - 1] && s[y] == b[y - a.len() - 1]);
            }
        }
    }
    lemma_route(a, k);
    lemma_route(b, k);
    let t = if !key_lt(m, k) {
        route(a, k)
    } else {
        a.len() + 1 + route(b, k)
    };
    assert forall|j: int| 0 <= j < t implies key_lt(#[trigger] s[j], k) by {
        if j < a.len() {
            assert(s[j] == a[j]);
        } else if j == a.len() {
            assert(s[j] == m);
        } else {
            assert(s[j] == b[j - a.len() - 1]);
        }
    }
    assert forall|j: int| t <= j < s.len() implies !key_lt(#[trigger] s[j], k) by {
        if j < a.len() {
            assert(s[j] == a[j]);
            assert(!key_lt(m, k));
            if route(a, k) < a.len() {
            }
        } else if j == a.len() {
            assert(s[j] == m);
        } else {
            assert(s[j] == b[j - a.len() - 1]);
            if !key_lt(m, k) {
                assert(key_lt(m, b[j - a.len() - 1]));
            }
        }
    }
    lemma_route_unique(s, k, t);
}

/// Inserting a key between its neighbours keeps keys sorted.
pub proof fn lemma_sorted_insert(ks: Seq<Seq<u8>>, i: int, m: Seq<u8>)
    requires
        sorted_keys(ks),
        0 <= i <= ks.len(),
        i > 0 ==> key_lt(ks[i - 1], m),
        i < ks.len() ==> key_lt(m, ks[i]),
    ensures
        sorted_keys(ks.insert(i, m)),
{
    broadcast use group_key_order;

    let s = ks.insert(i, m);
    assert forall|a: int, b: int| 0 <= a < b < s.len() implies #[trigger] key_lt(s[a], s[b]) by {
        if b < i {
            assert(s[a] == ks[a] && s[b] == ks[b]);
        } else if b == i {
            assert(s[a] == ks[a]);
            if a < i - 1 {
                assert(key_lt(ks[a], ks[i - 1]));
            }
        } else if a < i {
            assert(s[a] == ks[a] && s[b] == ks[b - 1]);
            if a < i - 1 {
                assert(key_lt(ks[a], ks[i - 1]));
            }
            if b - 1 > i {
                assert(key_lt(ks[i], ks[b - 1]));
            }
            assert(key_lt(ks[i - 1], m));
        } else if a == i {
            assert(s[b] == ks[b - 1]);
            if b - 1 > i {
                assert(key_lt(ks[i], ks[b - 1]));
            }
        } else {
            assert(s[a] == ks[a - 1] && s[b] == ks[b - 1]);
        }
    }
}

/// Any part of sorted keys is sorted.
pub proof fn lemma_sorted_subrange(ks: Seq<Seq<u8>>, a: int, b: int)
    requires
        sorted_keys(ks),
        0 <= a <= b <= ks.len(),
    ensures
        sorted_keys(ks.subrange(a, b)),
{
    let s = ks.subrange(a, b);
    assert forall|x: int, y: int| 0 <= x < y < s.len() implies #[trigger] key_lt(s[x], s[y]) by {
        assert(s[x] == ks[x + a] && s[y] == ks[y + a]);
    }
}

/// Routing among the keys from `a` to `b` of sorted keys, for a key routed between them.
pub proof fn lemma_route_slice(ks: Seq<Seq<u8>>, a: int, b: int, k: Seq<u8>)
    requires
        sorted_keys(ks),
        0 <= a <= b <= ks.len(),
        a <= route(ks, k) <= b,
    ensures
        sorted_keys(ks.subrange(a, b)),
        route(ks.subrange(a, b), k) == route(ks, k) - a,
{
    let s = ks.subrange(a, ks.len() as int);
    lemma_route_suffix(ks, a, k);
    lemma_sorted_subrange(ks, a, ks.len() as int);
    lemma_sorted_subrange(ks, a, b);
    lemma_route_prefix(s, b - a, k);
    assert(s.subrange(0, b - a) =~= ks.subrange(a, b));
}

} // verus!
