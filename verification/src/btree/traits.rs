//! How many bytes a stored value counts for in a page. Counts are `u16`, the width of the
//! size fields of a node's header, and wrap around at 2^16 as such fields do.
use vstd::prelude::*;

use crate::btree::common::PageId;

verus! {

/// `x` taken modulo 2^16, as a `u16` holds it.
pub open spec fn wrap16(x: int) -> u16 {
    (x % 0x10000) as u16
}

/// What a byte string of length `len` counts for: its bytes and a `u64` length.
pub open spec fn bytes_size(len: nat) -> u16 {
    wrap16(8 + len as int)
}

/// What a page id counts for.
pub const PAGE_ID_SIZE: u16 = 8;

/// The sum of what each of `s` counts for.
pub open spec fn sum_sizes(s: Seq<Seq<u8>>) -> int
    decreases s.len(),
{
    if s.len() == 0 {
        0
    } else {
        sum_sizes(s.drop_last()) + bytes_size(s.last().len())
    }
}

pub proof fn lemma_sum_sizes_append(a: Seq<Seq<u8>>, b: Seq<Seq<u8>>)
    ensures
        sum_sizes(a + b) == sum_sizes(a) + sum_sizes(b),
    decreases b.len(),
{
    if b.len() == 0 {
        assert(a + b =~= a);
    } else {
        lemma_sum_sizes_append(a, b.drop_last());
        assert((a + b).drop_last() =~= a + b.drop_last());
    }
}

pub proof fn lemma_sum_sizes_nonneg(s: Seq<Seq<u8>>)
    ensures
        sum_sizes(s) >= 0,
    decreases s.len(),
{
    if s.len() > 0 {
        lemma_sum_sizes_nonneg(s.drop_last());
    }
}

pub proof fn lemma_sum_sizes_singleton(x: Seq<u8>)
    ensures
        sum_sizes(seq![x]) == bytes_size(x.len()),
{
    assert(seq![x].drop_last() =~= Seq::<Seq<u8>>::empty());
    assert(sum_sizes(Seq::<Seq<u8>>::empty()) == 0);
    assert(seq![x].last() == x);
}

/// What inserting, removing or replacing one element does to the sum.
pub proof fn lemma_sum_sizes_edit(s: Seq<Seq<u8>>, i: int, x: Seq<u8>)
    ensures
        0 <= i <= s.len() ==> sum_sizes(s.insert(i, x)) == sum_sizes(s) + bytes_size(x.len()),
        0 <= i < s.len() ==> sum_sizes(s.remove(i)) == sum_sizes(s) - bytes_size(s[i].len()),
        0 <= i < s.len() ==> sum_sizes(s.update(i, x)) == sum_sizes(s) - bytes_size(s[i].len())
            + bytes_size(x.len()),
{
    if 0 <= i <= s.len() {
        let pre = s.subrange(0, i);
        let post = s.subrange(i, s.len() as int);
        assert(s =~= pre + post);
        assert(s.insert(i, x) =~= pre + (seq![x] + post));
        lemma_sum_sizes_append(pre, post);
        lemma_sum_sizes_append(pre, seq![x] + post);
        lemma_sum_sizes_append(seq![x], post);
        lemma_sum_sizes_singleton(x);
    }
    if 0 <= i < s.len() {
        let pre = s.subrange(0, i);
        let post = s.subrange(i + 1, s.len() as int);
        assert(s =~= pre + (seq![s[i]] + post));
        assert(s.remove(i) =~= pre + post);
        assert(s.update(i, x) =~= pre + (seq![x] + post));
        lemma_sum_sizes_append(pre, post);
        lemma_sum_sizes_append(pre, seq![s[i]] + post);
        lemma_sum_sizes_append(seq![s[i]], post);
        lemma_sum_sizes_append(pre, seq![x] + post);
        lemma_sum_sizes_append(seq![x], post);
        lemma_sum_sizes_singleton(x);
        lemma_sum_sizes_singleton(s[i]);
    }
}

pub proof fn lemma_wrap16_add(a: int, b: int)
    ensures
        wrap16(wrap16(a) + wrap16(b)) == wrap16(a + b),
{
    vstd::arithmetic::div_mod::lemma_add_mod_noop(a, b, 0x10000);
}

pub proof fn lemma_wrap16_sub(a: int, b: int)
    ensures
        wrap16(wrap16(a) - wrap16(b)) == wrap16(a - b),
{
    vstd::arithmetic::div_mod::lemma_sub_mod_noop(a, b, 0x10000);
}

pub proof fn lemma_wrap16_idem(a: int)
    ensures
        wrap16(wrap16(a) as int) == wrap16(a),
        0 <= a < 0x10000 ==> wrap16(a) == a,
{
    vstd::arithmetic::div_mod::lemma_mod_twice(a, 0x10000);
    if 0 <= a < 0x10000 {
        vstd::arithmetic::div_mod::lemma_small_mod(a as nat, 0x10000);
    }
}


/// Adding or taking away a `u16` amount commutes with wrapping.
pub proof fn lemma_wrap16_shift(a: int, b: int)
    requires
        0 <= b < 0x10000,
    ensures
        wrap16(wrap16(a) + b) == wrap16(a + b),
        wrap16(wrap16(a) - b) == wrap16(a - b),
{
    lemma_wrap16_add(a, b);
    lemma_wrap16_sub(a, b);
    lemma_wrap16_idem(b);
}

/// `a + b` in 16 bits, wrapping around.
pub fn add_size(a: u16, b: u16) -> (r: u16)
    ensures
        r == wrap16(a + b),
{
    proof {
        lemma_wrap16_idem(a + b - 0x10000);
        vstd::arithmetic::div_mod::lemma_mod_sub_multiples_vanish(a + b, 0x10000);
        if a + b < 0x10000 {
            lemma_wrap16_idem(a + b);
        }
    }
    a.wrapping_add(b)
}

/// `a - b` in 16 bits, wrapping around.
pub fn sub_size(a: u16, b: u16) -> (r: u16)
    ensures
        r == wrap16(a - b),
{
    proof {
        if a >= b {
            lemma_wrap16_idem(a - b);
        } else {
            lemma_wrap16_idem(a - b + 0x10000);
            vstd::arithmetic::div_mod::lemma_mod_add_multiples_vanish(a - b, 0x10000);
        }
    }
    a.wrapping_sub(b)
}

/// The number of bytes a value counts for when it is stored in a page.
pub trait SerializedSize {
    fn byte_size(&self) -> u16;
}

impl SerializedSize for PageId {
    fn byte_size(&self) -> (r: u16)
        ensures
            r == PAGE_ID_SIZE,
    {
        PAGE_ID_SIZE
    }
}

impl SerializedSize for Vec<u8> {
    fn byte_size(&self) -> (r: u16)
        ensures
            r == bytes_size(self@.len()),
    {
        let r = (self.len() % 0x10000 + 8) % 0x10000;
        proof {
            vstd::arithmetic::div_mod::lemma_add_mod_noop(self@.len() as int, 8, 0x10000);
            vstd::arithmetic::div_mod::lemma_small_mod(8, 0x10000);
        }
        r as u16
    }
}

impl SerializedSize for &[u8] {
    fn byte_size(&self) -> (r: u16)
        ensures
            r == bytes_size(self@.len()),
    {
        let r = (self.len() % 0x10000 + 8) % 0x10000;
        proof {
            vstd::arithmetic::div_mod::lemma_add_mod_noop(self@.len() as int, 8, 0x10000);
            vstd::arithmetic::div_mod::lemma_small_mod(8, 0x10000);
        }
        r as u16
    }
}

} // verus!
