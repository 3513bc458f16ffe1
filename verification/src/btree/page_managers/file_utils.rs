//! How a node is laid out in its block of the file: the length of its serialized bytes in
//! two bytes, low byte first, then the bytes themselves.
use vstd::prelude::*;

verus! {

/// The two bytes that announce `len` bytes: the length modulo 2^16, low byte first.
pub open spec fn length_prefix(len: nat) -> Seq<u8> {
    let n = len % 0x10000;
    seq![(n % 256) as u8, (n / 256) as u8]
}

/// What is written for a node whose serialized form is `bytes`.
pub open spec fn framed(bytes: Seq<u8>) -> Seq<u8> {
    length_prefix(bytes.len()) + bytes
}

/// The length that two prefix bytes announce.
pub open spec fn announced_len(prefix: Seq<u8>) -> nat {
    (prefix[0] + 256 * prefix[1]) as nat
}

/// The bytes to write for a node whose serialized form is `bytes`: the length prefix, then
/// the bytes.
pub fn frame(bytes: &[u8]) -> (r: Vec<u8>)
    ensures
        r@ == framed(bytes@),
{
    let n = bytes.len() % 0x10000;
    let mut r: Vec<u8> = Vec::new();
    r.push((n % 256) as u8);
    r.push((n / 256) as u8);
    let mut i: usize = 0;
    while i < bytes.len()
        invariant
            0 <= i <= bytes@.len(),
            n == bytes@.len() % 0x10000,
            r@ == length_prefix(bytes@.len()) + bytes@.subrange(0, i as int),
        decreases bytes@.len() - i,
    {
        r.push(bytes[i]);
        i = i + 1;
        assert(bytes@.subrange(0, i as int) =~= bytes@.subrange(0, i - 1).push(bytes@[i - 1]));
    }
    assert(bytes@.subrange(0, bytes@.len() as int) =~= bytes@);
    r
}

/// The length that the two bytes of `prefix` announce.
pub fn framed_len(prefix: &[u8]) -> (r: usize)
    requires
        prefix@.len() == 2,
    ensures
        r == announced_len(prefix@),
{
    prefix[0] as usize + 256 * (prefix[1] as usize)
}

/// What a framed node announces is its length, and what follows the announcement is the
/// node, for every node shorter than 2^16 bytes.
pub proof fn lemma_frame_round_trip(bytes: Seq<u8>)
    requires
        bytes.len() < 0x10000,
    ensures
        announced_len(framed(bytes).subrange(0, 2)) == bytes.len(),
        framed(bytes).subrange(2, framed(bytes).len() as int) == bytes,
{
    let n = bytes.len() as int;
    assert(n % 0x10000 == n) by {
        vstd::arithmetic::div_mod::lemma_small_mod(n as nat, 0x10000);
    }
    assert(n == (n % 256) + 256 * (n / 256)) by {
        vstd::arithmetic::div_mod::lemma_fundamental_div_mod(n, 256);
    }
    assert(0 <= n / 256 < 256) by {
        vstd::arithmetic::div_mod::lemma_div_pos_is_pos(n, 256);
        vstd::arithmetic::div_mod::lemma_div_is_ordered(n, 0xffff, 256);
    }
    assert(framed(bytes).subrange(2, framed(bytes).len() as int) =~= bytes);
}

} // verus!
