//! The decisions of the load generator: which request a tick sends, how its rate rises
//! from tier to tier, and whether an answer counts as an error. The draws, the clock and
//! the network are the caller's.
use vstd::prelude::*;

verus! {

/// The kind of an HTTP request sent to the store.
#[derive(Clone, Copy, Debug, PartialEq, Eq, Structural)]
pub enum RequestKind {
    Get,
    Put,
    Delete,
}

/// The mix of requests a load sends.
#[derive(Clone, Copy, Debug, PartialEq, Eq, Structural)]
pub enum LoadType {
    ReadDominant,
    WriteDominant,
    Balanced,
}

/// How many of every thousand requests of `load_type` are reads.
pub fn read_share_per_mille(load_type: LoadType) -> (r: u32)
    ensures
        r == match load_type {
            LoadType::ReadDominant => 900u32,
            LoadType::WriteDominant => 100u32,
            LoadType::Balanced => 100u32,
        },
{
    match load_type {
        LoadType::ReadDominant => 900,
        LoadType::WriteDominant => 100,
        LoadType::Balanced => 100,
    }
}

/// The request that a tick of `load_type` sends, given whether the draw made it a read and,
/// for a balanced load, whether a write is a deletion; the second part tells whether the
/// request carries the value stored for the key (else a fresh one).
pub fn choose_request(load_type: LoadType, is_read: bool, write_is_delete: bool) -> (r: (RequestKind, bool))
    ensures
        is_read ==> r == (RequestKind::Get, true),
        !is_read && load_type == LoadType::Balanced && write_is_delete ==> r == (RequestKind::Delete, true),
        !is_read && !(load_type == LoadType::Balanced && write_is_delete) ==> r == (RequestKind::Put, false),
{
    match load_type {
        LoadType::ReadDominant | LoadType::WriteDominant => {
            if is_read {
                (RequestKind::Get, true)
            } else {
                (RequestKind::Put, false)
            }
        },
        LoadType::Balanced => {
            if is_read {
                (RequestKind::Get, true)
            } else if write_is_delete {
                (RequestKind::Delete, true)
            } else {
                (RequestKind::Put, false)
            }
        },
    }
}

/// The rate of the next tier: `increment` more than `current`, or `None` once that passes
/// `max` (or the largest rate there is), which ends the run.
pub fn next_qps(current: u32, increment: u32, max: u32) -> (r: Option<u32>)
    ensures
        current + increment <= max ==> r == Some((current + increment) as u32),
        current + increment > max ==> r is None,
{
    match current.checked_add(increment) {
        Some(next) => {
            if next > max {
                None
            } else {
                Some(next)
            }
        },
        None => None,
    }
}

/// What an answer tells of its request.
#[derive(Clone, Copy, Debug, PartialEq, Eq, Structural)]
pub enum ResponseCheck {
    /// The request went through as expected.
    Fine,
    /// The store answered with a status other than OK.
    StatusError,
    /// A read found a value other than the one stored.
    ValueMismatch,
}

/// Judges an answer: a status other than OK is an error; a read that comes back with a
/// non-empty body other than `expected` found the wrong value.
pub fn check_response(status_ok: bool, is_get: bool, body: &[u8], expected: &[u8]) -> (r: ResponseCheck)
    ensures
        !status_ok ==> r == ResponseCheck::StatusError,
        status_ok && is_get && body@.len() > 0 && body@ != expected@ ==> r == ResponseCheck::ValueMismatch,
        status_ok && !(is_get && body@.len() > 0 && body@ != expected@) ==> r == ResponseCheck::Fine,
{
    if !status_ok {
        return ResponseCheck::StatusError;
    }
    if is_get && body.len() > 0 && !bytes_equal(body, expected) {
        ResponseCheck::ValueMismatch
    } else {
        ResponseCheck::Fine
    }
}

/// Whether two byte strings are the same.
fn bytes_equal(a: &[u8], b: &[u8]) -> (r: bool)
    ensures
        r == (a@ == b@),
{
    if a.len() != b.len() {
        return false;
    }
    let mut i: usize = 0;
    while i < a.len()
        invariant
            a@.len() == b@.len(),
            0 <= i <= a@.len(),
            forall|j: int| 0 <= j < i ==> a@[j] == b@[j],
        decreases a@.len() - i,
    {
        if a[i] != b[i] {
            return false;
        }
        i = i + 1;
    }
    assert(a@ =~= b@);
    true
}

} // verus!
