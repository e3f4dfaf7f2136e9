//! Hashes of messages and payloads with std's `DefaultHasher`: a message
//! hash for deduplication over the full content, and a payload hash keying
//! the JSON display cache over the payload's first `MAX_HASH_BYTES` bytes.

use std::collections::hash_map::DefaultHasher;
use std::hash::Hasher;
use vstd::prelude::*;
use vstd::std_specs::hash::DefaultHasherAdditionalSpecFns;
use vstd::string::StringSliceAdditionalSpecFns;

verus! {

/// Number of leading payload bytes the payload hash covers.
pub const MAX_HASH_BYTES: usize = 4096;

/// The `k` bytes of `n` in little-endian order.
pub open spec fn le_bytes(n: nat, k: nat) -> Seq<u8>
    decreases k,
{
    if k == 0 {
        Seq::empty()
    } else {
        seq![(n % 256) as u8] + le_bytes(n / 256, (k - 1) as nat)
    }
}

/// The 8 little-endian bytes of `n`.
fn le_bytes_u64(n: u64) -> (res: Vec<u8>)
    ensures
        res@ == le_bytes(n as nat, 8),
{
    let mut v: Vec<u8> = Vec::new();
    let mut x: u64 = n;
    let mut i: u64 = 0;
    while i < 8
        invariant
            i <= 8,
            v@ + le_bytes(x as nat, (8 - i) as nat) == le_bytes(n as nat, 8),
        decreases 8 - i,
    {
        let ghost before = v@;
        let ghost k = (8 - i) as nat;
        v.push((x % 256) as u8);
        proof {
            assert(le_bytes(x as nat, k) == seq![((x as nat) % 256) as u8] + le_bytes((x as nat) / 256, (k - 1) as nat));
            assert(v@ + le_bytes((x / 256) as nat, (k - 1) as nat) =~= before + le_bytes(x as nat, k));
        }
        x = x / 256;
        i = i + 1;
    }
    proof {
        assert(v@ + le_bytes(x as nat, 0) =~= v@);
    }
    v
}

/// What hashing a byte slice writes: the bytes of its length, then its
/// bytes.
pub open spec fn slice_writes(len_bytes: Seq<u8>, bytes: Seq<u8>) -> Seq<Seq<u8>> {
    seq![len_bytes, bytes]
}

/// Hashes a message for deduplication over its full content (see
/// `Deduper::hash_message`): the key's bytes, a `0xFF` separator, then every
/// byte of the payload, so payloads that differ anywhere hash apart.
pub fn compute_message_hash(key: &str, payload: &str) -> (res: u64)
    ensures
        res == DefaultHasher::spec_finish(seq![key.spec_bytes(), seq![0xFFu8], payload.spec_bytes()]),
{
    crate::dedup::Deduper::hash_message(key, payload.as_bytes())
}

/// The bytes of a payload that its hash covers: the first `MAX_HASH_BYTES`
/// bytes, or all of them when there are fewer.
pub open spec fn hashed_prefix(payload: Seq<u8>) -> Seq<u8> {
    if payload.len() > MAX_HASH_BYTES {
        payload.subrange(0, MAX_HASH_BYTES as int)
    } else {
        payload
    }
}

/// The hash of a payload with these bytes: its `hashed_prefix` written as
/// a slice, its length first (as 8 little-endian bytes), then its bytes.
pub open spec fn payload_hash(payload: Seq<u8>) -> u64 {
    DefaultHasher::spec_finish(slice_writes(le_bytes(hashed_prefix(payload).len(), 8), hashed_prefix(payload)))
}

/// The payload hash reads only the first `MAX_HASH_BYTES` bytes: payloads
/// that agree on them have the same hashes.
pub proof fn law_payload_hash_reads_prefix(a: Seq<u8>, b: Seq<u8>)
    requires
        hashed_prefix(a) == hashed_prefix(b),
    ensures
        payload_hash(a) == payload_hash(b),
{
}

/// Hashes a payload for caching: its first `MAX_HASH_BYTES` bytes as a
/// slice (see `payload_hash`), so equal payloads, and payloads agreeing on
/// those bytes, hash alike.
pub fn compute_payload_hash(payload: &str) -> (res: u64)
    ensures
        res == payload_hash(payload.spec_bytes()),
{
    let mut hasher = DefaultHasher::new();
    let bytes = payload.as_bytes();
    let n = if bytes.len() > MAX_HASH_BYTES {
        MAX_HASH_BYTES
    } else {
        bytes.len()
    };
    let slice = &bytes[0..n];
    proof {
        assert(slice@ =~= hashed_prefix(payload.spec_bytes()));
    }
    let len_bytes = le_bytes_u64(n as u64);
    hasher.write(len_bytes.as_slice());
    hasher.write(slice);
    let res = hasher.finish();
    proof {
        assert(hasher@ =~= slice_writes(len_bytes@, slice@));
    }
    res
}

} // verus!
