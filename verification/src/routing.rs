//! Deterministic partition routing.
//!
//! The routing hash is FNV-1a over the key's UTF-8 bytes: a fixed,
//! well-distributed function of the bytes alone, so the same key maps to the
//! same partition across repeated lookups and across process restarts. A
//! message without a key always routes to partition 0. The hash algorithm is
//! part of the observable routing contract of this broker.

use vstd::prelude::*;

use vstd::utf8::encode_utf8;

verus! {

pub const FNV_OFFSET_BASIS: u64 = 0xcbf29ce484222325;

pub const FNV_PRIME: u64 = 0x100000001b3;

/// Product of two 64-bit values, reduced modulo 2^64.
pub open spec fn mul_mod64(a: u64, b: u64) -> u64 {
    ((a * b) % 0x1_0000_0000_0000_0000) as u64
}

/// FNV-1a over a byte sequence, processing bytes left to right.
pub open spec fn fnv1a(bytes: Seq<u8>) -> u64
    decreases bytes.len(),
{
    if bytes.len() == 0 {
        FNV_OFFSET_BASIS
    } else {
        mul_mod64(fnv1a(bytes.drop_last()) ^ (bytes.last() as u64), FNV_PRIME)
    }
}

/// The partition index a key routes to, for a topic with `num_partitions`
/// partitions: the key's hash reduced modulo the partition count, or 0 when
/// the key is absent.
pub open spec fn spec_partition_index(key: Option<Seq<char>>, num_partitions: u32) -> u32
    recommends
        num_partitions > 0,
{
    match key {
        Option::None => 0,
        Option::Some(k) => (fnv1a(encode_utf8(k)) % (num_partitions as u64)) as u32,
    }
}

/// FNV-1a over a byte slice.
pub fn fnv1a_hash(bytes: &[u8]) -> (h: u64)
    ensures
        h == fnv1a(bytes@),
{
    let mut h: u64 = FNV_OFFSET_BASIS;
    let mut i: usize = 0;
    while i < bytes.len()
        invariant
            i <= bytes@.len(),
            h == fnv1a(bytes@.take(i as int)),
        decreases bytes@.len() - i,
    {
        proof {
            assert(bytes@.take(i as int + 1).drop_last() =~= bytes@.take(i as int));
            assert(bytes@.take(i as int + 1).last() == bytes@[i as int]);
        }
        h = (h ^ (bytes[i] as u64)).wrapping_mul(FNV_PRIME);
        i = i + 1;
    }
    proof {
        assert(bytes@.take(bytes@.len() as int) =~= bytes@);
    }
    h
}

/// Resolve the destination partition for an optional message key:
/// `hash(key) % num_partitions` when a key is present, 0 otherwise.
pub fn partition_index_for_key(key: &Option<String>, num_partitions: u32) -> (idx: u32)
    requires
        num_partitions > 0,
    ensures
        idx == spec_partition_index(
            match *key {
                Option::Some(k) => Option::Some(k@),
                Option::None => Option::<Seq<char>>::None,
            },
            num_partitions,
        ),
        idx < num_partitions,
{
    match key {
        Option::None => 0,
        Option::Some(k) => {
            let h = fnv1a_hash(k.as_str().as_bytes());
            (h % (num_partitions as u64)) as u32
        },
    }
}

/// Law: routing is deterministic. The partition index is a pure function of
/// the key's characters and the partition count alone, it always falls inside
/// `[0, num_partitions)`, and an absent key always maps to index 0.
pub proof fn lemma_deterministic_routing(key: Option<Seq<char>>, num_partitions: u32)
    requires
        num_partitions > 0,
    ensures
        spec_partition_index(key, num_partitions) < num_partitions,
        key is None ==> spec_partition_index(key, num_partitions) == 0,
{
}

} // verus!
