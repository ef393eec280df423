//! Sealing a JSON record: chaining it to the previous hash and
//! authenticating its serialized bytes.

use crate::crypto::hmac_sha256_spec;
use crate::log::LogEntry;
use vstd::prelude::*;

verus! {

/// Chains `entry` to `prev_hash` and sets its MAC to HMAC-SHA256 of
/// `serialized` (the record's JSON bytes) under `key`.
pub fn append_entry(key: &[u8], prev_hash: &[u8], serialized: &[u8], entry: &mut LogEntry)
    ensures
        final(entry).prev_hash@ == prev_hash@,
        final(entry).mac@ == hmac_sha256_spec(key@, serialized@),
        final(entry).timestamp == old(entry).timestamp,
        final(entry).person_type == old(entry).person_type,
        final(entry).name == old(entry).name,
        final(entry).action == old(entry).action,
        final(entry).room == old(entry).room,
{
    entry.prev_hash = vstd::slice::slice_to_vec(prev_hash);
    let mac = crate::crypto::mac_any_key(key, serialized);
    entry.mac = vstd::slice::slice_to_vec(mac.as_slice());
}

} // verus!
