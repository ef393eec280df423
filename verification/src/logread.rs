//! Checking a JSON record's MAC.

use crate::crypto::hmac_sha256_spec;
use crate::log::LogEntry;
use vstd::prelude::*;

verus! {

/// Whether the MAC of `entry` is HMAC-SHA256 of `serialized` (the record's
/// JSON bytes) under `key`.
pub fn verify_entry(key: &[u8], serialized: &[u8], entry: &LogEntry) -> (out: bool)
    ensures
        out == (entry.mac@ == hmac_sha256_spec(key@, serialized@)),
{
    let mac = crate::crypto::mac_any_key(key, serialized);
    crate::record::bytes_eq(mac.as_slice(), entry.mac.as_slice())
}

} // verus!
