//! A log entry kept as a JSON record: its fields as text, with the hash it
//! follows and its MAC.

use vstd::prelude::*;

verus! {

/// A log entry as a JSON record.  `person_type` is `"E"` or `"G"`, `action`
/// is `"A"` or `"L"`.
pub struct LogEntry {
    pub timestamp: u64,
    pub person_type: String,
    pub name: String,
    pub action: String,
    pub room: Option<u64>,
    pub prev_hash: Vec<u8>,
    pub mac: Vec<u8>,
}

} // verus!
