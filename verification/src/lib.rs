//! A tamper-evident, encrypted access log for an art gallery.
//!
//! Records are sealed with a SHA-256 keystream cipher, authenticated with
//! HMAC-SHA256 and chained by the hash of the previous ciphertext.  The
//! gallery state machine replays the log and enforces who may be where.

pub mod crypto;
pub mod text;
pub mod entry;
pub mod record;
pub mod roster;
pub mod gallery;
pub mod query;
pub mod validate;
pub mod append_cli;
pub mod read_cli;
pub mod read_plan;
pub mod batch;
pub mod batch_run;
pub mod report;
pub mod state;
pub mod log;
pub mod logappend;
pub mod logread;

pub use crate::crypto::{compute_mac, derive_key, hash_bytes, stream_cipher};
pub use crate::entry::{Action, LogEntry, PersonType};
pub use crate::gallery::{compute_state, GalleryState};
pub use crate::query::{intersection_query, room_history, rooms_occupancy, sorted_names};
pub use crate::read_plan::{plan_read, ReadError};
pub use crate::record::{
    pack_record, parse_log, read_log, seal_entry, unpack_record, LoadedLog, LogError,
};
pub use crate::validate::{is_valid_name, is_valid_token};
