//! Sealed records and the log file they form.
//!
//! A record is `[length: u32 big-endian][ciphertext][32-byte MAC]`.  The
//! ciphertext is the entry's plaintext under the keystream whose nonce is
//! the previous record's hash (32 zero bytes for the first record); the MAC
//! is HMAC-SHA256 of the ciphertext; the next record's nonce is the SHA-256
//! of this ciphertext.
//!
//! A log file is a header followed by its records one after another.  The
//! header is the number of records (eight bytes, little-endian) and a tag:
//! HMAC-SHA256, under the key, of that number's eight bytes followed by the
//! hash of the last record.  A log cut short keeps a header that counts
//! more records than remain, so every cut is refused.

use crate::crypto::{
    compute_mac, hash_bytes, hmac_sha256_spec, lemma_stream_cipher_involutive, sha256_spec,
    stream_cipher, stream_cipher_spec,
};
use crate::entry::{decode_spec, encode_spec, entry_text, lemma_decode_encode, EntryView, LogEntry};
use vstd::bytes::{
    lemma_auto_spec_u64_to_from_le_bytes, spec_u64_from_le_bytes, spec_u64_to_le_bytes,
    u64_from_le_bytes, u64_to_le_bytes,
};
use vstd::prelude::*;

verus! {

/// The four big-endian bytes of `x`.
pub open spec fn be32(x: u32) -> Seq<u8> {
    seq![
        (x / 0x100_0000) as u8,
        ((x / 0x1_0000) % 0x100) as u8,
        ((x / 0x100) % 0x100) as u8,
        (x % 0x100) as u8,
    ]
}

/// The number that four big-endian bytes stand for.
pub open spec fn be32_value(b: Seq<u8>) -> nat {
    (b[0] as nat) * 0x100_0000 + (b[1] as nat) * 0x1_0000 + (b[2] as nat) * 0x100 + (b[3] as nat)
}

/// Lemma: four big-endian bytes read back as the number they were made from.
pub proof fn lemma_be32_roundtrip(x: u32)
    ensures
        be32(x).len() == 4,
        be32_value(be32(x)) == x,
{
    let b = be32(x);
    assert(b[0] as nat == x / 0x100_0000);
    assert(b[1] as nat == (x / 0x1_0000) % 0x100);
    assert(b[2] as nat == (x / 0x100) % 0x100);
    assert(b[3] as nat == x % 0x100);
    assert((x / 0x100_0000) * 0x100_0000 + ((x / 0x1_0000) % 0x100) * 0x1_0000 + ((x / 0x100)
        % 0x100) * 0x100 + x % 0x100 == x) by (nonlinear_arith)
        requires
            x <= 0xffff_ffff,
    ;
}

/// A record holding `ct` and `mac`: the length of `ct` (as the `u32` it is
/// cast to) in big-endian order, then `ct`, then `mac`.
pub open spec fn pack_spec(ct: Seq<u8>, mac: Seq<u8>) -> Seq<u8> {
    be32(ct.len() as u32) + ct + mac
}

/// The record that starts at `off` in `buf`: its ciphertext, its MAC and
/// the offset just past it, if the length field and all the bytes it
/// announces (and the 32 of the MAC) lie within `buf`.
pub open spec fn unpack_spec(buf: Seq<u8>, off: int) -> Option<(Seq<u8>, Seq<u8>, int)> {
    if off + 4 > buf.len() {
        None
    } else {
        let ce = off + 4 + be32_value(buf.subrange(off, off + 4));
        let me = ce + 32;
        if me > buf.len() {
            None
        } else {
            Some((buf.subrange(off + 4, ce), buf.subrange(ce, me), me))
        }
    }
}

/// Frames `ct` and `mac` as a record.
pub fn pack_record(ct: &[u8], mac: &[u8; 32]) -> (out: Vec<u8>)
    requires
        ct@.len() + 36 <= usize::MAX,
    ensures
        out@ == pack_spec(ct@, mac@),
{
    let mut v: Vec<u8> = Vec::with_capacity(4 + ct.len() + 32);
    #[verifier::truncate]
    let len: u32 = ct.len() as u32;
    v.push((len / 0x100_0000) as u8);
    v.push(((len / 0x1_0000) % 0x100) as u8);
    v.push(((len / 0x100) % 0x100) as u8);
    v.push((len % 0x100) as u8);
    crate::crypto::append_bytes(&mut v, ct);
    crate::crypto::append_bytes(&mut v, mac.as_slice());
    assert(v@ =~= pack_spec(ct@, mac@));
    v
}

/// Reads the record that starts at `off` in `buf`: its ciphertext, its MAC
/// and the offset just past it.
pub fn unpack_record(buf: &[u8], off: usize) -> (out: Option<(Vec<u8>, [u8; 32], usize)>)
    ensures
        match out {
            Some((ct, mac, next)) => unpack_spec(buf@, off as int) == Some((ct@, mac@, next as int)),
            None => unpack_spec(buf@, off as int) is None,
        },
{
    if off > buf.len() || buf.len() - off < 4 {
        return None;
    }
    let len: usize = (buf[off] as usize) * 0x100_0000 + (buf[off + 1] as usize) * 0x1_0000
        + (buf[off + 2] as usize) * 0x100 + (buf[off + 3] as usize);
    assert(buf@.subrange(off as int, off + 4)[0] == buf@[off as int]);
    assert(buf@.subrange(off as int, off + 4)[1] == buf@[off + 1]);
    assert(buf@.subrange(off as int, off + 4)[2] == buf@[off + 2]);
    assert(buf@.subrange(off as int, off + 4)[3] == buf@[off + 3]);
    let me = match (off + 4).checked_add(len) {
        Some(ce) => match ce.checked_add(32) {
            Some(me) => me,
            None => return None,
        },
        None => return None,
    };
    if me > buf.len() {
        return None;
    }
    let ce = me - 32;
    let ct = vstd::slice::slice_to_vec(vstd::slice::slice_subrange(buf, off + 4, ce));
    let mut mac: [u8; 32] = [0u8; 32];
    let mut j: usize = 0;
    while j < 32
        invariant
            ce + 32 == me,
            me <= buf@.len(),
            buf@.len() == buf.len(),
            j <= 32,
            forall|k: int| 0 <= k < j ==> mac@[k] == buf@[ce + k],
        decreases 32 - j,
    {
        mac[j] = buf[ce + j];
        j = j + 1;
    }
    assert(mac@ =~= buf@.subrange(ce as int, me as int));
    Some((ct, mac, me))
}


/// Law: a record reads back, from wherever it starts, as the ciphertext
/// and MAC it was made of, whatever follows it — provided the ciphertext's
/// length fits the `u32` length field.
pub proof fn lemma_unpack_pack(ct: Seq<u8>, mac: Seq<u8>, before: Seq<u8>, after: Seq<u8>)
    requires
        ct.len() <= u32::MAX,
        mac.len() == 32,
    ensures
        unpack_spec(before + pack_spec(ct, mac) + after, before.len() as int) == Some(
            (ct, mac, (before.len() + 4 + ct.len() + 32) as int),
        ),
{
    let rec = pack_spec(ct, mac);
    let buf = before + rec + after;
    let off = before.len() as int;
    lemma_be32_roundtrip(ct.len() as u32);
    assert(buf.subrange(off, off + 4) =~= be32(ct.len() as u32));
    assert(buf.subrange(off + 4, off + 4 + ct.len()) =~= ct);
    assert(buf.subrange(off + 4 + ct.len(), off + 4 + ct.len() + 32) =~= mac);
}

/// The 32 zero bytes that the first record is chained to.
pub open spec fn zero_hash() -> Seq<u8> {
    Seq::new(32, |i: int| 0u8)
}

/// Reading the records of `rest` in turn, each chained to `prev`, then to
/// the hash of the one before.  A record is accepted when it is framed
/// within `rest`, its MAC is HMAC-SHA256 of its ciphertext under `key`, its
/// ciphertext decrypts (with `prev` as nonce) to a well-formed entry, and
/// that entry names `prev` as the hash it follows.  The result is the
/// entries and the hash of the last ciphertext (`prev` if there is none).
pub open spec fn parse_records(rest: Seq<u8>, key: Seq<u8>, prev: Seq<u8>) -> Option<
    (Seq<EntryView>, Seq<u8>),
>
    decreases rest.len(),
{
    if rest.len() == 0 {
        Some((Seq::empty(), prev))
    } else {
        match unpack_spec(rest, 0) {
            None => None,
            Some((ct, mac, next)) => {
                if mac != hmac_sha256_spec(key, ct) {
                    None
                } else {
                    match decode_spec(stream_cipher_spec(key, prev, ct)) {
                        None => None,
                        Some((e, stored_prev)) => {
                            if stored_prev != prev {
                                None
                            } else {
                                match parse_records(
                                    rest.subrange(next, rest.len() as int),
                                    key,
                                    sha256_spec(ct),
                                ) {
                                    None => None,
                                    Some((es, last)) => Some((seq![e] + es, last)),
                                }
                            }
                        },
                    }
                }
            },
        }
    }
}

/// What a log file holds: its entries, and the hash that the next record
/// must be chained to.
pub struct LoadedLog {
    pub entries: Vec<LogEntry>,
    pub last_hash: [u8; 32],
}

/// The entries of a sequence, each by its view.
pub open spec fn entry_views(s: Seq<LogEntry>) -> Seq<EntryView> {
    s.map_values(|e: LogEntry| e@)
}

/// `std::io::Error`, carried by [`LogError::Io`].
#[verifier::external_type_specification]
#[verifier::external_body]
pub struct ExIoError(std::io::Error);

/// Why a log could not be loaded.
pub enum LogError {
    /// The bytes are not a log sealed with this key.
    Integrity,
    /// The file could not be read.
    Io(std::io::Error),
}

impl From<std::io::Error> for LogError {
    fn from(e: std::io::Error) -> (out: LogError) {
        LogError::Io(e)
    }
}

impl vstd::std_specs::convert::FromSpecImpl<std::io::Error> for LogError {
    open spec fn obeys_from_spec() -> bool {
        true
    }

    open spec fn from_spec(v: std::io::Error) -> LogError {
        LogError::Io(v)
    }
}

/// True when the two byte strings are equal.
pub fn bytes_eq(a: &[u8], b: &[u8]) -> (out: bool)
    ensures
        out == (a@ == b@),
{
    if a.len() != b.len() {
        return false;
    }
    let mut i: usize = 0;
    while i < a.len()
        invariant
            i <= a@.len(),
            a@.len() == b@.len(),
            forall|k: int| 0 <= k < i ==> a@[k] == b@[k],
        decreases a@.len() - i,
    {
        if a[i] != b[i] {
            return false;
        }
        i = i + 1;
    }
    assert(a@ =~= b@);
    true
}

/// Lemma: the record at `off` of `buf` is the record at the start of the
/// rest of `buf` from `off`, its end moved by `off`.
proof fn lemma_unpack_shift(buf: Seq<u8>, off: int)
    requires
        0 <= off <= buf.len(),
    ensures
        match (unpack_spec(buf, off), unpack_spec(buf.subrange(off, buf.len() as int), 0)) {
            (Some((c1, m1, n1)), Some((c2, m2, n2))) => c1 == c2 && m1 == m2 && n1 == n2 + off,
            (None, None) => true,
            _ => false,
        },
{
    let rest = buf.subrange(off, buf.len() as int);
    if off + 4 <= buf.len() {
        assert(rest.subrange(0, 4) =~= buf.subrange(off, off + 4));
        let ce = off + 4 + be32_value(buf.subrange(off, off + 4));
        if ce + 32 <= buf.len() {
            assert(rest.subrange(4, ce - off) =~= buf.subrange(off + 4, ce));
            assert(rest.subrange(ce - off, ce - off + 32) =~= buf.subrange(ce, ce + 32));
        }
    }
}

/// Reads the records of `buf` in turn (see [`parse_records`]); the first
/// record is chained to 32 zero bytes.  Any record that fails a check
/// makes the whole of them an integrity failure.
#[verifier::rlimit(40)]
fn read_records(buf: &[u8], key: &[u8; 32]) -> (out: Result<LoadedLog, LogError>)
    ensures
        match out {
            Ok(log) => parse_records(buf@, key@, zero_hash()) == Some(
                (entry_views(log.entries@), log.last_hash@),
            ),
            Err(e) => e is Integrity && parse_records(buf@, key@, zero_hash()) is None,
        },
{
    let mut off: usize = 0;
    let mut entries: Vec<LogEntry> = Vec::new();
    let mut prev_hash: [u8; 32] = [0u8; 32];
    assert(prev_hash@ =~= zero_hash());
    assert(buf@.subrange(0, buf@.len() as int) =~= buf@);
    while off < buf.len()
        invariant
            off <= buf@.len(),
            buf@.len() == buf.len(),
            parse_records(buf@, key@, zero_hash()) == (match parse_records(
                buf@.subrange(off as int, buf@.len() as int),
                key@,
                prev_hash@,
            ) {
                Some((es, last)) => Some((entry_views(entries@) + es, last)),
                None => None,
            }),
        decreases buf@.len() - off,
    {
        let ghost rest = buf@.subrange(off as int, buf@.len() as int);
        proof { lemma_unpack_shift(buf@, off as int); }
        let (ct, mac, next) = match unpack_record(buf, off) {
            Some(r) => r,
            None => return Err(LogError::Integrity),
        };
        let expected = compute_mac(key, ct.as_slice());
        if !bytes_eq(expected.as_slice(), mac.as_slice()) {
            return Err(LogError::Integrity);
        }
        let plain = stream_cipher(key, &prev_hash, ct.as_slice());
        let (entry, stored_prev) = match LogEntry::decode(plain.as_slice()) {
            Some(d) => d,
            None => return Err(LogError::Integrity),
        };
        if !bytes_eq(stored_prev.as_slice(), prev_hash.as_slice()) {
            return Err(LogError::Integrity);
        }
        prev_hash = hash_bytes(ct.as_slice());
        let ghost old_entries = entries@;
        entries.push(entry);
        proof {
            assert(entry_views(entries@) =~= entry_views(old_entries) + seq![entry@]);
            assert(rest.subrange(next - off, rest.len() as int) =~= buf@.subrange(
                next as int,
                buf@.len() as int,
            ));
            match parse_records(buf@.subrange(next as int, buf@.len() as int), key@, prev_hash@) {
                Some((es, last)) => {
                    assert(entry_views(old_entries) + (seq![entry@] + es) =~= entry_views(
                        entries@,
                    ) + es);
                },
                None => {},
            }
        }
        off = next;
    }
    assert(buf@.subrange(off as int, buf@.len() as int) =~= Seq::<u8>::empty());
    assert(entry_views(entries@) + Seq::<EntryView>::empty() =~= entry_views(entries@));
    Ok(LoadedLog { entries, last_hash: prev_hash })
}


/// The ciphertext of `e` chained to `prev`: its plaintext under the
/// keystream of `key` with `prev` as nonce.
pub open spec fn seal_ct(key: Seq<u8>, e: EntryView, prev: Seq<u8>) -> Seq<u8> {
    stream_cipher_spec(key, prev, encode_spec(e, prev))
}

/// The record of `e` chained to `prev`: its ciphertext framed with the
/// ciphertext's HMAC under `key`.
pub open spec fn seal_spec(key: Seq<u8>, e: EntryView, prev: Seq<u8>) -> Seq<u8> {
    let ct = seal_ct(key, e, prev);
    pack_spec(ct, hmac_sha256_spec(key, ct))
}

/// Seals `entry` as the record that follows the one whose hash is
/// `prev_hash`: returns the record's bytes and its own hash (the SHA-256 of
/// its ciphertext), which the next record must be chained to.
pub fn seal_entry(key: &[u8; 32], entry: &LogEntry, prev_hash: &[u8; 32]) -> (out: (Vec<u8>, [u8; 32]))
    requires
        encode_spec(entry@, prev_hash@).len() + 36 <= usize::MAX,
    ensures
        out.0@ == seal_spec(key@, entry@, prev_hash@),
        out.1@ == sha256_spec(seal_ct(key@, entry@, prev_hash@)),
        hmac_sha256_spec(key@, seal_ct(key@, entry@, prev_hash@)).len() == 32,
{
    let plain = entry.encode(prev_hash);
    let ct = stream_cipher(key, prev_hash, plain.as_slice());
    let mac = compute_mac(key, ct.as_slice());
    let record = pack_record(ct.as_slice(), &mac);
    (record, hash_bytes(ct.as_slice()))
}

/// Lemma: a record framed within `a` is framed the same in `a + b`.
proof fn lemma_unpack_prefix(a: Seq<u8>, b: Seq<u8>)
    requires
        unpack_spec(a, 0) is Some,
    ensures
        unpack_spec(a + b, 0) == unpack_spec(a, 0),
{
    let ab = a + b;
    assert(ab.subrange(0, 4) =~= a.subrange(0, 4));
    let ce: int = 4 + be32_value(a.subrange(0, 4)) as int;
    assert(ab.subrange(4, ce) =~= a.subrange(4, ce));
    assert(ab.subrange(ce, ce + 32) =~= a.subrange(ce, ce + 32));
}

/// Lemma: a sealed record on its own reads back as its entry.
#[verifier::rlimit(40)]
proof fn lemma_single_record(key: Seq<u8>, e: EntryView, prev: Seq<u8>)
    requires
        prev.len() == 32,
        !e.name.contains('|'),
        seal_ct(key, e, prev).len() <= u32::MAX,
        hmac_sha256_spec(key, seal_ct(key, e, prev)).len() == 32,
    ensures
        parse_records(seal_spec(key, e, prev), key, prev) == Some(
            (seq![e], sha256_spec(seal_ct(key, e, prev))),
        ),
{
    let rec = seal_spec(key, e, prev);
    let ct = seal_ct(key, e, prev);
    let mac = hmac_sha256_spec(key, ct);
    lemma_unpack_pack(ct, mac, Seq::empty(), Seq::empty());
    assert(Seq::<u8>::empty() + rec + Seq::<u8>::empty() =~= rec);
    assert(unpack_spec(rec, 0) == Some((ct, mac, rec.len() as int)));
    let plain = stream_cipher_spec(key, prev, ct);
    assert(plain == encode_spec(e, prev)) by {
        lemma_stream_cipher_involutive(key, prev, encode_spec(e, prev));
    }
    assert(decode_spec(plain) == Some((e, prev))) by {
        lemma_decode_encode(e, prev);
    }
    assert(rec.subrange(rec.len() as int, rec.len() as int) =~= Seq::<u8>::empty());
    assert(parse_records(Seq::<u8>::empty(), key, sha256_spec(ct)) == Some(
        (Seq::<EntryView>::empty(), sha256_spec(ct)),
    ));
    assert(seq![e] + Seq::<EntryView>::empty() =~= seq![e]);
}

/// Lemma: when the first record of `log` is framed within it, reading
/// `log + more` takes that record and goes on with the rest of `log`
/// followed by `more`.
proof fn lemma_parse_step(log: Seq<u8>, more: Seq<u8>, key: Seq<u8>, start: Seq<u8>)
    requires
        log.len() > 0,
        unpack_spec(log, 0) is Some,
    ensures
        ({
            let (c, m, n) = unpack_spec(log, 0).unwrap();
            let tail = log.subrange(n, log.len() as int);
            parse_records(log + more, key, start) == (if m != hmac_sha256_spec(key, c) {
                None
            } else {
                match decode_spec(stream_cipher_spec(key, start, c)) {
                    None => None,
                    Some((e0, sp)) => if sp != start {
                        None
                    } else {
                        match parse_records(tail + more, key, sha256_spec(c)) {
                            None => None,
                            Some((es, last)) => Some((seq![e0] + es, last)),
                        }
                    },
                }
            })
        }),
{
    let (c, m, n) = unpack_spec(log, 0).unwrap();
    lemma_unpack_prefix(log, more);
    let tail = log.subrange(n, log.len() as int);
    assert((log + more).subrange(n, (log + more).len() as int) =~= tail + more);
}

/// Law (what a read gives back of a write, for records): appending to
/// records that read back as `es`, ending with hash `prev`, the record that
/// seals `e` to `prev`, gives records that read back as `es` followed by
/// `e`, ending with the hash of the new ciphertext.  This holds for every name without
/// `|` (the field separator) whose ciphertext length fits the `u32` length
/// field; `prev` and the MAC have the 32 bytes of their digests.
pub proof fn lemma_append_reads_back(
    log: Seq<u8>,
    key: Seq<u8>,
    start: Seq<u8>,
    es: Seq<EntryView>,
    prev: Seq<u8>,
    e: EntryView,
)
    requires
        parse_records(log, key, start) == Some((es, prev)),
        prev.len() == 32,
        !e.name.contains('|'),
        seal_ct(key, e, prev).len() <= u32::MAX,
        hmac_sha256_spec(key, seal_ct(key, e, prev)).len() == 32,
    ensures
        parse_records(log + seal_spec(key, e, prev), key, start) == Some(
            (es.push(e), sha256_spec(seal_ct(key, e, prev))),
        ),
    decreases log.len(),
{
    let rec = seal_spec(key, e, prev);
    if log.len() == 0 {
        assert(log + rec =~= rec);
        assert(es =~= Seq::<EntryView>::empty());
        lemma_single_record(key, e, prev);
        assert(seq![e] =~= es.push(e));
    } else {
        let (c, m, n) = unpack_spec(log, 0).unwrap();
        let tail = log.subrange(n, log.len() as int);
        lemma_parse_step(log, rec, key, start);
        assert(log + Seq::<u8>::empty() =~= log);
        lemma_parse_step(log, Seq::empty(), key, start);
        assert(tail + Seq::<u8>::empty() =~= tail);
        let (e0, sp) = decode_spec(stream_cipher_spec(key, start, c)).unwrap();
        let (es_tail, last) = parse_records(tail, key, sha256_spec(c)).unwrap();
        lemma_append_reads_back(tail, key, sha256_spec(c), es_tail, prev, e);
        assert(es =~= seq![e0] + es_tail);
        assert(seq![e0] + es_tail.push(e) =~= es.push(e));
    }
}


/// The number of bytes of a log file's header.
pub const HEADER_LEN: usize = 40;

/// The tag of a header: HMAC-SHA256 under `key` of the record count's
/// eight bytes followed by the hash of the last record.
pub open spec fn header_tag(key: Seq<u8>, count: u64, last: Seq<u8>) -> Seq<u8> {
    hmac_sha256_spec(key, spec_u64_to_le_bytes(count) + last)
}

/// The bytes of a log file: the header for `count` records ending in the
/// hash `last`, then `records`.
pub open spec fn log_bytes(key: Seq<u8>, count: u64, last: Seq<u8>, records: Seq<u8>) -> Seq<u8> {
    spec_u64_to_le_bytes(count) + header_tag(key, count, last) + records
}

/// Reading a log file: its header must be whole, its records must read
/// back (see [`parse_records`]), their number must be the one the header
/// counts, and the header's tag must be the one for that number and the
/// last record's hash.  The result is the entries and the last hash.
pub open spec fn log_spec(buf: Seq<u8>, key: Seq<u8>) -> Option<(Seq<EntryView>, Seq<u8>)> {
    if buf.len() < 40 {
        None
    } else {
        let count = spec_u64_from_le_bytes(buf.subrange(0, 8));
        match parse_records(buf.subrange(40, buf.len() as int), key, zero_hash()) {
            None => None,
            Some((es, last)) => if es.len() == count && buf.subrange(8, 40) == header_tag(
                key,
                count,
                last,
            ) {
                Some((es, last))
            } else {
                None
            },
        }
    }
}

/// The bytes of a log file, if there is one.
pub open spec fn file_view(file: Option<&[u8]>) -> Option<Seq<u8>> {
    match file {
        Some(b) => Some(b@),
        None => None,
    }
}

/// Reading what is at a log's path: no file is the empty log (no entries,
/// the zero hash); a file must read back as [`log_spec`] says.
pub open spec fn file_spec(file: Option<Seq<u8>>, key: Seq<u8>) -> Option<(Seq<EntryView>, Seq<u8>)> {
    match file {
        None => Some((Seq::empty(), zero_hash())),
        Some(b) => log_spec(b, key),
    }
}

/// The records of what is at a log's path: none without a file, else what
/// follows the header.
pub open spec fn records_of(file: Option<Seq<u8>>) -> Seq<u8> {
    match file {
        None => Seq::empty(),
        Some(b) => b.subrange(40, b.len() as int),
    }
}

/// Reads a log file: its entries and the hash the next record must be
/// chained to, or an integrity failure when any check of [`log_spec`]
/// fails.
pub fn parse_log(buf: &[u8], key: &[u8; 32]) -> (out: Result<LoadedLog, LogError>)
    ensures
        match out {
            Ok(log) => log_spec(buf@, key@) == Some((entry_views(log.entries@), log.last_hash@)),
            Err(e) => e is Integrity && log_spec(buf@, key@) is None,
        },
{
    if buf.len() < HEADER_LEN {
        return Err(LogError::Integrity);
    }
    let count = u64_from_le_bytes(vstd::slice::slice_subrange(buf, 0, 8));
    let tag = vstd::slice::slice_subrange(buf, 8, HEADER_LEN);
    let records = vstd::slice::slice_subrange(buf, HEADER_LEN, buf.len());
    let loaded = match read_records(records, key) {
        Ok(l) => l,
        Err(_) => return Err(LogError::Integrity),
    };
    let n: u64 = loaded.entries.len() as u64;
    if n != count {
        return Err(LogError::Integrity);
    }
    let mut data = u64_to_le_bytes(count);
    crate::crypto::append_bytes(&mut data, loaded.last_hash.as_slice());
    let expected = compute_mac(key, data.as_slice());
    if !bytes_eq(tag, expected.as_slice()) {
        return Err(LogError::Integrity);
    }
    Ok(loaded)
}

/// Reads what is at a log's path (see [`file_spec`]).
pub fn read_log(file: Option<&[u8]>, key: &[u8; 32]) -> (out: Result<LoadedLog, LogError>)
    ensures
        match out {
            Ok(log) => file_spec(file_view(file), key@) == Some(
                (entry_views(log.entries@), log.last_hash@),
            ),
            Err(e) => e is Integrity && file_spec(file_view(file), key@) is None,
        },
{
    match file {
        Some(b) => parse_log(b, key),
        None => {
            let entries: Vec<LogEntry> = Vec::new();
            let last_hash: [u8; 32] = [0u8; 32];
            assert(last_hash@ =~= zero_hash());
            assert(entry_views(entries@) =~= Seq::<EntryView>::empty());
            Ok(LoadedLog { entries, last_hash })
        },
    }
}

/// The bytes of a log file holding `count` records ending in the hash
/// `last`: the header, then `records`, then `more`.
pub fn build_log(key: &[u8; 32], count: u64, last: &[u8; 32], records: &[u8], more: &[u8]) -> (out: Vec<u8>)
    ensures
        out@ == log_bytes(key@, count, last@, records@ + more@),
        header_tag(key@, count, last@).len() == 32,
{
    let mut data = u64_to_le_bytes(count);
    crate::crypto::append_bytes(&mut data, last.as_slice());
    let tag = compute_mac(key, data.as_slice());
    let mut out = u64_to_le_bytes(count);
    crate::crypto::append_bytes(&mut out, tag.as_slice());
    crate::crypto::append_bytes(&mut out, records);
    crate::crypto::append_bytes(&mut out, more);
    assert(out@ =~= log_bytes(key@, count, last@, records@ + more@));
    out
}

/// Lemma: a log's records are at least as many bytes as there are entries.
pub proof fn lemma_records_len(rest: Seq<u8>, key: Seq<u8>, prev: Seq<u8>)
    requires
        parse_records(rest, key, prev) is Some,
    ensures
        parse_records(rest, key, prev).unwrap().0.len() <= rest.len(),
    decreases rest.len(),
{
    if rest.len() > 0 {
        let (ct, mac, next) = unpack_spec(rest, 0).unwrap();
        lemma_records_len(rest.subrange(next, rest.len() as int), key, sha256_spec(ct));
    }
}

/// Lemma: the records of a proper prefix of `buf`, when they read back at
/// all, are fewer than those of `buf`.
proof fn lemma_prefix_fewer(buf: Seq<u8>, key: Seq<u8>, prev: Seq<u8>, c: int)
    requires
        parse_records(buf, key, prev) is Some,
        0 <= c < buf.len(),
        parse_records(buf.subrange(0, c), key, prev) is Some,
    ensures
        parse_records(buf.subrange(0, c), key, prev).unwrap().0.len() < parse_records(
            buf,
            key,
            prev,
        ).unwrap().0.len(),
    decreases buf.len(),
{
    let t = buf.subrange(0, c);
    let (ct, mac, next) = unpack_spec(buf, 0).unwrap();
    let rest = buf.subrange(next, buf.len() as int);
    if c == 0 {
        assert(t =~= Seq::<u8>::empty());
    } else {
        let ce: int = 4 + be32_value(buf.subrange(0, 4)) as int;
        if c < next {
            if c >= 4 {
                assert(t.subrange(0, 4) =~= buf.subrange(0, 4));
            }
            assert(unpack_spec(t, 0) is None);
        } else {
            assert(t.subrange(0, 4) =~= buf.subrange(0, 4));
            assert(t.subrange(4, ce) =~= buf.subrange(4, ce));
            assert(t.subrange(ce, ce + 32) =~= buf.subrange(ce, ce + 32));
            assert(unpack_spec(t, 0) == unpack_spec(buf, 0));
            assert(t.subrange(next, t.len() as int) =~= rest.subrange(0, c - next));
            if c - next < rest.len() {
                lemma_prefix_fewer(rest, key, sha256_spec(ct), c - next);
            } else {
                assert(rest.subrange(0, c - next) =~= rest);
            }
        }
    }
}

/// Law: a log file cut short is refused.  Of a log file that reads back,
/// no proper prefix reads back: a cut inside the header leaves no whole
/// header, a cut inside a record leaves it unframed, and a cut between
/// records leaves fewer records than the header counts.
pub proof fn lemma_cut_log_refused(buf: Seq<u8>, key: Seq<u8>, c: int)
    requires
        log_spec(buf, key) is Some,
        0 <= c < buf.len(),
    ensures
        log_spec(buf.subrange(0, c), key) is None,
{
    if c >= 40 {
        let t = buf.subrange(0, c);
        let recs = buf.subrange(40, buf.len() as int);
        assert(t.subrange(0, 8) =~= buf.subrange(0, 8));
        assert(t.subrange(40, t.len() as int) =~= recs.subrange(0, c - 40));
        if parse_records(recs.subrange(0, c - 40), key, zero_hash()) is Some {
            lemma_prefix_fewer(recs, key, zero_hash(), c - 40);
        }
    }
}

/// Law: appending a sealed entry to what is at a log's path (rewriting the
/// header for one more record ending in the new record's hash) gives a
/// log file that reads back as the old entries followed by the new one,
/// with the new record's hash.  This holds for every name without `|`
/// whose ciphertext length fits the `u32` length field, while the record
/// count fits a `u64`; `prev` and the MACs have the 32 bytes of their
/// digests.
pub proof fn lemma_log_append(
    file: Option<Seq<u8>>,
    key: Seq<u8>,
    es: Seq<EntryView>,
    prev: Seq<u8>,
    e: EntryView,
)
    requires
        file_spec(file, key) == Some((es, prev)),
        prev.len() == 32,
        es.len() < u64::MAX,
        !e.name.contains('|'),
        seal_ct(key, e, prev).len() <= u32::MAX,
        hmac_sha256_spec(key, seal_ct(key, e, prev)).len() == 32,
        header_tag(key, (es.len() + 1) as u64, sha256_spec(seal_ct(key, e, prev))).len() == 32,
    ensures
        log_spec(
            log_bytes(
                key,
                (es.len() + 1) as u64,
                sha256_spec(seal_ct(key, e, prev)),
                records_of(file) + seal_spec(key, e, prev),
            ),
            key,
        ) == Some((es.push(e), sha256_spec(seal_ct(key, e, prev)))),
{
    let recs = records_of(file);
    let n = (es.len() + 1) as u64;
    let h = sha256_spec(seal_ct(key, e, prev));
    let rec = seal_spec(key, e, prev);
    lemma_append_reads_back(recs, key, zero_hash(), es, prev, e);
    let nb = log_bytes(key, n, h, recs + rec);
    lemma_auto_spec_u64_to_from_le_bytes();
    assert(spec_u64_to_le_bytes(n).len() == 8);
    assert(nb.subrange(0, 8) =~= spec_u64_to_le_bytes(n));
    assert(nb.subrange(8, 40) =~= header_tag(key, n, h));
    assert(nb.subrange(40, nb.len() as int) =~= recs + rec);
}


/// The record count that a log file's header announces.
pub open spec fn header_count(b: Seq<u8>) -> u64 {
    spec_u64_from_le_bytes(b.subrange(0, 8))
}

/// The record count of what is at a log's path: none without a file, else
/// what its header announces.
pub open spec fn file_count(file: Option<Seq<u8>>) -> u64 {
    match file {
        None => 0,
        Some(b) => header_count(b),
    }
}

/// Appending `e`, sealed to `prev`, to what is at a log's path: the header
/// is rewritten for one more record ending in the new record's hash, and
/// the new record follows the old ones.  A file too short for a header, or
/// whose count cannot grow, is refused (`None`).
pub open spec fn append_entry_spec(key: Seq<u8>, file: Option<Seq<u8>>, e: EntryView, prev: Seq<u8>) -> Option<Seq<u8>> {
    if file matches Some(b) && (b.len() < 40 || header_count(b) == u64::MAX) {
        None
    } else {
        Some(
            log_bytes(
                key,
                (file_count(file) + 1) as u64,
                sha256_spec(seal_ct(key, e, prev)),
                records_of(file) + seal_spec(key, e, prev),
            ),
        )
    }
}

/// The digests of one append have their 32 bytes: the MAC and the hash of
/// the new ciphertext, and the header's tag.
pub open spec fn step_digests(key: Seq<u8>, file: Option<Seq<u8>>, e: EntryView, prev: Seq<u8>) -> bool {
    let ct = seal_ct(key, e, prev);
    &&& hmac_sha256_spec(key, ct).len() == 32
    &&& sha256_spec(ct).len() == 32
    &&& header_tag(key, (file_count(file) + 1) as u64, sha256_spec(ct)).len() == 32
}

/// Seals `entry` after the record whose hash is `prev_hash` and appends it
/// to what is at a log's path (see [`append_entry_spec`]): returns the new
/// contents of the log file and the new record's hash, which the next
/// record must be chained to.
pub fn append_entry(key: &[u8; 32], file: Option<&[u8]>, entry: &LogEntry, prev_hash: &[u8; 32]) -> (out: Option<(Vec<u8>, [u8; 32])>)
    requires
        encode_spec(entry@, prev_hash@).len() + 36 <= usize::MAX,
    ensures
        match out {
            Some((bytes, h)) => append_entry_spec(key@, file_view(file), entry@, prev_hash@) == Some(bytes@)
                && h@ == sha256_spec(seal_ct(key@, entry@, prev_hash@))
                && step_digests(key@, file_view(file), entry@, prev_hash@),
            None => append_entry_spec(key@, file_view(file), entry@, prev_hash@) is None,
        },
{
    let none: Vec<u8> = Vec::new();
    let (count, records): (u64, &[u8]) = match file {
        Some(b) => {
            if b.len() < HEADER_LEN {
                return None;
            }
            let c = u64_from_le_bytes(vstd::slice::slice_subrange(b, 0, 8));
            if c == u64::MAX {
                return None;
            }
            (c, vstd::slice::slice_subrange(b, HEADER_LEN, b.len()))
        },
        None => (0, none.as_slice()),
    };
    assert(count == file_count(file_view(file)));
    assert(records@ == records_of(file_view(file)));
    let (record, hash) = seal_entry(key, entry, prev_hash);
    let bytes = build_log(key, count + 1, &hash, records, record.as_slice());
    Some((bytes, hash))
}

/// What is at a log's path, and the hash the next record is chained to,
/// after the entries of `new` are appended in turn, each sealed to the hash
/// of the one before (the first to `h0`).
pub open spec fn chain_appends(key: Seq<u8>, file: Option<Seq<u8>>, h0: Seq<u8>, new: Seq<EntryView>) -> (
    Option<Seq<u8>>,
    Seq<u8>,
)
    decreases new.len(),
{
    if new.len() == 0 {
        (file, h0)
    } else {
        let (f, h) = chain_appends(key, file, h0, new.drop_last());
        let e = new.last();
        (append_entry_spec(key, f, e, h), sha256_spec(seal_ct(key, e, h)))
    }
}

/// Every append of the chain had its digests' 32 bytes (see
/// [`step_digests`]), as [`append_entry`] reports of each call.
pub open spec fn chain_digests(key: Seq<u8>, file: Option<Seq<u8>>, h0: Seq<u8>, new: Seq<EntryView>) -> bool
    decreases new.len(),
{
    if new.len() == 0 {
        true
    } else {
        let (f, h) = chain_appends(key, file, h0, new.drop_last());
        chain_digests(key, file, h0, new.drop_last()) && step_digests(key, f, new.last(), h)
    }
}

/// Lemma: of what reads back, the header counts the entries.
pub proof fn lemma_file_count(file: Option<Seq<u8>>, key: Seq<u8>)
    requires
        file_spec(file, key) is Some,
    ensures
        file_count(file) == file_spec(file, key).unwrap().0.len(),
        file matches Some(b) ==> b.len() >= 40,
{
}

/// Law: appending entries one after another, each sealed to the hash of
/// the one before, to a log that reads back (or to no file) gives a log
/// that reads back as the old entries followed by the new ones, in order,
/// ending with the last new record's hash.  This holds for every name
/// without `|` whose text fits the record's `u32` length field with the
/// hash, while the record count fits a `u64`, the digests of each append
/// having their 32 bytes.
#[verifier::spinoff_prover]
#[verifier::rlimit(40)]
pub proof fn lemma_appends_read_back(
    file: Option<Seq<u8>>,
    key: Seq<u8>,
    es: Seq<EntryView>,
    prev: Seq<u8>,
    new: Seq<EntryView>,
)
    requires
        file_spec(file, key) == Some((es, prev)),
        prev.len() == 32,
        es.len() + new.len() < u64::MAX,
        forall|i: int|
            0 <= i < new.len() ==> !(#[trigger] new[i]).name.contains('|') && entry_text(new[i]).len()
                + 32 <= u32::MAX,
        chain_digests(key, file, prev, new),
    ensures
        file_spec(chain_appends(key, file, prev, new).0, key) == Some(
            (es + new, chain_appends(key, file, prev, new).1),
        ),
        chain_appends(key, file, prev, new).1.len() == 32,
    decreases new.len(),
{
    if new.len() == 0 {
        assert(es + new =~= es);
    } else {
        let pre = new.drop_last();
        let e = new.last();
        assert forall|i: int| 0 <= i < pre.len() implies !(#[trigger] pre[i]).name.contains('|')
            && entry_text(pre[i]).len() + 32 <= u32::MAX by {
            assert(pre[i] == new[i]);
        }
        lemma_appends_read_back(file, key, es, prev, pre);
        let (f, h) = chain_appends(key, file, prev, pre);
        let es1 = es + pre;
        lemma_file_count(f, key);
        assert(new[new.len() - 1] == e);
        assert(seal_ct(key, e, h).len() == entry_text(e).len() + 32);
        lemma_log_append(f, key, es1, h, e);
        assert(es1.push(e) =~= es + new);
    }
}

} // verus!
