//! Function-level tests of the library.

use gallery_log::append_cli::{self, plan_append, AppendError};
use gallery_log::batch::{batch_commands, batch_lines, shell_split};
use gallery_log::batch_run::run_batch;
use gallery_log::crypto::mac_any_key;
use gallery_log::read_cli::{self, Command};
use gallery_log::read_plan::{plan_read, ReadError};
use gallery_log::record::{append_entry, build_log, read_log, HEADER_LEN};
use gallery_log::record::bytes_eq;
use gallery_log::report::{decimal_string, join, room_line, rooms_line};
use gallery_log::roster::Roster;
use gallery_log::text::{parse_u32, parse_u64};
use gallery_log::{
    compute_mac, compute_state, derive_key, hash_bytes, intersection_query, is_valid_name,
    is_valid_token, pack_record, parse_log, room_history, rooms_occupancy, seal_entry,
    sorted_names, stream_cipher, unpack_record, Action, GalleryState, LogEntry, LogError,
    PersonType,
};
use hmac::{Hmac, Mac};
use sha2::{Digest, Sha256};

fn entry(ts: u64, pt: PersonType, name: &str, action: Action, room: Option<u32>) -> LogEntry {
    LogEntry { timestamp: ts, person_type: pt, name: name.to_string(), action, room }
}

fn strings(args: &[&str]) -> Vec<String> {
    args.iter().map(|s| s.to_string()).collect()
}

fn sha(data: &[u8]) -> [u8; 32] {
    Sha256::digest(data).into()
}

// ── crypto ──────────────────────────────────────────────────────────────

#[test]
fn derive_key_is_sha256_of_token() {
    assert_eq!(derive_key("secret"), sha(b"secret"));
    assert_ne!(derive_key("secret"), derive_key("Secret"));
}

#[test]
fn hash_bytes_is_sha256() {
    assert_eq!(hash_bytes(b"abc"), sha(b"abc"));
    let empty = hash_bytes(b"");
    assert_eq!(empty[0], 0xe3);
    assert_eq!(empty[31], 0x55);
}

#[test]
fn compute_mac_is_hmac_sha256() {
    let key = [7u8; 32];
    let mut m = <Hmac<Sha256> as Mac>::new_from_slice(&key).unwrap();
    m.update(b"hello");
    let expected: [u8; 32] = m.finalize().into_bytes().into();
    assert_eq!(compute_mac(&key, b"hello"), expected);
    assert_ne!(compute_mac(&key, b"hello"), compute_mac(&key, b"hellp"));
    assert_eq!(mac_any_key(&key, b"hello"), expected);
}

#[test]
fn stream_cipher_uses_sha256_keystream() {
    let key = [1u8; 32];
    let nonce = [2u8; 32];
    let data: Vec<u8> = (0..70u32).map(|i| i as u8).collect();
    let ct = stream_cipher(&key, &nonce, &data);
    assert_eq!(ct.len(), 70);
    for block in 0..3u64 {
        let mut input = Vec::new();
        input.extend_from_slice(&key);
        input.extend_from_slice(&nonce);
        input.extend_from_slice(&block.to_le_bytes());
        let ks = sha(&input);
        for j in 0..32usize {
            let i = block as usize * 32 + j;
            if i < 70 {
                assert_eq!(ct[i], data[i] ^ ks[j]);
            }
        }
    }
}

#[test]
fn stream_cipher_round_trips() {
    let key = derive_key("k");
    let nonce = [9u8; 32];
    let data = b"the quick brown fox jumps over the lazy dog, twice over".to_vec();
    let ct = stream_cipher(&key, &nonce, &data);
    assert_ne!(ct, data);
    assert_eq!(stream_cipher(&key, &nonce, &ct), data);
    assert!(stream_cipher(&key, &nonce, b"").is_empty());
}

// ── numbers ─────────────────────────────────────────────────────────────

#[test]
fn parse_numbers_like_str_parse() {
    assert_eq!(parse_u64(b"0"), Some(0));
    assert_eq!(parse_u64(b"+42"), Some(42));
    assert_eq!(parse_u64(b"18446744073709551615"), Some(u64::MAX));
    assert_eq!(parse_u64(b"18446744073709551616"), None);
    assert_eq!(parse_u64(b"-1"), None);
    assert_eq!(parse_u64(b"+"), None);
    assert_eq!(parse_u64(b""), None);
    assert_eq!(parse_u64(b"12a"), None);
    assert_eq!(parse_u32(b"4294967295"), Some(u32::MAX));
    assert_eq!(parse_u32(b"4294967296"), None);
    for s in ["7", "+7", "007", "123456", "99999999999999999999", "-", "x"] {
        assert_eq!(parse_u64(s.as_bytes()), s.parse::<u64>().ok());
        assert_eq!(parse_u32(s.as_bytes()), s.parse::<u32>().ok());
    }
}

// ── entries ─────────────────────────────────────────────────────────────

#[test]
fn encode_layout() {
    let e = entry(12, PersonType::Guest, "Bob", Action::Departure, Some(305));
    let h = [0xAAu8; 32];
    let enc = e.encode(&h);
    let mut expected = b"12|G|Bob|L|305".to_vec();
    expected.extend_from_slice(&h);
    assert_eq!(enc, expected);
    let e2 = entry(0, PersonType::Employee, "Al", Action::Arrival, None);
    let mut expected2 = b"0|E|Al|A|".to_vec();
    expected2.extend_from_slice(&[0u8; 32]);
    assert_eq!(e2.encode(&[0u8; 32]), expected2);
}

#[test]
fn decode_reads_back_encode() {
    let e = entry(99, PersonType::Employee, "Zoë", Action::Arrival, Some(4));
    let h = [3u8; 32];
    let (d, dh) = LogEntry::decode(&e.encode(&h)).unwrap();
    assert_eq!(d.timestamp, 99);
    assert_eq!(d.person_type, PersonType::Employee);
    assert_eq!(d.name, "Zoë");
    assert_eq!(d.action, Action::Arrival);
    assert_eq!(d.room, Some(4));
    assert_eq!(dh, h);
}

#[test]
fn decode_refuses_malformed() {
    let tail = [0u8; 32];
    let with = |t: &[u8]| {
        let mut v = t.to_vec();
        v.extend_from_slice(&tail);
        v
    };
    assert!(LogEntry::decode(&[0u8; 31]).is_none());
    assert!(LogEntry::decode(&with(b"1|E|A|A")).is_none());
    assert!(LogEntry::decode(&with(b"x|E|A|A|")).is_none());
    assert!(LogEntry::decode(&with(b"1|X|A|A|")).is_none());
    assert!(LogEntry::decode(&with(b"1|E|A|Q|")).is_none());
    assert!(LogEntry::decode(&with(b"1|E|A|A|r")).is_none());
    assert!(LogEntry::decode(&with(b"1|E|A|A|1|2")).is_none());
    assert!(LogEntry::decode(&with(&[b'1', b'|', b'E', b'|', 0xff, b'|', b'A', b'|'])).is_none());
    let (e, _) = LogEntry::decode(&with(b"+5|G||L|")).unwrap();
    assert_eq!(e.timestamp, 5);
    assert_eq!(e.name, "");
    assert_eq!(e.room, None);
}

// ── records ─────────────────────────────────────────────────────────────

#[test]
fn pack_and_unpack_record() {
    let ct = vec![1u8, 2, 3, 4, 5];
    let mac = [8u8; 32];
    let rec = pack_record(&ct, &mac);
    assert_eq!(&rec[..4], &[0, 0, 0, 5]);
    assert_eq!(rec.len(), 4 + 5 + 32);
    let mut buf = vec![0xEE, 0xEE];
    buf.extend_from_slice(&rec);
    buf.push(0x11);
    let (c, m, next) = unpack_record(&buf, 2).unwrap();
    assert_eq!(c, ct);
    assert_eq!(m, mac);
    assert_eq!(next, 2 + rec.len());
    assert!(unpack_record(&buf, buf.len() - 3).is_none());
    assert!(unpack_record(&rec[..rec.len() - 1], 0).is_none());
    let big = pack_record(&vec![0u8; 300], &mac);
    assert_eq!(&big[..4], &[0, 0, 1, 44]);
}

/// A log file of the two sealed records `r1` then `r2`, whose last hash is `h2`.
fn two_record_log(key: &[u8; 32], r1: &[u8], r2: &[u8], h2: &[u8; 32]) -> Vec<u8> {
    build_log(key, 2, h2, r1, r2)
}

#[test]
fn seal_then_parse_chains_hashes() {
    let key = derive_key("tok");
    let e1 = entry(1, PersonType::Employee, "Ann", Action::Arrival, None);
    let e2 = entry(2, PersonType::Employee, "Ann", Action::Arrival, Some(3));
    let (r1, h1) = seal_entry(&key, &e1, &[0u8; 32]);
    let (r2, h2) = seal_entry(&key, &e2, &h1);
    let log = two_record_log(&key, &r1, &r2, &h2);
    // the header: the count, then HMAC of the count's bytes and the last hash
    assert_eq!(&log[..8], &2u64.to_le_bytes());
    let mut tagged = 2u64.to_le_bytes().to_vec();
    tagged.extend_from_slice(&h2);
    assert_eq!(&log[8..HEADER_LEN], &compute_mac(&key, &tagged));
    let loaded = parse_log(&log, &key).ok().unwrap();
    assert_eq!(loaded.entries.len(), 2);
    assert_eq!(loaded.entries[1].room, Some(3));
    assert_eq!(loaded.last_hash, h2);
    let (ct, _, _) = unpack_record(&r1, 0).unwrap();
    assert_eq!(h1, hash_bytes(&ct));
    // records out of order break the chain
    let swapped = build_log(&key, 2, &h2, &r2, &r1);
    assert!(matches!(parse_log(&swapped, &key), Err(LogError::Integrity)));
    // a header that miscounts, or whose tag is for another hash, is refused
    assert!(matches!(parse_log(&build_log(&key, 3, &h2, &r1, &r2), &key), Err(LogError::Integrity)));
    assert!(matches!(parse_log(&build_log(&key, 2, &h1, &r1, &r2), &key), Err(LogError::Integrity)));
    // no file reads as no entries and a zero hash; an empty file is refused
    let empty = read_log(None, &key).ok().unwrap();
    assert!(empty.entries.is_empty());
    assert_eq!(empty.last_hash, [0u8; 32]);
    assert!(matches!(parse_log(&[], &key), Err(LogError::Integrity)));
    // a log of no records is a header alone
    let none = parse_log(&build_log(&key, 0, &[0u8; 32], &[], &[]), &key).ok().unwrap();
    assert!(none.entries.is_empty());
}

#[test]
fn every_cut_of_a_log_is_refused() {
    let key = derive_key("tok");
    let e1 = entry(1, PersonType::Employee, "Ann", Action::Arrival, None);
    let e2 = entry(2, PersonType::Guest, "Gus", Action::Arrival, None);
    let (r1, h1) = seal_entry(&key, &e1, &[0u8; 32]);
    let (r2, h2) = seal_entry(&key, &e2, &h1);
    let log = two_record_log(&key, &r1, &r2, &h2);
    for c in 0..log.len() {
        let cut = parse_log(&log[..c], &key);
        assert!(matches!(cut, Err(LogError::Integrity)), "cut at {} should be refused", c);
    }
    assert!(parse_log(&log, &key).is_ok());
}

#[test]
fn parse_log_refuses_forged_mac() {
    let key = derive_key("tok");
    let e = entry(1, PersonType::Guest, "Gus", Action::Arrival, None);
    let (mut r, h) = seal_entry(&key, &e, &[0u8; 32]);
    let last = r.len() - 1;
    r[last] ^= 1;
    assert!(matches!(parse_log(&build_log(&key, 1, &h, &r, &[]), &key), Err(LogError::Integrity)));
    assert!(bytes_eq(b"ab", b"ab"));
    assert!(!bytes_eq(b"ab", b"abc"));
}

// ── state machine ───────────────────────────────────────────────────────

#[test]
fn apply_follows_the_rules() {
    let mut s = GalleryState::default();
    assert!(s.apply(&entry(1, PersonType::Employee, "Ann", Action::Arrival, None)).is_ok());
    assert_eq!(s.employees.get("Ann"), Some(&None));
    assert!(s.apply(&entry(2, PersonType::Employee, "Ann", Action::Arrival, Some(4))).is_ok());
    assert_eq!(s.employees.get("Ann"), Some(&Some(4)));
    // leaving another room than the one entered is refused, state unchanged
    assert!(s.apply(&entry(3, PersonType::Employee, "Ann", Action::Departure, Some(5))).is_err());
    assert_eq!(s.last_timestamp, 2);
    assert!(s.apply(&entry(4, PersonType::Employee, "Ann", Action::Departure, Some(4))).is_ok());
    assert!(s.apply(&entry(5, PersonType::Employee, "Ann", Action::Departure, None)).is_ok());
    assert!(!s.employees.contains_key("Ann"));
    assert_eq!(s.employees.len(), 0);
    // a guest and an employee of the same name are different people
    assert!(s.apply(&entry(6, PersonType::Guest, "Ann", Action::Arrival, None)).is_ok());
    assert!(s.guests.contains_key("Ann"));
    assert!(!s.employees.contains_key("Ann"));
    // stale timestamp
    assert!(s.apply(&entry(6, PersonType::Employee, "Bo", Action::Arrival, None)).is_err());
}

#[test]
fn compute_state_replays_or_fails() {
    let es = vec![
        entry(1, PersonType::Guest, "Gus", Action::Arrival, None),
        entry(2, PersonType::Guest, "Gus", Action::Arrival, Some(1)),
    ];
    let s = compute_state(&es).ok().unwrap();
    assert_eq!(s.guests.get("Gus"), Some(&Some(1)));
    assert!(s.has_entries);
    let bad = vec![entry(1, PersonType::Guest, "Gus", Action::Departure, None)];
    assert!(compute_state(&bad).is_err());
    assert!(compute_state(&[]).ok().unwrap().employees.len() == 0);
}

#[test]
fn cloned_state_is_independent() {
    let mut s = GalleryState::default();
    assert!(s.apply(&entry(1, PersonType::Guest, "Gus", Action::Arrival, None)).is_ok());
    let copy = s.clone();
    assert!(s.apply(&entry(2, PersonType::Guest, "Gus", Action::Arrival, Some(3))).is_ok());
    assert_eq!(copy.guests.get("Gus"), Some(&None));
    assert_eq!(copy.last_timestamp, 1);
    assert_eq!(s.guests.get("Gus"), Some(&Some(3)));
}

#[test]
fn roster_insert_and_remove() {
    let mut r: Roster<Option<u32>> = Roster::new();
    assert_eq!(r.insert("A".to_string(), None), None);
    assert_eq!(r.insert("A".to_string(), Some(2)), Some(None));
    assert_eq!(r.len(), 1);
    assert_eq!(r.remove("A"), Some(Some(2)));
    assert_eq!(r.remove("A"), None);
    assert_eq!(r.get("A"), None);
}

// ── queries ─────────────────────────────────────────────────────────────

#[test]
fn sorted_names_orders_by_bytes() {
    let mut r: Roster<Option<u32>> = Roster::new();
    for n in ["bob", "Bob", "alice", "Zed", "Ann"] {
        r.insert(n.to_string(), None);
    }
    assert_eq!(sorted_names(&r), vec!["Ann", "Bob", "Zed", "alice", "bob"]);
}

#[test]
fn rooms_occupancy_groups_by_room() {
    let mut e: Roster<Option<u32>> = Roster::new();
    let mut g: Roster<Option<u32>> = Roster::new();
    e.insert("Eve".to_string(), Some(2));
    e.insert("Dan".to_string(), Some(2));
    e.insert("Cy".to_string(), None);
    g.insert("Gil".to_string(), Some(9));
    let m = rooms_occupancy(&e, &g);
    let keys: Vec<u32> = m.keys().copied().collect();
    assert_eq!(keys, vec![2, 9]);
    assert_eq!(m[&2].0, vec!["Dan", "Eve"]);
    assert!(m[&2].1.is_empty());
    assert!(m[&9].0.is_empty());
    assert_eq!(m[&9].1, vec!["Gil"]);
}

#[test]
fn room_history_only_arrivals_of_that_person() {
    let es = vec![
        entry(1, PersonType::Guest, "Al", Action::Arrival, None),
        entry(2, PersonType::Employee, "Al", Action::Arrival, None),
        entry(3, PersonType::Guest, "Al", Action::Arrival, Some(6)),
        entry(4, PersonType::Employee, "Al", Action::Arrival, Some(8)),
        entry(5, PersonType::Guest, "Al", Action::Departure, Some(6)),
    ];
    assert_eq!(room_history(&es, &PersonType::Guest, "Al"), Some(vec![6]));
    assert_eq!(room_history(&es, &PersonType::Employee, "Al"), Some(vec![8]));
    assert_eq!(room_history(&es, &PersonType::Guest, "Bo"), None);
}

#[test]
fn intersection_of_open_and_closed_visits() {
    let es = vec![
        entry(1, PersonType::Employee, "A", Action::Arrival, None),
        entry(2, PersonType::Guest, "B", Action::Arrival, None),
        entry(3, PersonType::Employee, "A", Action::Arrival, Some(7)),
        entry(4, PersonType::Employee, "A", Action::Departure, Some(7)),
        entry(5, PersonType::Guest, "B", Action::Arrival, Some(7)),
        entry(6, PersonType::Employee, "A", Action::Arrival, Some(7)),
    ];
    let both = vec![(PersonType::Employee, "A".to_string()), (PersonType::Guest, "B".to_string())];
    // A re-entered room 7 at 6 while B is still there: both open to the end
    assert_eq!(intersection_query(&es, &both), vec![7]);
    assert_eq!(intersection_query(&es, &[]), Vec::<u32>::new());
    let nobody = vec![(PersonType::Guest, "Z".to_string())];
    assert_eq!(intersection_query(&es, &nobody), Vec::<u32>::new());
    // a visit [3, 4) and one starting at 4 do not overlap
    let es2 = vec![
        entry(3, PersonType::Employee, "A", Action::Arrival, Some(1)),
        entry(4, PersonType::Employee, "A", Action::Departure, Some(1)),
        entry(4, PersonType::Guest, "B", Action::Arrival, Some(1)),
    ];
    assert_eq!(intersection_query(&es2, &both), Vec::<u32>::new());
    // a target in the log who never entered a room shares no room
    let es3 = vec![
        entry(1, PersonType::Employee, "Alice", Action::Arrival, None),
        entry(2, PersonType::Guest, "Bob", Action::Arrival, None),
        entry(3, PersonType::Employee, "Alice", Action::Arrival, Some(1)),
    ];
    let ab = vec![(PersonType::Employee, "Alice".to_string()), (PersonType::Guest, "Bob".to_string())];
    assert_eq!(intersection_query(&es3, &ab), Vec::<u32>::new());
    // order and repetition of the targets do not matter
    let ba = vec![(PersonType::Guest, "B".to_string()), (PersonType::Employee, "A".to_string()),
                  (PersonType::Guest, "B".to_string())];
    assert_eq!(intersection_query(&es, &ba), intersection_query(&es, &both));
    // one target: the rooms of its history, sorted, each once
    let es4 = vec![
        entry(1, PersonType::Employee, "A", Action::Arrival, None),
        entry(2, PersonType::Employee, "A", Action::Arrival, Some(3)),
        entry(3, PersonType::Employee, "A", Action::Departure, Some(3)),
        entry(4, PersonType::Employee, "A", Action::Arrival, Some(1)),
        entry(5, PersonType::Employee, "A", Action::Departure, Some(1)),
        entry(6, PersonType::Employee, "A", Action::Arrival, Some(3)),
    ];
    let a = vec![(PersonType::Employee, "A".to_string())];
    assert_eq!(room_history(&es4, &PersonType::Employee, "A"), Some(vec![3, 1, 3]));
    assert_eq!(intersection_query(&es4, &a), vec![1, 3]);
}

// ── validation ──────────────────────────────────────────────────────────

#[test]
fn names_and_tokens() {
    assert!(is_valid_name("Alice"));
    assert!(!is_valid_name(""));
    assert!(!is_valid_name("Al1ce"));
    assert!(!is_valid_name("Zoë"));
    assert!(is_valid_token("abc123"));
    assert!(!is_valid_token("bad token!"));
    assert!(!is_valid_token(""));
    assert!(!is_valid_token("é"));
}

// ── command lines ───────────────────────────────────────────────────────

#[test]
fn append_args_parse() {
    let a = append_cli::parse_args(&strings(&["-T", "5", "-K", "k1", "-G", "Bo", "-L", "-R", "3", "f.log"])).ok().unwrap();
    assert_eq!(a.timestamp, 5);
    assert_eq!(a.token, "k1");
    assert_eq!(a.person_type, PersonType::Guest);
    assert_eq!(a.name, "Bo");
    assert_eq!(a.action, Action::Departure);
    assert_eq!(a.room, Some(3));
    assert_eq!(a.log_path, "f.log");
    // later -T overrides
    let a = append_cli::parse_args(&strings(&["-T", "5", "-T", "6", "-K", "k", "-E", "X", "-A", "f"])).ok().unwrap();
    assert_eq!(a.timestamp, 6);
    assert!(append_cli::parse_args(&strings(&["-T", "1", "-K", "k", "-E", "X", "-A", "f", "g"])).is_err());
    assert!(append_cli::parse_args(&strings(&["-T", "1", "-K", "k", "-E", "X", "-A", "-Q", "f"])).is_err());
    assert!(append_cli::parse_args(&strings(&["-T", "1", "-K", "k", "-E", "X", "-A"])).is_err());
    assert!(append_cli::parse_args(&strings(&["-T", "1", "-K", "k", "-E", "X", "-A", "f", "-R"])).is_err());
    assert!(append_cli::parse_args(&strings(&["-T", "x", "-K", "k", "-E", "X", "-A", "f"])).is_err());
}

#[test]
fn read_args_parse() {
    let a = read_cli::parse_args(&strings(&["-K", "k", "-S", "f"])).ok().unwrap();
    assert!(matches!(a.command, Command::State));
    let a = read_cli::parse_args(&strings(&["-K", "k", "-R", "-G", "Bo", "f"])).ok().unwrap();
    match a.command {
        Command::RoomHistory { person_type, name } => {
            assert_eq!(person_type, PersonType::Guest);
            assert_eq!(name, "Bo");
        }
        _ => panic!("expected a room history"),
    }
    let a = read_cli::parse_args(&strings(&["-I", "-E", "A", "-G", "B", "-K", "k", "f"])).ok().unwrap();
    match a.command {
        Command::Intersection { persons } => assert_eq!(persons.len(), 2),
        _ => panic!("expected an intersection"),
    }
    assert!(read_cli::parse_args(&strings(&["-K", "k", "-S", "-R", "f"])).is_err());
    assert!(read_cli::parse_args(&strings(&["-K", "k", "-S", "-E", "A", "f"])).is_err());
    assert!(read_cli::parse_args(&strings(&["-K", "k", "-R", "f"])).is_err());
    assert!(read_cli::parse_args(&strings(&["-K", "k", "-I", "f"])).is_err());
    assert!(read_cli::parse_args(&strings(&["-K", "k", "-I", "-E", "A1", "f"])).is_err());
    assert!(read_cli::parse_args(&strings(&["-K", "k!", "-S", "f"])).is_err());
    assert!(read_cli::parse_args(&strings(&["-S", "f"])).is_err());
    assert!(read_cli::parse_args(&strings(&["-K", "k", "-S"])).is_err());
}

#[test]
fn plan_append_errors() {
    let a = append_cli::parse_args(&strings(&["-T", "1", "-K", "k", "-L", "-E", "Ann", "f"])).ok().unwrap();
    assert_eq!(plan_append(&a, None).err(), Some(AppendError::Invalid));
    assert_eq!(plan_append(&a, Some(&[1, 2, 3])).err(), Some(AppendError::Integrity));
    assert_eq!(plan_append(&a, Some(&[])).err(), Some(AppendError::Integrity));
    let ok = append_cli::parse_args(&strings(&["-T", "1", "-K", "k", "-A", "-E", "Ann", "f"])).ok().unwrap();
    let bytes = plan_append(&ok, None).ok().unwrap();
    let loaded = parse_log(&bytes, &derive_key("k")).ok().unwrap();
    assert_eq!(loaded.entries.len(), 1);
    assert_eq!(loaded.entries[0].name, "Ann");
    // a second append rewrites the header for two records
    let next = append_cli::parse_args(&strings(&["-T", "2", "-K", "k", "-A", "-E", "Ann", "-R", "4", "f"]))
        .ok()
        .unwrap();
    let bytes2 = plan_append(&next, Some(&bytes)).ok().unwrap();
    assert_eq!(&bytes2[..8], &2u64.to_le_bytes());
    assert_eq!(&bytes2[HEADER_LEN..bytes.len()], &bytes[HEADER_LEN..]);
    let loaded2 = parse_log(&bytes2, &derive_key("k")).ok().unwrap();
    assert_eq!(loaded2.entries.len(), 2);
    assert_eq!(loaded2.entries[1].room, Some(4));
}

#[test]
fn plan_read_answers_and_refuses() {
    let key_args = |v: &[&str]| read_cli::parse_args(&strings(v)).ok().unwrap();
    let mut log: Option<Vec<u8>> = None;
    for cmd in [
        &["-T", "1", "-K", "k", "-A", "-E", "Ann", "f"][..],
        &["-T", "2", "-K", "k", "-A", "-G", "Gus", "f"][..],
        &["-T", "3", "-K", "k", "-A", "-E", "Ann", "-R", "7", "f"][..],
    ] {
        let a = append_cli::parse_args(&strings(cmd)).ok().unwrap();
        log = Some(plan_append(&a, log.as_deref()).ok().unwrap());
    }
    let state = plan_read(&key_args(&["-K", "k", "-S", "f"]), log.as_deref()).ok().unwrap();
    assert_eq!(state, vec!["Ann".to_string(), "Gus".to_string(), "7: Ann".to_string()]);
    let hist = plan_read(&key_args(&["-K", "k", "-R", "-E", "Ann", "f"]), log.as_deref()).ok().unwrap();
    assert_eq!(hist, vec!["7".to_string()]);
    assert_eq!(
        plan_read(&key_args(&["-K", "k", "-R", "-E", "Bob", "f"]), log.as_deref()).err(),
        Some(ReadError::Invalid)
    );
    // Gus is in the log but never entered a room: nothing is shared with him
    let both = plan_read(&key_args(&["-K", "k", "-I", "-E", "Ann", "-G", "Gus", "f"]), log.as_deref());
    assert_eq!(both.ok().unwrap(), vec![String::new()]);
    assert_eq!(
        plan_read(&key_args(&["-K", "other", "-S", "f"]), log.as_deref()).err(),
        Some(ReadError::Integrity)
    );
    // no file: an empty gallery
    let empty = plan_read(&key_args(&["-K", "k", "-S", "f"]), None).ok().unwrap();
    assert_eq!(empty, vec![String::new(), String::new()]);
}

// ── batch files ─────────────────────────────────────────────────────────

#[test]
fn batch_lines_trim_and_skip_blank() {
    let lines = batch_lines("  -T 1 \r\n\n\t\n-K \"a b\" x\u{3000}");
    assert_eq!(lines, vec!["-T 1", "-K \"a b\" x"]);
    assert!(batch_lines("").is_empty());
    assert!(batch_lines("\n \n").is_empty());
}

#[test]
fn batch_commands_split_each_line() {
    let cmds = batch_commands(" -T 1 -K \"a b\"\n\n-A  f \n");
    assert_eq!(cmds, vec![vec!["-T", "1", "-K", "a b"], vec!["-A", "f"]]);
    assert!(batch_commands("").is_empty());
}

#[test]
fn chained_appends_read_back() {
    let key = derive_key("tok");
    let es = vec![
        entry(1, PersonType::Employee, "Ann", Action::Arrival, None),
        entry(2, PersonType::Guest, "Gus", Action::Arrival, None),
        entry(3, PersonType::Employee, "Ann", Action::Arrival, Some(9)),
    ];
    let mut file: Option<Vec<u8>> = None;
    let mut h = [0u8; 32];
    for e in &es {
        let (bytes, next) = append_entry(&key, file.as_deref(), e, &h).unwrap();
        file = Some(bytes);
        h = next;
    }
    let loaded = read_log(file.as_deref(), &key).ok().unwrap();
    assert_eq!(loaded.last_hash, h);
    assert_eq!(loaded.entries.len(), 3);
    for (a, b) in loaded.entries.iter().zip(es.iter()) {
        assert_eq!((a.timestamp, a.person_type, &a.name, a.action, a.room),
                   (b.timestamp, b.person_type, &b.name, b.action, b.room));
    }
    // a file too short for a header cannot be appended to
    assert!(append_entry(&key, Some(&[1, 2, 3]), &es[0], &h).is_none());
}

#[test]
fn batch_runs_lines_in_order_against_their_logs() {
    let content = "-T 1 -K k -A -E Ann a.log\n\
                   -T 1 -K k -A -G Gus b.log\n\
                   -T 1 -K k -A -E Bob a.log\n\
                   nonsense\n\
                   -T 2 -K k -A -E Bob c.log\n\
                   -T 2 -K k -A -E Bob a.log\n";
    let mut files: Vec<(String, Option<Vec<u8>>)> = Vec::new();
    let blocked = vec!["c.log".to_string()];
    let outcomes = run_batch(content, &mut files, &blocked);
    assert_eq!(outcomes, vec![
        Ok(()),
        Ok(()),
        Err(AppendError::Invalid),
        Err(AppendError::Invalid),
        Err(AppendError::Invalid),
        Ok(()),
    ]);
    let paths: Vec<&str> = files.iter().map(|(p, _)| p.as_str()).collect();
    assert_eq!(paths, vec!["a.log", "b.log"]);
    let a = read_log(files[0].1.as_deref(), &derive_key("k")).ok().unwrap();
    let names: Vec<&str> = a.entries.iter().map(|e| e.name.as_str()).collect();
    assert_eq!(names, vec!["Ann", "Bob"]);
    // the same lines run one at a time give the same logs
    let mut one_by_one: Vec<(String, Option<Vec<u8>>)> = Vec::new();
    for line in content.lines() {
        run_batch(line, &mut one_by_one, &blocked);
    }
    assert_eq!(one_by_one, files);
}

#[test]
fn shell_split_quotes_and_blanks() {
    assert_eq!(shell_split("-T  1\t-K \"two words\" a\"b\"c"), vec!["-T", "1", "-K", "two words", "abc"]);
    assert_eq!(shell_split("\"\""), Vec::<String>::new());
    assert_eq!(shell_split("  "), Vec::<String>::new());
}

// ── output ──────────────────────────────────────────────────────────────

#[test]
fn output_lines() {
    assert_eq!(join(&strings(&["a", "b", "c"]), ','), "a,b,c");
    assert_eq!(join(&[], ','), "");
    assert_eq!(rooms_line(&[3, 10, 0]), "3,10,0");
    assert_eq!(decimal_string(4294967295), "4294967295");
    assert_eq!(room_line(12, &strings(&["Ann"]), &strings(&["Bo", "Cy"])), "12: Ann,Bo,Cy");
}

// ── presence tracker and JSON records ───────────────────────────────────

#[test]
fn presence_tracker() {
    let mut s = gallery_log::state::GalleryState::new();
    assert!(s.apply_entry("A", "Al", Some(1)).is_err());
    assert!(s.apply_entry("A", "Al", None).is_ok());
    assert!(s.apply_entry("A", "Al", Some(1)).is_ok());
    assert!(s.apply_entry("A", "Al", Some(2)).is_err());
    assert!(s.apply_entry("L", "Al", None).is_err());
    assert!(s.apply_entry("L", "Al", Some(9)).is_ok());
    assert!(s.apply_entry("L", "Al", None).is_ok());
    assert!(!s.in_gallery.contains_key("Al"));
    assert!(s.apply_entry("X", "Al", None).is_err());
}

#[test]
fn json_record_mac() {
    let mut e = gallery_log::log::LogEntry {
        timestamp: 1,
        person_type: "E".to_string(),
        name: "Al".to_string(),
        action: "A".to_string(),
        room: None,
        prev_hash: vec![],
        mac: vec![],
    };
    let key = b"key";
    let ser = b"{\"timestamp\":1}";
    gallery_log::logappend::append_entry(key, &[5, 6], ser, &mut e);
    assert_eq!(e.prev_hash, vec![5, 6]);
    assert_eq!(e.mac, mac_any_key(key, ser).to_vec());
    assert!(gallery_log::logread::verify_entry(key, ser, &e));
    assert!(!gallery_log::logread::verify_entry(key, b"other", &e));
}
