//! The command line of `logappend`:
//! `-T <timestamp> -K <token> (-E <name> | -G <name>) (-A | -L) [-R <room>] <log>`.

use crate::crypto::{derive_key, hmac_sha256_spec, sha256_spec};
use crate::entry::{entry_text, Action, EntryView, LogEntry, PersonType};
use crate::gallery::{apply_spec, compute_state, lemma_state_of_push, state_of};
use crate::record::{
    append_entry, file_spec, file_view, header_tag, lemma_file_count, lemma_log_append,
    lemma_records_len, log_bytes, read_log, records_of, seal_ct, seal_spec, zero_hash,
};
use crate::text::{parse_u32, parse_u64, parse_unsigned};
use crate::validate::{is_valid_name, is_valid_token, name_ok, token_ok};
use vstd::prelude::*;
use vstd::string::{is_ascii, is_ascii_spec_bytes, StringSliceAdditionalSpecFns};
use vstd::utf8::encode_utf8;

verus! {

/// True when `s` is the flag `-c`.
pub open spec fn is_flag(s: Seq<char>, c: char) -> bool {
    s == seq!['-', c]
}

/// True when `s` starts with `-`.
pub open spec fn starts_with_dash(s: Seq<char>) -> bool {
    s.len() > 0 && s[0] == '-'
}

/// Whether `s` is the flag `-c`, for an ASCII letter `c`.
pub fn arg_is(s: &str, c: u8) -> (out: bool)
    requires
        c < 0x80,
    ensures
        out == is_flag(s@, c as char),
{
    if !s.is_ascii() {
        proof {
            let k = choose|k: int| 0 <= k < s@.len() && !('\0' <= #[trigger] s@[k] <= '\u{7f}');
            if s@ == seq!['-', c as char] {
                assert(s@[k] == '-' || s@[k] == c as char);
            }
        }
        return false;
    }
    proof { is_ascii_spec_bytes(s); }
    let b = s.as_bytes();
    if b.len() != 2 {
        return false;
    }
    let r = b[0] == 45 && b[1] == c;
    proof {
        assert(b@[0] == s@[0] as u8 && b@[1] == s@[1] as u8);
        assert(s@[0] as u32 <= 0x7f && s@[1] as u32 <= 0x7f);
        if r {
            assert(s@ =~= seq!['-', c as char]);
        }
    }
    r
}

/// Whether `s` starts with `-`.
pub fn arg_starts_with_dash(s: &str) -> (out: bool)
    ensures
        out == starts_with_dash(s@),
{
    let b = s.as_bytes();
    if b.len() == 0 {
        proof {
            if s@.len() > 0 {
                assert(encode_utf8(s@).len() > 0);
            }
        }
        return false;
    }
    proof {
        assert(s@.len() > 0);
        let c = s@[0];
        assert(encode_utf8(s@) == vstd::utf8::encode_scalar(c as u32) + encode_utf8(s@.drop_first()));
        if c == '-' {
            assert(c as u32 == 45);
            assert((45u32 & 0x7F) as u8 == 45) by (bit_vector);
            assert(vstd::utf8::encode_scalar(c as u32)[0] == 45);
            assert(b@[0] == 45);
        } else {
            let v = c as u32;
            vstd::utf8::char_u32_cast(c, v);
            assert(v != 45) by {
                if v == 45 {
                    assert((45u32 as char) == '-');
                }
            }
            if v <= 0x7f {
                assert((v & 0x7F) as u8 != 45) by (bit_vector)
                    requires v <= 0x7f, v != 45;
            } else {
                assert(forall|x: u32| (0xC0 | ((x >> 6) & 0x1F) as u8) != 45) by (bit_vector);
                assert(forall|x: u32| (0xE0 | ((x >> 12) & 0x0F) as u8) != 45) by (bit_vector);
                assert(forall|x: u32| (0xF0 | ((x >> 18) & 0x7) as u8) != 45) by (bit_vector);
            }
        }
    }
    b[0] == 45
}


/// The views of the arguments.
pub open spec fn arg_views(raw: Seq<String>) -> Seq<Seq<char>> {
    raw.map_values(|s: String| s@)
}

/// What has been read of the command line so far.
pub struct AppendScan {
    pub timestamp: Option<u64>,
    pub token: Option<Seq<char>>,
    pub person_type: Option<PersonType>,
    pub name: Option<Seq<char>>,
    pub action: Option<Action>,
    pub room: Option<u32>,
    pub log_path: Option<Seq<char>>,
}

/// Nothing read yet.
pub open spec fn empty_scan() -> AppendScan {
    AppendScan {
        timestamp: None,
        token: None,
        person_type: None,
        name: None,
        action: None,
        room: None,
        log_path: None,
    }
}

/// Reading the arguments from `i` on.  `-T`, `-K`, `-E`, `-G` and `-R`
/// take the next argument as their value (and fail when there is none);
/// `-T` and `-R` must be a `u64` and a `u32`; a later `-T`, `-K` or `-R`
/// overrides an earlier one; `-E`/`-G` may appear once in all, and `-A`/`-L`
/// once in all; an argument not starting with `-` is the log path, given
/// once; any other argument fails.
pub open spec fn append_scan(raw: Seq<Seq<char>>, i: int, st: AppendScan) -> Option<AppendScan>
    decreases raw.len() - i,
{
    if i < 0 || i >= raw.len() {
        Some(st)
    } else {
        let a = raw[i];
        let has_next = i + 1 < raw.len();
        if is_flag(a, 'T') {
            if !has_next {
                None
            } else {
                match parse_unsigned(encode_utf8(raw[i + 1]), u64::MAX as nat) {
                    None => None,
                    Some(v) => append_scan(raw, i + 2, AppendScan { timestamp: Some(v as u64), ..st }),
                }
            }
        } else if is_flag(a, 'K') {
            if !has_next {
                None
            } else {
                append_scan(raw, i + 2, AppendScan { token: Some(raw[i + 1]), ..st })
            }
        } else if is_flag(a, 'E') || is_flag(a, 'G') {
            if !has_next || st.person_type is Some {
                None
            } else {
                let p = if is_flag(a, 'E') { PersonType::Employee } else { PersonType::Guest };
                append_scan(raw, i + 2, AppendScan { person_type: Some(p), name: Some(raw[i + 1]), ..st })
            }
        } else if is_flag(a, 'A') || is_flag(a, 'L') {
            if st.action is Some {
                None
            } else {
                let act = if is_flag(a, 'A') { Action::Arrival } else { Action::Departure };
                append_scan(raw, i + 1, AppendScan { action: Some(act), ..st })
            }
        } else if is_flag(a, 'R') {
            if !has_next {
                None
            } else {
                match parse_unsigned(encode_utf8(raw[i + 1]), u32::MAX as nat) {
                    None => None,
                    Some(v) => append_scan(raw, i + 2, AppendScan { room: Some(v as u32), ..st }),
                }
            }
        } else if !starts_with_dash(a) {
            if st.log_path is Some {
                None
            } else {
                append_scan(raw, i + 1, AppendScan { log_path: Some(a), ..st })
            }
        } else {
            None
        }
    }
}

/// The mathematical value of [`Args`].
pub struct ArgsView {
    pub timestamp: u64,
    pub token: Seq<char>,
    pub person_type: PersonType,
    pub name: Seq<char>,
    pub action: Action,
    pub room: Option<u32>,
    pub log_path: Seq<char>,
}

/// The command line read as a whole: everything but the room is required,
/// the timestamp must be positive, the token valid and the name valid.
pub open spec fn append_args_spec(raw: Seq<Seq<char>>) -> Option<ArgsView> {
    match append_scan(raw, 0, empty_scan()) {
        None => None,
        Some(st) => if st.timestamp is Some && st.token is Some && st.person_type is Some
            && st.name is Some && st.action is Some && st.log_path is Some && st.timestamp.unwrap()
            != 0 && token_ok(st.token.unwrap()) && name_ok(st.name.unwrap()) {
            Some(
                ArgsView {
                    timestamp: st.timestamp.unwrap(),
                    token: st.token.unwrap(),
                    person_type: st.person_type.unwrap(),
                    name: st.name.unwrap(),
                    action: st.action.unwrap(),
                    room: st.room,
                    log_path: st.log_path.unwrap(),
                },
            )
        } else {
            None
        },
    }
}

/// The arguments of one `logappend` command.
pub struct Args {
    pub timestamp: u64,
    pub token: String,
    pub person_type: PersonType,
    pub name: String,
    pub action: Action,
    pub room: Option<u32>,
    pub log_path: String,
}

impl View for Args {
    type V = ArgsView;

    open spec fn view(&self) -> ArgsView {
        ArgsView {
            timestamp: self.timestamp,
            token: self.token@,
            person_type: self.person_type,
            name: self.name@,
            action: self.action,
            room: self.room,
            log_path: self.log_path@,
        }
    }
}

/// The view of an optional string.
pub open spec fn opt_view(s: Option<String>) -> Option<Seq<char>> {
    match s {
        Some(x) => Some(x@),
        None => None,
    }
}

/// Reads a `logappend` command line (without the program name).
pub fn parse_args(raw: &[String]) -> (out: Result<Args, ()>)
    ensures
        match out {
            Ok(a) => append_args_spec(arg_views(raw@)) == Some(a@),
            Err(_) => append_args_spec(arg_views(raw@)) is None,
        },
{
    let ghost rv = arg_views(raw@);
    let mut timestamp: Option<u64> = None;
    let mut token: Option<String> = None;
    let mut person_type: Option<PersonType> = None;
    let mut name: Option<String> = None;
    let mut action: Option<Action> = None;
    let mut room: Option<u32> = None;
    let mut log_path: Option<String> = None;
    let mut i: usize = 0;
    while i < raw.len()
        invariant
            i <= raw@.len(),
            rv == arg_views(raw@),
            rv.len() == raw@.len(),
            append_scan(rv, 0, empty_scan()) == append_scan(
                rv,
                i as int,
                AppendScan {
                    timestamp,
                    token: opt_view(token),
                    person_type,
                    name: opt_view(name),
                    action,
                    room,
                    log_path: opt_view(log_path),
                },
            ),
        decreases raw@.len() - i,
    {
        let a = raw[i].as_str();
        assert(a@ == rv[i as int]);
        let has_next = i + 1 < raw.len();
        if arg_is(a, 84) {
            if !has_next {
                return Err(());
            }
            let nb = raw[i + 1].as_str();
            assert(nb.spec_bytes() == encode_utf8(rv[i + 1]));
            match parse_u64(nb.as_bytes()) {
                Some(v) => {
                    timestamp = Some(v);
                },
                None => return Err(()),
            }
            i = i + 2;
        } else if arg_is(a, 75) {
            if !has_next {
                return Err(());
            }
            token = Some(raw[i + 1].clone());
            i = i + 2;
        } else if arg_is(a, 69) || arg_is(a, 71) {
            if !has_next || person_type.is_some() {
                return Err(());
            }
            person_type = Some(if arg_is(a, 69) { PersonType::Employee } else { PersonType::Guest });
            name = Some(raw[i + 1].clone());
            i = i + 2;
        } else if arg_is(a, 65) || arg_is(a, 76) {
            if action.is_some() {
                return Err(());
            }
            action = Some(if arg_is(a, 65) { Action::Arrival } else { Action::Departure });
            i = i + 1;
        } else if arg_is(a, 82) {
            if !has_next {
                return Err(());
            }
            let nb = raw[i + 1].as_str();
            assert(nb.spec_bytes() == encode_utf8(rv[i + 1]));
            match parse_u32(nb.as_bytes()) {
                Some(v) => {
                    room = Some(v);
                },
                None => return Err(()),
            }
            i = i + 2;
        } else if !arg_starts_with_dash(a) {
            if log_path.is_some() {
                return Err(());
            }
            log_path = Some(raw[i].clone());
            i = i + 1;
        } else {
            return Err(());
        }
    }
    let timestamp = match timestamp {
        Some(t) => t,
        None => return Err(()),
    };
    let token = match token {
        Some(t) => t,
        None => return Err(()),
    };
    let person_type = match person_type {
        Some(p) => p,
        None => return Err(()),
    };
    let name = match name {
        Some(n) => n,
        None => return Err(()),
    };
    let action = match action {
        Some(a) => a,
        None => return Err(()),
    };
    let log_path = match log_path {
        Some(p) => p,
        None => return Err(()),
    };
    if timestamp == 0 {
        return Err(());
    }
    if !is_valid_token(token.as_str()) {
        return Err(());
    }
    if !is_valid_name(name.as_str()) {
        return Err(());
    }
    Ok(Args { timestamp, token, person_type, name, action, room, log_path })
}


/// True when `a` is a flag of `logappend` that takes the next argument as
/// its value: `-T`, `-K`, `-E`, `-G` or `-R`.
pub open spec fn append_takes_value(a: Seq<char>) -> bool {
    a == seq!['-', 'T'] || a == seq!['-', 'K'] || a == seq!['-', 'E'] || a == seq!['-', 'G'] || a == seq![
        '-',
        'R',
    ]
}

/// True when argument `i` is the value of the flag just before it.
pub open spec fn append_value_at(raw: Seq<Seq<char>>, i: int) -> bool
    decreases i,
{
    if i <= 0 || i > raw.len() {
        false
    } else {
        !append_value_at(raw, i - 1) && append_takes_value(raw[i - 1])
    }
}

/// The number of flags `-c` (arguments that are not values) from argument
/// `i` on.
pub open spec fn append_flags(raw: Seq<Seq<char>>, i: int, c: char) -> nat
    decreases raw.len() - i,
{
    if i < 0 || i >= raw.len() {
        0
    } else {
        (if !append_value_at(raw, i) && raw[i] == seq!['-', c] {
            1nat
        } else {
            0nat
        }) + append_flags(raw, i + 1, c)
    }
}

/// Lemma: what reading from a flag position takes from the flags it meets.
proof fn lemma_append_scan_flags(raw: Seq<Seq<char>>, i: int, st: AppendScan)
    requires
        0 <= i <= raw.len(),
        !append_value_at(raw, i),
        append_scan(raw, i, st) is Some,
    ensures
        ({
            let f = append_scan(raw, i, st).unwrap();
            let eg = append_flags(raw, i, 'E') + append_flags(raw, i, 'G');
            let al = append_flags(raw, i, 'A') + append_flags(raw, i, 'L');
            &&& eg + (if st.person_type is Some { 1int } else { 0 }) <= 1
            &&& al + (if st.action is Some { 1int } else { 0 }) <= 1
            &&& (f.person_type is Some) == (st.person_type is Some || eg > 0)
            &&& (f.action is Some) == (st.action is Some || al > 0)
            &&& append_flags(raw, i, 'E') > 0 ==> f.person_type == Some(PersonType::Employee)
            &&& append_flags(raw, i, 'G') > 0 ==> f.person_type == Some(PersonType::Guest)
            &&& append_flags(raw, i, 'A') > 0 ==> f.action == Some(Action::Arrival)
            &&& append_flags(raw, i, 'L') > 0 ==> f.action == Some(Action::Departure)
            &&& st.person_type is Some ==> f.person_type == st.person_type
            &&& st.action is Some ==> f.action == st.action
            &&& (f.timestamp is Some) == (st.timestamp is Some || append_flags(raw, i, 'T') > 0)
            &&& (f.token is Some) == (st.token is Some || append_flags(raw, i, 'K') > 0)
            &&& (f.room is Some) == (st.room is Some || append_flags(raw, i, 'R') > 0)
        }),
    decreases raw.len() - i,
{
    if i < raw.len() {
        let a = raw[i];
        if append_takes_value(a) {
            assert(i + 1 < raw.len());
            assert(append_value_at(raw, i + 1));
            assert(!append_value_at(raw, i + 2));
            assert(append_flags(raw, i + 1, 'E') == append_flags(raw, i + 2, 'E'));
            assert(append_flags(raw, i + 1, 'G') == append_flags(raw, i + 2, 'G'));
            assert(append_flags(raw, i + 1, 'A') == append_flags(raw, i + 2, 'A'));
            assert(append_flags(raw, i + 1, 'L') == append_flags(raw, i + 2, 'L'));
            assert(append_flags(raw, i + 1, 'T') == append_flags(raw, i + 2, 'T'));
            assert(append_flags(raw, i + 1, 'K') == append_flags(raw, i + 2, 'K'));
            assert(append_flags(raw, i + 1, 'R') == append_flags(raw, i + 2, 'R'));
            if is_flag(a, 'T') {
                let v = parse_unsigned(encode_utf8(raw[i + 1]), u64::MAX as nat).unwrap();
                lemma_append_scan_flags(raw, i + 2, AppendScan { timestamp: Some(v as u64), ..st });
            } else if is_flag(a, 'K') {
                lemma_append_scan_flags(raw, i + 2, AppendScan { token: Some(raw[i + 1]), ..st });
            } else if is_flag(a, 'E') || is_flag(a, 'G') {
                let p = if is_flag(a, 'E') { PersonType::Employee } else { PersonType::Guest };
                lemma_append_scan_flags(
                    raw,
                    i + 2,
                    AppendScan { person_type: Some(p), name: Some(raw[i + 1]), ..st },
                );
            } else {
                let v = parse_unsigned(encode_utf8(raw[i + 1]), u32::MAX as nat).unwrap();
                lemma_append_scan_flags(raw, i + 2, AppendScan { room: Some(v as u32), ..st });
            }
        } else {
            assert(!append_value_at(raw, i + 1));
            if is_flag(a, 'A') || is_flag(a, 'L') {
                let act = if is_flag(a, 'A') { Action::Arrival } else { Action::Departure };
                lemma_append_scan_flags(raw, i + 1, AppendScan { action: Some(act), ..st });
            } else {
                lemma_append_scan_flags(raw, i + 1, AppendScan { log_path: Some(a), ..st });
            }
        }
    }
}

/// Law: an accepted `logappend` command line has exactly one person flag
/// (`-E` or `-G`) and exactly one action flag (`-A` or `-L`), and asks for
/// the person type and action they name; it has a `-T` and a `-K` flag;
/// and it names a room exactly when it has a `-R` flag.
pub proof fn lemma_append_flags(raw: Seq<Seq<char>>)
    ensures
        append_args_spec(raw) matches Some(a) ==> {
            &&& append_flags(raw, 0, 'E') + append_flags(raw, 0, 'G') == 1
            &&& append_flags(raw, 0, 'A') + append_flags(raw, 0, 'L') == 1
            &&& (a.person_type == PersonType::Employee) == (append_flags(raw, 0, 'E') == 1)
            &&& (a.action == Action::Arrival) == (append_flags(raw, 0, 'A') == 1)
            &&& append_flags(raw, 0, 'T') > 0
            &&& append_flags(raw, 0, 'K') > 0
            &&& (a.room is Some) == (append_flags(raw, 0, 'R') > 0)
        },
{
    if append_scan(raw, 0, empty_scan()) is Some {
        lemma_append_scan_flags(raw, 0, empty_scan());
    }
}

/// Why a `logappend` command is refused.
#[derive(Debug, Clone, Copy, PartialEq, Eq, Structural)]
pub enum AppendError {
    /// The command breaks the gallery's rules.
    Invalid,
    /// The log is not one sealed with this token, or its history breaks
    /// the rules.
    Integrity,
}

/// The entry that a command records.
pub open spec fn entry_of_args(a: ArgsView) -> EntryView {
    EntryView {
        timestamp: a.timestamp,
        person_type: a.person_type,
        name: a.name,
        action: a.action,
        room: a.room,
    }
}

/// The key of a command: the SHA-256 of its token's bytes.
pub open spec fn args_key(a: ArgsView) -> Seq<u8> {
    sha256_spec(encode_utf8(a.token))
}

/// What one `logappend` command does to what is at the log's path (`None`
/// when there is no file): a log that does not read back under the
/// command's key, or whose history the rules refuse, is an integrity
/// failure; an entry the rules refuse in the current state is invalid;
/// otherwise the new contents of the log file: the header rewritten for one
/// more record, the old records, and the entry sealed to the last hash.
/// (An entry whose text would come within a few dozen bytes of the address
/// space is refused as invalid.)
pub open spec fn append_outcome(a: ArgsView, file: Option<Seq<u8>>) -> Result<Seq<u8>, AppendError> {
    let key = args_key(a);
    let e = entry_of_args(a);
    match file_spec(file, key) {
        None => Err(AppendError::Integrity),
        Some((es, last)) => match state_of(es) {
            None => Err(AppendError::Integrity),
            Some(st) => match apply_spec(st, e) {
                None => Err(AppendError::Invalid),
                Some(_) => if entry_text(e).len() + 132 > usize::MAX {
                    Err(AppendError::Invalid)
                } else {
                    Ok(
                        log_bytes(
                            key,
                            (es.len() + 1) as u64,
                            sha256_spec(seal_ct(key, e, last)),
                            records_of(file) + seal_spec(key, e, last),
                        ),
                    )
                },
            },
        },
    }
}

/// Decides one `logappend` command against what is at the log's path
/// (`None` when there is no file): the new contents of the log file, or why
/// not.
pub fn plan_append(args: &Args, file: Option<&[u8]>) -> (out: Result<Vec<u8>, AppendError>)
    ensures
        match out {
            Ok(bytes) => append_outcome(args@, file_view(file)) == Ok::<Seq<u8>, AppendError>(bytes@),
            Err(e) => append_outcome(args@, file_view(file)) == Err::<Seq<u8>, AppendError>(e),
        },
        out is Ok ==> ({
            let key = args_key(args@);
            let (es, last) = file_spec(file_view(file), key).unwrap();
            let h = sha256_spec(seal_ct(key, entry_of_args(args@), last));
            &&& last.len() == 32
            &&& es.len() < u64::MAX
            &&& hmac_sha256_spec(key, seal_ct(key, entry_of_args(args@), last)).len() == 32
            &&& header_tag(key, (es.len() + 1) as u64, h).len() == 32
        }),
{
    let key = derive_key(args.token.as_str());
    let loaded = match read_log(file, &key) {
        Ok(l) => l,
        Err(_) => return Err(AppendError::Integrity),
    };
    let mut state = match compute_state(loaded.entries.as_slice()) {
        Ok(s) => s,
        Err(_) => return Err(AppendError::Integrity),
    };
    let entry = LogEntry {
        timestamp: args.timestamp,
        person_type: args.person_type,
        name: args.name.clone(),
        action: args.action,
        room: args.room,
    };
    if state.apply(&entry).is_err() {
        return Err(AppendError::Invalid);
    }
    let probe = entry.encode(&[0u8; 32]);
    if probe.len() > usize::MAX - 100 {
        return Err(AppendError::Invalid);
    }
    let file_len: usize = match file {
        Some(b) => b.len(),
        None => 0,
    };
    proof {
        lemma_file_count(file_view(file), key@);
        match file {
            Some(b) => {
                lemma_records_len(b@.subrange(40, b@.len() as int), key@, zero_hash());
                assert(b@.len() == file_len);
                assert(crate::record::header_count(b@) == loaded.entries@.len());
                assert(loaded.entries@.len() <= b@.len());
            },
            None => {},
        }
    }
    let bytes = match append_entry(&key, file, &entry, &loaded.last_hash) {
        Some((bytes, _)) => bytes,
        None => {
            proof {
                assert(false);
            }
            return Err(AppendError::Integrity);
        },
    };
    Ok(bytes)
}

/// Lemma: a valid name holds no `|`.
pub proof fn lemma_name_ok_no_bar(n: Seq<char>)
    requires
        name_ok(n),
    ensures
        !n.contains('|'),
{
    if n.contains('|') {
        let k = choose|k: int| 0 <= k < n.len() && n[k] == '|';
        assert(crate::validate::is_ascii_letter(n[k]));
    }
}

/// Law: the log file that `logappend` writes is one that `logread` reads
/// back, under the same token, as the old entries followed by the new one,
/// and whose history the rules accept.  This holds for every command whose
/// name is valid and whose ciphertext's length fits the record's `u32`
/// length field, the digests having their 32 bytes.
pub proof fn lemma_append_then_read(a: ArgsView, file: Option<Seq<u8>>)
    requires
        append_outcome(a, file) is Ok,
        name_ok(a.name),
        ({
            let key = args_key(a);
            let (es, last) = file_spec(file, key).unwrap();
            let h = sha256_spec(seal_ct(key, entry_of_args(a), last));
            &&& last.len() == 32
            &&& es.len() < u64::MAX
            &&& seal_ct(key, entry_of_args(a), last).len() <= u32::MAX
            &&& hmac_sha256_spec(key, seal_ct(key, entry_of_args(a), last)).len() == 32
            &&& header_tag(key, (es.len() + 1) as u64, h).len() == 32
        }),
    ensures
        ({
            let key = args_key(a);
            let (es, last) = file_spec(file, key).unwrap();
            let bytes = append_outcome(a, file)->Ok_0;
            &&& file_spec(Some(bytes), key) == Some(
                (es.push(entry_of_args(a)), sha256_spec(seal_ct(key, entry_of_args(a), last))),
            )
            &&& state_of(es.push(entry_of_args(a))) is Some
        }),
{
    let key = args_key(a);
    let (es, last) = file_spec(file, key).unwrap();
    lemma_name_ok_no_bar(a.name);
    lemma_log_append(file, key, es, last, entry_of_args(a));
    lemma_state_of_push(es, entry_of_args(a));
}

} // verus!
