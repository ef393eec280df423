//! The command line of `logread`:
//! `-K <token> (-S | -R (-E <name> | -G <name>) | -I (-E <name> | -G <name>)...) <log>`.

use crate::append_cli::{arg_is, arg_starts_with_dash, arg_views, is_flag, opt_view, starts_with_dash};
use crate::entry::PersonType;
use crate::query::targets_view;
use crate::validate::{is_valid_name, is_valid_token, name_ok, token_ok};
use vstd::prelude::*;

verus! {

/// What has been read of the command line so far.
pub struct ReadScan {
    pub token: Option<Seq<char>>,
    pub mode_s: bool,
    pub mode_r: bool,
    pub mode_i: bool,
    pub persons: Seq<(PersonType, Seq<char>)>,
    pub log_path: Option<Seq<char>>,
}

/// Nothing read yet.
pub open spec fn empty_read_scan() -> ReadScan {
    ReadScan {
        token: None,
        mode_s: false,
        mode_r: false,
        mode_i: false,
        persons: Seq::empty(),
        log_path: None,
    }
}

/// Reading the arguments from `i` on.  `-K`, `-E` and `-G` take the next
/// argument as their value (and fail when there is none); a later `-K`
/// overrides an earlier one; each `-E`/`-G` adds a person; `-S`, `-R` and
/// `-I` set their mode; an argument not starting with `-` is the log path,
/// given once; any other argument fails.
pub open spec fn read_scan(raw: Seq<Seq<char>>, i: int, st: ReadScan) -> Option<ReadScan>
    decreases raw.len() - i,
{
    if i < 0 || i >= raw.len() {
        Some(st)
    } else {
        let a = raw[i];
        let has_next = i + 1 < raw.len();
        if is_flag(a, 'K') {
            if !has_next {
                None
            } else {
                read_scan(raw, i + 2, ReadScan { token: Some(raw[i + 1]), ..st })
            }
        } else if is_flag(a, 'S') {
            read_scan(raw, i + 1, ReadScan { mode_s: true, ..st })
        } else if is_flag(a, 'R') {
            read_scan(raw, i + 1, ReadScan { mode_r: true, ..st })
        } else if is_flag(a, 'I') {
            read_scan(raw, i + 1, ReadScan { mode_i: true, ..st })
        } else if is_flag(a, 'E') || is_flag(a, 'G') {
            if !has_next {
                None
            } else {
                let p = if is_flag(a, 'E') { PersonType::Employee } else { PersonType::Guest };
                read_scan(raw, i + 2, ReadScan { persons: st.persons.push((p, raw[i + 1])), ..st })
            }
        } else if !starts_with_dash(a) {
            if st.log_path is Some {
                None
            } else {
                read_scan(raw, i + 1, ReadScan { log_path: Some(a), ..st })
            }
        } else {
            None
        }
    }
}

/// The mathematical value of a [`Command`].
pub enum CommandView {
    State,
    RoomHistory { person_type: PersonType, name: Seq<char> },
    Intersection { persons: Seq<(PersonType, Seq<char>)> },
}

/// The mathematical value of [`Args`].
pub struct ReadArgsView {
    pub token: Seq<char>,
    pub command: CommandView,
    pub log_path: Seq<char>,
}

/// The command line read as a whole: token and log path required, token and
/// every name valid, exactly one mode; `-S` takes no person, `-R` exactly
/// one, `-I` at least one.
pub open spec fn read_args_spec(raw: Seq<Seq<char>>) -> Option<ReadArgsView> {
    match read_scan(raw, 0, empty_read_scan()) {
        None => None,
        Some(st) => {
            let n_modes = (if st.mode_s { 1int } else { 0 }) + (if st.mode_r { 1int } else { 0 }) + (
            if st.mode_i { 1int } else { 0 });
            if st.token is None || st.log_path is None || !token_ok(st.token.unwrap()) {
                None
            } else if exists|k: int| 0 <= k < st.persons.len() && !name_ok(#[trigger] st.persons[k].1) {
                None
            } else if n_modes != 1 {
                None
            } else {
                let command = if st.mode_s {
                    if st.persons.len() != 0 {
                        None
                    } else {
                        Some(CommandView::State)
                    }
                } else if st.mode_r {
                    if st.persons.len() != 1 {
                        None
                    } else {
                        Some(CommandView::RoomHistory { person_type: st.persons[0].0, name: st.persons[0].1 })
                    }
                } else {
                    if st.persons.len() == 0 {
                        None
                    } else {
                        Some(CommandView::Intersection { persons: st.persons })
                    }
                };
                match command {
                    None => None,
                    Some(c) => Some(
                        ReadArgsView { token: st.token.unwrap(), command: c, log_path: st.log_path.unwrap() },
                    ),
                }
            }
        },
    }
}

/// What `logread` is asked.
pub enum Command {
    /// Who is in the gallery, and in which rooms.
    State,
    /// The rooms one person entered, in order.
    RoomHistory { person_type: PersonType, name: String },
    /// The rooms that all the persons were in at the same time.
    Intersection { persons: Vec<(PersonType, String)> },
}

impl View for Command {
    type V = CommandView;

    open spec fn view(&self) -> CommandView {
        match self {
            Command::State => CommandView::State,
            Command::RoomHistory { person_type, name } => CommandView::RoomHistory {
                person_type: *person_type,
                name: name@,
            },
            Command::Intersection { persons } => CommandView::Intersection {
                persons: targets_view(persons@),
            },
        }
    }
}

/// The arguments of one `logread` command.
pub struct Args {
    pub token: String,
    pub command: Command,
    pub log_path: String,
}

impl View for Args {
    type V = ReadArgsView;

    open spec fn view(&self) -> ReadArgsView {
        ReadArgsView { token: self.token@, command: self.command@, log_path: self.log_path@ }
    }
}

/// Reads a `logread` command line (without the program name).
pub fn parse_args(raw: &[String]) -> (out: Result<Args, ()>)
    ensures
        match out {
            Ok(a) => read_args_spec(arg_views(raw@)) == Some(a@),
            Err(_) => read_args_spec(arg_views(raw@)) is None,
        },
{
    let ghost rv = arg_views(raw@);
    let mut token: Option<String> = None;
    let mut mode_s = false;
    let mut mode_r = false;
    let mut mode_i = false;
    let mut persons: Vec<(PersonType, String)> = Vec::new();
    let mut log_path: Option<String> = None;
    let mut i: usize = 0;
    assert(targets_view(persons@) =~= Seq::<(PersonType, Seq<char>)>::empty());
    while i < raw.len()
        invariant
            i <= raw@.len(),
            rv == arg_views(raw@),
            rv.len() == raw@.len(),
            read_scan(rv, 0, empty_read_scan()) == read_scan(
                rv,
                i as int,
                ReadScan {
                    token: opt_view(token),
                    mode_s,
                    mode_r,
                    mode_i,
                    persons: targets_view(persons@),
                    log_path: opt_view(log_path),
                },
            ),
        decreases raw@.len() - i,
    {
        let a = raw[i].as_str();
        assert(a@ == rv[i as int]);
        let has_next = i + 1 < raw.len();
        if arg_is(a, 75) {
            if !has_next {
                return Err(());
            }
            token = Some(raw[i + 1].clone());
            i = i + 2;
        } else if arg_is(a, 83) {
            mode_s = true;
            i = i + 1;
        } else if arg_is(a, 82) {
            mode_r = true;
            i = i + 1;
        } else if arg_is(a, 73) {
            mode_i = true;
            i = i + 1;
        } else if arg_is(a, 69) || arg_is(a, 71) {
            if !has_next {
                return Err(());
            }
            let p = if arg_is(a, 69) { PersonType::Employee } else { PersonType::Guest };
            let ghost before = persons@;
            persons.push((p, raw[i + 1].clone()));
            assert(targets_view(persons@) =~= targets_view(before).push((p, rv[i + 1])));
            i = i + 2;
        } else if !arg_starts_with_dash(a) {
            if log_path.is_some() {
                return Err(());
            }
            log_path = Some(raw[i].clone());
            i = i + 1;
        } else {
            return Err(());
        }
    }
    let ghost st = read_scan(rv, 0, empty_read_scan()).unwrap();
    assert(st == ReadScan {
        token: opt_view(token),
        mode_s,
        mode_r,
        mode_i,
        persons: targets_view(persons@),
        log_path: opt_view(log_path),
    });
    let token = match token {
        Some(t) => t,
        None => return Err(()),
    };
    let log_path = match log_path {
        Some(p) => p,
        None => return Err(()),
    };
    if !is_valid_token(token.as_str()) {
        return Err(());
    }
    let mut k: usize = 0;
    while k < persons.len()
        invariant
            k <= persons@.len(),
            forall|m: int| 0 <= m < k ==> name_ok(#[trigger] persons@[m].1@),
            read_scan(rv, 0, empty_read_scan()) == Some(st),
            rv == arg_views(raw@),
            st.persons == targets_view(persons@),
            st.token == Some(token@),
            st.log_path == Some(log_path@),
            token_ok(token@),
        decreases persons@.len() - k,
    {
        if !is_valid_name(persons[k].1.as_str()) {
            proof {
                assert(targets_view(persons@)[k as int].1 == persons@[k as int].1@);
            }
            return Err(());
        }
        k = k + 1;
    }
    proof {
        assert forall|m: int| 0 <= m < targets_view(persons@).len() implies name_ok(
            #[trigger] targets_view(persons@)[m].1,
        ) by {
            assert(targets_view(persons@)[m].1 == persons@[m].1@);
        }
    }
    let n_modes: u8 = (if mode_s { 1u8 } else { 0u8 }) + (if mode_r { 1u8 } else { 0u8 }) + (if mode_i { 1u8 } else { 0u8 });
    if n_modes != 1 {
        return Err(());
    }
    let command = if mode_s {
        if persons.len() != 0 {
            return Err(());
        }
        Command::State
    } else if mode_r {
        if persons.len() != 1 {
            return Err(());
        }
        let (pt, name) = persons.remove(0);
        Command::RoomHistory { person_type: pt, name }
    } else {
        if persons.len() == 0 {
            return Err(());
        }
        Command::Intersection { persons }
    };
    Ok(Args { token, command, log_path })
}


/// True when `a` is a flag of `logread` that takes the next argument as
/// its value: `-K`, `-E` or `-G`.
pub open spec fn takes_value(a: Seq<char>) -> bool {
    a == seq!['-', 'K'] || a == seq!['-', 'E'] || a == seq!['-', 'G']
}

/// True when argument `i` is the value of the flag just before it (read
/// from the start, a value is never itself a flag).
pub open spec fn is_value_at(raw: Seq<Seq<char>>, i: int) -> bool
    decreases i,
{
    if i <= 0 || i > raw.len() {
        false
    } else {
        !is_value_at(raw, i - 1) && takes_value(raw[i - 1])
    }
}

/// The number of `-E` and `-G` flags (arguments that are not values) from
/// argument `i` on.
pub open spec fn person_flags(raw: Seq<Seq<char>>, i: int) -> nat
    decreases raw.len() - i,
{
    if i < 0 || i >= raw.len() {
        0
    } else {
        (if !is_value_at(raw, i) && (raw[i] == seq!['-', 'E'] || raw[i] == seq!['-', 'G']) {
            1nat
        } else {
            0nat
        }) + person_flags(raw, i + 1)
    }
}

/// The number of flags `-c` (arguments that are not values) from argument
/// `i` on.
pub open spec fn flag_count(raw: Seq<Seq<char>>, i: int, c: char) -> nat
    decreases raw.len() - i,
{
    if i < 0 || i >= raw.len() {
        0
    } else {
        (if !is_value_at(raw, i) && raw[i] == seq!['-', c] {
            1nat
        } else {
            0nat
        }) + flag_count(raw, i + 1, c)
    }
}

/// Lemma: reading from a flag position adds one person per `-E`/`-G` flag.
proof fn lemma_scan_persons(raw: Seq<Seq<char>>, i: int, st: ReadScan)
    requires
        0 <= i <= raw.len(),
        !is_value_at(raw, i),
        read_scan(raw, i, st) is Some,
    ensures
        read_scan(raw, i, st).unwrap().persons.len() == st.persons.len() + person_flags(raw, i),
        read_scan(raw, i, st).unwrap().mode_s == (st.mode_s || flag_count(raw, i, 'S') > 0),
        read_scan(raw, i, st).unwrap().mode_r == (st.mode_r || flag_count(raw, i, 'R') > 0),
        read_scan(raw, i, st).unwrap().mode_i == (st.mode_i || flag_count(raw, i, 'I') > 0),
    decreases raw.len() - i,
{
    if i < raw.len() {
        let a = raw[i];
        if takes_value(a) {
            assert(i + 1 < raw.len());
            assert(is_value_at(raw, i + 1));
            assert(!is_value_at(raw, i + 2));
            assert(person_flags(raw, i + 1) == person_flags(raw, i + 2));
            assert(flag_count(raw, i + 1, 'S') == flag_count(raw, i + 2, 'S'));
            assert(flag_count(raw, i + 1, 'R') == flag_count(raw, i + 2, 'R'));
            assert(flag_count(raw, i + 1, 'I') == flag_count(raw, i + 2, 'I'));
            if is_flag(a, 'K') {
                lemma_scan_persons(raw, i + 2, ReadScan { token: Some(raw[i + 1]), ..st });
            } else {
                let p = if is_flag(a, 'E') { PersonType::Employee } else { PersonType::Guest };
                lemma_scan_persons(
                    raw,
                    i + 2,
                    ReadScan { persons: st.persons.push((p, raw[i + 1])), ..st },
                );
            }
        } else {
            assert(!is_value_at(raw, i + 1));
            if is_flag(a, 'S') {
                lemma_scan_persons(raw, i + 1, ReadScan { mode_s: true, ..st });
            } else if is_flag(a, 'R') {
                lemma_scan_persons(raw, i + 1, ReadScan { mode_r: true, ..st });
            } else if is_flag(a, 'I') {
                lemma_scan_persons(raw, i + 1, ReadScan { mode_i: true, ..st });
            } else {
                lemma_scan_persons(raw, i + 1, ReadScan { log_path: Some(a), ..st });
            }
        }
    }
}

/// Law: an accepted `logread` command line asks about as many persons as
/// it has `-E`/`-G` flags: none for `-S`, exactly one for `-R`, and at least
/// one for `-I`, which asks about each of them; and its command is the one
/// mode flag among `-S`, `-R` and `-I` that it has.
pub proof fn lemma_person_count(raw: Seq<Seq<char>>)
    ensures
        match read_args_spec(raw) {
            Some(a) => match a.command {
                CommandView::State => person_flags(raw, 0) == 0 && flag_count(raw, 0, 'S') > 0
                    && flag_count(raw, 0, 'R') == 0 && flag_count(raw, 0, 'I') == 0,
                CommandView::RoomHistory { .. } => person_flags(raw, 0) == 1 && flag_count(raw, 0, 'R')
                    > 0 && flag_count(raw, 0, 'S') == 0 && flag_count(raw, 0, 'I') == 0,
                CommandView::Intersection { persons } => persons.len() == person_flags(raw, 0)
                    && person_flags(raw, 0) >= 1 && flag_count(raw, 0, 'I') > 0 && flag_count(raw, 0, 'S')
                    == 0 && flag_count(raw, 0, 'R') == 0,
            },
            None => true,
        },
{
    if read_scan(raw, 0, empty_read_scan()) is Some {
        lemma_scan_persons(raw, 0, empty_read_scan());
    }
}

} // verus!
