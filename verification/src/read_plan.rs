//! What `logread` answers: the lines it prints for a command against what
//! is at the log's path, or why it refuses.

use crate::batch::string_views;
use crate::crypto::{derive_key, sha256_spec};
use crate::gallery::{compute_state, state_of, GalleryState, GalleryView};
use crate::query::{
    add_rooms, collect_sorted, concerns, history_spec, insert_room, intersection_query,
    lemma_str_lt, lists_sorted, has_name, names_where, room_history, rooms_of, shared_room, sorted_names,
    str_lt,
};
use crate::query::targets_view;
use crate::read_cli::{Args, Command, CommandView, ReadArgsView};
use crate::record::{entry_views, file_spec, file_view, read_log};
use crate::report::{decimal_chars, join, join_spec, room_line, room_numerals, rooms_line};
use vstd::prelude::*;
use vstd::utf8::encode_utf8;

verus! {

/// Why `logread` refuses a command.
#[derive(Debug, Clone, Copy, PartialEq, Eq, Structural)]
pub enum ReadError {
    /// The question cannot be answered: the person asked about is not in
    /// the log.
    Invalid,
    /// The log is not one sealed with this token, or its history breaks
    /// the rules.
    Integrity,
}

/// True when `v` lists exactly the names of `set`, in strictly increasing
/// order.
pub open spec fn names_sorted(v: Seq<Seq<char>>, set: Set<Seq<char>>) -> bool {
    &&& forall|i: int| 0 <= i < v.len() ==> set.contains(#[trigger] v[i])
    &&& forall|k: Seq<char>| set.contains(k) ==> #[trigger] v.contains(k)
    &&& forall|i: int, j: int| 0 <= i < j < v.len() ==> str_lt(v[i], v[j])
}

/// The names of `set` in increasing order.
pub open spec fn names_in_order(set: Set<Seq<char>>) -> Seq<Seq<char>> {
    choose|v: Seq<Seq<char>>| names_sorted(v, set)
}

/// True when `v` lists exactly the rooms of `set`, in strictly increasing
/// order.
pub open spec fn rooms_sorted(v: Seq<u32>, set: Set<u32>) -> bool {
    &&& forall|i: int| 0 <= i < v.len() ==> set.contains(#[trigger] v[i])
    &&& forall|r: u32| set.contains(r) ==> #[trigger] v.contains(r)
    &&& forall|i: int, j: int| 0 <= i < j < v.len() ==> v[i] < v[j]
}

/// The rooms of `set` in increasing order.
pub open spec fn rooms_in_order(set: Set<u32>) -> Seq<u32> {
    choose|v: Seq<u32>| rooms_sorted(v, set)
}

/// The line of room `r`: its numeral, `: `, then the employees and then the
/// guests in it, each in increasing order, joined with `,`.
pub open spec fn room_line_spec(st: GalleryView, r: u32) -> Seq<char> {
    decimal_chars(r as nat) + seq![':', ' '] + join_spec(
        names_in_order(names_where(st.employees, Some(r))) + names_in_order(
            names_where(st.guests, Some(r)),
        ),
        ',',
    )
}

/// The answer to `-S`: the employees in the gallery, the guests in the
/// gallery (each in increasing order, joined with `,`), then one line per
/// occupied room, in increasing order of rooms.
pub open spec fn state_lines(st: GalleryView) -> Seq<Seq<char>> {
    seq![
        join_spec(names_in_order(st.employees.dom()), ','),
        join_spec(names_in_order(st.guests.dom()), ','),
    ] + rooms_in_order(rooms_of(st.employees) + rooms_of(st.guests)).map_values(
        |r: u32| room_line_spec(st, r),
    )
}

/// What `logread` answers to a command against what is at the log's path
/// (`None` when there is no file).  A log that does not read back under the
/// token's key is an integrity failure.  `-S` replays the log (a history
/// the rules refuse is an integrity failure) and answers [`state_lines`];
/// `-R` answers the rooms the person entered, in the order of the log, or
/// refuses as invalid when the person is not in the log; `-I` answers the
/// rooms shared by the persons (see [`shared_room`]), in increasing order.
pub open spec fn read_outcome(a: ReadArgsView, file: Option<Seq<u8>>) -> Result<Seq<Seq<char>>, ReadError> {
    let key = sha256_spec(encode_utf8(a.token));
    match file_spec(file, key) {
        None => Err(ReadError::Integrity),
        Some((es, _)) => match a.command {
            CommandView::State => match state_of(es) {
                None => Err(ReadError::Integrity),
                Some(st) => Ok(state_lines(st)),
            },
            CommandView::RoomHistory { person_type, name } => if exists|i: int|
                0 <= i < es.len() && concerns(#[trigger] es[i], person_type, name) {
                Ok(seq![join_spec(room_numerals(history_spec(es, person_type, name)), ',')])
            } else {
                Err(ReadError::Invalid)
            },
            CommandView::Intersection { persons } => Ok(
                seq![
                    join_spec(
                        room_numerals(rooms_in_order(Set::new(|r: u32| shared_room(es, persons, r)))),
                        ',',
                    ),
                ],
            ),
        },
    }
}

/// Lemma: two lists of the names of one set, both strictly increasing, are
/// the same list.
#[verifier::spinoff_prover]
proof fn lemma_names_unique(v: Seq<Seq<char>>, w: Seq<Seq<char>>, set: Set<Seq<char>>)
    requires
        names_sorted(v, set),
        names_sorted(w, set),
    ensures
        v == w,
    decreases v.len(),
{
    if v.len() == 0 {
        if w.len() > 0 {
            assert(set.contains(w[0]));
            assert(v.contains(w[0]));
        }
        assert(v =~= w);
    } else if w.len() == 0 {
        assert(set.contains(v[0]));
        assert(w.contains(v[0]));
    } else {
        assert(set.contains(v[0]));
        assert(w.contains(v[0]));
        let k = choose|k: int| 0 <= k < w.len() && w[k] == v[0];
        assert(set.contains(w[0]));
        assert(v.contains(w[0]));
        let m = choose|m: int| 0 <= m < v.len() && v[m] == w[0];
        lemma_str_lt(v[0], w[0], v[0]);
        lemma_str_lt(w[0], v[0], w[0]);
        if k > 0 && m > 0 {
            assert(str_lt(w[0], w[k]));
            assert(str_lt(v[0], v[m]));
            lemma_str_lt(w[0], v[0], w[0]);
            assert(false);
        }
        assert(v[0] == w[0]);
        let set2 = set.remove(v[0]);
        let v2 = v.drop_first();
        let w2 = w.drop_first();
        assert forall|i: int| 0 <= i < v2.len() implies set2.contains(#[trigger] v2[i]) by {
            assert(str_lt(v[0], v[i + 1]));
            lemma_str_lt(v[0], v[0], v[0]);
        }
        assert forall|i: int| 0 <= i < w2.len() implies set2.contains(#[trigger] w2[i]) by {
            assert(str_lt(w[0], w[i + 1]));
            lemma_str_lt(w[0], w[0], w[0]);
        }
        assert forall|x: Seq<char>| set2.contains(x) implies #[trigger] v2.contains(x) by {
            assert(v.contains(x));
            let a = choose|a: int| 0 <= a < v.len() && v[a] == x;
            assert(v2[a - 1] == x);
        }
        assert forall|x: Seq<char>| set2.contains(x) implies #[trigger] w2.contains(x) by {
            assert(w.contains(x));
            let a = choose|a: int| 0 <= a < w.len() && w[a] == x;
            assert(w2[a - 1] == x);
        }
        assert forall|i: int, j: int| 0 <= i < j < v2.len() implies str_lt(v2[i], v2[j]) by {
            assert(str_lt(v[i + 1], v[j + 1]));
        }
        assert forall|i: int, j: int| 0 <= i < j < w2.len() implies str_lt(w2[i], w2[j]) by {
            assert(str_lt(w[i + 1], w[j + 1]));
        }
        lemma_names_unique(v2, w2, set2);
        assert(v.len() == w.len());
        assert forall|i: int| 0 <= i < v.len() implies v[i] == w[i] by {
            if i > 0 {
                assert(v[i] == v2[i - 1]);
                assert(w[i] == w2[i - 1]);
            }
        }
        assert(v =~= w);
    }
}

/// Lemma: a list of strings that `lists_sorted` describes is, by views,
/// the names of the set in increasing order.
proof fn lemma_names_in_order(v: Seq<String>, set: Set<Seq<char>>)
    requires
        lists_sorted(v, set),
    ensures
        names_in_order(set) == string_views(v),
{
    let sv = string_views(v);
    assert forall|i: int| 0 <= i < sv.len() implies set.contains(#[trigger] sv[i]) by {
        assert(sv[i] == v[i]@);
    }
    assert forall|k: Seq<char>| set.contains(k) implies #[trigger] sv.contains(k) by {
        assert(has_name(v, k));
        let i = choose|i: int| 0 <= i < v.len() && v[i]@ == k;
        assert(sv[i] == k);
    }
    assert forall|i: int, j: int| 0 <= i < j < sv.len() implies str_lt(sv[i], sv[j]) by {
        assert(sv[i] == v[i]@ && sv[j] == v[j]@);
    }
    assert(names_sorted(sv, set));
    lemma_names_unique(names_in_order(set), sv, set);
}

/// Lemma: two lists of the rooms of one set, both strictly increasing, are
/// the same list.
#[verifier::spinoff_prover]
proof fn lemma_rooms_unique(v: Seq<u32>, w: Seq<u32>, set: Set<u32>)
    requires
        rooms_sorted(v, set),
        rooms_sorted(w, set),
    ensures
        v == w,
    decreases v.len(),
{
    if v.len() == 0 {
        if w.len() > 0 {
            assert(set.contains(w[0]));
            assert(v.contains(w[0]));
        }
        assert(v =~= w);
    } else if w.len() == 0 {
        assert(set.contains(v[0]));
        assert(w.contains(v[0]));
    } else {
        assert(set.contains(v[0]));
        assert(w.contains(v[0]));
        let k = choose|k: int| 0 <= k < w.len() && w[k] == v[0];
        assert(set.contains(w[0]));
        assert(v.contains(w[0]));
        let m = choose|m: int| 0 <= m < v.len() && v[m] == w[0];
        if k > 0 && m > 0 {
            assert(w[0] < w[k]);
            assert(v[0] < v[m]);
            assert(false);
        }
        assert(v[0] == w[0]);
        let set2 = set.remove(v[0]);
        let v2 = v.drop_first();
        let w2 = w.drop_first();
        assert forall|i: int| 0 <= i < v2.len() implies set2.contains(#[trigger] v2[i]) by {
            assert(v[0] < v[i + 1]);
        }
        assert forall|i: int| 0 <= i < w2.len() implies set2.contains(#[trigger] w2[i]) by {
            assert(w[0] < w[i + 1]);
        }
        assert forall|x: u32| set2.contains(x) implies #[trigger] v2.contains(x) by {
            assert(v.contains(x));
            let a = choose|a: int| 0 <= a < v.len() && v[a] == x;
            assert(v2[a - 1] == x);
        }
        assert forall|x: u32| set2.contains(x) implies #[trigger] w2.contains(x) by {
            assert(w.contains(x));
            let a = choose|a: int| 0 <= a < w.len() && w[a] == x;
            assert(w2[a - 1] == x);
        }
        assert forall|i: int, j: int| 0 <= i < j < v2.len() implies v2[i] < v2[j] by {
            assert(v[i + 1] < v[j + 1]);
        }
        assert forall|i: int, j: int| 0 <= i < j < w2.len() implies w2[i] < w2[j] by {
            assert(w[i + 1] < w[j + 1]);
        }
        lemma_rooms_unique(v2, w2, set2);
        assert(v.len() == w.len());
        assert forall|i: int| 0 <= i < v.len() implies v[i] == w[i] by {
            if i > 0 {
                assert(v[i] == v2[i - 1]);
                assert(w[i] == w2[i - 1]);
            }
        }
        assert(v =~= w);
    }
}

/// Lemma: a strictly increasing list of exactly the rooms of `set` is the
/// rooms of `set` in increasing order.
proof fn lemma_rooms_in_order(v: Seq<u32>, set: Set<u32>)
    requires
        rooms_sorted(v, set),
    ensures
        rooms_in_order(set) == v,
{
    lemma_rooms_unique(rooms_in_order(set), v, set);
}


/// The lines of `-S` for a state (see [`state_lines`]).
pub fn state_report(state: &GalleryState) -> (out: Vec<String>)
    ensures
        string_views(out@) == state_lines(state@),
{
    let ghost st = state@;
    let emps = sorted_names(&state.employees);
    let gsts = sorted_names(&state.guests);
    proof {
        lemma_names_in_order(emps@, st.employees.dom());
        lemma_names_in_order(gsts@, st.guests.dom());
    }
    let mut lines: Vec<String> = Vec::new();
    lines.push(join(emps.as_slice(), ','));
    lines.push(join(gsts.as_slice(), ','));
    let ghost head = seq![
        join_spec(names_in_order(st.employees.dom()), ','),
        join_spec(names_in_order(st.guests.dom()), ','),
    ];
    assert(string_views(lines@) =~= head);
    let mut unsorted: Vec<u32> = Vec::new();
    add_rooms(&mut unsorted, &state.employees);
    add_rooms(&mut unsorted, &state.guests);
    let ghost set = rooms_of(st.employees) + rooms_of(st.guests);
    assert(unsorted@.to_set() =~= set);
    let mut rooms: Vec<u32> = Vec::new();
    let mut i: usize = 0;
    while i < unsorted.len()
        invariant
            i <= unsorted@.len(),
            forall|a: int, b: int| 0 <= a < b < rooms@.len() ==> rooms@[a] < rooms@[b],
            forall|q: u32| #[trigger] rooms@.contains(q) <==> exists|a: int| 0 <= a < i && unsorted@[a] == q,
        decreases unsorted@.len() - i,
    {
        let ghost before = rooms@;
        insert_room(&mut rooms, unsorted[i]);
        proof {
            assert forall|q: u32| #[trigger] rooms@.contains(q) <==> exists|a: int| 0 <= a < i + 1 && unsorted@[a] == q by {
                if rooms@.contains(q) && q != unsorted@[i as int] {
                    assert(before.contains(q));
                }
                if exists|a: int| 0 <= a < i + 1 && unsorted@[a] == q {
                    let a = choose|a: int| 0 <= a < i + 1 && unsorted@[a] == q;
                    if a < i {
                        assert(before.contains(q));
                    }
                }
            }
        }
        i = i + 1;
    }
    proof {
        assert forall|a: int| 0 <= a < rooms@.len() implies set.contains(#[trigger] rooms@[a]) by {
            assert(rooms@.contains(rooms@[a]));
            let b = choose|b: int| 0 <= b < unsorted@.len() && unsorted@[b] == rooms@[a];
            assert(unsorted@.to_set().contains(unsorted@[b]));
        }
        assert forall|r: u32| set.contains(r) implies #[trigger] rooms@.contains(r) by {
            assert(unsorted@.to_set().contains(r));
            let b = choose|b: int| 0 <= b < unsorted@.len() && unsorted@[b] == r;
        }
        lemma_rooms_in_order(rooms@, set);
    }
    let mut k: usize = 0;
    while k < rooms.len()
        invariant
            k <= rooms@.len(),
            st == state@,
            rooms@ == rooms_in_order(set),
            set == rooms_of(st.employees) + rooms_of(st.guests),
            head == seq![
                join_spec(names_in_order(st.employees.dom()), ','),
                join_spec(names_in_order(st.guests.dom()), ','),
            ],
            string_views(lines@) == head + rooms@.subrange(0, k as int).map_values(
                |r: u32| room_line_spec(st, r),
            ),
        decreases rooms@.len() - k,
    {
        let r = rooms[k];
        let es = collect_sorted(&state.employees, Some(r));
        let gs = collect_sorted(&state.guests, Some(r));
        proof {
            lemma_names_in_order(es@, names_where(st.employees, Some(r)));
            lemma_names_in_order(gs@, names_where(st.guests, Some(r)));
            assert(string_views(es@) + string_views(gs@) == names_in_order(
                names_where(st.employees, Some(r)),
            ) + names_in_order(names_where(st.guests, Some(r))));
        }
        let line = room_line(r, es.as_slice(), gs.as_slice());
        assert(line@ == room_line_spec(st, r));
        let ghost before = lines@;
        lines.push(line);
        proof {
            assert(string_views(lines@) =~= string_views(before).push(line@));
            assert(rooms@.subrange(0, k + 1) =~= rooms@.subrange(0, k as int).push(r));
            assert(rooms@.subrange(0, k + 1).map_values(|q: u32| room_line_spec(st, q)) =~= rooms@.subrange(
                0,
                k as int,
            ).map_values(|q: u32| room_line_spec(st, q)).push(room_line_spec(st, r)));
            assert(string_views(lines@) =~= head + rooms@.subrange(0, k + 1).map_values(
                |q: u32| room_line_spec(st, q),
            ));
        }
        k = k + 1;
    }
    assert(rooms@.subrange(0, k as int) =~= rooms@);
    lines
}

/// Answers a `logread` command against what is at the log's path (`None`
/// when there is no file): the lines to print, or why not (see
/// [`read_outcome`]).
pub fn plan_read(args: &Args, file: Option<&[u8]>) -> (out: Result<Vec<String>, ReadError>)
    ensures
        match out {
            Ok(l) => read_outcome(args@, file_view(file)) == Ok::<Seq<Seq<char>>, ReadError>(
                string_views(l@),
            ),
            Err(e) => read_outcome(args@, file_view(file)) == Err::<Seq<Seq<char>>, ReadError>(e),
        },
{
    let key = derive_key(args.token.as_str());
    let loaded = match read_log(file, &key) {
        Ok(l) => l,
        Err(_) => return Err(ReadError::Integrity),
    };
    let ghost es = entry_views(loaded.entries@);
    match &args.command {
        Command::State => {
            let state = match compute_state(loaded.entries.as_slice()) {
                Ok(s) => s,
                Err(_) => return Err(ReadError::Integrity),
            };
            Ok(state_report(&state))
        },
        Command::RoomHistory { person_type, name } => {
            match room_history(loaded.entries.as_slice(), person_type, name.as_str()) {
                None => {
                    proof {
                        if exists|i: int| 0 <= i < es.len() && concerns(#[trigger] es[i], *person_type, name@) {
                            let i = choose|i: int| 0 <= i < es.len() && concerns(#[trigger] es[i], *person_type, name@);
                            assert(es[i] == loaded.entries@[i]@);
                        }
                    }
                    Err(ReadError::Invalid)
                },
                Some(rooms) => {
                    proof {
                        let i = choose|i: int|
                            0 <= i < loaded.entries@.len() && concerns(#[trigger] loaded.entries@[i]@, *person_type, name@);
                        assert(es[i] == loaded.entries@[i]@);
                    }
                    let mut lines: Vec<String> = Vec::new();
                    lines.push(rooms_line(rooms.as_slice()));
                    assert(string_views(lines@) =~= seq![join_spec(room_numerals(rooms@), ',')]);
                    Ok(lines)
                },
            }
        },
        Command::Intersection { persons } => {
            let shared = intersection_query(loaded.entries.as_slice(), persons.as_slice());
            let ghost set = Set::new(|r: u32| shared_room(es, targets_view(persons@), r));
            proof {
                assert forall|r: u32| set.contains(r) implies #[trigger] shared@.contains(r) by {}
                assert forall|a: int| 0 <= a < shared@.len() implies set.contains(#[trigger] shared@[a]) by {
                    assert(shared@.contains(shared@[a]));
                }
                lemma_rooms_in_order(shared@, set);
            }
            let mut lines: Vec<String> = Vec::new();
            lines.push(rooms_line(shared.as_slice()));
            assert(string_views(lines@) =~= seq![join_spec(room_numerals(shared@), ',')]);
            Ok(lines)
        },
    }
}

} // verus!
