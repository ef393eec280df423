//! What the log is asked: who is present (sorted), who is in which room,
//! where a person has been, and which rooms a group shared at once.

use crate::entry::{Action, EntryView, LogEntry, PersonType};
use crate::gallery::{apply_spec, lemma_timestamps_increase, roster_of, state_of, GalleryView};
use crate::record::entry_views;
use crate::roster::{lemma_to_map, no_dup, str_eq, to_map, Roster};
use vstd::prelude::*;
use vstd::string::StringSliceAdditionalSpecFns;
use vstd::utf8::{encode_utf8, encode_utf8_decode_utf8};

verus! {

/// Lexicographic order on byte strings: the first differing byte decides,
/// and a proper prefix comes first.
pub open spec fn bytes_lt(a: Seq<u8>, b: Seq<u8>) -> bool
    decreases a.len(),
{
    if a.len() == 0 {
        b.len() > 0
    } else if b.len() == 0 {
        false
    } else if a[0] != b[0] {
        a[0] < b[0]
    } else {
        bytes_lt(a.drop_first(), b.drop_first())
    }
}

/// The order of `String`: lexicographic on their UTF-8 bytes.
pub open spec fn str_lt(a: Seq<char>, b: Seq<char>) -> bool {
    bytes_lt(encode_utf8(a), encode_utf8(b))
}

/// Lemma: the byte order is irreflexive, transitive and total.
pub proof fn lemma_bytes_lt(a: Seq<u8>, b: Seq<u8>, c: Seq<u8>)
    ensures
        !bytes_lt(a, a),
        bytes_lt(a, b) && bytes_lt(b, c) ==> bytes_lt(a, c),
        a != b ==> bytes_lt(a, b) || bytes_lt(b, a),
        bytes_lt(a, b) ==> !bytes_lt(b, a),
    decreases a.len(),
{
    if a.len() > 0 && b.len() > 0 && c.len() > 0 {
        lemma_bytes_lt(a.drop_first(), b.drop_first(), c.drop_first());
    }
    if a.len() > 0 && b.len() > 0 {
        lemma_bytes_lt(a.drop_first(), b.drop_first(), b.drop_first());
        if a != b && a[0] == b[0] {
            assert(a.drop_first() != b.drop_first()) by {
                if a.drop_first() == b.drop_first() {
                    assert(a =~= seq![a[0]] + a.drop_first());
                    assert(b =~= seq![b[0]] + b.drop_first());
                }
            }
        }
    }
    if a.len() > 0 {
        lemma_bytes_lt(a.drop_first(), a.drop_first(), a.drop_first());
    }
    if a.len() == 0 && b.len() == 0 {
        assert(a =~= b);
    }
}

/// Lemma: the string order is irreflexive, transitive and total.
pub proof fn lemma_str_lt(a: Seq<char>, b: Seq<char>, c: Seq<char>)
    ensures
        !str_lt(a, a),
        str_lt(a, b) && str_lt(b, c) ==> str_lt(a, c),
        a != b ==> str_lt(a, b) || str_lt(b, a),
        str_lt(a, b) ==> !str_lt(b, a),
{
    encode_utf8_decode_utf8(a);
    encode_utf8_decode_utf8(b);
    lemma_bytes_lt(encode_utf8(a), encode_utf8(b), encode_utf8(c));
}

/// Compares two byte strings lexicographically.
pub fn bytes_less(a: &[u8], b: &[u8]) -> (out: bool)
    ensures
        out == bytes_lt(a@, b@),
{
    let mut i: usize = 0;
    assert(a@.subrange(0, a@.len() as int) =~= a@);
    assert(b@.subrange(0, b@.len() as int) =~= b@);
    while i < a.len() && i < b.len()
        invariant
            i <= a@.len(),
            i <= b@.len(),
            bytes_lt(a@, b@) == bytes_lt(
                a@.subrange(i as int, a@.len() as int),
                b@.subrange(i as int, b@.len() as int),
            ),
        decreases a@.len() - i,
    {
        let ghost sa = a@.subrange(i as int, a@.len() as int);
        let ghost sb = b@.subrange(i as int, b@.len() as int);
        if a[i] != b[i] {
            return a[i] < b[i];
        }
        assert(sa.drop_first() =~= a@.subrange(i + 1, a@.len() as int));
        assert(sb.drop_first() =~= b@.subrange(i + 1, b@.len() as int));
        i = i + 1;
    }
    i < b.len()
}

/// Compares two strings as `String`'s order does.
pub fn str_less(a: &str, b: &str) -> (out: bool)
    ensures
        out == str_lt(a@, b@),
{
    bytes_less(a.as_bytes(), b.as_bytes())
}

/// True when some string of `v` has the view `k`.
pub open spec fn has_name(v: Seq<String>, k: Seq<char>) -> bool {
    exists|i: int| 0 <= i < v.len() && v[i]@ == k
}

/// True when some pair among the first `n` of `p` names `k`.
pub open spec fn pairs_name(p: Seq<(String, Option<u32>)>, n: int, k: Seq<char>) -> bool {
    exists|i: int| 0 <= i < n && p[i].0@ == k
}

/// True when `v`, read by views, lists exactly the names of `set`, in
/// strictly increasing order.
pub open spec fn lists_sorted(v: Seq<String>, set: Set<Seq<char>>) -> bool {
    &&& forall|i: int| 0 <= i < v.len() ==> set.contains(#[trigger] v[i]@)
    &&& forall|k: Seq<char>| set.contains(k) ==> #[trigger] has_name(v, k)
    &&& forall|i: int, j: int| 0 <= i < j < v.len() ==> str_lt(v[i]@, v[j]@)
}

/// Inserts `x` into the strictly increasing `v` at its place.
fn insert_sorted(v: &mut Vec<String>, x: String)
    requires
        forall|i: int, j: int| 0 <= i < j < old(v)@.len() ==> str_lt(old(v)@[i]@, old(v)@[j]@),
        forall|i: int| 0 <= i < old(v)@.len() ==> old(v)@[i]@ != x@,
    ensures
        final(v)@.len() == old(v)@.len() + 1,
        forall|i: int, j: int| 0 <= i < j < final(v)@.len() ==> str_lt(final(v)@[i]@, final(v)@[j]@),
        forall|k: Seq<char>| #[trigger]
            has_name(final(v)@, k) <==> (k == x@ || has_name(old(v)@, k)),
{
    let mut p: usize = 0;
    let mut found = false;
    while !found && p < v.len()
        invariant
            p <= v@.len(),
            v@ == old(v)@,
            forall|i: int| 0 <= i < old(v)@.len() ==> old(v)@[i]@ != x@,
            forall|i: int| 0 <= i < p ==> str_lt(v@[i]@, x@),
            found ==> p < v@.len() && str_lt(x@, v@[p as int]@),
        decreases v@.len() - p, (if found { 0int } else { 1int }),
    {
        if str_less(x.as_str(), v[p].as_str()) {
            found = true;
        } else {
            proof { lemma_str_lt(v@[p as int]@, x@, x@); }
            p = p + 1;
        }
    }
    let ghost before = v@;
    proof {
        assert forall|i: int| p <= i < before.len() implies str_lt(x@, before[i]@) by {
            if p < before.len() {
                assert(str_lt(x@, before[p as int]@));
                if i > p {
                    lemma_str_lt(x@, before[p as int]@, before[i]@);
                }
            }
        }
    }
    v.insert(p, x);
    proof {
        assert forall|i: int, j: int| 0 <= i < j < v@.len() implies str_lt(v@[i]@, v@[j]@) by {
            if j < p {
                assert(v@[i] == before[i] && v@[j] == before[j]);
            } else if j == p {
                assert(v@[i] == before[i]);
            } else if i < p {
                assert(v@[i] == before[i] && v@[j] == before[j - 1]);
                lemma_str_lt(before[i]@, x@, before[j - 1]@);
            } else if i == p {
                assert(v@[j] == before[j - 1]);
            } else {
                assert(v@[i] == before[i - 1] && v@[j] == before[j - 1]);
            }
        }
        assert forall|k: Seq<char>| #[trigger]
            has_name(v@, k) <==> (k == x@ || has_name(before, k)) by {
            if has_name(v@, k) {
                let i = choose|i: int| 0 <= i < v@.len() && v@[i]@ == k;
                if i < p {
                    assert(before[i]@ == k);
                } else if i > p {
                    assert(before[i - 1]@ == k);
                }
            }
            if k == x@ {
                assert(v@[p as int]@ == k);
            }
            if has_name(before, k) {
                let i = choose|i: int| 0 <= i < before.len() && before[i]@ == k;
                if i < p {
                    assert(v@[i]@ == k);
                } else {
                    assert(v@[i + 1]@ == k);
                }
            }
        }
    }
}

/// Whether a place passes the filter: any place when the filter is `None`,
/// else exactly room `r`.
pub open spec fn place_matches(filter: Option<u32>, place: Option<u32>) -> bool {
    match filter {
        None => true,
        Some(r) => place == Some(r),
    }
}

/// The names of `m` whose place passes the filter.
pub open spec fn names_where(m: Map<Seq<char>, Option<u32>>, filter: Option<u32>) -> Set<Seq<char>> {
    m.dom().filter(|n: Seq<char>| place_matches(filter, m[n]))
}

/// True when some pair among the first `n` of `p` names `k` and passes
/// the filter.
pub open spec fn pairs_name_where(
    p: Seq<(String, Option<u32>)>,
    n: int,
    filter: Option<u32>,
    k: Seq<char>,
) -> bool {
    exists|i: int| 0 <= i < n && p[i].0@ == k && place_matches(filter, p[i].1)
}

/// The names of `map` whose place passes the filter, in increasing order.
pub(crate) fn collect_sorted(map: &Roster<Option<u32>>, filter: Option<u32>) -> (out: Vec<String>)
    ensures
        lists_sorted(out@, names_where(map@, filter)),
{
    let pairs = map.pairs();
    proof { lemma_to_map(pairs@); }
    let mut v: Vec<String> = Vec::new();
    let mut i: usize = 0;
    while i < pairs.len()
        invariant
            i <= pairs@.len(),
            no_dup(pairs@),
            to_map(pairs@) == map@,
            forall|a: int, b: int| 0 <= a < b < v@.len() ==> str_lt(v@[a]@, v@[b]@),
            forall|k: Seq<char>| #[trigger]
                has_name(v@, k) <==> pairs_name_where(pairs@, i as int, filter, k),
        decreases pairs@.len() - i,
    {
        let keep = match filter {
            None => true,
            Some(r) => match pairs[i].1 {
                Some(q) => q == r,
                None => false,
            },
        };
        let ghost vb = v@;
        if keep {
            let name = pairs[i].0.clone();
            proof {
                assert forall|a: int| 0 <= a < v@.len() implies v@[a]@ != name@ by {
                    if v@[a]@ == name@ {
                        assert(has_name(v@, name@));
                        let b = choose|b: int|
                            0 <= b < i && pairs@[b].0@ == name@ && place_matches(filter, pairs@[b].1);
                        assert(pairs@[b].0@ != pairs@[i as int].0@);
                    }
                }
            }
            insert_sorted(&mut v, name);
        }
        proof {
            assert forall|k: Seq<char>| #[trigger]
                has_name(v@, k) <==> pairs_name_where(pairs@, i + 1, filter, k) by {
                if keep && k == pairs@[i as int].0@ {
                    assert(pairs_name_where(pairs@, i + 1, filter, k));
                }
                if pairs_name_where(pairs@, i + 1, filter, k) {
                    let a = choose|a: int|
                        0 <= a < i + 1 && pairs@[a].0@ == k && place_matches(filter, pairs@[a].1);
                    if a < i {
                        assert(pairs_name_where(pairs@, i as int, filter, k));
                    }
                }
                if pairs_name_where(pairs@, i as int, filter, k) {
                    let a = choose|a: int|
                        0 <= a < i && pairs@[a].0@ == k && place_matches(filter, pairs@[a].1);
                    assert(pairs_name_where(pairs@, i + 1, filter, k));
                }
            }
        }
        i = i + 1;
    }
    proof {
        let set = names_where(map@, filter);
        assert forall|a: int| 0 <= a < v@.len() implies set.contains(#[trigger] v@[a]@) by {
            assert(has_name(v@, v@[a]@));
            let b = choose|b: int|
                0 <= b < i && pairs@[b].0@ == v@[a]@ && place_matches(filter, pairs@[b].1);
            assert(to_map(pairs@)[pairs@[b].0@] == pairs@[b].1);
        }
        assert forall|k: Seq<char>| set.contains(k) implies #[trigger] has_name(v@, k) by {
            assert(to_map(pairs@).contains_key(k));
            let a = choose|a: int| 0 <= a < pairs@.len() && pairs@[a].0@ == k;
            assert(to_map(pairs@)[pairs@[a].0@] == pairs@[a].1);
            assert(pairs_name_where(pairs@, i as int, filter, k));
        }
    }
    v
}

/// The names present in `map`, in increasing order.
pub fn sorted_names(map: &Roster<Option<u32>>) -> (out: Vec<String>)
    ensures
        lists_sorted(out@, map@.dom()),
{
    let v = collect_sorted(map, None);
    assert(names_where(map@, None) =~= map@.dom());
    v
}

/// The rooms that someone of `m` is in.
pub open spec fn rooms_of(m: Map<Seq<char>, Option<u32>>) -> Set<u32> {
    Set::new(|r: u32| exists|n: Seq<char>| m.contains_key(n) && m[n] == Some(r))
}

/// Appends to `rooms` each room of `map` that it lacks.
pub(crate) fn add_rooms(rooms: &mut Vec<u32>, map: &Roster<Option<u32>>)
    requires
        old(rooms)@.no_duplicates(),
    ensures
        final(rooms)@.no_duplicates(),
        final(rooms)@.to_set() == old(rooms)@.to_set() + rooms_of(map@),
{
    let pairs = map.pairs();
    proof { lemma_to_map(pairs@); }
    let mut i: usize = 0;
    while i < pairs.len()
        invariant
            i <= pairs@.len(),
            no_dup(pairs@),
            to_map(pairs@) == map@,
            rooms@.no_duplicates(),
            forall|r: u32| #[trigger]
                rooms@.contains(r) <==> (old(rooms)@.contains(r) || exists|a: int|
                    0 <= a < i && pairs@[a].1 == Some(r)),
        decreases pairs@.len() - i,
    {
        let ghost before = rooms@;
        match pairs[i].1 {
            Some(r) => {
                let mut present = false;
                let mut j: usize = 0;
                while j < rooms.len()
                    invariant
                        j <= rooms@.len(),
                        rooms@ == before,
                        present <==> exists|b: int| 0 <= b < j && rooms@[b] == r,
                    decreases rooms@.len() - j,
                {
                    if rooms[j] == r {
                        present = true;
                    }
                    j = j + 1;
                }
                if !present {
                    rooms.push(r);
                    proof {
                        assert(rooms@.no_duplicates()) by {
                            assert forall|a: int, b: int|
                                0 <= a < b < rooms@.len() implies rooms@[a] != rooms@[b] by {
                                if b == before.len() {
                                    assert(before[a] != r);
                                } else {
                                    assert(rooms@[a] == before[a] && rooms@[b] == before[b]);
                                }
                            }
                        }
                        assert forall|q: u32| rooms@.contains(q) <==> (before.contains(q) || q == r) by {
                            if rooms@.contains(q) {
                                let a = choose|a: int| 0 <= a < rooms@.len() && rooms@[a] == q;
                                if a < before.len() {
                                    assert(before[a] == q);
                                }
                            }
                            if before.contains(q) {
                                let a = choose|a: int| 0 <= a < before.len() && before[a] == q;
                                assert(rooms@[a] == q);
                            }
                            if q == r {
                                assert(rooms@[before.len() as int] == q);
                            }
                        }
                    }
                } else {
                    assert(before.contains(r));
                    assert forall|q: u32| rooms@.contains(q) <==> (before.contains(q)
                        || pairs@[i as int].1 == Some(q)) by {}
                }
            },
            None => {
                assert forall|q: u32| rooms@.contains(q) <==> (before.contains(q)
                    || pairs@[i as int].1 == Some(q)) by {}
            },
        }
        assert(forall|q: u32| rooms@.contains(q) <==> (before.contains(q)
            || pairs@[i as int].1 == Some(q)));
        proof {
            assert forall|r: u32| #[trigger]
                rooms@.contains(r) <==> (old(rooms)@.contains(r) || exists|a: int|
                    0 <= a < i + 1 && pairs@[a].1 == Some(r)) by {
                assert(before.contains(r) <==> (old(rooms)@.contains(r) || exists|a: int|
                    0 <= a < i && pairs@[a].1 == Some(r)));
                if pairs@[i as int].1 == Some(r) {
                    assert(exists|a: int| 0 <= a < i + 1 && pairs@[a].1 == Some(r));
                }
                if exists|a: int| 0 <= a < i + 1 && pairs@[a].1 == Some(r) {
                    let a = choose|a: int| 0 <= a < i + 1 && pairs@[a].1 == Some(r);
                    if a < i {
                        assert(exists|a: int| 0 <= a < i && pairs@[a].1 == Some(r));
                    }
                }
            }
        }
        i = i + 1;
    }
    proof {
        assert forall|r: u32| #[trigger]
            rooms@.to_set().contains(r) <==> (old(rooms)@.to_set() + rooms_of(map@)).contains(r) by {
            if exists|a: int| 0 <= a < i && pairs@[a].1 == Some(r) {
                let a = choose|a: int| 0 <= a < i && pairs@[a].1 == Some(r);
                assert(to_map(pairs@)[pairs@[a].0@] == pairs@[a].1);
                assert(map@.contains_key(pairs@[a].0@));
            }
            if rooms_of(map@).contains(r) {
                let n = choose|n: Seq<char>| map@.contains_key(n) && map@[n] == Some(r);
                let a = choose|a: int| 0 <= a < pairs@.len() && pairs@[a].0@ == n;
                assert(to_map(pairs@)[pairs@[a].0@] == pairs@[a].1);
            }
        }
        assert(rooms@.to_set() =~= old(rooms)@.to_set() + rooms_of(map@));
    }
}

/// `u32` keys obey the order laws that `BTreeMap`'s specification asks for.
pub open spec fn u32_ordered() -> bool {
    vstd::laws_cmp::obeys_cmp::<u32>()
}

/// Lemma: `u32` keys obey the order laws.
proof fn lemma_u32_ordered()
    ensures
        u32_ordered(),
{
    broadcast use vstd::laws_cmp::group_laws_cmp;

}

/// For each room someone is in: the employees and the guests in it, each
/// in increasing order.  A room holds an entry exactly when someone is in
/// it.
pub fn rooms_occupancy(employees: &Roster<Option<u32>>, guests: &Roster<Option<u32>>) -> (out: std::collections::BTreeMap<
    u32,
    (Vec<String>, Vec<String>),
>)
    ensures
        out@.dom() == rooms_of(employees@) + rooms_of(guests@),
        forall|r: u32|
            #![trigger out@[r]]
            out@.contains_key(r) ==> lists_sorted(out@[r].0@, names_where(employees@, Some(r)))
                && lists_sorted(out@[r].1@, names_where(guests@, Some(r))),
{
    proof { lemma_u32_ordered(); }
    let mut rooms: Vec<u32> = Vec::new();
    add_rooms(&mut rooms, employees);
    add_rooms(&mut rooms, guests);
    assert(Seq::<u32>::empty().to_set() =~= Set::<u32>::empty());
    let mut out: std::collections::BTreeMap<u32, (Vec<String>, Vec<String>)> =
        std::collections::BTreeMap::new();
    let mut i: usize = 0;
    while i < rooms.len()
        invariant
            i <= rooms@.len(),
            u32_ordered(),
            forall|r: u32| #[trigger]
                out@.contains_key(r) <==> exists|a: int| 0 <= a < i && rooms@[a] == r,
            forall|r: u32|
                #![trigger out@[r]]
                out@.contains_key(r) ==> lists_sorted(out@[r].0@, names_where(employees@, Some(r)))
                    && lists_sorted(out@[r].1@, names_where(guests@, Some(r))),
        decreases rooms@.len() - i,
    {
        let r = rooms[i];
        let es = collect_sorted(employees, Some(r));
        let gs = collect_sorted(guests, Some(r));
        out.insert(r, (es, gs));
        proof {
            assert forall|q: u32| #[trigger]
                out@.contains_key(q) <==> exists|a: int| 0 <= a < i + 1 && rooms@[a] == q by {
                if q == r {
                    assert(rooms@[i as int] == q);
                }
                if exists|a: int| 0 <= a < i + 1 && rooms@[a] == q {
                    let a = choose|a: int| 0 <= a < i + 1 && rooms@[a] == q;
                    if a < i {
                        assert(exists|a: int| 0 <= a < i && rooms@[a] == q);
                    }
                }
            }
        }
        i = i + 1;
    }
    proof {
        assert forall|r: u32| out@.dom().contains(r) <==> rooms@.to_set().contains(r) by {
            if rooms@.to_set().contains(r) {
                let a = choose|a: int| 0 <= a < rooms@.len() && rooms@[a] == r;
                assert(exists|b: int| 0 <= b < i && rooms@[b] == r);
            }
        }
        assert(out@.dom() =~= rooms_of(employees@) + rooms_of(guests@));
    }
    out
}

/// True when `e` concerns the person `pt`, `name`.
pub open spec fn concerns(e: EntryView, pt: PersonType, name: Seq<char>) -> bool {
    e.person_type == pt && e.name == name
}

/// The rooms that the person entered, in the order of the log, revisits
/// included.
pub open spec fn history_spec(es: Seq<EntryView>, pt: PersonType, name: Seq<char>) -> Seq<u32>
    decreases es.len(),
{
    if es.len() == 0 {
        Seq::empty()
    } else {
        let e = es.last();
        let before = history_spec(es.drop_last(), pt, name);
        if concerns(e, pt, name) && e.action == Action::Arrival && e.room is Some {
            before.push(e.room.unwrap())
        } else {
            before
        }
    }
}

/// Law: the room history of a person is, in the order of the log, the room
/// of each of that person's arrivals into a room, one element per such
/// arrival (revisits included, nothing else).
pub proof fn lemma_history_is_arrivals(es: Seq<EntryView>, pt: PersonType, name: Seq<char>)
    ensures
        history_spec(es, pt, name) == es.filter(
            |e: EntryView| e.person_type == pt && e.name == name && e.action == Action::Arrival && e.room is Some,
        ).map_values(|e: EntryView| e.room.unwrap()),
    decreases es.len(),
{
    let p = |e: EntryView| e.person_type == pt && e.name == name && e.action == Action::Arrival && e.room is Some;
    let f = |e: EntryView| e.room.unwrap();
    if es.len() == 0 {
        assert(es.filter(p).map_values(f) =~= Seq::<u32>::empty());
    } else {
        lemma_history_is_arrivals(es.drop_last(), pt, name);
        let sub = es.drop_last().filter(p);
        assert(es.filter(p) == (if p(es.last()) { sub.push(es.last()) } else { sub })) by {
            reveal_with_fuel(Seq::filter, 2);
        }
        if p(es.last()) {
            assert(sub.push(es.last()).map_values(f) =~= sub.map_values(f).push(es.last().room.unwrap()));
        }
    }
}

/// True when `entry` concerns the person `pt`, `name`.
fn entry_concerns(entry: &LogEntry, pt: &PersonType, name: &str) -> (out: bool)
    ensures
        out == concerns(entry@, *pt, name@),
{
    entry.person_type == *pt && str_eq(entry.name.as_str(), name)
}

/// Whether some entry of the log concerns the person `pt`, `name`.
fn appears(entries: &[LogEntry], pt: &PersonType, name: &str) -> (out: bool)
    ensures
        out == exists|i: int| 0 <= i < entries@.len() && concerns(#[trigger] entries@[i]@, *pt, name@),
{
    let mut seen = false;
    let mut i: usize = 0;
    while i < entries.len()
        invariant
            i <= entries@.len(),
            seen <==> exists|k: int| 0 <= k < i && concerns(#[trigger] entries@[k]@, *pt, name@),
        decreases entries@.len() - i,
    {
        if entry_concerns(&entries[i], pt, name) {
            seen = true;
        }
        i = i + 1;
    }
    seen
}

/// The rooms the person entered, in order (revisits included); `None` when
/// no entry of the log concerns the person.
pub fn room_history(entries: &[LogEntry], pt: &PersonType, name: &str) -> (out: Option<Vec<u32>>)
    ensures
        match out {
            Some(v) => (exists|i: int|
                0 <= i < entries@.len() && concerns(#[trigger] entries@[i]@, *pt, name@))
                && v@ == history_spec(entry_views(entries@), *pt, name@)
                && v@ == entry_views(entries@).filter(
                |e: EntryView| e.person_type == *pt && e.name == name@ && e.action == Action::Arrival && e.room is Some,
            ).map_values(|e: EntryView| e.room.unwrap()),
            None => forall|i: int|
                0 <= i < entries@.len() ==> !concerns(#[trigger] entries@[i]@, *pt, name@),
        },
{
    proof { lemma_history_is_arrivals(entry_views(entries@), *pt, name@); }
    if !appears(entries, pt, name) {
        return None;
    }
    let mut rooms: Vec<u32> = Vec::new();
    let mut i: usize = 0;
    while i < entries.len()
        invariant
            i <= entries@.len(),
            rooms@ == history_spec(entry_views(entries@.subrange(0, i as int)), *pt, name@),
        decreases entries@.len() - i,
    {
        let ghost pre = entry_views(entries@.subrange(0, i as int));
        let ghost next = entry_views(entries@.subrange(0, i + 1));
        assert(next.drop_last() =~= pre);
        assert(next.last() == entries@[i as int]@);
        if entry_concerns(&entries[i], pt, name) {
            if entries[i].action == Action::Arrival {
                match entries[i].room {
                    Some(r) => rooms.push(r),
                    None => {},
                }
            }
        }
        i = i + 1;
    }
    assert(entries@.subrange(0, i as int) =~= entries@);
    Some(rooms)
}

/// The room-visit bookkeeping of one person: the room entered and not yet
/// left (with when), and the visits closed so far as (room, enter, leave).
pub open spec fn visit_step(
    st: (Option<(u32, u64)>, Seq<(u32, u64, u64)>),
    e: EntryView,
    pt: PersonType,
    name: Seq<char>,
) -> (Option<(u32, u64)>, Seq<(u32, u64, u64)>) {
    if !concerns(e, pt, name) {
        st
    } else {
        match (e.action, e.room) {
            (Action::Arrival, Some(r)) => (Some((r, e.timestamp)), st.1),
            (Action::Departure, Some(_)) => match st.0 {
                Some((r, s)) => (None, st.1.push((r, s, e.timestamp))),
                None => st,
            },
            _ => st,
        }
    }
}

/// The bookkeeping after the whole log: an arrival in a room opens a visit
/// (replacing one still open), a departure from a room closes the open
/// visit in the room it was opened in.
pub open spec fn visit_scan(es: Seq<EntryView>, pt: PersonType, name: Seq<char>) -> (
    Option<(u32, u64)>,
    Seq<(u32, u64, u64)>,
)
    decreases es.len(),
{
    if es.len() == 0 {
        (None, Seq::empty())
    } else {
        visit_step(visit_scan(es.drop_last(), pt, name), es.last(), pt, name)
    }
}

/// The person's visits to rooms as (room, enter, leave); a visit still open
/// at the end of the log lasts until `u64::MAX`.
pub open spec fn intervals_spec(es: Seq<EntryView>, pt: PersonType, name: Seq<char>) -> Seq<
    (u32, u64, u64),
> {
    let (cur, ivs) = visit_scan(es, pt, name);
    match cur {
        Some((r, s)) => ivs.push((r, s, u64::MAX)),
        None => ivs,
    }
}

/// The person's visits to rooms (see [`intervals_spec`]).
fn person_intervals(entries: &[LogEntry], pt: &PersonType, name: &str) -> (out: Vec<(u32, u64, u64)>)
    ensures
        out@ == intervals_spec(entry_views(entries@), *pt, name@),
{
    let mut cur: Option<(u32, u64)> = None;
    let mut ivs: Vec<(u32, u64, u64)> = Vec::new();
    let mut i: usize = 0;
    while i < entries.len()
        invariant
            i <= entries@.len(),
            (cur, ivs@) == visit_scan(entry_views(entries@.subrange(0, i as int)), *pt, name@),
        decreases entries@.len() - i,
    {
        let ghost pre = entry_views(entries@.subrange(0, i as int));
        let ghost next = entry_views(entries@.subrange(0, i + 1));
        assert(next.drop_last() =~= pre);
        assert(next.last() == entries@[i as int]@);
        if entry_concerns(&entries[i], pt, name) {
            match (&entries[i].action, entries[i].room) {
                (Action::Arrival, Some(r)) => {
                    cur = Some((r, entries[i].timestamp));
                },
                (Action::Departure, Some(_)) => {
                    match cur {
                        Some((r, s)) => {
                            ivs.push((r, s, entries[i].timestamp));
                            cur = None;
                        },
                        None => {},
                    }
                },
                _ => {},
            }
        }
        i = i + 1;
    }
    assert(entries@.subrange(0, i as int) =~= entries@);
    match cur {
        Some((r, s)) => ivs.push((r, s, u64::MAX)),
        None => {},
    }
    ivs
}

/// True when some window of `w` contains the instant `t`.
pub open spec fn covers(w: Seq<(u64, u64)>, t: int) -> bool {
    exists|k: int| 0 <= k < w.len() && (#[trigger] w[k]).0 <= t < w[k].1
}

/// True when every list of windows from `idx` on has one containing `t`.
pub open spec fn all_cover(pt: Seq<Seq<(u64, u64)>>, idx: int, t: int) -> bool {
    forall|j: int| idx <= j < pt.len() ==> #[trigger] covers(pt[j], t)
}

/// True when some instant in `[ws, we)` is covered by every list of windows
/// from `idx` on.
pub open spec fn overlap_spec(pt: Seq<Seq<(u64, u64)>>, idx: int, ws: int, we: int) -> bool {
    exists|t: int| ws <= t < we && #[trigger] all_cover(pt, idx, t)
}

/// Whether one window from each list (from `idx` on) can be chosen so that
/// all of them and `[ws, we)` share an instant.
fn overlaps(per_target: &Vec<Vec<(u64, u64)>>, idx: usize, win_start: u64, win_end: u64) -> (out: bool)
    requires
        idx <= per_target@.len(),
    ensures
        out == overlap_spec(per_target@.map_values(|v: Vec<(u64, u64)>| v@), idx as int, win_start as int, win_end as int),
    decreases per_target@.len() - idx,
{
    let ghost pt = per_target@.map_values(|v: Vec<(u64, u64)>| v@);
    if win_start >= win_end {
        return false;
    }
    if idx == per_target.len() {
        assert(all_cover(pt, idx as int, win_start as int));
        return true;
    }
    let list = &per_target[idx];
    assert(list@ == pt[idx as int]);
    let mut found = false;
    let mut k: usize = 0;
    while k < list.len() && !found
        invariant
            k <= list@.len(),
            idx < per_target.len(),
            list@ == pt[idx as int],
            pt == per_target@.map_values(|v: Vec<(u64, u64)>| v@),
            win_start < win_end,
            found ==> overlap_spec(pt, idx as int, win_start as int, win_end as int),
            !found ==> forall|t: int|
                win_start <= t < win_end && #[trigger] all_cover(pt, idx as int + 1, t) ==> !exists|m: int|
                    0 <= m < k && (#[trigger] list@[m]).0 <= t < list@[m].1,
        decreases list@.len() - k, (if found { 0int } else { 1int }),
    {
        let (s, e) = list[k];
        let new_start = if win_start > s { win_start } else { s };
        let new_end = if win_end < e { win_end } else { e };
        let r = overlaps(per_target, idx + 1, new_start, new_end);
        if r {
            proof {
                let t = choose|t: int| new_start <= t < new_end && #[trigger] all_cover(pt, idx + 1, t);
                assert(covers(pt[idx as int], t)) by {
                    assert(list@[k as int].0 <= t < list@[k as int].1);
                }
                assert(all_cover(pt, idx as int, t));
            }
            found = true;
        } else {
            proof {
                assert forall|t: int|
                    win_start <= t < win_end && #[trigger] all_cover(pt, idx as int + 1, t) implies !exists|m: int|
                        0 <= m < k + 1 && (#[trigger] list@[m]).0 <= t < list@[m].1 by {
                    if list@[k as int].0 <= t < list@[k as int].1 {
                        assert(new_start <= t < new_end);
                    }
                }
            }
            k = k + 1;
        }
    }
    proof {
        if !found {
            if overlap_spec(pt, idx as int, win_start as int, win_end as int) {
                let t = choose|t: int| win_start <= t < win_end && #[trigger] all_cover(pt, idx as int, t);
                assert(covers(pt[idx as int], t));
                assert(all_cover(pt, idx as int + 1, t));
            }
        }
    }
    found
}

/// The persons asked about, each with the name as characters.
pub open spec fn targets_view(t: Seq<(PersonType, String)>) -> Seq<(PersonType, Seq<char>)> {
    t.map_values(|x: (PersonType, String)| (x.0, x.1@))
}

/// The visits of target `j` (see [`intervals_spec`]).
pub open spec fn target_intervals(es: Seq<EntryView>, targets: Seq<(PersonType, Seq<char>)>, j: int) -> Seq<
    (u32, u64, u64),
> {
    intervals_spec(es, targets[j].0, targets[j].1)
}

/// True when target `j` appears in the log; targets that do not are left
/// out of the question.
pub open spec fn known(es: Seq<EntryView>, targets: Seq<(PersonType, Seq<char>)>, j: int) -> bool {
    exists|i: int| 0 <= i < es.len() && concerns(#[trigger] es[i], targets[j].0, targets[j].1)
}

/// True when one of the visits is to `room` and spans the instant `t`
/// (from its enter time, up to but not including its leave time).
pub open spec fn in_room_at(ivs: Seq<(u32, u64, u64)>, room: u32, t: int) -> bool {
    exists|k: int| 0 <= k < ivs.len() && (#[trigger] ivs[k]).0 == room && ivs[k].1 <= t < ivs[k].2
}

/// True when every known target was in `room` at the instant `t`.
pub open spec fn together_at(
    es: Seq<EntryView>,
    targets: Seq<(PersonType, Seq<char>)>,
    room: u32,
    t: int,
) -> bool {
    forall|j: int|
        0 <= j < targets.len() && #[trigger] known(es, targets, j) ==> in_room_at(
            target_intervals(es, targets, j),
            room,
            t,
        )
}

/// True when at least one target is known and at some instant all the known
/// targets were in `room` at once.
pub open spec fn shared_room(es: Seq<EntryView>, targets: Seq<(PersonType, Seq<char>)>, room: u32) -> bool {
    &&& exists|j: int| 0 <= j < targets.len() && #[trigger] known(es, targets, j)
    &&& exists|t: int| #[trigger] together_at(es, targets, room, t)
}

/// Lemma: when every target of `t1` is among those of `t2` and back,
/// a room shared under `t1` is shared under `t2`.
proof fn lemma_shared_room_subset(
    es: Seq<EntryView>,
    t1: Seq<(PersonType, Seq<char>)>,
    t2: Seq<(PersonType, Seq<char>)>,
    room: u32,
)
    requires
        forall|x: (PersonType, Seq<char>)| t1.contains(x) <==> t2.contains(x),
        shared_room(es, t1, room),
    ensures
        shared_room(es, t2, room),
{
    let b1 = choose|b: int| 0 <= b < t1.len() && #[trigger] known(es, t1, b);
    assert(t1.contains(t1[b1]));
    let k = choose|k: int| 0 <= k < t2.len() && t2[k] == t1[b1];
    let i = choose|i: int| 0 <= i < es.len() && concerns(#[trigger] es[i], t1[b1].0, t1[b1].1);
    assert(concerns(es[i], t2[k].0, t2[k].1));
    assert(known(es, t2, k));
    let t = choose|t: int| #[trigger] together_at(es, t1, room, t);
    assert forall|j: int| 0 <= j < t2.len() && #[trigger] known(es, t2, j) implies in_room_at(
        target_intervals(es, t2, j),
        room,
        t,
    ) by {
        assert(t2.contains(t2[j]));
        let m = choose|m: int| 0 <= m < t1.len() && t1[m] == t2[j];
        let i2 = choose|i2: int| 0 <= i2 < es.len() && concerns(#[trigger] es[i2], t2[j].0, t2[j].1);
        assert(concerns(es[i2], t1[m].0, t1[m].1));
        assert(known(es, t1, m));
    }
    assert(together_at(es, t2, room, t));
}

/// Law: the rooms shared by a list of targets depend only on which
/// persons the list holds, not on their order or on repetitions.
pub proof fn lemma_shared_room_same_targets(
    es: Seq<EntryView>,
    t1: Seq<(PersonType, Seq<char>)>,
    t2: Seq<(PersonType, Seq<char>)>,
    room: u32,
)
    requires
        forall|x: (PersonType, Seq<char>)| t1.contains(x) <==> t2.contains(x),
    ensures
        shared_room(es, t1, room) == shared_room(es, t2, room),
{
    if shared_room(es, t1, room) {
        lemma_shared_room_subset(es, t1, t2, room);
    }
    if shared_room(es, t2, room) {
        lemma_shared_room_subset(es, t2, t1, room);
    }
}

/// What one person's visit bookkeeping says of a replayed state: an open
/// visit is to the room the person is in (opened no later than the last
/// timestamp), with no open visit the person is in no room; every closed
/// visit ends after it starts; and the rooms the person entered are those
/// of the closed visits and of the open one.
pub open spec fn visits_agree(
    st: GalleryView,
    v: (Option<(u32, u64)>, Seq<(u32, u64, u64)>),
    hist: Seq<u32>,
    pt: PersonType,
    name: Seq<char>,
) -> bool {
    let m = roster_of(st, pt);
    &&& match v.0 {
        Some((r, s)) => m.contains_key(name) && m[name] == Some(r) && st.has_entries && s
            <= st.last_timestamp,
        None => !(m.contains_key(name) && m[name] is Some),
    }
    &&& forall|k: int| 0 <= k < v.1.len() ==> (#[trigger] v.1[k]).1 < v.1[k].2
    &&& forall|r: u32| #[trigger]
        hist.contains(r) <==> ((exists|k: int| 0 <= k < v.1.len() && (#[trigger] v.1[k]).0 == r) || (
        v.0 is Some && v.0.unwrap().0 == r))
}

/// Lemma: along a log that replays, the visit bookkeeping of any person
/// agrees with the state (see [`visits_agree`]).
proof fn lemma_visits_agree(es: Seq<EntryView>, pt: PersonType, name: Seq<char>)
    requires
        state_of(es) is Some,
    ensures
        visits_agree(state_of(es).unwrap(), visit_scan(es, pt, name), history_spec(es, pt, name), pt, name),
    decreases es.len(),
{
    if es.len() == 0 {
        let h = history_spec(es, pt, name);
        assert forall|r: u32| !h.contains(r) by {}
    } else {
        let pre = es.drop_last();
        let e = es.last();
        lemma_visits_agree(pre, pt, name);
        let st0 = state_of(pre).unwrap();
        let st = state_of(es).unwrap();
        let v0 = visit_scan(pre, pt, name);
        let v = visit_scan(es, pt, name);
        let h0 = history_spec(pre, pt, name);
        let h = history_spec(es, pt, name);
        let m0 = roster_of(st0, pt);
        let m = roster_of(st, pt);
        assert(st == apply_spec(st0, e).unwrap());
        if !concerns(e, pt, name) {
            assert(v == v0);
            assert(h == h0);
            if e.person_type == pt {
                assert(e.name != name);
                assert(m.contains_key(name) == m0.contains_key(name));
                if m0.contains_key(name) {
                    assert(m[name] == m0[name]);
                }
            } else {
                assert(m == m0);
            }
        } else {
            match (e.action, e.room) {
                (Action::Arrival, Some(r)) => {
                    assert(v.1 == v0.1);
                    assert(h == h0.push(r));
                    assert forall|q: u32| #[trigger] h.contains(q) <==> ((exists|k: int|
                        0 <= k < v.1.len() && (#[trigger] v.1[k]).0 == q) || (v.0 is Some && v.0.unwrap().0 == q)) by {
                        if h.contains(q) && q != r {
                            let i = choose|i: int| 0 <= i < h.len() && h[i] == q;
                            assert(h0[i] == q);
                            assert(h0.contains(q));
                        }
                        if (exists|k: int| 0 <= k < v.1.len() && (#[trigger] v.1[k]).0 == q) {
                            assert(h0.contains(q));
                            let i = choose|i: int| 0 <= i < h0.len() && h0[i] == q;
                            assert(h[i] == q);
                        }
                        if q == r {
                            assert(h[h.len() - 1] == q);
                        }
                    }
                },
                (Action::Departure, Some(r)) => {
                    assert(h == h0);
                    assert(v0.0 is Some);
                    assert(v.1 == v0.1.push((r, v0.0.unwrap().1, e.timestamp)));
                    assert forall|q: u32| #[trigger] h.contains(q) <==> ((exists|k: int|
                        0 <= k < v.1.len() && (#[trigger] v.1[k]).0 == q) || (v.0 is Some && v.0.unwrap().0 == q)) by {
                        if h.contains(q) {
                            if exists|k: int| 0 <= k < v0.1.len() && (#[trigger] v0.1[k]).0 == q {
                                let k = choose|k: int| 0 <= k < v0.1.len() && (#[trigger] v0.1[k]).0 == q;
                                assert(v.1[k] == v0.1[k]);
                            } else {
                                assert(v.1[v0.1.len() as int].0 == q);
                            }
                        }
                        if exists|k: int| 0 <= k < v.1.len() && (#[trigger] v.1[k]).0 == q {
                            let k = choose|k: int| 0 <= k < v.1.len() && (#[trigger] v.1[k]).0 == q;
                            if k < v0.1.len() {
                                assert(v0.1[k].0 == q);
                            }
                        }
                    }
                    assert forall|k: int| 0 <= k < v.1.len() implies (#[trigger] v.1[k]).1 < v.1[k].2 by {
                        if k < v0.1.len() {
                            assert(v.1[k] == v0.1[k]);
                        }
                    }
                },
                _ => {
                    assert(v == v0);
                    assert(h == h0);
                },
            }
        }
    }
}

/// Law: asked about one person who appears in a log that replays (all its
/// timestamps below `u64::MAX`), the intersection is the set of rooms the
/// person entered; asked about one person not in the log, it is empty.
pub proof fn lemma_single_target(es: Seq<EntryView>, pt: PersonType, name: Seq<char>, r: u32)
    requires
        state_of(es) is Some,
        forall|i: int| 0 <= i < es.len() ==> (#[trigger] es[i]).timestamp < u64::MAX,
    ensures
        shared_room(es, seq![(pt, name)], r) <==> ((exists|i: int|
            0 <= i < es.len() && concerns(#[trigger] es[i], pt, name)) && history_spec(es, pt, name).contains(r)),
{
    let t1 = seq![(pt, name)];
    lemma_visits_agree(es, pt, name);
    lemma_timestamps_increase(es);
    let (cur, closed) = visit_scan(es, pt, name);
    let ivs = intervals_spec(es, pt, name);
    let h = history_spec(es, pt, name);
    assert(target_intervals(es, t1, 0) == ivs);
    if shared_room(es, t1, r) {
        let j = choose|j: int| 0 <= j < t1.len() && #[trigger] known(es, t1, j);
        assert(j == 0);
        let i = choose|i: int| 0 <= i < es.len() && concerns(#[trigger] es[i], t1[0].0, t1[0].1);
        assert(concerns(es[i], pt, name));
        let t = choose|t: int| #[trigger] together_at(es, t1, r, t);
        assert(in_room_at(ivs, r, t));
        let k = choose|k: int| 0 <= k < ivs.len() && (#[trigger] ivs[k]).0 == r && ivs[k].1 <= t < ivs[k].2;
        if k < closed.len() {
            assert(ivs[k] == closed[k]);
        } else {
            assert(cur is Some);
        }
        assert(h.contains(r));
    }
    if (exists|i: int| 0 <= i < es.len() && concerns(#[trigger] es[i], pt, name)) && h.contains(r) {
        let i = choose|i: int| 0 <= i < es.len() && concerns(#[trigger] es[i], pt, name);
        assert(concerns(es[i], t1[0].0, t1[0].1));
        assert(known(es, t1, 0));
        let t: int;
        if exists|k: int| 0 <= k < closed.len() && (#[trigger] closed[k]).0 == r {
            let k = choose|k: int| 0 <= k < closed.len() && (#[trigger] closed[k]).0 == r;
            assert(ivs[k] == closed[k]);
            t = closed[k].1 as int;
            assert(in_room_at(ivs, r, t));
        } else {
            let s = cur.unwrap().1;
            assert(es.len() > 0);
            assert(es[es.len() - 1].timestamp < u64::MAX);
            assert(ivs[closed.len() as int] == (r, s, u64::MAX));
            t = s as int;
            assert(in_room_at(ivs, r, t));
        }
        assert(together_at(es, t1, r, t));
    }
}

/// True when `e` is an event of the person `pt`, `name` concerning a room.
pub open spec fn room_event(e: EntryView, pt: PersonType, name: Seq<char>) -> bool {
    e.person_type == pt && e.name == name && e.room is Some
}

/// True when entry `i` of `es` is the person's arrival into room `r` at
/// time `s`.
pub open spec fn arrival_at(es: Seq<EntryView>, pt: PersonType, name: Seq<char>, i: int, r: u32, s: u64) -> bool {
    &&& 0 <= i < es.len()
    &&& room_event(es[i], pt, name)
    &&& es[i].action == Action::Arrival
    &&& es[i].room == Some(r)
    &&& es[i].timestamp == s
}

/// True when no entry strictly between `i` and `j` concerns the person and
/// a room.
pub open spec fn quiet_between(es: Seq<EntryView>, pt: PersonType, name: Seq<char>, i: int, j: int) -> bool {
    forall|m: int| i < m < j ==> !room_event(#[trigger] es[m], pt, name)
}

/// True when entry `j` is the person's next room event after `i`, a
/// departure from a room at time `t`.
pub open spec fn closed_by(es: Seq<EntryView>, pt: PersonType, name: Seq<char>, i: int, j: int, t: u64) -> bool {
    &&& 0 <= i < j < es.len()
    &&& room_event(es[j], pt, name)
    &&& es[j].action == Action::Departure
    &&& es[j].timestamp == t
    &&& quiet_between(es, pt, name, i, j)
}

/// True when the visit `iv` (room, enter, leave) comes from the log: it
/// starts at an arrival of the person into that room, at that arrival's
/// time, and lasts until the person's next room event, a departure, at its
/// time — or, when there is none, until `u64::MAX`.
pub open spec fn visit_from(es: Seq<EntryView>, pt: PersonType, name: Seq<char>, iv: (u32, u64, u64)) -> bool {
    exists|i: int|
        #[trigger] arrival_at(es, pt, name, i, iv.0, iv.1) && ((exists|j: int|
            #[trigger] closed_by(es, pt, name, i, j, iv.2)) || (iv.2 == u64::MAX && quiet_between(
            es,
            pt,
            name,
            i,
            es.len() as int,
        )))
}

/// True when the closed visit `iv` starts at an arrival of the person into
/// its room, at its time, and ends at the departure that is the person's
/// next room event, at its time.
pub open spec fn closed_visit_from(es: Seq<EntryView>, pt: PersonType, name: Seq<char>, iv: (u32, u64, u64)) -> bool {
    exists|i: int, j: int|
        #[trigger] arrival_at(es, pt, name, i, iv.0, iv.1) && #[trigger] closed_by(es, pt, name, i, j, iv.2)
}

/// True when every closed visit of `c` comes from the log (see
/// [`closed_visit_from`]).
pub open spec fn closed_from(es: Seq<EntryView>, pt: PersonType, name: Seq<char>, c: Seq<(u32, u64, u64)>) -> bool {
    forall|k: int| 0 <= k < c.len() ==> #[trigger] closed_visit_from(es, pt, name, c[k])
}

/// True when the open visit, if any, starts at an arrival of the person
/// into its room, at its time, after which the person made no room event.
pub open spec fn open_from(es: Seq<EntryView>, pt: PersonType, name: Seq<char>, cur: Option<(u32, u64)>) -> bool {
    cur is Some ==> exists|i: int|
        #[trigger] arrival_at(es, pt, name, i, cur.unwrap().0, cur.unwrap().1) && quiet_between(
            es,
            pt,
            name,
            i,
            es.len() as int,
        )
}

/// Lemma: the visit bookkeeping comes from the log (see [`open_from`] and
/// [`closed_from`]).
proof fn lemma_scan_from_entries(es: Seq<EntryView>, pt: PersonType, name: Seq<char>)
    ensures
        open_from(es, pt, name, visit_scan(es, pt, name).0),
        closed_from(es, pt, name, visit_scan(es, pt, name).1),
    decreases es.len(),
{
    if es.len() > 0 {
        let pre = es.drop_last();
        let e = es.last();
        let n = pre.len() as int;
        lemma_scan_from_entries(pre, pt, name);
        let v0 = visit_scan(pre, pt, name);
        let v = visit_scan(es, pt, name);
        assert forall|i: int, r: u32, s: u64| #[trigger] arrival_at(pre, pt, name, i, r, s) implies arrival_at(
            es,
            pt,
            name,
            i,
            r,
            s,
        ) by {
            assert(es[i] == pre[i]);
        }
        assert forall|i: int, j: int, t: u64| #[trigger] closed_by(pre, pt, name, i, j, t) implies closed_by(
            es,
            pt,
            name,
            i,
            j,
            t,
        ) by {
            assert(es[j] == pre[j]);
            assert forall|m: int| i < m < j implies !room_event(#[trigger] es[m], pt, name) by {
                assert(es[m] == pre[m]);
            }
        }
        assert forall|iv: (u32, u64, u64)| #[trigger] closed_visit_from(pre, pt, name, iv) implies closed_visit_from(
            es,
            pt,
            name,
            iv,
        ) by {
            let (i, j) = choose|i: int, j: int|
                #[trigger] arrival_at(pre, pt, name, i, iv.0, iv.1) && #[trigger] closed_by(pre, pt, name, i, j, iv.2);
            assert(arrival_at(es, pt, name, i, iv.0, iv.1));
            assert(closed_by(es, pt, name, i, j, iv.2));
        }
        assert forall|k: int| 0 <= k < v0.1.len() implies #[trigger] closed_visit_from(es, pt, name, v0.1[k]) by {
            assert(closed_visit_from(pre, pt, name, v0.1[k]));
        }
        assert(closed_from(es, pt, name, v0.1));
        if !room_event(e, pt, name) {
            assert(v == v0);
            if v0.0 is Some {
                let (r, s) = v0.0.unwrap();
                let i = choose|i: int|
                    #[trigger] arrival_at(pre, pt, name, i, r, s) && quiet_between(pre, pt, name, i, n);
                assert(arrival_at(es, pt, name, i, r, s));
                assert forall|m: int| i < m < es.len() implies !room_event(#[trigger] es[m], pt, name) by {
                    if m < n {
                        assert(es[m] == pre[m]);
                    }
                }
                assert(quiet_between(es, pt, name, i, es.len() as int));
                assert(v.0 == Some((r, s)));
            }
            assert(open_from(es, pt, name, v.0));
        } else if e.action == Action::Arrival {
            let r = e.room.unwrap();
            assert(v == (Some((r, e.timestamp)), v0.1));
            let c: Option<(u32, u64)> = Some((r, e.timestamp));
            assert(c.unwrap().0 == r && c.unwrap().1 == e.timestamp);
            assert(arrival_at(es, pt, name, n, c.unwrap().0, c.unwrap().1));
            assert(quiet_between(es, pt, name, n, es.len() as int));
            assert(open_from(es, pt, name, c));
        } else if v0.0 is Some {
            let (r, s) = v0.0.unwrap();
            assert(v == (None::<(u32, u64)>, v0.1.push((r, s, e.timestamp))));
            let i = choose|i: int|
                #[trigger] arrival_at(pre, pt, name, i, r, s) && quiet_between(pre, pt, name, i, n);
            assert(arrival_at(es, pt, name, i, r, s));
            assert forall|m: int| i < m < n implies !room_event(#[trigger] es[m], pt, name) by {
                assert(es[m] == pre[m]);
            }
            assert(closed_by(es, pt, name, i, n, e.timestamp));
            assert forall|k: int| 0 <= k < v.1.len() implies #[trigger] closed_visit_from(es, pt, name, v.1[k]) by {
                if k < v0.1.len() {
                    assert(v.1[k] == v0.1[k]);
                    assert(closed_visit_from(es, pt, name, v0.1[k]));
                } else {
                    assert(v.1[k] == (r, s, e.timestamp));
                    assert(arrival_at(es, pt, name, i, v.1[k].0, v.1[k].1));
                    assert(closed_by(es, pt, name, i, n, v.1[k].2));
                }
            }
        } else {
            assert(v == v0);
        }
    }
}

/// Law: every visit of a person to a room comes from the log: it starts at
/// one of the person's arrivals into that room, at that arrival's
/// timestamp, and ends at the timestamp of the person's next room event,
/// which is a departure — or, when the person made no room event since, at
/// `u64::MAX`.  So a room is shared by several persons only at instants when
/// each of them had arrived in it and not yet left.
pub proof fn lemma_visits_from_entries(es: Seq<EntryView>, pt: PersonType, name: Seq<char>)
    ensures
        forall|k: int|
            0 <= k < intervals_spec(es, pt, name).len() ==> visit_from(
                es,
                pt,
                name,
                #[trigger] intervals_spec(es, pt, name)[k],
            ),
{
    lemma_scan_from_entries(es, pt, name);
    let (cur, closed) = visit_scan(es, pt, name);
    let ivs = intervals_spec(es, pt, name);
    assert forall|k: int| 0 <= k < ivs.len() implies visit_from(es, pt, name, #[trigger] ivs[k]) by {
        if k < closed.len() {
            assert(ivs[k] == closed[k]);
            assert(closed_visit_from(es, pt, name, closed[k]));
            let (i, j) = choose|i: int, j: int|
                #[trigger] arrival_at(es, pt, name, i, closed[k].0, closed[k].1) && #[trigger] closed_by(
                    es,
                    pt,
                    name,
                    i,
                    j,
                    closed[k].2,
                );
            assert(arrival_at(es, pt, name, i, ivs[k].0, ivs[k].1));
            assert(closed_by(es, pt, name, i, j, ivs[k].2));
        } else {
            let (r, s) = cur.unwrap();
            assert(ivs[k] == (r, s, u64::MAX));
            let i = choose|i: int|
                #[trigger] arrival_at(es, pt, name, i, r, s) && quiet_between(es, pt, name, i, es.len() as int);
            assert(arrival_at(es, pt, name, i, ivs[k].0, ivs[k].1));
        }
    }
}

/// True when every arrival of the person into a room that the person's
/// next room event closes, a departure, has its visit among `c`.
pub open spec fn closed_complete(es: Seq<EntryView>, pt: PersonType, name: Seq<char>, c: Seq<(u32, u64, u64)>) -> bool {
    forall|i: int, r: u32, s: u64, j: int, t: u64|
        #[trigger] arrival_at(es, pt, name, i, r, s) && #[trigger] closed_by(es, pt, name, i, j, t)
            ==> c.contains((r, s, t))
}

/// True when an arrival of the person into a room followed by no room
/// event of the person is the open visit `cur`.
pub open spec fn open_complete(es: Seq<EntryView>, pt: PersonType, name: Seq<char>, cur: Option<(u32, u64)>) -> bool {
    forall|i: int, r: u32, s: u64|
        #[trigger] arrival_at(es, pt, name, i, r, s) && quiet_between(es, pt, name, i, es.len() as int)
            ==> cur == Some((r, s))
}

/// Lemma: the visit bookkeeping misses no visit of the log (see
/// [`closed_complete`] and [`open_complete`]).
proof fn lemma_scan_complete(es: Seq<EntryView>, pt: PersonType, name: Seq<char>)
    ensures
        closed_complete(es, pt, name, visit_scan(es, pt, name).1),
        open_complete(es, pt, name, visit_scan(es, pt, name).0),
    decreases es.len(),
{
    if es.len() > 0 {
        let pre = es.drop_last();
        let e = es.last();
        let n = pre.len() as int;
        lemma_scan_complete(pre, pt, name);
        let v0 = visit_scan(pre, pt, name);
        let v = visit_scan(es, pt, name);
        assert(v.1 == v0.1 || (v0.0 is Some && v.1 == v0.1.push((v0.0.unwrap().0, v0.0.unwrap().1, e.timestamp))));
        assert forall|i: int, r: u32, s: u64|
            #[trigger] arrival_at(es, pt, name, i, r, s) && quiet_between(es, pt, name, i, es.len() as int)
            implies v.0 == Some((r, s)) by {
            if i < n {
                assert(es[i] == pre[i]);
                assert(arrival_at(pre, pt, name, i, r, s));
                assert(!room_event(es[n], pt, name));
                assert forall|m: int| i < m < n implies !room_event(#[trigger] pre[m], pt, name) by {
                    assert(es[m] == pre[m]);
                }
                assert(quiet_between(pre, pt, name, i, n));
                assert(v == v0);
            }
        }
        assert forall|i: int, r: u32, s: u64, j: int, t: u64|
            #[trigger] arrival_at(es, pt, name, i, r, s) && #[trigger] closed_by(es, pt, name, i, j, t)
            implies v.1.contains((r, s, t)) by {
            assert(es[i] == pre[i]);
            assert(arrival_at(pre, pt, name, i, r, s));
            if j < n {
                assert(es[j] == pre[j]);
                assert forall|m: int| i < m < j implies !room_event(#[trigger] pre[m], pt, name) by {
                    assert(es[m] == pre[m]);
                }
                assert(closed_by(pre, pt, name, i, j, t));
                assert(v0.1.contains((r, s, t)));
                let k = choose|k: int| 0 <= k < v0.1.len() && v0.1[k] == (r, s, t);
                assert(v.1[k] == (r, s, t));
            } else {
                assert forall|m: int| i < m < n implies !room_event(#[trigger] pre[m], pt, name) by {
                    assert(es[m] == pre[m]);
                }
                assert(quiet_between(pre, pt, name, i, n));
                assert(v0.0 == Some((r, s)));
                assert(v.1 == v0.1.push((r, s, t)));
                assert(v.1[v0.1.len() as int] == (r, s, t));
            }
        }
    }
}

/// Law: no visit of the log is lost: every arrival of a person into a room
/// that the person's next room event closes (a departure) is a visit from
/// the arrival's time to the departure's, and an arrival followed by no
/// room event of the person is a visit from its time to `u64::MAX`.
pub proof fn lemma_visits_complete(es: Seq<EntryView>, pt: PersonType, name: Seq<char>)
    ensures
        forall|i: int, r: u32, s: u64, j: int, t: u64|
            #[trigger] arrival_at(es, pt, name, i, r, s) && #[trigger] closed_by(es, pt, name, i, j, t)
                ==> intervals_spec(es, pt, name).contains((r, s, t)),
        forall|i: int, r: u32, s: u64|
            #[trigger] arrival_at(es, pt, name, i, r, s) && quiet_between(es, pt, name, i, es.len() as int)
                ==> intervals_spec(es, pt, name).contains((r, s, u64::MAX)),
{
    lemma_scan_complete(es, pt, name);
    let (cur, closed) = visit_scan(es, pt, name);
    let ivs = intervals_spec(es, pt, name);
    assert forall|x: (u32, u64, u64)| closed.contains(x) implies ivs.contains(x) by {
        let k = choose|k: int| 0 <= k < closed.len() && closed[k] == x;
        assert(ivs[k] == closed[k]);
    }
    assert forall|i: int, r: u32, s: u64|
        #[trigger] arrival_at(es, pt, name, i, r, s) && quiet_between(es, pt, name, i, es.len() as int)
        implies ivs.contains((r, s, u64::MAX)) by {
        assert(cur == Some((r, s)));
        assert(ivs[closed.len() as int] == (r, s, u64::MAX));
    }
}

/// The windows of the visits to `room`, in order.
pub open spec fn windows_in(ivs: Seq<(u32, u64, u64)>, room: u32) -> Seq<(u64, u64)>
    decreases ivs.len(),
{
    if ivs.len() == 0 {
        Seq::empty()
    } else {
        let rest = windows_in(ivs.drop_last(), room);
        if ivs.last().0 == room {
            rest.push((ivs.last().1, ivs.last().2))
        } else {
            rest
        }
    }
}

/// Lemma: the windows in `room` cover `t` exactly when a visit to `room`
/// spans `t`.
proof fn lemma_windows_in(ivs: Seq<(u32, u64, u64)>, room: u32, t: int)
    ensures
        covers(windows_in(ivs, room), t) == in_room_at(ivs, room, t),
    decreases ivs.len(),
{
    if ivs.len() > 0 {
        let pre = ivs.drop_last();
        lemma_windows_in(pre, room, t);
        let w = windows_in(ivs, room);
        let wp = windows_in(pre, room);
        if in_room_at(ivs, room, t) {
            let k = choose|k: int| 0 <= k < ivs.len() && (#[trigger] ivs[k]).0 == room && ivs[k].1 <= t < ivs[k].2;
            if k < pre.len() {
                assert(pre[k] == ivs[k]);
                assert(in_room_at(pre, room, t));
                let m = choose|m: int| 0 <= m < wp.len() && (#[trigger] wp[m]).0 <= t < wp[m].1;
                assert(w[m] == wp[m]);
            } else {
                assert(w[w.len() - 1] == (ivs[k].1, ivs[k].2));
            }
        }
        if covers(w, t) {
            let m = choose|m: int| 0 <= m < w.len() && (#[trigger] w[m]).0 <= t < w[m].1;
            if m < wp.len() {
                assert(w[m] == wp[m]);
                assert(covers(wp, t));
                let k = choose|k: int| 0 <= k < pre.len() && (#[trigger] pre[k]).0 == room && pre[k].1 <= t < pre[k].2;
                assert(ivs[k] == pre[k]);
            } else {
                assert(ivs[ivs.len() - 1].0 == room);
            }
        }
    }
}

/// The windows of the visits to `room`, in order.
fn windows_in_room(ivs: &Vec<(u32, u64, u64)>, room: u32) -> (out: Vec<(u64, u64)>)
    ensures
        out@ == windows_in(ivs@, room),
{
    let mut out: Vec<(u64, u64)> = Vec::new();
    let mut i: usize = 0;
    while i < ivs.len()
        invariant
            i <= ivs@.len(),
            out@ == windows_in(ivs@.subrange(0, i as int), room),
        decreases ivs@.len() - i,
    {
        assert(ivs@.subrange(0, i + 1).drop_last() =~= ivs@.subrange(0, i as int));
        let (r, s, e) = ivs[i];
        if r == room {
            out.push((s, e));
        }
        i = i + 1;
    }
    assert(ivs@.subrange(0, i as int) =~= ivs@);
    out
}

/// Inserts `r` into the strictly increasing `v` unless it is already there.
pub(crate) fn insert_room(v: &mut Vec<u32>, r: u32)
    requires
        forall|i: int, j: int| 0 <= i < j < old(v)@.len() ==> old(v)@[i] < old(v)@[j],
    ensures
        forall|i: int, j: int| 0 <= i < j < final(v)@.len() ==> final(v)@[i] < final(v)@[j],
        forall|q: u32| #[trigger] final(v)@.contains(q) <==> (q == r || old(v)@.contains(q)),
{
    let mut p: usize = 0;
    while p < v.len() && v[p] < r
        invariant
            p <= v@.len(),
            v@ == old(v)@,
            forall|i: int| 0 <= i < p ==> v@[i] < r,
        decreases v@.len() - p,
    {
        p = p + 1;
    }
    if p < v.len() && v[p] == r {
        assert(v@[p as int] == r);
        assert(v@.contains(r));
        return;
    }
    let ghost before = v@;
    assert(before == old(v)@);
    v.insert(p, r);
    proof {
        assert forall|i: int, j: int| 0 <= i < j < v@.len() implies v@[i] < v@[j] by {
            if j < p {
                assert(v@[i] == before[i] && v@[j] == before[j]);
            } else if j == p {
            } else if i < p {
                assert(v@[i] == before[i] && v@[j] == before[j - 1]);
                assert(before[p as int] > r);
            } else if i == p {
                assert(v@[j] == before[j - 1]);
                assert(before[p as int] > r);
            } else {
                assert(v@[i] == before[i - 1] && v@[j] == before[j - 1]);
            }
        }
        assert forall|q: u32| #[trigger] v@.contains(q) <==> (q == r || before.contains(q)) by {
            if v@.contains(q) {
                let i = choose|i: int| 0 <= i < v@.len() && v@[i] == q;
                if i < p {
                    assert(before[i] == q);
                } else if i > p {
                    assert(before[i - 1] == q);
                }
            }
            if q == r {
                assert(v@[p as int] == q);
            }
            if before.contains(q) {
                let i = choose|i: int| 0 <= i < before.len() && before[i] == q;
                if i < p {
                    assert(v@[i] == q);
                } else {
                    assert(v@[i + 1] == q);
                }
            }
        }
    }
}

/// Lemma: the per-room check of [`intersection_query`] keeps exactly the
/// shared rooms.
proof fn lemma_keep_iff_shared(
    es: Seq<EntryView>,
    targets: Seq<(PersonType, Seq<char>)>,
    kv: Seq<Seq<(u32, u64, u64)>>,
    src: Seq<int>,
    room: u32,
    pt: Seq<Seq<(u64, u64)>>,
    any_empty: bool,
    keep: bool,
)
    requires
        kv.len() > 0,
        src.len() == kv.len(),
        forall|a: int|
            0 <= a < src.len() ==> 0 <= #[trigger] src[a] < targets.len() && known(es, targets, src[a])
                && kv[a] == target_intervals(es, targets, src[a]),
        forall|b: int|
            0 <= b < targets.len() && #[trigger] known(es, targets, b) ==> exists|a: int|
                0 <= a < src.len() && src[a] == b,
        pt.len() == kv.len(),
        forall|c: int| 0 <= c < pt.len() ==> #[trigger] pt[c] == windows_in(kv[c], room),
        any_empty <==> exists|c: int| 0 <= c < pt.len() && (#[trigger] pt[c]).len() == 0,
        keep == (if any_empty { false } else { overlap_spec(pt, 0, 0, u64::MAX as int) }),
    ensures
        keep == shared_room(es, targets, room),
{
    if keep {
        let t = choose|t: int| 0 <= t < u64::MAX && #[trigger] all_cover(pt, 0, t);
        assert forall|b: int|
            0 <= b < targets.len() && #[trigger] known(es, targets, b) implies in_room_at(
                target_intervals(es, targets, b),
                room,
                t,
            ) by {
            let a = choose|a: int| 0 <= a < src.len() && src[a] == b;
            assert(covers(pt[a], t));
            lemma_windows_in(kv[a], room, t);
        }
        assert(together_at(es, targets, room, t));
        assert(known(es, targets, src[0]));
    }
    if shared_room(es, targets, room) {
        let t = choose|t: int| #[trigger] together_at(es, targets, room, t);
        assert forall|c: int| 0 <= c < pt.len() implies #[trigger] covers(pt[c], t) by {
            assert(known(es, targets, src[c]));
            lemma_windows_in(kv[c], room, t);
        }
        assert(!any_empty) by {
            if any_empty {
                let c = choose|c: int| 0 <= c < pt.len() && (#[trigger] pt[c]).len() == 0;
                assert(covers(pt[c], t));
            }
        }
        assert(known(es, targets, src[0]));
        assert(in_room_at(kv[0], room, t));
        assert(0 <= t < u64::MAX);
        assert(all_cover(pt, 0, t));
    }
}

/// The rooms (in increasing order, each once) that all the targets known to
/// the log were in at the same time, over the whole history of the
/// gallery.  Targets that do not appear in the log are ignored; with none
/// left, or no targets at all, the answer is empty.  A target that appears
/// but never entered a room shares no room with anyone.
pub fn intersection_query(entries: &[LogEntry], targets: &[(PersonType, String)]) -> (out: Vec<u32>)
    ensures
        forall|i: int, j: int| 0 <= i < j < out@.len() ==> out@[i] < out@[j],
        forall|r: u32| out@.contains(r) <==> shared_room(entry_views(entries@), targets_view(targets@), r),
{
    let ghost es = entry_views(entries@);
    let ghost tv = targets_view(targets@);
    if targets.len() == 0 {
        return Vec::new();
    }
    let mut known_ivs: Vec<Vec<(u32, u64, u64)>> = Vec::new();
    let ghost mut src: Seq<int> = Seq::empty();
    let mut j: usize = 0;
    while j < targets.len()
        invariant
            j <= tv.len(),
            es == entry_views(entries@),
            tv == targets_view(targets@),
            src.len() == known_ivs@.len(),
            forall|a: int|
                0 <= a < src.len() ==> 0 <= #[trigger] src[a] < j && known(es, tv, src[a])
                    && known_ivs@[a]@ == target_intervals(es, tv, src[a]),
            forall|b: int|
                0 <= b < j && #[trigger] known(es, tv, b) ==> exists|a: int|
                    0 <= a < src.len() && src[a] == b,
        decreases tv.len() - j,
    {
        let ghost sb = src;
        let ivs = person_intervals(entries, &targets[j].0, targets[j].1.as_str());
        assert(ivs@ == target_intervals(es, tv, j as int));
        let present = appears(entries, &targets[j].0, targets[j].1.as_str());
        proof {
            let pt = tv[j as int].0;
            let nm = tv[j as int].1;
            if present {
                let i = choose|i: int| 0 <= i < entries@.len() && concerns(#[trigger] entries@[i]@, pt, nm);
                assert(es[i] == entries@[i]@);
            }
            if known(es, tv, j as int) {
                let i = choose|i: int| 0 <= i < es.len() && concerns(#[trigger] es[i], pt, nm);
                assert(es[i] == entries@[i]@);
            }
        }
        if present {
            known_ivs.push(ivs);
            proof {
                src = src.push(j as int);
            }
        }
        proof {
            assert forall|b: int|
                0 <= b < j + 1 && #[trigger] known(es, tv, b) implies exists|a: int|
                    0 <= a < src.len() && src[a] == b by {
                if b == j {
                    assert(src[src.len() - 1] == b);
                } else {
                    let a = choose|a: int| 0 <= a < sb.len() && sb[a] == b;
                    assert(src[a] == b);
                }
            }
        }
        j = j + 1;
    }
    if known_ivs.len() == 0 {
        proof {
            assert forall|r: u32| !shared_room(es, tv, r) by {
                if exists|b: int| 0 <= b < tv.len() && #[trigger] known(es, tv, b) {
                    let b = choose|b: int| 0 <= b < tv.len() && #[trigger] known(es, tv, b);
                    let a = choose|a: int| 0 <= a < src.len() && src[a] == b;
                }
            }
        }
        return Vec::new();
    }
    // every room that a known target visited, once each, in increasing order
    let mut rooms: Vec<u32> = Vec::new();
    let mut a: usize = 0;
    while a < known_ivs.len()
        invariant
            a <= known_ivs@.len(),
            forall|x: int, y: int| 0 <= x < y < rooms@.len() ==> rooms@[x] < rooms@[y],
            forall|q: u32| #[trigger] rooms@.contains(q) ==> exists|b: int, k: int|
                0 <= b < a && 0 <= k < known_ivs@[b]@.len() && known_ivs@[b]@[k].0 == q,
            forall|b: int, k: int|
                0 <= b < a && 0 <= k < known_ivs@[b]@.len() ==> rooms@.contains(#[trigger] known_ivs@[b]@[k].0),
        decreases known_ivs@.len() - a,
    {
        let list = &known_ivs[a];
        let mut k: usize = 0;
        while k < list.len()
            invariant
                k <= list@.len(),
                a < known_ivs@.len(),
                list@ == known_ivs@[a as int]@,
                forall|x: int, y: int| 0 <= x < y < rooms@.len() ==> rooms@[x] < rooms@[y],
                forall|q: u32| #[trigger] rooms@.contains(q) ==> exists|b: int, m: int|
                    0 <= b <= a && 0 <= m < known_ivs@[b]@.len() && known_ivs@[b]@[m].0 == q,
                forall|b: int, m: int|
                    0 <= b < a && 0 <= m < known_ivs@[b]@.len() ==> rooms@.contains(#[trigger] known_ivs@[b]@[m].0),
                forall|m: int| 0 <= m < k ==> rooms@.contains(#[trigger] list@[m].0),
            decreases list@.len() - k,
        {
            let ghost before = rooms@;
            insert_room(&mut rooms, list[k].0);
            proof {
                assert forall|q: u32| #[trigger] rooms@.contains(q) implies exists|b: int, m: int|
                    0 <= b <= a && 0 <= m < known_ivs@[b]@.len() && known_ivs@[b]@[m].0 == q by {
                    if q == list@[k as int].0 {
                        assert(known_ivs@[a as int]@[k as int].0 == q);
                    } else {
                        assert(before.contains(q));
                    }
                }
                assert forall|b: int, m: int|
                    0 <= b < a && 0 <= m < known_ivs@[b]@.len() implies rooms@.contains(#[trigger] known_ivs@[b]@[m].0) by {
                    assert(before.contains(known_ivs@[b]@[m].0));
                }
                assert forall|m: int| 0 <= m < k + 1 implies rooms@.contains(#[trigger] list@[m].0) by {
                    if m < k {
                        assert(before.contains(list@[m].0));
                    }
                }
            }
            k = k + 1;
        }
        proof {
            assert forall|b: int, m: int|
                0 <= b < a + 1 && 0 <= m < known_ivs@[b]@.len() implies rooms@.contains(#[trigger] known_ivs@[b]@[m].0) by {
                if b == a {
                    assert(list@[m] == known_ivs@[b]@[m]);
                }
            }
        }
        a = a + 1;
    }
    // keep the rooms where all known targets were at once
    let mut result: Vec<u32> = Vec::new();
    let mut x: usize = 0;
    while x < rooms.len()
        invariant
            x <= rooms@.len(),
            es == entry_views(entries@),
            tv == targets_view(targets@),
            known_ivs@.len() > 0,
            src.len() == known_ivs@.len(),
            forall|a: int|
                0 <= a < src.len() ==> 0 <= #[trigger] src[a] < tv.len() && known(es, tv, src[a])
                    && known_ivs@[a]@ == target_intervals(es, tv, src[a]),
            forall|b: int|
                0 <= b < tv.len() && #[trigger] known(es, tv, b) ==> exists|a: int|
                    0 <= a < src.len() && src[a] == b,
            forall|p: int, q: int| 0 <= p < q < rooms@.len() ==> rooms@[p] < rooms@[q],
            forall|p: int, q: int| 0 <= p < q < result@.len() ==> result@[p] < result@[q],
            forall|q: u32| #[trigger] result@.contains(q) ==> exists|p: int| 0 <= p < x && rooms@[p] == q,
            forall|p: int| 0 <= p < x ==> (result@.contains(#[trigger] rooms@[p]) <==> shared_room(es, tv, rooms@[p])),
        decreases rooms@.len() - x,
    {
        let room = rooms[x];
        let mut per_target: Vec<Vec<(u64, u64)>> = Vec::new();
        let mut any_empty = false;
        let mut b: usize = 0;
        while b < known_ivs.len()
            invariant
                b <= known_ivs@.len(),
                per_target@.len() == b,
                forall|c: int| 0 <= c < b ==> (#[trigger] per_target@[c])@ == windows_in(known_ivs@[c]@, room),
                any_empty <==> exists|c: int| 0 <= c < b && (#[trigger] per_target@[c])@.len() == 0,
                any_empty ==> exists|c: int| 0 <= c < b && (#[trigger] per_target@[c])@.len() == 0,
            decreases known_ivs@.len() - b,
        {
            let w = windows_in_room(&known_ivs[b], room);
            if w.len() == 0 {
                any_empty = true;
            }
            let ghost pb = per_target@;
            per_target.push(w);
            proof {
                assert forall|c: int| 0 <= c < b implies per_target@[c] == pb[c] by {}
                assert(per_target@[b as int] == w);
                if w@.len() == 0 {
                    assert(per_target@[b as int]@.len() == 0);
                }
                if exists|c: int| 0 <= c < b + 1 && (#[trigger] per_target@[c])@.len() == 0 {
                    let c = choose|c: int| 0 <= c < b + 1 && (#[trigger] per_target@[c])@.len() == 0;
                    if c < b {
                        assert(pb[c]@.len() == 0);
                    } else {
                        assert(w@.len() == 0);
                    }
                }
                if exists|c: int| 0 <= c < b && (#[trigger] pb[c])@.len() == 0 {
                    let c = choose|c: int| 0 <= c < b && (#[trigger] pb[c])@.len() == 0;
                    assert(per_target@[c]@.len() == 0);
                }
            }
            b = b + 1;
        }
        let ghost pt = per_target@.map_values(|v: Vec<(u64, u64)>| v@);
        let ghost kv = known_ivs@.map_values(|v: Vec<(u32, u64, u64)>| v@);
        proof {
            assert forall|c: int| 0 <= c < pt.len() implies #[trigger] pt[c] == per_target@[c]@ by {}
            assert forall|c: int| 0 <= c < kv.len() implies #[trigger] kv[c] == known_ivs@[c]@ by {}
            if any_empty {
                let c = choose|c: int| 0 <= c < per_target@.len() && (#[trigger] per_target@[c])@.len() == 0;
                assert(pt[c].len() == 0);
            }
            if exists|c: int| 0 <= c < pt.len() && (#[trigger] pt[c]).len() == 0 {
                let c = choose|c: int| 0 <= c < pt.len() && (#[trigger] pt[c]).len() == 0;
                assert(per_target@[c]@.len() == 0);
            }
            assert forall|c: int| 0 <= c < pt.len() implies #[trigger] pt[c] == windows_in(kv[c], room) by {
                assert(per_target@[c]@ == windows_in(known_ivs@[c]@, room));
            }
            assert forall|a: int| 0 <= a < src.len() implies 0 <= #[trigger] src[a] < tv.len()
                && known(es, tv, src[a]) && kv[a] == target_intervals(es, tv, src[a]) by {
                assert(kv[a] == known_ivs@[a]@);
            }
        }
        let keep = if any_empty {
            false
        } else {
            overlaps(&per_target, 0, 0, u64::MAX)
        };
        proof {
            lemma_keep_iff_shared(es, tv, kv, src, room, pt, any_empty, keep);
        }
        let ghost rb = result@;
        if keep {
            result.push(room);
        }
        proof {
            assert forall|q: u32| result@.contains(q) <==> (rb.contains(q) || (keep && q == room)) by {
                if result@.contains(q) {
                    let i = choose|i: int| 0 <= i < result@.len() && result@[i] == q;
                    if i < rb.len() {
                        assert(rb[i] == q);
                    }
                }
                if rb.contains(q) {
                    let i = choose|i: int| 0 <= i < rb.len() && rb[i] == q;
                    assert(result@[i] == q);
                }
                if keep && q == room {
                    assert(result@[rb.len() as int] == q);
                }
            }
            assert forall|q: u32| #[trigger] result@.contains(q) implies exists|p: int| 0 <= p < x + 1 && rooms@[p] == q by {
                if q == room {
                    assert(rooms@[x as int] == q);
                } else {
                    assert(rb.contains(q));
                }
            }
            assert forall|p: int, q: int| 0 <= p < q < result@.len() implies result@[p] < result@[q] by {
                if keep && q == rb.len() {
                    assert(rb.contains(rb[p]));
                    let p0 = choose|p0: int| 0 <= p0 < x && rooms@[p0] == rb[p];
                    assert(result@[p] == rb[p]);
                } else {
                    assert(result@[p] == rb[p] && result@[q] == rb[q]);
                }
            }
            assert(!rb.contains(room)) by {
                if rb.contains(room) {
                    let p0 = choose|p0: int| 0 <= p0 < x && rooms@[p0] == room;
                    assert(rooms@[p0] < rooms@[x as int]);
                }
            }
            assert forall|p: int| 0 <= p < x + 1 implies (result@.contains(#[trigger] rooms@[p]) <==> shared_room(es, tv, rooms@[p])) by {
                if p < x {
                    assert(rooms@[p] < room);
                    assert(rb.contains(rooms@[p]) <==> shared_room(es, tv, rooms@[p]));
                }
            }
        }
        x = x + 1;
    }
    proof {
        assert forall|r: u32| result@.contains(r) <==> shared_room(es, tv, r) by {
            if shared_room(es, tv, r) {
                let b = choose|b: int| 0 <= b < tv.len() && #[trigger] known(es, tv, b);
                let t = choose|t: int| #[trigger] together_at(es, tv, r, t);
                let a0 = choose|a0: int| 0 <= a0 < src.len() && src[a0] == b;
                assert(in_room_at(target_intervals(es, tv, b), r, t));
                let k = choose|k: int| 0 <= k < known_ivs@[a0]@.len() && (#[trigger] known_ivs@[a0]@[k]).0 == r
                    && known_ivs@[a0]@[k].1 <= t < known_ivs@[a0]@[k].2;
                assert(rooms@.contains(known_ivs@[a0]@[k].0));
                let p = choose|p: int| 0 <= p < rooms@.len() && rooms@[p] == r;
            }
        }
    }
    result
}

} // verus!
