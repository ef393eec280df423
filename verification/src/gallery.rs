//! The gallery state machine: replaying the log, entry by entry, under the
//! gallery's rules.

use crate::entry::{Action, EntryView, LogEntry, PersonType};
use crate::record::entry_views;
use crate::roster::Roster;
use vstd::prelude::*;

verus! {

/// The mathematical value of a [`GalleryState`].
pub struct GalleryView {
    pub employees: Map<Seq<char>, Option<u32>>,
    pub guests: Map<Seq<char>, Option<u32>>,
    pub last_timestamp: u64,
    pub has_entries: bool,
}

/// The state before any entry: nobody present, no timestamp seen.
pub open spec fn initial_view() -> GalleryView {
    GalleryView {
        employees: Map::empty(),
        guests: Map::empty(),
        last_timestamp: 0,
        has_entries: false,
    }
}

/// The roster that an entry concerns.
pub open spec fn roster_of(s: GalleryView, p: PersonType) -> Map<Seq<char>, Option<u32>> {
    match p {
        PersonType::Employee => s.employees,
        PersonType::Guest => s.guests,
    }
}

/// The rule for one person's roster; `None` when the move is not allowed.
/// One may arrive at the gallery only when absent, enter a room only from
/// the gallery (in no room), leave the gallery only when in no room, and
/// leave a room only the one one is in.
pub open spec fn move_spec(m: Map<Seq<char>, Option<u32>>, name: Seq<char>, action: Action, room: Option<u32>) -> Option<Map<Seq<char>, Option<u32>>> {
    match (action, room) {
        (Action::Arrival, None) => if m.contains_key(name) {
            None
        } else {
            Some(m.insert(name, None))
        },
        (Action::Arrival, Some(r)) => if m.contains_key(name) && m[name] == None::<u32> {
            Some(m.insert(name, Some(r)))
        } else {
            None
        },
        (Action::Departure, None) => if m.contains_key(name) && m[name] == None::<u32> {
            Some(m.remove(name))
        } else {
            None
        },
        (Action::Departure, Some(r)) => if m.contains_key(name) && m[name] == Some(r) {
            Some(m.insert(name, None))
        } else {
            None
        },
    }
}

/// The gallery's rules for one entry: its timestamp must exceed the last
/// one seen (if any), and the move must be allowed for that person.
pub open spec fn apply_spec(s: GalleryView, e: EntryView) -> Option<GalleryView> {
    if s.has_entries && e.timestamp <= s.last_timestamp {
        None
    } else {
        match move_spec(roster_of(s, e.person_type), e.name, e.action, e.room) {
            None => None,
            Some(m) => Some(
                match e.person_type {
                    PersonType::Employee => GalleryView {
                        employees: m,
                        guests: s.guests,
                        last_timestamp: e.timestamp,
                        has_entries: true,
                    },
                    PersonType::Guest => GalleryView {
                        employees: s.employees,
                        guests: m,
                        last_timestamp: e.timestamp,
                        has_entries: true,
                    },
                },
            ),
        }
    }
}

/// The state reached by applying the entries in order from the initial
/// state; `None` as soon as one is refused.
pub open spec fn state_of(es: Seq<EntryView>) -> Option<GalleryView>
    decreases es.len(),
{
    if es.len() == 0 {
        Some(initial_view())
    } else {
        match state_of(es.drop_last()) {
            None => None,
            Some(s) => apply_spec(s, es.last()),
        }
    }
}

/// Who is in the gallery and where, and the last timestamp accepted.
pub struct GalleryState {
    pub employees: Roster<Option<u32>>,
    pub guests: Roster<Option<u32>>,
    pub last_timestamp: u64,
    pub has_entries: bool,
}

impl View for GalleryState {
    type V = GalleryView;

    open spec fn view(&self) -> GalleryView {
        GalleryView {
            employees: self.employees@,
            guests: self.guests@,
            last_timestamp: self.last_timestamp,
            has_entries: self.has_entries,
        }
    }
}

impl Clone for GalleryState {
    /// A copy of the state.
    fn clone(&self) -> (out: GalleryState)
        ensures
            out@ == self@,
    {
        GalleryState {
            employees: self.employees.clone(),
            guests: self.guests.clone(),
            last_timestamp: self.last_timestamp,
            has_entries: self.has_entries,
        }
    }
}

impl Default for GalleryState {
    fn default() -> (out: GalleryState)
        ensures
            out@ == initial_view(),
    {
        GalleryState {
            employees: Roster::new(),
            guests: Roster::new(),
            last_timestamp: 0,
            has_entries: false,
        }
    }
}

/// Applies a move to one roster, as [`move_spec`] says.
fn apply_move(map: &mut Roster<Option<u32>>, entry: &LogEntry) -> (out: Result<(), ()>)
    ensures
        match move_spec(old(map)@, entry.name@, entry.action, entry.room) {
            Some(m) => out is Ok && final(map)@ == m,
            None => out is Err && final(map)@ == old(map)@,
        },
{
    match (&entry.action, entry.room) {
        (Action::Arrival, None) => {
            if map.contains_key(entry.name.as_str()) {
                return Err(());
            }
            map.insert(entry.name.clone(), None);
        },
        (Action::Arrival, Some(r)) => {
            match map.get(entry.name.as_str()) {
                Some(None) => {
                    map.insert(entry.name.clone(), Some(r));
                },
                _ => return Err(()),
            }
        },
        (Action::Departure, None) => {
            match map.get(entry.name.as_str()) {
                Some(None) => {
                    map.remove(entry.name.as_str());
                },
                _ => return Err(()),
            }
        },
        (Action::Departure, Some(r)) => {
            let here = match map.get(entry.name.as_str()) {
                Some(Some(cur)) => *cur == r,
                _ => false,
            };
            if !here {
                return Err(());
            }
            map.insert(entry.name.clone(), None);
        },
    }
    Ok(())
}

impl GalleryState {
    /// Applies one entry under the gallery's rules; on refusal the state is
    /// left as it was.
    pub fn apply(&mut self, entry: &LogEntry) -> (out: Result<(), ()>)
        ensures
            match apply_spec(old(self)@, entry@) {
                Some(s) => out is Ok && final(self)@ == s,
                None => out is Err && final(self)@ == old(self)@,
            },
    {
        if self.has_entries && entry.timestamp <= self.last_timestamp {
            return Err(());
        }
        let r = match entry.person_type {
            PersonType::Employee => apply_move(&mut self.employees, entry),
            PersonType::Guest => apply_move(&mut self.guests, entry),
        };
        if r.is_err() {
            return Err(());
        }
        self.last_timestamp = entry.timestamp;
        self.has_entries = true;
        Ok(())
    }
}

/// Replays `entries` from the empty gallery; fails at the first entry the
/// rules refuse.
pub fn compute_state(entries: &[LogEntry]) -> (out: Result<GalleryState, ()>)
    ensures
        match state_of(entry_views(entries@)) {
            Some(s) => out matches Ok(st) && st@ == s,
            None => out is Err,
        },
{
    let mut state = GalleryState::default();
    let mut i: usize = 0;
    while i < entries.len()
        invariant
            i <= entries@.len(),
            state_of(entry_views(entries@.subrange(0, i as int))) == Some(state@),
        decreases entries@.len() - i,
    {
        let ghost before = state@;
        let ghost pre = entry_views(entries@.subrange(0, i as int));
        let ghost next = entry_views(entries@.subrange(0, i + 1));
        assert(next.drop_last() =~= pre);
        assert(next.last() == entries@[i as int]@);
        if state.apply(&entries[i]).is_err() {
            assert(entry_views(entries@).subrange(0, i + 1) =~= next);
            proof { lemma_state_of_refused_prefix(entry_views(entries@), i + 1); }
            return Err(());
        }
        i = i + 1;
    }
    assert(entries@.subrange(0, i as int) =~= entries@);
    Ok(state)
}

/// Lemma: once a prefix is refused, so is the whole sequence.
pub proof fn lemma_state_of_refused_prefix(es: Seq<EntryView>, k: int)
    requires
        0 <= k <= es.len(),
        state_of(es.subrange(0, k)) is None,
    ensures
        state_of(es) is None,
    decreases es.len() - k,
{
    if k < es.len() {
        assert(es.subrange(0, k + 1).drop_last() =~= es.subrange(0, k));
        lemma_state_of_refused_prefix(es, k + 1);
    } else {
        assert(es.subrange(0, k) =~= es);
    }
}


/// Law: checking a new entry against the state of the log so far is the
/// same as replaying the log with the entry appended — what is accepted
/// when appending is what a later replay accepts, and it ends in the same
/// state.
pub proof fn lemma_state_of_push(es: Seq<EntryView>, e: EntryView)
    ensures
        state_of(es.push(e)) == (match state_of(es) {
            Some(s) => apply_spec(s, e),
            None => None,
        }),
{
    assert(es.push(e).drop_last() =~= es);
}

/// Law: in any log that replays without refusal, timestamps strictly
/// increase, and the state remembers the last one.
pub proof fn lemma_timestamps_increase(es: Seq<EntryView>)
    requires
        state_of(es) is Some,
    ensures
        forall|i: int, j: int| 0 <= i < j < es.len() ==> es[i].timestamp < es[j].timestamp,
        es.len() > 0 ==> state_of(es).unwrap().has_entries
            && state_of(es).unwrap().last_timestamp == es.last().timestamp,
        es.len() == 0 ==> !state_of(es).unwrap().has_entries,
    decreases es.len(),
{
    if es.len() > 0 {
        let pre = es.drop_last();
        lemma_timestamps_increase(pre);
        assert forall|i: int, j: int| 0 <= i < j < es.len() implies es[i].timestamp
            < es[j].timestamp by {
            if j < es.len() - 1 {
                assert(pre[i] == es[i] && pre[j] == es[j]);
            } else if i < es.len() - 1 {
                if i < pre.len() - 1 {
                    assert(pre[i].timestamp < pre.last().timestamp);
                }
                assert(pre[i] == es[i]);
            }
        }
    }
}


/// Law: what the gallery's rules do to the roster an entry concerns, for
/// each kind of entry.  An arrival at the gallery is accepted only for a
/// person absent from it, who is then present in no room; an arrival into a
/// room only for a person in the gallery and in no room, who is then in that
/// room; a departure from the gallery only for a person in it and in no
/// room, who is then absent; a departure from a room only for a person in
/// that very room, who is then in the gallery in no room.  An accepted entry
/// changes no other person and no roster of the other kind, and its
/// timestamp exceeds every earlier one and becomes the last.
pub proof fn lemma_rules(s: GalleryView, e: EntryView)
    ensures
        ({
            let m = roster_of(s, e.person_type);
            let n = e.name;
            let ok = apply_spec(s, e) is Some;
            let m2 = roster_of(apply_spec(s, e).unwrap(), e.person_type);
            &&& ok ==> (!s.has_entries || s.last_timestamp < e.timestamp)
            &&& ok ==> apply_spec(s, e).unwrap().last_timestamp == e.timestamp
                && apply_spec(s, e).unwrap().has_entries
            &&& ok ==> (match e.person_type {
                PersonType::Employee => apply_spec(s, e).unwrap().guests == s.guests,
                PersonType::Guest => apply_spec(s, e).unwrap().employees == s.employees,
            })
            &&& ok ==> forall|x: Seq<char>|
                x != n ==> (#[trigger] m2.contains_key(x) == m.contains_key(x)) && (m.contains_key(x)
                    ==> m2[x] == m[x])
            &&& (e.action == Action::Arrival && e.room is None) ==> (ok <==> (
            (!s.has_entries || s.last_timestamp < e.timestamp) && !m.contains_key(n)))
            &&& (e.action == Action::Arrival && e.room is None && ok) ==> (m2.contains_key(n) && m2[n]
                is None && m2.dom() == m.dom().insert(n))
            &&& (e.action == Action::Arrival && e.room is Some) ==> (ok <==> (
            (!s.has_entries || s.last_timestamp < e.timestamp) && m.contains_key(n) && m[n] is None))
            &&& (e.action == Action::Arrival && e.room is Some && ok) ==> (m2.contains_key(n) && m2[n]
                == e.room && m2.dom() == m.dom())
            &&& (e.action == Action::Departure && e.room is None) ==> (ok <==> (
            (!s.has_entries || s.last_timestamp < e.timestamp) && m.contains_key(n) && m[n] is None))
            &&& (e.action == Action::Departure && e.room is None && ok) ==> (!m2.contains_key(n)
                && m2.dom() == m.dom().remove(n))
            &&& (e.action == Action::Departure && e.room is Some) ==> (ok <==> (
            (!s.has_entries || s.last_timestamp < e.timestamp) && m.contains_key(n) && m[n] == e.room))
            &&& (e.action == Action::Departure && e.room is Some && ok) ==> (m2.contains_key(n) && m2[n]
                is None && m2.dom() == m.dom())
        }),
{
    let m = roster_of(s, e.person_type);
    if apply_spec(s, e) is Some {
        let m2 = roster_of(apply_spec(s, e).unwrap(), e.person_type);
        match (e.action, e.room) {
            (Action::Arrival, None) => {
                assert(m2.dom() =~= m.dom().insert(e.name));
            },
            (Action::Departure, None) => {
                assert(m2.dom() =~= m.dom().remove(e.name));
            },
            _ => {
                assert(m2.dom() =~= m.dom());
            },
        }
    }
}

} // verus!
