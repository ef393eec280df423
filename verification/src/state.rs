//! A simpler tracker of presence: who is in the gallery, and who is in
//! which room, moved by `A`/`L` events.

use crate::roster::Roster;
use vstd::prelude::*;

verus! {

/// Who is in the gallery, and who is in which room.
pub struct GalleryState {
    pub in_gallery: Roster<()>,
    pub in_rooms: Roster<u64>,
}

/// The mathematical value of a [`GalleryState`].
pub struct PresenceView {
    pub in_gallery: Set<Seq<char>>,
    pub in_rooms: Map<Seq<char>, u64>,
}

impl View for GalleryState {
    type V = PresenceView;

    open spec fn view(&self) -> PresenceView {
        PresenceView { in_gallery: self.in_gallery@.dom(), in_rooms: self.in_rooms@ }
    }
}

/// The rule for one event: `A` with a room enters it (only from the
/// gallery, and only when in no room); `A` alone enters the gallery; `L`
/// with a room leaves the room one is in (whatever room is given); `L`
/// alone leaves the gallery (only when in no room); any other event is
/// refused.
pub open spec fn presence_step(s: PresenceView, event: Seq<char>, name: Seq<char>, room: Option<u64>) -> Option<PresenceView> {
    if event == seq!['A'] {
        match room {
            Some(r) => if !s.in_gallery.contains(name) || s.in_rooms.contains_key(name) {
                None
            } else {
                Some(PresenceView { in_rooms: s.in_rooms.insert(name, r), ..s })
            },
            None => Some(PresenceView { in_gallery: s.in_gallery.insert(name), ..s }),
        }
    } else if event == seq!['L'] {
        match room {
            Some(_) => if !s.in_rooms.contains_key(name) {
                None
            } else {
                Some(PresenceView { in_rooms: s.in_rooms.remove(name), ..s })
            },
            None => if s.in_rooms.contains_key(name) {
                None
            } else {
                Some(PresenceView { in_gallery: s.in_gallery.remove(name), ..s })
            },
        }
    } else {
        None
    }
}

/// Whether `s` is the one-letter string `c`, for an ASCII `c`.
fn is_letter_string(s: &str, c: u8) -> (out: bool)
    requires
        c < 0x80,
    ensures
        out == (s@ == seq![c as char]),
{
    if !s.is_ascii() {
        proof {
            let k = choose|k: int| 0 <= k < s@.len() && !('\0' <= #[trigger] s@[k] <= '\u{7f}');
            if s@ == seq![c as char] {
                assert(s@[k] == c as char);
            }
        }
        return false;
    }
    proof { vstd::string::is_ascii_spec_bytes(s); }
    let b = s.as_bytes();
    if b.len() != 1 {
        return false;
    }
    let r = b[0] == c;
    proof {
        assert(s@[0] as u32 <= 0x7f);
        if r {
            assert(s@ =~= seq![c as char]);
        }
    }
    r
}

impl GalleryState {
    /// Nobody anywhere.
    pub fn new() -> (out: GalleryState)
        ensures
            out@.in_gallery == Set::<Seq<char>>::empty(),
            out@.in_rooms == Map::<Seq<char>, u64>::empty(),
    {
        GalleryState { in_gallery: Roster::new(), in_rooms: Roster::new() }
    }

    /// Applies one event (see [`presence_step`]); on refusal nothing
    /// changes.
    pub fn apply_entry(&mut self, entry: &str, name: &str, room: Option<u64>) -> (out: Result<(), ()>)
        ensures
            match presence_step(old(self)@, entry@, name@, room) {
                Some(s) => out is Ok && final(self)@ == s,
                None => out is Err && final(self)@ == old(self)@,
            },
    {
        if is_letter_string(entry, 65) {
            match room {
                Some(r) => {
                    if !self.in_gallery.contains_key(name) {
                        return Err(());
                    }
                    if self.in_rooms.contains_key(name) {
                        return Err(());
                    }
                    self.in_rooms.insert(name.to_owned(), r);
                },
                None => {
                    self.in_gallery.insert(name.to_owned(), ());
                    assert(self.in_gallery@.dom() =~= old(self).in_gallery@.dom().insert(name@));
                },
            }
        } else if is_letter_string(entry, 76) {
            match room {
                Some(_) => {
                    if !self.in_rooms.contains_key(name) {
                        return Err(());
                    }
                    self.in_rooms.remove(name);
                },
                None => {
                    if self.in_rooms.contains_key(name) {
                        return Err(());
                    }
                    self.in_gallery.remove(name);
                    assert(self.in_gallery@.dom() =~= old(self).in_gallery@.dom().remove(name@));
                },
            }
        } else {
            return Err(());
        }
        Ok(())
    }
}


/// Law: what one event does to the presence tracker.  `A` with a room is
/// accepted exactly for a person in the gallery and in no room, who is
/// then in that room; `A` alone is always accepted and puts the person in
/// the gallery; `L` with a room is accepted exactly for a person in some
/// room, who then is in none; `L` alone is accepted exactly for a person in
/// no room, who then is not in the gallery; any other event is refused.
/// Nothing else changes.
pub proof fn lemma_presence_rules(s: PresenceView, event: Seq<char>, name: Seq<char>, room: Option<u64>)
    ensures
        ({
            let out = presence_step(s, event, name, room);
            let ok = out is Some;
            let t = out.unwrap();
            &&& (event != seq!['A'] && event != seq!['L']) ==> !ok
            &&& (event == seq!['A'] && room is Some) ==> (ok <==> (s.in_gallery.contains(name)
                && !s.in_rooms.contains_key(name)))
            &&& (event == seq!['A'] && room is Some && ok) ==> (t.in_gallery == s.in_gallery
                && t.in_rooms.contains_key(name) && t.in_rooms[name] == room.unwrap() && t.in_rooms.dom()
                == s.in_rooms.dom().insert(name) && forall|n: Seq<char>|
                n != name && #[trigger] s.in_rooms.contains_key(n) ==> t.in_rooms[n] == s.in_rooms[n])
            &&& (event == seq!['A'] && room is None) ==> (ok && t.in_gallery == s.in_gallery.insert(name)
                && t.in_rooms == s.in_rooms)
            &&& (event == seq!['L'] && room is Some) ==> (ok <==> s.in_rooms.contains_key(name))
            &&& (event == seq!['L'] && room is Some && ok) ==> (t.in_gallery == s.in_gallery
                && t.in_rooms == s.in_rooms.remove(name))
            &&& (event == seq!['L'] && room is None) ==> (ok <==> !s.in_rooms.contains_key(name))
            &&& (event == seq!['L'] && room is None && ok) ==> (t.in_gallery == s.in_gallery.remove(name)
                && t.in_rooms == s.in_rooms)
        }),
{
    assert(seq!['A'] != seq!['L']) by {
        assert(seq!['A'][0] != seq!['L'][0]);
    }
}

} // verus!
