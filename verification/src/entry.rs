//! Log entries and their plaintext encoding.
//!
//! An entry is written as the text `timestamp|E|name|A|room` (person `E` or
//! `G`, action `A` or `L`, room empty when the event concerns the gallery
//! itself), followed by the 32 raw bytes of the previous record's hash.

use crate::text::{
    decimal, find_bar, lemma_find_bar, next_bar, parse_u32, parse_u64, parse_unsigned, push_decimal,
    BAR,
};
use vstd::prelude::*;
use vstd::string::StringSliceAdditionalSpecFns;
use vstd::utf8::*;

verus! {

/// Who an entry concerns.
#[derive(Debug, Clone, Copy, PartialEq, Eq, Hash, Structural)]
pub enum PersonType {
    Employee,
    Guest,
}

/// What happened.
#[derive(Debug, Clone, Copy, PartialEq, Eq, Hash, Structural)]
pub enum Action {
    Arrival,
    Departure,
}

/// One event of the log: a person arriving at or leaving the gallery
/// (`room` is `None`) or one of its rooms.
#[derive(Debug)]
pub struct LogEntry {
    pub timestamp: u64,
    pub person_type: PersonType,
    pub name: String,
    pub action: Action,
    pub room: Option<u32>,
}

/// The mathematical value of a [`LogEntry`]: its fields, the name as
/// characters.
pub struct EntryView {
    pub timestamp: u64,
    pub person_type: PersonType,
    pub name: Seq<char>,
    pub action: Action,
    pub room: Option<u32>,
}

impl View for LogEntry {
    type V = EntryView;

    open spec fn view(&self) -> EntryView {
        EntryView {
            timestamp: self.timestamp,
            person_type: self.person_type,
            name: self.name@,
            action: self.action,
            room: self.room,
        }
    }
}

impl Clone for LogEntry {
    /// A copy of the entry, field for field.
    fn clone(&self) -> (out: LogEntry)
        ensures
            out@ == self@,
    {
        LogEntry {
            timestamp: self.timestamp,
            person_type: self.person_type,
            name: self.name.clone(),
            action: self.action,
            room: self.room,
        }
    }
}

/// The byte that encodes a person type: `E` or `G`.
pub open spec fn person_byte(p: PersonType) -> u8 {
    match p {
        PersonType::Employee => 69,
        PersonType::Guest => 71,
    }
}

/// The byte that encodes an action: `A` or `L`.
pub open spec fn action_byte(a: Action) -> u8 {
    match a {
        Action::Arrival => 65,
        Action::Departure => 76,
    }
}

/// The room field: empty, or the room's numeral.
pub open spec fn room_text(room: Option<u32>) -> Seq<u8> {
    match room {
        None => Seq::empty(),
        Some(r) => decimal(r as nat),
    }
}

/// The text part of an encoded entry: `timestamp|P|name|A|room`.
pub open spec fn entry_text(e: EntryView) -> Seq<u8> {
    decimal(e.timestamp as nat) + seq![BAR, person_byte(e.person_type), BAR] + encode_utf8(e.name)
        + seq![BAR, action_byte(e.action), BAR] + room_text(e.room)
}

/// The full plaintext of an entry: its text followed by the previous hash.
pub open spec fn encode_spec(e: EntryView, prev_hash: Seq<u8>) -> Seq<u8> {
    entry_text(e) + prev_hash
}

/// Which person type a field names, if any.
pub open spec fn person_of(f: Seq<u8>) -> Option<PersonType> {
    if f.len() == 1 && f[0] == 69 {
        Some(PersonType::Employee)
    } else if f.len() == 1 && f[0] == 71 {
        Some(PersonType::Guest)
    } else {
        None
    }
}

/// Which action a field names, if any.
pub open spec fn action_of(f: Seq<u8>) -> Option<Action> {
    if f.len() == 1 && f[0] == 65 {
        Some(Action::Arrival)
    } else if f.len() == 1 && f[0] == 76 {
        Some(Action::Departure)
    } else {
        None
    }
}

/// The room field read back: empty is `None`, a `u32` numeral is a room,
/// anything else is refused (`None` outside).
pub open spec fn room_of(f: Seq<u8>) -> Option<Option<u32>> {
    if f.len() == 0 {
        Some(None)
    } else {
        match parse_unsigned(f, u32::MAX as nat) {
            Some(r) => Some(Some(r as u32)),
            None => None,
        }
    }
}

/// Reading a plaintext back.  The last 32 bytes are the previous hash; the
/// rest must be UTF-8 text with at least four `|`; the five fields between
/// the first four `|` (the last field runs to the end) must be a `u64`
/// timestamp, `E`/`G`, a name, `A`/`L`, and an empty or `u32` room.
pub open spec fn decode_spec(data: Seq<u8>) -> Option<(EntryView, Seq<u8>)> {
    if data.len() < 32 {
        None
    } else {
        let text = data.subrange(0, data.len() - 32);
        let hash = data.subrange(data.len() - 32, data.len() as int);
        if !valid_utf8(text) {
            None
        } else {
            match find_bar(text, 0) {
                None => None,
                Some(p0) => match find_bar(text, p0 + 1) {
                    None => None,
                    Some(p1) => match find_bar(text, p1 + 1) {
                        None => None,
                        Some(p2) => match find_bar(text, p2 + 1) {
                            None => None,
                            Some(p3) => {
                                let ts = parse_unsigned(text.subrange(0, p0), u64::MAX as nat);
                                let pt = person_of(text.subrange(p0 + 1, p1));
                                let name = text.subrange(p1 + 1, p2);
                                let act = action_of(text.subrange(p2 + 1, p3));
                                let room = room_of(text.subrange(p3 + 1, text.len() as int));
                                if ts is Some && pt is Some && act is Some && room is Some {
                                    Some(
                                        (
                                            EntryView {
                                                timestamp: ts.unwrap() as u64,
                                                person_type: pt.unwrap(),
                                                name: decode_utf8(name),
                                                action: act.unwrap(),
                                                room: room.unwrap(),
                                            },
                                            hash,
                                        ),
                                    )
                                } else {
                                    None
                                }
                            },
                        },
                    },
                },
            }
        }
    }
}

/// Calls `std::str::from_utf8`.  Trusted: it succeeds exactly on valid
/// UTF-8, and the string it returns has the given bytes.
#[verifier::external_body]
fn str_from_utf8(bytes: &[u8]) -> (out: Option<&str>)
    ensures
        out is Some <==> valid_utf8(bytes@),
        out matches Some(s) ==> s.spec_bytes() == bytes@,
{
    std::str::from_utf8(bytes).ok()
}

/// Lemma: in valid UTF-8, the bytes strictly between two `|` are valid
/// UTF-8 on their own.
proof fn lemma_valid_between_bars(text: Seq<u8>, a: int, b: int)
    requires
        valid_utf8(text),
        0 <= a < b < text.len(),
        text[a] == BAR,
        text[b] == BAR,
    ensures
        valid_utf8(text.subrange(a + 1, b)),
{
    is_char_boundary_iff_not_is_continuation_byte(text, a);
    valid_utf8_split(text, a);
    let t2 = text.subrange(a, text.len() as int);
    assert(t2[0] == BAR);
    assert(length_of_first_scalar(t2) == 1);
    let t3 = text.subrange(a + 1, text.len() as int);
    assert(pop_first_scalar(t2) =~= t3);
    assert(valid_utf8(t3));
    assert(t3[b - a - 1] == BAR);
    is_char_boundary_iff_not_is_continuation_byte(t3, b - a - 1);
    valid_utf8_split(t3, b - a - 1);
    assert(t3.subrange(0, b - a - 1) =~= text.subrange(a + 1, b));
}

/// Lemma: bytes that are all ASCII form valid UTF-8.
pub proof fn lemma_ascii_valid_utf8(s: Seq<u8>)
    requires
        forall|i: int| 0 <= i < s.len() ==> s[i] < 0x80,
    ensures
        valid_utf8(s),
    decreases s.len(),
{
    if s.len() > 0 {
        let b = s[0];
        assert((b & 0x7F) as u32 == b as u32) by (bit_vector)
            requires
                b < 0x80,
        ;
        assert(pop_first_scalar(s) =~= s.drop_first());
        lemma_ascii_valid_utf8(s.drop_first());
    }
}

/// Lemma: the UTF-8 encoding of a character other than `|` holds no `|`.
proof fn lemma_scalar_no_bar(ch: char)
    requires
        ch != '|',
    ensures
        forall|i: int|
            0 <= i < encode_scalar(ch as u32).len() ==> #[trigger] encode_scalar(ch as u32)[i] != BAR,
{
    let c = ch as u32;
    char_u32_cast(ch, c);
    char_is_scalar(ch);
    assert(c != 0x7c) by {
        if c == 0x7c {
            assert((0x7cu32 as char) == '|');
        }
    }
    let head = encode_scalar(c);
    if has_width_1_encoding(c) {
        assert((c & 0x7F) as u8 != 0x7c) by (bit_vector)
            requires
                c <= 0x7F,
                c != 0x7c,
        ;
    } else {
        assert(forall|x: u32| (0xC0 | ((x >> 6) & 0x1F) as u8) != 0x7c) by (bit_vector);
        assert(forall|x: u32| (0xE0 | ((x >> 12) & 0x0F) as u8) != 0x7c) by (bit_vector);
        assert(forall|x: u32| (0xF0 | ((x >> 18) & 0x7) as u8) != 0x7c) by (bit_vector);
        assert(forall|x: u32| (0x80 | (x & 0x3F) as u8) != 0x7c) by (bit_vector);
        assert(forall|x: u32| (0x80 | ((x >> 6) & 0x3F) as u8) != 0x7c) by (bit_vector);
        assert(forall|x: u32| (0x80 | ((x >> 12) & 0x3F) as u8) != 0x7c) by (bit_vector);
        assert forall|i: int| 0 <= i < head.len() implies head[i] != BAR by {
            if has_width_2_encoding(c) {
            } else if has_width_3_encoding(c) {
            } else {
            }
        }
    }
}

/// Lemma: a name with no `|` encodes to bytes with no `|`.
pub proof fn lemma_encode_no_bar(chars: Seq<char>)
    requires
        !chars.contains('|'),
    ensures
        forall|i: int| 0 <= i < encode_utf8(chars).len() ==> encode_utf8(chars)[i] != BAR,
    decreases chars.len(),
{
    if chars.len() > 0 {
        assert(chars[0] != '|');
        assert(!chars.drop_first().contains('|')) by {
            if chars.drop_first().contains('|') {
                let k = choose|k: int|
                    0 <= k < chars.drop_first().len() && chars.drop_first()[k] == '|';
                assert(chars[k + 1] == '|');
            }
        }
        lemma_encode_no_bar(chars.drop_first());
        lemma_scalar_no_bar(chars[0]);
        let head = encode_scalar(chars[0] as u32);
        let rest = encode_utf8(chars.drop_first());
        assert(encode_utf8(chars) == head + rest);
        assert forall|i: int| 0 <= i < encode_utf8(chars).len() implies encode_utf8(chars)[i]
            != BAR by {
            if i >= head.len() {
                assert(encode_utf8(chars)[i] == rest[i - head.len()]);
            } else {
                assert(encode_utf8(chars)[i] == head[i]);
            }
        }
    }
}

/// Lemma: the text of an entry is valid UTF-8.
proof fn lemma_entry_text_valid(e: EntryView)
    ensures
        valid_utf8(entry_text(e)),
{
    let ts = decimal(e.timestamp as nat);
    let name = encode_utf8(e.name);
    let rt = room_text(e.room);
    crate::text::lemma_decimal_parses(e.timestamp as nat);
    match e.room {
        Some(r) => {
            crate::text::lemma_decimal_parses(r as nat);
        },
        None => {},
    }
    let pre = ts + seq![BAR, person_byte(e.person_type), BAR];
    let post = seq![BAR, action_byte(e.action), BAR] + rt;
    assert forall|i: int| 0 <= i < pre.len() implies pre[i] < 0x80 by {
        if i < ts.len() {
            assert(pre[i] == ts[i]);
        }
    }
    assert forall|i: int| 0 <= i < post.len() implies post[i] < 0x80 by {
        if i >= 3 {
            assert(post[i] == rt[i - 3]);
        }
    }
    lemma_ascii_valid_utf8(pre);
    lemma_ascii_valid_utf8(post);
    encode_utf8_valid_utf8(e.name);
    valid_utf8_concat(pre, name);
    valid_utf8_concat(pre + name, post);
    assert(entry_text(e) =~= (pre + name) + post);
}

/// Lemma: where the four separators of an entry's text are found, and
/// what lies between them.
proof fn lemma_entry_text_fields(e: EntryView)
    requires
        !e.name.contains('|'),
    ensures
        ({
            let text = entry_text(e);
            let p0 = decimal(e.timestamp as nat).len() as int;
            let p1 = p0 + 2;
            let p2 = p1 + 1 + encode_utf8(e.name).len();
            let p3 = p2 + 2;
            &&& find_bar(text, 0) == Some(p0)
            &&& find_bar(text, p0 + 1) == Some(p1)
            &&& find_bar(text, p1 + 1) == Some(p2)
            &&& find_bar(text, p2 + 1) == Some(p3)
            &&& text.subrange(0, p0) == decimal(e.timestamp as nat)
            &&& text.subrange(p0 + 1, p1) == seq![person_byte(e.person_type)]
            &&& text.subrange(p1 + 1, p2) == encode_utf8(e.name)
            &&& text.subrange(p2 + 1, p3) == seq![action_byte(e.action)]
            &&& text.subrange(p3 + 1, text.len() as int) == room_text(e.room)
        }),
{
    let ts = decimal(e.timestamp as nat);
    let name = encode_utf8(e.name);
    let rt = room_text(e.room);
    let text = entry_text(e);
    crate::text::lemma_decimal_parses(e.timestamp as nat);
    lemma_encode_no_bar(e.name);
    let p0 = ts.len() as int;
    let p1 = p0 + 2;
    let p2 = p1 + 1 + name.len();
    let p3 = p2 + 2;
    assert(text[p0] == BAR);
    assert(text[p1] == BAR);
    assert(text[p2] == BAR);
    assert(text[p3] == BAR);
    assert forall|k: int| 0 <= k < p0 implies text[k] != BAR by {
        assert(text[k] == ts[k]);
    }
    crate::text::lemma_find_bar_at(text, 0, p0);
    crate::text::lemma_find_bar_at(text, p0 + 1, p1);
    assert forall|k: int| p1 + 1 <= k < p2 implies text[k] != BAR by {
        assert(text[k] == name[k - p1 - 1]);
    }
    crate::text::lemma_find_bar_at(text, p1 + 1, p2);
    crate::text::lemma_find_bar_at(text, p2 + 1, p3);
    assert(text.subrange(0, p0) =~= ts);
    assert(text.subrange(p0 + 1, p1) =~= seq![person_byte(e.person_type)]);
    assert(text.subrange(p1 + 1, p2) =~= name);
    assert(text.subrange(p2 + 1, p3) =~= seq![action_byte(e.action)]);
    assert(text.subrange(p3 + 1, text.len() as int) =~= rt);
}

/// Law: reading back what was encoded gives the entry and the hash again,
/// whenever the name holds no `|` (the separator) and the hash has the
/// 32 bytes that the format reserves for it.
pub proof fn lemma_decode_encode(e: EntryView, h: Seq<u8>)
    requires
        h.len() == 32,
        !e.name.contains('|'),
    ensures
        decode_spec(encode_spec(e, h)) == Some((e, h)),
{
    let text = entry_text(e);
    let data = encode_spec(e, h);
    assert(data.subrange(0, data.len() - 32) =~= text);
    assert(data.subrange(data.len() - 32, data.len() as int) =~= h);
    lemma_entry_text_valid(e);
    lemma_entry_text_fields(e);
    crate::text::lemma_decimal_parses(e.timestamp as nat);
    match e.room {
        Some(r) => {
            crate::text::lemma_decimal_parses(r as nat);
        },
        None => {},
    }
    encode_utf8_decode_utf8(e.name);
    let ts = decimal(e.timestamp as nat);
    assert(ts[0] != 43 && ts[0] != 45);
    assert(parse_unsigned(ts, u64::MAX as nat) == Some(e.timestamp as nat));
    assert(person_of(seq![person_byte(e.person_type)]) == Some(e.person_type));
    assert(action_of(seq![action_byte(e.action)]) == Some(e.action));
    assert(room_of(room_text(e.room)) == Some(e.room));
}

impl LogEntry {
    /// The plaintext of this entry chained to `prev_hash`.
    pub fn encode(&self, prev_hash: &[u8; 32]) -> (out: Vec<u8>)
        ensures
            out@ == encode_spec(self@, prev_hash@),
    {
        let mut out: Vec<u8> = Vec::new();
        push_decimal(&mut out, self.timestamp);
        out.push(BAR);
        match self.person_type {
            PersonType::Employee => out.push(69),
            PersonType::Guest => out.push(71),
        }
        out.push(BAR);
        crate::crypto::append_bytes(&mut out, self.name.as_str().as_bytes());
        out.push(BAR);
        match self.action {
            Action::Arrival => out.push(65),
            Action::Departure => out.push(76),
        }
        out.push(BAR);
        match self.room {
            Some(r) => push_decimal(&mut out, r as u64),
            None => {},
        }
        crate::crypto::append_bytes(&mut out, prev_hash.as_slice());
        assert(out@ =~= encode_spec(self@, prev_hash@));
        out
    }

    /// Reads a plaintext back into an entry and the hash it was chained to.
    pub fn decode(data: &[u8]) -> (out: Option<(LogEntry, [u8; 32])>)
        ensures
            match out {
                Some((e, h)) => decode_spec(data@) == Some((e@, h@)),
                None => decode_spec(data@) is None,
            },
    {
        if data.len() < 32 {
            return None;
        }
        let split = data.len() - 32;
        let text = vstd::slice::slice_subrange(data, 0, split);
        let mut prev_hash: [u8; 32] = [0u8; 32];
        let mut j: usize = 0;
        while j < 32
            invariant
                split + 32 == data@.len(),
                data@.len() == data.len(),
                j <= 32,
                forall|k: int| 0 <= k < j ==> prev_hash@[k] == data@[split + k],
            decreases 32 - j,
        {
            prev_hash[j] = data[split + j];
            j = j + 1;
        }
        assert(prev_hash@ =~= data@.subrange(split as int, data@.len() as int));
        if str_from_utf8(text).is_none() {
            return None;
        }
        let p0 = match next_bar(text, 0) {
            Some(p) => p,
            None => return None,
        };
        proof { lemma_find_bar(text@, 0); }
        let p1 = match next_bar(text, p0 + 1) {
            Some(p) => p,
            None => return None,
        };
        proof { lemma_find_bar(text@, p0 + 1); }
        let p2 = match next_bar(text, p1 + 1) {
            Some(p) => p,
            None => return None,
        };
        proof { lemma_find_bar(text@, p1 + 1); }
        let p3 = match next_bar(text, p2 + 1) {
            Some(p) => p,
            None => return None,
        };
        proof { lemma_find_bar(text@, p2 + 1); }
        let n = text.len();
        let ts_f = vstd::slice::slice_subrange(text, 0, p0);
        let pt_f = vstd::slice::slice_subrange(text, p0 + 1, p1);
        let name_f = vstd::slice::slice_subrange(text, p1 + 1, p2);
        let act_f = vstd::slice::slice_subrange(text, p2 + 1, p3);
        let room_f = vstd::slice::slice_subrange(text, p3 + 1, n);
        let timestamp = match parse_u64(ts_f) {
            Some(t) => t,
            None => return None,
        };
        let person_type = if pt_f.len() == 1 && pt_f[0] == 69 {
            PersonType::Employee
        } else if pt_f.len() == 1 && pt_f[0] == 71 {
            PersonType::Guest
        } else {
            assert(person_of(pt_f@) is None);
            return None;
        };
        let action = if act_f.len() == 1 && act_f[0] == 65 {
            Action::Arrival
        } else if act_f.len() == 1 && act_f[0] == 76 {
            Action::Departure
        } else {
            assert(action_of(act_f@) is None);
            return None;
        };
        let room = if room_f.len() == 0 {
            None
        } else {
            match parse_u32(room_f) {
                Some(r) => Some(r),
                None => return None,
            }
        };
        proof { lemma_valid_between_bars(text@, p1 as int, p2 as int); }
        let name_str = match str_from_utf8(name_f) {
            Some(s) => s,
            None => return None,
        };
        let name = name_str.to_owned();
        proof {
            encode_utf8_decode_utf8(name_str@);
        }
        let entry = LogEntry { timestamp, person_type, name, action, room };
        Some((entry, prev_hash))
    }
}

} // verus!
