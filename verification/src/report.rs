//! The lines that `logread` prints.

use crate::batch::{push_char, string_views};
use crate::text::decimal;
use vstd::prelude::*;

verus! {

/// The parts joined with `sep` between each two.
pub open spec fn join_spec(parts: Seq<Seq<char>>, sep: char) -> Seq<char>
    decreases parts.len(),
{
    if parts.len() == 0 {
        Seq::empty()
    } else if parts.len() == 1 {
        parts[0]
    } else {
        join_spec(parts.drop_last(), sep).push(sep) + parts.last()
    }
}

/// Lemma: the views of a list with one more string.
proof fn lemma_views_push(v: Seq<String>, x: String)
    ensures
        string_views(v.push(x)) == string_views(v).push(x@),
{
    assert(string_views(v.push(x)) =~= string_views(v).push(x@));
}

/// Appends the characters of `t` to `s`.
fn push_all(s: &mut String, t: &str)
    ensures
        final(s)@ == old(s)@ + t@,
{
    let cs = crate::batch::chars_of(t);
    let mut i: usize = 0;
    while i < cs.len()
        invariant
            i <= cs@.len(),
            cs@ == t@,
            s@ == old(s)@ + cs@.subrange(0, i as int),
        decreases cs@.len() - i,
    {
        push_char(s, cs[i]);
        i = i + 1;
        assert(s@ =~= old(s)@ + cs@.subrange(0, i as int));
    }
    assert(cs@.subrange(0, i as int) =~= cs@);
}

/// The strings joined with `sep`, as `join` does.
pub fn join(parts: &[String], sep: char) -> (out: String)
    ensures
        out@ == join_spec(string_views(parts@), sep),
{
    let mut s = String::new();
    let mut i: usize = 0;
    while i < parts.len()
        invariant
            i <= parts@.len(),
            s@ == join_spec(string_views(parts@.subrange(0, i as int)), sep),
        decreases parts@.len() - i,
    {
        let ghost pre = string_views(parts@.subrange(0, i as int));
        let ghost next = string_views(parts@.subrange(0, i + 1));
        assert(next.drop_last() =~= pre);
        assert(next.last() == parts@[i as int]@);
        if i > 0 {
            push_char(&mut s, sep);
        } else {
            assert(pre =~= Seq::<Seq<char>>::empty());
        }
        push_all(&mut s, parts[i].as_str());
        i = i + 1;
    }
    assert(parts@.subrange(0, i as int) =~= parts@);
    s
}

/// The decimal numeral of `n` as characters.
pub open spec fn decimal_chars(n: nat) -> Seq<char> {
    decimal(n).map_values(|b: u8| b as char)
}

/// Appends the decimal numeral of `n` to `s`.
pub fn push_decimal_chars(s: &mut String, n: u64)
    ensures
        final(s)@ == old(s)@ + decimal_chars(n as nat),
    decreases n,
{
    if n >= 10 {
        push_decimal_chars(s, n / 10);
    }
    let d: u8 = (n % 10) as u8;
    let c = (48 + d) as char;
    push_char(s, c);
    assert(decimal(n as nat) == if n >= 10 { decimal((n / 10) as nat).push((48 + n % 10) as u8) } else { seq![(48 + n) as u8] });
    assert(final(s)@ =~= old(s)@ + decimal_chars(n as nat));
}

/// The decimal numeral of `n`.
pub fn decimal_string(n: u32) -> (out: String)
    ensures
        out@ == decimal_chars(n as nat),
{
    let mut s = String::new();
    push_decimal_chars(&mut s, n as u64);
    assert(s@ =~= decimal_chars(n as nat));
    s
}

/// The numerals of the rooms.
pub open spec fn room_numerals(rooms: Seq<u32>) -> Seq<Seq<char>> {
    rooms.map_values(|r: u32| decimal_chars(r as nat))
}

/// The rooms written as numerals joined with `,`.
pub fn rooms_line(rooms: &[u32]) -> (out: String)
    ensures
        out@ == join_spec(room_numerals(rooms@), ','),
{
    let mut parts: Vec<String> = Vec::new();
    let mut i: usize = 0;
    while i < rooms.len()
        invariant
            i <= rooms@.len(),
            string_views(parts@) == room_numerals(rooms@.subrange(0, i as int)),
        decreases rooms@.len() - i,
    {
        let ghost before = parts@;
        parts.push(decimal_string(rooms[i]));
        proof {
            lemma_views_push(before, parts@.last());
            assert(rooms@.subrange(0, i + 1) =~= rooms@.subrange(0, i as int).push(rooms@[i as int]));
            assert(room_numerals(rooms@.subrange(0, i as int).push(rooms@[i as int])) =~= room_numerals(
                rooms@.subrange(0, i as int),
            ).push(decimal_chars(rooms@[i as int] as nat)));
        }
        i = i + 1;
    }
    assert(rooms@.subrange(0, i as int) =~= rooms@);
    join(parts.as_slice(), ',')
}

/// The line of one room: its numeral, `: `, then the employees and then the
/// guests in it, joined with `,`.
pub fn room_line(room: u32, employees: &[String], guests: &[String]) -> (out: String)
    ensures
        out@ == decimal_chars(room as nat) + seq![':', ' '] + join_spec(
            string_views(employees@) + string_views(guests@),
            ',',
        ),
{
    let mut names: Vec<String> = Vec::new();
    let mut i: usize = 0;
    while i < employees.len()
        invariant
            i <= employees@.len(),
            string_views(names@) == string_views(employees@.subrange(0, i as int)),
        decreases employees@.len() - i,
    {
        let ghost before = names@;
        assert(string_views(before).len() == before.len());
        let x = employees[i].clone();
        assert(x@ == employees@[i as int]@);
        names.push(x);
        assert(names@ == before.push(x));
        proof {
            lemma_views_push(before, x);
            assert(employees@.subrange(0, i + 1) =~= employees@.subrange(0, i as int).push(employees@[i as int]));
            lemma_views_push(employees@.subrange(0, i as int), employees@[i as int]);
        }
        i = i + 1;
    }
    assert(employees@.subrange(0, i as int) =~= employees@);
    let mut j: usize = 0;
    while j < guests.len()
        invariant
            j <= guests@.len(),
            string_views(names@) == string_views(employees@) + string_views(guests@.subrange(0, j as int)),
        decreases guests@.len() - j,
    {
        let ghost before = names@;
        let x = guests[j].clone();
        assert(x@ == guests@[j as int]@);
        names.push(x);
        assert(names@ == before.push(x));
        proof {
            lemma_views_push(before, x);
            assert(guests@.subrange(0, j + 1) =~= guests@.subrange(0, j as int).push(guests@[j as int]));
            lemma_views_push(guests@.subrange(0, j as int), guests@[j as int]);
            assert(string_views(employees@) + string_views(guests@.subrange(0, j as int)).push(x@) =~= (
            string_views(employees@) + string_views(guests@.subrange(0, j as int))).push(x@));
        }
        j = j + 1;
    }
    assert(guests@.subrange(0, j as int) =~= guests@);
    let mut s = decimal_string(room);
    push_char(&mut s, ':');
    push_char(&mut s, ' ');
    let rest = join(names.as_slice(), ',');
    push_all(&mut s, rest.as_str());
    assert(s@ =~= decimal_chars(room as nat) + seq![':', ' '] + join_spec(
        string_views(employees@) + string_views(guests@),
        ',',
    ));
    s
}

} // verus!
