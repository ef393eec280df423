//! Batch files of `logappend`: one command per line, its arguments split
//! at blanks outside double quotes.

use vstd::prelude::*;

verus! {

/// The characters of `s`.
pub fn chars_of(s: &str) -> (out: Vec<char>)
    ensures
        out@ == s@,
{
    broadcast use vstd::string::group_string_axioms;

    let mut v: Vec<char> = Vec::new();
    for c in it: s.chars()
        invariant
            v@ == it.seq().take(it.index() as int),
    {
        v.push(c);
    }
    v
}


/// Calls `String::push`.  Trusted: the string gains `c` at its end.
#[verifier::external_body]
pub(crate) fn push_char(s: &mut String, c: char)
    ensures
        final(s)@ == old(s)@.push(c),
{
    s.push(c);
}

/// The string of the characters `cs[lo..hi]`.
pub fn string_of(cs: &Vec<char>, lo: usize, hi: usize) -> (out: String)
    requires
        lo <= hi <= cs@.len(),
    ensures
        out@ == cs@.subrange(lo as int, hi as int),
{
    let mut s = String::new();
    let mut i = lo;
    while i < hi
        invariant
            lo <= i <= hi,
            hi <= cs@.len(),
            s@ == cs@.subrange(lo as int, i as int),
        decreases hi - i,
    {
        push_char(&mut s, cs[i]);
        i = i + 1;
        assert(s@ =~= cs@.subrange(lo as int, i as int));
    }
    s
}

/// White space as `char::is_whitespace` has it (Unicode `White_Space`).
pub open spec fn is_white(c: char) -> bool {
    ||| c == ' '
    ||| ('\u{9}' <= c && c <= '\u{d}')
    ||| c == '\u{85}'
    ||| c == '\u{a0}'
    ||| c == '\u{1680}'
    ||| ('\u{2000}' <= c && c <= '\u{200a}')
    ||| c == '\u{2028}'
    ||| c == '\u{2029}'
    ||| c == '\u{202f}'
    ||| c == '\u{205f}'
    ||| c == '\u{3000}'
}

/// Whether `c` is white space.
pub fn char_is_white(c: char) -> (out: bool)
    ensures
        out == is_white(c),
{
    c == ' ' || ('\u{9}' <= c && c <= '\u{d}') || c == '\u{85}' || c == '\u{a0}' || c == '\u{1680}'
        || ('\u{2000}' <= c && c <= '\u{200a}') || c == '\u{2028}' || c == '\u{2029}' || c
        == '\u{202f}' || c == '\u{205f}' || c == '\u{3000}'
}

/// `cs` without its leading white space.
pub open spec fn trim_start(cs: Seq<char>) -> Seq<char>
    decreases cs.len(),
{
    if cs.len() > 0 && is_white(cs[0]) {
        trim_start(cs.drop_first())
    } else {
        cs
    }
}

/// `cs` without its trailing white space.
pub open spec fn trim_end(cs: Seq<char>) -> Seq<char>
    decreases cs.len(),
{
    if cs.len() > 0 && is_white(cs.last()) {
        trim_end(cs.drop_last())
    } else {
        cs
    }
}

/// `cs` without white space at either end, as `str::trim` leaves it.
pub open spec fn trim_spec(cs: Seq<char>) -> Seq<char> {
    trim_end(trim_start(cs))
}

/// The bounds of `cs[lo..hi]` trimmed of white space at both ends.
fn trim_bounds(cs: &Vec<char>, lo: usize, hi: usize) -> (out: (usize, usize))
    requires
        lo <= hi <= cs@.len(),
    ensures
        lo <= out.0 <= out.1 <= hi,
        cs@.subrange(out.0 as int, out.1 as int) == trim_spec(cs@.subrange(lo as int, hi as int)),
{
    let mut a = lo;
    while a < hi && char_is_white(cs[a])
        invariant
            lo <= a <= hi,
            hi <= cs@.len(),
            trim_start(cs@.subrange(lo as int, hi as int)) == trim_start(cs@.subrange(a as int, hi as int)),
        decreases hi - a,
    {
        assert(cs@.subrange(a as int, hi as int).drop_first() =~= cs@.subrange(a + 1, hi as int));
        a = a + 1;
    }
    assert(trim_start(cs@.subrange(a as int, hi as int)) == cs@.subrange(a as int, hi as int));
    let mut b = hi;
    while b > a && char_is_white(cs[b - 1])
        invariant
            a <= b <= hi,
            hi <= cs@.len(),
            trim_end(cs@.subrange(a as int, hi as int)) == trim_end(cs@.subrange(a as int, b as int)),
        decreases b - a,
    {
        assert(cs@.subrange(a as int, b as int).drop_last() =~= cs@.subrange(a as int, b - 1));
        b = b - 1;
    }
    assert(trim_end(cs@.subrange(a as int, b as int)) == cs@.subrange(a as int, b as int));
    (a, b)
}

/// The lines read so far (trimmed, blank ones dropped) and the current one.
pub open spec fn lines_step(st: (Seq<Seq<char>>, Seq<char>), c: char) -> (Seq<Seq<char>>, Seq<char>) {
    if c == '\n' {
        (if trim_spec(st.1).len() > 0 { st.0.push(trim_spec(st.1)) } else { st.0 }, Seq::empty())
    } else {
        (st.0, st.1.push(c))
    }
}

/// Reading the characters in turn with [`lines_step`].
pub open spec fn lines_fold(cs: Seq<char>) -> (Seq<Seq<char>>, Seq<char>)
    decreases cs.len(),
{
    if cs.len() == 0 {
        (Seq::empty(), Seq::empty())
    } else {
        lines_step(lines_fold(cs.drop_last()), cs.last())
    }
}

/// The commands of a batch file: its lines (split at `\n`), each trimmed
/// of white space, blank ones dropped.
pub open spec fn batch_lines_spec(cs: Seq<char>) -> Seq<Seq<char>> {
    let (ls, cur) = lines_fold(cs);
    if trim_spec(cur).len() > 0 {
        ls.push(trim_spec(cur))
    } else {
        ls
    }
}

/// The views of a list of strings.
pub open spec fn string_views(v: Seq<String>) -> Seq<Seq<char>> {
    v.map_values(|s: String| s@)
}

/// The commands of a batch file (see [`batch_lines_spec`]).
pub fn batch_lines(content: &str) -> (out: Vec<String>)
    ensures
        string_views(out@) == batch_lines_spec(content@),
{
    let cs = chars_of(content);
    let mut out: Vec<String> = Vec::new();
    let mut start: usize = 0;
    let mut i: usize = 0;
    while i < cs.len()
        invariant
            start <= i <= cs@.len(),
            cs@ == content@,
            lines_fold(cs@.subrange(0, i as int)) == (string_views(out@), cs@.subrange(start as int, i as int)),
        decreases cs@.len() - i,
    {
        assert(cs@.subrange(0, i + 1).drop_last() =~= cs@.subrange(0, i as int));
        if cs[i] == '\n' {
            let (a, b) = trim_bounds(&cs, start, i);
            if a < b {
                let line = string_of(&cs, a, b);
                let ghost before = out@;
                out.push(line);
                assert(string_views(out@) =~= string_views(before).push(line@));
            }
            start = i + 1;
            assert(cs@.subrange(start as int, i + 1) =~= Seq::<char>::empty());
        } else {
            assert(cs@.subrange(start as int, i + 1) =~= cs@.subrange(start as int, i as int).push(cs@[i as int]));
        }
        i = i + 1;
    }
    assert(cs@.subrange(0, i as int) =~= cs@);
    let (a, b) = trim_bounds(&cs, start, i);
    if a < b {
        let line = string_of(&cs, a, b);
        let ghost before = out@;
        out.push(line);
        assert(string_views(out@) =~= string_views(before).push(line@));
    }
    out
}

/// The arguments read so far, the one being read, and whether inside
/// double quotes.
pub open spec fn split_step(st: (Seq<Seq<char>>, Seq<char>, bool), c: char) -> (Seq<Seq<char>>, Seq<char>, bool) {
    if c == '"' {
        (st.0, st.1, !st.2)
    } else if (c == ' ' || c == '\t') && !st.2 {
        if st.1.len() > 0 {
            (st.0.push(st.1), Seq::empty(), st.2)
        } else {
            st
        }
    } else {
        (st.0, st.1.push(c), st.2)
    }
}

/// Reading the characters in turn with [`split_step`].
pub open spec fn split_fold(cs: Seq<char>) -> (Seq<Seq<char>>, Seq<char>, bool)
    decreases cs.len(),
{
    if cs.len() == 0 {
        (Seq::empty(), Seq::empty(), false)
    } else {
        split_step(split_fold(cs.drop_last()), cs.last())
    }
}

/// The arguments of a command line: split at spaces and tabs outside
/// double quotes; the quotes themselves are dropped; empty arguments are
/// not produced.
pub open spec fn shell_split_spec(cs: Seq<char>) -> Seq<Seq<char>> {
    let (args, cur, _) = split_fold(cs);
    if cur.len() > 0 {
        args.push(cur)
    } else {
        args
    }
}

/// Splits a batch line into its arguments (see [`shell_split_spec`]).
pub fn shell_split(s: &str) -> (out: Vec<String>)
    ensures
        string_views(out@) == shell_split_spec(s@),
{
    let cs = chars_of(s);
    let mut args: Vec<String> = Vec::new();
    let mut cur = String::new();
    let mut in_quote = false;
    let mut i: usize = 0;
    while i < cs.len()
        invariant
            i <= cs@.len(),
            cs@ == s@,
            split_fold(cs@.subrange(0, i as int)) == (string_views(args@), cur@, in_quote),
        decreases cs@.len() - i,
    {
        assert(cs@.subrange(0, i + 1).drop_last() =~= cs@.subrange(0, i as int));
        let c = cs[i];
        if c == '"' {
            in_quote = !in_quote;
        } else if (c == ' ' || c == '\t') && !in_quote {
            if !cur.as_str().is_empty() {
                let ghost before = args@;
                let mut done = String::new();
                std::mem::swap(&mut done, &mut cur);
                args.push(done);
                assert(string_views(args@) =~= string_views(before).push(done@));
            }
        } else {
            push_char(&mut cur, c);
        }
        i = i + 1;
    }
    assert(cs@.subrange(0, i as int) =~= cs@);
    if !cur.as_str().is_empty() {
        let ghost before = args@;
        args.push(cur);
        assert(string_views(args@) =~= string_views(before).push(cur@));
    }
    args
}


/// The commands of a batch file, each as its arguments: its non-blank
/// lines, trimmed, each split as [`shell_split_spec`] says.
pub open spec fn batch_commands_spec(cs: Seq<char>) -> Seq<Seq<Seq<char>>> {
    batch_lines_spec(cs).map_values(|l: Seq<char>| shell_split_spec(l))
}

/// The commands of a batch file (see [`batch_commands_spec`]), each to be
/// run as one `logappend` command line, in order.
pub fn batch_commands(content: &str) -> (out: Vec<Vec<String>>)
    ensures
        out@.len() == batch_commands_spec(content@).len(),
        forall|i: int| 0 <= i < out@.len() ==> string_views(#[trigger] out@[i]@) == batch_commands_spec(content@)[i],
{
    let lines = batch_lines(content);
    let mut out: Vec<Vec<String>> = Vec::new();
    let mut i: usize = 0;
    while i < lines.len()
        invariant
            i <= lines@.len(),
            string_views(lines@) == batch_lines_spec(content@),
            out@.len() == i,
            forall|k: int| 0 <= k < i ==> string_views(#[trigger] out@[k]@) == batch_commands_spec(content@)[k],
        decreases lines@.len() - i,
    {
        let args = shell_split(lines[i].as_str());
        assert(string_views(lines@)[i as int] == lines@[i as int]@);
        let ghost before = out@;
        out.push(args);
        proof {
            assert forall|k: int| 0 <= k < i + 1 implies string_views(#[trigger] out@[k]@) == batch_commands_spec(content@)[k] by {
                if k < i {
                    assert(out@[k] == before[k]);
                }
            }
        }
        i = i + 1;
    }
    out
}

} // verus!
