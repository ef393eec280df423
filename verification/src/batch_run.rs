//! Running a batch file of `logappend` commands against the log files they
//! name: each non-blank line, in order, as its own command; a line that
//! fails leaves every log as it was and the next line runs.

use crate::append_cli::{append_args_spec, append_outcome, arg_views, parse_args, plan_append, AppendError};
use crate::batch::{batch_commands, batch_commands_spec, string_views};
use crate::record::file_view;
use crate::roster::str_eq;
use vstd::prelude::*;

verus! {

/// The log files by path, each with its bytes (`None`: no file there).
pub open spec fn files_view(fs: Seq<(String, Option<Vec<u8>>)>) -> Seq<(Seq<char>, Option<Seq<u8>>)> {
    fs.map_values(
        |x: (String, Option<Vec<u8>>)|
            (
                x.0@,
                match x.1 {
                    Some(v) => Some(v@),
                    None => None,
                },
            ),
    )
}

/// The first place from `i` on where `fs` holds the path `p`; `-1` when
/// there is none.
pub open spec fn find_from(fs: Seq<(Seq<char>, Option<Seq<u8>>)>, p: Seq<char>, i: int) -> int
    decreases fs.len() - i,
{
    if i < 0 || i >= fs.len() {
        -1
    } else if fs[i].0 == p {
        i
    } else {
        find_from(fs, p, i + 1)
    }
}

/// What is at path `p`: what the first entry for `p` holds, or no file.
pub open spec fn file_at(fs: Seq<(Seq<char>, Option<Seq<u8>>)>, p: Seq<char>) -> Option<Seq<u8>> {
    let k = find_from(fs, p, 0);
    if k < 0 {
        None
    } else {
        fs[k].1
    }
}

/// The files with the log at `p` now holding `b`.
pub open spec fn with_file(fs: Seq<(Seq<char>, Option<Seq<u8>>)>, p: Seq<char>, b: Seq<u8>) -> Seq<
    (Seq<char>, Option<Seq<u8>>),
> {
    let k = find_from(fs, p, 0);
    if k < 0 {
        fs.push((p, Some(b)))
    } else {
        fs.update(k, (p, Some(b)))
    }
}

/// One line of a batch: a command line that does not read is invalid, and
/// so is one naming a log that could not be read (a path in `blocked`);
/// else the command runs against the log it names (see [`append_outcome`]),
/// and only when it succeeds does that log change.
pub open spec fn batch_line_spec(
    fs: Seq<(Seq<char>, Option<Seq<u8>>)>,
    blocked: Seq<Seq<char>>,
    cmd: Seq<Seq<char>>,
) -> (Seq<(Seq<char>, Option<Seq<u8>>)>, Result<(), AppendError>) {
    match append_args_spec(cmd) {
        None => (fs, Err(AppendError::Invalid)),
        Some(a) => if blocked.contains(a.log_path) {
            (fs, Err(AppendError::Invalid))
        } else {
            match append_outcome(a, file_at(fs, a.log_path)) {
                Ok(b) => (with_file(fs, a.log_path, b), Ok(())),
                Err(e) => (fs, Err(e)),
            }
        },
    }
}

/// A batch: its commands run in order, each on the files the ones before
/// left; the files at the end and how each line ended.
pub open spec fn batch_spec(
    fs: Seq<(Seq<char>, Option<Seq<u8>>)>,
    blocked: Seq<Seq<char>>,
    cmds: Seq<Seq<Seq<char>>>,
) -> (
    Seq<(Seq<char>, Option<Seq<u8>>)>,
    Seq<Result<(), AppendError>>,
)
    decreases cmds.len(),
{
    if cmds.len() == 0 {
        (fs, Seq::empty())
    } else {
        let (f, rs) = batch_spec(fs, blocked, cmds.drop_last());
        let (f2, r) = batch_line_spec(f, blocked, cmds.last());
        (f2, rs.push(r))
    }
}

/// Law: running a batch is running its first lines, then the rest on the
/// files they left; how each line ends is the same either way.  So a batch
/// is its lines run one after another, and a line that fails changes no
/// log.
pub proof fn lemma_batch_split(
    fs: Seq<(Seq<char>, Option<Seq<u8>>)>,
    blocked: Seq<Seq<char>>,
    c1: Seq<Seq<Seq<char>>>,
    c2: Seq<Seq<Seq<char>>>,
)
    ensures
        batch_spec(fs, blocked, c1 + c2) == (
            batch_spec(batch_spec(fs, blocked, c1).0, blocked, c2).0,
            batch_spec(fs, blocked, c1).1 + batch_spec(batch_spec(fs, blocked, c1).0, blocked, c2).1,
        ),
    decreases c2.len(),
{
    if c2.len() == 0 {
        assert(c1 + c2 =~= c1);
        assert(batch_spec(fs, blocked, c1).1 + Seq::<Result<(), AppendError>>::empty() =~= batch_spec(
            fs,
            blocked,
            c1,
        ).1);
    } else {
        assert((c1 + c2).drop_last() =~= c1 + c2.drop_last());
        assert((c1 + c2).last() == c2.last());
        lemma_batch_split(fs, blocked, c1, c2.drop_last());
        let mid = batch_spec(fs, blocked, c1);
        let rest = batch_spec(mid.0, blocked, c2.drop_last());
        let (f2, r) = batch_line_spec(rest.0, blocked, c2.last());
        assert(mid.1 + rest.1.push(r) =~= (mid.1 + rest.1).push(r));
    }
}

/// Where the log at path `p` is among `files`, if it is.
fn find_file(files: &Vec<(String, Option<Vec<u8>>)>, p: &str) -> (out: Option<usize>)
    ensures
        match out {
            Some(k) => find_from(files_view(files@), p@, 0) == k && k < files@.len(),
            None => find_from(files_view(files@), p@, 0) == -1,
        },
{
    let ghost fv = files_view(files@);
    let mut i: usize = 0;
    while i < files.len()
        invariant
            i <= files@.len(),
            fv == files_view(files@),
            find_from(fv, p@, 0) == find_from(fv, p@, i as int),
        decreases files@.len() - i,
    {
        assert(fv[i as int].0 == files@[i as int].0@);
        if str_eq(files[i].0.as_str(), p) {
            return Some(i);
        }
        i = i + 1;
    }
    None
}

/// Whether `p` is among `paths`.
fn has_path(paths: &Vec<String>, p: &str) -> (out: bool)
    ensures
        out == string_views(paths@).contains(p@),
{
    let mut i: usize = 0;
    while i < paths.len()
        invariant
            i <= paths@.len(),
            forall|k: int| 0 <= k < i ==> paths@[k]@ != p@,
        decreases paths@.len() - i,
    {
        if str_eq(paths[i].as_str(), p) {
            assert(string_views(paths@)[i as int] == p@);
            return true;
        }
        i = i + 1;
    }
    proof {
        if string_views(paths@).contains(p@) {
            let k = choose|k: int| 0 <= k < paths@.len() && string_views(paths@)[k] == p@;
            assert(string_views(paths@)[k] == paths@[k]@);
        }
    }
    false
}

/// Runs one line of a batch (see [`batch_line_spec`]).
fn run_line(files: &mut Vec<(String, Option<Vec<u8>>)>, blocked: &Vec<String>, cmd: &Vec<String>) -> (out: Result<(), AppendError>)
    ensures
        (files_view(final(files)@), out) == batch_line_spec(
            files_view(old(files)@),
            string_views(blocked@),
            string_views(cmd@),
        ),
{
    assert(arg_views(cmd@) =~= string_views(cmd@));
    let a = match parse_args(cmd.as_slice()) {
        Ok(a) => a,
        Err(_) => return Err(AppendError::Invalid),
    };
    if has_path(blocked, a.log_path.as_str()) {
        return Err(AppendError::Invalid);
    }
    let ghost fv = files_view(files@);
    let k = find_file(files, a.log_path.as_str());
    let result = {
        let file: Option<&[u8]> = match k {
            Some(k) => match &files[k].1 {
                Some(v) => Some(v.as_slice()),
                None => None,
            },
            None => None,
        };
        proof {
            match k {
                Some(k) => {
                    assert(fv[k as int] == (files@[k as int].0@, match files@[k as int].1 {
                        Some(v) => Some(v@),
                        None => None,
                    }));
                },
                None => {},
            }
        }
        assert(file_view(file) == file_at(fv, a.log_path@));
        plan_append(&a, file)
    };
    match result {
        Ok(bytes) => {
            let ghost b = bytes@;
            match k {
                Some(k) => {
                    files.set(k, (a.log_path.clone(), Some(bytes)));
                },
                None => {
                    files.push((a.log_path.clone(), Some(bytes)));
                },
            }
            assert(files_view(files@) =~= with_file(fv, a.log_path@, b));
            Ok(())
        },
        Err(e) => Err(e),
    }
}

/// Runs a batch file's commands (see [`batch_commands`]) in order against
/// `files`, the log files they name (a path not among them has no file
/// yet), where the logs at `blocked` could not be read: the files end as
/// [`batch_spec`] says, and the result says how each line ended.
pub fn run_batch(content: &str, files: &mut Vec<(String, Option<Vec<u8>>)>, blocked: &Vec<String>) -> (out: Vec<
    Result<(), AppendError>,
>)
    ensures
        (files_view(final(files)@), out@) == batch_spec(
            files_view(old(files)@),
            string_views(blocked@),
            batch_commands_spec(content@),
        ),
{
    let cmds = batch_commands(content);
    let ghost spec_cmds = batch_commands_spec(content@);
    let ghost start = files_view(files@);
    let mut out: Vec<Result<(), AppendError>> = Vec::new();
    let mut i: usize = 0;
    assert(spec_cmds.subrange(0, 0) =~= Seq::<Seq<Seq<char>>>::empty());
    while i < cmds.len()
        invariant
            i <= cmds@.len(),
            cmds@.len() == spec_cmds.len(),
            forall|k: int| 0 <= k < cmds@.len() ==> string_views(#[trigger] cmds@[k]@) == spec_cmds[k],
            (files_view(files@), out@) == batch_spec(start, string_views(blocked@), spec_cmds.subrange(0, i as int)),
        decreases cmds@.len() - i,
    {
        let r = run_line(files, blocked, &cmds[i]);
        out.push(r);
        proof {
            assert(spec_cmds.subrange(0, i + 1).drop_last() =~= spec_cmds.subrange(0, i as int));
            assert(spec_cmds.subrange(0, i + 1).last() == spec_cmds[i as int]);
            assert(string_views(cmds@[i as int]@) == spec_cmds[i as int]);
        }
        i = i + 1;
    }
    assert(spec_cmds.subrange(0, i as int) =~= spec_cmds);
    out
}

} // verus!
