//! Which other object directories a repository draws on.

use crate::database::Alternate;
use crate::text::concat2;
use crate::text::concat3;
use crate::text::has_prefix;
use crate::text::has_suffix;
use crate::text::starts_with;
use crate::text::strip_suffix;
use crate::text_file::byte_views;
use crate::text_file::newline_parts;
use crate::text_file::read_utf8;
use crate::text_file::split_newlines;
use crate::text_file::trim;
use crate::text_file::trimmed;
use vstd::prelude::*;
use vstd::slice::slice_subrange;
use vstd::string::*;
use vstd::utf8::*;

verus! {

/// The parts of a text between colons; at least one.
pub open spec fn colon_parts(text: Seq<char>) -> Seq<Seq<char>>
    decreases text.len(),
{
    if text.len() == 0 {
        seq![Seq::<char>::empty()]
    } else {
        let parts = colon_parts(text.drop_last());
        if text.last() == ':' {
            parts.push(Seq::<char>::empty())
        } else {
            parts.update(parts.len() - 1, parts.last().push(text.last()))
        }
    }
}

/// The parts of a text between colons that are not empty.
pub open spec fn listed_paths(text: Seq<char>) -> Seq<Seq<char>> {
    colon_parts(text).filter(|part: Seq<char>| part.len() > 0)
}

/// The paths of alternates.
pub open spec fn paths(alternates: Seq<Alternate>) -> Seq<Seq<char>> {
    alternates.map_values(|alternate: Alternate| alternate.path@)
}

proof fn lemma_parts_filter(parts: Seq<Seq<char>>, n: int)
    requires
        0 < n <= parts.len(),
    ensures
        ({
            let keep = |part: Seq<char>| part.len() > 0;
            parts.take(n).filter(keep) == if parts[n - 1].len() > 0 {
                parts.take(n - 1).filter(keep).push(parts[n - 1])
            } else {
                parts.take(n - 1).filter(keep)
            }
        }),
{
    reveal(Seq::filter);
    assert(parts.take(n).drop_last() =~= parts.take(n - 1));
}

/// Adds the paths that a colon-separated list gives.
fn add_listed(text: &str, alternates: &mut Vec<Alternate>)
    ensures
        paths(final(alternates)@) == paths(old(alternates)@) + listed_paths(text@),
{
    let ghost keep = |part: Seq<char>| part.len() > 0;
    let ghost before = paths(alternates@);
    let len: usize = text.unicode_len();
    let mut start: usize = 0;
    let mut i: usize = 0;
    let ghost mut done = Seq::<Seq<char>>::empty();
    proof {
        assert(done.filter(keep) =~= Seq::empty()) by {
            reveal(Seq::filter);
        }
        assert(paths(alternates@) =~= before + done.filter(keep));
        assert(text@.subrange(0, 0) =~= Seq::<char>::empty());
        assert(colon_parts(text@.take(0)) =~= done.push(text@.subrange(0, 0)));
    }
    while i < len
        invariant
            start <= i <= len == text@.len(),
            keep == (|part: Seq<char>| part.len() > 0),
            before == paths(old(alternates)@),
            paths(alternates@) == before + done.filter(keep),
            colon_parts(text@.take(i as int)) == done.push(text@.subrange(start as int, i as int)),
        decreases len - i,
    {
        proof {
            assert(text@.take(i + 1).drop_last() =~= text@.take(i as int));
            assert(text@.take(i + 1).last() == text@[i as int]);
        }
        let ghost whole = done.push(text@.subrange(start as int, i as int));
        if text.get_char(i) == ':' {
            let ghost part = text@.subrange(start as int, i as int);
            let ghost shown = paths(alternates@);
            if i > start {
                alternates.push(Alternate { path: String::from_str(text.substring_char(start, i)) });
                assert(paths(alternates@) =~= shown.push(part));
            }
            proof {
                lemma_parts_filter(whole, whole.len() as int);
                assert(whole.take(whole.len() as int) =~= whole);
                assert(whole.take(whole.len() - 1) =~= done);
                done = whole;
                assert(paths(alternates@) =~= before + done.filter(keep));
                assert(text@.subrange(i + 1, i + 1) =~= Seq::<char>::empty());
                assert(colon_parts(text@.take(i + 1)) =~= done.push(text@.subrange(i + 1, i + 1)));
            }
            start = i + 1;
        } else {
            proof {
                assert(whole.last().push(text@[i as int]) =~= text@.subrange(start as int, i + 1));
                assert(whole.update(whole.len() - 1, whole.last().push(text@[i as int])) =~= done.push(
                    text@.subrange(start as int, i + 1),
                ));
            }
        }
        i += 1;
    }
    let ghost part = text@.subrange(start as int, i as int);
    let ghost whole = done.push(part);
    let ghost shown = paths(alternates@);
    if i > start {
        alternates.push(Alternate { path: String::from_str(text.substring_char(start, i)) });
        assert(paths(alternates@) =~= shown.push(part));
    }
    proof {
        lemma_parts_filter(whole, whole.len() as int);
        assert(whole.take(whole.len() as int) =~= whole);
        assert(whole.take(whole.len() - 1) =~= done);
        assert(text@.take(i as int) =~= text@);
        assert(paths(alternates@) =~= before + listed_paths(text@));
    }
}

/// A path as seen from a directory: itself where it is absolute.
pub open spec fn joined(dir: Seq<char>, path: Seq<char>) -> Seq<char> {
    if has_prefix(path, "/"@) {
        path
    } else if dir.len() == 0 || has_suffix(dir, "/"@) {
        dir + path
    } else {
        dir + "/"@ + path
    }
}

fn join_path(dir: &str, path: &str) -> (out: String)
    ensures
        out@ == joined(dir@, path@),
{
    if starts_with(path, "/") {
        String::from_str(path)
    } else if dir.unicode_len() == 0 || strip_suffix(dir, "/").is_some() {
        concat2(dir, path)
    } else {
        concat3(dir, "/", path)
    }
}

/// A line without the carriage return at its end.
pub open spec fn without_return(line: Seq<u8>) -> Seq<u8> {
    if line.len() > 0 && line.last() == 13 {
        line.drop_last()
    } else {
        line
    }
}

/// The path that a line of an `alternates` file gives; none for an empty line,
/// a comment, and what is not a text.
pub open spec fn line_path(dir: Seq<char>, part: Seq<u8>) -> Option<Seq<char>> {
    let line = without_return(part);
    if line.len() == 0 || line[0] == 35 || !valid_utf8(line) {
        None
    } else {
        Some(joined(dir, decode_utf8(line)))
    }
}

/// The paths that the lines of an `alternates` file give.
pub open spec fn file_paths(dir: Seq<char>, parts: Seq<Seq<u8>>) -> Seq<Seq<char>>
    decreases parts.len(),
{
    if parts.len() == 0 {
        Seq::empty()
    } else {
        let rest = file_paths(dir, parts.drop_last());
        match line_path(dir, parts.last()) {
            Some(path) => rest.push(path),
            None => rest,
        }
    }
}

/// The other object directories that a repository draws on: those of the
/// colon-separated list in the environment, then those of its `alternates`
/// file, relative ones as seen from its own object directory.
pub fn alternate_object_dirs(objects_dir: &str, listed: Option<&str>, file: Option<&[u8]>) -> (alternates: Vec<
    Alternate,
>)
    ensures
        paths(alternates@) == match listed {
            Some(text) => listed_paths(text@),
            None => Seq::empty(),
        } + match file {
            Some(bytes) => file_paths(objects_dir@, newline_parts(bytes@)),
            None => Seq::empty(),
        },
{
    let mut alternates: Vec<Alternate> = Vec::new();
    let ghost nothing = Seq::<Seq<char>>::empty();
    assert(paths(alternates@) =~= nothing);
    match listed {
        Some(text) => {
            add_listed(text, &mut alternates);
            assert(nothing + listed_paths(text@) =~= listed_paths(text@));
        },
        None => {},
    }
    let ghost first = paths(alternates@);
    match file {
        Some(bytes) => {
            let parts = split_newlines(bytes);
            let ghost all = newline_parts(bytes@);
            let mut i: usize = 0;
            assert(all.take(0) =~= Seq::empty());
            assert(first + file_paths(objects_dir@, all.take(0)) =~= first);
            while i < parts.len()
                invariant
                    i <= parts@.len(),
                    byte_views(parts@) == all,
                    paths(alternates@) == first + file_paths(objects_dir@, all.take(i as int)),
                decreases parts@.len() - i,
            {
                proof {
                    assert(all.take(i + 1).drop_last() =~= all.take(i as int));
                    assert(all.take(i + 1).last() == parts@[i as int]@);
                }
                let part = parts[i].as_slice();
                let mut end: usize = part.len();
                if end > 0 && part[end - 1] == 13 {
                    end -= 1;
                }
                let line = slice_subrange(part, 0, end);
                assert(line@ =~= without_return(part@));
                let ghost shown = paths(alternates@);
                if end > 0 && line[0] != 35 {
                    match read_utf8(line) {
                        Ok(text) => {
                            let path = join_path(objects_dir, text.as_str());
                            let ghost added = path@;
                            alternates.push(Alternate { path });
                            assert(paths(alternates@) =~= shown.push(added));
                        },
                        Err(_) => {},
                    }
                }
                assert(paths(alternates@) =~= first + file_paths(objects_dir@, all.take(i + 1)));
                i += 1;
            }
            assert(all.take(i as int) =~= all);
        },
        None => {
            assert(first + nothing =~= first);
        },
    }
    alternates
}

/// The directory that the worktrees of a repository share.
pub open spec fn common_dir(git_dir: Seq<char>, named: Option<Seq<char>>, file: Option<Seq<u8>>) -> Seq<char> {
    match (named, file) {
        (Some(dir), _) => dir,
        (None, Some(bytes)) => if valid_utf8(bytes) {
            joined(git_dir, trimmed(decode_utf8(bytes)))
        } else {
            git_dir
        },
        (None, None) => git_dir,
    }
}

/// The text, where there is one.
pub open spec fn text_of(text: Option<&str>) -> Option<Seq<char>> {
    match text {
        Some(text) => Some(text@),
        None => None,
    }
}

/// The bytes, where there are any.
pub open spec fn bytes_of(bytes: Option<&[u8]>) -> Option<Seq<u8>> {
    match bytes {
        Some(bytes) => Some(bytes@),
        None => None,
    }
}

/// The directory that the worktrees of a repository share: the one that the
/// environment names, else the one that the `commondir` file names, as seen from
/// the git directory, else the git directory itself.
pub fn repository_common_dir(git_dir: &str, named: Option<&str>, file: Option<&[u8]>) -> (dir: String)
    ensures
        dir@ == common_dir(git_dir@, text_of(named), bytes_of(file)),
{
    match named {
        Some(dir) => {
            return String::from_str(dir);
        },
        None => {},
    }
    match file {
        Some(bytes) => match read_utf8(bytes) {
            Ok(text) => {
                let path = trim(text.as_str());
                join_path(git_dir, path.as_str())
            },
            Err(_) => String::from_str(git_dir),
        },
        None => String::from_str(git_dir),
    }
}

/// The object directory of a repository: the one that the environment names,
/// else `objects` in the common directory.
pub fn repository_objects_dir(object_dir: Option<&str>, common_dir: &str) -> (dir: String)
    ensures
        dir@ == match object_dir {
            Some(dir) => dir@,
            None => joined(common_dir@, "objects"@),
        },
{
    match object_dir {
        Some(dir) => String::from_str(dir),
        None => join_path(common_dir, "objects"),
    }
}

} // verus!
