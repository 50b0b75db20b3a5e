//! Line scans of `Cargo.toml` and `rustfmt.toml`. These are not TOML parsers,
//! just close enough for flat tables.

use crate::path::{join, parent, same_path, FilePath};
use crate::text::{
    chars_of, lines, lines_of, quoted_value, quoted_value_of, skip_space, skip_text, strip_prefix,
    trim_start, views,
};
use vstd::prelude::*;
use vstd::utf8::encode_utf8;

verus! {

/// Whether a line gives the key `edition` a value, or a table: `edition = ..`
/// or `edition.workspace = true`.
pub open spec fn is_edition_line(line: Seq<char>) -> bool {
    match strip_prefix(trim_start(line), "edition"@) {
        Some(rest) => {
            let r = trim_start(rest);
            r.len() > 0 && (r[0] == '=' || r[0] == '.')
        },
        None => false,
    }
}

/// Whether one of these lines does so.
pub open spec fn has_edition_line(ls: Seq<Seq<char>>) -> bool {
    exists|i: int| 0 <= i < ls.len() && is_edition_line(#[trigger] ls[i])
}

/// Whether a manifest declares an edition; one that could not be read is taken
/// to do so, to avoid a false warning.
pub open spec fn declares_edition(content: Option<Seq<char>>) -> bool {
    match content {
        Some(c) => has_edition_line(lines(c)),
        None => true,
    }
}

/// The text of an optional string.
pub open spec fn text_view(t: Option<String>) -> Option<Seq<char>> {
    match t {
        Some(s) => Some(s@),
        None => None,
    }
}

fn edition_line(line: &str) -> (r: bool)
    ensures
        r == is_edition_line(line@),
{
    let c = chars_of(line);
    assert(c@.skip(0) =~= c@);
    let i = skip_space(&c, 0);
    let Some(i) = skip_text(&c, i, "edition") else {
        return false;
    };
    let i = skip_space(&c, i);
    assert(i < c@.len() ==> c@.skip(i as int)[0] == c@[i as int]);
    i < c.len() && (c[i] == '=' || c[i] == '.')
}

/// Whether a manifest with this content (none when it could not be read)
/// declares an edition. Where it does not, cargo defaults to 2015.
pub fn cargo_toml_declares_edition(content: &Option<String>) -> (r: bool)
    ensures
        r == declares_edition(text_view(*content)),
{
    let Some(text) = content else {
        return true;
    };
    let ls = lines_of(text.as_str());
    let mut i: usize = 0;
    assert(lines(text@).len() == ls@.len());
    while i < ls.len()
        invariant
            i <= ls@.len(),
            views(ls@) == lines(text@),
            lines(text@).len() == ls@.len(),
            text_view(*content) == Some(text@),
            forall|k: int| 0 <= k < i ==> !is_edition_line(#[trigger] lines(text@)[k]),
        decreases ls@.len() - i,
    {
        assert(lines(text@)[i as int] == ls@[i as int]@);
        if edition_line(ls[i].as_str()) {
            return true;
        }
        i += 1;
    }
    false
}

/// The value of the first of these lines that gives `key` a quoted value.
pub open spec fn first_quoted(ls: Seq<Seq<char>>, key: Seq<char>) -> Option<Seq<char>>
    decreases ls.len(),
{
    if ls.len() == 0 {
        None
    } else {
        match quoted_value(ls[0], key) {
            Some(v) => Some(v),
            None => first_quoted(ls.drop_first(), key),
        }
    }
}

/// The edition that a `rustfmt.toml` with this content sets.
pub fn extract_toml_edition(content: &str) -> (r: Option<String>)
    ensures
        match r {
            Some(e) => first_quoted(lines(content@), "edition"@) == Some(e@),
            None => first_quoted(lines(content@), "edition"@) is None,
        },
{
    let ls = lines_of(content);
    let ghost all = lines(content@);
    let mut i: usize = 0;
    assert(all.skip(0) =~= all);
    while i < ls.len()
        invariant
            i <= ls@.len(),
            views(ls@) == all,
            all == lines(content@),
            all.len() == ls@.len(),
            first_quoted(all, "edition"@) == first_quoted(all.skip(i as int), "edition"@),
        decreases ls@.len() - i,
    {
        assert(all[i as int] == ls@[i as int]@);
        assert(all.skip(i as int).drop_first() =~= all.skip(i + 1));
        if let Some(v) = quoted_value_of(ls[i].as_str(), "edition") {
            return Some(v.to_owned());
        }
        i += 1;
    }
    None
}

/// The path in `path = "..."`, if that is what the line holds.
pub fn extract_path_string(line: &str) -> (r: Option<&str>)
    ensures
        match r {
            Some(v) => quoted_value(line@, "path"@) == Some(v@),
            None => quoted_value(line@, "path"@) is None,
        },
{
    quoted_value_of(line, "path")
}

/// Whether a line of the manifest in `dir` names a path that `canonicalize`
/// resolved to `target`.
pub open spec fn line_hits<F: Fn(&FilePath) -> Option<FilePath>>(
    canonicalize: F,
    dir: Seq<u8>,
    line: Seq<char>,
    target: Seq<u8>,
) -> bool {
    exists|p: FilePath, q: FilePath| #[trigger]
        call_ensures(canonicalize, (&p,), Some(q)) && quoted_value(line, "path"@) is Some && p@
            == join(dir, encode_utf8(quoted_value(line, "path"@)->0)) && same_path(q@, target)
}

/// Whether a line names no path, or one that `canonicalize` resolved to
/// something other than `target` or not at all.
pub open spec fn line_misses<F: Fn(&FilePath) -> Option<FilePath>>(
    canonicalize: F,
    dir: Seq<u8>,
    line: Seq<char>,
    target: Seq<u8>,
) -> bool {
    quoted_value(line, "path"@) is None || exists|p: FilePath, q: Option<FilePath>| #[trigger]
        call_ensures(canonicalize, (&p,), q) && p@ == join(dir, encode_utf8(quoted_value(line, "path"@)->0)) && (
        q is Some ==> !same_path(q->0@, target))
}

/// The first line of a manifest (its number, from 1, and its text) whose path
/// resolves to `target`.
pub fn find_target_path_line<F: Fn(&FilePath) -> Option<FilePath>>(
    manifest_path: &FilePath,
    content: &Option<String>,
    target: &FilePath,
    canonicalize: F,
) -> (r: Option<(usize, String)>)
    requires
        forall|p: FilePath| #[trigger] call_requires(canonicalize, (&p,)),
    ensures
        ({
            let dir = parent(manifest_path@);
            match r {
                Some((n, line)) => {
                    &&& dir is Some
                    &&& content is Some
                    &&& 1 <= n <= lines(content->0@).len()
                    &&& line@ == lines(content->0@)[n - 1]
                    &&& line_hits(canonicalize, dir->0, line@, target@)
                    &&& forall|i: int|
                        0 <= i < n - 1 ==> line_misses(
                            canonicalize,
                            dir->0,
                            #[trigger] lines(content->0@)[i],
                            target@,
                        )
                },
                None => dir is None || content is None || forall|i: int|
                    0 <= i < lines(content->0@).len() ==> line_misses(
                        canonicalize,
                        dir->0,
                        #[trigger] lines(content->0@)[i],
                        target@,
                    ),
            }
        }),
{
    let Some(dir) = manifest_path.parent() else {
        return None;
    };
    let Some(text) = content else {
        return None;
    };
    let ls = lines_of(text.as_str());
    let ghost all = lines(text@);
    let mut i: usize = 0;
    assert(all.len() == ls@.len());
    while i < ls.len()
        invariant
            i <= ls@.len(),
            views(ls@) == all,
            all.len() == ls@.len(),
            all == lines(content->0@),
            content is Some,
            parent(manifest_path@) == Some(dir@),
            forall|p: FilePath| #[trigger] call_requires(canonicalize, (&p,)),
            forall|k: int|
                0 <= k < i ==> line_misses(canonicalize, dir@, #[trigger] all[k], target@),
        decreases ls@.len() - i,
    {
        assert(all[i as int] == ls@[i as int]@);
        if let Some(quoted) = extract_path_string(ls[i].as_str()) {
            let candidate = dir.join(quoted);
            if let Some(resolved) = canonicalize(&candidate) {
                if resolved.same(target) {
                    assert(call_ensures(canonicalize, (&candidate,), Some(resolved)));
                    return Some((i + 1, ls[i].clone()));
                }
            }
        }
        i += 1;
    }
    None
}

} // verus!
