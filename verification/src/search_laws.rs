//! What holds of every search for a configuration, a manifest or a manifest's
//! line.

use crate::manifest::{line_hits, line_misses};
use crate::path::{join, parent, same_path, FilePath};
use crate::search::{answered, config_candidates, is_first, manifest_candidates, refused};
use crate::text::quoted_value;
use vstd::prelude::*;
use vstd::utf8::encode_utf8;

verus! {

/// The search for a configuration ends at the workspace root, and at the top
/// where the root is not on the way.
pub proof fn the_search_for_a_config_ends(start: Seq<u8>, root: Seq<u8>)
    requires
        same_path(start, root) || parent(start) is None,
    ensures
        config_candidates(start, root).len() == 2,
        config_candidates(start, root)[0] == join(start, encode_utf8(".rustfmt.toml"@)),
        config_candidates(start, root)[1] == join(start, encode_utf8("rustfmt.toml"@)),
{
}

/// The nearest manifest goes first, then those of the directories above, up to
/// the top.
pub proof fn nearer_manifest_goes_first(start: Seq<u8>)
    ensures
        manifest_candidates(start).len() > 0,
        manifest_candidates(start)[0] == join(start, encode_utf8("Cargo.toml"@)),
        parent(start) is Some ==> manifest_candidates(start).skip(1) == manifest_candidates(
            parent(start)->0,
        ),
        parent(start) is None ==> manifest_candidates(start).len() == 1,
{
    if parent(start) is Some {
        assert(manifest_candidates(start).skip(1) =~= manifest_candidates(parent(start)->0));
    }
}

/// Where whether a path is a file does not change, a search finds the first
/// candidate that is one, and nothing only where none is.
pub proof fn the_first_file_is_found<F: Fn(&FilePath) -> bool>(
    is_file: F,
    there: spec_fn(Seq<u8>) -> bool,
    candidates: Seq<Seq<u8>>,
    r: Option<FilePath>,
)
    requires
        forall|p: FilePath, b: bool| #[trigger]
            call_ensures(is_file, (&p,), b) ==> b == there(p@),
        is_first(is_file, candidates, r),
    ensures
        r is Some ==> exists|n: int|
            0 <= n < candidates.len() && r->0@ == #[trigger] candidates[n] && there(candidates[n])
                && forall|i: int| 0 <= i < n ==> !there(#[trigger] candidates[i]),
        r is None ==> forall|i: int| 0 <= i < candidates.len() ==> !there(#[trigger] candidates[i]),
{
    match r {
        Some(p) => {
            let n = choose|n: int|
                #![trigger candidates[n]]
                0 <= n < candidates.len() && p@ == candidates[n] && answered(
                    is_file,
                    candidates[n],
                    true,
                ) && refused(is_file, candidates.take(n));
            assert forall|i: int| 0 <= i < n implies !there(#[trigger] candidates[i]) by {
                assert(candidates.take(n)[i] == candidates[i]);
                assert(answered(is_file, candidates.take(n)[i], false));
            }
        },
        None => {
            assert forall|i: int| 0 <= i < candidates.len() implies !there(
                #[trigger] candidates[i],
            ) by {
                assert(answered(is_file, candidates[i], false));
            }
        },
    }
}

/// Where what a path resolves to does not change, a line hits a target exactly
/// where it names a path, below the manifest's directory, that resolves to it,
/// and misses it everywhere else.
pub proof fn a_line_hits_what_its_path_resolves_to<F: Fn(&FilePath) -> Option<FilePath>>(
    canonicalize: F,
    resolve: spec_fn(Seq<u8>) -> Option<Seq<u8>>,
    dir: Seq<u8>,
    line: Seq<char>,
    target: Seq<u8>,
)
    requires
        forall|p: FilePath, q: Option<FilePath>| #[trigger]
            call_ensures(canonicalize, (&p,), q) ==> (match q {
                Some(x) => resolve(p@) == Some(x@),
                None => resolve(p@) is None,
            }),
    ensures
        line_hits(canonicalize, dir, line, target) ==> {
            let named = quoted_value(line, "path"@);
            &&& named is Some
            &&& resolve(join(dir, encode_utf8(named->0))) is Some
            &&& same_path(resolve(join(dir, encode_utf8(named->0)))->0, target)
        },
        line_misses(canonicalize, dir, line, target) ==> {
            let named = quoted_value(line, "path"@);
            named is Some && resolve(join(dir, encode_utf8(named->0))) is Some ==> !same_path(
                resolve(join(dir, encode_utf8(named->0)))->0,
                target,
            )
        },
{
}

} // verus!
