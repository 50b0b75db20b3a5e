//! Searches that walk up from a directory.

use crate::path::{join, lemma_parent_shorter, parent, same_path, FilePath};
use vstd::prelude::*;
use vstd::utf8::encode_utf8;

verus! {

/// The configuration files that may govern the directory `start`, nearest first:
/// two names per directory, up to `root` inclusive, or up to the top where
/// `root` is not on the way.
pub open spec fn config_candidates(start: Seq<u8>, root: Seq<u8>) -> Seq<Seq<u8>>
    decreases start.len(),
{
    let here = seq![join(start, encode_utf8(".rustfmt.toml"@)), join(start, encode_utf8("rustfmt.toml"@))];
    if same_path(start, root) {
        here
    } else {
        match parent(start) {
            Some(up) => {
                proof {
                    lemma_parent_shorter(start);
                }
                here + config_candidates(up, root)
            },
            None => here,
        }
    }
}

/// The manifests at or above the directory `start`, nearest first.
pub open spec fn manifest_candidates(start: Seq<u8>) -> Seq<Seq<u8>>
    decreases start.len(),
{
    let here = seq![join(start, encode_utf8("Cargo.toml"@))];
    match parent(start) {
        Some(up) => {
            proof {
                lemma_parent_shorter(start);
            }
            here + manifest_candidates(up)
        },
        None => here,
    }
}

/// Whether `is_file` gave this answer for the path `t`.
pub open spec fn answered<F: Fn(&FilePath) -> bool>(is_file: F, t: Seq<u8>, answer: bool) -> bool {
    exists|p: FilePath| #[trigger] call_ensures(is_file, (&p,), answer) && p@ == t
}

/// Whether `r` is the first of the candidates that `is_file` affirmed, or none
/// where it affirmed none.
pub open spec fn is_first<F: Fn(&FilePath) -> bool>(
    is_file: F,
    candidates: Seq<Seq<u8>>,
    r: Option<FilePath>,
) -> bool {
    match r {
        Some(p) => exists|n: int|
            #![trigger candidates[n]]
            0 <= n < candidates.len() && p@ == candidates[n] && answered(
                is_file,
                candidates[n],
                true,
            ) && refused(is_file, candidates.take(n)),
        None => refused(is_file, candidates),
    }
}

/// Whether `is_file` refused every one of the candidates.
pub open spec fn refused<F: Fn(&FilePath) -> bool>(
    is_file: F,
    candidates: Seq<Seq<u8>>,
) -> bool {
    forall|i: int|
        0 <= i < candidates.len() ==> answered(is_file, #[trigger] candidates[i], false)
}

proof fn lemma_refused_push<F: Fn(&FilePath) -> bool>(
    is_file: F,
    seen: Seq<Seq<u8>>,
    t: Seq<u8>,
)
    requires
        refused(is_file, seen),
        answered(is_file, t, false),
    ensures
        refused(is_file, seen.push(t)),
{
    let all = seen.push(t);
    assert forall|i: int| 0 <= i < all.len() implies answered(
        is_file,
        #[trigger] all[i],
        false,
    ) by {
        if i < seen.len() {
            assert(all[i] == seen[i]);
        }
    }
}

/// The rustfmt configuration that governs the directory `start`: the nearest
/// one, walking up to `root` inclusive. `.rustfmt.toml` goes before
/// `rustfmt.toml`.
pub fn find_nearest_config<F: Fn(&FilePath) -> bool>(
    start: &FilePath,
    root: &FilePath,
    is_file: F,
) -> (r: Option<FilePath>)
    requires
        forall|p: FilePath| #[trigger] call_requires(is_file, (&p,)),
    ensures
        is_first(is_file, config_candidates(start@, root@), r),
{
    let ghost all = config_candidates(start@, root@);
    let ghost mut seen: Seq<Seq<u8>> = Seq::empty();
    let mut dir = start.clone();
    assert(seen + config_candidates(dir@, root@) =~= all);
    loop
        invariant
            forall|p: FilePath| #[trigger] call_requires(is_file, (&p,)),
            all == config_candidates(start@, root@),
            all == seen + config_candidates(dir@, root@),
            refused(is_file, seen),
        decreases dir@.len(),
    {
        let ghost n = seen.len() as int;
        let ghost rest = config_candidates(dir@, root@);
        assert(rest.len() >= 2);
        let hidden = dir.join(".rustfmt.toml");
        assert(all[n] == rest[0]);
        assert(all.take(n) =~= seen);
        if is_file(&hidden) {
            return Some(hidden);
        }
        proof {
            assert(call_ensures(is_file, (&hidden,), false));
            lemma_refused_push(is_file, seen, hidden@);
            seen = seen.push(hidden@);
        }
        let plain = dir.join("rustfmt.toml");
        assert(all[n + 1] == rest[1]);
        assert(all.take(n + 1) =~= seen);
        if is_file(&plain) {
            return Some(plain);
        }
        proof {
            assert(call_ensures(is_file, (&plain,), false));
            lemma_refused_push(is_file, seen, plain@);
            seen = seen.push(plain@);
        }
        if dir.same(root) {
            assert(seen =~= all);
            return None;
        }
        match dir.parent() {
            Some(up) => {
                proof {
                    lemma_parent_shorter(dir@);
                    assert(seen + config_candidates(up@, root@) =~= all);
                }
                dir = up;
            },
            None => {
                assert(seen =~= all);
                return None;
            },
        }
    }
}

/// The nearest manifest at or above the directory `start`.
pub fn find_manifest_upward<F: Fn(&FilePath) -> bool>(start: &FilePath, is_file: F) -> (r: Option<
    FilePath,
>)
    requires
        forall|p: FilePath| #[trigger] call_requires(is_file, (&p,)),
    ensures
        is_first(is_file, manifest_candidates(start@), r),
{
    let ghost all = manifest_candidates(start@);
    let ghost mut seen: Seq<Seq<u8>> = Seq::empty();
    let mut dir = start.clone();
    assert(seen + manifest_candidates(dir@) =~= all);
    loop
        invariant
            forall|p: FilePath| #[trigger] call_requires(is_file, (&p,)),
            all == manifest_candidates(start@),
            all == seen + manifest_candidates(dir@),
            refused(is_file, seen),
        decreases dir@.len(),
    {
        let ghost n = seen.len() as int;
        let ghost rest = manifest_candidates(dir@);
        assert(rest.len() >= 1);
        let candidate = dir.join("Cargo.toml");
        assert(all[n] == rest[0]);
        assert(all.take(n) =~= seen);
        if is_file(&candidate) {
            return Some(candidate);
        }
        proof {
            assert(call_ensures(is_file, (&candidate,), false));
            lemma_refused_push(is_file, seen, candidate@);
            seen = seen.push(candidate@);
        }
        match dir.parent() {
            Some(up) => {
                proof {
                    lemma_parent_shorter(dir@);
                    assert(seen + manifest_candidates(up@) =~= all);
                }
                dir = up;
            },
            None => {
                assert(seen =~= all);
                return None;
            },
        }
    }
}

/// Whether the effective manifest is the workspace root's, given the resolved
/// path of each (none where it could not be resolved).
pub fn at_workspace_root(ws_manifest: &Option<FilePath>, effective: &Option<FilePath>) -> (r: bool)
    ensures
        r == (ws_manifest is Some && effective is Some && same_path(
            ws_manifest->0@,
            effective->0@,
        )),
{
    match (ws_manifest, effective) {
        (Some(a), Some(b)) => b.same(a),
        _ => false,
    }
}

/// A nearer configuration wins: every candidate of the directory itself goes
/// before every candidate of the directories above it.
pub proof fn nearer_config_goes_first(start: Seq<u8>, root: Seq<u8>)
    requires
        !same_path(start, root),
        parent(start) is Some,
    ensures
        config_candidates(start, root).take(2) == seq![
            join(start, encode_utf8(".rustfmt.toml"@)),
            join(start, encode_utf8("rustfmt.toml"@)),
        ],
        config_candidates(start, root).skip(2) == config_candidates(parent(start)->0, root),
{
    let c = config_candidates(start, root);
    assert(c.take(2) =~= seq![join(start, encode_utf8(".rustfmt.toml"@)), join(start, encode_utf8("rustfmt.toml"@))]);
    assert(c.skip(2) =~= config_candidates(parent(start)->0, root));
}

} // verus!
