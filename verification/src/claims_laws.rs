//! What holds of every crate's claims, and of what discovery gathers.

use crate::claims::{
    claims_after, collision_views, contested, owned, path_views, Claimed, Collision, Site,
};
use crate::discover::{govern, governed_views, resolved_targets, see, Governed, Governee, SeenEdition};
use crate::keyed::{lemma_find_key, lemma_find_key_unique};
use crate::order::{sorted, sorting_orders_and_keeps, text_le, Ranked};
use crate::path::{path_le, same_path, FilePath};
use crate::types::Edition;
use vstd::prelude::*;

verus! {

/// Every target has its entry point: the resolved path where there is one, and
/// else the path as it was declared.
pub proof fn every_target_is_resolved(targets: Seq<FilePath>, resolved: Seq<Option<FilePath>>)
    ensures
        resolved_targets(targets, resolved).len() == targets.len(),
        forall|i: int|
            0 <= i < targets.len() && (#[trigger] resolved[i]) is Some ==> resolved_targets(
                targets,
                resolved,
            )[i] == resolved[i]->0@,
        forall|i: int|
            0 <= i < targets.len() && (#[trigger] resolved[i]) is None ==> resolved_targets(
                targets,
                resolved,
            )[i] == targets[i]@,
{
}

proof fn lemma_kept(s: Claimed, files: Seq<Seq<u8>>, site: Site)
    ensures
        s.is_prefix_of(claims_after(s, files, site)),
        forall|i: int|
            0 <= i < files.len() ==> exists|k: int|
                0 <= k < claims_after(s, files, site).len() && same_path(
                    (#[trigger] claims_after(s, files, site)[k]).0,
                    #[trigger] files[i],
                ),
    decreases files.len(),
{
    if files.len() > 0 {
        let front = files.drop_last();
        lemma_kept(s, front, site);
        let before = claims_after(s, front, site);
        let after = claims_after(s, files, site);
        lemma_find_key(before, files.last());
        assert(before.is_prefix_of(after));
        assert forall|i: int| 0 <= i < files.len() implies exists|k: int|
            0 <= k < after.len() && same_path((#[trigger] after[k]).0, #[trigger] files[i]) by {
            if i < front.len() {
                assert(front[i] == files[i]);
                let k = choose|k: int|
                    0 <= k < before.len() && same_path((#[trigger] before[k]).0, front[i]);
                assert(after[k] == before[k]);
            } else if crate::claims::is_claimed(before, files.last()) {
                let k = crate::keyed::find_key(before, files.last());
                assert(after[k] == before[k]);
            } else {
                assert(after[before.len() as int] == (files.last(), site));
            }
        }
    }
}

/// Once a package has been entered, the entry point of each of its targets is
/// claimed, whoever claims it, and every earlier claim still stands.
pub proof fn every_target_is_claimed(
    s: Claimed,
    targets: Seq<FilePath>,
    resolved: Seq<Option<FilePath>>,
    site: Site,
)
    requires
        targets.len() == resolved.len(),
    ensures
        ({
            let after = claims_after(s, resolved_targets(targets, resolved), site);
            &&& s.is_prefix_of(after)
            &&& forall|i: int|
                0 <= i < targets.len() ==> exists|k: int|
                    0 <= k < after.len() && same_path(
                        (#[trigger] after[k]).0,
                        match #[trigger] resolved[i] {
                            Some(p) => p@,
                            None => targets[i]@,
                        },
                    )
        }),
{
    let files = resolved_targets(targets, resolved);
    let after = claims_after(s, files, site);
    lemma_kept(s, files, site);
    assert forall|i: int| 0 <= i < targets.len() implies exists|k: int|
        0 <= k < after.len() && same_path(
            (#[trigger] after[k]).0,
            match #[trigger] resolved[i] {
                Some(p) => p@,
                None => targets[i]@,
            },
        ) by {
        let k = choose|k: int|
            0 <= k < after.len() && same_path((#[trigger] after[k]).0, files[i]);
        assert(same_path(after[k].0, files[i]));
    }
}

/// Without files nothing is claimed, owned or contested.
pub proof fn no_files_claim_nothing(s: Claimed, site: Site)
    ensures
        claims_after(s, Seq::empty(), site) == s,
        owned(s, Seq::empty(), site).len() == 0,
        contested(s, Seq::empty(), site).len() == 0,
{
}

/// A file that nobody has claimed goes to the crate whose turn it is.
pub proof fn an_unclaimed_file_is_owned(s: Claimed, files: Seq<Seq<u8>>, file: Seq<u8>, site: Site)
    requires
        forall|i: int|
            0 <= i < claims_after(s, files, site).len() ==> !same_path(
                (#[trigger] claims_after(s, files, site)[i]).0,
                file,
            ),
    ensures
        claims_after(s, files.push(file), site) == claims_after(s, files, site).push((file, site)),
        owned(s, files.push(file), site) == owned(s, files, site).push(file),
        contested(s, files.push(file), site) == contested(s, files, site),
{
    let c = claims_after(s, files, site);
    assert(files.push(file).drop_last() =~= files);
    lemma_find_key(c, file);
}

/// A file that was claimed stays with the first that claimed it: the crate
/// whose turn it is does not own it, and the collision names both.
pub proof fn a_claimed_file_is_contested(
    s: Claimed,
    files: Seq<Seq<u8>>,
    file: Seq<u8>,
    site: Site,
    k: int,
)
    requires
        0 <= k < claims_after(s, files, site).len(),
        same_path(claims_after(s, files, site)[k].0, file),
        forall|i: int|
            0 <= i < k ==> !same_path((#[trigger] claims_after(s, files, site)[i]).0, file),
    ensures
        claims_after(s, files.push(file), site) == claims_after(s, files, site),
        owned(s, files.push(file), site) == owned(s, files, site),
        contested(s, files.push(file), site) == contested(s, files, site).push(
            (file, claims_after(s, files, site)[k].1, site),
        ),
{
    let c = claims_after(s, files, site);
    assert(files.push(file).drop_last() =~= files);
    lemma_find_key_unique(c, file, k);
}

/// What is owned and what is contested are together all of the files.
pub proof fn files_are_owned_or_contested(s: Claimed, files: Seq<Seq<u8>>, site: Site)
    ensures
        owned(s, files, site).len() + contested(s, files, site).len() == files.len(),
        claims_after(s, files, site).len() == s.len() + owned(s, files, site).len(),
    decreases files.len(),
{
    if files.len() > 0 {
        files_are_owned_or_contested(s, files.drop_last(), site);
    }
}

/// What vectors of paths and collisions hold is what each element holds.
pub proof fn claims_hold_each_file(paths: Seq<FilePath>, collisions: Seq<Collision>)
    ensures
        path_views(paths).len() == paths.len(),
        forall|i: int| 0 <= i < paths.len() ==> path_views(paths)[i] == (#[trigger] paths[i])@,
        collision_views(collisions).len() == collisions.len(),
        forall|i: int|
            0 <= i < collisions.len() ==> collision_views(collisions)[i] == (
                (#[trigger] collisions[i]).file@,
                collisions[i].first@,
                collisions[i].second@,
            ),
{
}

/// Each edition is kept once, with the first crate that was seen to use it.
pub proof fn an_edition_keeps_its_first_crate(
    seen: Seq<SeenEdition>,
    edition: Edition,
    name: String,
)
    ensures
        seen.is_prefix_of(see(seen, edition, name)),
        exists|i: int|
            0 <= i < see(seen, edition, name).len() && (#[trigger] see(
                seen,
                edition,
                name,
            )[i]).edition == edition,
        (forall|i: int| 0 <= i < seen.len() ==> (#[trigger] seen[i]).edition != edition) ==> see(
            seen,
            edition,
            name,
        ).len() == seen.len() + 1 && see(seen, edition, name).last().edition == edition && see(
            seen,
            edition,
            name,
        ).last().name == name,
        forall|i: int|
            0 <= i < seen.len() && (#[trigger] seen[i]).edition == edition ==> see(
                seen,
                edition,
                name,
            ).len() == seen.len(),
{
    let after = see(seen, edition, name);
    if exists|i: int| 0 <= i < seen.len() && (#[trigger] seen[i]).edition == edition {
        let i = choose|i: int| 0 <= i < seen.len() && (#[trigger] seen[i]).edition == edition;
        assert(after[i].edition == edition);
    } else {
        assert(after[seen.len() as int].edition == edition);
    }
}

/// A crate is noted under the configuration that governs it, at the end of those
/// that are there; the other configurations stay as they are.
pub proof fn a_governed_crate_is_noted(
    g: Seq<(Seq<u8>, Seq<Governee>)>,
    config: Seq<u8>,
    who: Governee,
    k: int,
)
    requires
        0 <= k <= g.len(),
        forall|i: int| 0 <= i < k ==> !same_path((#[trigger] g[i]).0, config),
        k < g.len() ==> same_path(g[k].0, config),
    ensures
        k < g.len() ==> govern(g, config, who).len() == g.len() && govern(g, config, who)[k] == (
            g[k].0,
            g[k].1.push(who),
        ),
        k == g.len() ==> govern(g, config, who).len() == g.len() + 1 && govern(
            g,
            config,
            who,
        )[k].0 == config && govern(g, config, who)[k].1 == seq![who],
        forall|i: int|
            0 <= i < g.len() && i != k ==> (#[trigger] govern(g, config, who)[i]) == g[i],
{
    lemma_find_key_unique(g, config, k);
}

/// What a vector of configurations holds is what each of them holds.
pub proof fn governed_hold_each_configuration(v: Seq<Governed>)
    ensures
        governed_views(v).len() == v.len(),
        forall|i: int|
            0 <= i < v.len() ==> governed_views(v)[i] == (
                (#[trigger] v[i]).config@,
                v[i].crates@,
            ),
{
}

/// Editions are told by year, governed crates by name and configurations by path.
pub proof fn findings_are_in_order(
    seen: Seq<SeenEdition>,
    crates: Seq<Governee>,
    configs: Seq<Governed>,
)
    ensures
        sorted(seen).to_multiset() == seen.to_multiset(),
        sorted(crates).to_multiset() == crates.to_multiset(),
        sorted(configs).to_multiset() == configs.to_multiset(),
        forall|i: int, j: int|
            0 <= i <= j < sorted(seen).len() ==> text_le(
                (#[trigger] sorted(seen)[i]).edition.year(),
                (#[trigger] sorted(seen)[j]).edition.year(),
            ),
        forall|i: int, j: int|
            0 <= i <= j < sorted(crates).len() ==> text_le(
                (#[trigger] sorted(crates)[i]).name@,
                (#[trigger] sorted(crates)[j]).name@,
            ),
        forall|i: int, j: int|
            0 <= i <= j < sorted(configs).len() ==> path_le(
                (#[trigger] sorted(configs)[i]).config@,
                (#[trigger] sorted(configs)[j]).config@,
            ),
{
    sorting_orders_and_keeps(seen);
    sorting_orders_and_keeps(crates);
    sorting_orders_and_keeps(configs);
    assert forall|i: int, j: int| 0 <= i <= j < sorted(seen).len() implies text_le(
        (#[trigger] sorted(seen)[i]).edition.year(),
        (#[trigger] sorted(seen)[j]).edition.year(),
    ) by {
        assert(sorted(seen)[i].ranks_le(sorted(seen)[j]));
    }
    assert forall|i: int, j: int| 0 <= i <= j < sorted(crates).len() implies text_le(
        (#[trigger] sorted(crates)[i]).name@,
        (#[trigger] sorted(crates)[j]).name@,
    ) by {
        assert(sorted(crates)[i].ranks_le(sorted(crates)[j]));
    }
    assert forall|i: int, j: int| 0 <= i <= j < sorted(configs).len() implies path_le(
        (#[trigger] sorted(configs)[i]).config@,
        (#[trigger] sorted(configs)[j]).config@,
    ) by {
        assert(sorted(configs)[i].ranks_le(sorted(configs)[j]));
    }
}

} // verus!
