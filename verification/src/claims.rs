//! Which crate formats which file. Targets of different crates may reach the
//! same file; the first crate to claim it keeps it.

use crate::keyed::{find_key, keys_distinct, lemma_find_key, lemma_find_key_unique};
use crate::path::{same_path, FilePath};
use crate::types::Edition;
use vstd::prelude::*;

verus! {

/// Where a crate declared a target.
#[derive(Debug)]
pub struct ClaimSite {
    pub name: String,
    pub edition: Edition,
    pub manifest_path: FilePath,
}

/// What a claim site holds.
pub struct Site {
    pub name: Seq<char>,
    pub edition: Edition,
    pub manifest: Seq<u8>,
}

impl View for ClaimSite {
    type V = Site;

    open spec fn view(&self) -> Site {
        Site { name: self.name@, edition: self.edition, manifest: self.manifest_path@ }
    }
}

impl Clone for ClaimSite {
    fn clone(&self) -> (s: ClaimSite)
        ensures
            s@ == self@,
    {
        ClaimSite {
            name: self.name.clone(),
            edition: self.edition,
            manifest_path: self.manifest_path.clone(),
        }
    }
}

/// Files with their claimants.
pub type Claimed = Seq<(Seq<u8>, Site)>;

pub open spec fn is_claimed(s: Claimed, file: Seq<u8>) -> bool {
    find_key(s, file) < s.len()
}

/// The claims after `site` has claimed each of `files` that nobody had.
pub open spec fn claims_after(s: Claimed, files: Seq<Seq<u8>>, site: Site) -> Claimed
    decreases files.len(),
{
    if files.len() == 0 {
        s
    } else {
        let before = claims_after(s, files.drop_last(), site);
        if is_claimed(before, files.last()) {
            before
        } else {
            before.push((files.last(), site))
        }
    }
}

/// Those of `files` that nobody had claimed when their turn came.
pub open spec fn owned(s: Claimed, files: Seq<Seq<u8>>, site: Site) -> Seq<Seq<u8>>
    decreases files.len(),
{
    if files.len() == 0 {
        files
    } else {
        let before = claims_after(s, files.drop_last(), site);
        let front = owned(s, files.drop_last(), site);
        if is_claimed(before, files.last()) {
            front
        } else {
            front.push(files.last())
        }
    }
}

/// The others of `files`, each with the claimant that keeps it and `site`.
pub open spec fn contested(s: Claimed, files: Seq<Seq<u8>>, site: Site) -> Seq<
    (Seq<u8>, Site, Site),
>
    decreases files.len(),
{
    if files.len() == 0 {
        Seq::empty()
    } else {
        let before = claims_after(s, files.drop_last(), site);
        let front = contested(s, files.drop_last(), site);
        if is_claimed(before, files.last()) {
            front.push((files.last(), before[find_key(before, files.last())].1, site))
        } else {
            front
        }
    }
}

/// One claimed file.
#[derive(Debug)]
pub struct Claim {
    pub file: FilePath,
    pub site: ClaimSite,
}

/// A file that a second crate wanted.
#[derive(Debug)]
pub struct Collision {
    pub file: FilePath,
    pub first: ClaimSite,
    pub second: ClaimSite,
}

/// The bytes of each of a sequence of paths.
pub open spec fn path_views(v: Seq<FilePath>) -> Seq<Seq<u8>> {
    v.map_values(|p: FilePath| p@)
}

/// What a sequence of collisions holds.
pub open spec fn collision_views(v: Seq<Collision>) -> Seq<(Seq<u8>, Site, Site)> {
    v.map_values(|c: Collision| (c.file@, c.first@, c.second@))
}

/// The claims of all crates so far.
#[derive(Debug)]
pub struct Claims {
    entries: Vec<Claim>,
}

impl View for Claims {
    type V = Claimed;

    closed spec fn view(&self) -> Claimed {
        self.entries@.map_values(|c: Claim| (c.file@, c.site@))
    }
}

impl Claims {
    pub fn new() -> (c: Claims)
        ensures
            c@ == Seq::<(Seq<u8>, Site)>::empty(),
    {
        let c = Claims { entries: Vec::new() };
        assert(c@ =~= Seq::empty());
        c
    }

    fn position(&self, file: &FilePath) -> (k: usize)
        ensures
            k == find_key(self@, file@),
            k <= self.entries@.len(),
            self.entries@.len() == self@.len(),
    {
        let mut k: usize = 0;
        while k < self.entries.len() && !self.entries[k].file.same(file)
            invariant
                k <= self.entries@.len(),
                forall|i: int| 0 <= i < k ==> !same_path((#[trigger] self@[i]).0, file@),
            decreases self.entries@.len() - k,
        {
            k += 1;
        }
        proof {
            if k < self.entries@.len() {
                assert(self@[k as int].0 == self.entries@[k as int].file@);
            }
            lemma_find_key_unique(self@, file@, k as int);
        }
        k
    }

    /// Claims each of a crate's entry points. Returns the files that the crate
    /// owns, and the collisions with earlier claims.
    pub fn collect_entry_points(&mut self, site: &ClaimSite, files: Vec<FilePath>) -> (r: (
        Vec<FilePath>,
        Vec<Collision>,
    ))
        ensures
            final(self)@ == claims_after(old(self)@, path_views(files@), site@),
            path_views(r.0@) == owned(old(self)@, path_views(files@), site@),
            collision_views(r.1@) == contested(old(self)@, path_views(files@), site@),
    {
        let ghost start = self@;
        let ghost all = path_views(files@);
        let mut mine: Vec<FilePath> = Vec::new();
        let mut collisions: Vec<Collision> = Vec::new();
        assert(all.take(0) =~= Seq::<Seq<u8>>::empty());
        assert(path_views(mine@) =~= Seq::<Seq<u8>>::empty());
        assert(collision_views(collisions@) =~= Seq::empty());
        for file in it: files
            invariant
                path_views(it.seq()) == all,
                start == old(self)@,
                self@ == claims_after(start, all.take(it.index() as int), site@),
                path_views(mine@) == owned(start, all.take(it.index() as int), site@),
                collision_views(collisions@) == contested(
                    start,
                    all.take(it.index() as int),
                    site@,
                ),
        {
            let ghost n = it.index() as int;
            assert(all.take(n + 1).drop_last() =~= all.take(n));
            assert(all.take(n + 1).last() == file@);
            let ghost before = self@;
            let ghost mine_before = mine@;
            let ghost collisions_before = collisions@;
            let k = self.position(&file);
            if k < self.entries.len() {
                assert(self@[k as int].1 == self.entries@[k as int].site@);
                let first = self.entries[k].site.clone();
                collisions.push(Collision { file, first, second: site.clone() });
                assert(collision_views(collisions@) =~= collision_views(collisions_before).push(
                    (file@, before[k as int].1, site@),
                ));
            } else {
                self.entries.push(Claim { file: file.clone(), site: site.clone() });
                assert(self@ =~= before.push((file@, site@)));
                mine.push(file);
                assert(path_views(mine@) =~= path_views(mine_before).push(file@));
            }
        }
        assert(all.take(all.len() as int) =~= all);
        (mine, collisions)
    }
}

/// The files that the crates format together: each crate, in its turn, those
/// that it owns.
pub open spec fn formatted(s: Claimed, crates: Seq<(Seq<Seq<u8>>, Site)>) -> Seq<Seq<u8>>
    decreases crates.len(),
{
    if crates.len() == 0 {
        Seq::empty()
    } else {
        let front = crates.drop_last();
        formatted(s, front) + owned(claimed_by(s, front), crates.last().0, crates.last().1)
    }
}

/// The claims after each of the crates has had its turn.
pub open spec fn claimed_by(s: Claimed, crates: Seq<(Seq<Seq<u8>>, Site)>) -> Claimed
    decreases crates.len(),
{
    if crates.len() == 0 {
        s
    } else {
        claims_after(claimed_by(s, crates.drop_last()), crates.last().0, crates.last().1)
    }
}

/// The files of the claims, in their order.
pub open spec fn claimed_files(s: Claimed) -> Seq<Seq<u8>> {
    s.map_values(|c: (Seq<u8>, Site)| c.0)
}

proof fn lemma_claims_after(s: Claimed, files: Seq<Seq<u8>>, site: Site)
    ensures
        claimed_files(claims_after(s, files, site)) == claimed_files(s) + owned(s, files, site),
    decreases files.len(),
{
    if files.len() > 0 {
        lemma_claims_after(s, files.drop_last(), site);
        let before = claims_after(s, files.drop_last(), site);
        let front = owned(s, files.drop_last(), site);
        if !is_claimed(before, files.last()) {
            assert(claimed_files(before.push((files.last(), site))) =~= claimed_files(before).push(
                files.last(),
            ));
            assert((claimed_files(s) + front).push(files.last()) =~= claimed_files(s) + front.push(
                files.last(),
            ));
        }
    }
    assert(claimed_files(claims_after(s, files, site)) =~= claimed_files(s) + owned(
        s,
        files,
        site,
    ));
}

proof fn lemma_claimed_by(s: Claimed, crates: Seq<(Seq<Seq<u8>>, Site)>)
    ensures
        claimed_files(claimed_by(s, crates)) == claimed_files(s) + formatted(s, crates),
    decreases crates.len(),
{
    if crates.len() > 0 {
        let front = crates.drop_last();
        lemma_claimed_by(s, front);
        lemma_claims_after(claimed_by(s, front), crates.last().0, crates.last().1);
    }
    assert(claimed_files(claimed_by(s, crates)) =~= claimed_files(s) + formatted(s, crates));
}

proof fn lemma_distinct_after(s: Claimed, files: Seq<Seq<u8>>, site: Site)
    requires
        keys_distinct(s),
    ensures
        keys_distinct(claims_after(s, files, site)),
        s.is_prefix_of(claims_after(s, files, site)),
        forall|i: int|
            0 <= i < files.len() ==> is_claimed(claims_after(s, files, site), #[trigger] files[i]),
    decreases files.len(),
{
    if files.len() > 0 {
        let front = files.drop_last();
        lemma_distinct_after(s, front, site);
        let before = claims_after(s, front, site);
        let after = claims_after(s, files, site);
        let file = files.last();
        lemma_find_key(before, file);
        if !is_claimed(before, file) {
            assert(after =~= before.push((file, site)));
            assert forall|i: int, j: int| 0 <= i < j < after.len() implies !same_path(
                (#[trigger] after[i]).0,
                (#[trigger] after[j]).0,
            ) by {
                assert(after[i] == before[i]);
                if j < before.len() {
                    assert(after[j] == before[j]);
                }
            }
        }
        assert(before.is_prefix_of(after));
        assert forall|i: int| 0 <= i < files.len() implies is_claimed(
            after,
            #[trigger] files[i],
        ) by {
            lemma_find_key(after, files[i]);
            if i < front.len() {
                assert(is_claimed(before, front[i]));
                lemma_find_key(before, files[i]);
                let k = find_key(before, files[i]);
                assert(after[k] == before[k]);
            } else if is_claimed(before, file) {
                let k = find_key(before, file);
                assert(after[k] == before[k]);
            } else {
                assert(after[before.len() as int] == (file, site));
            }
        }
    }
}

proof fn lemma_distinct_by(s: Claimed, crates: Seq<(Seq<Seq<u8>>, Site)>)
    requires
        keys_distinct(s),
    ensures
        keys_distinct(claimed_by(s, crates)),
        forall|c: int, i: int|
            0 <= c < crates.len() && 0 <= i < crates[c].0.len() ==> is_claimed(
                claimed_by(s, crates),
                #[trigger] crates[c].0[i],
            ),
    decreases crates.len(),
{
    if crates.len() > 0 {
        let front = crates.drop_last();
        lemma_distinct_by(s, front);
        let before = claimed_by(s, front);
        lemma_distinct_after(before, crates.last().0, crates.last().1);
        let after = claimed_by(s, crates);
        assert forall|c: int, i: int|
            0 <= c < crates.len() && 0 <= i < crates[c].0.len() implies is_claimed(
            after,
            #[trigger] crates[c].0[i],
        ) by {
            let file = crates[c].0[i];
            if c < front.len() {
                assert(front[c] == crates[c]);
                assert(is_claimed(before, front[c].0[i]));
                lemma_find_key(before, file);
                lemma_find_key(after, file);
                let k = find_key(before, file);
                assert(after[k] == before[k]);
            } else {
                assert(crates[c] == crates.last());
                assert(is_claimed(after, crates.last().0[i]));
            }
        }
    }
}

/// Over all crates, every entry point is formatted, and none twice.
pub proof fn every_entry_point_is_formatted_once(crates: Seq<(Seq<Seq<u8>>, Site)>)
    ensures
        forall|i: int, j: int|
            0 <= i < j < formatted(Seq::empty(), crates).len() ==> !same_path(
                #[trigger] formatted(Seq::empty(), crates)[i],
                #[trigger] formatted(Seq::empty(), crates)[j],
            ),
        forall|c: int, i: int|
            0 <= c < crates.len() && 0 <= i < crates[c].0.len() ==> exists|k: int|
                0 <= k < formatted(Seq::empty(), crates).len() && same_path(
                    #[trigger] formatted(Seq::empty(), crates)[k],
                    #[trigger] crates[c].0[i],
                ),
{
    let none: Claimed = Seq::empty();
    let files = formatted(none, crates);
    let claims = claimed_by(none, crates);
    lemma_claimed_by(none, crates);
    lemma_distinct_by(none, crates);
    assert(claimed_files(none) + files =~= files);
    assert forall|i: int| 0 <= i < files.len() implies #[trigger] files[i] == claims[i].0 by {
        assert(claimed_files(claims)[i] == claims[i].0);
    }
    assert(claimed_files(claims).len() == claims.len());
    assert forall|c: int, i: int|
        0 <= c < crates.len() && 0 <= i < crates[c].0.len() implies exists|k: int|
        0 <= k < files.len() && same_path(#[trigger] files[k], #[trigger] crates[c].0[i]) by {
        let file = crates[c].0[i];
        lemma_find_key(claims, file);
        let k = find_key(claims, file);
        assert(same_path(files[k], file));
    }
}

/// A claim is never taken away: whoever claimed a file first keeps it.
pub proof fn first_claim_wins(s: Claimed, files: Seq<Seq<u8>>, site: Site, file: Seq<u8>)
    requires
        is_claimed(s, file),
    ensures
        find_key(claims_after(s, files, site), file) == find_key(s, file),
        claims_after(s, files, site)[find_key(s, file)] == s[find_key(s, file)],
    decreases files.len(),
{
    if files.len() > 0 {
        first_claim_wins(s, files.drop_last(), site, file);
        let before = claims_after(s, files.drop_last(), site);
        let after = claims_after(s, files, site);
        let k = find_key(s, file);
        lemma_find_key(s, file);
        lemma_find_key(before, file);
        lemma_claims_after(s, files.drop_last(), site);
        assert(claimed_files(before).len() == before.len());
        assert(claimed_files(s).len() == s.len());
        assert forall|i: int| 0 <= i < k implies !same_path((#[trigger] after[i]).0, file) by {
            assert(after[i] == before[i]);
        }
        assert(after[k] == before[k]);
        lemma_find_key_unique(after, file, k);
    }
}

} // verus!
