//! Discovery: which crates to format, with which entry points. rustfmt itself
//! walks the `mod` tree from each entry point.

use crate::bytes::shown;
use crate::cache::{has_fingerprint, put, Build, Cache};
use crate::claims::{
    claims_after, collision_views, contested, owned, path_views, Claimed, Claims, ClaimSite,
    Collision, Site,
};
use crate::keyed::{find_key, lemma_find_key_unique};
use crate::manifest::{cargo_toml_declares_edition, declares_edition, text_view};
use crate::metadata::{holds_text, Package};
use crate::order::{
    lemma_text_le_total, lemma_text_le_transitive, sorted, stable_sort, text_le, texts_in_order,
    Ranked,
};
use crate::path::{
    below, parent, path_le, path_order_is_total, path_order_is_transitive, same_path, FilePath,
};
use crate::text::views;
use crate::types::{cargo_year, edition_of, CrateUnit, Edition, Error, UnknownEdition};
use vstd::prelude::*;

verus! {

/// The workspace root as cargo reported it and in resolved form. The two often
/// differ; paths are shown relative to either.
#[derive(Debug)]
pub struct WsRoots {
    raw: FilePath,
    canon: FilePath,
}

/// `p` below the raw root, below the resolved one, or as it is.
pub open spec fn relative(p: Seq<u8>, raw: Seq<u8>, canon: Seq<u8>) -> Seq<u8> {
    match below(p, raw) {
        Some(r) => r,
        None => match below(p, canon) {
            Some(r) => r,
            None => p,
        },
    }
}

impl WsRoots {
    pub closed spec fn raw_path(&self) -> Seq<u8> {
        self.raw@
    }

    pub closed spec fn canon_path(&self) -> Seq<u8> {
        self.canon@
    }

    /// The root `raw`, with its resolved form where it could be resolved.
    pub fn new(raw: FilePath, canon: Option<FilePath>) -> (w: WsRoots)
        ensures
            w.raw_path() == raw@,
            w.canon_path() == match canon {
                Some(c) => c@,
                None => raw@,
            },
    {
        let canon = match canon {
            Some(c) => c,
            None => raw.clone(),
        };
        WsRoots { raw, canon }
    }

    /// The root as cargo reported it.
    pub fn raw(&self) -> (p: &FilePath)
        ensures
            p@ == self.raw_path(),
    {
        &self.raw
    }

    /// `p` without the workspace root in front, where it has that.
    pub fn rel(&self, p: &FilePath) -> (r: FilePath)
        ensures
            r@ == relative(p@, self.raw_path(), self.canon_path()),
    {
        match p.strip_prefix(&self.raw) {
            Some(r) => r,
            None => match p.strip_prefix(&self.canon) {
                Some(r) => r,
                None => p.clone(),
            },
        }
    }
}

/// An edition, with the first crate that was seen to use it.
#[derive(Debug)]
pub struct SeenEdition {
    pub edition: Edition,
    pub name: String,
}

impl Ranked for SeenEdition {
    open spec fn ranks_le(self, other: Self) -> bool {
        text_le(self.edition.year(), other.edition.year())
    }

    proof fn ranks_total(a: Self, b: Self) {
        lemma_text_le_total(a.edition.year(), b.edition.year());
    }

    proof fn ranks_transitive(a: Self, b: Self, c: Self) {
        lemma_text_le_transitive(a.edition.year(), b.edition.year(), c.edition.year());
    }

    fn at_or_before(&self, other: &Self) -> (r: bool) {
        texts_in_order(self.edition.as_str(), other.edition.as_str())
    }
}

/// A crate that a configuration file governs.
#[derive(Debug)]
pub struct Governee {
    pub name: String,
    pub edition: Edition,
}

impl Ranked for Governee {
    open spec fn ranks_le(self, other: Self) -> bool {
        text_le(self.name@, other.name@)
    }

    proof fn ranks_total(a: Self, b: Self) {
        lemma_text_le_total(a.name@, b.name@);
    }

    proof fn ranks_transitive(a: Self, b: Self, c: Self) {
        lemma_text_le_transitive(a.name@, b.name@, c.name@);
    }

    fn at_or_before(&self, other: &Self) -> (r: bool) {
        texts_in_order(self.name.as_str(), other.name.as_str())
    }
}

/// A rustfmt configuration file, with the crates that it governs.
#[derive(Debug)]
pub struct Governed {
    pub config: FilePath,
    pub crates: Vec<Governee>,
}

impl Ranked for Governed {
    open spec fn ranks_le(self, other: Self) -> bool {
        path_le(self.config@, other.config@)
    }

    proof fn ranks_total(a: Self, b: Self) {
        path_order_is_total(a.config@, b.config@);
    }

    proof fn ranks_transitive(a: Self, b: Self, c: Self) {
        path_order_is_transitive(a.config@, b.config@, c.config@);
    }

    fn at_or_before(&self, other: &Self) -> (r: bool) {
        self.config.at_or_before(&other.config)
    }
}

/// What a sequence of governed configurations holds.
pub open spec fn governed_views(v: Seq<Governed>) -> Seq<(Seq<u8>, Seq<Governee>)> {
    v.map_values(|g: Governed| (g.config@, g.crates@))
}

/// The editions seen after a crate of this edition and name.
pub open spec fn see(seen: Seq<SeenEdition>, edition: Edition, name: String) -> Seq<SeenEdition> {
    if exists|i: int| 0 <= i < seen.len() && (#[trigger] seen[i]).edition == edition {
        seen
    } else {
        seen.push(SeenEdition { edition, name })
    }
}

/// The configurations after one of them was found to govern a crate.
pub open spec fn govern(
    g: Seq<(Seq<u8>, Seq<Governee>)>,
    config: Seq<u8>,
    who: Governee,
) -> Seq<(Seq<u8>, Seq<Governee>)> {
    let k = find_key(g, config);
    if k < g.len() {
        g.update(k, (g[k].0, g[k].1.push(who)))
    } else {
        g.push((config, seq![who]))
    }
}

/// The entry points of a crate: each in resolved form, or as declared where it
/// could not be resolved.
pub open spec fn resolved_targets(
    targets: Seq<FilePath>,
    resolved: Seq<Option<FilePath>>,
) -> Seq<Seq<u8>> {
    Seq::new(
        targets.len(),
        |i: int|
            match resolved[i] {
                Some(p) => p@,
                None => targets[i]@,
            },
    )
}

fn resolve_targets(targets: &Vec<FilePath>, resolved: Vec<Option<FilePath>>) -> (out: Vec<FilePath>)
    requires
        targets@.len() == resolved@.len(),
    ensures
        path_views(out@) == resolved_targets(targets@, resolved@),
{
    let ghost want = resolved_targets(targets@, resolved@);
    let mut out: Vec<FilePath> = Vec::new();
    for r in it: resolved
        invariant
            it.seq() == resolved@,
            targets@.len() == resolved@.len(),
            want == resolved_targets(targets@, resolved@),
            path_views(out@) == want.take(it.index() as int),
            out@.len() == it.index(),
    {
        let ghost before = out@;
        let p = match r {
            Some(p) => p,
            None => targets[out.len()].clone(),
        };
        out.push(p);
        assert(path_views(out@) =~= path_views(before).push(p@));
        assert(want.take(it.index() + 1) =~= want.take(it.index() as int).push(
            want[it.index() as int],
        ));
    }
    assert(want.take(want.len() as int) =~= want);
    out
}

/// A selected crate, before its files are claimed.
#[derive(Debug)]
pub struct TakenUp {
    pub edition: Edition,
    pub manifest_dir: FilePath,
}

/// A crate with entry points of its own, before its size is known.
#[derive(Debug)]
pub struct PendingUnit {
    pub edition: Edition,
    pub manifest_dir: FilePath,
    pub files: Vec<FilePath>,
}

impl PendingUnit {
    /// The unit of work, for a crate of this size.
    pub fn sized(self, size_bytes: u64) -> (u: CrateUnit)
        ensures
            u.edition == self.edition,
            u.manifest_dir@ == self.manifest_dir@,
            u.files@ == self.files@,
            u.size_bytes == size_bytes,
    {
        CrateUnit {
            edition: self.edition,
            manifest_dir: self.manifest_dir,
            files: self.files,
            size_bytes,
        }
    }

    /// The unit of work, unless the cache knows the crate as it now is. The
    /// fingerprint of a crate that is not skipped is staged.
    pub fn against(self, cache: &mut Cache, built: Build) -> (u: Option<CrateUnit>)
        ensures
            final(cache).retained() == old(cache).retained(),
            final(cache).tool_hash() == old(cache).tool_hash(),
            final(cache).location() == old(cache).location(),
            final(cache).is_kept(),
            match u {
                None => {
                    &&& has_fingerprint(
                        old(cache).retained(),
                        self.manifest_dir@,
                        built.fingerprint@,
                    )
                    &&& final(cache).pending() == old(cache).pending()
                },
                Some(unit) => {
                    &&& !has_fingerprint(
                        old(cache).retained(),
                        self.manifest_dir@,
                        built.fingerprint@,
                    )
                    &&& final(cache).pending() == put(
                        old(cache).pending(),
                        self.manifest_dir@,
                        built.fingerprint@,
                    )
                    &&& unit.edition == self.edition
                    &&& unit.manifest_dir@ == self.manifest_dir@
                    &&& unit.files@ == self.files@
                    &&& unit.size_bytes == built.size_bytes
                },
            },
    {
        proof {
            use_type_invariant(&*cache);
        }
        if cache.matches(&self.manifest_dir, &built.fingerprint) {
            return None;
        }
        cache.stage(self.manifest_dir.clone(), built.fingerprint);
        Some(self.sized(built.size_bytes))
    }
}

/// What discovery has learned so far.
#[derive(Debug)]
pub struct Discovery {
    selected: Vec<String>,
    warnings: bool,
    claims: Claims,
    seen: Vec<SeenEdition>,
    governed: Vec<Governed>,
    implicit: Vec<String>,
}

/// What discovery has to say at its end.
#[derive(Debug)]
pub struct Findings {
    /// The editions in use, by year.
    pub editions: Vec<SeenEdition>,
    /// The configuration files, by path.
    pub governed: Vec<Governed>,
    /// The crates that default to edition 2015.
    pub implicit_2015: Vec<String>,
}

impl Discovery {
    /// The ids of the packages to format.
    pub closed spec fn selected(&self) -> Seq<Seq<char>> {
        views(self.selected@)
    }

    /// Whether warnings are wanted.
    pub closed spec fn warns(&self) -> bool {
        self.warnings
    }

    pub closed spec fn claims(&self) -> Claimed {
        self.claims@
    }

    /// The editions in use.
    pub closed spec fn seen(&self) -> Seq<SeenEdition> {
        self.seen@
    }

    /// The configuration files that govern crates.
    pub closed spec fn governed(&self) -> Seq<Governed> {
        self.governed@
    }

    /// The crates without an edition key.
    pub closed spec fn implicit(&self) -> Seq<Seq<char>> {
        views(self.implicit@)
    }

    pub fn new(selected: Vec<String>, warnings: bool) -> (d: Discovery)
        ensures
            d.selected() == views(selected@),
            d.warns() == warnings,
            d.claims() == Seq::<(Seq<u8>, Site)>::empty(),
            d.seen() == Seq::<SeenEdition>::empty(),
            d.governed() == Seq::<Governed>::empty(),
            d.implicit() == Seq::<Seq<char>>::empty(),
    {
        let d = Discovery {
            selected,
            warnings,
            claims: Claims::new(),
            seen: Vec::new(),
            governed: Vec::new(),
            implicit: Vec::new(),
        };
        assert(d.implicit() =~= Seq::empty());
        d
    }

    /// Takes up a package, if it is selected. Fails on an edition that is not
    /// known and on a manifest without a directory.
    pub fn take_up(&mut self, pkg: &Package) -> (r: Result<Option<TakenUp>, Error>)
        ensures
            final(self).selected() == old(self).selected(),
            final(self).warns() == old(self).warns(),
            final(self).claims() == old(self).claims(),
            final(self).governed() == old(self).governed(),
            final(self).implicit() == old(self).implicit(),
            !old(self).selected().contains(pkg.id@) ==> {
                &&& r == Ok::<Option<TakenUp>, Error>(None)
                &&& final(self).seen() == old(self).seen()
            },
            old(self).selected().contains(pkg.id@) ==> match edition_of(cargo_year(pkg.edition)) {
                None => {
                    &&& final(self).seen() == old(self).seen()
                    &&& r matches Err(Error::UnsupportedEdition { edition, package })
                    &&& edition@ == cargo_year(pkg.edition)
                    &&& package@ == pkg.name@
                },
                Some(e) => {
                    &&& final(self).seen() == see(old(self).seen(), e, pkg.name)
                    &&& match parent(pkg.manifest_path@) {
                        Some(dir) => r matches Ok(Some(a)) && a.edition == e && a.manifest_dir@
                            == dir,
                        None => r matches Err(Error::Io(m)) && m@
                            == "manifest_path has no parent: "@ + shown(pkg.manifest_path@),
                    }
                },
            },
    {
        if !holds_text(&self.selected, pkg.id.as_str()) {
            return Ok(None);
        }
        let edition = match Edition::from_cargo(pkg.edition) {
            Ok(e) => e,
            Err(UnknownEdition(year)) => {
                return Err(Error::UnsupportedEdition { edition: year, package: pkg.name.clone() });
            },
        };
        self.note_edition(edition, &pkg.name);
        match pkg.manifest_path.parent() {
            Some(manifest_dir) => Ok(Some(TakenUp { edition, manifest_dir })),
            None => {
                let mut message = String::new();
                message.append("manifest_path has no parent: ");
                message.append(pkg.manifest_path.display().as_str());
                assert(message@ =~= "manifest_path has no parent: "@ + shown(pkg.manifest_path@));
                Err(Error::Io(message))
            },
        }
    }

    fn note_edition(&mut self, edition: Edition, name: &String)
        ensures
            final(self).selected() == old(self).selected(),
            final(self).warns() == old(self).warns(),
            final(self).claims() == old(self).claims(),
            final(self).governed() == old(self).governed(),
            final(self).implicit() == old(self).implicit(),
            final(self).seen() == see(old(self).seen(), edition, *name),
    {
        let mut i: usize = 0;
        while i < self.seen.len()
            invariant
                i <= self.seen@.len(),
                *self == *old(self),
                forall|k: int| 0 <= k < i ==> (#[trigger] self.seen@[k]).edition != edition,
            decreases self.seen@.len() - i,
        {
            if self.seen[i].edition == edition {
                return ;
            }
            i += 1;
        }
        self.seen.push(SeenEdition { edition, name: name.clone() });
    }

    fn note_config(&mut self, config: FilePath, who: Governee)
        ensures
            final(self).selected() == old(self).selected(),
            final(self).warns() == old(self).warns(),
            final(self).claims() == old(self).claims(),
            final(self).seen() == old(self).seen(),
            final(self).implicit() == old(self).implicit(),
            governed_views(final(self).governed()) == govern(
                governed_views(old(self).governed()),
                config@,
                who,
            ),
    {
        let ghost g = governed_views(self.governed@);
        let mut k: usize = 0;
        while k < self.governed.len() && !self.governed[k].config.same(&config)
            invariant
                k <= self.governed@.len(),
                *self == *old(self),
                g == governed_views(self.governed@),
                g.len() == self.governed@.len(),
                forall|i: int| 0 <= i < k ==> !same_path((#[trigger] g[i]).0, config@),
            decreases self.governed@.len() - k,
        {
            k += 1;
        }
        proof {
            if k < self.governed@.len() {
                assert(g[k as int].0 == self.governed@[k as int].config@);
                assert(g[k as int].1 == self.governed@[k as int].crates@);
            }
            lemma_find_key_unique(g, config@, k as int);
        }
        if k < self.governed.len() {
            self.governed[k].crates.push(who);
        } else {
            let mut crates: Vec<Governee> = Vec::new();
            crates.push(who);
            self.governed.push(Governed { config, crates });
            assert(crates@ =~= seq![who]);
        }
        assert(governed_views(self.governed@) =~= govern(g, config@, who));
    }

    /// Claims a package's entry points, given the configuration file
    /// that governs it, its manifest's content and its targets' resolved paths
    /// (each where it could be had; the first two matter only for warnings).
    /// Returns the crate if it has entry points of its own, and the collisions
    /// to warn about.
    pub fn enter(
        &mut self,
        pkg: &Package,
        taken: TakenUp,
        config: Option<FilePath>,
        content: &Option<String>,
        resolved: Vec<Option<FilePath>>,
    ) -> (r: (Option<PendingUnit>, Vec<Collision>))
        requires
            resolved@.len() == pkg.targets@.len(),
        ensures
            final(self).selected() == old(self).selected(),
            final(self).warns() == old(self).warns(),
            final(self).seen() == old(self).seen(),
            governed_views(final(self).governed()) == if old(self).warns() && config is Some {
                govern(
                    governed_views(old(self).governed()),
                    config->0@,
                    Governee { name: pkg.name, edition: taken.edition },
                )
            } else {
                governed_views(old(self).governed())
            },
            final(self).implicit() == if old(self).warns() && taken.edition == Edition::E2015
                && !declares_edition(text_view(*content)) {
                old(self).implicit().push(pkg.name@)
            } else {
                old(self).implicit()
            },
            ({
                let files = resolved_targets(pkg.targets@, resolved@);
                let site = Site {
                    name: pkg.name@,
                    edition: taken.edition,
                    manifest: pkg.manifest_path@,
                };
                let mine = owned(old(self).claims(), files, site);
                &&& final(self).claims() == claims_after(old(self).claims(), files, site)
                &&& collision_views(r.1@) == if old(self).warns() {
                    contested(old(self).claims(), files, site)
                } else {
                    Seq::empty()
                }
                &&& match r.0 {
                    Some(unit) => {
                        &&& mine.len() > 0
                        &&& path_views(unit.files@) == mine
                        &&& unit.edition == taken.edition
                        &&& unit.manifest_dir@ == taken.manifest_dir@
                    },
                    None => mine.len() == 0,
                }
            }),
    {
        let TakenUp { edition, manifest_dir } = taken;
        if self.warnings {
            if let Some(config) = config {
                self.note_config(config, Governee { name: pkg.name.clone(), edition });
            }
            if edition == Edition::E2015 && !cargo_toml_declares_edition(content) {
                let ghost before = self.implicit@;
                self.implicit.push(pkg.name.clone());
                assert(views(self.implicit@) =~= views(before).push(pkg.name@));
            }
        }
        let site = ClaimSite {
            name: pkg.name.clone(),
            edition,
            manifest_path: pkg.manifest_path.clone(),
        };
        let files = resolve_targets(&pkg.targets, resolved);
        let (mine, contested) = self.claims.collect_entry_points(&site, files);
        let collisions = if self.warnings {
            contested
        } else {
            Vec::new()
        };
        assert(!self.warnings ==> collision_views(collisions@) =~= Seq::empty());
        assert(path_views(mine@).len() == mine@.len());
        if mine.len() == 0 {
            (None, collisions)
        } else {
            (Some(PendingUnit { edition, manifest_dir, files: mine }), collisions)
        }
    }

    /// Discovery is over.
    pub fn finish(self) -> (f: Findings)
        ensures
            f.editions@ == sorted(self.seen()),
            f.governed@ == sorted(self.governed()),
            views(f.implicit_2015@) == self.implicit(),
    {
        Findings {
            editions: stable_sort(self.seen),
            governed: stable_sort(self.governed),
            implicit_2015: self.implicit,
        }
    }
}

} // verus!
