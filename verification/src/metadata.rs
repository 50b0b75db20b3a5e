//! The workspace as cargo describes it, and which of its packages to format.

use crate::path::{join, same_path, FilePath};
use crate::text::{text_eq, views};
use crate::types::{Config, Error};
use cargo_metadata::Edition as CargoEdition;
use vstd::prelude::*;
use vstd::utf8::encode_utf8;

verus! {

/// One package of the workspace.
#[derive(Debug)]
pub struct Package {
    pub id: String,
    pub name: String,
    pub edition: CargoEdition,
    pub manifest_path: FilePath,
    /// The entry point of each target.
    pub targets: Vec<FilePath>,
}

/// The workspace.
#[derive(Debug)]
pub struct Metadata {
    pub packages: Vec<Package>,
    /// The ids of the members.
    pub workspace_members: Vec<String>,
    /// The ids of the default members; none from a cargo too old to tell.
    pub workspace_default_members: Option<Vec<String>>,
    /// The root of the resolved dependency graph, where it was resolved.
    pub resolve_root: Option<Option<String>>,
    pub workspace_root: FilePath,
}

/// The first package for which `f` holds.
pub open spec fn first_where(packages: Seq<Package>, f: spec_fn(Package) -> bool) -> Option<Package>
    decreases packages.len(),
{
    if packages.len() == 0 {
        None
    } else if f(packages[0]) {
        Some(packages[0])
    } else {
        first_where(packages.drop_first(), f)
    }
}

/// The ids of the packages for which `f` holds, in their order.
pub open spec fn ids_where(packages: Seq<Package>, f: spec_fn(Package) -> bool) -> Seq<Seq<char>>
    decreases packages.len(),
{
    if packages.len() == 0 {
        Seq::empty()
    } else {
        let front = ids_where(packages.drop_last(), f);
        if f(packages.last()) {
            front.push(packages.last().id@)
        } else {
            front
        }
    }
}

impl Metadata {
    pub open spec fn is_member(&self, p: Package) -> bool {
        views(self.workspace_members@).contains(p.id@)
    }

    /// Whether a member has this name.
    pub open spec fn is_member_name(&self, name: Seq<char>) -> bool {
        exists|i: int|
            0 <= i < self.packages@.len() && self.is_member(#[trigger] self.packages@[i])
                && self.packages@[i].name@ == name
    }

    /// The root package: the root of the resolved graph or, where it was not
    /// resolved, the package whose manifest is the workspace root's.
    pub open spec fn root(&self) -> Option<Package> {
        match self.resolve_root {
            Some(None) => None,
            Some(Some(id)) => first_where(self.packages@, |p: Package| p.id@ == id@),
            None => first_where(
                self.packages@,
                |p: Package| same_path(p.manifest_path@, join(self.workspace_root@, encode_utf8("Cargo.toml"@))),
            ),
        }
    }

    /// The root package, if there is one.
    pub fn root_package(&self) -> (r: Option<&Package>)
        ensures
            match r {
                Some(p) => self.root() == Some(*p),
                None => self.root() is None,
            },
    {
        match &self.resolve_root {
            Some(None) => None,
            Some(Some(id)) => {
                let ghost f = |p: Package| p.id@ == id@;
                let mut i: usize = 0;
                assert(self.packages@.skip(0) =~= self.packages@);
                while i < self.packages.len()
                    invariant
                        i <= self.packages@.len(),
                        f == (|p: Package| p.id@ == id@),
                        self.root() == first_where(self.packages@.skip(i as int), f),
                    decreases self.packages@.len() - i,
                {
                    assert(self.packages@.skip(i as int).drop_first() =~= self.packages@.skip(
                        i + 1,
                    ));
                    if text_eq(self.packages[i].id.as_str(), id.as_str()) {
                        return Some(&self.packages[i]);
                    }
                    i += 1;
                }
                None
            },
            None => {
                let root = self.workspace_root.join("Cargo.toml");
                let ghost f = |p: Package|
                    same_path(p.manifest_path@, join(self.workspace_root@, encode_utf8("Cargo.toml"@)));
                let mut i: usize = 0;
                assert(self.packages@.skip(0) =~= self.packages@);
                while i < self.packages.len()
                    invariant
                        i <= self.packages@.len(),
                        root@ == join(self.workspace_root@, encode_utf8("Cargo.toml"@)),
                        f == (|p: Package|
                            same_path(p.manifest_path@, join(self.workspace_root@, encode_utf8("Cargo.toml"@)))),
                        self.root() == first_where(self.packages@.skip(i as int), f),
                    decreases self.packages@.len() - i,
                {
                    assert(self.packages@.skip(i as int).drop_first() =~= self.packages@.skip(
                        i + 1,
                    ));
                    if self.packages[i].manifest_path.same(&root) {
                        return Some(&self.packages[i]);
                    }
                    i += 1;
                }
                None
            },
        }
    }

    /// The ids of the default packages.
    pub fn workspace_default_packages(&self) -> (ids: Vec<String>)
        requires
            self.workspace_default_members is Some,
        ensures
            views(ids@) == ids_where(
                self.packages@,
                |p: Package| views(self.workspace_default_members->0@).contains(p.id@),
            ),
    {
        let ghost f = |p: Package| views(self.workspace_default_members->0@).contains(p.id@);
        let mut ids: Vec<String> = Vec::new();
        let Some(defaults) = &self.workspace_default_members else {
            return ids;
        };
        let mut i: usize = 0;
        assert(self.packages@.take(0) =~= Seq::<Package>::empty());
        while i < self.packages.len()
            invariant
                i <= self.packages@.len(),
                self.workspace_default_members == Some(*defaults),
                f == (|p: Package| views(self.workspace_default_members->0@).contains(p.id@)),
                views(ids@) == ids_where(self.packages@.take(i as int), f),
            decreases self.packages@.len() - i,
        {
            assert(self.packages@.take(i + 1).drop_last() =~= self.packages@.take(i as int));
            let ghost before = ids@;
            if holds_text(defaults, self.packages[i].id.as_str()) {
                ids.push(self.packages[i].id.clone());
                assert(views(ids@) =~= views(before).push(self.packages@[i as int].id@));
            }
            i += 1;
        }
        assert(self.packages@.take(i as int) =~= self.packages@);
        ids
    }
}

/// Whether `texts` holds `t`.
pub fn holds_text(texts: &Vec<String>, t: &str) -> (r: bool)
    ensures
        r == views(texts@).contains(t@),
{
    let mut i: usize = 0;
    while i < texts.len()
        invariant
            i <= texts@.len(),
            forall|k: int| 0 <= k < i ==> (#[trigger] views(texts@)[k]) != t@,
        decreases texts@.len() - i,
    {
        if text_eq(texts[i].as_str(), t) {
            assert(views(texts@)[i as int] == t@);
            return true;
        }
        i += 1;
    }
    false
}

/// The names that no member has.
pub open spec fn unknown_names(names: Seq<Seq<char>>, m: Metadata) -> Seq<Seq<char>>
    decreases names.len(),
{
    if names.len() == 0 {
        names
    } else {
        let front = unknown_names(names.drop_last(), m);
        if m.is_member_name(names.last()) {
            front
        } else {
            front.push(names.last())
        }
    }
}

/// The ids of the packages to format, or the names that were asked for and do
/// not exist:
/// - with `all`, every member, whatever `packages` says;
/// - with `packages`, the members of those names, all of which must exist;
/// - at the workspace root, every member;
/// - otherwise the root package, or the default packages where there is none.
pub open spec fn selection(cfg: Config, m: Metadata, at_root: bool) -> Result<
    Seq<Seq<char>>,
    Seq<Seq<char>>,
> {
    let names = views(cfg.packages@);
    if cfg.all {
        Ok(views(m.workspace_members@))
    } else if names.len() > 0 {
        let unknown = unknown_names(names, m);
        if unknown.len() > 0 {
            Err(unknown)
        } else {
            Ok(
                ids_where(
                    m.packages@,
                    |p: Package| m.is_member(p) && names.contains(p.name@),
                ),
            )
        }
    } else if at_root {
        Ok(views(m.workspace_members@))
    } else {
        match m.root() {
            Some(p) => Ok(seq![p.id@]),
            None => Ok(
                ids_where(
                    m.packages@,
                    |p: Package| views(m.workspace_default_members->0@).contains(p.id@),
                ),
            ),
        }
    }
}

fn clone_texts(v: &Vec<String>) -> (out: Vec<String>)
    ensures
        views(out@) == views(v@),
{
    let mut out: Vec<String> = Vec::new();
    let mut i: usize = 0;
    while i < v.len()
        invariant
            i <= v@.len(),
            views(out@) == views(v@).take(i as int),
        decreases v@.len() - i,
    {
        let ghost before = out@;
        out.push(v[i].clone());
        assert(views(out@) =~= views(before).push(v@[i as int]@));
        assert(views(v@).take(i + 1) =~= views(v@).take(i as int).push(views(v@)[i as int]));
        i += 1;
    }
    assert(views(v@).take(i as int) =~= views(v@));
    out
}

fn is_known_name(m: &Metadata, name: &str) -> (r: bool)
    ensures
        r == m.is_member_name(name@),
{
    let mut i: usize = 0;
    while i < m.packages.len()
        invariant
            i <= m.packages@.len(),
            forall|k: int|
                0 <= k < i ==> !(m.is_member(#[trigger] m.packages@[k]) && m.packages@[k].name@
                    == name@),
        decreases m.packages@.len() - i,
    {
        if text_eq(m.packages[i].name.as_str(), name) && holds_text(
            &m.workspace_members,
            m.packages[i].id.as_str(),
        ) {
            assert(m.is_member(m.packages@[i as int]));
            return true;
        }
        i += 1;
    }
    false
}

/// Which packages to format. Cargo versions that do not report the default
/// members are supported only where they are not needed.
pub fn select_packages(cfg: &Config, m: &Metadata, at_root: bool) -> (r: Result<Vec<String>, Error>)
    requires
        m.workspace_default_members is Some || cfg.all || cfg.packages@.len() > 0 || at_root
            || m.root() is Some,
    ensures
        match r {
            Ok(ids) => selection(*cfg, *m, at_root) == Ok::<_, Seq<Seq<char>>>(views(ids@)),
            Err(Error::UnknownPackages(names)) => selection(*cfg, *m, at_root) == Err::<
                Seq<Seq<char>>,
                _,
            >(views(names@)),
            Err(_) => false,
        },
{
    assert(views(cfg.packages@).len() == cfg.packages@.len());
    if cfg.all {
        return Ok(clone_texts(&m.workspace_members));
    }
    if cfg.packages.len() > 0 {
        let ghost names = views(cfg.packages@);
        let mut unknown: Vec<String> = Vec::new();
        let mut i: usize = 0;
        assert(names.take(0) =~= Seq::<Seq<char>>::empty());
        assert(views(unknown@) =~= Seq::<Seq<char>>::empty());
        while i < cfg.packages.len()
            invariant
                i <= cfg.packages@.len(),
                names == views(cfg.packages@),
                names.len() == cfg.packages@.len(),
                views(unknown@) == unknown_names(names.take(i as int), *m),
            decreases cfg.packages@.len() - i,
        {
            assert(names.take(i + 1).drop_last() =~= names.take(i as int));
            assert(names[i as int] == cfg.packages@[i as int]@);
            let ghost before = unknown@;
            if !is_known_name(m, cfg.packages[i].as_str()) {
                unknown.push(cfg.packages[i].clone());
                assert(views(unknown@) =~= views(before).push(names[i as int]));
            }
            i += 1;
        }
        assert(names.take(i as int) =~= names);
        assert(views(unknown@).len() == unknown@.len());
        if unknown.len() > 0 {
            return Err(Error::UnknownPackages(unknown));
        }
        let ghost f = |p: Package| m.is_member(p) && names.contains(p.name@);
        let mut ids: Vec<String> = Vec::new();
        let mut k: usize = 0;
        assert(m.packages@.take(0) =~= Seq::<Package>::empty());
        assert(views(ids@) =~= Seq::<Seq<char>>::empty());
        while k < m.packages.len()
            invariant
                k <= m.packages@.len(),
                names == views(cfg.packages@),
                f == (|p: Package| m.is_member(p) && names.contains(p.name@)),
                views(ids@) == ids_where(m.packages@.take(k as int), f),
            decreases m.packages@.len() - k,
        {
            assert(m.packages@.take(k + 1).drop_last() =~= m.packages@.take(k as int));
            let ghost before = ids@;
            let p = &m.packages[k];
            if holds_text(&m.workspace_members, p.id.as_str()) && holds_text(
                &cfg.packages,
                p.name.as_str(),
            ) {
                ids.push(p.id.clone());
                assert(views(ids@) =~= views(before).push(p.id@));
            }
            k += 1;
        }
        assert(m.packages@.take(k as int) =~= m.packages@);
        return Ok(ids);
    }
    if at_root {
        return Ok(clone_texts(&m.workspace_members));
    }
    match m.root_package() {
        Some(p) => {
            let mut ids: Vec<String> = Vec::new();
            ids.push(p.id.clone());
            assert(views(ids@) =~= seq![p.id@]);
            Ok(ids)
        },
        None => Ok(m.workspace_default_packages()),
    }
}

/// An unknown package name is reported, unless `all` makes the names irrelevant.
pub proof fn unknown_names_are_reported(cfg: Config, m: Metadata, at_root: bool, i: int)
    requires
        0 <= i < cfg.packages@.len(),
        !m.is_member_name(cfg.packages@[i]@),
    ensures
        cfg.all ==> selection(cfg, m, at_root) == Ok::<_, Seq<Seq<char>>>(
            views(m.workspace_members@),
        ),
        !cfg.all ==> selection(cfg, m, at_root) is Err && selection(cfg, m, at_root)->Err_0.contains(
            cfg.packages@[i]@,
        ),
{
    let names = views(cfg.packages@);
    assert(names[i] == cfg.packages@[i]@);
    lemma_unknown_contains(names, m, i);
}

proof fn lemma_unknown_contains(names: Seq<Seq<char>>, m: Metadata, i: int)
    requires
        0 <= i < names.len(),
        !m.is_member_name(names[i]),
    ensures
        unknown_names(names, m).contains(names[i]),
    decreases names.len(),
{
    let front = unknown_names(names.drop_last(), m);
    let all = unknown_names(names, m);
    if i < names.len() - 1 {
        lemma_unknown_contains(names.drop_last(), m, i);
        let k = choose|k: int| 0 <= k < front.len() && front[k] == names[i];
        assert(all[k] == names[i]);
    } else {
        assert(all.last() == names[i]);
    }
}

/// Only members are selected by `all`, by name and at the workspace root.
pub proof fn only_members_are_selected(cfg: Config, m: Metadata, at_root: bool, id: Seq<char>)
    requires
        cfg.all || cfg.packages@.len() > 0 || at_root,
        selection(cfg, m, at_root) is Ok,
        selection(cfg, m, at_root)->Ok_0.contains(id),
    ensures
        views(m.workspace_members@).contains(id),
{
    let names = views(cfg.packages@);
    assert(names.len() == cfg.packages@.len());
    if !cfg.all && names.len() > 0 {
        lemma_ids_where(m.packages@, |p: Package| m.is_member(p) && names.contains(p.name@), id);
    }
}

proof fn lemma_ids_where(packages: Seq<Package>, f: spec_fn(Package) -> bool, id: Seq<char>)
    requires
        ids_where(packages, f).contains(id),
    ensures
        exists|i: int| 0 <= i < packages.len() && f(#[trigger] packages[i]) && packages[i].id@ == id,
    decreases packages.len(),
{
    if packages.len() > 0 {
        let front = ids_where(packages.drop_last(), f);
        let all = ids_where(packages, f);
        let k = choose|k: int| 0 <= k < all.len() && all[k] == id;
        if k < front.len() {
            assert(front[k] == id);
            lemma_ids_where(packages.drop_last(), f, id);
            let i = choose|i: int|
                0 <= i < packages.len() - 1 && f(#[trigger] packages.drop_last()[i])
                    && packages.drop_last()[i].id@ == id;
            assert(packages[i] == packages.drop_last()[i]);
        } else {
            assert(f(packages[packages.len() - 1]));
        }
    }
}

} // verus!
