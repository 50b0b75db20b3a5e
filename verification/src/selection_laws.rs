//! What holds of every selection of packages.

use crate::metadata::{
    first_where, ids_where, select_packages, selection, unknown_names, Metadata, Package,
};
use crate::path::{join, same_path};
use crate::text::views;
use crate::types::{Config, Error};
use vstd::prelude::*;
use vstd::utf8::encode_utf8;

verus! {

/// With `all`, every member is selected, whatever else is asked for.
pub proof fn all_selects_every_member(cfg: Config, m: Metadata, at_root: bool)
    requires
        cfg.all,
    ensures
        selection(cfg, m, at_root) is Ok,
        selection(cfg, m, at_root)->Ok_0.len() == m.workspace_members@.len(),
        forall|i: int|
            0 <= i < m.workspace_members@.len() ==> selection(cfg, m, at_root)->Ok_0[i] == (
            #[trigger] m.workspace_members@[i])@,
{
}

/// At the workspace root, and without names, every member is selected, whether
/// or not there is a root package.
pub proof fn the_root_selects_every_member(cfg: Config, m: Metadata)
    requires
        !cfg.all,
        cfg.packages@.len() == 0,
    ensures
        selection(cfg, m, true) is Ok,
        selection(cfg, m, true)->Ok_0.len() == m.workspace_members@.len(),
        forall|i: int|
            0 <= i < m.workspace_members@.len() ==> selection(cfg, m, true)->Ok_0[i] == (
            #[trigger] m.workspace_members@[i])@,
{
    assert(views(cfg.packages@).len() == cfg.packages@.len());
}

/// With `all`, or at the workspace root without names, what is selected is the
/// ids of the members, all of them and in their order.
pub proof fn every_member_comes_out(
    cfg: Config,
    m: Metadata,
    at_root: bool,
    r: Result<Vec<String>, Error>,
)
    requires
        call_ensures(select_packages, (&cfg, &m, at_root), r),
        cfg.all || (cfg.packages@.len() == 0 && at_root),
    ensures
        r is Ok,
        r->Ok_0@.len() == m.workspace_members@.len(),
        forall|i: int|
            0 <= i < m.workspace_members@.len() ==> r->Ok_0@[i]@ == (
            #[trigger] m.workspace_members@[i])@,
{
    assert(views(cfg.packages@).len() == cfg.packages@.len());
    let ids = r->Ok_0@;
    assert(r is Ok);
    assert(views(ids).len() == ids.len());
    assert(views(m.workspace_members@).len() == m.workspace_members@.len());
    assert forall|i: int| 0 <= i < m.workspace_members@.len() implies ids[i]@ == (
    #[trigger] m.workspace_members@[i])@ by {
        assert(views(ids)[i] == ids[i]@);
        assert(views(m.workspace_members@)[i] == m.workspace_members@[i]@);
    }
}

proof fn lemma_views_contain(v: Seq<String>, t: Seq<char>)
    ensures
        views(v).contains(t) <==> exists|i: int| 0 <= i < v.len() && (#[trigger] v[i])@ == t,
{
    assert(views(v).len() == v.len());
    if exists|i: int| 0 <= i < v.len() && (#[trigger] v[i])@ == t {
        let i = choose|i: int| 0 <= i < v.len() && (#[trigger] v[i])@ == t;
        assert(views(v)[i] == t);
    }
    if views(v).contains(t) {
        let i = choose|i: int| 0 <= i < views(v).len() && views(v)[i] == t;
        assert(v[i]@ == t);
    }
}

/// A package is a member exactly where its id is among the members' ids.
pub proof fn members_are_listed(m: Metadata, p: Package)
    ensures
        m.is_member(p) <==> exists|i: int|
            0 <= i < m.workspace_members@.len() && (#[trigger] m.workspace_members@[i])@ == p.id@,
{
    lemma_views_contain(m.workspace_members@, p.id@);
}

proof fn lemma_ids_where_exact(packages: Seq<Package>, f: spec_fn(Package) -> bool, id: Seq<char>)
    ensures
        ids_where(packages, f).contains(id) <==> exists|i: int|
            0 <= i < packages.len() && f(#[trigger] packages[i]) && packages[i].id@ == id,
    decreases packages.len(),
{
    if packages.len() > 0 {
        let init = packages.drop_last();
        let front = ids_where(init, f);
        let all = ids_where(packages, f);
        lemma_ids_where_exact(init, f, id);
        assert(packages[packages.len() - 1] == packages.last());
        if exists|i: int|
            0 <= i < packages.len() && f(#[trigger] packages[i]) && packages[i].id@ == id {
            let i = choose|i: int|
                0 <= i < packages.len() && f(#[trigger] packages[i]) && packages[i].id@ == id;
            if i < init.len() {
                assert(init[i] == packages[i]);
                let k = choose|k: int| 0 <= k < front.len() && front[k] == id;
                assert(all[k] == id);
            } else {
                assert(all.last() == id);
            }
        }
        if all.contains(id) {
            let k = choose|k: int| 0 <= k < all.len() && all[k] == id;
            if k < front.len() {
                assert(front[k] == id);
                let i = choose|i: int|
                    0 <= i < init.len() && f(#[trigger] init[i]) && init[i].id@ == id;
                assert(packages[i] == init[i]);
            }
        }
    }
}

proof fn lemma_unknown_exact(names: Seq<Seq<char>>, m: Metadata, n: Seq<char>)
    ensures
        unknown_names(names, m).contains(n) <==> names.contains(n) && !m.is_member_name(n),
    decreases names.len(),
{
    if names.len() > 0 {
        let init = names.drop_last();
        let front = unknown_names(init, m);
        let all = unknown_names(names, m);
        lemma_unknown_exact(init, m, n);
        assert(names[names.len() - 1] == names.last());
        if names.contains(n) && !m.is_member_name(n) {
            let i = choose|i: int| 0 <= i < names.len() && names[i] == n;
            if i < init.len() {
                assert(init[i] == n);
                let k = choose|k: int| 0 <= k < front.len() && front[k] == n;
                assert(all[k] == n);
            } else {
                assert(all.last() == n);
            }
        }
        if all.contains(n) {
            let k = choose|k: int| 0 <= k < all.len() && all[k] == n;
            if k < front.len() {
                assert(front[k] == n);
                let i = choose|i: int| 0 <= i < init.len() && init[i] == n;
                assert(names[i] == n);
            }
        }
    }
}

/// Asking for packages by name fails exactly where some name is not that of a
/// member, and then tells just those names.
pub proof fn names_must_be_those_of_members(cfg: Config, m: Metadata, at_root: bool, n: Seq<char>)
    requires
        !cfg.all,
        cfg.packages@.len() > 0,
    ensures
        selection(cfg, m, at_root) is Err <==> exists|j: int|
            0 <= j < cfg.packages@.len() && forall|i: int|
                0 <= i < m.packages@.len() && m.is_member(#[trigger] m.packages@[i])
                    ==> m.packages@[i].name@ != (#[trigger] cfg.packages@[j])@,
        selection(cfg, m, at_root) is Err ==> (selection(cfg, m, at_root)->Err_0.contains(n) <==> (
        exists|j: int| 0 <= j < cfg.packages@.len() && (#[trigger] cfg.packages@[j])@ == n)
            && forall|i: int|
            0 <= i < m.packages@.len() && m.is_member(#[trigger] m.packages@[i])
                ==> m.packages@[i].name@ != n),
{
    let names = views(cfg.packages@);
    assert(names.len() == cfg.packages@.len());
    let unknown = unknown_names(names, m);
    lemma_unknown_exact(names, m, n);
    lemma_views_contain(cfg.packages@, n);
    assert forall|x: Seq<char>| !(#[trigger] m.is_member_name(x)) == forall|i: int|
        0 <= i < m.packages@.len() && m.is_member(#[trigger] m.packages@[i])
            ==> m.packages@[i].name@ != x by {}
    if unknown.len() > 0 {
        let x = unknown[0];
        lemma_unknown_exact(names, m, x);
        assert(unknown.contains(x));
        lemma_views_contain(cfg.packages@, x);
        let j = choose|j: int| 0 <= j < cfg.packages@.len() && (#[trigger] cfg.packages@[j])@ == x;
        assert(!m.is_member_name(cfg.packages@[j]@));
    }
    if exists|j: int|
        0 <= j < cfg.packages@.len() && forall|i: int|
            0 <= i < m.packages@.len() && m.is_member(#[trigger] m.packages@[i])
                ==> m.packages@[i].name@ != (#[trigger] cfg.packages@[j])@ {
        let j = choose|j: int|
            0 <= j < cfg.packages@.len() && forall|i: int|
                0 <= i < m.packages@.len() && m.is_member(#[trigger] m.packages@[i])
                    ==> m.packages@[i].name@ != (#[trigger] cfg.packages@[j])@;
        let x = cfg.packages@[j]@;
        assert(!m.is_member_name(x));
        assert(names[j] == x);
        lemma_unknown_exact(names, m, x);
        assert(unknown.contains(x));
    }
}

/// Asking for packages by name selects exactly the members of those names, all
/// of them.
pub proof fn names_select_all_their_members(
    cfg: Config,
    m: Metadata,
    at_root: bool,
    id: Seq<char>,
)
    requires
        !cfg.all,
        cfg.packages@.len() > 0,
        selection(cfg, m, at_root) is Ok,
    ensures
        selection(cfg, m, at_root)->Ok_0.contains(id) <==> exists|i: int, j: int|
            0 <= i < m.packages@.len() && 0 <= j < cfg.packages@.len() && m.is_member(
                #[trigger] m.packages@[i],
            ) && m.packages@[i].id@ == id && m.packages@[i].name@ == (
            #[trigger] cfg.packages@[j])@,
{
    let names = views(cfg.packages@);
    assert(names.len() == cfg.packages@.len());
    let f = |p: Package| m.is_member(p) && names.contains(p.name@);
    lemma_ids_where_exact(m.packages@, f, id);
    if exists|i: int, j: int|
        0 <= i < m.packages@.len() && 0 <= j < cfg.packages@.len() && m.is_member(
            #[trigger] m.packages@[i],
        ) && m.packages@[i].id@ == id && m.packages@[i].name@ == (#[trigger] cfg.packages@[j])@ {
        let (i, j) = choose|i: int, j: int|
            0 <= i < m.packages@.len() && 0 <= j < cfg.packages@.len() && m.is_member(
                #[trigger] m.packages@[i],
            ) && m.packages@[i].id@ == id && m.packages@[i].name@ == (
            #[trigger] cfg.packages@[j])@;
        lemma_views_contain(cfg.packages@, m.packages@[i].name@);
        assert(f(m.packages@[i]));
    }
    if selection(cfg, m, at_root)->Ok_0.contains(id) {
        let i = choose|i: int|
            0 <= i < m.packages@.len() && f(#[trigger] m.packages@[i]) && m.packages@[i].id@ == id;
        lemma_views_contain(cfg.packages@, m.packages@[i].name@);
    }
}

proof fn lemma_first_where(packages: Seq<Package>, f: spec_fn(Package) -> bool, k: int)
    requires
        0 <= k <= packages.len(),
        forall|i: int| 0 <= i < k ==> !f(#[trigger] packages[i]),
        k < packages.len() ==> f(packages[k]),
    ensures
        first_where(packages, f) == (if k < packages.len() {
            Some(packages[k])
        } else {
            None
        }),
    decreases packages.len(),
{
    if k > 0 {
        let rest = packages.drop_first();
        assert(!f(packages[0]));
        assert forall|i: int| 0 <= i < k - 1 implies !f(#[trigger] rest[i]) by {
            assert(rest[i] == packages[i + 1]);
        }
        if k < packages.len() {
            assert(rest[k - 1] == packages[k]);
        }
        lemma_first_where(rest, f, k - 1);
    }
}

/// Away from the root and without names, the root package alone is selected
/// where there is one: without a resolved graph, the first package whose
/// manifest is the `Cargo.toml` of the workspace root.
pub proof fn the_root_package_is_selected(cfg: Config, m: Metadata, k: int)
    requires
        !cfg.all,
        cfg.packages@.len() == 0,
        m.resolve_root is None,
        0 <= k < m.packages@.len(),
        same_path(
            m.packages@[k].manifest_path@,
            join(m.workspace_root@, encode_utf8("Cargo.toml"@)),
        ),
        forall|i: int|
            0 <= i < k ==> !same_path(
                (#[trigger] m.packages@[i]).manifest_path@,
                join(m.workspace_root@, encode_utf8("Cargo.toml"@)),
            ),
    ensures
        m.root() == Some(m.packages@[k]),
        selection(cfg, m, false) == Ok::<_, Seq<Seq<char>>>(seq![m.packages@[k].id@]),
{
    assert(views(cfg.packages@).len() == 0);
    lemma_first_where(
        m.packages@,
        |p: Package|
            same_path(p.manifest_path@, join(m.workspace_root@, encode_utf8("Cargo.toml"@))),
        k,
    );
}

/// With a resolved graph, its root decides which package is the root package.
pub proof fn a_resolved_graph_decides_the_root(m: Metadata, k: int)
    requires
        m.resolve_root is Some,
    ensures
        m.resolve_root->0 is None ==> m.root() is None,
        m.resolve_root->0 is Some && 0 <= k < m.packages@.len() && m.packages@[k].id@
            == m.resolve_root->0->0@ && (forall|i: int|
            0 <= i < k ==> (#[trigger] m.packages@[i]).id@ != m.resolve_root->0->0@) ==> m.root()
            == Some(m.packages@[k]),
        m.resolve_root->0 is Some && (forall|i: int|
            0 <= i < m.packages@.len() ==> (#[trigger] m.packages@[i]).id@
                != m.resolve_root->0->0@) ==> m.root() is None,
{
    if m.resolve_root->0 is Some {
        let id = m.resolve_root->0->0;
        let f = |p: Package| p.id@ == id@;
        if 0 <= k < m.packages@.len() && m.packages@[k].id@ == id@ && (forall|i: int|
            0 <= i < k ==> (#[trigger] m.packages@[i]).id@ != id@) {
            lemma_first_where(m.packages@, f, k);
        }
        if forall|i: int| 0 <= i < m.packages@.len() ==> (#[trigger] m.packages@[i]).id@ != id@ {
            lemma_first_where(m.packages@, f, m.packages@.len() as int);
        }
    }
}

/// Without a resolved graph, there is a root package only where some package's
/// manifest is the `Cargo.toml` of the workspace root.
pub proof fn a_virtual_workspace_has_no_root(m: Metadata)
    requires
        m.resolve_root is None,
        forall|i: int|
            0 <= i < m.packages@.len() ==> !same_path(
                (#[trigger] m.packages@[i]).manifest_path@,
                join(m.workspace_root@, encode_utf8("Cargo.toml"@)),
            ),
    ensures
        m.root() is None,
{
    lemma_first_where(
        m.packages@,
        |p: Package|
            same_path(p.manifest_path@, join(m.workspace_root@, encode_utf8("Cargo.toml"@))),
        m.packages@.len() as int,
    );
}

/// Away from the root and without names, a root package is selected alone.
pub proof fn a_root_package_is_selected_alone(cfg: Config, m: Metadata)
    requires
        !cfg.all,
        cfg.packages@.len() == 0,
        m.root() is Some,
    ensures
        selection(cfg, m, false) is Ok,
        selection(cfg, m, false)->Ok_0.len() == 1,
        selection(cfg, m, false)->Ok_0[0] == m.root()->0.id@,
{
    assert(views(cfg.packages@).len() == 0);
}

/// Packages are selected in the order in which they are listed, and unknown
/// names are told in the order in which they were asked for.
pub proof fn selections_keep_the_order(
    packages: Seq<Package>,
    p: Package,
    f: spec_fn(Package) -> bool,
    names: Seq<Seq<char>>,
    n: Seq<char>,
    m: Metadata,
)
    ensures
        ids_where(Seq::empty(), f).len() == 0,
        f(p) ==> ids_where(packages.push(p), f) == ids_where(packages, f).push(p.id@),
        !f(p) ==> ids_where(packages.push(p), f) == ids_where(packages, f),
        unknown_names(Seq::empty(), m).len() == 0,
        m.is_member_name(n) ==> unknown_names(names.push(n), m) == unknown_names(names, m),
        !m.is_member_name(n) ==> unknown_names(names.push(n), m) == unknown_names(names, m).push(
            n,
        ),
{
    assert(packages.push(p).drop_last() =~= packages);
    assert(names.push(n).drop_last() =~= names);
}

/// Where there is no root package either, exactly the default packages are
/// selected.
pub proof fn default_packages_are_selected(cfg: Config, m: Metadata, id: Seq<char>)
    requires
        !cfg.all,
        cfg.packages@.len() == 0,
        m.workspace_default_members is Some,
        m.root() is None,
    ensures
        selection(cfg, m, false) is Ok,
        selection(cfg, m, false)->Ok_0.contains(id) <==> exists|i: int, j: int|
            0 <= i < m.packages@.len() && 0 <= j < m.workspace_default_members->0@.len() && (
            #[trigger] m.packages@[i]).id@ == id && (
            #[trigger] m.workspace_default_members->0@[j])@ == id,
{
    let defaults = m.workspace_default_members->0@;
    assert(views(cfg.packages@).len() == 0);
    let f = |p: Package| views(m.workspace_default_members->0@).contains(p.id@);
    lemma_ids_where_exact(m.packages@, f, id);
    lemma_views_contain(defaults, id);
    if selection(cfg, m, false)->Ok_0.contains(id) {
        let i = choose|i: int|
            0 <= i < m.packages@.len() && f(#[trigger] m.packages@[i]) && m.packages@[i].id@ == id;
        let j = choose|j: int| 0 <= j < defaults.len() && (#[trigger] defaults[j])@ == id;
        assert(m.packages@[i].id@ == id && defaults[j]@ == id);
    }
    if exists|i: int, j: int|
        0 <= i < m.packages@.len() && 0 <= j < defaults.len() && (
        #[trigger] m.packages@[i]).id@ == id && (#[trigger] defaults[j])@ == id {
        let (i, j) = choose|i: int, j: int|
            0 <= i < m.packages@.len() && 0 <= j < defaults.len() && (
            #[trigger] m.packages@[i]).id@ == id && (#[trigger] defaults[j])@ == id;
        assert(f(m.packages@[i]));
    }
}

} // verus!
