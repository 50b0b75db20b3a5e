//! Package selection, searches, claims, and the manifest scans.

use cargo_ff::cache::{Build, Cache};
use cargo_ff::claims::{ClaimSite, Claims};
use cargo_ff::discover::{Discovery, PendingUnit, WsRoots};
use cargo_ff::fingerprint::Fingerprint;
use cargo_ff::manifest::{
    cargo_toml_declares_edition, extract_path_string, extract_toml_edition, find_target_path_line,
};
use cargo_ff::metadata::{select_packages, Metadata, Package};
use cargo_ff::path::FilePath;
use cargo_ff::search::{at_workspace_root, find_manifest_upward, find_nearest_config};
use cargo_ff::types::{Config, CrateUnit, Edition, Error};

fn path(t: &str) -> FilePath {
    FilePath::from_text(t)
}

fn text(t: &str) -> Option<String> {
    Some(t.to_string())
}

#[test]
fn cargo_toml_declares_edition_detects_explicit_and_inherited_keys() {
    assert!(cargo_toml_declares_edition(&text(
        "[package]\nname = \"x\"\nedition = \"2021\"\n"
    )));
    assert!(cargo_toml_declares_edition(&text("[package]\nedition.workspace = true\n")));
    assert!(!cargo_toml_declares_edition(&text("[package]\nname = \"x\"\n")));
    // An unreadable manifest is assumed to declare an edition.
    assert!(cargo_toml_declares_edition(&None));
    assert!(cargo_toml_declares_edition(&text("\t edition\t= 1")));
    assert!(!cargo_toml_declares_edition(&text("editions = \"2021\"")));
    assert!(!cargo_toml_declares_edition(&text("edition")));
}

#[test]
fn find_nearest_config_walks_up_and_prefers_the_closest() {
    let root = path("/ws");
    let nested = root.join("crates").join("a");
    // From a nested crate, the walk reaches the workspace-root config.
    assert_eq!(
        find_nearest_config(&nested, &root, |p: &FilePath| p.display() == "/ws/rustfmt.toml"),
        Some(root.join("rustfmt.toml"))
    );
    // A crate-local config shadows the root one (closest wins).
    assert_eq!(
        find_nearest_config(&nested, &root, |p: &FilePath| {
            p.display() == "/ws/rustfmt.toml" || p.display() == "/ws/crates/a/.rustfmt.toml"
        }),
        Some(nested.join(".rustfmt.toml"))
    );
}

#[test]
fn the_search_for_a_config_ends_at_the_root() {
    let above = |p: &FilePath| p.display() == "/rustfmt.toml";
    assert_eq!(find_nearest_config(&path("/ws/a"), &path("/ws"), above), None);
    // A root that is not on the way does not stop the walk.
    assert_eq!(
        find_nearest_config(&path("/ws/a"), &path("/other"), above),
        Some(path("/rustfmt.toml"))
    );
    // The hidden name goes first.
    assert_eq!(
        find_nearest_config(&path("/ws"), &path("/ws"), |_: &FilePath| true),
        Some(path("/ws/.rustfmt.toml"))
    );
}

#[test]
fn manifests_are_found_upward() {
    assert_eq!(
        find_manifest_upward(&path("/ws/a/src"), |p: &FilePath| {
            p.display() == "/ws/a/Cargo.toml" || p.display() == "/ws/Cargo.toml"
        }),
        Some(path("/ws/a/Cargo.toml"))
    );
    assert_eq!(find_manifest_upward(&path("/ws"), |_: &FilePath| false), None);
    assert!(at_workspace_root(&Some(path("/ws/Cargo.toml")), &Some(path("/ws//Cargo.toml"))));
    assert!(!at_workspace_root(&Some(path("/ws/Cargo.toml")), &Some(path("/ws/a/Cargo.toml"))));
    assert!(!at_workspace_root(&None, &None));
    assert!(!at_workspace_root(&Some(path("/x")), &None));
}

#[test]
fn ws_roots_rel_strips_the_workspace_prefix() {
    let roots = WsRoots::new(path("/ws"), None);
    assert_eq!(roots.rel(&path("/ws/crates/a/Cargo.toml")), path("crates/a/Cargo.toml"));
    // A path outside the workspace is returned unchanged.
    assert_eq!(roots.rel(&path("/elsewhere/x")), path("/elsewhere/x"));
}

#[test]
fn paths_are_shown_relative_to_the_resolved_root_too() {
    let roots = WsRoots::new(path("/tmp/ws"), Some(path("/private/tmp/ws")));
    assert_eq!(roots.rel(&path("/private/tmp/ws/a.rs")).display(), "a.rs");
    assert_eq!(roots.rel(&path("/tmp/ws/a.rs")).display(), "a.rs");
    assert_eq!(roots.rel(&path("/tmp/ws2/a.rs")).display(), "/tmp/ws2/a.rs");
    assert_eq!(roots.raw().display(), "/tmp/ws");
}

#[test]
fn extract_path_string_reads_quoted_value() {
    assert_eq!(extract_path_string(r#"path = "src/lib.rs""#), Some("src/lib.rs"));
    assert_eq!(extract_path_string(r#"  path="foo.rs""#), Some("foo.rs"));
}

#[test]
fn extract_path_string_ignores_non_path_keys() {
    assert_eq!(extract_path_string(r#"name = "foo""#), None);
    // "path" must be the whole key, not a prefix of one.
    assert_eq!(extract_path_string(r#"pathological = "x""#), None);
    assert_eq!(extract_path_string(r#"# path = "x""#), None);
}

#[test]
fn a_value_needs_both_quotes() {
    assert_eq!(extract_path_string(r#"path = "open"#), None);
    assert_eq!(extract_path_string("path = x"), None);
    assert_eq!(extract_path_string(r#"path = """#), Some(""));
    assert_eq!(extract_path_string("\u{a0}path\u{2003}=\t\"a\" # b\""), Some("a"));
}

#[test]
fn extract_toml_edition_finds_literal() {
    assert_eq!(extract_toml_edition("edition = \"2021\"\n"), Some("2021".to_string()));
    assert_eq!(
        extract_toml_edition("[package]\nedition=\"2018\"\n"),
        Some("2018".to_string())
    );
}

#[test]
fn extract_toml_edition_skips_inherited_and_absent() {
    // `edition.workspace = true` has no inline literal to extract.
    assert_eq!(extract_toml_edition("edition.workspace = true"), None);
    assert_eq!(extract_toml_edition("name = \"x\"\n"), None);
}

#[test]
fn the_first_line_that_resolves_to_the_target_is_found() {
    let toml = text("[[bin]]\npath = \"gone.rs\"\npath = \"../b.rs\"  \npath = \"../b.rs\"\n");
    let resolve = |p: &FilePath| match p.display().as_str() {
        "/ws/a/../b.rs" => Some(path("/ws/b.rs")),
        "/ws/a/other.rs" => Some(path("/ws/a/other.rs")),
        _ => None,
    };
    let manifest = path("/ws/a/Cargo.toml");
    assert_eq!(
        find_target_path_line(&manifest, &toml, &path("/ws/b.rs"), resolve),
        Some((3, "path = \"../b.rs\"  ".to_string()))
    );
    assert_eq!(find_target_path_line(&manifest, &toml, &path("/ws/c.rs"), resolve), None);
    assert_eq!(find_target_path_line(&manifest, &None, &path("/ws/b.rs"), resolve), None);
    assert_eq!(find_target_path_line(&path("/"), &toml, &path("/ws/b.rs"), resolve), None);
}

fn package(id: &str, name: &str, edition: cargo_metadata::Edition, dir: &str) -> Package {
    Package {
        id: id.to_string(),
        name: name.to_string(),
        edition,
        manifest_path: path(dir).join("Cargo.toml"),
        targets: vec![path(dir).join("src/lib.rs")],
    }
}

fn strings(v: &[&str]) -> Vec<String> {
    v.iter().map(|s| s.to_string()).collect()
}

/// Members `a` and `b` (the default), and `dep`, which is no member.
fn workspace() -> Metadata {
    let e = cargo_metadata::Edition::E2021;
    Metadata {
        packages: vec![
            package("id-a", "a", e, "/ws/a"),
            package("id-dep", "dep", e, "/dep"),
            package("id-b", "b", e, "/ws/b"),
        ],
        workspace_members: strings(&["id-b", "id-a"]),
        workspace_default_members: Some(strings(&["id-b"])),
        resolve_root: None,
        workspace_root: path("/ws"),
    }
}

#[test]
fn run_rejects_unknown_package() {
    // `-p <name>` for a package that isn't a workspace member must error rather
    // than silently format nothing.
    let mut cfg = Config::default();
    cfg.packages = vec!["definitely-not-a-real-package".to_string()];
    let err = select_packages(&cfg, &workspace(), true)
        .expect_err("an unknown -p package must be rejected");
    match err {
        Error::UnknownPackages(pkgs) => {
            assert_eq!(pkgs, vec!["definitely-not-a-real-package".to_string()]);
        }
        other => panic!("expected UnknownPackages, got {other:?}"),
    }
}

#[test]
fn selection_follows_its_precedence() {
    let m = workspace();
    let mut cfg = Config::default();
    // Away from the root and without a root package: the default members.
    assert_eq!(select_packages(&cfg, &m, false).unwrap(), strings(&["id-b"]));
    // At the root: every member.
    assert_eq!(select_packages(&cfg, &m, true).unwrap(), strings(&["id-b", "id-a"]));
    // By name, whatever the place.
    cfg.packages = strings(&["b", "a"]);
    assert_eq!(select_packages(&cfg, &m, false).unwrap(), strings(&["id-a", "id-b"]));
    cfg.packages = strings(&["a"]);
    assert_eq!(select_packages(&cfg, &m, true).unwrap(), strings(&["id-a"]));
    // A package that is no member is unknown, and all unknown names are told.
    cfg.packages = strings(&["x", "a", "dep"]);
    match select_packages(&cfg, &m, false) {
        Err(e) => assert_eq!(
            e.message(),
            "package(s) not found in the workspace: x, dep"
        ),
        Ok(ids) => panic!("selected {ids:?}"),
    }
    // `all` makes names irrelevant, even unknown ones.
    cfg.all = true;
    assert_eq!(select_packages(&cfg, &m, false).unwrap(), strings(&["id-b", "id-a"]));
}

#[test]
fn the_root_package_is_selected_where_there_is_one() {
    let cfg = Config::default();
    let mut m = workspace();
    m.packages.push(package("id-root", "root", cargo_metadata::Edition::E2021, "/ws"));
    assert_eq!(m.root_package().unwrap().id, "id-root");
    assert_eq!(select_packages(&cfg, &m, false).unwrap(), strings(&["id-root"]));
    // Where dependencies were resolved, their root decides.
    m.resolve_root = Some(Some("id-a".to_string()));
    assert_eq!(select_packages(&cfg, &m, false).unwrap(), strings(&["id-a"]));
    m.resolve_root = Some(None);
    assert!(m.root_package().is_none());
    assert_eq!(select_packages(&cfg, &m, false).unwrap(), strings(&["id-b"]));
    assert_eq!(m.workspace_default_packages(), strings(&["id-b"]));
}

fn site(name: &str) -> ClaimSite {
    ClaimSite {
        name: name.to_string(),
        edition: Edition::E2021,
        manifest_path: path("/ws").join(name).join("Cargo.toml"),
    }
}

#[test]
fn the_first_crate_to_claim_a_file_keeps_it() {
    let mut claims = Claims::new();
    let (mine, collisions) =
        claims.collect_entry_points(&site("a"), vec![path("/ws/x.rs"), path("/ws/y.rs")]);
    assert_eq!(mine, vec![path("/ws/x.rs"), path("/ws/y.rs")]);
    assert!(collisions.is_empty());
    let (mine, collisions) = claims.collect_entry_points(
        &site("b"),
        vec![path("/ws/z.rs"), path("/ws/./y.rs"), path("/ws/z.rs")],
    );
    assert_eq!(mine, vec![path("/ws/z.rs")]);
    assert_eq!(collisions.len(), 2);
    assert_eq!(collisions[0].file.display(), "/ws/./y.rs");
    assert_eq!(collisions[0].first.name, "a");
    assert_eq!(collisions[0].second.name, "b");
    // A crate can also contest its own target.
    assert_eq!(collisions[1].first.name, "b");
    assert_eq!(collisions[1].second.name, "b");
}

/// Runs discovery over a workspace in which every path resolves to itself.
fn discover(m: &Metadata, selected: Vec<String>) -> Result<Vec<CrateUnit>, Error> {
    let mut d = Discovery::new(selected, true);
    let mut units = Vec::new();
    for pkg in &m.packages {
        let Some(taken) = d.take_up(pkg)? else { continue };
        let resolved = pkg.targets.iter().map(|t| Some(t.clone())).collect();
        let (unit, _) = d.enter(pkg, taken, None, &None, resolved);
        if let Some(u) = unit {
            units.push(u.sized(10));
        }
    }
    Ok(units)
}

#[test]
fn discover_runs_on_self() {
    let mut pkg = package("self", "cargo-ff", cargo_metadata::Edition::E2021, "/ws");
    pkg.targets.push(path("/ws/src/bin/cargo-ff.rs"));
    pkg.targets.push(path("/ws/tests/discover.rs"));
    let m = Metadata {
        packages: vec![pkg],
        workspace_members: strings(&["self"]),
        workspace_default_members: Some(strings(&["self"])),
        resolve_root: None,
        workspace_root: path("/ws"),
    };
    let selected = select_packages(&Config::default(), &m, true).unwrap();
    let units = discover(&m, selected).unwrap();
    assert_eq!(units.len(), 1, "expected exactly one CrateUnit");
    let entries = &units[0].files;
    assert!(
        entries.len() >= 3,
        "expected ≥3 target entry points, got {}",
        entries.len()
    );
}

#[test]
fn only_selected_packages_are_taken_up() {
    let m = workspace();
    let units = discover(&m, strings(&["id-a"])).unwrap();
    assert_eq!(units.len(), 1);
    assert_eq!(units[0].manifest_dir.display(), "/ws/a");
    assert_eq!(units[0].size_bytes, 10);
    assert_eq!(units[0].edition, Edition::E2021);
}

#[test]
fn a_crate_without_files_of_its_own_is_left_out() {
    let mut m = workspace();
    m.packages[2].targets = vec![path("/ws/a/src/lib.rs")];
    let units = discover(&m, strings(&["id-a", "id-b"])).unwrap();
    assert_eq!(units.len(), 1);
    assert_eq!(units[0].manifest_dir.display(), "/ws/a");
}

#[test]
fn unknown_editions_fail_discovery() {
    let mut m = workspace();
    m.packages[0].edition = cargo_metadata::Edition::_E2027;
    let err = discover(&m, strings(&["id-a"])).unwrap_err();
    assert_eq!(
        err.message(),
        "unsupported edition `2027` for package `a`; cargo-ff knows 2015/2018/2021/2024 — bump the dep or pin a known edition"
    );
    // A package that is not selected may have any edition.
    assert!(discover(&m, strings(&["id-b"])).is_ok());
}

#[test]
fn a_manifest_without_a_directory_fails_discovery() {
    let mut m = workspace();
    m.packages[0].manifest_path = path("/");
    let err = discover(&m, strings(&["id-a"])).unwrap_err();
    assert_eq!(err.message(), "io: manifest_path has no parent: /");
}

#[test]
fn unresolved_targets_stand_for_themselves() {
    let m = workspace();
    let pkg = &m.packages[0];
    let mut d = Discovery::new(strings(&["id-a"]), false);
    let taken = d.take_up(pkg).unwrap().unwrap();
    let (unit, _) = d.enter(pkg, taken, None, &None, vec![None]);
    assert_eq!(unit.unwrap().files, vec![path("/ws/a/src/lib.rs")]);
}

#[test]
fn findings_are_in_order() {
    let mut m = workspace();
    m.packages[1].edition = cargo_metadata::Edition::E2015;
    m.packages[2].edition = cargo_metadata::Edition::E2018;
    let mut d = Discovery::new(strings(&["id-a", "id-b", "id-dep"]), true);
    for (i, pkg) in m.packages.iter().enumerate() {
        let taken = d.take_up(pkg).unwrap().unwrap();
        let config = if i == 0 { path("/ws/z/rustfmt.toml") } else { path("/ws/rustfmt.toml") };
        let (_, collisions) = d.enter(pkg, taken, Some(config), &text(""), vec![None]);
        assert!(collisions.is_empty());
    }
    let f = d.finish();
    let years: Vec<&str> = f.editions.iter().map(|s| s.edition.as_str()).collect();
    assert_eq!(years, vec!["2015", "2018", "2021"]);
    assert_eq!(f.editions[2].name, "a");
    let configs: Vec<String> = f.governed.iter().map(|g| g.config.display()).collect();
    assert_eq!(configs, vec!["/ws/rustfmt.toml", "/ws/z/rustfmt.toml"]);
    let governed: Vec<&str> = f.governed[0].crates.iter().map(|c| c.name.as_str()).collect();
    assert_eq!(governed, vec!["dep", "b"]);
    assert_eq!(f.implicit_2015, strings(&["dep"]));
}

#[test]
fn without_warnings_nothing_is_noted() {
    let mut m = workspace();
    m.packages[0].edition = cargo_metadata::Edition::E2015;
    let pkg = &m.packages[0];
    let mut d = Discovery::new(strings(&["id-a"]), false);
    for turn in 0..2 {
        let taken = d.take_up(pkg).unwrap().unwrap();
        let (unit, collisions) =
            d.enter(pkg, taken, Some(path("/ws/rustfmt.toml")), &text(""), vec![None]);
        assert_eq!(unit.is_some(), turn == 0);
        assert!(collisions.is_empty());
    }
    let f = d.finish();
    assert!(f.governed.is_empty());
    assert!(f.implicit_2015.is_empty());
    assert_eq!(f.editions.len(), 1);
}

#[test]
fn a_cached_crate_is_skipped_and_another_is_staged() {
    let pending = || PendingUnit {
        edition: Edition::E2024,
        manifest_dir: path("/ws/a"),
        files: vec![path("/ws/a/src/lib.rs")],
    };
    let built = |mtime: u128| {
        let mut fingerprint = Fingerprint::new();
        fingerprint.insert(path("/ws/a/src/lib.rs"), mtime);
        Build { fingerprint, size_bytes: 77 }
    };
    let known = "ff-cache-v3\t0000000000000001\n/ws/a\t/ws/a/src/lib.rs\t5\n".to_string();
    let mut cache = Cache::load(Some(path("/c")), 1, Some(known));
    assert!(pending().against(&mut cache, built(5)).is_none());
    let unit = pending().against(&mut cache, built(6)).unwrap();
    assert_eq!(unit.size_bytes, 77);
    assert_eq!(unit.edition, Edition::E2024);
    assert_eq!(unit.files, vec![path("/ws/a/src/lib.rs")]);
    assert_eq!(
        cache.commit_and_save().unwrap().contents,
        "ff-cache-v3\t0000000000000001\n/ws/a\t/ws/a/src/lib.rs\t6\n"
    );
}
