//! The texts of the warnings, and their styles.

use cargo_ff::claims::{ClaimSite, Collision};
use cargo_ff::discover::{Governed, Governee, SeenEdition, WsRoots};
use cargo_ff::path::FilePath;
use cargo_ff::style::{palette, should_color, Color, Palette, Style};
use cargo_ff::types::Edition;
use cargo_ff::warnings::{
    claim_collision_warning, config_edition_warning, implicit_edition_warning,
    multi_edition_warning, shadow_config_warning, stable_rustfmt_warning,
};

fn path(t: &str) -> FilePath {
    FilePath::from_text(t)
}

fn roots() -> WsRoots {
    WsRoots::new(path("/ws"), None)
}

fn site(name: &str, edition: Edition) -> ClaimSite {
    ClaimSite {
        name: name.to_string(),
        edition,
        manifest_path: path("/ws").join(name).join("Cargo.toml"),
    }
}

#[test]
fn styles_render_their_escapes() {
    let mut out = String::new();
    let yellow = Style { bold: true, color: Some(Color::Yellow) };
    yellow.push(&mut out, "warning");
    assert_eq!(out, "\u{1b}[1m\u{1b}[33mwarning\u{1b}[0m");
    out.clear();
    Style { bold: false, color: Some(Color::Cyan) }.push(&mut out, "|");
    assert_eq!(out, "\u{1b}[36m|\u{1b}[0m");
    out.clear();
    Style { bold: true, color: None }.push(&mut out, "x");
    assert_eq!(out, "\u{1b}[1mx\u{1b}[0m");
    out.clear();
    Style { bold: false, color: None }.push(&mut out, "x");
    assert_eq!(out, "x");
}

#[test]
fn palettes_match_rustc() {
    let p = Palette::colored();
    assert_eq!(p.warning, Style { bold: true, color: Some(Color::Yellow) });
    assert_eq!(p.frame, Style { bold: false, color: Some(Color::Cyan) });
    assert_eq!(p.note, Style { bold: true, color: Some(Color::Cyan) });
    assert_eq!(p.help, p.note);
    let none = Style { bold: false, color: None };
    let q = Palette::plain();
    assert_eq!([q.warning, q.frame, q.note, q.help], [none; 4]);
}

#[test]
fn color_follows_the_environment() {
    let force = |v: &str| Some(v.to_string());
    assert!(should_color(&force("1"), true, false));
    assert!(should_color(&force(""), true, false));
    assert!(!should_color(&force("0"), false, false));
    assert!(should_color(&force("0"), false, true));
    assert!(!should_color(&None, true, true));
    assert!(should_color(&None, false, true));
    assert!(!should_color(&None, false, false));
    assert_eq!(palette(&None, false, true).warning, Palette::colored().warning);
    assert_eq!(palette(&None, true, true).warning, Palette::plain().warning);
}

#[test]
fn a_collision_shows_both_claims() {
    let collision = Collision {
        file: path("/ws/shared/lib.rs"),
        first: site("a", Edition::E2018),
        second: site("b", Edition::E2021),
    };
    let out = claim_collision_warning(
        &roots(),
        &Palette::plain(),
        &collision,
        &Some((12, "path = \"../shared/lib.rs\"  ".to_string())),
        &None,
    );
    let expected = [
        "warning: file `shared/lib.rs` claimed by multiple crates",
        "   --> a/Cargo.toml:12:1",
        "    |",
        " 12 | path = \"../shared/lib.rs\"",
        "    | ^^^^^^^^^^^^^^^^^^^^^^^^^ first claim (`a`)",
        "note: also claimed here (`b`)",
        "  --> b/Cargo.toml",
        "   = note: editions differ — using `a`'s 2018 over `b`'s 2021",
        "",
        "",
    ];
    assert_eq!(out, expected.join("\n"));
}

#[test]
fn carets_count_bytes_and_equal_editions_are_not_mentioned() {
    let collision = Collision {
        file: path("/x.rs"),
        first: site("a", Edition::E2021),
        second: site("a", Edition::E2021),
    };
    let line = Some((3, "é".to_string()));
    let out = claim_collision_warning(&roots(), &Palette::colored(), &collision, &line, &line);
    let c = "\u{1b}[36m";
    let b = "\u{1b}[1m\u{1b}[36m";
    let r = "\u{1b}[0m";
    assert_eq!(
        out,
        format!(
            "\u{1b}[1m\u{1b}[33mwarning{r}: file `/x.rs` claimed by multiple crates\n  \
             {c}-->{r} a/Cargo.toml:3:1\n   {c}|{r}\n {c}3 |{r} é\n   {c}| ^^ first claim (`a`){r}\n\
             {b}note{r}: also claimed here (`a`)\n  {c}-->{r} a/Cargo.toml:3:1\n   {c}|{r}\n \
             {c}3 |{r} é\n   {c}| ^^{r}\n\n"
        )
    );
}

#[test]
fn paths_that_are_not_utf8_show_with_replacement_characters() {
    let collision = Collision {
        file: FilePath::new(b"/ws/\xe2\x82.rs".to_vec()),
        first: site("a", Edition::E2021),
        second: site("b", Edition::E2021),
    };
    let out = claim_collision_warning(&roots(), &Palette::plain(), &collision, &None, &None);
    assert!(out.starts_with("warning: file `\u{fffd}.rs` claimed by multiple crates\n"));
}

fn seen(edition: Edition, name: &str) -> SeenEdition {
    SeenEdition { edition, name: name.to_string() }
}

#[test]
fn several_editions_are_listed_with_examples() {
    let p = Palette::plain();
    assert_eq!(multi_edition_warning(&p, &vec![seen(Edition::E2021, "a")]), "");
    assert_eq!(multi_edition_warning(&p, &Vec::new()), "");
    assert_eq!(
        multi_edition_warning(&p, &vec![seen(Edition::E2015, "old"), seen(Edition::E2024, "new")]),
        "warning: workspace mixes 2 editions\n   note: 2015 (e.g. `old`), 2024 (e.g. `new`)\n   \
         note: rustfmt parses each crate per its own edition, so reserved-keyword identifiers may format differently across the boundary\n\n"
    );
}

fn governed(config: &str, crates: &[(&str, Edition)]) -> Governed {
    Governed {
        config: path(config),
        crates: crates
            .iter()
            .map(|(n, e)| Governee { name: n.to_string(), edition: *e })
            .collect(),
    }
}

#[test]
fn nested_configs_are_reported() {
    let p = Palette::plain();
    let root = governed("/ws/rustfmt.toml", &[("r", Edition::E2021)]);
    assert_eq!(shadow_config_warning(&roots(), &p, &vec![root]), "");
    let one = vec![
        governed("/ws/.rustfmt.toml", &[("r", Edition::E2021)]),
        governed("/ws/a/rustfmt.toml", &[("z", Edition::E2021), ("b", Edition::E2018)]),
    ];
    let tail = "   note: rustfmt resolves config per file (walking up from each path), so these crates ignore the workspace-root rustfmt.toml\n\n";
    assert_eq!(
        shadow_config_warning(&roots(), &p, &one),
        format!(
            "warning: 1 nested rustfmt.toml file shadows the workspace config\n   \
             note: `a/rustfmt.toml` governs `b`, `z`\n{tail}"
        )
    );
    let two = vec![
        governed("/ws/a/rustfmt.toml", &[("a", Edition::E2021)]),
        governed("/out/rustfmt.toml", &[("c", Edition::E2021)]),
    ];
    assert_eq!(
        shadow_config_warning(&roots(), &p, &two),
        format!(
            "warning: 2 nested rustfmt.toml files shadow the workspace config\n   \
             note: `a/rustfmt.toml` governs `a`\n   note: `/out/rustfmt.toml` governs `c`\n{tail}"
        )
    );
}

#[test]
fn overridden_config_editions_are_reported() {
    let p = Palette::plain();
    let configs = vec![
        governed("/ws/a/rustfmt.toml", &[("a", Edition::E2021)]),
        governed(
            "/ws/rustfmt.toml",
            &[("z", Edition::E2015), ("m", Edition::E2018), ("b", Edition::E2021)],
        ),
        governed("/ws/x/rustfmt.toml", &[("x", Edition::E2018)]),
    ];
    let contents = vec![
        Some("edition = \"2021\"\n".to_string()),
        Some("max_width = 100\nedition = \"2021\"\n".to_string()),
        None,
    ];
    assert_eq!(
        config_edition_warning(&roots(), &p, &configs, &contents),
        "warning: `rustfmt.toml` sets `edition = \"2021\"`, which cargo ff overrides\n   \
         note: cargo ff passes `--edition` from each crate's Cargo.toml (e.g. `m` is edition 2018)\n   \
         note: the rustfmt.toml `edition` still applies to a bare `rustfmt` run, so output can diverge from cargo ff / cargo fmt\n\n"
    );
    assert_eq!(config_edition_warning(&roots(), &p, &Vec::new(), &Vec::new()), "");
}

#[test]
fn implicit_editions_are_reported() {
    let p = Palette::plain();
    let tail = "   help: add `edition = \"2021\"` (or another) to each Cargo.toml — 2015 formats differently from later editions\n\n";
    assert_eq!(implicit_edition_warning(&p, Vec::new()), "");
    assert_eq!(
        implicit_edition_warning(&p, vec!["old".to_string()]),
        format!(
            "warning: 1 crate defaults to edition 2015 (no `edition` in Cargo.toml)\n   note: `old`\n{tail}"
        )
    );
    assert_eq!(
        implicit_edition_warning(&p, vec!["b".to_string(), "a".to_string()]),
        format!(
            "warning: 2 crates default to edition 2015 (no `edition` in Cargo.toml)\n   note: `a`, `b`\n{tail}"
        )
    );
}

#[test]
fn a_stable_rustfmt_is_reported() {
    let p = Palette::plain();
    assert_eq!(stable_rustfmt_warning(&p, "rustfmt 1.8.0-nightly (abc 2025-01-01)\n"), "");
    assert_eq!(
        stable_rustfmt_warning(&p, " rustfmt 1.8.0-stable (abc)\n"),
        "warning: rustfmt on PATH is the stable channel\n   note: `rustfmt 1.8.0-stable (abc)`\n   \
         note: unstable rustfmt.toml options will be silently ignored\n   \
         help: run via `cargo +nightly ff` for parity with `cargo +nightly fmt`\n\n"
    );
}
