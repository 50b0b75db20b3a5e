//! Paths, texts, numbers, editions, errors.

use cargo_ff::number::{parse, push_decimal, push_hex};
use cargo_ff::order::stable_sort;
use cargo_ff::path::FilePath;
use cargo_ff::text::{contains_text, join_texts, lines_of, trim, trim_right};
use cargo_ff::types::{CrateUnit, Edition, Error, UnknownEdition};
use std::path::{Path, PathBuf};

const TEXTS: [&str; 26] = [
    "", "/", "//", ".", "..", "./", "./a", "a/.", "a", "a/", "a//b", "a/b", "/a", "/a/", "/a/b",
    "/a/b.rs", "/a/b/../c.rs", "a/./b", "./.", "../a", "/..", "b.rs/", ".rs", "a/.rs", "x..rs",
    "/a/é.rs",
];

fn path(t: &str) -> FilePath {
    FilePath::from_text(t)
}

#[test]
fn paths_compare_as_those_of_std() {
    for a in TEXTS {
        for b in TEXTS {
            assert_eq!(path(a) == path(b), Path::new(a) == Path::new(b), "{a:?} == {b:?}");
            assert_eq!(
                path(a).at_or_before(&path(b)),
                Path::new(a) <= Path::new(b),
                "{a:?} <= {b:?}"
            );
        }
    }
}

#[test]
fn parents_joins_and_prefixes_are_those_of_std() {
    for a in TEXTS {
        let parent = path(a).parent().map(|p| PathBuf::from(p.display()));
        let expected = Path::new(a).parent().map(|p| p.as_os_str().to_owned());
        assert_eq!(parent.map(|p| p.into_os_string()), expected, "parent of {a:?}");
        assert_eq!(
            path(a).is_rust_source(),
            Path::new(a).extension().is_some_and(|x| x == "rs"),
            "extension of {a:?}"
        );
        for b in TEXTS {
            let joined = Path::new(a).join(b);
            assert_eq!(path(a).join(b).display(), joined.to_str().unwrap(), "{a:?} + {b:?}");
            let below = path(a).strip_prefix(&path(b)).map(|p| p.display());
            let expected = Path::new(a)
                .strip_prefix(b)
                .ok()
                .map(|p| p.to_str().unwrap().to_string());
            assert_eq!(below, expected, "{a:?} below {b:?}");
        }
    }
}

#[test]
fn paths_hold_any_bytes() {
    let p = FilePath::new(b"/ws/\xff/a\xc3\xa9.rs".to_vec());
    assert_eq!(p.as_bytes(), b"/ws/\xff/a\xc3\xa9.rs");
    assert_eq!(p.display(), "/ws/\u{fffd}/aé.rs");
    assert!(p.is_rust_source());
    assert_eq!(p.parent().unwrap().as_bytes(), b"/ws/\xff");
    assert_eq!(p.parent().unwrap().join("é").as_bytes(), b"/ws/\xff/\xc3\xa9");
    assert_eq!(p.strip_prefix(&path("/ws")).unwrap().as_bytes(), b"\xff/a\xc3\xa9.rs");
    // Two paths that show alike are two paths, in the order of their bytes.
    let q = FilePath::new(b"/ws/\xfe/a\xc3\xa9.rs".to_vec());
    assert_eq!(p.display(), q.display());
    assert!(p != q);
    assert!(q.at_or_before(&p) && !p.at_or_before(&q));
}

#[test]
fn texts_split_into_lines_as_those_of_std() {
    for t in ["", "\n", "a", "a\n", "a\r\nb", "a\rb\n", "\r\n\r\n", "x\r", "\n\ny", "é\n\u{2028}z"] {
        let expected: Vec<String> = t.lines().map(str::to_string).collect();
        assert_eq!(lines_of(t), expected, "{t:?}");
    }
}

#[test]
fn texts_trim_as_those_of_std() {
    for t in ["", " ", " a ", "\u{a0}a\u{3000}", "\ta b\u{85}", "\u{200b}a\u{200b}", "a\u{1680}\u{205f}"] {
        assert_eq!(trim(t), t.trim(), "{t:?}");
        assert_eq!(trim_right(t), t.trim_end(), "{t:?}");
    }
    assert!(contains_text("abcabd", "abd"));
    assert!(contains_text("abc", ""));
    assert!(!contains_text("ab", "abc"));
    let parts = vec!["a".to_string(), "".to_string(), "b".to_string()];
    assert_eq!(join_texts(&parts, ", "), parts.join(", "));
    assert_eq!(join_texts(&Vec::new(), ", "), "");
}

#[test]
fn numbers_read_as_those_of_std() {
    for t in ["", "+", "-1", "0", "+7", "007", "42", "1a", "340282366920938463463374607431768211455", "340282366920938463463374607431768211456", "++1", " 1"] {
        assert_eq!(parse(t, 10, u128::MAX), t.parse::<u128>().ok(), "{t:?}");
    }
    for t in ["", "ff", "FF", "+a", "g", "ffffffffffffffff", "10000000000000000", "0000000000000000001"] {
        assert_eq!(
            parse(t, 16, u64::MAX as u128),
            u64::from_str_radix(t, 16).ok().map(u128::from),
            "{t:?}"
        );
    }
}

#[test]
fn numbers_that_were_written_read_back() {
    for n in [0, 9, 10, 99, 100, u64::MAX as u128, u128::MAX] {
        let mut s = String::new();
        push_decimal(&mut s, n);
        assert_eq!(s, n.to_string());
        assert_eq!(parse(&s, 10, u128::MAX), Some(n));
    }
    for n in [0, 0xabc, u64::MAX] {
        let mut s = String::new();
        push_hex(&mut s, n, 16);
        assert_eq!(s, format!("{n:016x}"));
        assert_eq!(parse(&s, 16, u64::MAX as u128), Some(n as u128));
    }
}

#[test]
fn sorting_is_stable() {
    let unit = |size_bytes: u64, name: &str| CrateUnit {
        edition: Edition::E2021,
        manifest_dir: path(name),
        files: Vec::new(),
        size_bytes,
    };
    let sorted = stable_sort(vec![unit(1, "a"), unit(5, "b"), unit(1, "c"), unit(5, "d"), unit(9, "e")]);
    let names: Vec<String> = sorted.iter().map(|u| u.manifest_dir.display()).collect();
    assert_eq!(names, vec!["e", "b", "d", "a", "c"]);
    let words = stable_sort(vec!["b".to_string(), "B".to_string(), "".to_string(), "é".to_string(), "ab".to_string()]);
    assert_eq!(words, vec!["", "B", "ab", "b", "é"]);
}

#[test]
fn editions_read_back() {
    for e in [Edition::E2015, Edition::E2018, Edition::E2021, Edition::E2024] {
        assert_eq!(e.as_str().parse::<Edition>().unwrap(), e);
    }
    let UnknownEdition(year) = "2027".parse::<Edition>().unwrap_err();
    assert_eq!(year, "2027");
    assert_eq!(UnknownEdition(year).message(), "unknown edition: 2027");
}

#[test]
fn editions_come_from_cargo_and_later_ones_are_refused() {
    assert_eq!(Edition::from_cargo(cargo_metadata::Edition::E2015).unwrap(), Edition::E2015);
    assert_eq!(Edition::from_cargo(cargo_metadata::Edition::E2018).unwrap(), Edition::E2018);
    assert_eq!(Edition::from_cargo(cargo_metadata::Edition::E2021).unwrap(), Edition::E2021);
    assert_eq!(Edition::from_cargo(cargo_metadata::Edition::E2024).unwrap(), Edition::E2024);
    assert_eq!(Edition::from_cargo(cargo_metadata::Edition::_E2027).unwrap_err().0, "2027");
    assert_eq!(Edition::from_cargo(cargo_metadata::Edition::_E2030).unwrap_err().0, "2030");
}

#[test]
fn errors_have_their_messages() {
    let s = |t: &str| t.to_string();
    assert_eq!(Error::InvalidWorkers(0).message(), "`workers` must be >= 1 (got 0)");
    assert_eq!(Error::Metadata(s("no manifest")).message(), "cargo metadata failed: no manifest");
    assert_eq!(Error::Io(s("denied")).message(), "io: denied");
    assert_eq!(
        Error::UnsupportedEdition { edition: s("2030"), package: s("p") }.message(),
        "unsupported edition `2030` for package `p`; cargo-ff knows 2015/2018/2021/2024 — bump the dep or pin a known edition"
    );
    assert_eq!(
        Error::UnknownPackages(vec![s("a"), s("b")]).message(),
        "package(s) not found in the workspace: a, b"
    );
    assert_eq!(Error::ThreadPanicked("worker").message(), "worker thread panicked");
    assert_eq!(Error::SendClosed.message(), "send failed (channel closed)");
}
