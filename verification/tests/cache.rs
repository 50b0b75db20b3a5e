//! The skip cache and the size proxies.

use cargo_ff::cache::{
    build, cache_path, compute_tool_hash, fnv1a, forget_failed, read_entries, Build, Cache,
};
use cargo_ff::fingerprint::Fingerprint;
use cargo_ff::path::FilePath;
use cargo_ff::pipeline::settle;
use cargo_ff::size::{
    estimate, is_walked, manifest_dir_rs_bytes_clamped, ByteCount, WalkEntry, HUGE_CUTOFF_BYTES,
};
use cargo_ff::types::{FileFailure, Report};

fn path(t: &str) -> FilePath {
    FilePath::from_text(t)
}

fn file(t: &str, len: u64) -> WalkEntry {
    WalkEntry { path: path(t), is_file: true, stat: Some((len, Some(7))) }
}

fn fingerprint(files: &[(&str, u128)]) -> Fingerprint {
    let mut f = Fingerprint::new();
    for (p, m) in files {
        f.insert(path(p), *m);
    }
    f
}

#[test]
fn build_fingerprints_only_rs_files_and_sums_their_bytes() {
    let Build { fingerprint, size_bytes } = build(vec![
        file("/w/a.rs", 10),
        file("/w/b.rs", 10),
        file("/w/README.md", 7),
    ]);
    assert_eq!(fingerprint.len(), 2, "only the two .rs files are fingerprinted");
    assert_eq!(size_bytes, 20, "size proxy sums the .rs bytes, not the .md file");
}

#[test]
fn save_then_load_roundtrips_and_salt_guards_against_tool_changes() {
    let tsv = path("/home/u/fingerprints.tsv");
    let manifest = path("/ws/crate-a");
    let mut cache = Cache::load(Some(tsv), 0xdead_beef, None);
    cache.stage(manifest.clone(), fingerprint(&[("/ws/crate-a/src/lib.rs", 42)]));
    let saved = cache.commit_and_save().unwrap();
    assert_eq!(saved.path.display(), "/home/u/fingerprints.tsv");
    assert_eq!(
        saved.contents,
        "ff-cache-v3\t00000000deadbeef\n/ws/crate-a\t/ws/crate-a/src/lib.rs\t42\n"
    );

    // Same tool hash -> the staged entry comes back identical.
    let loaded = read_entries(&saved.contents, 0xdead_beef);
    assert_eq!(loaded.len(), 1);
    assert_eq!(loaded[0].dir, manifest);
    assert_eq!(loaded[0].fingerprint, fingerprint(&[("/ws/crate-a/src/lib.rs", 42)]));

    // Different tool hash (e.g. rustfmt upgraded) -> salt mismatch wipes it.
    let stale = read_entries(&saved.contents, 0x0bad_f00d);
    assert!(stale.is_empty(), "a tool-hash mismatch must invalidate the cache");
}

#[test]
fn estimate_sums_rs_bytes_and_ignores_other_files() {
    let bytes = estimate(&vec![file("/w/a.rs", 100), file("/w/b.rs", 50), file("/w/notes.txt", 9999)]);
    assert_eq!(bytes, 150, "only the two .rs files count");
    assert!(bytes < HUGE_CUTOFF_BYTES);
}

#[test]
fn clamping_returns_the_cap_verbatim_once_reached() {
    let entries = vec![file("/w/a.rs", 1000), file("/w/b.rs", 1000)];
    // A cap below the total is hit mid-walk and returned exactly.
    assert_eq!(manifest_dir_rs_bytes_clamped(&entries, 500), 500);
    // A cap above the total yields the true sum.
    assert_eq!(manifest_dir_rs_bytes_clamped(&entries, 10_000), 2000);
}

#[test]
fn a_walk_may_stop_once_the_cap_is_reached() {
    let mut count = ByteCount::new(100);
    assert!(!count.add_entry(&file("/w/a.rs", 60)));
    assert!(!count.add_entry(&file("/w/notes.txt", 60)));
    assert!(!count.add_entry(&WalkEntry { path: path("/w/x.rs"), is_file: true, stat: None }));
    assert_eq!(count.bytes(), 60);
    assert!(count.add_entry(&file("/w/b.rs", 60)));
    assert_eq!(count.bytes(), 100);
    assert!(count.add_entry(&file("/w/c.rs", 1)));
    assert_eq!(count.bytes(), 100);
}

#[test]
fn both_size_proxies_clamp_to_the_same_value() {
    let entries = || {
        vec![
            file("/w/a.rs", 999_999),
            WalkEntry { path: path("/w/dir.rs"), is_file: false, stat: Some((5, None)) },
            WalkEntry { path: path("/w/gone.rs"), is_file: true, stat: None },
            file("/w/b.rs", u64::MAX),
        ]
    };
    assert_eq!(estimate(&entries()), HUGE_CUTOFF_BYTES);
    assert_eq!(build(entries()).size_bytes, HUGE_CUTOFF_BYTES);
}

#[test]
fn files_without_a_time_count_for_size_only() {
    let b = build(vec![
        WalkEntry { path: path("/w/a.rs"), is_file: true, stat: Some((3, None)) },
        WalkEntry { path: path("/w/b.rs"), is_file: true, stat: Some((4, Some(9))) },
    ]);
    assert_eq!(b.size_bytes, 7);
    assert_eq!(b.fingerprint.len(), 1);
    assert_eq!(b.fingerprint.path(0).display(), "/w/b.rs");
    assert_eq!(b.fingerprint.mtime_ns(0), 9);
}

#[test]
fn target_directories_are_not_walked() {
    assert!(!is_walked("target"));
    assert!(is_walked("targets"));
    assert!(is_walked("src"));
}

#[test]
fn fingerprints_do_not_depend_on_the_order_of_the_walk() {
    let a = fingerprint(&[("/w/a.rs", 1), ("/w/b.rs", 2), ("/w/a/c.rs", 3)]);
    let b = fingerprint(&[("/w/a/c.rs", 3), ("/w/b.rs", 2), ("/w/a.rs", 1)]);
    assert!(a == b);
    assert!(a != fingerprint(&[("/w/a.rs", 1), ("/w/b.rs", 2)]));
    assert!(a != fingerprint(&[("/w/a.rs", 1), ("/w/b.rs", 2), ("/w/a/c.rs", 4)]));
    // A file that is recorded again has its new time.
    let again = fingerprint(&[("/w/a.rs", 1), ("/w/a.rs", 5)]);
    assert_eq!((again.len(), again.mtime_ns(0)), (1, 5));
}

#[test]
fn a_build_does_not_depend_on_the_order_of_the_walk() {
    let a = build(vec![file("/w/b.rs", 1), file("/w/a/x.rs", 2), file("/w/a.rs", 3)]);
    let b = build(vec![file("/w/a.rs", 3), file("/w/b.rs", 1), file("/w/a/x.rs", 2)]);
    assert_eq!(a.fingerprint, b.fingerprint);
    assert_eq!(a.size_bytes, b.size_bytes);
    let order: Vec<String> = (0..3).map(|i| a.fingerprint.path(i).display()).collect();
    assert_eq!(order, vec!["/w/a/x.rs", "/w/a.rs", "/w/b.rs"]);
}

#[test]
fn lines_of_one_crate_are_gathered_wherever_they_stand() {
    let text = "ff-cache-v3\t1\n/a\t/a/y.rs\t1\n/b\t/b/x.rs\t2\n/a/\t/a/x.rs\t3\n/a\t/a/y.rs\t4\n";
    let entries = read_entries(text, 1);
    let dirs: Vec<String> = entries.iter().map(|e| e.dir.display()).collect();
    assert_eq!(dirs, vec!["/a", "/b"]);
    assert_eq!(entries[0].fingerprint, fingerprint(&[("/a/x.rs", 3), ("/a/y.rs", 4)]));
}

#[test]
fn an_unchanged_crate_is_skipped_by_the_next_run() {
    let fp = || fingerprint(&[("/ws/a/src/lib.rs", 1), ("/ws/a/src/b.rs", 2)]);
    let mut first = Cache::load(Some(path("/c")), 1, None);
    assert!(!first.matches(&path("/ws/a"), &fp()));
    first.stage(path("/ws/a"), fp());
    assert!(!first.matches(&path("/ws/a"), &fp()), "staged is not retained");
    let saved = first.commit_and_save().unwrap();
    let second = Cache::load(Some(path("/c")), 1, Some(saved.contents.clone()));
    assert!(second.matches(&path("/ws/a"), &fp()));
    assert!(second.matches(&path("/ws/a/"), &fp()), "the same path, written otherwise");
    assert!(!second.matches(&path("/ws/b"), &fp()));
    let other_tools = Cache::load(Some(path("/c")), 2, Some(saved.contents));
    assert!(!other_tools.matches(&path("/ws/a"), &fp()));
}

#[test]
fn a_failed_crate_is_looked_at_again() {
    let fp = |d: &str| fingerprint(&[(&format!("{d}/lib.rs"), 1)]);
    let mut cache = Cache::load(Some(path("/c")), 1, None);
    cache.stage(path("/ws/a"), fp("/ws/a"));
    cache.stage(path("/ws/b"), fp("/ws/b"));
    let report = Report {
        failures: vec![FileFailure { file: path("/ws/a/lib.rs"), manifest_dir: path("/ws/a") }],
        exit_code: 1,
    };
    let saved = settle(cache, &report).unwrap();
    let mut next = Cache::load(Some(path("/c")), 1, Some(saved.contents));
    assert!(!next.matches(&path("/ws/a"), &fp("/ws/a")));
    assert!(next.matches(&path("/ws/b"), &fp("/ws/b")));
    next.invalidate(&path("/ws/b"));
    assert!(!next.matches(&path("/ws/b"), &fp("/ws/b")));
}

#[test]
fn forgetting_covers_what_was_known_and_what_was_staged() {
    let contents = "ff-cache-v3\t0000000000000001\n/a\t/a/x.rs\t1\n/b\t/b/x.rs\t1\n".to_string();
    let mut cache = Cache::load(Some(path("/c")), 1, Some(contents));
    cache.stage(path("/a"), fingerprint(&[("/a/x.rs", 2)]));
    let failures = vec![FileFailure { file: path("/a/x.rs"), manifest_dir: path("/a") }];
    forget_failed(&mut cache, &failures);
    let saved = cache.commit_and_save().unwrap();
    assert_eq!(saved.contents, "ff-cache-v3\t0000000000000001\n/b\t/b/x.rs\t1\n");
}

#[test]
fn what_this_run_learned_wins() {
    let contents = "ff-cache-v3\t0000000000000001\n/a\t/a/x.rs\t1\n".to_string();
    let mut cache = Cache::load(Some(path("/c")), 1, Some(contents));
    cache.stage(path("/a"), fingerprint(&[("/a/x.rs", 2)]));
    cache.stage(path("/a"), fingerprint(&[("/a/y.rs", 3)]));
    let saved = cache.commit_and_save().unwrap();
    assert_eq!(saved.contents, "ff-cache-v3\t0000000000000001\n/a\t/a/y.rs\t3\n");
}

#[test]
fn a_cache_without_a_place_is_not_saved() {
    let mut cache = Cache::load(None, 1, Some("ff-cache-v3\t1\n/a\t/b\t1\n".to_string()));
    assert!(!cache.matches(&path("/a"), &fingerprint(&[("/b", 1)])));
    cache.stage(path("/a"), fingerprint(&[("/b", 1)]));
    assert!(cache.commit_and_save().is_none());
}

#[test]
fn paths_with_tabs_and_newlines_are_left_out() {
    let mut cache = Cache::load(Some(path("/c")), 1, None);
    cache.stage(path("/a\tb"), fingerprint(&[("/x.rs", 1)]));
    cache.stage(path("/d"), fingerprint(&[("/d/\n.rs", 1), ("/d/ok.rs", 2)]));
    let saved = cache.commit_and_save().unwrap();
    assert_eq!(saved.contents, "ff-cache-v3\t0000000000000001\n/d\t/d/ok.rs\t2\n");
}

#[test]
fn a_file_that_is_not_utf8_keeps_its_own_key_and_is_saved_as_it_shows() {
    let odd = |b: u8| FilePath::new(vec![b'/', b'a', b'/', b, b'.', b'r', b's']);
    let mut fp = Fingerprint::new();
    fp.insert(odd(0xff), 1);
    fp.insert(odd(0xfe), 2);
    assert_eq!(fp.len(), 2);
    let mut again = Fingerprint::new();
    again.insert(odd(0xfe), 2);
    again.insert(odd(0xff), 1);
    let mut cache = Cache::load(Some(path("/c")), 1, None);
    cache.stage(path("/a"), fp);
    let saved = cache.commit_and_save().unwrap();
    assert_eq!(
        saved.contents,
        "ff-cache-v3\t0000000000000001\n/a\t/a/\u{fffd}.rs\t2\n/a\t/a/\u{fffd}.rs\t1\n"
    );
    // What was saved is another path, so the crate is formatted again.
    let next = Cache::load(Some(path("/c")), 1, Some(saved.contents));
    assert!(!next.matches(&path("/a"), &again));
}

#[test]
fn headers_and_lines_of_another_form_are_ignored() {
    let good = "ff-cache-v3\tff\textra\n/a\t/a/x.rs\t+12\nshort\n/a\t/b\tx\n/a\t/b\t1\t2\n\n/a\t/a/y.rs\t340282366920938463463374607431768211455\r\n/a\t/a/z.rs\t340282366920938463463374607431768211456\n";
    let entries = read_entries(good, 0xff);
    assert_eq!(entries.len(), 1);
    let fp = &entries[0].fingerprint;
    assert_eq!(fp.len(), 2);
    assert_eq!((fp.path(0).display().as_str(), fp.mtime_ns(0)), ("/a/x.rs", 12));
    assert_eq!((fp.path(1).display().as_str(), fp.mtime_ns(1)), ("/a/y.rs", u128::MAX));

    for bad in [
        "",
        "ff-cache-v3\n/a\t/b\t1\n",
        "ff-cache-v2\tff\n/a\t/b\t1\n",
        "ff-cache-v3\txyz\n/a\t/b\t1\n",
        "ff-cache-v3\t\n/a\t/b\t1\n",
        "ff-cache-v3\t10000000000000000\n/a\t/b\t1\n",
    ] {
        assert!(read_entries(bad, 0xff).is_empty(), "{bad:?}");
    }
}

#[test]
fn fnv_has_its_published_values() {
    let basis = 0xcbf2_9ce4_8422_2325;
    assert_eq!(fnv1a(basis, b""), basis);
    assert_eq!(fnv1a(basis, b"a"), 0xaf63_dc4c_8601_ec8c);
    assert_eq!(fnv1a(basis, b"foobar"), 0x8594_4171_f739_67e8);
}

#[test]
fn the_tool_hash_depends_on_version_and_configs() {
    let v = |t: &str| Some(t.as_bytes().to_vec());
    let none = compute_tool_hash(&None, &None, &None);
    assert_eq!(none, 0xcbf2_9ce4_8422_2325);
    assert_eq!(compute_tool_hash(&v("foobar"), &None, &None), 0x8594_4171_f739_67e8);
    let config = compute_tool_hash(&None, &None, &v("x"));
    assert_eq!(config, fnv1a(none, b"\0rustfmt.toml\0x"));
    assert_eq!(
        compute_tool_hash(&v("r"), &v("y"), &v("x")),
        fnv1a(none, b"r\0.rustfmt.toml\0y\0rustfmt.toml\0x")
    );
}

#[test]
fn the_cache_lives_below_the_home_directory() {
    assert_eq!(
        cache_path(Some(path("/home/u"))).unwrap().display(),
        "/home/u/.cache/cargo-ff/fingerprints.tsv"
    );
    assert!(cache_path(None).is_none());
}
