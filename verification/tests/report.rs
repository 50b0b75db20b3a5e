//! Invocations, their results, and the report.

use cargo_ff::cli::{names_subcommand, strip_subcommand, Cli, FfArgs, WorkerCount};
use cargo_ff::coalesce::run;
use cargo_ff::invoke::{plan, ran, spawn_failed};
use cargo_ff::path::FilePath;
use cargo_ff::pipeline::{exit_status, settings};
use cargo_ff::report::aggregate;
use cargo_ff::types::{Batch, BatchFile, BatchResult, Config, CrateUnit, Edition, Error};

fn path(t: &str) -> FilePath {
    FilePath::from_text(t)
}

fn result(sort_key: &str, exit_code: i32, files: &[(&str, &str)]) -> BatchResult {
    BatchResult {
        sort_key: path(sort_key),
        stdout: Vec::new(),
        stderr: Vec::new(),
        exit_code,
        files: files
            .iter()
            .map(|(f, m)| BatchFile { file: path(f), manifest_dir: path(m) })
            .collect(),
    }
}

#[test]
fn clean_results_produce_no_failures() {
    let report = aggregate(vec![result("a", 0, &[("a/src/lib.rs", "a")])]).report;
    assert_eq!(report.exit_code, 0);
    assert!(report.failures.is_empty());
}

#[test]
fn nonzero_exit_attributes_every_file_in_the_batch() {
    let report = aggregate(vec![result(
        "a",
        1,
        &[("a/src/lib.rs", "a"), ("a/src/main.rs", "a")],
    )])
    .report;
    assert_eq!(report.exit_code, 1);
    assert_eq!(report.failures.len(), 2, "each file in a failing batch is reported");
}

#[test]
fn failures_follow_deterministic_sort_key_order() {
    // Given out of order; the results are sorted by sort_key.
    let report = aggregate(vec![
        result("z", 1, &[("z/src/lib.rs", "z")]),
        result("a", 1, &[("a/src/lib.rs", "a")]),
    ])
    .report;
    let dirs: Vec<_> = report.failures.iter().map(|f| f.manifest_dir.clone()).collect();
    assert_eq!(dirs, vec![path("a"), path("z")]);
}

#[test]
fn results_come_out_in_sort_key_order_whatever_the_order_of_arrival() {
    let keys = ["/ws/b", "/ws/a/x", "/ws/a", "/ws/a-b"];
    let expected = vec!["/ws/a", "/ws/a/x", "/ws/a-b", "/ws/b"];
    for shift in 0..keys.len() {
        let results = (0..keys.len())
            .map(|i| result(keys[(i + shift) % keys.len()], 0, &[]))
            .collect();
        let done = aggregate(results);
        let order: Vec<String> = done.results.iter().map(|r| r.sort_key.display()).collect();
        assert_eq!(order, expected);
    }
}

#[test]
fn negative_codes_fail_the_run() {
    let done = aggregate(vec![result("a", 0, &[]), result("b", -1, &[("b/x.rs", "b")])]);
    assert_eq!(done.report.exit_code, 1);
    assert_eq!(done.report.failures.len(), 1);
    assert_eq!(done.report.failures[0].file.display(), "b/x.rs");
}

fn two_crates() -> Batch {
    Batch {
        edition: Edition::E2021,
        units: vec![
            CrateUnit {
                edition: Edition::E2021,
                manifest_dir: path("/ws/b"),
                files: vec![path("/ws/b/src/lib.rs"), path("/ws/b/tests/it.rs")],
                size_bytes: 30,
            },
            CrateUnit {
                edition: Edition::E2021,
                manifest_dir: path("/ws/a"),
                files: vec![path("/ws/a/src/main.rs")],
                size_bytes: 12,
            },
        ],
    }
}

#[test]
fn an_invocation_passes_edition_flags_and_files() {
    let b = two_crates();
    let mut cfg = Config::default();
    cfg.check = true;
    cfg.rustfmt_args = vec!["--config".to_string(), "max_width=80".to_string()];
    let inv = plan(&b, &cfg);
    assert_eq!(inv.current_dir.display(), "/ws/a");
    let text = |a: &Vec<u8>| String::from_utf8(a.clone()).unwrap();
    assert_eq!(
        inv.args.iter().map(text).collect::<Vec<String>>(),
        vec![
            "--edition",
            "2021",
            "--check",
            "--config",
            "max_width=80",
            "/ws/b/src/lib.rs",
            "/ws/b/tests/it.rs",
            "/ws/a/src/main.rs",
        ]
    );
    let owners: Vec<String> = inv.files.iter().map(|f| f.manifest_dir.display()).collect();
    assert_eq!(owners, vec!["/ws/b", "/ws/b", "/ws/a"]);

    let plain = plan(&b, &Config::default());
    assert_eq!(text(&plain.args[2]), "/ws/b/src/lib.rs");
}

#[test]
fn files_are_passed_byte_for_byte() {
    let mut b = two_crates();
    b.units[1].files = vec![FilePath::new(b"/ws/a/\xff.rs".to_vec())];
    let inv = plan(&b, &Config::default());
    assert_eq!(inv.args.last().unwrap(), b"/ws/a/\xff.rs");
    assert_eq!(inv.files.last().unwrap().file.as_bytes(), b"/ws/a/\xff.rs");
}

#[test]
fn batch_size_changes_neither_files_nor_editions() {
    let units = || -> Vec<CrateUnit> {
        (0..30u64)
            .map(|i| CrateUnit {
                edition: if i % 3 == 0 { Edition::E2018 } else { Edition::E2021 },
                manifest_dir: path(&format!("/ws/c{i}")),
                files: (0..i % 4).map(|f| path(&format!("/ws/c{i}/{f}.rs"))).collect(),
                size_bytes: if i == 7 { 2_000_000 } else { i % 5 },
            })
            .collect()
    };
    let formatted = |batch_size: Option<usize>| -> Vec<(String, String)> {
        let mut cfg = Config::default();
        cfg.batch_size = batch_size;
        cfg.rustfmt_args = vec!["-v".to_string()];
        let s = settings(&cfg, Some(1)).unwrap();
        let mut seen = Vec::new();
        for b in run(units(), s.batch_size, s.pack_multiplier, s.solo_threshold) {
            let inv = plan(&b, &cfg);
            assert_eq!(inv.args[2], b"-v");
            for f in &inv.args[3..] {
                let file = String::from_utf8(f.clone()).unwrap();
                seen.push((file, String::from_utf8(inv.args[1].clone()).unwrap()));
            }
        }
        seen.sort();
        seen
    };
    let default = formatted(None);
    assert_eq!(default.len(), (0..30).map(|i| i % 4).sum::<usize>());
    for size in [1, 2, 3, 24] {
        assert_eq!(formatted(Some(size)), default, "batch size {size}");
    }
}

#[test]
fn batches_sum_sizes_and_files() {
    let b = two_crates();
    assert_eq!(b.size_bytes(), 42);
    assert_eq!(b.file_count(), 3);
    assert_eq!(b.sort_key(), path("/ws/a"));
    let none = Batch { edition: Edition::E2015, units: Vec::new() };
    assert_eq!(none.size_bytes(), 0);
    assert_eq!(none.file_count(), 0);
    assert_eq!(none.sort_key().display(), "");
}

#[test]
fn a_failure_to_spawn_names_the_crates() {
    let b = two_crates();
    let r = spawn_failed(&b, plan(&b, &Config::default()), "not found");
    assert_eq!(r.exit_code, 2);
    assert!(r.stdout.is_empty());
    assert_eq!(
        String::from_utf8(r.stderr).unwrap(),
        "failed to spawn rustfmt for batch (2 crates: /ws/b, /ws/a): not found\n"
    );
    assert_eq!(r.sort_key.display(), "/ws/a");
    assert_eq!(r.files.len(), 3);
}

#[test]
fn a_process_that_a_signal_ended_has_code_minus_one() {
    let b = two_crates();
    let cfg = Config::default();
    let r = ran(plan(&b, &cfg), vec![1], vec![2, 3], None);
    assert_eq!((r.exit_code, r.stdout, r.stderr), (-1, vec![1], vec![2, 3]));
    assert_eq!(ran(plan(&b, &cfg), Vec::new(), Vec::new(), Some(1)).exit_code, 1);
}

#[test]
fn run_rejects_zero_workers() {
    let mut cfg = Config::default();
    cfg.workers = Some(0);
    let err = settings(&cfg, Some(8)).expect_err("workers=0 must be rejected");
    assert!(matches!(err, Error::InvalidWorkers(0)));
    assert_eq!(err.message(), "`workers` must be >= 1 (got 0)");
}

#[test]
fn settings_default_to_the_machine() {
    let mut cfg = Config::default();
    let s = settings(&cfg, Some(8)).unwrap();
    assert_eq!((s.workers, s.channel_capacity, s.batch_size), (8, 512, 3));
    assert_eq!((s.pack_multiplier, s.solo_threshold), (4, 1_000_000));
    assert_eq!(settings(&cfg, None).unwrap().workers, 1);
    cfg.workers = Some(2);
    cfg.channel_capacity = Some(7);
    cfg.batch_size = Some(1);
    let s = settings(&cfg, Some(8)).unwrap();
    assert_eq!((s.workers, s.channel_capacity, s.batch_size), (2, 7, 1));
}

#[test]
fn the_exit_status_is_the_code_where_it_fits() {
    assert_eq!(exit_status(0), 0);
    assert_eq!(exit_status(1), 1);
    assert_eq!(exit_status(255), 255);
    assert_eq!(exit_status(256), 1);
    assert_eq!(exit_status(-1), 1);
}

#[test]
fn the_command_line_becomes_a_config() {
    let cfg = Cli {
        check: true,
        all: true,
        packages: vec!["a".to_string()],
        manifest_path: Some(path("/ws/Cargo.toml")),
        rustfmt_args: vec!["-v".to_string()],
        ff: FfArgs {
            workers: WorkerCount::new(3),
            channel_capacity: Some(4),
            batch_size: Some(5),
            experimental_cache: true,
            warnings: true,
        },
    }
    .into_config();
    assert!(cfg.check && cfg.all && cfg.experimental_cache && cfg.warnings);
    assert_eq!(cfg.packages, vec!["a"]);
    assert_eq!(cfg.manifest_path, Some(path("/ws/Cargo.toml")));
    assert_eq!(cfg.rustfmt_args, vec!["-v"]);
    assert_eq!((cfg.workers, cfg.channel_capacity, cfg.batch_size), (Some(3), Some(4), Some(5)));
}

#[test]
fn a_number_of_workers_is_at_least_one() {
    assert!(WorkerCount::new(0).is_none());
    assert_eq!(WorkerCount::new(1).unwrap().get(), 1);
    assert_eq!(WorkerCount::new(usize::MAX).unwrap().get(), usize::MAX);
}

#[test]
fn only_a_leading_ff_is_the_subcommand() {
    let argv = |v: &[&str]| -> Vec<Option<String>> { v.iter().map(|a| Some(a.to_string())).collect() };
    assert!(names_subcommand(&argv(&["cargo-ff", "ff", "--all"])));
    assert!(!names_subcommand(&argv(&["cargo-ff", "--all", "ff"])));
    assert!(!names_subcommand(&argv(&["ff"])));
    assert!(!names_subcommand(&vec![Some("cargo-ff".to_string()), None]));
}

#[test]
fn dropping_the_subcommand_leaves_the_arguments_proper() {
    let strip = |v: &[&'static str]| -> Vec<&'static str> {
        let texts = v.iter().map(|a| Some(a.to_string())).collect();
        strip_subcommand(v.to_vec(), &texts)
    };
    assert_eq!(strip(&["cargo-ff", "ff", "--check"]), vec!["cargo-ff", "--check"]);
    assert_eq!(strip(&["cargo-ff", "--check"]), vec!["cargo-ff", "--check"]);
    assert_eq!(strip(&["cargo-ff", "ff", "ff"]), vec!["cargo-ff", "ff"]);
    assert_eq!(strip(&["cargo-ff", "-p", "ff"]), vec!["cargo-ff", "-p", "ff"]);
    assert_eq!(strip(&["ff"]), vec!["ff"]);
    assert!(strip(&[]).is_empty());
}
