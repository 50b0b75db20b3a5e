//! What holds of every run's settings, styles and messages.

use crate::cache::{lookup, well_kept, without_failed, Cache};
use crate::cache_laws::{commit_prefers_this_run, failed_crates_are_forgotten};
use crate::cli::{argument_texts, arguments_proper, has_subcommand};
use crate::number::decimal;
use crate::path::same_path;
use crate::pipeline::{exit_status, left_in_cache, or_default, settings, Settings};
use crate::size::{clamped, HUGE_CUTOFF_BYTES};
use crate::style::{colors_on, Color, Style};
use crate::text::{has_text, joined, views};
use crate::text_laws::{
    a_text_occurs_between_two_others, joining_keeps_each_text, parts_of_parts_occur,
};
use crate::types::{cargo_year, edition_of, Config, Edition, Error, FileFailure};
use cargo_metadata::Edition as CargoEdition;
use vstd::prelude::*;

verus! {

/// An option that was given is used, and else the default.
pub proof fn a_given_option_is_used(v: usize, d: usize)
    ensures
        or_default(Some(v), d) == v,
        or_default(None, d) == d,
{
}

/// A run is refused exactly where it asks for no workers. What is asked for is
/// used; else there is a worker per unit of parallelism, at least one where that
/// is not known, and three crates go into a batch.
pub proof fn a_run_is_set_up_as_asked(
    cfg: Config,
    available: Option<usize>,
    r: Result<Settings, Error>,
)
    requires
        call_ensures(settings, (&cfg, available), r),
    ensures
        r is Err <==> cfg.workers == Some(0usize),
        r is Ok && cfg.workers is Some ==> r->Ok_0.workers == cfg.workers->0,
        r is Ok && cfg.workers is None && available is Some ==> r->Ok_0.workers == available->0,
        r is Ok && cfg.workers is None && available is None ==> r->Ok_0.workers == 1,
        r is Ok && cfg.batch_size is Some ==> r->Ok_0.batch_size == cfg.batch_size->0,
        r is Ok && cfg.batch_size is None ==> r->Ok_0.batch_size == 3,
        r is Ok && cfg.channel_capacity is Some ==> r->Ok_0.channel_capacity
            == cfg.channel_capacity->0,
        r is Ok && cfg.channel_capacity is None ==> r->Ok_0.channel_capacity == 512,
        r is Ok ==> r->Ok_0.pack_multiplier == 4 && r->Ok_0.solo_threshold == 1_000_000,
{
}

/// The process ends with the report's code; one that no process can end with
/// becomes a failure.
pub proof fn a_failure_never_ends_as_success(code: i32, s: u8)
    requires
        call_ensures(exit_status, (code,), s),
    ensures
        s == 0 <==> code == 0,
        0 <= code <= 255 ==> s == code,
{
}

/// A crate counts as a giant from a million bytes on.
pub proof fn giants_start_at_a_million_bytes(bytes: nat)
    ensures
        clamped(bytes, HUGE_CUTOFF_BYTES) == 1_000_000 <==> bytes >= 1_000_000,
        bytes < 1_000_000 ==> clamped(bytes, HUGE_CUTOFF_BYTES) == bytes,
{
}

/// A crate with a failed file is not left in the cache; of every other, what
/// this run learned, and else what was known.
pub proof fn failures_are_not_left_in_the_cache(
    cache: Cache,
    failures: Seq<FileFailure>,
    dir: Seq<u8>,
)
    requires
        well_kept(cache.retained()),
        well_kept(cache.pending()),
    ensures
        (exists|i: int|
            0 <= i < failures.len() && same_path((#[trigger] failures[i]).manifest_dir@, dir))
            ==> lookup(left_in_cache(cache, failures), dir) is None,
        (forall|i: int|
            0 <= i < failures.len() ==> !same_path((#[trigger] failures[i]).manifest_dir@, dir))
            ==> lookup(left_in_cache(cache, failures), dir) == (if lookup(
            cache.pending(),
            dir,
        ) is Some {
            lookup(cache.pending(), dir)
        } else {
            lookup(cache.retained(), dir)
        }),
{
    failed_crates_are_forgotten(cache.retained(), failures, dir);
    failed_crates_are_forgotten(cache.pending(), failures, dir);
    commit_prefers_this_run(
        without_failed(cache.retained(), failures),
        without_failed(cache.pending(), failures),
        dir,
    );
}

/// Color is forced by any value but `0`; without that, it is on exactly at a
/// terminal where it was not turned off.
pub proof fn color_is_forced_or_at_a_terminal(force: Seq<char>, no_color: bool, terminal: bool)
    ensures
        force != "0"@ ==> colors_on(Some(force), no_color, terminal),
        colors_on(Some("0"@), no_color, terminal) == colors_on(None, no_color, terminal),
        !colors_on(None, true, terminal),
        colors_on(None, false, terminal) == terminal,
{
}

/// Bold goes before the color, each has its sequence, and one reset ends both; a
/// style without either adds nothing.
pub proof fn styles_are_switched_on_and_off(color: Option<Color>, bold: bool)
    ensures
        (Style { bold: true, color: None }).on() == "\x1b[1m"@,
        (Style { bold: false, color: Some(Color::Yellow) }).on() == "\x1b[33m"@,
        (Style { bold: false, color: Some(Color::Cyan) }).on() == "\x1b[36m"@,
        (Style { bold: false, color: None }).on().len() == 0,
        (Style { bold: true, color }).on() == "\x1b[1m"@ + (Style { bold: false, color }).on(),
        (Style { bold, color }).on().len() == 0 <==> (Style { bold, color }).off().len() == 0,
        bold || color is Some ==> (Style { bold, color }).off() == "\x1b[0m"@,
{
    reveal_strlit("");
    reveal_strlit("\x1b[1m");
    reveal_strlit("\x1b[33m");
    reveal_strlit("\x1b[36m");
    reveal_strlit("\x1b[0m");
    assert((Style { bold: true, color: None }).on() =~= "\x1b[1m"@);
    assert((Style { bold: false, color: Some(Color::Yellow) }).on() =~= "\x1b[33m"@);
    assert((Style { bold: false, color: Some(Color::Cyan) }).on() =~= "\x1b[36m"@);
    assert((Style { bold: true, color }).on() =~= "\x1b[1m"@ + (Style { bold: false, color }).on());
}

/// A styled text stands whole between what switches the style on and off.
pub proof fn styled_text_is_whole(style: Style, text: Seq<char>)
    ensures
        style.styled(text) == style.on() + text + style.off(),
        has_text(style.styled(text), text),
{
    a_text_occurs_between_two_others(text, style.on(), text, style.off());
}

/// The texts of arguments are those of each argument.
pub proof fn argument_texts_are_those_of_each(argv: Seq<Option<String>>)
    ensures
        argument_texts(argv).len() == argv.len(),
        forall|i: int|
            0 <= i < argv.len() && (#[trigger] argv[i]) is Some ==> argument_texts(argv)[i] == Some(
                argv[i]->0@,
            ),
        forall|i: int|
            0 <= i < argv.len() && (#[trigger] argv[i]) is None ==> argument_texts(
                argv,
            )[i] is None,
{
}

/// Only an `ff` right behind the program's name is the subcommand; everything
/// else is kept, in its order.
pub proof fn only_the_subcommand_name_is_dropped<T>(argv: Seq<T>, texts: Seq<Option<Seq<char>>>)
    requires
        argv.len() == texts.len(),
    ensures
        texts.len() < 2 || texts[1] != Some("ff"@) ==> arguments_proper(argv, texts) == argv,
        texts.len() >= 2 && texts[1] == Some("ff"@) ==> {
            &&& arguments_proper(argv, texts).len() == argv.len() - 1
            &&& arguments_proper(argv, texts)[0] == argv[0]
            &&& forall|i: int|
                1 <= i < argv.len() - 1 ==> arguments_proper(argv, texts)[i] == #[trigger] argv[i
                    + 1]
        },
        has_subcommand(texts) <==> texts.len() >= 2 && texts[1] == Some("ff"@),
{
}

/// Each edition that cargo reports and this tool knows is taken for itself; no
/// other is taken for a known one.
pub proof fn known_editions_are_taken_for_themselves(e: CargoEdition)
    ensures
        edition_of(cargo_year(CargoEdition::E2015)) == Some(Edition::E2015),
        edition_of(cargo_year(CargoEdition::E2018)) == Some(Edition::E2018),
        edition_of(cargo_year(CargoEdition::E2021)) == Some(Edition::E2021),
        edition_of(cargo_year(CargoEdition::E2024)) == Some(Edition::E2024),
        e != CargoEdition::E2015 && e != CargoEdition::E2018 && e != CargoEdition::E2021 && e
            != CargoEdition::E2024 ==> edition_of(cargo_year(e)) is None,
{
    reveal_strlit("2015");
    reveal_strlit("2018");
    reveal_strlit("2021");
    reveal_strlit("2024");
    reveal_strlit("2027");
    reveal_strlit("2030");
    assert("2015"@[3] != "2018"@[3]);
    assert("2015"@[2] != "2021"@[2]);
    assert("2018"@[2] != "2021"@[2]);
    assert("2015"@[2] != "2024"@[2]);
    assert("2018"@[2] != "2024"@[2]);
    assert("2021"@[3] != "2024"@[3]);
    assert("2027"@[2] != "2015"@[2]);
    assert("2027"@[2] != "2018"@[2]);
    assert("2027"@[3] != "2021"@[3]);
    assert("2027"@[3] != "2024"@[3]);
    assert("2030"@[2] != "2015"@[2]);
    assert("2030"@[2] != "2018"@[2]);
    assert("2030"@[2] != "2021"@[2]);
    assert("2030"@[2] != "2024"@[2]);
}

/// A message names what it is about: the number, every unknown package, the
/// edition and its package, the thread, or the underlying message.
pub proof fn messages_name_what_they_are_about(e: Error, i: int)
    ensures
        match e {
            Error::InvalidWorkers(n) => has_text(e.text(), "(got "@ + decimal(n as nat) + ")"@),
            Error::Metadata(m) => e.text() == "cargo metadata failed: "@ + m@,
            Error::Io(m) => e.text() == "io: "@ + m@,
            Error::UnsupportedEdition { edition, package } => has_text(
                e.text(),
                "unsupported edition `"@ + edition@ + "` for package `"@ + package@ + "`"@,
            ),
            Error::UnknownPackages(names) => 0 <= i < names@.len() ==> has_text(
                e.text(),
                names@[i]@,
            ),
            Error::ThreadPanicked(name) => e.text() == name@ + " thread panicked"@,
            Error::SendClosed => e.text() == "send failed (channel closed)"@,
        },
{
    match e {
        Error::InvalidWorkers(n) => {
            reveal_strlit("`workers` must be >= 1 (got ");
            reveal_strlit("`workers` must be >= 1 ");
            reveal_strlit("(got ");
            let front = "`workers` must be >= 1 "@;
            let part = "(got "@ + decimal(n as nat) + ")"@;
            let none = Seq::<char>::empty();
            assert("`workers` must be >= 1 (got "@ =~= front + "(got "@);
            assert(e.text() =~= front + part + none);
            a_text_occurs_between_two_others(part, front, part, none);
        },
        Error::UnsupportedEdition { edition, package } => {
            reveal_strlit("`; cargo-ff knows 2015/2018/2021/2024 — bump the dep or pin a known edition");
            reveal_strlit("; cargo-ff knows 2015/2018/2021/2024 — bump the dep or pin a known edition");
            reveal_strlit("`");
            let rest = "; cargo-ff knows 2015/2018/2021/2024 — bump the dep or pin a known edition"@;
            let part = "unsupported edition `"@ + edition@ + "` for package `"@ + package@ + "`"@;
            let none = Seq::<char>::empty();
            assert("`; cargo-ff knows 2015/2018/2021/2024 — bump the dep or pin a known edition"@
                =~= "`"@ + rest);
            assert(e.text() =~= none + part + rest);
            a_text_occurs_between_two_others(part, none, part, rest);
        },
        Error::UnknownPackages(names) => {
            if 0 <= i < names@.len() {
                let list = joined(views(names@), ", "@);
                assert(views(names@)[i] == names@[i]@);
                joining_keeps_each_text(views(names@), ", "@, i);
                parts_of_parts_occur(
                    "package(s) not found in the workspace: "@,
                    list,
                    Seq::empty(),
                    names@[i]@,
                );
            }
        },
        _ => {},
    }
}

} // verus!
