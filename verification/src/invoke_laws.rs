//! What holds of every rustfmt invocation.

use crate::bytes::shown;
use crate::invoke::{
    argument_views, batch_files, dirs_of, file_views, plan, ran, rustfmt_arguments, spawn_failure,
    text_arguments, Invocation,
};
use crate::number::decimal;
use crate::text::{joined, views};
use crate::types::{Batch, BatchFile, BatchResult, Config, CrateUnit, Edition};
use vstd::prelude::*;
use vstd::utf8::encode_utf8;

verus! {

/// rustfmt is told the edition first. Then comes `--check`, exactly where a check
/// was asked for, whatever else is passed. Then come the arguments that the user
/// gave, all of them and in their order. Only files follow.
pub proof fn arguments_follow_the_configuration(
    edition: Edition,
    units: Seq<CrateUnit>,
    cfg: Config,
)
    ensures
        ({
            let a = rustfmt_arguments(edition, units, cfg);
            let given = cfg.rustfmt_args@;
            &&& a.len() >= 2 + given.len() + (if cfg.check {
                1int
            } else {
                0
            })
            &&& a[0] == encode_utf8("--edition"@)
            &&& edition == Edition::E2015 ==> a[1] == encode_utf8("2015"@)
            &&& edition == Edition::E2018 ==> a[1] == encode_utf8("2018"@)
            &&& edition == Edition::E2021 ==> a[1] == encode_utf8("2021"@)
            &&& edition == Edition::E2024 ==> a[1] == encode_utf8("2024"@)
            &&& cfg.check ==> a[2] == encode_utf8("--check"@)
            &&& cfg.check ==> forall|i: int|
                0 <= i < given.len() ==> a[3 + i] == encode_utf8((#[trigger] given[i])@)
            &&& !cfg.check ==> forall|i: int|
                0 <= i < given.len() ==> a[2 + i] == encode_utf8((#[trigger] given[i])@)
            &&& units.len() == 0 ==> a.len() == 2 + given.len() + (if cfg.check {
                1int
            } else {
                0
            })
        }),
{
    let a = rustfmt_arguments(edition, units, cfg);
    let given = cfg.rustfmt_args@;
    let texts = (if cfg.check {
        seq!["--check"@]
    } else {
        Seq::empty()
    }) + views(given);
    let k: int = if cfg.check {
        1
    } else {
        0
    };
    assert(views(given).len() == given.len());
    assert forall|i: int| 0 <= i < given.len() implies a[2 + k + i] == encode_utf8(
        (#[trigger] given[i])@,
    ) by {
        assert(views(given)[i] == given[i]@);
        assert(texts[k + i] == views(given)[i]);
        assert(text_arguments(texts)[k + i] == encode_utf8(texts[k + i]));
    }
    if cfg.check {
        assert(texts[0] == "--check"@);
        assert(text_arguments(texts)[0] == encode_utf8("--check"@));
    }
}

/// Asking for a check adds `--check` and changes nothing else.
pub proof fn a_check_adds_one_argument(
    edition: Edition,
    units: Seq<CrateUnit>,
    cfg: Config,
    checked: Config,
)
    requires
        !cfg.check,
        checked.check,
        cfg.rustfmt_args == checked.rustfmt_args,
    ensures
        rustfmt_arguments(edition, units, checked) == rustfmt_arguments(edition, units, cfg).insert(
            2,
            encode_utf8("--check"@),
        ),
{
    let given = views(cfg.rustfmt_args@);
    let with = seq!["--check"@] + given;
    let without = Seq::<Seq<char>>::empty() + given;
    assert(without =~= given);
    assert(text_arguments(with) =~= seq![encode_utf8("--check"@)] + text_arguments(given));
    assert(rustfmt_arguments(edition, units, checked) =~= rustfmt_arguments(
        edition,
        units,
        cfg,
    ).insert(2, encode_utf8("--check"@)));
}

/// One more crate in a batch adds just its files, at the end and in their order.
pub proof fn one_more_crate_adds_its_files(
    edition: Edition,
    units: Seq<CrateUnit>,
    unit: CrateUnit,
    cfg: Config,
)
    ensures
        rustfmt_arguments(edition, units.push(unit), cfg) == rustfmt_arguments(
            edition,
            units,
            cfg,
        ) + Seq::new(unit.files@.len(), |i: int| unit.files@[i]@),
        batch_files(units.push(unit)) == batch_files(units) + Seq::new(
            unit.files@.len(),
            |i: int| (unit.files@[i]@, unit.manifest_dir@),
        ),
        batch_files(Seq::empty()).len() == 0,
{
    let more = Seq::new(unit.files@.len(), |i: int| (unit.files@[i]@, unit.manifest_dir@));
    assert(units.push(unit).drop_last() =~= units);
    assert(batch_files(units.push(unit)) =~= batch_files(units) + more);
    assert(rustfmt_arguments(edition, units.push(unit), cfg) =~= rustfmt_arguments(
        edition,
        units,
        cfg,
    ) + Seq::new(unit.files@.len(), |i: int| unit.files@[i]@));
}

/// What vectors of arguments and files hold is what each of their elements holds.
pub proof fn invocations_hold_each_argument(args: Seq<Vec<u8>>, files: Seq<BatchFile>)
    ensures
        argument_views(args).len() == args.len(),
        forall|i: int| 0 <= i < args.len() ==> argument_views(args)[i] == (#[trigger] args[i])@,
        file_views(files).len() == files.len(),
        forall|i: int|
            0 <= i < files.len() ==> file_views(files)[i] == (
                (#[trigger] files[i]).file@,
                files[i].manifest_dir@,
            ),
{
}

/// A failure to spawn tells how many crates there were, each of them, and why.
pub proof fn spawn_failure_names_every_crate(units: Seq<CrateUnit>, error: Seq<char>)
    ensures
        spawn_failure(units, error) == "failed to spawn rustfmt for batch ("@ + decimal(
            units.len(),
        ) + " crates: "@ + joined(
            Seq::new(units.len(), |i: int| shown(units[i].manifest_dir@)),
            ", "@,
        ) + "): "@ + error + "\n"@,
{
    assert(dirs_of(units) =~= Seq::new(
        units.len(),
        |i: int| shown(units[i].manifest_dir@),
    ));
}

/// What is run for a batch: after the edition comes `--check` where a check was
/// asked for, and the user's arguments, and behind all of them the files.
pub proof fn a_planned_invocation_follows_the_configuration(
    batch: Batch,
    cfg: Config,
    inv: Invocation,
)
    requires
        call_ensures(plan, (&batch, &cfg), inv),
    ensures
        ({
            let k: int = if cfg.check {
                3
            } else {
                2
            };
            let given = cfg.rustfmt_args@;
            &&& inv.args@.len() == k + given.len() + inv.files@.len()
            &&& inv.args@[0]@ == encode_utf8("--edition"@)
            &&& inv.args@[1]@ == encode_utf8(batch.edition.year())
            &&& cfg.check ==> inv.args@[2]@ == encode_utf8("--check"@)
            &&& forall|i: int|
                0 <= i < given.len() ==> inv.args@[k + i]@ == encode_utf8((#[trigger] given[i])@)
            &&& forall|i: int|
                0 <= i < inv.files@.len() ==> inv.args@[k + given.len() + i]@ == (
                #[trigger] inv.files@[i]).file@
        }),
{
    let k: int = if cfg.check {
        3
    } else {
        2
    };
    let given = cfg.rustfmt_args@;
    let units = batch.units@;
    let all = rustfmt_arguments(batch.edition, units, cfg);
    let none = rustfmt_arguments(batch.edition, Seq::empty(), cfg);
    arguments_follow_the_configuration(batch.edition, units, cfg);
    arguments_follow_the_configuration(batch.edition, Seq::empty(), cfg);
    let files = batch_files(units).map_values(|f: (Seq<u8>, Seq<u8>)| f.0);
    assert(all =~= none + files);
    assert(argument_views(inv.args@).len() == inv.args@.len());
    assert(file_views(inv.files@).len() == inv.files@.len());
    assert forall|i: int| 0 <= i < inv.args@.len() implies all[i] == (#[trigger] inv.args@[i])@ by {
        assert(argument_views(inv.args@)[i] == inv.args@[i]@);
    }
    assert forall|i: int| 0 <= i < inv.files@.len() implies inv.args@[k + given.len() + i]@ == (
    #[trigger] inv.files@[i]).file@ by {
        assert(file_views(inv.files@)[i] == (inv.files@[i].file@, inv.files@[i].manifest_dir@));
        assert(files[i] == inv.files@[i].file@);
        assert(all[k + given.len() + i] == files[i]);
    }
}

/// Every file of an invocation is accounted for. One that ended by itself counts
/// by its code; one that was ended otherwise counts as failed.
pub proof fn an_unfinished_invocation_counts_as_failed(
    inv: Invocation,
    stdout: Vec<u8>,
    stderr: Vec<u8>,
    code: Option<i32>,
    r: BatchResult,
)
    requires
        call_ensures(ran, (inv, stdout, stderr, code), r),
    ensures
        r.files@ == inv.files@,
        r.stdout@ == stdout@,
        r.stderr@ == stderr@,
        code is Some ==> r.exit_code == code->0,
        code is None ==> r.exit_code != 0,
{
}

} // verus!
