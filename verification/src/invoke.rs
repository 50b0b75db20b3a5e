//! One rustfmt invocation: what to run, and what came of it.

use crate::bytes::{bytes_between, bytes_of, shown};
use crate::number::{decimal, push_decimal};
use crate::path::FilePath;
use crate::text::{join_texts, joined, views};
use crate::types::{least_dir, Batch, BatchFile, BatchResult, Config, CrateUnit, Edition};
use vstd::prelude::*;
use vstd::utf8::encode_utf8;

verus! {

/// A rustfmt invocation, not yet run.
#[derive(Debug)]
pub struct Invocation {
    /// Where to run it. rustfmt finds its configuration from each file's path,
    /// so any directory does; one of the batch's crates makes a failure to
    /// spawn point at the batch.
    pub current_dir: FilePath,
    /// The arguments, byte for byte.
    pub args: Vec<Vec<u8>>,
    /// The files, with the crates that own them.
    pub files: Vec<BatchFile>,
}

/// What a sequence of batch files holds.
pub open spec fn file_views(v: Seq<BatchFile>) -> Seq<(Seq<u8>, Seq<u8>)> {
    v.map_values(|b: BatchFile| (b.file@, b.manifest_dir@))
}

/// The files of a crate, each with its manifest directory.
pub open spec fn unit_files(u: CrateUnit) -> Seq<(Seq<u8>, Seq<u8>)> {
    u.files@.map_values(|f: FilePath| (f@, u.manifest_dir@))
}

/// The files of several crates.
pub open spec fn batch_files(units: Seq<CrateUnit>) -> Seq<(Seq<u8>, Seq<u8>)>
    decreases units.len(),
{
    if units.len() == 0 {
        Seq::empty()
    } else {
        batch_files(units.drop_last()) + unit_files(units.last())
    }
}

/// The arguments that are the same for every batch.
pub open spec fn extra_arguments(cfg: Config) -> Seq<Seq<char>> {
    (if cfg.check {
        seq!["--check"@]
    } else {
        Seq::empty()
    }) + views(cfg.rustfmt_args@)
}

/// Texts as arguments.
pub open spec fn text_arguments(texts: Seq<Seq<char>>) -> Seq<Seq<u8>> {
    texts.map_values(|t: Seq<char>| encode_utf8(t))
}

/// The arguments of the invocation that formats crates of one edition.
pub open spec fn rustfmt_arguments(
    edition: Edition,
    units: Seq<CrateUnit>,
    cfg: Config,
) -> Seq<Seq<u8>> {
    text_arguments(seq!["--edition"@, edition.year()]) + text_arguments(extra_arguments(cfg))
        + batch_files(units).map_values(|f: (Seq<u8>, Seq<u8>)| f.0)
}

/// The arguments that a vector holds.
pub open spec fn argument_views(v: Seq<Vec<u8>>) -> Seq<Seq<u8>> {
    v.map_values(|a: Vec<u8>| a@)
}

fn files_of(units: &Vec<CrateUnit>) -> (out: Vec<BatchFile>)
    ensures
        file_views(out@) == batch_files(units@),
{
    let mut out: Vec<BatchFile> = Vec::new();
    let mut i: usize = 0;
    assert(units@.take(0) =~= Seq::<CrateUnit>::empty());
    assert(file_views(out@) =~= Seq::empty());
    while i < units.len()
        invariant
            i <= units@.len(),
            file_views(out@) == batch_files(units@.take(i as int)),
        decreases units@.len() - i,
    {
        assert(units@.take(i + 1).drop_last() =~= units@.take(i as int));
        let unit = &units[i];
        let ghost done = file_views(out@);
        let ghost mine = unit_files(*unit);
        let mut j: usize = 0;
        assert(done + mine.take(0) =~= done);
        while j < unit.files.len()
            invariant
                j <= unit.files@.len(),
                mine == unit_files(*unit),
                file_views(out@) == done + mine.take(j as int),
            decreases unit.files@.len() - j,
        {
            let ghost before = out@;
            out.push(
                BatchFile {
                    file: unit.files[j].clone(),
                    manifest_dir: unit.manifest_dir.clone(),
                },
            );
            assert(file_views(out@) =~= file_views(before).push(mine[j as int]));
            assert(done + mine.take(j + 1) =~= (done + mine.take(j as int)).push(mine[j as int]));
            j += 1;
        }
        assert(mine.take(j as int) =~= mine);
        i += 1;
    }
    assert(units@.take(i as int) =~= units@);
    out
}

fn push_argument(v: &mut Vec<Vec<u8>>, a: Vec<u8>)
    ensures
        argument_views(final(v)@) == argument_views(old(v)@).push(a@),
{
    let ghost before = v@;
    v.push(a);
    assert(argument_views(v@) =~= argument_views(before).push(a@));
}

/// The invocation that formats `batch`.
pub fn plan(batch: &Batch, cfg: &Config) -> (inv: Invocation)
    ensures
        inv.current_dir@ == least_dir(batch.units@),
        argument_views(inv.args@) == rustfmt_arguments(batch.edition, batch.units@, *cfg),
        file_views(inv.files@) == batch_files(batch.units@),
{
    let files = files_of(&batch.units);
    let ghost head = text_arguments(seq!["--edition"@, batch.edition.year()]);
    let ghost extra = text_arguments(extra_arguments(*cfg));
    let mut args: Vec<Vec<u8>> = Vec::new();
    assert(argument_views(args@) =~= Seq::empty());
    push_argument(&mut args, bytes_of("--edition"));
    push_argument(&mut args, bytes_of(batch.edition.as_str()));
    assert(argument_views(args@) =~= head);
    let ghost c: int = if cfg.check {
        1
    } else {
        0
    };
    if cfg.check {
        push_argument(&mut args, bytes_of("--check"));
    }
    assert(argument_views(args@) =~= head + extra.take(c));
    let mut i: usize = 0;
    while i < cfg.rustfmt_args.len()
        invariant
            i <= cfg.rustfmt_args@.len(),
            c == (if cfg.check {
                1int
            } else {
                0int
            }),
            extra == text_arguments(extra_arguments(*cfg)),
            argument_views(args@) == head + extra.take(c + i),
        decreases cfg.rustfmt_args@.len() - i,
    {
        assert(extra_arguments(*cfg)[c + i] == cfg.rustfmt_args@[i as int]@);
        push_argument(&mut args, bytes_of(cfg.rustfmt_args[i].as_str()));
        assert(head + extra.take(c + i + 1) =~= (head + extra.take(c + i)).push(extra[c + i]));
        i += 1;
    }
    assert(extra.take(c + i) =~= extra);
    let ghost names = batch_files(batch.units@).map_values(|f: (Seq<u8>, Seq<u8>)| f.0);
    let mut k: usize = 0;
    assert(head + extra + names.take(0) =~= head + extra);
    while k < files.len()
        invariant
            k <= files@.len(),
            file_views(files@) == batch_files(batch.units@),
            names == batch_files(batch.units@).map_values(|f: (Seq<u8>, Seq<u8>)| f.0),
            argument_views(args@) == head + extra + names.take(k as int),
        decreases files@.len() - k,
    {
        assert(names[k as int] == file_views(files@)[k as int].0);
        let path = files[k].file.as_bytes();
        push_argument(&mut args, bytes_between(path, 0, path.len()));
        assert(path@.subrange(0, path@.len() as int) =~= path@);
        assert(head + extra + names.take(k + 1) =~= (head + extra + names.take(k as int)).push(
            names[k as int],
        ));
        k += 1;
    }
    assert(file_views(files@).len() == files@.len());
    assert(names.take(k as int) =~= names);
    Invocation { current_dir: batch.sort_key(), args, files }
}

/// The manifest directories of the crates, as they show.
pub open spec fn dirs_of(units: Seq<CrateUnit>) -> Seq<Seq<char>> {
    units.map_values(|u: CrateUnit| shown(u.manifest_dir@))
}

/// What is said where rustfmt could not be spawned.
pub open spec fn spawn_failure(units: Seq<CrateUnit>, error: Seq<char>) -> Seq<char> {
    "failed to spawn rustfmt for batch ("@ + decimal(units.len()) + " crates: "@ + joined(
        dirs_of(units),
        ", "@,
    ) + "): "@ + error + "\n"@
}

/// The result of an invocation that could not be spawned.
pub fn spawn_failed(batch: &Batch, inv: Invocation, error: &str) -> (r: BatchResult)
    ensures
        r.sort_key@ == inv.current_dir@,
        r.stdout@ == Seq::<u8>::empty(),
        r.stderr@ == encode_utf8(spawn_failure(batch.units@, error@)),
        r.exit_code == 2,
        r.files@ == inv.files@,
{
    let mut dirs: Vec<String> = Vec::new();
    let ghost want = dirs_of(batch.units@);
    let mut i: usize = 0;
    assert(views(dirs@) =~= want.take(0));
    while i < batch.units.len()
        invariant
            i <= batch.units@.len(),
            want == dirs_of(batch.units@),
            views(dirs@) == want.take(i as int),
        decreases batch.units@.len() - i,
    {
        let ghost before = dirs@;
        dirs.push(batch.units[i].manifest_dir.display());
        assert(views(dirs@) =~= views(before).push(want[i as int]));
        assert(want.take(i + 1) =~= want.take(i as int).push(want[i as int]));
        i += 1;
    }
    assert(want.take(i as int) =~= want);
    let mut message = String::new();
    message.append("failed to spawn rustfmt for batch (");
    push_decimal(&mut message, batch.units.len() as u128);
    message.append(" crates: ");
    message.append(join_texts(&dirs, ", ").as_str());
    message.append("): ");
    message.append(error);
    message.append("\n");
    assert(message@ =~= spawn_failure(batch.units@, error@));
    let stderr = bytes_of(message.as_str());
    BatchResult {
        sort_key: inv.current_dir,
        stdout: Vec::new(),
        stderr,
        exit_code: 2,
        files: inv.files,
    }
}

/// The result of an invocation that ran. `code` is none where a signal ended it.
pub fn ran(inv: Invocation, stdout: Vec<u8>, stderr: Vec<u8>, code: Option<i32>) -> (r: BatchResult)
    ensures
        r.sort_key@ == inv.current_dir@,
        r.stdout@ == stdout@,
        r.stderr@ == stderr@,
        r.exit_code == match code {
            Some(c) => c,
            None => -1i32,
        },
        r.files@ == inv.files@,
{
    let exit_code: i32 = match code {
        Some(c) => c,
        None => -1,
    };
    BatchResult { sort_key: inv.current_dir, stdout, stderr, exit_code, files: inv.files }
}

/// Every file of every crate of a batch is handed to rustfmt.
pub proof fn every_file_is_passed(
    edition: Edition,
    units: Seq<CrateUnit>,
    cfg: Config,
    u: int,
    i: int,
)
    requires
        0 <= u < units.len(),
        0 <= i < units[u].files@.len(),
    ensures
        rustfmt_arguments(edition, units, cfg).contains(units[u].files@[i]@),
        batch_files(units).contains((units[u].files@[i]@, units[u].manifest_dir@)),
{
    let files = batch_files(units);
    let f = (units[u].files@[i]@, units[u].manifest_dir@);
    lemma_batch_contains(units, u, i);
    let k = choose|k: int| 0 <= k < files.len() && files[k] == f;
    let names = files.map_values(|f: (Seq<u8>, Seq<u8>)| f.0);
    let head = text_arguments(seq!["--edition"@, edition.year()]) + text_arguments(
        extra_arguments(cfg),
    );
    assert(names[k] == f.0);
    assert((head + names)[head.len() + k] == f.0);
}

proof fn lemma_batch_contains(units: Seq<CrateUnit>, u: int, i: int)
    requires
        0 <= u < units.len(),
        0 <= i < units[u].files@.len(),
    ensures
        batch_files(units).contains((units[u].files@[i]@, units[u].manifest_dir@)),
    decreases units.len(),
{
    let front = batch_files(units.drop_last());
    let mine = unit_files(units.last());
    let f = (units[u].files@[i]@, units[u].manifest_dir@);
    if u < units.len() - 1 {
        lemma_batch_contains(units.drop_last(), u, i);
        let k = choose|k: int| 0 <= k < front.len() && front[k] == f;
        assert((front + mine)[k] == f);
    } else {
        assert(mine[i] == f);
        assert((front + mine)[front.len() + i] == f);
    }
}

} // verus!
