//! The command line, parsed.

use crate::path::FilePath;
use crate::text::text_eq;
use crate::types::Config;
use vstd::prelude::*;

verus! {

/// The flags of `cargo fmt`, and this tool's own.
#[derive(Debug)]
pub struct Cli {
    /// Run rustfmt in `--check` mode.
    pub check: bool,
    /// Format every workspace member.
    pub all: bool,
    /// Format only these workspace members.
    pub packages: Vec<String>,
    /// The workspace's Cargo.toml.
    pub manifest_path: Option<FilePath>,
    /// Extra arguments for rustfmt.
    pub rustfmt_args: Vec<String>,
    pub ff: FfArgs,
}

/// A number of worker threads: at least one.
#[derive(Debug, Clone, Copy)]
pub struct WorkerCount {
    n: usize,
}

impl WorkerCount {
    pub closed spec fn count(self) -> usize {
        self.n
    }

    #[verifier::type_invariant]
    pub open spec fn is_positive(self) -> bool {
        self.count() >= 1
    }

    /// `n` workers; none where there would be no worker.
    pub fn new(n: usize) -> (r: Option<WorkerCount>)
        ensures
            match r {
                Some(w) => n >= 1 && w.count() == n,
                None => n == 0,
            },
    {
        if n == 0 {
            None
        } else {
            Some(WorkerCount { n })
        }
    }

    pub fn get(self) -> (n: usize)
        ensures
            n == self.count(),
            n >= 1,
    {
        proof {
            use_type_invariant(&self);
        }
        self.n
    }
}

/// This tool's own flags.
#[derive(Debug)]
pub struct FfArgs {
    /// Number of worker threads.
    pub workers: Option<WorkerCount>,
    /// Capacity of the channels.
    pub channel_capacity: Option<usize>,
    /// Crates per rustfmt invocation.
    pub batch_size: Option<usize>,
    /// Skip crates that have not changed since the last run.
    pub experimental_cache: bool,
    /// Emit advisory warnings.
    pub warnings: bool,
}

impl Cli {
    /// The configuration of the run that was asked for. It never asks for a run
    /// without workers.
    pub fn into_config(self) -> (c: Config)
        ensures
            c.manifest_path == self.manifest_path,
            c.packages == self.packages,
            c.all == self.all,
            c.check == self.check,
            c.rustfmt_args == self.rustfmt_args,
            c.workers == match self.ff.workers {
                Some(w) => Some(w.count()),
                None => None,
            },
            c.workers != Some(0usize),
            c.channel_capacity == self.ff.channel_capacity,
            c.batch_size == self.ff.batch_size,
            c.experimental_cache == self.ff.experimental_cache,
            c.warnings == self.ff.warnings,
    {
        let workers = match self.ff.workers {
            Some(w) => Some(w.get()),
            None => None,
        };
        Config {
            manifest_path: self.manifest_path,
            packages: self.packages,
            all: self.all,
            check: self.check,
            workers,
            channel_capacity: self.ff.channel_capacity,
            rustfmt_args: self.rustfmt_args,
            batch_size: self.ff.batch_size,
            experimental_cache: self.ff.experimental_cache,
            warnings: self.ff.warnings,
        }
    }
}

/// The texts of arguments; none for one that is not text.
pub open spec fn argument_texts(argv: Seq<Option<String>>) -> Seq<Option<Seq<char>>> {
    argv.map_values(
        |a: Option<String>|
            match a {
                Some(t) => Some(t@),
                None => None,
            },
    )
}

/// Whether cargo's subcommand name stands in front of the arguments proper.
pub open spec fn has_subcommand(texts: Seq<Option<Seq<char>>>) -> bool {
    texts.len() >= 2 && texts[1] == Some("ff"@)
}

/// The arguments that are parsed: the list without the subcommand name, if that
/// stands right behind the program's name.
pub open spec fn arguments_proper<T>(argv: Seq<T>, texts: Seq<Option<Seq<char>>>) -> Seq<T> {
    if has_subcommand(texts) {
        argv.remove(1)
    } else {
        argv
    }
}

/// Drops cargo's subcommand name from the arguments, given the text of each.
pub fn strip_subcommand<T>(argv: Vec<T>, texts: &Vec<Option<String>>) -> (out: Vec<T>)
    requires
        argv@.len() == texts@.len(),
    ensures
        out@ == arguments_proper(argv@, argument_texts(texts@)),
{
    let mut argv = argv;
    if names_subcommand(texts) {
        argv.remove(1);
    }
    argv
}

/// Whether cargo's subcommand name stands in front of the arguments proper.
/// An argument that is not text is none.
pub fn names_subcommand(argv: &Vec<Option<String>>) -> (r: bool)
    ensures
        r == has_subcommand(argument_texts(argv@)),
{
    if argv.len() < 2 {
        return false;
    }
    assert(argument_texts(argv@)[1] == match argv@[1] {
        Some(t) => Some(t@),
        None => None,
    });
    match &argv[1] {
        Some(a) => text_eq(a.as_str(), "ff"),
        None => false,
    }
}

/// An `ff` right behind the program's name changes nothing: what is parsed is
/// the list without it. Only that one is dropped, and none anywhere else.
pub proof fn subcommand_name_changes_nothing<T>(
    argv: Seq<T>,
    texts: Seq<Option<Seq<char>>>,
    name: T,
)
    requires
        argv.len() == texts.len(),
        argv.len() >= 1,
    ensures
        arguments_proper(argv.insert(1, name), texts.insert(1, Some("ff"@))) == argv,
        !has_subcommand(texts) ==> arguments_proper(argv, texts) == argv && arguments_proper(
            argv.insert(1, name),
            texts.insert(1, Some("ff"@)),
        ) == arguments_proper(argv, texts),
{
    assert(argv.insert(1, name).remove(1) =~= argv);
}

} // verus!
