//! The values that travel through the pipeline.

use crate::number::{decimal, push_decimal};
use crate::path::{path_le, path_order_is_total, path_order_is_transitive, FilePath};
use crate::text::{join_texts, joined, text_eq, views};
use cargo_metadata::Edition as CargoEdition;
use vstd::prelude::*;

verus! {

/// A Rust edition that rustfmt is asked to parse with.
#[derive(Debug, Clone, Copy, PartialEq, Eq, Structural, Hash)]
pub enum Edition {
    E2015,
    E2018,
    E2021,
    E2024,
}

/// An edition string that is not recognized.
#[derive(Debug, Clone)]
pub struct UnknownEdition(pub String);

impl UnknownEdition {
    /// The message for the user.
    pub fn message(&self) -> (out: String)
        ensures
            out@ == "unknown edition: "@ + self.0@,
    {
        let mut out = String::new();
        out.append("unknown edition: ");
        out.append(self.0.as_str());
        assert(out@ =~= "unknown edition: "@ + self.0@);
        out
    }
}

/// The edition that a year names.
pub open spec fn edition_of(year: Seq<char>) -> Option<Edition> {
    if year == "2015"@ {
        Some(Edition::E2015)
    } else if year == "2018"@ {
        Some(Edition::E2018)
    } else if year == "2021"@ {
        Some(Edition::E2021)
    } else if year == "2024"@ {
        Some(Edition::E2024)
    } else {
        None
    }
}

/// `cargo_metadata::Edition`, with its variants in view.
#[verifier::external_type_specification]
pub struct ExCargoEdition(CargoEdition);

/// The year of an edition that cargo reports.
pub open spec fn cargo_year(e: CargoEdition) -> Seq<char> {
    match e {
        CargoEdition::E2015 => "2015"@,
        CargoEdition::E2018 => "2018"@,
        CargoEdition::E2021 => "2021"@,
        CargoEdition::E2024 => "2024"@,
        CargoEdition::_E2027 => "2027"@,
        _ => "2030"@,
    }
}

/// `cargo_metadata::Edition::as_str` returns the year of the edition: six of
/// them in the version that this crate is pinned to.
pub assume_specification[ CargoEdition::as_str ](e: &CargoEdition) -> (s: &'static str)
    ensures
        s@ == cargo_year(*e),
;

impl Edition {
    /// The year of the edition.
    pub open spec fn year(self) -> Seq<char> {
        match self {
            Edition::E2015 => "2015"@,
            Edition::E2018 => "2018"@,
            Edition::E2021 => "2021"@,
            Edition::E2024 => "2024"@,
        }
    }

    /// The year, as `rustfmt --edition` takes it.
    #[must_use]
    pub fn as_str(self) -> (s: &'static str)
        ensures
            s@ == self.year(),
    {
        match self {
            Edition::E2015 => "2015",
            Edition::E2018 => "2018",
            Edition::E2021 => "2021",
            Edition::E2024 => "2024",
        }
    }

    /// The edition of a year.
    pub fn from_year(s: &str) -> (r: Result<Edition, UnknownEdition>)
        ensures
            match r {
                Ok(e) => edition_of(s@) == Some(e),
                Err(u) => edition_of(s@) is None && u.0@ == s@,
            },
    {
        if text_eq(s, "2015") {
            Ok(Edition::E2015)
        } else if text_eq(s, "2018") {
            Ok(Edition::E2018)
        } else if text_eq(s, "2021") {
            Ok(Edition::E2021)
        } else if text_eq(s, "2024") {
            Ok(Edition::E2024)
        } else {
            Err(UnknownEdition(s.to_owned()))
        }
    }

    /// The edition that cargo reports for a package.
    pub fn from_cargo(e: CargoEdition) -> (r: Result<Edition, UnknownEdition>)
        ensures
            match r {
                Ok(ed) => edition_of(cargo_year(e)) == Some(ed),
                Err(u) => edition_of(cargo_year(e)) is None && u.0@ == cargo_year(e),
            },
    {
        Edition::from_year(e.as_str())
    }
}

impl std::str::FromStr for Edition {
    type Err = UnknownEdition;

    fn from_str(s: &str) -> (r: Result<Edition, UnknownEdition>)
        ensures
            match r {
                Ok(e) => edition_of(s@) == Some(e),
                Err(u) => edition_of(s@) is None && u.0@ == s@,
            },
    {
        Edition::from_year(s)
    }
}

/// The year of an edition names that edition, and no other year does.
pub proof fn edition_reads_back(e: Edition, year: Seq<char>)
    ensures
        edition_of(year) == Some(e) <==> year == e.year(),
{
    reveal_strlit("2015");
    reveal_strlit("2018");
    reveal_strlit("2021");
    reveal_strlit("2024");
    assert("2015"@[3] == '5' && "2018"@[3] == '8' && "2021"@[3] == '1' && "2024"@[3] == '4');
}

/// One crate to format: its target entry points and how much work it is.
#[derive(Debug, Clone)]
pub struct CrateUnit {
    pub edition: Edition,
    pub manifest_dir: FilePath,
    pub files: Vec<FilePath>,
    /// Work-size proxy: the `*.rs` bytes below `manifest_dir`, clamped at
    /// [`HUGE_CUTOFF_BYTES`](crate::size::HUGE_CUTOFF_BYTES).
    pub size_bytes: u64,
}

/// The sum of the size proxies of `units`.
pub open spec fn total_size(units: Seq<CrateUnit>) -> nat
    decreases units.len(),
{
    if units.len() == 0 {
        0
    } else {
        total_size(units.drop_last()) + units.last().size_bytes as nat
    }
}

/// The number of entry points of `units`.
pub open spec fn total_files(units: Seq<CrateUnit>) -> nat
    decreases units.len(),
{
    if units.len() == 0 {
        0
    } else {
        total_files(units.drop_last()) + units.last().files@.len()
    }
}

/// The least manifest directory in the order of paths, and of several ways to
/// write that path the first; the empty path when there is no unit.
pub open spec fn least_dir(units: Seq<CrateUnit>) -> Seq<u8>
    decreases units.len(),
{
    if units.len() == 0 {
        Seq::empty()
    } else if units.len() == 1 {
        units[0].manifest_dir@
    } else {
        let least = least_dir(units.drop_last());
        if path_le(least, units.last().manifest_dir@) {
            least
        } else {
            units.last().manifest_dir@
        }
    }
}

proof fn lemma_total_size_prefix(units: Seq<CrateUnit>, k: int)
    requires
        0 <= k <= units.len(),
    ensures
        total_size(units.take(k)) <= total_size(units),
    decreases units.len(),
{
    if k < units.len() {
        lemma_total_size_prefix(units.drop_last(), k);
        assert(units.drop_last().take(k) =~= units.take(k));
    } else {
        assert(units.take(k) =~= units);
    }
}

proof fn lemma_total_files_prefix(units: Seq<CrateUnit>, k: int)
    requires
        0 <= k <= units.len(),
    ensures
        total_files(units.take(k)) <= total_files(units),
    decreases units.len(),
{
    if k < units.len() {
        lemma_total_files_prefix(units.drop_last(), k);
        assert(units.drop_last().take(k) =~= units.take(k));
    } else {
        assert(units.take(k) =~= units);
    }
}

/// The sort key of a batch is the directory of one of its crates, and no crate
/// of the batch comes before it.
pub proof fn sort_key_is_least(units: Seq<CrateUnit>)
    requires
        units.len() > 0,
    ensures
        exists|i: int| 0 <= i < units.len() && (#[trigger] units[i]).manifest_dir@ == least_dir(units),
        forall|i: int|
            0 <= i < units.len() ==> path_le(
                least_dir(units),
                (#[trigger] units[i]).manifest_dir@,
            ),
    decreases units.len(),
{
    if units.len() == 1 {
        assert(units[0].manifest_dir@ == least_dir(units));
        path_order_is_total(least_dir(units), least_dir(units));
    } else {
        let init = units.drop_last();
        let last = units.last().manifest_dir@;
        sort_key_is_least(init);
        let k = choose|i: int| 0 <= i < init.len() && (#[trigger] init[i]).manifest_dir@ == least_dir(init);
        assert(units[k] == init[k]);
        assert(units[units.len() - 1].manifest_dir@ == last);
        path_order_is_total(least_dir(init), last);
        path_order_is_total(last, last);
        assert forall|i: int| 0 <= i < units.len() implies path_le(
            least_dir(units),
            (#[trigger] units[i]).manifest_dir@,
        ) by {
            if i < units.len() - 1 {
                assert(init[i] == units[i]);
                assert(path_le(least_dir(init), units[i].manifest_dir@));
                if !path_le(least_dir(init), last) {
                    path_order_is_transitive(last, least_dir(init), units[i].manifest_dir@);
                }
            }
        }
    }
}

/// One rustfmt invocation's worth of work: crates of one edition whose entry
/// points go to a single rustfmt process.
#[derive(Debug, Clone)]
pub struct Batch {
    pub edition: Edition,
    pub units: Vec<CrateUnit>,
}

impl Batch {
    /// The sum of the size proxies of the batch's crates.
    #[must_use]
    pub fn size_bytes(&self) -> (n: u64)
        requires
            total_size(self.units@) <= u64::MAX,
        ensures
            n == total_size(self.units@),
    {
        let mut n: u64 = 0;
        let mut i: usize = 0;
        while i < self.units.len()
            invariant
                i <= self.units@.len(),
                total_size(self.units@) <= u64::MAX,
                n == total_size(self.units@.take(i as int)),
            decreases self.units@.len() - i,
        {
            proof {
                lemma_total_size_prefix(self.units@, i + 1);
                assert(self.units@.take(i + 1).drop_last() =~= self.units@.take(i as int));
            }
            n += self.units[i].size_bytes;
            i += 1;
        }
        assert(self.units@.take(i as int) =~= self.units@);
        n
    }

    /// The number of entry points in the batch.
    #[must_use]
    pub fn file_count(&self) -> (n: usize)
        requires
            total_files(self.units@) <= usize::MAX,
        ensures
            n == total_files(self.units@),
    {
        let mut n: usize = 0;
        let mut i: usize = 0;
        while i < self.units.len()
            invariant
                i <= self.units@.len(),
                total_files(self.units@) <= usize::MAX,
                n == total_files(self.units@.take(i as int)),
            decreases self.units@.len() - i,
        {
            proof {
                lemma_total_files_prefix(self.units@, i + 1);
                assert(self.units@.take(i + 1).drop_last() =~= self.units@.take(i as int));
            }
            n += self.units[i].files.len();
            i += 1;
        }
        assert(self.units@.take(i as int) =~= self.units@);
        n
    }

    /// Sort key for deterministic output: the least of the manifest directories.
    #[must_use]
    pub fn sort_key(&self) -> (p: FilePath)
        ensures
            p@ == least_dir(self.units@),
    {
        if self.units.len() == 0 {
            return FilePath::new(Vec::new());
        }
        let mut best: usize = 0;
        let mut i: usize = 1;
        assert(self.units@.take(1)[0] == self.units@[0]);
        while i < self.units.len()
            invariant
                1 <= i <= self.units@.len(),
                best < i,
                self.units@[best as int].manifest_dir@ == least_dir(self.units@.take(i as int)),
            decreases self.units@.len() - i,
        {
            assert(self.units@.take(i + 1).drop_last() =~= self.units@.take(i as int));
            if !self.units[best].manifest_dir.at_or_before(&self.units[i].manifest_dir) {
                best = i;
            }
            i += 1;
        }
        assert(self.units@.take(i as int) =~= self.units@);
        self.units[best].manifest_dir.clone()
    }
}

/// One formatted file and the crate that owns it.
#[derive(Debug, Clone)]
pub struct BatchFile {
    pub file: FilePath,
    pub manifest_dir: FilePath,
}

/// What one rustfmt invocation left behind.
#[derive(Debug)]
pub struct BatchResult {
    pub sort_key: FilePath,
    pub stdout: Vec<u8>,
    pub stderr: Vec<u8>,
    pub exit_code: i32,
    /// Every file of the batch with the crate it came from.
    pub files: Vec<BatchFile>,
}

/// What a run is asked to do. Each flag mirrors one of `cargo fmt`'s or of
/// this tool's own.
#[derive(Debug, Clone)]
pub struct Config {
    pub manifest_path: Option<FilePath>,
    pub packages: Vec<String>,
    /// Format every workspace member.
    pub all: bool,
    pub check: bool,
    pub workers: Option<usize>,
    pub channel_capacity: Option<usize>,
    pub rustfmt_args: Vec<String>,
    /// Crates per rustfmt invocation.
    pub batch_size: Option<usize>,
    /// Skip crates whose `*.rs` files are as they were after the last run.
    pub experimental_cache: bool,
    /// Emit advisory warnings.
    pub warnings: bool,
}

impl Default for Config {
    fn default() -> (c: Config)
        ensures
            c.manifest_path is None,
            c.packages@.len() == 0,
            !c.all,
            !c.check,
            c.workers is None,
            c.channel_capacity is None,
            c.rustfmt_args@.len() == 0,
            c.batch_size is None,
            !c.experimental_cache,
            !c.warnings,
    {
        Config {
            manifest_path: None,
            packages: Vec::new(),
            all: false,
            check: false,
            workers: None,
            channel_capacity: None,
            rustfmt_args: Vec::new(),
            batch_size: None,
            experimental_cache: false,
            warnings: false,
        }
    }
}

/// The outcome of a run.
#[derive(Debug)]
pub struct Report {
    pub failures: Vec<FileFailure>,
    pub exit_code: i32,
}

/// A file of a batch that rustfmt did not leave clean.
#[derive(Debug)]
pub struct FileFailure {
    pub file: FilePath,
    pub manifest_dir: FilePath,
}

/// Why a run failed.
#[derive(Debug)]
pub enum Error {
    InvalidWorkers(usize),
    /// `cargo metadata` failed, with what it said.
    Metadata(String),
    /// An I/O operation failed, with what was said of it.
    Io(String),
    UnsupportedEdition { edition: String, package: String },
    UnknownPackages(Vec<String>),
    ThreadPanicked(&'static str),
    SendClosed,
}

impl Error {
    /// The message for the user.
    pub open spec fn text(self) -> Seq<char> {
        match self {
            Error::InvalidWorkers(n) => "`workers` must be >= 1 (got "@ + decimal(n as nat) + ")"@,
            Error::Metadata(m) => "cargo metadata failed: "@ + m@,
            Error::Io(m) => "io: "@ + m@,
            Error::UnsupportedEdition { edition, package } => "unsupported edition `"@ + edition@
                + "` for package `"@ + package@
                + "`; cargo-ff knows 2015/2018/2021/2024 — bump the dep or pin a known edition"@,
            Error::UnknownPackages(names) => "package(s) not found in the workspace: "@ + joined(
                views(names@),
                ", "@,
            ),
            Error::ThreadPanicked(name) => name@ + " thread panicked"@,
            Error::SendClosed => "send failed (channel closed)"@,
        }
    }

    /// The message for the user.
    pub fn message(&self) -> (out: String)
        ensures
            out@ == self.text(),
    {
        let mut out = String::new();
        match self {
            Error::InvalidWorkers(n) => {
                out.append("`workers` must be >= 1 (got ");
                push_decimal(&mut out, *n as u128);
                out.append(")");
            },
            Error::Metadata(m) => {
                out.append("cargo metadata failed: ");
                out.append(m.as_str());
            },
            Error::Io(m) => {
                out.append("io: ");
                out.append(m.as_str());
            },
            Error::UnsupportedEdition { edition, package } => {
                out.append("unsupported edition `");
                out.append(edition.as_str());
                out.append("` for package `");
                out.append(package.as_str());
                out.append(
                    "`; cargo-ff knows 2015/2018/2021/2024 — bump the dep or pin a known edition",
                );
            },
            Error::UnknownPackages(names) => {
                out.append("package(s) not found in the workspace: ");
                out.append(join_texts(names, ", ").as_str());
            },
            Error::ThreadPanicked(name) => {
                out.append(name);
                out.append(" thread panicked");
            },
            Error::SendClosed => {
                out.append("send failed (channel closed)");
            },
        }
        assert(out@ =~= self.text());
        out
    }
}

} // verus!
