//! Grouping crates into batches: by edition, packed by Longest Processing
//! Time first within a sliding window.
//!
//! A unit at or above the solo threshold ships at once as its own batch. Any
//! other unit waits with the units of its edition until there are as many of
//! them as the window holds; then they are packed and shipped together.
//! rustfmt takes one `--edition` per process, so editions are never mixed.

use crate::order::{sorted, stable_sort, Ranked};
use crate::types::{total_size, Batch, CrateUnit, Edition};
use vstd::prelude::*;

verus! {

/// Units that wait per edition, as a multiple of the batch size.
pub const DEFAULT_PACK_MULTIPLIER: usize = 4;

/// Units rank by size, largest first.
impl Ranked for CrateUnit {
    open spec fn ranks_le(self, other: Self) -> bool {
        self.size_bytes >= other.size_bytes
    }

    proof fn ranks_total(a: Self, b: Self) {
    }

    proof fn ranks_transitive(a: Self, b: Self, c: Self) {
    }

    fn at_or_before(&self, other: &Self) -> bool {
        self.size_bytes >= other.size_bytes
    }
}

/// Whether the bin `a` goes before the bin `b`: it weighs less or, where both
/// weigh the same, only it is empty.
pub open spec fn lighter(a: Seq<CrateUnit>, b: Seq<CrateUnit>) -> bool {
    total_size(a) < total_size(b) || (total_size(a) == total_size(b) && a.len() == 0 && b.len() > 0)
}

/// The bin with the smallest total; of several an empty one, and of those the
/// first. So crates without any bytes are spread over the bins like others.
pub open spec fn lightest(bins: Seq<Seq<CrateUnit>>) -> int
    decreases bins.len(),
{
    if bins.len() <= 1 {
        0
    } else {
        let k = lightest(bins.drop_last());
        if lighter(bins.last(), bins[k]) {
            bins.len() - 1
        } else {
            k
        }
    }
}

/// `n` bins, with each unit of `s` in turn put into the lightest.
pub open spec fn dealt(s: Seq<CrateUnit>, n: nat) -> Seq<Seq<CrateUnit>>
    decreases s.len(),
{
    if s.len() == 0 {
        Seq::new(n, |i: int| Seq::empty())
    } else {
        let bins = dealt(s.drop_last(), n);
        let k = lightest(bins);
        bins.update(k, bins[k].push(s.last()))
    }
}

/// How many batches of `batch_size` units it takes to hold `len` units.
pub open spec fn batches_needed(len: nat, batch_size: nat) -> nat {
    ((len + batch_size - 1) / batch_size as int) as nat
}

/// The bins that a window of units is packed into: largest unit first, each
/// into the lightest bin.
pub open spec fn packed(units: Seq<CrateUnit>, batch_size: nat) -> Seq<Seq<CrateUnit>> {
    dealt(sorted(units), batches_needed(units.len(), batch_size))
}

/// What a batch is: an edition and units.
pub open spec fn batch_views(batches: Seq<Batch>) -> Seq<(Edition, Seq<CrateUnit>)> {
    batches.map_values(|b: Batch| (b.edition, b.units@))
}

/// The batches of the bins that hold something, in the order of the bins.
pub open spec fn batches_of(edition: Edition, bins: Seq<Seq<CrateUnit>>) -> Seq<
    (Edition, Seq<CrateUnit>),
>
    decreases bins.len(),
{
    if bins.len() == 0 {
        Seq::empty()
    } else {
        let front = batches_of(edition, bins.drop_last());
        if bins.last().len() == 0 {
            front
        } else {
            front.push((edition, bins.last()))
        }
    }
}

/// The batches that a window of units of one edition ships as.
pub open spec fn flushed(units: Seq<CrateUnit>, batch_size: nat) -> Seq<(Edition, Seq<CrateUnit>)> {
    if units.len() == 0 {
        Seq::empty()
    } else {
        batches_of(units[0].edition, packed(units, batch_size))
    }
}

pub proof fn lemma_lightest(bins: Seq<Seq<CrateUnit>>)
    requires
        bins.len() > 0,
    ensures
        0 <= lightest(bins) < bins.len(),
        forall|j: int|
            0 <= j < bins.len() ==> total_size(bins[lightest(bins)]) <= total_size(
                #[trigger] bins[j],
            ),
        forall|j: int| 0 <= j < bins.len() ==> !lighter(#[trigger] bins[j], bins[lightest(bins)]),
        forall|j: int|
            0 <= j < lightest(bins) ==> lighter(bins[lightest(bins)], #[trigger] bins[j]),
    decreases bins.len(),
{
    if bins.len() > 1 {
        let init = bins.drop_last();
        lemma_lightest(init);
        assert forall|j: int| 0 <= j < bins.len() implies total_size(bins[lightest(bins)])
            <= total_size(#[trigger] bins[j]) && !lighter(bins[j], bins[lightest(bins)]) by {
            if j < init.len() {
                assert(init[j] == bins[j]);
                assert(!lighter(init[j], init[lightest(init)]));
            }
        }
        assert forall|j: int| 0 <= j < lightest(bins) implies lighter(
            bins[lightest(bins)],
            #[trigger] bins[j],
        ) by {
            assert(init[j] == bins[j]);
            assert(!lighter(init[j], init[lightest(init)]));
        }
    }
}

pub proof fn lemma_total_size_bound(s: Seq<CrateUnit>)
    ensures
        total_size(s) <= s.len() * u64::MAX,
    decreases s.len(),
{
    if s.len() > 0 {
        lemma_total_size_bound(s.drop_last());
        assert(s.len() * u64::MAX == (s.len() - 1) * u64::MAX + u64::MAX) by (nonlinear_arith);
    }
}

pub proof fn lemma_dealt_len(s: Seq<CrateUnit>, n: nat)
    requires
        n >= 1,
    ensures
        dealt(s, n).len() == n,
    decreases s.len(),
{
    if s.len() > 0 {
        lemma_dealt_len(s.drop_last(), n);
        lemma_lightest(dealt(s.drop_last(), n));
    }
}

/// The units that bins hold.
spec fn bin_views(bins: Seq<Vec<CrateUnit>>) -> Seq<Seq<CrateUnit>> {
    bins.map_values(|b: Vec<CrateUnit>| b@)
}

/// The index of the lightest bin.
fn lightest_bin(totals: &Vec<u128>, bins: &Vec<Vec<CrateUnit>>) -> (k: usize)
    requires
        totals@.len() == bins@.len(),
        bins@.len() > 0,
        forall|j: int| 0 <= j < bins@.len() ==> #[trigger] totals@[j] == total_size(bins@[j]@),
    ensures
        k == lightest(bin_views(bins@)),
        k < bins@.len(),
{
    let ghost all = bin_views(bins@);
    let mut k: usize = 0;
    let mut i: usize = 1;
    while i < totals.len()
        invariant
            1 <= i <= totals@.len(),
            totals@.len() == bins@.len(),
            all == bin_views(bins@),
            forall|j: int| 0 <= j < bins@.len() ==> #[trigger] totals@[j] == total_size(bins@[j]@),
            k == lightest(all.take(i as int)),
            k < i,
        decreases totals@.len() - i,
    {
        assert(all.take(i + 1).drop_last() =~= all.take(i as int));
        assert(all[i as int] == bins@[i as int]@ && all[k as int] == bins@[k as int]@);
        if totals[i] < totals[k] || (totals[i] == totals[k] && bins[i].len() == 0 && bins[k].len()
            > 0) {
            k = i;
        }
        i += 1;
    }
    assert(all.take(i as int) =~= all);
    k
}

/// Deals `units` into `n` bins, each in turn into the lightest.
fn deal(units: Vec<CrateUnit>, n: usize) -> (bins: Vec<Vec<CrateUnit>>)
    requires
        n >= 1,
    ensures
        bin_views(bins@) == dealt(units@, n as nat),
{
    let ghost all = units@;
    let mut bins: Vec<Vec<CrateUnit>> = Vec::new();
    // Totals are summed in 128 bits: no number of units can overflow them.
    let mut totals: Vec<u128> = Vec::new();
    let mut j: usize = 0;
    while j < n
        invariant
            j <= n,
            bins@.len() == j,
            totals@.len() == j,
            forall|m: int| 0 <= m < j ==> (#[trigger] bins@[m])@ == Seq::<CrateUnit>::empty(),
            forall|m: int| 0 <= m < j ==> #[trigger] totals@[m] == 0,
        decreases n - j,
    {
        bins.push(Vec::new());
        totals.push(0);
        j += 1;
    }
    assert(bin_views(bins@) =~= dealt(all.take(0), n as nat));
    for unit in it: units
        invariant
            n >= 1,
            it.seq() == all,
            bins@.len() == n,
            totals@.len() == n,
            forall|m: int| 0 <= m < n ==> #[trigger] totals@[m] == total_size(bins@[m]@),
            bin_views(bins@) == dealt(all.take(it.index() as int), n as nat),
    {
        let ghost i = it.index();
        let ghost before = bin_views(bins@);
        assert(forall|m: int| 0 <= m < n ==> before[m] == bins@[m]@);
        let k = lightest_bin(&totals, &bins);
        proof {
            lemma_total_size_bound(before[k as int]);
            let len = bins@[k as int].len() as int;
            assert(len * u64::MAX <= usize::MAX * u64::MAX) by (nonlinear_arith)
                requires
                    len <= usize::MAX,
            ;
        }
        totals[k] = totals[k] + unit.size_bytes as u128;
        bins[k].push(unit);
        proof {
            let after = before[k as int].push(unit);
            assert(after.drop_last() =~= before[k as int]);
            assert(all.take(i + 1).drop_last() =~= all.take(i as int));
            assert(bin_views(bins@) =~= before.update(k as int, after));
        }
    }
    assert(all.take(all.len() as int) =~= all);
    bins
}

/// Packs a window of units of one edition into `ceil(len / batch_size)` bins
/// and ships each of them.
pub fn flush_window(units: Vec<CrateUnit>, batch_size: usize) -> (out: Vec<Batch>)
    requires
        batch_size >= 1,
    ensures
        batch_views(out@) == flushed(units@, batch_size as nat),
{
    let mut out: Vec<Batch> = Vec::new();
    if units.len() == 0 {
        assert(batch_views(out@) =~= Seq::empty());
        return out;
    }
    let ghost all = units@;
    let edition = units[0].edition;
    let n: usize = (units.len() - 1) / batch_size + 1;
    proof {
        assert((all.len() + batch_size - 1) / batch_size as int == (all.len() - 1)
            / batch_size as int + 1) by {
            vstd::arithmetic::div_mod::lemma_div_plus_one(all.len() - 1, batch_size as int);
        }
    }
    let bins = deal(stable_sort(units), n);
    let ghost spec_bins = bin_views(bins@);
    assert(batch_views(out@) =~= batches_of(edition, spec_bins.take(0)));
    for bin in it: bins
        invariant
            bin_views(it.seq()) == spec_bins,
            batch_views(out@) == batches_of(edition, spec_bins.take(it.index() as int)),
    {
        let ghost i = it.index();
        let ghost before = out@;
        assert(spec_bins[i as int] == bin@);
        assert(spec_bins.take(i + 1).drop_last() =~= spec_bins.take(i as int));
        assert(spec_bins.take(i + 1).last() == bin@);
        if bin.len() > 0 {
            out.push(Batch { edition, units: bin });
            assert(batch_views(out@) =~= batch_views(before).push((edition, bin@)));
        }
    }
    assert(spec_bins.take(spec_bins.len() as int) =~= spec_bins);
    out
}

/// How units are grouped.
#[derive(Debug, Clone, Copy)]
pub struct Packing {
    /// Units per batch.
    pub batch_size: usize,
    /// Units of one edition that wait before they ship.
    pub window: usize,
    /// Size from which a unit ships alone.
    pub solo_threshold_bytes: u64,
}

/// The window of a batch size and a multiplier, neither taken below one.
pub open spec fn packing(
    batch_size: usize,
    pack_multiplier: usize,
    solo_threshold_bytes: u64,
) -> Packing {
    let b = if batch_size == 0 {
        1usize
    } else {
        batch_size
    };
    let m = if pack_multiplier == 0 {
        1usize
    } else {
        pack_multiplier
    };
    Packing {
        batch_size: b,
        window: if b * m > usize::MAX {
            usize::MAX
        } else {
            (b * m) as usize
        },
        solo_threshold_bytes,
    }
}

/// The units that wait, by edition.
pub struct Waiting {
    pub e2015: Seq<CrateUnit>,
    pub e2018: Seq<CrateUnit>,
    pub e2021: Seq<CrateUnit>,
    pub e2024: Seq<CrateUnit>,
}

impl Waiting {
    pub open spec fn none() -> Waiting {
        Waiting {
            e2015: Seq::empty(),
            e2018: Seq::empty(),
            e2021: Seq::empty(),
            e2024: Seq::empty(),
        }
    }

    /// The units of the edition `e`.
    pub open spec fn of(self, e: Edition) -> Seq<CrateUnit> {
        match e {
            Edition::E2015 => self.e2015,
            Edition::E2018 => self.e2018,
            Edition::E2021 => self.e2021,
            Edition::E2024 => self.e2024,
        }
    }

    /// With `units` waiting for the edition `e`.
    pub open spec fn with(self, e: Edition, units: Seq<CrateUnit>) -> Waiting {
        match e {
            Edition::E2015 => Waiting { e2015: units, ..self },
            Edition::E2018 => Waiting { e2018: units, ..self },
            Edition::E2021 => Waiting { e2021: units, ..self },
            Edition::E2024 => Waiting { e2024: units, ..self },
        }
    }
}

/// However a packing is asked for, at least one unit goes into a batch and at
/// least one waits per window.
pub proof fn packing_is_never_empty(
    batch_size: usize,
    pack_multiplier: usize,
    solo_threshold_bytes: u64,
)
    ensures
        packing(batch_size, pack_multiplier, solo_threshold_bytes).batch_size >= 1,
        packing(batch_size, pack_multiplier, solo_threshold_bytes).window >= 1,
{
    let b = if batch_size == 0 {
        1usize
    } else {
        batch_size
    };
    let m = if pack_multiplier == 0 {
        1usize
    } else {
        pack_multiplier
    };
    assert(b * m >= 1) by (nonlinear_arith)
        requires
            b >= 1,
            m >= 1,
    ;
}

/// What the arrival of `unit` does: which units wait then, and what ships.
pub open spec fn arrival(w: Waiting, unit: CrateUnit, p: Packing) -> (
    Waiting,
    Seq<(Edition, Seq<CrateUnit>)>,
) {
    if unit.size_bytes >= p.solo_threshold_bytes {
        (w, seq![(unit.edition, seq![unit])])
    } else {
        let units = w.of(unit.edition).push(unit);
        if units.len() >= p.window {
            (w.with(unit.edition, Seq::empty()), flushed(units, p.batch_size as nat))
        } else {
            (w.with(unit.edition, units), Seq::empty())
        }
    }
}

/// What ships when no more units arrive.
pub open spec fn leftovers(w: Waiting, p: Packing) -> Seq<(Edition, Seq<CrateUnit>)> {
    flushed(w.e2015, p.batch_size as nat) + flushed(w.e2018, p.batch_size as nat) + flushed(
        w.e2021,
        p.batch_size as nat,
    ) + flushed(w.e2024, p.batch_size as nat)
}

/// The state after the arrival of `units` in turn, and what has shipped.
pub open spec fn arrivals(units: Seq<CrateUnit>, p: Packing) -> (
    Waiting,
    Seq<(Edition, Seq<CrateUnit>)>,
)
    decreases units.len(),
{
    if units.len() == 0 {
        (Waiting::none(), Seq::empty())
    } else {
        let (w, out) = arrivals(units.drop_last(), p);
        let (w2, more) = arrival(w, units.last(), p);
        (w2, out + more)
    }
}

/// Everything that ships for `units`.
pub open spec fn coalesced(units: Seq<CrateUnit>, p: Packing) -> Seq<(Edition, Seq<CrateUnit>)> {
    let (w, out) = arrivals(units, p);
    out + leftovers(w, p)
}

/// The grouping stage: units go in one by one, batches come out.
pub struct Coalescer {
    packing: Packing,
    e2015: Vec<CrateUnit>,
    e2018: Vec<CrateUnit>,
    e2021: Vec<CrateUnit>,
    e2024: Vec<CrateUnit>,
}

impl View for Coalescer {
    type V = Waiting;

    closed spec fn view(&self) -> Waiting {
        Waiting {
            e2015: self.e2015@,
            e2018: self.e2018@,
            e2021: self.e2021@,
            e2024: self.e2024@,
        }
    }
}

impl Coalescer {
    #[verifier::type_invariant]
    closed spec fn can_pack(self) -> bool {
        self.packing.batch_size >= 1
    }

    /// How this stage groups.
    pub closed spec fn grouping(&self) -> Packing {
        self.packing
    }

    pub fn new(batch_size: usize, pack_multiplier: usize, solo_threshold_bytes: u64) -> (c:
        Coalescer)
        ensures
            c@ == Waiting::none(),
            c.grouping() == packing(batch_size, pack_multiplier, solo_threshold_bytes),
    {
        let b: usize = if batch_size == 0 {
            1
        } else {
            batch_size
        };
        let m: usize = if pack_multiplier == 0 {
            1
        } else {
            pack_multiplier
        };
        let window: usize = match b.checked_mul(m) {
            Some(w) => w,
            None => usize::MAX,
        };
        let c = Coalescer {
            packing: Packing { batch_size: b, window, solo_threshold_bytes },
            e2015: Vec::new(),
            e2018: Vec::new(),
            e2021: Vec::new(),
            e2024: Vec::new(),
        };
        assert(c@ =~= Waiting::none());
        c
    }

    /// Takes one unit in; returns what ships because of it.
    pub fn accept(&mut self, unit: CrateUnit) -> (out: Vec<Batch>)
        ensures
            (final(self)@, batch_views(out@)) == arrival(old(self)@, unit, old(self).grouping()),
            final(self).grouping() == old(self).grouping(),
    {
        proof {
            use_type_invariant(&*self);
        }
        let mut out: Vec<Batch> = Vec::new();
        if unit.size_bytes >= self.packing.solo_threshold_bytes {
            let edition = unit.edition;
            let mut units: Vec<CrateUnit> = Vec::new();
            units.push(unit);
            assert(units@ =~= seq![unit]);
            out.push(Batch { edition, units });
            assert(batch_views(out@) =~= seq![(edition, seq![unit])]);
            return out;
        }
        let edition = unit.edition;
        let mut units: Vec<CrateUnit> = Vec::new();
        match edition {
            Edition::E2015 => std::mem::swap(&mut units, &mut self.e2015),
            Edition::E2018 => std::mem::swap(&mut units, &mut self.e2018),
            Edition::E2021 => std::mem::swap(&mut units, &mut self.e2021),
            Edition::E2024 => std::mem::swap(&mut units, &mut self.e2024),
        }
        units.push(unit);
        if units.len() >= self.packing.window {
            return flush_window(units, self.packing.batch_size);
        }
        match edition {
            Edition::E2015 => self.e2015 = units,
            Edition::E2018 => self.e2018 = units,
            Edition::E2021 => self.e2021 = units,
            Edition::E2024 => self.e2024 = units,
        }
        assert(batch_views(out@) =~= Seq::empty());
        out
    }

    /// No more units arrive; returns what ships of those that wait.
    pub fn finish(self) -> (out: Vec<Batch>)
        ensures
            batch_views(out@) == leftovers(self@, self.grouping()),
    {
        proof {
            use_type_invariant(&self);
        }
        let b = self.packing.batch_size;
        let mut out = flush_window(self.e2015, b);
        append_batches(&mut out, flush_window(self.e2018, b));
        append_batches(&mut out, flush_window(self.e2021, b));
        append_batches(&mut out, flush_window(self.e2024, b));
        out
    }
}

fn append_batches(out: &mut Vec<Batch>, more: Vec<Batch>)
    ensures
        batch_views(final(out)@) == batch_views(old(out)@) + batch_views(more@),
{
    let mut more = more;
    let ghost a = out@;
    let ghost b = more@;
    out.append(&mut more);
    assert(batch_views(a + b) =~= batch_views(a) + batch_views(b));
}

/// Groups `units`, in the order in which they arrive, into batches.
pub fn run(
    units: Vec<CrateUnit>,
    batch_size: usize,
    pack_multiplier: usize,
    solo_threshold_bytes: u64,
) -> (out: Vec<Batch>)
    ensures
        batch_views(out@) == coalesced(
            units@,
            packing(batch_size, pack_multiplier, solo_threshold_bytes),
        ),
{
    let ghost all = units@;
    let ghost p = packing(batch_size, pack_multiplier, solo_threshold_bytes);
    let mut stage = Coalescer::new(batch_size, pack_multiplier, solo_threshold_bytes);
    let mut out: Vec<Batch> = Vec::new();
    assert(batch_views(out@) =~= Seq::empty());
    for unit in it: units
        invariant
            it.seq() == all,
            stage.grouping() == p,
            (stage@, batch_views(out@)) == arrivals(all.take(it.index() as int), p),
    {
        assert(all.take(it.index() + 1).drop_last() =~= all.take(it.index() as int));
        let more = stage.accept(unit);
        append_batches(&mut out, more);
    }
    assert(all.take(all.len() as int) =~= all);
    append_batches(&mut out, stage.finish());
    out
}

} // verus!
