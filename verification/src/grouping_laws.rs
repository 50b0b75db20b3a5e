//! When units ship, and what a window of them ships as.

use crate::coalesce::{
    arrival, arrivals, batch_views, batches_needed, batches_of, coalesced, dealt, flushed,
    leftovers, lemma_dealt_len, lemma_lightest, lighter, lightest, packed, packing, Packing, Waiting,
};
use crate::dispatch::{takes_largest, weight};
use crate::order::{sorted, sorting_orders_and_keeps, Ranked};
use crate::path::path_le;
use crate::types::{least_dir, sort_key_is_least, total_files, total_size, Batch, CrateUnit, Edition};
use vstd::multiset::Multiset;
use vstd::prelude::*;

verus! {

/// What waits is kept by edition: units that are put down for one edition are
/// found under it, and those of the others stay.
pub proof fn editions_wait_apart(w: Waiting, e: Edition, f: Edition, units: Seq<CrateUnit>)
    ensures
        w.with(e, units).of(e) == units,
        e != f ==> w.with(e, units).of(f) == w.of(f),
        Waiting::none().of(e).len() == 0,
{
}

/// A unit at or above the solo threshold ships at once and alone, and what waits
/// goes on waiting.
pub proof fn a_giant_ships_at_once(w: Waiting, unit: CrateUnit, p: Packing, e: Edition)
    requires
        unit.size_bytes >= p.solo_threshold_bytes,
    ensures
        arrival(w, unit, p).0.of(e) == w.of(e),
        arrival(w, unit, p).1.len() == 1,
        arrival(w, unit, p).1[0].0 == unit.edition,
        arrival(w, unit, p).1[0].1 == seq![unit],
{
}

/// Any other unit waits behind those of its edition until they are as many as
/// the window; nothing ships before, and all of them ship then. Units of other
/// editions are left alone.
pub proof fn a_window_ships_when_it_is_full(w: Waiting, unit: CrateUnit, p: Packing, e: Edition)
    requires
        unit.size_bytes < p.solo_threshold_bytes,
    ensures
        e != unit.edition ==> arrival(w, unit, p).0.of(e) == w.of(e),
        w.of(unit.edition).len() + 1 < p.window ==> arrival(w, unit, p).1.len() == 0 && arrival(
            w,
            unit,
            p,
        ).0.of(unit.edition) == w.of(unit.edition).push(unit),
        w.of(unit.edition).len() + 1 >= p.window ==> arrival(w, unit, p).0.of(unit.edition).len()
            == 0 && arrival(w, unit, p).1 == flushed(
            w.of(unit.edition).push(unit),
            p.batch_size as nat,
        ),
{
}

/// Units arrive one after the other, and what has shipped has shipped; at the
/// end whatever still waits ships, edition by edition from the oldest on.
pub proof fn arrivals_are_one_by_one(units: Seq<CrateUnit>, unit: CrateUnit, p: Packing)
    ensures
        arrivals(Seq::empty(), p).1.len() == 0,
        arrivals(Seq::empty(), p).0 == Waiting::none(),
        arrivals(units.push(unit), p).0 == arrival(arrivals(units, p).0, unit, p).0,
        arrivals(units.push(unit), p).1 == arrivals(units, p).1 + arrival(
            arrivals(units, p).0,
            unit,
            p,
        ).1,
        coalesced(units, p) == arrivals(units, p).1 + flushed(
            arrivals(units, p).0.of(Edition::E2015),
            p.batch_size as nat,
        ) + flushed(arrivals(units, p).0.of(Edition::E2018), p.batch_size as nat) + flushed(
            arrivals(units, p).0.of(Edition::E2021),
            p.batch_size as nat,
        ) + flushed(arrivals(units, p).0.of(Edition::E2024), p.batch_size as nat),
{
    assert(units.push(unit).drop_last() =~= units);
    let (w, out) = arrivals(units, p);
    let b = p.batch_size as nat;
    assert(out + leftovers(w, p) =~= out + flushed(w.e2015, b) + flushed(w.e2018, b) + flushed(
        w.e2021,
        b,
    ) + flushed(w.e2024, b));
}

/// As many batches are made as it takes, and none more: with one fewer, some
/// unit would have no place.
pub proof fn just_enough_batches(len: nat, b: nat)
    requires
        b >= 1,
    ensures
        len <= batches_needed(len, b) * b,
        len > 0 ==> (batches_needed(len, b) - 1) * b < len,
        len == 0 ==> batches_needed(len, b) == 0,
{
    let x = len + b - 1;
    let d = b as int;
    let n = x / d;
    assert(d * n + x % d == x && 0 <= x % d < d) by {
        vstd::arithmetic::div_mod::lemma_fundamental_div_mod(x, d);
    }
    assert(n >= 0) by {
        vstd::arithmetic::div_mod::lemma_div_pos_is_pos(x, d);
    }
    assert(n * d == d * n) by (nonlinear_arith);
    assert((n - 1) * d == n * d - d) by (nonlinear_arith);
    if len == 0 {
        vstd::arithmetic::div_mod::lemma_basic_div(x, d);
    }
}

/// Without units there are just empty bins; each unit then goes behind what the
/// lightest bin holds, of several an empty one, and of those the first.
pub proof fn each_unit_goes_into_the_lightest_bin(s: Seq<CrateUnit>, unit: CrateUnit, n: nat)
    requires
        n >= 1,
    ensures
        dealt(Seq::empty(), n).len() == n,
        forall|i: int| 0 <= i < n ==> (#[trigger] dealt(Seq::empty(), n)[i]).len() == 0,
        exists|k: int|
            0 <= k < n && dealt(s.push(unit), n) == #[trigger] dealt(s, n).update(
                k,
                dealt(s, n)[k].push(unit),
            ) && (forall|j: int|
                0 <= j < n ==> total_size(dealt(s, n)[k]) <= total_size(#[trigger] dealt(s, n)[j]))
                && (forall|j: int|
                0 <= j < n && total_size(#[trigger] dealt(s, n)[j]) == total_size(dealt(s, n)[k])
                    && j < k ==> dealt(s, n)[j].len() > 0 && dealt(s, n)[k].len() == 0) && (forall|
                j: int,
            |
                0 <= j < n && total_size(#[trigger] dealt(s, n)[j]) == total_size(dealt(s, n)[k])
                    && dealt(s, n)[j].len() == 0 ==> dealt(s, n)[k].len() == 0),
{
    assert(s.push(unit).drop_last() =~= s);
    lemma_dealt_len(s, n);
    let bins = dealt(s, n);
    lemma_lightest(bins);
    let k = lightest(bins);
    assert(dealt(s.push(unit), n) == bins.update(k, bins[k].push(unit)));
    assert forall|j: int|
        0 <= j < n && total_size(#[trigger] bins[j]) == total_size(bins[k]) && j < k implies
        bins[j].len() > 0 && bins[k].len() == 0 by {
        assert(lighter(bins[k], bins[j]));
    }
    assert forall|j: int|
        0 <= j < n && total_size(#[trigger] bins[j]) == total_size(bins[k]) && bins[j].len()
            == 0 implies bins[k].len() == 0 by {
        assert(!lighter(bins[j], bins[k]));
    }
}

/// A window is dealt largest unit first, into as many bins as it takes.
pub proof fn a_window_is_dealt_largest_first(units: Seq<CrateUnit>, b: nat)
    ensures
        exists|s: Seq<CrateUnit>|
            s.to_multiset() == units.to_multiset() && packed(units, b) == #[trigger] dealt(
                s,
                batches_needed(units.len(), b),
            ) && forall|i: int, j: int|
                0 <= i <= j < s.len() ==> (#[trigger] s[i]).size_bytes >= (
                #[trigger] s[j]).size_bytes,
{
    sorting_orders_and_keeps(units);
    let s = sorted(units);
    assert forall|i: int, j: int| 0 <= i <= j < s.len() implies (#[trigger] s[i]).size_bytes >= (
    #[trigger] s[j]).size_bytes by {
        assert(s[i].ranks_le(s[j]));
    }
    assert(packed(units, b) == dealt(s, batches_needed(units.len(), b)));
}

proof fn lemma_dealt_falls(s: Seq<CrateUnit>, n: nat, i: int)
    requires
        n >= 1,
        0 <= i < n,
        forall|j: int, k: int|
            0 <= j <= k < s.len() ==> (#[trigger] s[j]).size_bytes >= (#[trigger] s[k]).size_bytes,
    ensures
        dealt(s, n).len() == n,
        forall|j: int, k: int|
            0 <= j <= k < dealt(s, n)[i].len() ==> (#[trigger] dealt(s, n)[i][j]).size_bytes >= (
            #[trigger] dealt(s, n)[i][k]).size_bytes,
        forall|j: int|
            0 <= j < dealt(s, n)[i].len() ==> s.contains(#[trigger] dealt(s, n)[i][j]),
    decreases s.len(),
{
    lemma_dealt_len(s, n);
    if s.len() > 0 {
        let front = s.drop_last();
        lemma_dealt_falls(front, n, i);
        let bins = dealt(front, n);
        lemma_lightest(bins);
        let t = lightest(bins);
        let after = dealt(s, n);
        assert(s[s.len() - 1] == s.last());
        assert forall|j: int| 0 <= j < bins[i].len() implies s.contains(#[trigger] bins[i][j])
            && bins[i][j].size_bytes >= s.last().size_bytes by {
            let x = choose|x: int| 0 <= x < front.len() && front[x] == bins[i][j];
            assert(s[x] == bins[i][j]);
            assert(s[x].size_bytes >= s[s.len() - 1].size_bytes);
        }
        if i == t {
            assert(after[i] == bins[i].push(s.last()));
            assert forall|j: int| 0 <= j < after[i].len() implies s.contains(
                #[trigger] after[i][j],
            ) by {
                if j < bins[i].len() {
                    assert(after[i][j] == bins[i][j]);
                } else {
                    assert(s[s.len() - 1] == after[i][j]);
                }
            }
            assert forall|j: int, k: int| 0 <= j <= k < after[i].len() implies (
            #[trigger] after[i][j]).size_bytes >= (#[trigger] after[i][k]).size_bytes by {
                if j < bins[i].len() {
                    assert(after[i][j] == bins[i][j]);
                }
                if k < bins[i].len() {
                    assert(after[i][k] == bins[i][k]);
                }
            }
        } else {
            assert(after[i] == bins[i]);
        }
    }
}

/// In every bin of a window, no unit stands behind a smaller one.
pub proof fn units_of_a_bin_come_largest_first(
    units: Seq<CrateUnit>,
    b: nat,
    i: int,
    j: int,
    k: int,
)
    requires
        b >= 1,
        units.len() > 0,
        0 <= i < packed(units, b).len(),
        0 <= j <= k < packed(units, b)[i].len(),
    ensures
        packed(units, b)[i][j].size_bytes >= packed(units, b)[i][k].size_bytes,
{
    sorting_orders_and_keeps(units);
    let s = sorted(units);
    let n = batches_needed(units.len(), b);
    assert forall|x: int, y: int| 0 <= x <= y < s.len() implies (#[trigger] s[x]).size_bytes >= (
    #[trigger] s[y]).size_bytes by {
        assert(s[x].ranks_le(s[y]));
    }
    just_enough_batches(units.len(), b);
    assert(n >= 1) by {
        if n == 0 {
            assert(0 * b == 0) by (nonlinear_arith);
        }
    }
    lemma_dealt_len(s, n);
    lemma_dealt_falls(s, n, i);
}

/// The batches are the bins that hold something, in the order of the bins.
pub proof fn batches_are_the_filled_bins(
    edition: Edition,
    bins: Seq<Seq<CrateUnit>>,
    bin: Seq<CrateUnit>,
    units: Seq<CrateUnit>,
    b: nat,
)
    ensures
        batches_of(edition, Seq::empty()).len() == 0,
        bin.len() == 0 ==> batches_of(edition, bins.push(bin)) == batches_of(edition, bins),
        bin.len() > 0 ==> batches_of(edition, bins.push(bin)) == batches_of(edition, bins).push(
            (edition, bin),
        ),
        units.len() > 0 ==> flushed(units, b) == batches_of(units[0].edition, packed(units, b)),
        units.len() == 0 ==> flushed(units, b).len() == 0,
{
    assert(bins.push(bin).drop_last() =~= bins);
}

/// A packing is what was asked for, with a batch size and a multiplier of at
/// least one; the window is their product, as far as it can be counted.
pub proof fn a_packing_is_what_was_asked_for(
    batch_size: usize,
    pack_multiplier: usize,
    solo_threshold_bytes: u64,
)
    ensures
        packing(batch_size, pack_multiplier, solo_threshold_bytes).solo_threshold_bytes
            == solo_threshold_bytes,
        batch_size >= 1 ==> packing(
            batch_size,
            pack_multiplier,
            solo_threshold_bytes,
        ).batch_size == batch_size,
        packing(0, pack_multiplier, solo_threshold_bytes) == packing(
            1,
            pack_multiplier,
            solo_threshold_bytes,
        ),
        packing(batch_size, 0, solo_threshold_bytes) == packing(
            batch_size,
            1,
            solo_threshold_bytes,
        ),
        batch_size >= 1 && pack_multiplier >= 1 && batch_size * pack_multiplier <= usize::MAX
            ==> packing(batch_size, pack_multiplier, solo_threshold_bytes).window == batch_size
            * pack_multiplier,
        batch_size >= 1 && pack_multiplier >= 1 && batch_size * pack_multiplier > usize::MAX
            ==> packing(batch_size, pack_multiplier, solo_threshold_bytes).window == usize::MAX,
{
}

/// What a vector of batches holds is what each of them holds.
pub proof fn batches_hold_each_unit(batches: Seq<Batch>)
    ensures
        batch_views(batches).len() == batches.len(),
        forall|i: int|
            0 <= i < batches.len() ==> batch_views(batches)[i] == (
                (#[trigger] batches[i]).edition,
                batches[i].units@,
            ),
{
}

/// One more unit adds its size and its entry points.
pub proof fn totals_add_up(units: Seq<CrateUnit>, unit: CrateUnit)
    ensures
        total_size(Seq::empty()) == 0,
        total_files(Seq::empty()) == 0,
        total_size(units.push(unit)) == total_size(units) + unit.size_bytes,
        total_files(units.push(unit)) == total_files(units) + unit.files@.len(),
{
    assert(units.push(unit).drop_last() =~= units);
}

/// The sort key is the directory that comes before all others and, of several
/// ways to write it, the first; without units it is empty.
pub proof fn the_first_least_directory_is_the_key(units: Seq<CrateUnit>, k: int)
    requires
        0 <= k < units.len(),
        forall|i: int|
            0 <= i < units.len() ==> path_le(
                units[k].manifest_dir@,
                (#[trigger] units[i]).manifest_dir@,
            ),
        forall|i: int|
            0 <= i < k ==> !path_le(
                (#[trigger] units[i]).manifest_dir@,
                units[k].manifest_dir@,
            ),
    ensures
        least_dir(units) == units[k].manifest_dir@,
        least_dir(Seq::empty()).len() == 0,
    decreases units.len(),
{
    if units.len() > 1 {
        let front = units.drop_last();
        assert(units[units.len() - 1] == units.last());
        if k < front.len() {
            assert(front[k] == units[k]);
            assert forall|i: int| 0 <= i < front.len() implies path_le(
                front[k].manifest_dir@,
                (#[trigger] front[i]).manifest_dir@,
            ) by {
                assert(front[i] == units[i]);
            }
            assert forall|i: int| 0 <= i < k implies !path_le(
                (#[trigger] front[i]).manifest_dir@,
                front[k].manifest_dir@,
            ) by {
                assert(front[i] == units[i]);
            }
            the_first_least_directory_is_the_key(front, k);
        } else {
            sort_key_is_least(front);
            let i = choose|i: int|
                0 <= i < front.len() && (#[trigger] front[i]).manifest_dir@ == least_dir(front);
            assert(front[i] == units[i]);
        }
    }
}

/// Taking a largest batch takes one that was there, leaves exactly the others,
/// and none of them is larger.
pub proof fn a_largest_batch_is_taken(before: Multiset<Batch>, b: Batch, after: Multiset<Batch>)
    requires
        takes_largest(before, b, after),
    ensures
        before.count(b) > 0,
        after.insert(b) == before,
        forall|x: Batch| before.count(x) > 0 ==> total_size(x.units@) <= total_size(b.units@),
        weight(b) == total_size(b.units@),
{
    assert(after.insert(b) =~= before);
    assert forall|x: Batch| before.count(x) > 0 implies total_size(x.units@) <= total_size(
        b.units@,
    ) by {
        assert(before.contains(x));
    }
}

} // verus!
