//! What holds of every grouping of crates into batches.

use crate::coalesce::{
    arrival, arrivals, batches_needed, batches_of, coalesced, dealt, flushed, leftovers,
    lemma_dealt_len, lemma_lightest, lighter, lightest, packed, Packing, Waiting,
};
use crate::order::{sorted, sorting_orders_and_keeps};
use crate::types::{total_size, CrateUnit, Edition};
use vstd::multiset::Multiset;
use vstd::prelude::*;

verus! {

/// The units of all bins.
pub open spec fn bin_contents(bins: Seq<Seq<CrateUnit>>) -> Multiset<CrateUnit>
    decreases bins.len(),
{
    if bins.len() == 0 {
        Multiset::empty()
    } else {
        bin_contents(bins.drop_last()).add(bins.last().to_multiset())
    }
}

/// The units of all batches.
pub open spec fn contents(batches: Seq<(Edition, Seq<CrateUnit>)>) -> Multiset<CrateUnit>
    decreases batches.len(),
{
    if batches.len() == 0 {
        Multiset::empty()
    } else {
        contents(batches.drop_last()).add(batches.last().1.to_multiset())
    }
}

/// The units that wait, of all editions.
pub open spec fn waiting_contents(w: Waiting) -> Multiset<CrateUnit> {
    w.e2015.to_multiset().add(w.e2018.to_multiset()).add(w.e2021.to_multiset()).add(
        w.e2024.to_multiset(),
    )
}

/// A batch that may ship: it holds something, of one edition, and a unit at
/// the solo threshold only alone.
pub open spec fn shippable(b: (Edition, Seq<CrateUnit>), p: Packing) -> bool {
    &&& b.1.len() > 0
    &&& forall|j: int| 0 <= j < b.1.len() ==> (#[trigger] b.1[j]).edition == b.0
    &&& forall|j: int|
        0 <= j < b.1.len() && (#[trigger] b.1[j]).size_bytes >= p.solo_threshold_bytes
            ==> b.1.len() == 1
}

/// Units that may wait together: fewer than the window, of one edition, each
/// below the solo threshold.
pub open spec fn may_wait(units: Seq<CrateUnit>, e: Edition, p: Packing) -> bool {
    &&& units.len() < p.window
    &&& fits_together(units, e, p)
}

pub open spec fn fits_together(units: Seq<CrateUnit>, e: Edition, p: Packing) -> bool {
    forall|j: int|
        0 <= j < units.len() ==> (#[trigger] units[j]).edition == e && units[j].size_bytes
            < p.solo_threshold_bytes
}

proof fn lemma_bin_contents_update(bins: Seq<Seq<CrateUnit>>, k: int, x: CrateUnit)
    requires
        0 <= k < bins.len(),
    ensures
        bin_contents(bins.update(k, bins[k].push(x))) == bin_contents(bins).insert(x),
    decreases bins.len(),
{
    broadcast use vstd::seq_lib::to_multiset_build;

    let after = bins.update(k, bins[k].push(x));
    if k == bins.len() - 1 {
        assert(after.drop_last() =~= bins.drop_last());
        assert(bin_contents(after) =~= bin_contents(bins).insert(x));
    } else {
        lemma_bin_contents_update(bins.drop_last(), k, x);
        assert(after.drop_last() =~= bins.drop_last().update(k, bins[k].push(x)));
        assert(bin_contents(after) =~= bin_contents(bins).insert(x));
    }
}

proof fn lemma_empty_bins(bins: Seq<Seq<CrateUnit>>)
    requires
        forall|j: int| 0 <= j < bins.len() ==> (#[trigger] bins[j]).len() == 0,
    ensures
        bin_contents(bins) == Multiset::<CrateUnit>::empty(),
    decreases bins.len(),
{
    if bins.len() > 0 {
        lemma_empty_bins(bins.drop_last());
        bins.last().to_multiset_ensures();
        assert(bins.last() =~= Seq::empty());
        assert(bin_contents(bins) =~= Multiset::empty());
    }
}

proof fn lemma_dealt_contents(s: Seq<CrateUnit>, n: nat)
    requires
        n >= 1,
    ensures
        bin_contents(dealt(s, n)) == s.to_multiset(),
    decreases s.len(),
{
    broadcast use vstd::seq_lib::to_multiset_build;

    if s.len() == 0 {
        lemma_empty_bins(dealt(s, n));
        s.to_multiset_ensures();
        assert(s.to_multiset() =~= Multiset::empty());
    } else {
        let bins = dealt(s.drop_last(), n);
        lemma_dealt_contents(s.drop_last(), n);
        lemma_dealt_len(s.drop_last(), n);
        lemma_lightest(bins);
        lemma_bin_contents_update(bins, lightest(bins), s.last());
        assert(s =~= s.drop_last().push(s.last()));
    }
}

proof fn lemma_batches_of_contents(e: Edition, bins: Seq<Seq<CrateUnit>>)
    ensures
        contents(batches_of(e, bins)) == bin_contents(bins),
    decreases bins.len(),
{
    if bins.len() > 0 {
        lemma_batches_of_contents(e, bins.drop_last());
        let front = batches_of(e, bins.drop_last());
        if bins.last().len() == 0 {
            bins.last().to_multiset_ensures();
            assert(bins.last() =~= Seq::empty());
            assert(bin_contents(bins) =~= bin_contents(bins.drop_last()));
        } else {
            assert(front.push((e, bins.last())).drop_last() =~= front);
        }
    }
}

proof fn lemma_needed(len: nat, batch_size: nat)
    requires
        len >= 1,
        batch_size >= 1,
    ensures
        1 <= batches_needed(len, batch_size) <= len,
{
    vstd::arithmetic::div_mod::lemma_div_plus_one(len - 1, batch_size as int);
    vstd::arithmetic::div_mod::lemma_div_is_ordered_by_denominator(len - 1, 1, batch_size as int);
    vstd::arithmetic::div_mod::lemma_div_pos_is_pos(len - 1, batch_size as int);
}

proof fn lemma_flushed_contents(units: Seq<CrateUnit>, batch_size: nat)
    requires
        batch_size >= 1,
    ensures
        contents(flushed(units, batch_size)) == units.to_multiset(),
{
    if units.len() == 0 {
        units.to_multiset_ensures();
        assert(units.to_multiset() =~= Multiset::empty());
    } else {
        let n = batches_needed(units.len(), batch_size);
        lemma_needed(units.len(), batch_size);
        sorting_orders_and_keeps(units);
        lemma_dealt_contents(sorted(units), n);
        lemma_batches_of_contents(units[0].edition, packed(units, batch_size));
    }
}

proof fn lemma_contents_add(
    a: Seq<(Edition, Seq<CrateUnit>)>,
    b: Seq<(Edition, Seq<CrateUnit>)>,
)
    ensures
        contents(a + b) == contents(a).add(contents(b)),
    decreases b.len(),
{
    if b.len() == 0 {
        assert(a + b =~= a);
        assert(contents(a).add(contents(b)) =~= contents(a));
    } else {
        lemma_contents_add(a, b.drop_last());
        assert((a + b).drop_last() =~= a + b.drop_last());
        assert(contents(a + b) =~= contents(a).add(contents(b)));
    }
}

proof fn lemma_arrival_contents(w: Waiting, unit: CrateUnit, p: Packing)
    requires
        p.batch_size >= 1,
    ensures
        contents(arrival(w, unit, p).1).add(waiting_contents(arrival(w, unit, p).0))
            == waiting_contents(w).insert(unit),
{
    broadcast use vstd::seq_lib::to_multiset_build;

    let (w2, out) = arrival(w, unit, p);
    let e = unit.edition;
    let units = w.of(e).push(unit);
    let none = Seq::<CrateUnit>::empty();
    none.to_multiset_ensures();
    assert(none.to_multiset() =~= Multiset::empty());
    if unit.size_bytes >= p.solo_threshold_bytes {
        assert(seq![unit] =~= none.push(unit));
        assert(out.drop_last() =~= Seq::empty());
        assert(contents(out.drop_last()) =~= Multiset::empty());
        assert(out.last().1.to_multiset() =~= Multiset::empty().insert(unit));
        assert(contents(out) =~= Multiset::empty().insert(unit));
    } else {
        lemma_flushed_contents(units, p.batch_size as nat);
    }
    assert(contents(out).add(waiting_contents(w2)) =~= waiting_contents(w).insert(unit));
}

proof fn lemma_arrivals_contents(units: Seq<CrateUnit>, p: Packing)
    requires
        p.batch_size >= 1,
    ensures
        contents(arrivals(units, p).1).add(waiting_contents(arrivals(units, p).0))
            == units.to_multiset(),
    decreases units.len(),
{
    broadcast use vstd::seq_lib::to_multiset_build;

    if units.len() == 0 {
        units.to_multiset_ensures();
        let none = Seq::<CrateUnit>::empty();
        none.to_multiset_ensures();
        assert(units =~= none);
        assert(contents(arrivals(units, p).1).add(waiting_contents(arrivals(units, p).0))
            =~= units.to_multiset());
    } else {
        let (w, out) = arrivals(units.drop_last(), p);
        let (w2, more) = arrival(w, units.last(), p);
        lemma_arrivals_contents(units.drop_last(), p);
        lemma_arrival_contents(w, units.last(), p);
        lemma_contents_add(out, more);
        assert(units =~= units.drop_last().push(units.last()));
        assert(contents(out).add(contents(more)).add(waiting_contents(w2)) =~= contents(out).add(
            contents(more).add(waiting_contents(w2)),
        ));
        assert(contents(out).add(waiting_contents(w).insert(units.last())) =~= contents(out).add(
            waiting_contents(w),
        ).insert(units.last()));
    }
}

/// Every unit that arrives ships in exactly one batch, and nothing else ships.
pub proof fn every_unit_ships_once(units: Seq<CrateUnit>, p: Packing)
    requires
        p.batch_size >= 1,
    ensures
        contents(coalesced(units, p)) == units.to_multiset(),
{
    let (w, out) = arrivals(units, p);
    let b = p.batch_size as nat;
    lemma_arrivals_contents(units, p);
    lemma_flushed_contents(w.e2015, b);
    lemma_flushed_contents(w.e2018, b);
    lemma_flushed_contents(w.e2021, b);
    lemma_flushed_contents(w.e2024, b);
    lemma_contents_add(flushed(w.e2015, b), flushed(w.e2018, b));
    lemma_contents_add(flushed(w.e2015, b) + flushed(w.e2018, b), flushed(w.e2021, b));
    lemma_contents_add(
        flushed(w.e2015, b) + flushed(w.e2018, b) + flushed(w.e2021, b),
        flushed(w.e2024, b),
    );
    lemma_contents_add(out, leftovers(w, p));
    assert(contents(leftovers(w, p)) == waiting_contents(w));
}

proof fn lemma_dealt_members(s: Seq<CrateUnit>, n: nat, e: Edition, p: Packing)
    requires
        n >= 1,
        fits_together(s, e, p),
    ensures
        forall|i: int| 0 <= i < n ==> fits_together(#[trigger] dealt(s, n)[i], e, p),
    decreases s.len(),
{
    if s.len() > 0 {
        let init = s.drop_last();
        assert(fits_together(init, e, p)) by {
            assert forall|j: int| 0 <= j < init.len() implies (#[trigger] init[j]).edition == e
                && init[j].size_bytes < p.solo_threshold_bytes by {
                assert(init[j] == s[j]);
            }
        }
        lemma_dealt_members(init, n, e, p);
        lemma_dealt_len(init, n);
        let bins = dealt(init, n);
        lemma_lightest(bins);
        let k = lightest(bins);
        assert(s.last() == s[s.len() - 1]);
        assert(fits_together(bins[k].push(s.last()), e, p));
    }
}

proof fn lemma_batches_of_shippable(e: Edition, bins: Seq<Seq<CrateUnit>>, p: Packing)
    requires
        forall|i: int| 0 <= i < bins.len() ==> fits_together(#[trigger] bins[i], e, p),
    ensures
        forall|i: int|
            0 <= i < batches_of(e, bins).len() ==> shippable(#[trigger] batches_of(e, bins)[i], p),
    decreases bins.len(),
{
    if bins.len() > 0 {
        let init = bins.drop_last();
        assert forall|i: int| 0 <= i < init.len() implies fits_together(
            #[trigger] init[i],
            e,
            p,
        ) by {
            assert(init[i] == bins[i]);
        }
        lemma_batches_of_shippable(e, init, p);
        assert(fits_together(bins[bins.len() - 1], e, p));
        let all = batches_of(e, bins);
        assert forall|i: int| 0 <= i < all.len() implies shippable(#[trigger] all[i], p) by {
            if i < batches_of(e, init).len() {
                assert(all[i] == batches_of(e, init)[i]);
            }
        }
    }
}

proof fn lemma_sorted_fits(s: Seq<CrateUnit>, e: Edition, p: Packing)
    requires
        fits_together(s, e, p),
    ensures
        fits_together(sorted(s), e, p),
{
    sorting_orders_and_keeps(s);
    let t = sorted(s);
    assert forall|j: int| 0 <= j < t.len() implies (#[trigger] t[j]).edition == e
        && t[j].size_bytes < p.solo_threshold_bytes by {
        t.to_multiset_ensures();
        s.to_multiset_ensures();
        assert(t.contains(t[j]));
        assert(t.to_multiset().count(t[j]) > 0);
        assert(s.contains(t[j]));
        let i = choose|i: int| 0 <= i < s.len() && s[i] == t[j];
        assert(s[i].edition == e);
    }
}

proof fn lemma_flushed_shippable(units: Seq<CrateUnit>, e: Edition, p: Packing)
    requires
        p.batch_size >= 1,
        fits_together(units, e, p),
    ensures
        forall|i: int|
            0 <= i < flushed(units, p.batch_size as nat).len() ==> shippable(
                #[trigger] flushed(units, p.batch_size as nat)[i],
                p,
            ),
{
    if units.len() > 0 {
        let n = batches_needed(units.len(), p.batch_size as nat);
        lemma_needed(units.len(), p.batch_size as nat);
        lemma_sorted_fits(units, e, p);
        lemma_dealt_members(sorted(units), n, e, p);
        lemma_dealt_len(sorted(units), n);
        assert(units[0].edition == e);
        lemma_batches_of_shippable(e, packed(units, p.batch_size as nat), p);
    }
}

proof fn lemma_arrivals_shippable(units: Seq<CrateUnit>, p: Packing)
    requires
        p.batch_size >= 1,
        p.window >= 1,
    ensures
        forall|e: Edition| may_wait(#[trigger] arrivals(units, p).0.of(e), e, p),
        forall|i: int|
            0 <= i < arrivals(units, p).1.len() ==> shippable(#[trigger] arrivals(units, p).1[i], p),
    decreases units.len(),
{
    if units.len() > 0 {
        let (w, out) = arrivals(units.drop_last(), p);
        let unit = units.last();
        let (w2, more) = arrival(w, unit, p);
        lemma_arrivals_shippable(units.drop_last(), p);
        assert(may_wait(w.of(unit.edition), unit.edition, p));
        let grown = w.of(unit.edition).push(unit);
        if unit.size_bytes < p.solo_threshold_bytes {
            assert(fits_together(grown, unit.edition, p));
            lemma_flushed_shippable(grown, unit.edition, p);
        } else {
            assert(shippable(more[0], p));
        }
        assert forall|e: Edition| may_wait(#[trigger] w2.of(e), e, p) by {
            assert(may_wait(w.of(e), e, p));
        }
        let all = out + more;
        assert forall|i: int| 0 <= i < all.len() implies shippable(#[trigger] all[i], p) by {
            if i < out.len() {
                assert(all[i] == out[i]);
            } else {
                assert(all[i] == more[i - out.len()]);
            }
        }
    }
}

/// No more units of an edition ever wait than the window holds, and they are
/// of that edition and below the solo threshold.
pub proof fn waiting_stays_below_the_window(units: Seq<CrateUnit>, p: Packing, e: Edition)
    requires
        p.batch_size >= 1,
        p.window >= 1,
    ensures
        may_wait(arrivals(units, p).0.of(e), e, p),
{
    lemma_arrivals_shippable(units, p);
}

proof fn lemma_shippable_add(
    a: Seq<(Edition, Seq<CrateUnit>)>,
    b: Seq<(Edition, Seq<CrateUnit>)>,
    p: Packing,
)
    requires
        forall|i: int| 0 <= i < a.len() ==> shippable(#[trigger] a[i], p),
        forall|i: int| 0 <= i < b.len() ==> shippable(#[trigger] b[i], p),
    ensures
        forall|i: int| 0 <= i < (a + b).len() ==> shippable(#[trigger] (a + b)[i], p),
{
    assert forall|i: int| 0 <= i < (a + b).len() implies shippable(#[trigger] (a + b)[i], p) by {
        if i < a.len() {
            assert((a + b)[i] == a[i]);
        } else {
            assert((a + b)[i] == b[i - a.len()]);
        }
    }
}

/// Every batch that ships holds at least one unit and units of one edition
/// only, and a unit at or above the solo threshold ships alone.
pub proof fn batches_are_pure_and_giants_alone(units: Seq<CrateUnit>, p: Packing, i: int)
    requires
        p.batch_size >= 1,
        p.window >= 1,
        0 <= i < coalesced(units, p).len(),
    ensures
        shippable(coalesced(units, p)[i], p),
{
    let (w, out) = arrivals(units, p);
    let b = p.batch_size as nat;
    lemma_arrivals_shippable(units, p);
    assert(may_wait(w.of(Edition::E2015), Edition::E2015, p));
    assert(may_wait(w.of(Edition::E2018), Edition::E2018, p));
    assert(may_wait(w.of(Edition::E2021), Edition::E2021, p));
    assert(may_wait(w.of(Edition::E2024), Edition::E2024, p));
    lemma_flushed_shippable(w.e2015, Edition::E2015, p);
    lemma_flushed_shippable(w.e2018, Edition::E2018, p);
    lemma_flushed_shippable(w.e2021, Edition::E2021, p);
    lemma_flushed_shippable(w.e2024, Edition::E2024, p);
    lemma_shippable_add(flushed(w.e2015, b), flushed(w.e2018, b), p);
    lemma_shippable_add(flushed(w.e2015, b) + flushed(w.e2018, b), flushed(w.e2021, b), p);
    lemma_shippable_add(
        flushed(w.e2015, b) + flushed(w.e2018, b) + flushed(w.e2021, b),
        flushed(w.e2024, b),
        p,
    );
    lemma_shippable_add(out, leftovers(w, p), p);
}

/// Dealing each unit into the lightest bin keeps the bins balanced: no bin
/// outweighs another by more than the largest unit.
pub proof fn dealing_balances(s: Seq<CrateUnit>, n: nat, largest: nat, i: int, j: int)
    requires
        0 <= i < n,
        0 <= j < n,
        forall|k: int| 0 <= k < s.len() ==> (#[trigger] s[k]).size_bytes <= largest,
    ensures
        dealt(s, n).len() == n,
        total_size(dealt(s, n)[i]) <= total_size(dealt(s, n)[j]) + largest,
    decreases s.len(),
{
    lemma_dealt_len(s, n);
    if s.len() > 0 {
        let init = s.drop_last();
        let bins = dealt(init, n);
        assert forall|k: int| 0 <= k < init.len() implies (#[trigger] init[k]).size_bytes
            <= largest by {
            assert(init[k] == s[k]);
        }
        dealing_balances(init, n, largest, i, j);
        lemma_lightest(bins);
        let k = lightest(bins);
        let grown = bins[k].push(s.last());
        assert(grown.drop_last() =~= bins[k]);
        assert(s[s.len() - 1].size_bytes <= largest);
        assert(total_size(bins[k]) <= total_size(bins[j]));
    }
}

/// How many bins are empty.
pub open spec fn empty_bins(bins: Seq<Seq<CrateUnit>>) -> nat
    decreases bins.len(),
{
    if bins.len() == 0 {
        0
    } else {
        empty_bins(bins.drop_last()) + if bins.last().len() == 0 {
            1nat
        } else {
            0nat
        }
    }
}

proof fn lemma_some_bin_is_empty(bins: Seq<Seq<CrateUnit>>)
    ensures
        empty_bins(bins) > 0 <==> exists|i: int| 0 <= i < bins.len() && (#[trigger] bins[i]).len()
            == 0,
    decreases bins.len(),
{
    if bins.len() > 0 {
        let init = bins.drop_last();
        lemma_some_bin_is_empty(init);
        assert(bins[bins.len() - 1] == bins.last());
        if empty_bins(init) > 0 {
            let i = choose|i: int| 0 <= i < init.len() && (#[trigger] init[i]).len() == 0;
            assert(bins[i].len() == 0);
        }
        if exists|i: int| 0 <= i < bins.len() && (#[trigger] bins[i]).len() == 0 {
            let i = choose|i: int| 0 <= i < bins.len() && (#[trigger] bins[i]).len() == 0;
            if i < init.len() {
                assert(init[i].len() == 0);
            }
        }
    }
}

proof fn lemma_empty_bins_update(bins: Seq<Seq<CrateUnit>>, k: int, x: CrateUnit)
    requires
        0 <= k < bins.len(),
    ensures
        empty_bins(bins) == empty_bins(bins.update(k, bins[k].push(x))) + if bins[k].len() == 0 {
            1nat
        } else {
            0nat
        },
    decreases bins.len(),
{
    let after = bins.update(k, bins[k].push(x));
    if k == bins.len() - 1 {
        assert(after.drop_last() =~= bins.drop_last());
    } else {
        lemma_empty_bins_update(bins.drop_last(), k, x);
        assert(after.drop_last() =~= bins.drop_last().update(k, bins[k].push(x)));
    }
}

proof fn lemma_all_empty(bins: Seq<Seq<CrateUnit>>)
    requires
        forall|i: int| 0 <= i < bins.len() ==> (#[trigger] bins[i]).len() == 0,
    ensures
        empty_bins(bins) == bins.len(),
    decreases bins.len(),
{
    if bins.len() > 0 {
        let init = bins.drop_last();
        assert forall|i: int| 0 <= i < init.len() implies (#[trigger] init[i]).len() == 0 by {
            assert(init[i] == bins[i]);
        }
        lemma_all_empty(init);
        assert(bins[bins.len() - 1] == bins.last());
    }
}

/// Each unit goes into an empty bin as long as there is one.
proof fn lemma_dealing_fills(s: Seq<CrateUnit>, n: nat)
    requires
        n >= 1,
    ensures
        dealt(s, n).len() == n,
        empty_bins(dealt(s, n)) == if s.len() < n {
            (n - s.len()) as nat
        } else {
            0
        },
        s.len() <= n ==> forall|i: int| 0 <= i < n ==> (#[trigger] dealt(s, n)[i]).len() <= 1,
    decreases s.len(),
{
    lemma_dealt_len(s, n);
    if s.len() == 0 {
        lemma_all_empty(dealt(s, n));
    } else {
        let bins = dealt(s.drop_last(), n);
        let k = lightest(bins);
        lemma_dealing_fills(s.drop_last(), n);
        lemma_lightest(bins);
        lemma_some_bin_is_empty(bins);
        lemma_empty_bins_update(bins, k, s.last());
        if s.len() <= n {
            let i = choose|i: int| 0 <= i < bins.len() && (#[trigger] bins[i]).len() == 0;
            assert(total_size(bins[i]) == 0);
            assert(!lighter(bins[i], bins[k]));
            assert(bins[k].len() == 0);
        }
    }
}

proof fn lemma_batches_of_len(e: Edition, bins: Seq<Seq<CrateUnit>>)
    ensures
        batches_of(e, bins).len() + empty_bins(bins) == bins.len(),
    decreases bins.len(),
{
    if bins.len() > 0 {
        lemma_batches_of_len(e, bins.drop_last());
    }
}

proof fn lemma_batches_of_small(e: Edition, bins: Seq<Seq<CrateUnit>>)
    requires
        forall|i: int| 0 <= i < bins.len() ==> (#[trigger] bins[i]).len() <= 1,
    ensures
        forall|i: int|
            0 <= i < batches_of(e, bins).len() ==> (#[trigger] batches_of(e, bins)[i]).1.len() == 1,
    decreases bins.len(),
{
    if bins.len() > 0 {
        let init = bins.drop_last();
        assert forall|i: int| 0 <= i < init.len() implies (#[trigger] init[i]).len() <= 1 by {
            assert(init[i] == bins[i]);
        }
        lemma_batches_of_small(e, init);
        assert(bins[bins.len() - 1].len() <= 1);
        let all = batches_of(e, bins);
        assert forall|i: int| 0 <= i < all.len() implies (#[trigger] all[i]).1.len() == 1 by {
            if i < batches_of(e, init).len() {
                assert(all[i] == batches_of(e, init)[i]);
            }
        }
    }
}

/// A window of units ships as `ceil(len / b)` batches, none of them empty,
/// whatever the sizes of the units.
pub proof fn every_batch_is_filled(units: Seq<CrateUnit>, b: nat)
    requires
        b >= 1,
    ensures
        flushed(units, b).len() == (if units.len() == 0 {
            0
        } else {
            batches_needed(units.len(), b)
        }),
{
    if units.len() > 0 {
        let n = batches_needed(units.len(), b);
        lemma_needed(units.len(), b);
        sorting_orders_and_keeps(units);
        lemma_dealing_fills(sorted(units), n);
        lemma_batches_of_len(units[0].edition, packed(units, b));
    }
}

/// Whether every batch holds one unit.
pub open spec fn one_each(batches: Seq<(Edition, Seq<CrateUnit>)>) -> bool {
    forall|i: int| 0 <= i < batches.len() ==> (#[trigger] batches[i]).1.len() == 1
}

proof fn lemma_one_each_add(
    a: Seq<(Edition, Seq<CrateUnit>)>,
    b: Seq<(Edition, Seq<CrateUnit>)>,
)
    requires
        one_each(a),
        one_each(b),
    ensures
        one_each(a + b),
{
    assert forall|i: int| 0 <= i < (a + b).len() implies (#[trigger] (a + b)[i]).1.len() == 1 by {
        if i < a.len() {
            assert((a + b)[i] == a[i]);
        } else {
            assert((a + b)[i] == b[i - a.len()]);
        }
    }
}

proof fn lemma_flushed_one_each(units: Seq<CrateUnit>)
    ensures
        one_each(flushed(units, 1)),
{
    if units.len() > 0 {
        let n = batches_needed(units.len(), 1);
        assert(n == units.len());
        sorting_orders_and_keeps(units);
        lemma_dealing_fills(sorted(units), n);
        lemma_batches_of_small(units[0].edition, packed(units, 1));
    }
}

proof fn lemma_arrivals_one_each(units: Seq<CrateUnit>, p: Packing)
    requires
        p.batch_size == 1,
    ensures
        one_each(arrivals(units, p).1),
    decreases units.len(),
{
    if units.len() > 0 {
        let (w, out) = arrivals(units.drop_last(), p);
        let unit = units.last();
        lemma_arrivals_one_each(units.drop_last(), p);
        lemma_flushed_one_each(w.of(unit.edition).push(unit));
        lemma_one_each_add(out, arrival(w, unit, p).1);
    }
}

/// With a batch size of 1, every crate is dispatched alone.
pub proof fn batch_size_one_dispatches_each_crate_alone(units: Seq<CrateUnit>, p: Packing)
    requires
        p.batch_size == 1,
    ensures
        one_each(coalesced(units, p)),
{
    let (w, out) = arrivals(units, p);
    lemma_arrivals_one_each(units, p);
    lemma_flushed_one_each(w.e2015);
    lemma_flushed_one_each(w.e2018);
    lemma_flushed_one_each(w.e2021);
    lemma_flushed_one_each(w.e2024);
    lemma_one_each_add(flushed(w.e2015, 1), flushed(w.e2018, 1));
    lemma_one_each_add(flushed(w.e2015, 1) + flushed(w.e2018, 1), flushed(w.e2021, 1));
    lemma_one_each_add(
        flushed(w.e2015, 1) + flushed(w.e2018, 1) + flushed(w.e2021, 1),
        flushed(w.e2024, 1),
    );
    lemma_one_each_add(out, leftovers(w, p));
}

} // verus!
