//! What holds of a whole run, however its crates are batched and scheduled.

use crate::claims::{every_entry_point_is_formatted_once, formatted, Site};
use crate::coalesce::{
    coalesced, packing, packing_is_never_empty, Packing, DEFAULT_PACK_MULTIPLIER,
};
use crate::coalesce_laws::{
    batches_are_pure_and_giants_alone, contents, every_unit_ships_once, shippable,
};
use crate::invoke::{batch_files, extra_arguments, unit_files};
use crate::path::{same_path, FilePath};
use crate::pipeline::or_default;
use crate::size::HUGE_CUTOFF_BYTES;
use crate::text::views;
use crate::types::{Config, CrateUnit, Edition};
use vstd::multiset::Multiset;
use vstd::prelude::*;
use vstd::seq_lib::{lemma_multiset_commutative, to_multiset_len};

verus! {

/// The files of one crate, each with the value of `--edition` that it calls for.
pub open spec fn wanted_of(u: CrateUnit) -> Seq<(Seq<u8>, Seq<char>)> {
    u.files@.map_values(|f: FilePath| (f@, u.edition.year()))
}

/// The files of the crates, each with the value of `--edition` that it calls for.
pub open spec fn wanted(units: Seq<CrateUnit>) -> Seq<(Seq<u8>, Seq<char>)>
    decreases units.len(),
{
    if units.len() == 0 {
        Seq::empty()
    } else {
        wanted(units.drop_last()) + wanted_of(units.last())
    }
}

/// The files that the invocations for these batches are given, each with the
/// value of `--edition` that stands beside it.
pub open spec fn handed(batches: Seq<(Edition, Seq<CrateUnit>)>) -> Seq<(Seq<u8>, Seq<char>)>
    decreases batches.len(),
{
    if batches.len() == 0 {
        Seq::empty()
    } else {
        let (edition, units) = batches.last();
        handed(batches.drop_last()) + batch_files(units).map_values(
            |f: (Seq<u8>, Seq<u8>)| (f.0, edition.year()),
        )
    }
}

/// How a run of this configuration groups its crates.
pub open spec fn grouping_of(cfg: Config) -> Packing {
    packing(or_default(cfg.batch_size, 3), DEFAULT_PACK_MULTIPLIER, HUGE_CUTOFF_BYTES)
}

/// The crates of all batches, in turn.
spec fn crates_of(batches: Seq<(Edition, Seq<CrateUnit>)>) -> Seq<CrateUnit>
    decreases batches.len(),
{
    if batches.len() == 0 {
        Seq::empty()
    } else {
        crates_of(batches.drop_last()) + batches.last().1
    }
}

proof fn lemma_crates_of(batches: Seq<(Edition, Seq<CrateUnit>)>)
    ensures
        crates_of(batches).to_multiset() == contents(batches),
    decreases batches.len(),
{
    if batches.len() > 0 {
        lemma_crates_of(batches.drop_last());
        lemma_multiset_commutative(crates_of(batches.drop_last()), batches.last().1);
    } else {
        crates_of(batches).to_multiset_ensures();
        assert(crates_of(batches).to_multiset() =~= Multiset::empty());
    }
}

proof fn lemma_wanted_add(a: Seq<CrateUnit>, b: Seq<CrateUnit>)
    ensures
        wanted(a + b) == wanted(a) + wanted(b),
    decreases b.len(),
{
    if b.len() == 0 {
        assert(a + b =~= a);
        assert(wanted(a) + wanted(b) =~= wanted(a));
    } else {
        lemma_wanted_add(a, b.drop_last());
        assert((a + b).drop_last() =~= a + b.drop_last());
        assert(wanted(a + b) =~= wanted(a) + wanted(b));
    }
}

proof fn lemma_pure_batch(e: Edition, units: Seq<CrateUnit>)
    requires
        forall|j: int| 0 <= j < units.len() ==> (#[trigger] units[j]).edition == e,
    ensures
        wanted(units) == batch_files(units).map_values(|f: (Seq<u8>, Seq<u8>)| (f.0, e.year())),
    decreases units.len(),
{
    let pair = |f: (Seq<u8>, Seq<u8>)| (f.0, e.year());
    if units.len() == 0 {
        assert(wanted(units) =~= batch_files(units).map_values(pair));
    } else {
        let init = units.drop_last();
        assert forall|j: int| 0 <= j < init.len() implies (#[trigger] init[j]).edition == e by {
            assert(init[j] == units[j]);
        }
        lemma_pure_batch(e, init);
        assert(units[units.len() - 1].edition == e);
        assert(wanted_of(units.last()) =~= unit_files(units.last()).map_values(pair));
        assert(wanted(units) =~= batch_files(units).map_values(pair));
    }
}

proof fn lemma_handed(batches: Seq<(Edition, Seq<CrateUnit>)>, p: Packing)
    requires
        forall|i: int| 0 <= i < batches.len() ==> shippable(#[trigger] batches[i], p),
    ensures
        handed(batches) == wanted(crates_of(batches)),
    decreases batches.len(),
{
    if batches.len() > 0 {
        let init = batches.drop_last();
        assert forall|i: int| 0 <= i < init.len() implies shippable(#[trigger] init[i], p) by {
            assert(init[i] == batches[i]);
        }
        lemma_handed(init, p);
        assert(shippable(batches[batches.len() - 1], p));
        lemma_pure_batch(batches.last().0, batches.last().1);
        lemma_wanted_add(crates_of(init), batches.last().1);
    }
}

proof fn lemma_wanted_remove(units: Seq<CrateUnit>, j: int)
    requires
        0 <= j < units.len(),
    ensures
        wanted(units).to_multiset() == wanted(units.remove(j)).to_multiset().add(
            wanted_of(units[j]).to_multiset(),
        ),
{
    let a = units.take(j);
    let b = units.skip(j + 1);
    let one = seq![units[j]];
    assert(units =~= a + one + b);
    assert(units.remove(j) =~= a + b);
    lemma_wanted_add(a + one, b);
    lemma_wanted_add(a, one);
    lemma_wanted_add(a, b);
    assert(wanted(one.drop_last()) =~= Seq::empty());
    assert(one.last() == units[j]);
    assert(wanted(one) =~= wanted_of(units[j]));
    lemma_multiset_commutative(wanted(a) + wanted(one), wanted(b));
    lemma_multiset_commutative(wanted(a), wanted(one));
    lemma_multiset_commutative(wanted(a), wanted(b));
    assert(wanted(units).to_multiset() =~= wanted(units.remove(j)).to_multiset().add(
        wanted_of(units[j]).to_multiset(),
    ));
}

proof fn lemma_wanted_permuted(a: Seq<CrateUnit>, b: Seq<CrateUnit>)
    requires
        a.to_multiset() == b.to_multiset(),
    ensures
        wanted(a).to_multiset() == wanted(b).to_multiset(),
    decreases a.len(),
{
    broadcast use vstd::seq_lib::group_to_multiset_ensures;

    to_multiset_len(a);
    to_multiset_len(b);
    if a.len() > 0 {
        let n = a.len() - 1;
        let x = a[n];
        assert(a.contains(x));
        assert(a.to_multiset().count(x) > 0);
        assert(b.contains(x));
        let j = choose|j: int| 0 <= j < b.len() && b[j] == x;
        assert(a.remove(n).to_multiset() =~= a.to_multiset().remove(x));
        assert(b.remove(j).to_multiset() =~= b.to_multiset().remove(x));
        lemma_wanted_permuted(a.remove(n), b.remove(j));
        lemma_wanted_remove(a, n);
        lemma_wanted_remove(b, j);
    } else {
        assert(a =~= b);
    }
}

/// However crates are grouped, rustfmt is given the files of each of them, with
/// the edition of that crate, and nothing else.
pub proof fn every_file_is_handed_over_with_its_edition(units: Seq<CrateUnit>, p: Packing)
    requires
        p.batch_size >= 1,
        p.window >= 1,
    ensures
        handed(coalesced(units, p)).to_multiset() == wanted(units).to_multiset(),
{
    let batches = coalesced(units, p);
    assert forall|i: int| 0 <= i < batches.len() implies shippable(#[trigger] batches[i], p) by {
        batches_are_pure_and_giants_alone(units, p, i);
    }
    lemma_handed(batches, p);
    every_unit_ships_once(units, p);
    lemma_crates_of(batches);
    lemma_wanted_permuted(crates_of(batches), units);
}

/// The grouping never changes which files are formatted, nor with which edition.
pub proof fn grouping_changes_nothing(units: Seq<CrateUnit>, p: Packing, q: Packing)
    requires
        p.batch_size >= 1,
        p.window >= 1,
        q.batch_size >= 1,
        q.window >= 1,
    ensures
        handed(coalesced(units, p)).to_multiset() == handed(coalesced(units, q)).to_multiset(),
{
    every_file_is_handed_over_with_its_edition(units, p);
    every_file_is_handed_over_with_its_edition(units, q);
}

/// Two runs over the same crates that differ in batch size, workers and channel
/// capacity alone give rustfmt the same files with the same editions and the
/// same further arguments. No batch size is a batch size of 3.
pub proof fn batching_and_scheduling_change_nothing(units: Seq<CrateUnit>, a: Config, b: Config)
    requires
        a.check == b.check,
        views(a.rustfmt_args@) == views(b.rustfmt_args@),
    ensures
        handed(coalesced(units, grouping_of(a))).to_multiset() == handed(
            coalesced(units, grouping_of(b)),
        ).to_multiset(),
        extra_arguments(a) == extra_arguments(b),
        a.batch_size is None && b.batch_size == Some(3usize) ==> grouping_of(a) == grouping_of(b),
{
    packing_is_never_empty(
        or_default(a.batch_size, 3),
        DEFAULT_PACK_MULTIPLIER,
        HUGE_CUTOFF_BYTES,
    );
    packing_is_never_empty(
        or_default(b.batch_size, 3),
        DEFAULT_PACK_MULTIPLIER,
        HUGE_CUTOFF_BYTES,
    );
    grouping_changes_nothing(units, grouping_of(a), grouping_of(b));
}

/// Where the crates together have the files that they claimed, rustfmt is given
/// every entry point of every crate, and none of them twice.
pub proof fn every_entry_point_is_handed_over_once(
    crates: Seq<(Seq<Seq<u8>>, Site)>,
    units: Seq<CrateUnit>,
    p: Packing,
)
    requires
        p.batch_size >= 1,
        p.window >= 1,
        wanted(units).map_values(|w: (Seq<u8>, Seq<char>)| w.0) == formatted(
            Seq::empty(),
            crates,
        ),
    ensures
        forall|i: int, j: int|
            0 <= i < j < handed(coalesced(units, p)).len() ==> !same_path(
                (#[trigger] handed(coalesced(units, p))[i]).0,
                (#[trigger] handed(coalesced(units, p))[j]).0,
            ),
        forall|c: int, i: int|
            0 <= c < crates.len() && 0 <= i < crates[c].0.len() ==> exists|k: int|
                0 <= k < handed(coalesced(units, p)).len() && same_path(
                    (#[trigger] handed(coalesced(units, p))[k]).0,
                    #[trigger] crates[c].0[i],
                ),
{
    broadcast use vstd::seq_lib::group_to_multiset_ensures;

    let w = wanted(units);
    let h = handed(coalesced(units, p));
    let files = formatted(Seq::empty(), crates);
    every_file_is_handed_over_with_its_edition(units, p);
    every_entry_point_is_formatted_once(crates);
    assert(w.map_values(|w: (Seq<u8>, Seq<char>)| w.0).len() == w.len());
    assert forall|i: int| 0 <= i < w.len() implies (#[trigger] w[i]).0 == files[i] by {
        assert(w.map_values(|w: (Seq<u8>, Seq<char>)| w.0)[i] == w[i].0);
    }
    assert(w.no_duplicates()) by {
        assert forall|i: int, j: int| 0 <= i < w.len() && 0 <= j < w.len() && i != j implies w[i]
            != w[j] by {
            assert(w[i].0 == files[i] && w[j].0 == files[j]);
            if i < j {
                assert(!same_path(files[i], files[j]));
            } else {
                assert(!same_path(files[j], files[i]));
            }
        }
    }
    w.lemma_multiset_has_no_duplicates();
    h.lemma_multiset_has_no_duplicates_conv();
    assert forall|i: int, j: int| 0 <= i < j < h.len() implies !same_path(
        (#[trigger] h[i]).0,
        (#[trigger] h[j]).0,
    ) by {
        assert(h.contains(h[i]) && h.contains(h[j]));
        assert(h.to_multiset().count(h[i]) > 0 && h.to_multiset().count(h[j]) > 0);
        assert(w.contains(h[i]) && w.contains(h[j]));
        let a = choose|a: int| 0 <= a < w.len() && w[a] == h[i];
        let b = choose|b: int| 0 <= b < w.len() && w[b] == h[j];
        assert(h[i] != h[j]);
        assert(w[a].0 == files[a] && w[b].0 == files[b]);
        if a < b {
            assert(!same_path(files[a], files[b]));
        } else {
            assert(!same_path(files[b], files[a]));
        }
    }
    assert forall|c: int, i: int|
        0 <= c < crates.len() && 0 <= i < crates[c].0.len() implies exists|k: int|
        0 <= k < h.len() && same_path((#[trigger] h[k]).0, #[trigger] crates[c].0[i]) by {
        let t = crates[c].0[i];
        let a = choose|a: int| 0 <= a < files.len() && same_path(#[trigger] files[a], t);
        assert(w[a].0 == files[a]);
        assert(w.contains(w[a]));
        assert(w.to_multiset().count(w[a]) > 0);
        assert(h.contains(w[a]));
        let k = choose|k: int| 0 <= k < h.len() && h[k] == w[a];
        assert(same_path(h[k].0, t));
    }
}

} // verus!
