//! Priority dispatch from the coalescer to the workers.
//!
//! A size-ordered queue: a worker gets the largest batch that is queued, so
//! that a long-pole giant does not sit behind smaller batches and become the
//! tail. Equally large batches come out in an unspecified order.
//!
//! The queue is a binary max-heap. Sharing it between threads, and waiting
//! while it is empty, is left to the caller.

use crate::coalesce::lemma_total_size_bound;
use crate::types::{total_size, Batch, CrateUnit};
use vstd::multiset::Multiset;
use vstd::prelude::*;
use vstd::seq_lib::{to_multiset_build, to_multiset_update};

verus! {

/// A queued batch with its size.
struct Item {
    size: u128,
    batch: Batch,
}

/// Batches by size, largest first.
pub struct PriorityQueue {
    heap: Vec<Item>,
    closed: bool,
}

/// What a worker gets from the queue.
#[derive(Debug)]
pub enum Pop {
    /// The largest queued batch.
    Ready(Batch),
    /// Nothing is queued now, but more may come.
    Pending,
    /// Nothing is queued and nothing more will come.
    Closed,
}

/// The size of a batch.
pub open spec fn weight(b: Batch) -> nat {
    total_size(b.units@)
}

/// Whether taking `b` out of the batches `before` and leaving `after` takes a
/// largest one.
pub open spec fn takes_largest(before: Multiset<Batch>, b: Batch, after: Multiset<Batch>) -> bool {
    &&& before.contains(b)
    &&& forall|x: Batch| #[trigger] before.contains(x) ==> weight(x) <= weight(b)
    &&& after == before.remove(b)
}

spec fn batches(h: Seq<Item>) -> Seq<Batch> {
    h.map_values(|i: Item| i.batch)
}

/// Whether the item at `c` is at most as large as the item at `i`.
spec fn fits(h: Seq<Item>, c: int, i: int) -> bool {
    h[c].size <= h[i].size
}

/// Whether the item at `c` is at most as large as its parent.
spec fn fits_parent(h: Seq<Item>, c: int) -> bool {
    fits(h, c, (c - 1) / 2)
}

/// Every item is at most as large as its parent.
spec fn heap_ordered(h: Seq<Item>) -> bool {
    forall|c: int| 0 < c < h.len() ==> #[trigger] fits_parent(h, c)
}

spec fn sizes_match(h: Seq<Item>) -> bool {
    forall|i: int| 0 <= i < h.len() ==> (#[trigger] h[i]).size == weight(h[i].batch)
}

/// Heap order but for the item at `i`, which may be larger than its parent.
spec fn ordered_below(h: Seq<Item>, i: int) -> bool {
    &&& forall|c: int| 0 < c < h.len() && c != i ==> #[trigger] fits_parent(h, c)
    &&& i > 0 ==> forall|c: int|
        0 < c < h.len() && (c - 1) / 2 == i ==> #[trigger] fits(h, c, (i - 1) / 2)
}

/// Heap order but for the item at `i`, which may be smaller than its children.
spec fn ordered_above(h: Seq<Item>, i: int) -> bool {
    &&& forall|c: int| 0 < c < h.len() && (c - 1) / 2 != i ==> #[trigger] fits_parent(h, c)
    &&& i > 0 ==> forall|c: int|
        0 < c < h.len() && (c - 1) / 2 == i ==> #[trigger] fits(h, c, (i - 1) / 2)
}

/// The first item of a heap is a largest one.
proof fn lemma_root_is_largest(h: Seq<Item>, i: int)
    requires
        heap_ordered(h),
        0 <= i < h.len(),
    ensures
        h[i].size <= h[0].size,
    decreases i,
{
    if i > 0 {
        assert(fits_parent(h, i));
        lemma_root_is_largest(h, (i - 1) / 2);
    }
}

spec fn swapped(h: Seq<Item>, i: int, j: int) -> Seq<Item> {
    h.update(i, h[j]).update(j, h[i])
}

proof fn lemma_swap_keeps(h: Seq<Item>, i: int, j: int)
    requires
        0 <= i < j < h.len(),
    ensures
        batches(swapped(h, i, j)).to_multiset() == batches(h).to_multiset(),
        sizes_match(h) ==> sizes_match(swapped(h, i, j)),
{
    let x = h[i].batch;
    let y = h[j].batch;
    let s = batches(h);
    let t = s.update(i, y);
    to_multiset_update(s, i, y);
    to_multiset_update(t, j, x);
    assert(batches(swapped(h, i, j)) =~= t.update(j, x));
    s.to_multiset_ensures();
    assert(s.contains(s[i]));
    assert(s.contains(s[j]));
    assert(t[j] == y);
    assert(s.to_multiset().insert(y).remove(x).insert(x).remove(y) =~= s.to_multiset());
}

/// Moving a too large item to its parent's place moves the flaw there.
proof fn lemma_step_up(h: Seq<Item>, i: int)
    requires
        0 < i < h.len(),
        ordered_below(h, i),
        h[i].size > h[(i - 1) / 2].size,
    ensures
        ordered_below(swapped(h, (i - 1) / 2, i), (i - 1) / 2),
{
    let p = (i - 1) / 2;
    let g = swapped(h, p, i);
    assert forall|c: int| 0 < c < g.len() && c != p implies #[trigger] fits_parent(g, c) by {
        if c != i {
            assert(fits_parent(h, c));
            if (c - 1) / 2 == i {
                assert(fits(h, c, p));
            }
        }
    }
    if p > 0 {
        assert(fits_parent(h, p));
        assert forall|c: int| 0 < c < g.len() && (c - 1) / 2 == p implies #[trigger] fits(
            g,
            c,
            (p - 1) / 2,
        ) by {
            if c != i {
                assert(fits_parent(h, c));
            }
        }
    }
}

/// Moving a too small item to its largest child's place moves the flaw there.
proof fn lemma_step_down(h: Seq<Item>, i: int, c: int)
    requires
        0 <= i < c < h.len(),
        (c - 1) / 2 == i,
        ordered_above(h, i),
        h[c].size > h[i].size,
        forall|k: int| 0 < k < h.len() && (k - 1) / 2 == i ==> #[trigger] fits(h, k, c),
    ensures
        ordered_above(swapped(h, i, c), c),
{
    let g = swapped(h, i, c);
    assert forall|k: int| 0 < k < g.len() && (k - 1) / 2 != c implies #[trigger] fits_parent(
        g,
        k,
    ) by {
        if (k - 1) / 2 == i {
            assert(fits(h, k, c));
        } else if k == i {
            assert(fits(h, c, (i - 1) / 2));
        } else {
            assert(fits_parent(h, k));
        }
    }
    assert forall|k: int| 0 < k < g.len() && (k - 1) / 2 == c implies #[trigger] fits(
        g,
        k,
        (c - 1) / 2,
    ) by {
        assert(fits_parent(h, k));
    }
}

fn swap_items(h: &mut Vec<Item>, i: usize, j: usize)
    requires
        i < j < old(h)@.len(),
    ensures
        final(h)@ == swapped(old(h)@, i as int, j as int),
{
    let (a, b) = h.as_mut_slice().split_at_mut(j);
    std::mem::swap(&mut a[i], &mut b[0]);
}

/// Moves the last item up to its place.
fn sift_up(h: &mut Vec<Item>)
    requires
        old(h)@.len() > 0,
        ordered_below(old(h)@, old(h)@.len() - 1),
        sizes_match(old(h)@),
    ensures
        heap_ordered(final(h)@),
        sizes_match(final(h)@),
        batches(final(h)@).to_multiset() == batches(old(h)@).to_multiset(),
{
    let mut i: usize = h.len() - 1;
    while i > 0
        invariant
            i < h@.len(),
            ordered_below(h@, i as int),
            sizes_match(h@),
            batches(h@).to_multiset() == batches(old(h)@).to_multiset(),
        decreases i,
    {
        let p: usize = (i - 1) / 2;
        if h[i].size <= h[p].size {
            assert(heap_ordered(h@)) by {
                assert(fits_parent(h@, i as int));
            }
            return;
        }
        proof {
            lemma_step_up(h@, i as int);
            lemma_swap_keeps(h@, p as int, i as int);
        }
        swap_items(h, p, i);
        i = p;
    }
}

/// Moves the first item down to its place.
fn sift_down(h: &mut Vec<Item>)
    requires
        old(h)@.len() > 0,
        ordered_above(old(h)@, 0),
        sizes_match(old(h)@),
    ensures
        heap_ordered(final(h)@),
        sizes_match(final(h)@),
        batches(final(h)@).to_multiset() == batches(old(h)@).to_multiset(),
{
    let n = h.len();
    let mut i: usize = 0;
    while i < n / 2
        invariant
            n == h@.len(),
            i < n,
            ordered_above(h@, i as int),
            sizes_match(h@),
            batches(h@).to_multiset() == batches(old(h)@).to_multiset(),
        decreases n - i,
    {
        let left: usize = 2 * i + 1;
        let c: usize = if left + 1 < n && h[left + 1].size > h[left].size {
            left + 1
        } else {
            left
        };
        assert forall|k: int| 0 < k < h@.len() && (k - 1) / 2 == i implies #[trigger] fits(
            h@,
            k,
            c as int,
        ) by {
            assert(k == left || k == left + 1);
        }
        if h[c].size <= h[i].size {
            assert(heap_ordered(h@)) by {
                assert forall|k: int| 0 < k < h@.len() implies #[trigger] fits_parent(h@, k) by {
                    if (k - 1) / 2 == i {
                        assert(fits(h@, k, c as int));
                    }
                }
            }
            return;
        }
        proof {
            lemma_step_down(h@, i as int, c as int);
            lemma_swap_keeps(h@, i as int, c as int);
        }
        swap_items(h, i, c);
        i = c;
    }
    assert(heap_ordered(h@)) by {
        assert forall|k: int| 0 < k < h@.len() implies #[trigger] fits_parent(h@, k) by {
            assert((k - 1) / 2 != i);
        }
    }
}

fn weight_of(units: &Vec<CrateUnit>) -> (n: u128)
    ensures
        n == total_size(units@),
{
    let mut n: u128 = 0;
    let mut i: usize = 0;
    while i < units.len()
        invariant
            i <= units@.len(),
            n == total_size(units@.take(i as int)),
        decreases units@.len() - i,
    {
        proof {
            lemma_total_size_bound(units@.take(i as int));
            assert(i * u64::MAX <= usize::MAX * u64::MAX) by (nonlinear_arith)
                requires
                    i <= usize::MAX,
            ;
            assert(units@.take(i + 1).drop_last() =~= units@.take(i as int));
        }
        n = n + units[i].size_bytes as u128;
        i += 1;
    }
    assert(units@.take(i as int) =~= units@);
    n
}

impl PriorityQueue {
    #[verifier::type_invariant]
    closed spec fn is_heap(self) -> bool {
        heap_ordered(self.heap@) && sizes_match(self.heap@)
    }

    /// The queued batches.
    pub closed spec fn queued(&self) -> Multiset<Batch> {
        batches(self.heap@).to_multiset()
    }

    /// Whether the queue is closed.
    pub closed spec fn is_closed(&self) -> bool {
        self.closed
    }

    pub fn new() -> (q: PriorityQueue)
        ensures
            q.queued() == Multiset::<Batch>::empty(),
            !q.is_closed(),
    {
        let q = PriorityQueue { heap: Vec::new(), closed: false };
        proof {
            batches(q.heap@).to_multiset_ensures();
            assert(q.queued() =~= Multiset::empty());
        }
        q
    }

    /// Queues a batch.
    pub fn push(&mut self, batch: Batch)
        ensures
            final(self).queued() == old(self).queued().insert(batch),
            final(self).is_closed() == old(self).is_closed(),
    {
        proof {
            use_type_invariant(&*self);
        }
        let size = weight_of(&batch.units);
        let mut heap: Vec<Item> = Vec::new();
        std::mem::swap(&mut heap, &mut self.heap);
        let ghost before = heap@;
        heap.push(Item { size, batch });
        proof {
            to_multiset_build(batches(before), batch);
            assert(batches(heap@) =~= batches(before).push(batch));
            let i = heap@.len() - 1;
            assert(ordered_below(heap@, i)) by {
                assert forall|c: int| 0 < c < heap@.len() && c != i implies #[trigger] fits_parent(
                    heap@,
                    c,
                ) by {
                    assert(fits_parent(before, c));
                }
            }
            assert(sizes_match(heap@)) by {
                assert forall|k: int| 0 <= k < heap@.len() implies (#[trigger] heap@[k]).size
                    == weight(heap@[k].batch) by {
                    if k < i {
                        assert(heap@[k] == before[k]);
                    }
                }
            }
        }
        sift_up(&mut heap);
        self.heap = heap;
    }

    /// Marks the queue closed: nothing more will be pushed.
    pub fn close(&mut self)
        ensures
            final(self).queued() == old(self).queued(),
            final(self).is_closed(),
    {
        proof {
            use_type_invariant(&*self);
        }
        self.closed = true;
    }

    /// Takes the largest queued batch. Answers `Closed` only once the queue has
    /// been closed and every queued batch has been taken.
    pub fn pop(&mut self) -> (r: Pop)
        ensures
            final(self).is_closed() == old(self).is_closed(),
            match r {
                Pop::Ready(b) => takes_largest(old(self).queued(), b, final(self).queued()),
                Pop::Pending => !old(self).is_closed() && old(self).queued() == Multiset::<
                    Batch,
                >::empty() && final(self).queued() == old(self).queued(),
                Pop::Closed => old(self).is_closed() && old(self).queued() == Multiset::<
                    Batch,
                >::empty() && final(self).queued() == old(self).queued(),
            },
    {
        proof {
            use_type_invariant(&*self);
            batches(self.heap@).to_multiset_ensures();
        }
        let mut heap: Vec<Item> = Vec::new();
        std::mem::swap(&mut heap, &mut self.heap);
        let ghost before = heap@;
        match heap.pop() {
            None => {
                assert(old(self).queued() =~= Multiset::empty());
                assert(batches(heap@) =~= batches(before));
                self.heap = heap;
                if self.closed {
                    Pop::Closed
                } else {
                    Pop::Pending
                }
            },
            Some(last) => {
                let mut item = last;
                let ghost tail = heap@;
                if heap.len() > 0 {
                    std::mem::swap(&mut item, &mut heap[0]);
                    proof {
                        assert(heap@ =~= tail.update(0, last));
                        assert(item == before[0]);
                        assert(ordered_above(heap@, 0)) by {
                            assert forall|c: int|
                                0 < c < heap@.len() && (c - 1) / 2 != 0 implies #[trigger] fits_parent(
                                heap@,
                                c,
                            ) by {
                                assert(fits_parent(before, c));
                            }
                        }
                        assert(sizes_match(heap@)) by {
                            assert forall|k: int| 0 <= k < heap@.len() implies (
                            #[trigger] heap@[k]).size == weight(heap@[k].batch) by {
                                if k > 0 {
                                    assert(heap@[k] == before[k]);
                                } else {
                                    assert(heap@[k] == before[before.len() - 1]);
                                }
                            }
                        }
                        let s = batches(tail);
                        to_multiset_update(s, 0, last.batch);
                        to_multiset_build(s, last.batch);
                        s.to_multiset_ensures();
                        assert(s.contains(s[0]));
                        assert(batches(heap@) =~= s.update(0, last.batch));
                        assert(batches(before) =~= s.push(last.batch));
                        assert(s.to_multiset().insert(last.batch).remove(before[0].batch)
                            == batches(before).to_multiset().remove(before[0].batch));
                    }
                    sift_down(&mut heap);
                } else {
                    proof {
                        let s = batches(tail);
                        to_multiset_build(s, last.batch);
                        assert(batches(before) =~= s.push(last.batch));
                        s.to_multiset_ensures();
                        assert(s.to_multiset().insert(last.batch).remove(last.batch)
                            =~= s.to_multiset());
                    }
                }
                proof {
                    assert(item == before[0]);
                    assert forall|x: Batch| #[trigger] old(self).queued().contains(x) implies weight(
                        x,
                    ) <= weight(item.batch) by {
                        batches(before).to_multiset_ensures();
                        assert(batches(before).contains(x));
                        let k = choose|k: int|
                            0 <= k < batches(before).len() && batches(before)[k] == x;
                        lemma_root_is_largest(before, k);
                        assert(before[k].size == weight(before[k].batch));
                        assert(before[0].size == weight(before[0].batch));
                    }
                    batches(before).to_multiset_ensures();
                    assert(batches(before).contains(batches(before)[0]));
                }
                self.heap = heap;
                Pop::Ready(item.batch)
            },
        }
    }
}

/// With nothing queued in between, batches come out largest first: each is at
/// most as large as the one before it.
pub proof fn pops_come_largest_first(
    m0: Multiset<Batch>,
    first: Batch,
    m1: Multiset<Batch>,
    second: Batch,
    m2: Multiset<Batch>,
)
    requires
        takes_largest(m0, first, m1),
        takes_largest(m1, second, m2),
    ensures
        weight(second) <= weight(first),
        m0 == m2.insert(first).insert(second),
{
    assert(m0.contains(second));
    assert(m0 =~= m2.insert(first).insert(second));
}

} // verus!
