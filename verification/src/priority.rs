//! A priority queue that serves the entry with the lowest cost first.
//!
//! The queue is a binary min-heap in a vector. An entry may be pushed any
//! number of times; the queue never looks inside a value.

use std::cmp::Ordering;
use vstd::multiset::Multiset;
use vstd::prelude::*;
use vstd::std_specs::cmp::{PartialEqSpec, PartialOrdSpec};

verus! {

/// `a` is strictly less than `b`.
pub open spec fn cost_lt<C: PartialOrd>(a: C, b: C) -> bool {
    a.partial_cmp_spec(&b) == Some(Ordering::Less)
}

/// What the three-way comparison of two costs gives.
pub open spec fn cost_order<C: PartialEq + PartialOrd>(a: C, b: C) -> Ordering {
    if a.eq_spec(&b) {
        Ordering::Equal
    } else if cost_lt(a, b) {
        Ordering::Less
    } else {
        Ordering::Greater
    }
}

/// The comparisons of `C` order its values as numbers are ordered: equal
/// costs are not less than one another, `<` is asymmetric, and "not less
/// than" is transitive. Integers meet this. Floating-point costs would but
/// for NaN, and nothing is known of their comparisons here: of a queue with
/// such costs only what does not rest on the order is promised.
pub open spec fn costs_are_ordered<C: PartialEq + PartialOrd>() -> bool {
    &&& C::obeys_eq_spec()
    &&& C::obeys_partial_cmp_spec()
    &&& forall|a: C, b: C| #[trigger] a.eq_spec(&b) ==> !cost_lt(a, b)
    &&& forall|a: C, b: C| #[trigger] cost_lt(a, b) ==> !cost_lt(b, a)
    &&& forall|a: C, b: C, c: C|
        !#[trigger] cost_lt(a, b) && !#[trigger] cost_lt(b, c) ==> !cost_lt(a, c)
}

/// Compares two costs. Where neither `a == b` nor `a < b` holds, as with a
/// NaN, `a` counts as the greater.
pub fn compare_cost<C: PartialEq + PartialOrd>(a: C, b: C) -> (r: Ordering)
    ensures
        C::obeys_eq_spec() && C::obeys_partial_cmp_spec() ==> r == cost_order(a, b),
{
    if a == b {
        Ordering::Equal
    } else if a < b {
        Ordering::Less
    } else {
        Ordering::Greater
    }
}

/// Whether `a` is served before `b`.
fn cheaper<C: PartialEq + PartialOrd + Copy>(a: C, b: C) -> (r: bool)
    ensures
        costs_are_ordered::<C>() ==> r == cost_lt(a, b),
{
    match compare_cost(a, b) {
        Ordering::Less => true,
        _ => false,
    }
}

/// One entry of the queue.
struct PriorityQueueNode<T, C> {
    cost: C,
    value: T,
}

/// The entries of a heap, slot by slot.
spec fn entry_seq<T, C>(heap: Seq<PriorityQueueNode<T, C>>) -> Seq<(T, C)> {
    Seq::new(heap.len(), |i: int| (heap[i].value, heap[i].cost))
}

/// The entries of a heap, without their order.
spec fn entries_of<T, C>(heap: Seq<PriorityQueueNode<T, C>>) -> Multiset<(T, C)> {
    entry_seq(heap).to_multiset()
}

/// A heap holds as many entries as it has slots, and an empty heap none.
proof fn lemma_entries_len<T, C>(heap: Seq<PriorityQueueNode<T, C>>)
    ensures
        entries_of(heap).len() == heap.len(),
        heap.len() == 0 ==> entries_of(heap) == Multiset::<(T, C)>::empty(),
{
    broadcast use vstd::multiset::group_multiset_axioms;

    entry_seq(heap).to_multiset_ensures();
}

/// The index of the parent of the heap slot `i`.
spec fn parent_of(i: int) -> int {
    (i - 1) / 2
}

/// The slot `i` does not hold a cheaper entry than its parent.
spec fn slot_ordered<T, C: PartialOrd>(heap: Seq<PriorityQueueNode<T, C>>, i: int) -> bool {
    !cost_lt(heap[i].cost, heap[parent_of(i)].cost)
}

/// No slot holds a cheaper entry than its parent.
spec fn heap_ordered<T, C: PartialOrd>(heap: Seq<PriorityQueueNode<T, C>>) -> bool {
    forall|i: int| 0 < i < heap.len() ==> #[trigger] slot_ordered(heap, i)
}

/// The heap is ordered but for the slot `k`, which may be cheaper than its
/// parent; the children of `k` are in order with the parent of `k`.
spec fn ordered_above<T, C: PartialOrd>(heap: Seq<PriorityQueueNode<T, C>>, k: int) -> bool {
    &&& forall|i: int| 0 < i < heap.len() && i != k ==> #[trigger] slot_ordered(heap, i)
    &&& forall|i: int|
        0 < i < heap.len() && #[trigger] parent_of(i) == k && k > 0 ==> !cost_lt(
            heap[i].cost,
            heap[parent_of(k)].cost,
        )
}

/// The heap is ordered but for the children of the slot `k`, which may be
/// cheaper than `k`; they are in order with the parent of `k`.
spec fn ordered_below<T, C: PartialOrd>(heap: Seq<PriorityQueueNode<T, C>>, k: int) -> bool {
    &&& forall|i: int|
        0 < i < heap.len() && parent_of(i) != k ==> #[trigger] slot_ordered(heap, i)
    &&& forall|i: int|
        0 < i < heap.len() && #[trigger] parent_of(i) == k && k > 0 ==> !cost_lt(
            heap[i].cost,
            heap[parent_of(k)].cost,
        )
}

/// In an ordered heap no entry is cheaper than the root.
proof fn lemma_root_is_cheapest<T, C: PartialEq + PartialOrd>(
    heap: Seq<PriorityQueueNode<T, C>>,
    i: int,
)
    requires
        costs_are_ordered::<C>(),
        heap_ordered(heap),
        0 <= i < heap.len(),
    ensures
        !cost_lt(heap[i].cost, heap[0].cost),
    decreases i,
{
    if i > 0 {
        lemma_root_is_cheapest(heap, parent_of(i));
        assert(slot_ordered(heap, i));
    }
}

/// Exchanging two slots keeps the entries.
proof fn lemma_swap_keeps_entries<T, C>(heap: Seq<PriorityQueueNode<T, C>>, i: int, j: int)
    requires
        0 <= i < heap.len(),
        0 <= j < heap.len(),
    ensures
        entries_of(heap.update(i, heap[j]).update(j, heap[i])) == entries_of(heap),
{
    broadcast use vstd::multiset::group_multiset_axioms;

    let m = entry_seq(heap);
    let swapped = heap.update(i, heap[j]).update(j, heap[i]);
    assert(entry_seq(swapped) =~= m.update(i, m[j]).update(j, m[i]));
    vstd::seq_lib::to_multiset_update(m, i, m[j]);
    vstd::seq_lib::to_multiset_update(m.update(i, m[j]), j, m[i]);
    m.to_multiset_ensures();
}

/// `<[T]>::swap`: exchanges the elements at `i` and `j` and leaves the
/// others where they are.
#[verifier::external_body]
fn swap_slots<T>(v: &mut Vec<T>, i: usize, j: usize)
    requires
        i < old(v).len(),
        j < old(v).len(),
    ensures
        final(v)@ == old(v)@.update(i as int, old(v)@[j as int]).update(
            j as int,
            old(v)@[i as int],
        ),
{
    v.swap(i, j);
}

/// Moves the entry at `start` towards the root until its parent is not
/// more expensive.
fn sift_up<T, C: PartialEq + PartialOrd + Copy>(
    heap: &mut Vec<PriorityQueueNode<T, C>>,
    start: usize,
)
    requires
        start < old(heap).len(),
        costs_are_ordered::<C>() ==> ordered_above(old(heap)@, start as int),
    ensures
        entries_of(final(heap)@) == entries_of(old(heap)@),
        costs_are_ordered::<C>() ==> heap_ordered(final(heap)@),
{
    let mut i = start;
    let mut settled = false;
    while i > 0 && !settled
        invariant
            i < heap.len(),
            entries_of(heap@) == entries_of(old(heap)@),
            costs_are_ordered::<C>() ==> ordered_above(heap@, i as int),
            costs_are_ordered::<C>() && settled ==> heap_ordered(heap@),
        decreases i + (if settled { 0int } else { 1int }),
    {
        let p = (i - 1) / 2;
        if cheaper(heap[i].cost, heap[p].cost) {
            let ghost before = heap@;
            swap_slots(heap, i, p);
            proof {
                lemma_swap_keeps_entries(before, i as int, p as int);
                if costs_are_ordered::<C>() {
                    let after = heap@;
                    assert forall|k: int| 0 < k < after.len() && k != p implies #[trigger] slot_ordered(
                        after,
                        k,
                    ) by {
                        if k == i {
                            // The two have changed places.
                        } else if parent_of(k) == i as int {
                            assert(!cost_lt(before[k].cost, before[parent_of(i as int)].cost));
                        } else {
                            assert(slot_ordered(before, k));
                        }
                    }
                    assert forall|k: int|
                        0 < k < after.len() && #[trigger] parent_of(k) == p && p > 0 implies !cost_lt(
                        after[k].cost,
                        after[parent_of(p as int)].cost,
                    ) by {
                        assert(slot_ordered(before, p as int));
                        if k != i {
                            assert(slot_ordered(before, k));
                        }
                    }
                }
            }
            i = p;
        } else {
            settled = true;
            proof {
                if costs_are_ordered::<C>() {
                    assert forall|k: int| 0 < k < heap@.len() implies #[trigger] slot_ordered(
                        heap@,
                        k,
                    ) by {}
                }
            }
        }
    }
}

/// Moves the entry at the root towards the leaves until neither child is
/// cheaper.
fn sift_down<T, C: PartialEq + PartialOrd + Copy>(heap: &mut Vec<PriorityQueueNode<T, C>>)
    requires
        costs_are_ordered::<C>() ==> ordered_below(old(heap)@, 0),
    ensures
        entries_of(final(heap)@) == entries_of(old(heap)@),
        costs_are_ordered::<C>() ==> heap_ordered(final(heap)@),
{
    let len = heap.len();
    let mut i: usize = 0;
    let mut settled = len < 2;
    while !settled
        invariant
            len == heap.len(),
            settled || (i < len && len >= 2),
            entries_of(heap@) == entries_of(old(heap)@),
            costs_are_ordered::<C>() && !settled ==> ordered_below(heap@, i as int),
            costs_are_ordered::<C>() && settled ==> heap_ordered(heap@),
        decreases len - i + (if settled { 0int } else { 1int }),
    {
        if i > (len - 2) / 2 {
            settled = true;
            proof {
                if costs_are_ordered::<C>() {
                    assert forall|k: int| 0 < k < heap@.len() implies #[trigger] slot_ordered(
                        heap@,
                        k,
                    ) by {}
                }
            }
        } else {
            let left = 2 * i + 1;
            let right = left + 1;
            let child = if right < len && cheaper(heap[right].cost, heap[left].cost) {
                right
            } else {
                left
            };
            if cheaper(heap[child].cost, heap[i].cost) {
                let ghost before = heap@;
                swap_slots(heap, i, child);
                proof {
                    lemma_swap_keeps_entries(before, i as int, child as int);
                    if costs_are_ordered::<C>() {
                        let after = heap@;
                        assert(parent_of(left as int) == i as int);
                        assert(parent_of(right as int) == i as int);
                        assert forall|k: int|
                            0 < k < after.len() && parent_of(k) != child as int implies #[trigger] slot_ordered(
                            after,
                            k,
                        ) by {
                            if k == child as int {
                                // The two have changed places.
                            } else if parent_of(k) == i as int {
                                assert(k == left as int || k == right as int);
                            } else if k == i as int {
                                assert(!cost_lt(
                                    before[child as int].cost,
                                    before[parent_of(i as int)].cost,
                                ));
                            } else {
                                assert(slot_ordered(before, k));
                            }
                        }
                        assert forall|k: int|
                            0 < k < after.len() && #[trigger] parent_of(k) == child as int implies !cost_lt(
                            after[k].cost,
                            after[parent_of(child as int)].cost,
                        ) by {
                            assert(slot_ordered(before, k));
                        }
                    }
                }
                i = child;
            } else {
                settled = true;
                proof {
                    if costs_are_ordered::<C>() {
                        assert forall|k: int| 0 < k < heap@.len() implies #[trigger] slot_ordered(
                            heap@,
                            k,
                        ) by {}
                    }
                }
            }
        }
    }
}

/// Puts `node` into an ordered heap.
fn heap_insert<T, C: PartialEq + PartialOrd + Copy>(
    heap: &mut Vec<PriorityQueueNode<T, C>>,
    node: PriorityQueueNode<T, C>,
)
    requires
        costs_are_ordered::<C>() ==> heap_ordered(old(heap)@),
    ensures
        entries_of(final(heap)@) == entries_of(old(heap)@).insert((node.value, node.cost)),
        costs_are_ordered::<C>() ==> heap_ordered(final(heap)@),
{
    let ghost before = heap@;
    let at = heap.len();
    heap.push(node);
    proof {
        assert(entry_seq(heap@) =~= entry_seq(before).push((node.value, node.cost)));
        vstd::seq_lib::to_multiset_build(entry_seq(before), (node.value, node.cost));
        if costs_are_ordered::<C>() {
            assert forall|i: int| 0 < i < heap@.len() && i != at implies #[trigger] slot_ordered(
                heap@,
                i,
            ) by {
                assert(slot_ordered(before, i));
            }
        }
    }
    sift_up(heap, at);
}

/// Takes the root out of a heap that is ordered and not empty.
fn heap_take_root<T, C: PartialEq + PartialOrd + Copy>(
    heap: &mut Vec<PriorityQueueNode<T, C>>,
) -> (node: PriorityQueueNode<T, C>)
    requires
        old(heap).len() > 0,
        costs_are_ordered::<C>() ==> heap_ordered(old(heap)@),
    ensures
        is_cheapest(entries_of(old(heap)@), (node.value, node.cost)),
        entries_of(final(heap)@) == entries_of(old(heap)@).remove((node.value, node.cost)),
        costs_are_ordered::<C>() ==> heap_ordered(final(heap)@),
{
    let ghost before = heap@;
    let last = heap.len() - 1;
    swap_slots(heap, 0, last);
    let ghost swapped = heap@;
    let node = heap.pop().unwrap();
    proof {
        lemma_swap_keeps_entries(before, 0, last as int);
        assert(entry_seq(heap@) =~= entry_seq(swapped).remove(last as int));
        vstd::seq_lib::to_multiset_remove(entry_seq(swapped), last as int);
        entry_seq(before).to_multiset_ensures();
        assert(entry_seq(before).contains((node.value, node.cost))) by {
            assert(entry_seq(before)[0] == (node.value, node.cost));
        }
        if costs_are_ordered::<C>() {
            assert forall|e: (T, C)| #[trigger] entries_of(before).contains(e) implies !cost_lt(
                e.1,
                node.cost,
            ) by {
                let i = choose|i: int| 0 <= i < before.len() && entry_seq(before)[i] == e;
                lemma_root_is_cheapest(before, i);
            }
            assert forall|i: int| 0 < i < heap@.len() && parent_of(i) != 0 implies #[trigger] slot_ordered(
                heap@,
                i,
            ) by {
                assert(slot_ordered(before, i));
            }
        }
    }
    sift_down(heap);
    node
}

/// `e` is an entry of `entries`, and none of them is cheaper, as far as the
/// costs are ordered at all.
pub open spec fn is_cheapest<T, C: PartialEq + PartialOrd>(
    entries: Multiset<(T, C)>,
    e: (T, C),
) -> bool {
    &&& entries.contains(e)
    &&& costs_are_ordered::<C>() ==> forall|x: (T, C)| #[trigger]
        entries.contains(x) ==> !cost_lt(x.1, e.1)
}

/// Priority queue that uses costs instead of priorities: `pop` hands out a
/// value with the smallest cost. The cost may be floating point, in which
/// case the queue pretends that NaNs do not exist; with a NaN among the costs
/// the order of the pops is not defined.
pub struct PriorityQueue<T, C> where T: PartialEq, C: PartialEq + PartialOrd + Copy {
    heap: Vec<PriorityQueueNode<T, C>>,
}

impl<T, C> View for PriorityQueue<T, C> where T: PartialEq, C: PartialEq + PartialOrd + Copy {
    type V = Multiset<(T, C)>;

    /// The entries of the queue, each a value with its cost.
    closed spec fn view(&self) -> Multiset<(T, C)> {
        entries_of(self.heap@)
    }
}

impl<T, C> PriorityQueue<T, C> where T: PartialEq, C: PartialEq + PartialOrd + Copy {
    #[verifier::type_invariant]
    spec fn ordered(self) -> bool {
        costs_are_ordered::<C>() ==> heap_ordered(self.heap@)
    }

    /// Moves the heap out of the queue, to be worked on and put back.
    fn take_heap(&mut self) -> (heap: Vec<PriorityQueueNode<T, C>>)
        ensures
            heap@ == old(self).heap@,
            final(self).heap@.len() == 0,
    {
        let mut heap = Vec::new();
        core::mem::swap(&mut self.heap, &mut heap);
        heap
    }

    /// An empty queue.
    pub fn new() -> (queue: Self)
        ensures
            queue@ == Multiset::<(T, C)>::empty(),
    {
        let queue = Self { heap: Vec::new() };
        proof {
            lemma_entries_len(queue.heap@);
        }
        queue
    }

    /// An empty queue with room for `capacity` entries.
    pub fn with_capacity(capacity: usize) -> (queue: Self)
        ensures
            queue@ == Multiset::<(T, C)>::empty(),
    {
        let queue = Self { heap: Vec::with_capacity(capacity) };
        proof {
            lemma_entries_len(queue.heap@);
        }
        queue
    }

    /// Whether the queue holds no entry.
    pub fn is_empty(&self) -> (empty: bool)
        ensures
            empty == (self@.len() == 0),
    {
        proof {
            lemma_entries_len(self.heap@);
        }
        self.heap.len() == 0
    }

    /// Adds `value` at `cost`, whether or not the queue holds `value`
    /// already.
    pub fn push(&mut self, value: T, cost: C)
        ensures
            final(self)@ == old(self)@.insert((value, cost)),
    {
        proof {
            use_type_invariant(&*self);
        }
        let mut heap = self.take_heap();
        heap_insert(&mut heap, PriorityQueueNode { cost, value });
        self.heap = heap;
    }

    /// Takes out a value with the smallest cost, or gives `None` if the
    /// queue is empty. Which of several entries with that cost leaves is
    /// not specified.
    pub fn pop(&mut self) -> (popped: Option<T>)
        ensures
            old(self)@.len() == 0 ==> popped.is_none() && final(self)@ == old(self)@,
            old(self)@.len() > 0 ==> popped.is_some() && exists|cost: C|
                {
                    &&& #[trigger] is_cheapest(old(self)@, (popped.unwrap(), cost))
                    &&& final(self)@ == old(self)@.remove((popped.unwrap(), cost))
                },
    {
        proof {
            use_type_invariant(&*self);
            lemma_entries_len(self.heap@);
        }
        if self.heap.len() == 0 {
            None
        } else {
            let mut heap = self.take_heap();
            let node = heap_take_root(&mut heap);
            self.heap = heap;
            let ghost cost = node.cost;
            let popped = Some(node.value);
            assert(is_cheapest(old(self)@, (popped.unwrap(), cost)));
            popped
        }
    }

    /// Empties the queue and keeps its capacity.
    pub fn clear(&mut self)
        ensures
            final(self)@ == Multiset::<(T, C)>::empty(),
    {
        let mut heap = self.take_heap();
        heap.clear();
        self.heap = heap;
        proof {
            lemma_entries_len(self.heap@);
        }
    }
}

/// `run` is what a queue that holds `entries` can hand out in successive
/// pops with no push in between.
pub open spec fn is_pop_run<T, C: PartialEq + PartialOrd>(
    entries: Multiset<(T, C)>,
    run: Seq<(T, C)>,
) -> bool
    decreases run.len(),
{
    run.len() > 0 ==> {
        &&& is_cheapest(entries, run[0])
        &&& is_pop_run(entries.remove(run[0]), run.drop_first())
    }
}

/// Whatever is popped in a run was in the queue when the run began.
proof fn lemma_pop_run_within<T, C: PartialEq + PartialOrd>(
    entries: Multiset<(T, C)>,
    run: Seq<(T, C)>,
    i: int,
)
    requires
        is_pop_run(entries, run),
        0 <= i < run.len(),
    ensures
        entries.contains(run[i]),
    decreases run.len(),
{
    broadcast use vstd::multiset::group_multiset_axioms;

    if i > 0 {
        lemma_pop_run_within(entries.remove(run[0]), run.drop_first(), i - 1);
    }
}

/// Successive pops come out in non-decreasing order of cost: of two values
/// popped in one run, the later is not cheaper than the earlier.
pub proof fn lemma_pops_never_decrease<T, C: PartialEq + PartialOrd>(
    entries: Multiset<(T, C)>,
    run: Seq<(T, C)>,
    i: int,
    j: int,
)
    requires
        costs_are_ordered::<C>(),
        is_pop_run(entries, run),
        0 <= i <= j < run.len(),
    ensures
        !cost_lt(run[j].1, run[i].1),
    decreases run.len(),
{
    if i == 0 {
        lemma_pop_run_within(entries, run, j);
    } else {
        lemma_pops_never_decrease(entries.remove(run[0]), run.drop_first(), i - 1, j - 1);
    }
}

} // verus!
