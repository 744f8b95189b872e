//! A binary heap in a vector, which gives out its elements in the order of their
//! priority: the smallest first as a min-heap, the greatest first as a max-heap.
//!
//! The elements stand at the places `1` to `len()` of the vector; the element at
//! place `i` has its parent at place `i / 2`. Place `0` holds a default value
//! that never leaves and is never compared.

use crate::order::{
    ascending, at_most, comparable, follows, lemma_not_precedes_transitive,
    lemma_precedes_transitive, lemma_comparison, precedes, weak_order,
};
use crate::seqs::{lemma_swapped_keeps_elements, swapped};
use vstd::multiset::Multiset;
use vstd::prelude::*;

verus! {

/// Which elements leave a heap first.
#[derive(Clone, Copy, Debug)]
pub enum Priority {
    /// The smallest element leaves first.
    Min,
    /// The greatest element leaves first.
    Max,
}

impl Priority {
    /// `a` has to stand above `b` in the heap: it is smaller for `Min`, greater
    /// for `Max`.
    pub open spec fn tighter<T: PartialOrd>(self, a: T, b: T) -> bool {
        match self {
            Priority::Min => precedes(a, b),
            Priority::Max => follows(a, b),
        }
    }

    /// Whether `a` has to stand above `b`.
    pub fn is_tighter<T: PartialOrd>(self, a: &T, b: &T) -> (above: bool)
        ensures
            comparable::<T>() ==> above == self.tighter(*a, *b),
    {
        match self {
            Priority::Min => *a < *b,
            Priority::Max => *a > *b,
        }
    }
}

/// For a strict weak order, `tighter` is irreflexive, asymmetric and transitive, and so
/// is its complement.
pub proof fn lemma_tighter_is_strict<T: PartialOrd>(p: Priority, a: T, b: T, c: T)
    requires
        weak_order::<T>(),
    ensures
        !p.tighter(a, a),
        p.tighter(a, b) ==> !p.tighter(b, a),
        p.tighter(a, b) && p.tighter(b, c) ==> p.tighter(a, c),
        !p.tighter(a, b) && !p.tighter(b, c) ==> !p.tighter(a, c),
{
    lemma_comparison(a, a);
    lemma_comparison(a, b);
    lemma_comparison(b, a);
    lemma_comparison(b, c);
    lemma_comparison(c, b);
    lemma_comparison(a, c);
    lemma_comparison(c, a);
    if precedes(a, b) && precedes(b, c) {
        lemma_precedes_transitive(a, b, c);
    }
    if precedes(c, b) && precedes(b, a) {
        lemma_precedes_transitive(c, b, a);
    }
    if !precedes(a, b) && !precedes(b, c) {
        lemma_not_precedes_transitive(a, b, c);
    }
    if !precedes(c, b) && !precedes(b, a) {
        lemma_not_precedes_transitive(c, b, a);
    }
}

/// `x` can leave `m` first: it is an element of `m`, and no element of `m` has
/// to stand above it.
pub open spec fn is_next<T: PartialOrd>(p: Priority, m: Multiset<T>, x: T) -> bool {
    &&& m.contains(x)
    &&& forall|y: T| #[trigger] m.contains(y) ==> !p.tighter(y, x)
}

/// `out` can leave `m` in this order: each element of `out` can leave first what
/// its predecessors have left of `m`.
pub open spec fn drained<T: PartialOrd>(p: Priority, m: Multiset<T>, out: Seq<T>) -> bool
    decreases out.len(),
{
    if out.len() == 0 {
        true
    } else {
        is_next(p, m, out[0]) && drained(p, m.remove(out[0]), out.drop_first())
    }
}

/// What leaves a heap is an element of it.
pub proof fn lemma_drained_from<T: PartialOrd>(p: Priority, m: Multiset<T>, out: Seq<T>, i: int)
    requires
        drained(p, m, out),
        0 <= i < out.len(),
    ensures
        m.contains(out[i]),
    decreases out.len(),
{
    if i > 0 {
        lemma_drained_from(p, m.remove(out[0]), out.drop_first(), i - 1);
        assert(out.drop_first()[i - 1] == out[i]);
    }
}

/// Elements leave a heap in the order of their priority: none that leaves later
/// had to stand above one that left earlier.
pub proof fn lemma_drained_in_order<T: PartialOrd>(
    p: Priority,
    m: Multiset<T>,
    out: Seq<T>,
    i: int,
    j: int,
)
    requires
        drained(p, m, out),
        0 <= i < j < out.len(),
    ensures
        !p.tighter(out[j], out[i]),
    decreases out.len(),
{
    if i == 0 {
        lemma_drained_from(p, m, out, j);
    } else {
        lemma_drained_in_order(p, m.remove(out[0]), out.drop_first(), i - 1, j - 1);
        assert(out.drop_first()[i - 1] == out[i]);
        assert(out.drop_first()[j - 1] == out[j]);
    }
}

/// Out of a min-heap, for a strict weak order, the elements come in
/// non-decreasing order.
pub proof fn lemma_min_heap_ascending<T: PartialOrd>(m: Multiset<T>, out: Seq<T>)
    requires
        weak_order::<T>(),
        drained(Priority::Min, m, out),
    ensures
        ascending(out),
{
    assert forall|i: int, j: int| 0 <= i < j < out.len() implies at_most(
        #[trigger] out[i],
        #[trigger] out[j],
    ) by {
        lemma_drained_in_order(Priority::Min, m, out, i, j);
        lemma_comparison(out[i], out[j]);
    }
}

/// Out of a max-heap, for a strict weak order, the elements come in
/// non-increasing order.
pub proof fn lemma_max_heap_descending<T: PartialOrd>(m: Multiset<T>, out: Seq<T>)
    requires
        weak_order::<T>(),
        drained(Priority::Max, m, out),
    ensures
        forall|i: int, j: int|
            0 <= i < j < out.len() ==> at_most(#[trigger] out[j], #[trigger] out[i]),
{
    assert forall|i: int, j: int| 0 <= i < j < out.len() implies at_most(
        #[trigger] out[j],
        #[trigger] out[i],
    ) by {
        lemma_drained_in_order(Priority::Max, m, out, i, j);
        lemma_comparison(out[j], out[i]);
        lemma_comparison(out[i], out[j]);
    }
}

/// The element at place `i` need not stand above its parent.
spec fn parent_ok<T: PartialOrd>(s: Seq<T>, p: Priority, i: int) -> bool {
    !p.tighter(s[i], s[i / 2])
}

/// The element at place `i` need not stand above the parent of its parent.
spec fn grand_ok<T: PartialOrd>(s: Seq<T>, p: Priority, i: int) -> bool {
    !p.tighter(s[i], s[(i / 2) / 2])
}

/// The heap property: no element has to stand above its parent.
spec fn heap_ordered<T: PartialOrd>(s: Seq<T>, p: Priority) -> bool {
    forall|i: int| 2 <= i < s.len() ==> #[trigger] parent_ok(s, p, i)
}

/// The heap property but for the element at place `c`, which is on its way up:
/// it may have to stand above its parent, and its children need not stand above
/// that parent.
spec fn ordered_but_up<T: PartialOrd>(s: Seq<T>, p: Priority, c: int) -> bool {
    &&& forall|i: int| 2 <= i < s.len() && i != c ==> #[trigger] parent_ok(s, p, i)
    &&& forall|i: int| 2 <= i < s.len() && i / 2 == c && c >= 2 ==> #[trigger] grand_ok(s, p, i)
}

/// The heap property but for the element at place `c`, which is on its way down:
/// its children may have to stand above it, and they need not stand above its
/// parent.
spec fn ordered_but_down<T: PartialOrd>(s: Seq<T>, p: Priority, c: int) -> bool {
    &&& forall|i: int| 2 <= i < s.len() && i / 2 != c ==> #[trigger] parent_ok(s, p, i)
    &&& forall|i: int| 2 <= i < s.len() && i / 2 == c && c >= 2 ==> #[trigger] grand_ok(s, p, i)
}

/// The child of place `c` that goes up if one does: the left child if there is no
/// right one or if it has to stand above the right one, and else the right child.
spec fn chosen_child<T: PartialOrd>(s: Seq<T>, p: Priority, c: int) -> int {
    if 2 * c + 1 >= s.len() || p.tighter(s[2 * c], s[2 * c + 1]) {
        2 * c
    } else {
        2 * c + 1
    }
}

/// The elements of the heap that is kept in `s`: all but the entry at place `0`.
spec fn live<T>(s: Seq<T>) -> Multiset<T> {
    s.skip(1).to_multiset()
}

/// Exchanging an element that has to stand above its parent with that parent
/// moves the one place that is out of order up.
proof fn lemma_sift_up_step<T: PartialOrd>(s: Seq<T>, p: Priority, c: int)
    requires
        weak_order::<T>(),
        ordered_but_up(s, p, c),
        2 <= c < s.len(),
        p.tighter(s[c], s[c / 2]),
    ensures
        ordered_but_up(swapped(s, c, c / 2), p, c / 2),
{
    let q = c / 2;
    let t = swapped(s, c, q);
    assert forall|i: int| 2 <= i < t.len() && i != q implies #[trigger] parent_ok(t, p, i) by {
        if i == c {
            lemma_tighter_is_strict(p, s[c], s[q], s[q]);
        } else if i / 2 == c {
            assert(grand_ok(s, p, i));
        } else if i / 2 == q {
            assert(parent_ok(s, p, i));
            lemma_tighter_is_strict(p, s[i], s[c], s[q]);
        } else {
            assert(parent_ok(s, p, i));
        }
    }
    assert forall|i: int| 2 <= i < t.len() && i / 2 == q && q >= 2 implies #[trigger] grand_ok(
        t,
        p,
        i,
    ) by {
        assert(parent_ok(s, p, q));
        if i != c {
            assert(parent_ok(s, p, i));
            lemma_tighter_is_strict(p, s[i], s[q], s[q / 2]);
        }
    }
}

/// Exchanging an element with the chosen one of its children, which has to
/// stand above it, moves the one place that is out of order down.
proof fn lemma_sift_down_step<T: PartialOrd>(s: Seq<T>, p: Priority, c: int)
    requires
        weak_order::<T>(),
        ordered_but_down(s, p, c),
        1 <= c,
        2 * c < s.len(),
        p.tighter(s[chosen_child(s, p, c)], s[c]),
    ensures
        ordered_but_down(swapped(s, c, chosen_child(s, p, c)), p, chosen_child(s, p, c)),
{
    let d = chosen_child(s, p, c);
    let t = swapped(s, c, d);
    assert forall|i: int| 2 <= i < t.len() && i / 2 != d implies #[trigger] parent_ok(t, p, i) by {
        if i == d {
            lemma_tighter_is_strict(p, s[d], s[c], s[c]);
        } else if i / 2 == c {
            lemma_tighter_is_strict(p, s[2 * c], s[2 * c + 1], s[c]);
        } else if i == c {
            assert(grand_ok(s, p, d));
        } else {
            assert(parent_ok(s, p, i));
        }
    }
    assert forall|i: int| 2 <= i < t.len() && i / 2 == d && d >= 2 implies #[trigger] grand_ok(
        t,
        p,
        i,
    ) by {
        assert(parent_ok(s, p, i));
    }
}

/// An element that is on its way down has arrived when the chosen one of its
/// children need not stand above it, or when it has no child.
proof fn lemma_sift_down_done<T: PartialOrd>(s: Seq<T>, p: Priority, c: int)
    requires
        weak_order::<T>(),
        ordered_but_down(s, p, c),
        1 <= c,
        2 * c >= s.len() || !p.tighter(s[chosen_child(s, p, c)], s[c]),
    ensures
        heap_ordered(s, p),
{
    assert forall|i: int| 2 <= i < s.len() implies #[trigger] parent_ok(s, p, i) by {
        if i / 2 == c {
            lemma_tighter_is_strict(p, s[2 * c], s[2 * c + 1], s[c]);
        }
    }
}

/// In a heap no element has to stand above the root.
proof fn lemma_root_is_tightest<T: PartialOrd>(s: Seq<T>, p: Priority, i: int)
    requires
        weak_order::<T>(),
        heap_ordered(s, p),
        1 <= i < s.len(),
    ensures
        !p.tighter(s[i], s[1]),
    decreases i,
{
    if i == 1 {
        lemma_tighter_is_strict(p, s[1], s[1], s[1]);
    } else {
        assert(parent_ok(s, p, i));
        lemma_root_is_tightest(s, p, i / 2);
        lemma_tighter_is_strict(p, s[i], s[i / 2], s[1]);
    }
}

/// Exchanging two elements of a heap keeps its elements.
proof fn lemma_swapped_live<T>(s: Seq<T>, i: int, j: int)
    requires
        1 <= i < s.len(),
        1 <= j < s.len(),
    ensures
        live(swapped(s, i, j)) == live(s),
{
    lemma_swapped_keeps_elements(s.skip(1), i - 1, j - 1);
    assert(swapped(s, i, j).skip(1) =~= swapped(s.skip(1), i - 1, j - 1));
}

/// A binary heap of the priority that it was made with.
pub struct Heap<T> where T: Default {
    count: usize,
    items: Vec<T>,
    comparator: Priority,
}

impl<T> Heap<T> where T: Default + PartialOrd {
    /// The elements of the heap, each as often as it was added and has not left.
    pub closed spec fn view(&self) -> Multiset<T> {
        live(self.items@)
    }

    /// The priority that the heap was made with.
    pub closed spec fn priority(&self) -> Priority {
        self.comparator
    }

    /// The elements fill the places from `1` on, and for a strict weak order
    /// none of them has to stand above its parent.
    pub closed spec fn well_formed(&self) -> bool {
        &&& self.items@.len() == self.count + 1
        &&& weak_order::<T>() ==> heap_ordered(self.items@, self.comparator)
    }

    /// An empty heap from which elements leave as `comparator` says.
    pub fn new(comparator: Priority) -> (heap: Self)
        ensures
            heap.well_formed(),
            heap@ == Multiset::<T>::empty(),
            heap.priority() == comparator,
    {
        let mut items = Vec::new();
        items.push(T::default());
        let heap = Self { count: 0, items, comparator };
        proof {
            broadcast use vstd::seq_lib::group_to_multiset_ensures;

            assert(heap.items@.skip(1) =~= Seq::<T>::empty());
            assert(heap@.len() == 0);
            assert(heap@ =~= Multiset::<T>::empty());
        }
        heap
    }

    /// The number of elements.
    pub fn len(&self) -> (n: usize)
        requires
            self.well_formed(),
        ensures
            n == self@.len(),
    {
        proof {
            broadcast use vstd::seq_lib::group_to_multiset_ensures;

        }
        self.count
    }

    /// Whether the heap has no element.
    pub fn is_empty(&self) -> (empty: bool)
        requires
            self.well_formed(),
        ensures
            empty == (self@.len() == 0),
    {
        self.len() == 0
    }

    /// Adds `value`: it goes to the next free place and then up, place by place,
    /// as long as it has to stand above its parent.
    pub fn add(&mut self, value: T)
        requires
            old(self).well_formed(),
        ensures
            final(self).well_formed(),
            final(self)@ == old(self)@.insert(value),
            final(self)@.len() == old(self)@.len() + 1,
            final(self).priority() == old(self).priority(),
    {
        proof {
            broadcast use vstd::seq_lib::group_to_multiset_ensures;

            assert(old(self).items@.push(value).skip(1) =~= old(self).items@.skip(1).push(value));
            assert(self.count + 1 == self.items.len());
        }
        self.count += 1;
        self.items.push(value);
        let mut current_idx = self.count;
        proof {
            if weak_order::<T>() {
                assert forall|i: int|
                    2 <= i < self.items@.len() && i != current_idx implies #[trigger] parent_ok(
                    self.items@,
                    self.comparator,
                    i,
                ) by {
                    assert(parent_ok(old(self).items@, self.comparator, i));
                }
            }
        }
        while current_idx > 1
            invariant_except_break
                weak_order::<T>() ==> ordered_but_up(
                    self.items@,
                    self.comparator,
                    current_idx as int,
                ),
            invariant
                self.items@.len() == self.count + 1,
                1 <= current_idx <= self.count,
                self.comparator == old(self).comparator,
                live(self.items@) == live(old(self).items@).insert(value),
            ensures
                weak_order::<T>() ==> heap_ordered(self.items@, self.comparator),
            decreases current_idx,
        {
            let parent_idx = self.parent_idx(current_idx);
            if self.comparator.is_tighter(&self.items[current_idx], &self.items[parent_idx]) {
                proof {
                    lemma_swapped_live(self.items@, current_idx as int, parent_idx as int);
                    if weak_order::<T>() {
                        lemma_sift_up_step(self.items@, self.comparator, current_idx as int);
                    }
                }
                self.items.swap(current_idx, parent_idx);
                current_idx = parent_idx;
            } else {
                break ;
            }
        }
    }

    /// The place of the parent of place `idx`.
    fn parent_idx(&self, idx: usize) -> (parent: usize)
        ensures
            parent == idx / 2,
    {
        idx / 2
    }

    /// Whether place `idx` has a child: whether the place of its left child,
    /// twice `idx`, is a place of the heap.
    fn children_present(&self, idx: usize) -> (present: bool)
        ensures
            present == (2 * idx <= self.count),
    {
        idx <= self.count / 2
    }

    /// The place of the left child of place `idx`.
    fn left_child_idx(&self, idx: usize) -> (left: usize)
        requires
            2 * idx <= usize::MAX,
        ensures
            left == 2 * idx,
    {
        idx * 2
    }

    /// The place of the right child of place `idx`.
    fn right_child_idx(&self, idx: usize) -> (right: usize)
        requires
            2 * idx + 1 <= usize::MAX,
        ensures
            right == 2 * idx + 1,
    {
        self.left_child_idx(idx) + 1
    }

    /// The place of the child of `idx` that goes up if one does: the only child,
    /// or of two the one that has to stand above the other, or the right one if
    /// neither has to.
    fn smallest_child_idx(&self, idx: usize) -> (child: usize)
        requires
            self.items@.len() == self.count + 1,
            1 <= idx,
            2 * idx <= self.count,
        ensures
            child == 2 * idx || child == 2 * idx + 1,
            child <= self.count,
            comparable::<T>() ==> child == chosen_child(self.items@, self.comparator, idx as int),
    {
        let left_idx = self.left_child_idx(idx);
        let right_idx = self.right_child_idx(idx);
        if right_idx > self.count {
            left_idx
        } else {
            if self.comparator.is_tighter(&self.items[left_idx], &self.items[right_idx]) {
                left_idx
            } else {
                right_idx
            }
        }
    }

    /// Takes out the element that leaves first, if the heap has one: the root.
    /// The last element takes its place and then goes down, place by place, as
    /// long as the chosen one of its children has to stand above it. An empty
    /// heap gives none and stays as it is.
    pub fn next(&mut self) -> (item: Option<T>)
        requires
            old(self).well_formed(),
        ensures
            final(self).well_formed(),
            final(self).priority() == old(self).priority(),
            old(self)@.len() == 0 ==> item is None && final(self)@ == old(self)@,
            old(self)@.len() > 0 ==> item is Some && old(self)@.contains(item->0) && final(self)@
                == old(self)@.remove(item->0),
            weak_order::<T>() && old(self)@.len() > 0 ==> is_next(
                old(self).priority(),
                old(self)@,
                item->0,
            ),
    {
        if self.is_empty() {
            return None;
        }
        let ghost before = self.items@;
        let ghost last = self.count as int;
        proof {
            broadcast use vstd::seq_lib::group_to_multiset_ensures;

            lemma_swapped_live(before, 1, last);
            let turned = swapped(before, 1, last);
            assert(turned.drop_last().skip(1) =~= turned.skip(1).remove(last - 1));
            assert(turned.skip(1)[last - 1] == before[1]);
            if weak_order::<T>() {
                assert forall|y: T| #[trigger] live(before).contains(y) implies !self.comparator.tighter(
                    y,
                    before[1],
                ) by {
                    let k = choose|k: int| 0 <= k < before.skip(1).len() && before.skip(1)[k] == y;
                    lemma_root_is_tightest(before, self.comparator, k + 1);
                }
                assert forall|i: int| 2 <= i < last && i / 2 != 1 implies #[trigger] parent_ok(
                    turned.drop_last(),
                    self.comparator,
                    i,
                ) by {
                    assert(parent_ok(before, self.comparator, i));
                }
            }
        }
        self.items.swap(1, self.count);
        self.count -= 1;
        let extracted_value = self.items.pop().unwrap_or_default();
        let mut current_idx: usize = 1;
        while self.children_present(current_idx)
            invariant_except_break
                weak_order::<T>() ==> ordered_but_down(
                    self.items@,
                    self.comparator,
                    current_idx as int,
                ),
            invariant
                self.items@.len() == self.count + 1,
                1 <= current_idx,
                self.comparator == old(self).comparator,
                live(self.items@) == live(old(self).items@).remove(extracted_value),
            ensures
                weak_order::<T>() ==> heap_ordered(self.items@, self.comparator),
            decreases self.count - current_idx,
        {
            let target_child_idx = self.smallest_child_idx(current_idx);
            if self.comparator.is_tighter(&self.items[target_child_idx], &self.items[current_idx]) {
                proof {
                    lemma_swapped_live(self.items@, current_idx as int, target_child_idx as int);
                    if weak_order::<T>() {
                        lemma_sift_down_step(self.items@, self.comparator, current_idx as int);
                    }
                }
                self.items.swap(current_idx, target_child_idx);
                current_idx = target_child_idx;
            } else {
                proof {
                    if weak_order::<T>() {
                        lemma_sift_down_done(self.items@, self.comparator, current_idx as int);
                    }
                }
                break ;
            }
        }
        Some(extracted_value)
    }
}

impl<T> Heap<T> where T: Default + Ord {
    /// An empty min-heap.
    pub fn new_min() -> (heap: Self)
        ensures
            heap.well_formed(),
            heap@ == Multiset::<T>::empty(),
            heap.priority() == Priority::Min,
    {
        Self::new(Priority::Min)
    }

    /// An empty max-heap.
    pub fn new_max() -> (heap: Self)
        ensures
            heap.well_formed(),
            heap@ == Multiset::<T>::empty(),
            heap.priority() == Priority::Max,
    {
        Self::new(Priority::Max)
    }
}

/// The maker of min-heaps.
pub struct MinHeap;

impl MinHeap {
    /// An empty heap from which the smallest element leaves first.
    pub fn new<T>() -> (heap: Heap<T>) where T: Default + Ord
        ensures
            heap.well_formed(),
            heap@ == Multiset::<T>::empty(),
            heap.priority() == Priority::Min,
    {
        Heap::new(Priority::Min)
    }
}

/// The maker of max-heaps.
pub struct MaxHeap;

impl MaxHeap {
    /// An empty heap from which the greatest element leaves first.
    pub fn new<T>() -> (heap: Heap<T>) where T: Default + Ord
        ensures
            heap.well_formed(),
            heap@ == Multiset::<T>::empty(),
            heap.priority() == Priority::Max,
    {
        Heap::new(Priority::Max)
    }
}

} // verus!
