//! In-place insertion sort.

use crate::order::{
    ascending, ascending_below, at_most, comparable, follows, lemma_at_most_transitive,
    lemma_comparison, precedes, weak_order,
};
use crate::seqs::{lemma_swapped_keeps_elements, swapped};
use vstd::prelude::*;

verus! {

/// The entries of `s` up to and including `hi` are ascending once the entry at
/// `gap` is left out, and that entry precedes every later one up to `hi`: the state
/// of an insertion in progress.
pub open spec fn ascending_around<T: PartialOrd>(s: Seq<T>, gap: int, hi: int) -> bool {
    &&& forall|i: int, j: int|
        0 <= i < j <= hi && i != gap && j != gap ==> at_most(#[trigger] s[i], #[trigger] s[j])
    &&& forall|j: int| gap < j <= hi ==> precedes(s[gap], #[trigger] s[j])
}

/// `s` with `x` put in from the end: `x` goes past every entry that is strictly
/// greater and stops behind the first that is not.
pub open spec fn inserted<T: PartialOrd>(s: Seq<T>, x: T) -> Seq<T>
    decreases s.len(),
{
    if s.len() > 0 && follows(s.last(), x) {
        inserted(s.drop_last(), x).push(s.last())
    } else {
        s.push(x)
    }
}

/// The entries of `s`, put one after the other, from the first to the last, into
/// an order that starts empty. Entries that tie keep the order that they have in
/// `s`.
pub open spec fn insertion_sorted<T: PartialOrd>(s: Seq<T>) -> Seq<T>
    decreases s.len(),
{
    if s.len() == 0 {
        s
    } else {
        inserted(insertion_sorted(s.drop_last()), s.last())
    }
}

/// One exchange of an insertion: `x`, which stands at place `j` behind the first
/// `j` entries of the sorted `p`, goes past the entry before it.
proof fn lemma_insert_step<T: PartialOrd>(p: Seq<T>, x: T, j: int, before: Seq<T>)
    requires
        0 < j <= p.len(),
        p.len() < before.len(),
        before.take(p.len() as int + 1) == p.take(j).push(x) + p.skip(j),
        follows(p[j - 1], x),
        inserted(p, x) == inserted(p.take(j), x) + p.skip(j),
    ensures
        swapped(before, j - 1, j).take(p.len() as int + 1) == p.take(j - 1).push(x) + p.skip(j - 1),
        swapped(before, j - 1, j).skip(p.len() as int + 1) == before.skip(p.len() as int + 1),
        inserted(p, x) == inserted(p.take(j - 1), x) + p.skip(j - 1),
{
    let i = p.len() as int;
    let layout = p.take(j).push(x) + p.skip(j);
    let now = swapped(before, j - 1, j);
    assert forall|k: int| 0 <= k <= i implies before[k] == layout[k] by {
        assert(before.take(i + 1)[k] == before[k]);
    }
    assert(layout[j] == x);
    assert(layout[j - 1] == p[j - 1]);
    assert forall|k: int| 0 <= k <= i implies #[trigger] now.take(i + 1)[k] == (p.take(
        j - 1,
    ).push(x) + p.skip(j - 1))[k] by {
        if k > j {
            assert(before[k] == layout[k]);
            assert(layout[k] == p.skip(j)[k - j - 1]);
        } else if k < j - 1 {
            assert(before[k] == layout[k]);
        }
    }
    assert(now.take(i + 1) =~= p.take(j - 1).push(x) + p.skip(j - 1));
    assert(now.skip(i + 1) =~= before.skip(i + 1));
    assert(p.take(j).drop_last() =~= p.take(j - 1));
    assert(p.take(j).last() == p[j - 1]);
    assert(inserted(p.take(j), x) == inserted(p.take(j - 1), x).push(p[j - 1]));
    assert(inserted(p.take(j - 1), x).push(p[j - 1]) + p.skip(j) =~= inserted(p.take(j - 1), x)
        + p.skip(j - 1));
}

/// The end of an insertion: `x` stands behind an entry that is not greater, or
/// at the front.
proof fn lemma_insert_done<T: PartialOrd>(p: Seq<T>, x: T, j: int, now: Seq<T>)
    requires
        0 <= j <= p.len(),
        p.len() < now.len(),
        now.take(p.len() as int + 1) == p.take(j).push(x) + p.skip(j),
        j == 0 || !follows(p[j - 1], x),
        inserted(p, x) == inserted(p.take(j), x) + p.skip(j),
    ensures
        now.take(p.len() as int + 1) == inserted(p, x),
{
    if j > 0 {
        assert(p.take(j).last() == p[j - 1]);
    }
    assert(inserted(p.take(j), x) == p.take(j).push(x));
}

/// Sorts `array` in place by insertion: each entry in turn is exchanged with its
/// predecessor while that predecessor is strictly greater.
///
/// The result always holds the elements of the input. For a type whose operators
/// are specified it is `insertion_sorted` of the input, so entries that tie stay
/// in the order of the input, and an input that is ascending is left as it is.
/// For a strict weak order the result is ascending.
pub fn sort<T: PartialOrd>(array: &mut [T])
    ensures
        final(array)@.len() == old(array)@.len(),
        final(array)@.to_multiset() == old(array)@.to_multiset(),
        comparable::<T>() ==> final(array)@ == insertion_sorted(old(array)@),
        weak_order::<T>() ==> ascending(final(array)@),
        comparable::<T>() && ascending(old(array)@) ==> final(array)@ == old(array)@,
{
    let n = array.len();
    let mut i: usize = 1;
    proof {
        if n > 0 {
            let first = old(array)@.take(1);
            assert(first.drop_last() =~= Seq::<T>::empty());
            assert(insertion_sorted(first.drop_last()) =~= Seq::<T>::empty());
            assert(inserted(Seq::<T>::empty(), first.last()) =~= first);
            assert(insertion_sorted(first) == first);
        } else {
            assert(array@ =~= insertion_sorted(old(array)@));
        }
    }
    while i < n
        invariant
            1 <= i,
            n > 0 ==> i <= n,
            n == array@.len(),
            n == old(array)@.len(),
            array@.to_multiset() == old(array)@.to_multiset(),
            comparable::<T>() && n > 0 ==> array@.take(i as int) == insertion_sorted(
                old(array)@.take(i as int),
            ),
            n > 0 ==> array@.skip(i as int) == old(array)@.skip(i as int),
            weak_order::<T>() ==> ascending_below(array@, i as int),
            comparable::<T>() && ascending(old(array)@) ==> array@ == old(array)@,
        decreases n - i,
    {
        let mut j: usize = i;
        let ghost sorted = insertion_sorted(old(array)@.take(i as int));
        let ghost x = old(array)@[i as int];
        proof {
            assert(array@.skip(i as int)[0] == old(array)@.skip(i as int)[0]);
            assert(array@[i as int] == x);
            assert(array@.skip(i + 1) =~= array@.skip(i as int).skip(1));
            assert(old(array)@.skip(i + 1) =~= old(array)@.skip(i as int).skip(1));
            if comparable::<T>() {
                assert(sorted.take(i as int) =~= sorted);
                assert(sorted.skip(i as int) =~= Seq::<T>::empty());
                assert(array@.take(i + 1) =~= sorted.take(i as int).push(x) + sorted.skip(
                    i as int,
                ));
                assert(inserted(sorted.take(i as int), x) + sorted.skip(i as int) =~= inserted(
                    sorted,
                    x,
                ));
            }
        }
        while j > 0 && array[j - 1] > array[j]
            invariant
                j <= i < n,
                n == array@.len(),
                n == old(array)@.len(),
                comparable::<T>() ==> sorted.len() == i,
                array@.to_multiset() == old(array)@.to_multiset(),
                array@.skip(i + 1) == old(array)@.skip(i + 1),
                comparable::<T>() ==> array@.take(i + 1) == sorted.take(j as int).push(x)
                    + sorted.skip(j as int),
                comparable::<T>() ==> inserted(sorted, x) == inserted(sorted.take(j as int), x)
                    + sorted.skip(j as int),
                weak_order::<T>() ==> ascending_around(array@, j as int, i as int),
                comparable::<T>() && ascending(old(array)@) ==> array@ == old(array)@,
            decreases j,
        {
            let ghost before = array@;
            proof {
                lemma_swapped_keeps_elements(before, j - 1, j as int);
                if weak_order::<T>() {
                    lemma_comparison(before[j - 1], before[j as int]);
                }
                if comparable::<T>() && ascending(old(array)@) {
                    assert(at_most(before[j - 1], before[j as int]));
                    assert(follows(before[j - 1], before[j as int]));
                    assert(false);
                }
                if comparable::<T>() {
                    let layout = sorted.take(j as int).push(x) + sorted.skip(j as int);
                    assert(before.take(i + 1)[j - 1] == layout[j - 1]);
                    assert(before.take(i + 1)[j as int] == layout[j as int]);
                    lemma_insert_step(sorted, x, j as int, before);
                }
            }
            array.swap(j - 1, j);
            assert(array@ == swapped(before, j - 1, j as int));
            j -= 1;
        }
        proof {
            if comparable::<T>() {
                if j > 0 {
                    let layout = sorted.take(j as int).push(x) + sorted.skip(j as int);
                    assert(array@.take(i + 1)[j - 1] == layout[j - 1]);
                    assert(array@.take(i + 1)[j as int] == layout[j as int]);
                }
                lemma_insert_done(sorted, x, j as int, array@);
                assert(old(array)@.take(i + 1).drop_last() =~= old(array)@.take(i as int));
                assert(old(array)@.take(i + 1).last() == x);
            }
            if weak_order::<T>() {
                let s = array@;
                if j > 0 {
                    lemma_comparison(s[j - 1], s[j as int]);
                }
                assert forall|a: int, b: int| 0 <= a < b < i + 1 implies at_most(
                    #[trigger] s[a],
                    #[trigger] s[b],
                ) by {
                    if a == j {
                        lemma_comparison(s[a], s[b]);
                    } else if b == j {
                        if a < j - 1 {
                            lemma_at_most_transitive(s[a], s[j - 1], s[j as int]);
                        }
                    }
                }
            }
        }
        i += 1;
    }
    proof {
        if n > 0 {
            assert(array@.take(i as int) =~= array@);
            assert(old(array)@.take(i as int) =~= old(array)@);
        }
    }
}

} // verus!
