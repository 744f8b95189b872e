//! A singly linked list that grows at its end, and the merge of two sorted lists.
//!
//! The nodes of a list live in an arena, a vector that the list owns, and a link
//! is the index of a node in it. The list knows its first and its last node, so
//! appending takes constant time. Merging moves the nodes of both lists into one
//! arena and relinks them; no value is copied or compared twice.

use crate::order::{
    ascending, at_most, comparable, lemma_at_most_transitive, lemma_comparison, weak_order,
};
use vstd::multiset::Multiset;
use vstd::prelude::*;

verus! {

/// A node: a value and the link to the node after it.
pub struct Node<T> {
    /// The value.
    pub val: T,
    /// The place in the arena of the node after this one.
    pub next: Option<usize>,
}

impl<T> Node<T> {
    /// A node that holds `t` and links to none.
    pub fn new(t: T) -> (node: Node<T>)
        ensures
            node.val == t,
            node.next is None,
    {
        Node { val: t, next: None }
    }
}

/// A list of values in the order in which its links visit them.
pub struct LinkedList<T> {
    /// The number of nodes.
    pub length: u32,
    /// The arena that holds the nodes.
    pub nodes: Vec<Node<T>>,
    /// The place of the first node.
    pub start: Option<usize>,
    /// The place of the last node.
    pub end: Option<usize>,
    /// The places of the nodes in the order of the links, from first to last.
    pub chain: Ghost<Seq<usize>>,
}

/// The node `chain[i]` links to `chain[i + 1]`, and the last node of the chain to
/// none.
spec fn linked<T>(nodes: Seq<Node<T>>, chain: Seq<usize>, i: int) -> bool {
    nodes[chain[i] as int].next == if i + 1 < chain.len() {
        Some(chain[i + 1])
    } else {
        None
    }
}

/// The node `chain[i]` links to `chain[i + 1]`.
spec fn joined<T>(nodes: Seq<Node<T>>, chain: Seq<usize>, i: int) -> bool {
    nodes[chain[i] as int].next == Some(chain[i + 1])
}

/// Every entry of `chain` is a node of the arena below `bound` and at or above `base`.
spec fn within(chain: Seq<usize>, base: int, bound: int) -> bool {
    forall|i: int| 0 <= i < chain.len() ==> base <= #[trigger] chain[i] < bound
}

/// No node occurs twice in `chain`.
spec fn distinct(chain: Seq<usize>) -> bool {
    forall|i: int, j: int| 0 <= i < j < chain.len() ==> #[trigger] chain[i] != #[trigger] chain[j]
}

/// From position `from` on, the links follow `chain` to its end.
spec fn linked_from<T>(nodes: Seq<Node<T>>, chain: Seq<usize>, from: int) -> bool {
    forall|i: int| from <= i < chain.len() ==> #[trigger] linked(nodes, chain, i)
}

/// Every link leads to a node of the arena.
spec fn links_inside<T>(nodes: Seq<Node<T>>) -> bool {
    forall|i: int|
        0 <= i < nodes.len() ==> (#[trigger] nodes[i].next matches Some(n) ==> n < nodes.len())
}

/// The first node of `chain`.
spec fn head_of(chain: Seq<usize>) -> Option<usize> {
    cursor(chain, 0)
}

/// The last node of `chain`.
spec fn tail_of(chain: Seq<usize>) -> Option<usize> {
    if chain.len() > 0 {
        Some(chain.last())
    } else {
        None
    }
}

/// The node at position `at` of `chain`, or none behind its end.
spec fn cursor(chain: Seq<usize>, at: int) -> Option<usize> {
    if 0 <= at < chain.len() {
        Some(chain[at])
    } else {
        None
    }
}

/// The values of the nodes of `chain`, in its order.
spec fn values<T>(nodes: Seq<Node<T>>, chain: Seq<usize>) -> Seq<T> {
    Seq::new(chain.len(), |i: int| nodes[chain[i] as int].val)
}

/// The nodes before position `upto - 1` of `chain` each link to the next one.
spec fn joined_below<T>(nodes: Seq<Node<T>>, chain: Seq<usize>) -> bool {
    forall|i: int| 0 <= i < chain.len() - 1 ==> #[trigger] joined(nodes, chain, i)
}

/// No node of `done` occurs in `chain` at position `from` or later.
spec fn apart(done: Seq<usize>, chain: Seq<usize>, from: int) -> bool {
    forall|i: int, k: int|
        0 <= i < done.len() && from <= k < chain.len() ==> #[trigger] done[i] != #[trigger] chain[k]
}

/// `now` is `prev` with the link of the node at `t` set anew.
spec fn relinked<T>(prev: Seq<Node<T>>, now: Seq<Node<T>>, t: int) -> bool {
    &&& now.len() == prev.len()
    &&& 0 <= t < prev.len()
    &&& now[t].val == prev[t].val
    &&& forall|k: int| 0 <= k < prev.len() && k != t ==> #[trigger] now[k] == prev[k]
}

/// The link `link` once `offset` places were put in front of the arena.
spec fn shifted(link: Option<usize>, offset: usize) -> Option<usize> {
    match link {
        Some(i) => Some((i + offset) as usize),
        None => None,
    }
}

/// The chain `chain` once `offset` places were put in front of the arena.
spec fn shifted_chain(chain: Seq<usize>, offset: usize) -> Seq<usize> {
    Seq::new(chain.len(), |i: int| (chain[i] + offset) as usize)
}

/// What one obtains by taking, again and again, the first value of `a` if it is
/// at most the first value of `b`, and else the first value of `b`, until one of
/// the two is used up, and then the rest of the other. On a tie the value of `a`
/// goes first.
pub open spec fn merged<T: PartialOrd>(a: Seq<T>, b: Seq<T>) -> Seq<T>
    decreases a.len() + b.len(),
{
    if a.len() == 0 {
        b
    } else if b.len() == 0 {
        a
    } else if at_most(a[0], b[0]) {
        seq![a[0]] + merged(a.drop_first(), b)
    } else {
        seq![b[0]] + merged(a, b.drop_first())
    }
}

/// Setting the link of one node anew changes no value.
proof fn lemma_relinked_values<T>(
    prev: Seq<Node<T>>,
    now: Seq<Node<T>>,
    t: int,
    chain: Seq<usize>,
)
    requires
        relinked(prev, now, t),
        within(chain, 0, prev.len() as int),
    ensures
        values(now, chain) == values(prev, chain),
{
    assert forall|i: int| 0 <= i < chain.len() implies now[chain[i] as int].val
        == prev[chain[i] as int].val by {
        if chain[i] != t {
            assert(now[chain[i] as int] == prev[chain[i] as int]);
        }
    }
    assert(values(now, chain) =~= values(prev, chain));
}

/// Setting the link of one node anew leaves the links of a chain without that
/// node as they were.
proof fn lemma_relinked_elsewhere<T>(
    prev: Seq<Node<T>>,
    now: Seq<Node<T>>,
    t: int,
    chain: Seq<usize>,
    from: int,
)
    requires
        relinked(prev, now, t),
        within(chain, 0, prev.len() as int),
        0 <= from,
        linked_from(prev, chain, from),
        forall|k: int| from <= k < chain.len() ==> #[trigger] chain[k] != t,
    ensures
        linked_from(now, chain, from),
{
    assert forall|i: int| from <= i < chain.len() implies #[trigger] linked(now, chain, i) by {
        assert(linked(prev, chain, i));
        assert(chain[i] != t);
        assert(now[chain[i] as int] == prev[chain[i] as int]);
    }
}

/// Linking the last node of `done` to a new node `x` extends the chain by `x`.
proof fn lemma_extend_done<T>(
    prev: Seq<Node<T>>,
    now: Seq<Node<T>>,
    done: Seq<usize>,
    x: usize,
)
    requires
        within(done, 0, prev.len() as int),
        distinct(done),
        joined_below(prev, done),
        0 <= x < prev.len(),
        forall|i: int| 0 <= i < done.len() ==> #[trigger] done[i] != x,
        done.len() == 0 ==> now == prev,
        done.len() > 0 ==> relinked(prev, now, done.last() as int) && now[done.last() as int].next
            == Some(x),
    ensures
        within(done.push(x), 0, prev.len() as int),
        distinct(done.push(x)),
        joined_below(now, done.push(x)),
        values(now, done.push(x)) == values(prev, done).push(prev[x as int].val),
        head_of(done.push(x)) == if done.len() > 0 {
            head_of(done)
        } else {
            Some(x)
        },
        tail_of(done.push(x)) == Some(x),
{
    let after = done.push(x);
    assert forall|i: int| 0 <= i < after.len() - 1 implies #[trigger] joined(now, after, i) by {
        if i < done.len() - 1 {
            assert(joined(prev, done, i));
            assert(done[i] != done.last());
            assert(now[done[i] as int] == prev[done[i] as int]);
        }
    }
    assert forall|i: int| 0 <= i < after.len() implies now[after[i] as int].val
        == prev[after[i] as int].val by {
        if done.len() > 0 && after[i] != done.last() {
            assert(now[after[i] as int] == prev[after[i] as int]);
        }
    }
    assert(values(now, after) =~= values(prev, done).push(prev[x as int].val));
}

/// Joining two arenas keeps the chain of the first, and keeps that of the second
/// under its new places.
proof fn lemma_joined<T>(
    nodes_a: Seq<Node<T>>,
    nodes_b: Seq<Node<T>>,
    arena: Seq<Node<T>>,
    chain_a: Seq<usize>,
    chain_b: Seq<usize>,
)
    requires
        within(chain_a, 0, nodes_a.len() as int),
        within(chain_b, 0, nodes_b.len() as int),
        distinct(chain_b),
        linked_from(nodes_a, chain_a, 0),
        linked_from(nodes_b, chain_b, 0),
        nodes_a.len() + nodes_b.len() <= usize::MAX,
        arena.len() == nodes_a.len() + nodes_b.len(),
        forall|i: int| 0 <= i < nodes_a.len() ==> #[trigger] arena[i] == nodes_a[i],
        forall|i: int|
            0 <= i < nodes_b.len() ==> (#[trigger] arena[nodes_a.len() + i]).val == nodes_b[i].val,
        forall|i: int|
            0 <= i < nodes_b.len() ==> (#[trigger] arena[nodes_a.len() + i]).next == shifted(
                nodes_b[i].next,
                nodes_a.len() as usize,
            ),
    ensures
        ({
            let moved = shifted_chain(chain_b, nodes_a.len() as usize);
            &&& moved.len() == chain_b.len()
            &&& within(moved, nodes_a.len() as int, arena.len() as int)
            &&& distinct(moved)
            &&& linked_from(arena, chain_a, 0)
            &&& linked_from(arena, moved, 0)
            &&& values(arena, chain_a) == values(nodes_a, chain_a)
            &&& values(arena, moved) == values(nodes_b, chain_b)
            &&& head_of(moved) == shifted(head_of(chain_b), nodes_a.len() as usize)
            &&& tail_of(moved) == shifted(tail_of(chain_b), nodes_a.len() as usize)
        }),
{
    let offset = nodes_a.len() as usize;
    let moved = shifted_chain(chain_b, offset);
    assert forall|i: int| 0 <= i < chain_a.len() implies #[trigger] linked(arena, chain_a, i) by {
        assert(linked(nodes_a, chain_a, i));
        assert(arena[chain_a[i] as int] == nodes_a[chain_a[i] as int]);
    }
    assert forall|i: int| 0 <= i < moved.len() implies #[trigger] linked(arena, moved, i) by {
        assert(linked(nodes_b, chain_b, i));
        assert(arena[offset + chain_b[i]].next == shifted(nodes_b[chain_b[i] as int].next, offset));
        assert(moved[i] == offset + chain_b[i]);
        if i + 1 < chain_b.len() {
            assert(moved[i + 1] == offset + chain_b[i + 1]);
        }
    }
    assert forall|i: int| 0 <= i < chain_a.len() implies arena[chain_a[i] as int].val
        == nodes_a[chain_a[i] as int].val by {
        assert(arena[chain_a[i] as int] == nodes_a[chain_a[i] as int]);
    }
    assert(values(arena, chain_a) =~= values(nodes_a, chain_a));
    assert forall|i: int| 0 <= i < moved.len() implies arena[moved[i] as int].val
        == nodes_b[chain_b[i] as int].val by {
        assert(arena[offset + chain_b[i]].val == nodes_b[chain_b[i] as int].val);
    }
    assert(values(arena, moved) =~= values(nodes_b, chain_b));
    assert forall|i: int, j: int| 0 <= i < j < moved.len() implies #[trigger] moved[i]
        != #[trigger] moved[j] by {
        assert(chain_b[i] != chain_b[j]);
    }
    assert forall|i: int| 0 <= i < moved.len() implies offset <= #[trigger] moved[i]
        < arena.len() by {
        assert(chain_b[i] < nodes_b.len());
    }
}

/// Linking what is left of `chain` behind the last node of `done` gives one chain
/// through the nodes of both.
proof fn lemma_spliced<T>(
    prev: Seq<Node<T>>,
    now: Seq<Node<T>>,
    done: Seq<usize>,
    chain: Seq<usize>,
    from: int,
)
    requires
        within(done, 0, prev.len() as int),
        distinct(done),
        joined_below(prev, done),
        within(chain, 0, prev.len() as int),
        distinct(chain),
        0 <= from <= chain.len(),
        linked_from(prev, chain, from),
        apart(done, chain, from),
        links_inside(prev),
        done.len() == 0 ==> now == prev,
        done.len() > 0 ==> relinked(prev, now, done.last() as int) && now[done.last() as int].next
            == cursor(chain, from),
    ensures
        ({
            let whole = done + chain.skip(from);
            &&& whole.len() == done.len() + chain.len() - from
            &&& within(whole, 0, now.len() as int)
            &&& distinct(whole)
            &&& linked_from(now, whole, 0)
            &&& links_inside(now)
            &&& values(now, whole) == values(prev, done) + values(prev, chain).skip(from)
            &&& head_of(whole) == if done.len() > 0 {
                head_of(done)
            } else {
                cursor(chain, from)
            }
            &&& tail_of(whole) == if from < chain.len() {
                tail_of(chain)
            } else {
                tail_of(done)
            }
        }),
{
    let rest = chain.skip(from);
    let whole = done + rest;
    assert forall|i: int| 0 <= i < whole.len() implies 0 <= #[trigger] whole[i] < now.len() by {
        if i < done.len() {
            assert(whole[i] == done[i]);
        } else {
            assert(whole[i] == chain[from + i - done.len()]);
        }
    }
    assert forall|i: int, j: int| 0 <= i < j < whole.len() implies #[trigger] whole[i]
        != #[trigger] whole[j] by {
        if j < done.len() {
            assert(done[i] != done[j]);
        } else if i < done.len() {
            assert(done[i] != chain[from + j - done.len()]);
        } else {
            assert(chain[from + i - done.len()] != chain[from + j - done.len()]);
        }
    }
    assert forall|i: int| 0 <= i < whole.len() implies #[trigger] linked(now, whole, i) by {
        if i < done.len() - 1 {
            assert(joined(prev, done, i));
            assert(done[i] != done.last());
            assert(now[done[i] as int] == prev[done[i] as int]);
            assert(whole[i + 1] == done[i + 1]);
        } else if i == done.len() - 1 {
            if from < chain.len() {
                assert(whole[i + 1] == chain[from]);
            }
        } else {
            let k = from + i - done.len();
            assert(linked(prev, chain, k));
            assert(whole[i] == chain[k]);
            if done.len() > 0 {
                assert(done[done.len() - 1] != chain[k]);
                assert(now[chain[k] as int] == prev[chain[k] as int]);
            }
            if i + 1 < whole.len() {
                assert(whole[i + 1] == chain[k + 1]);
            }
        }
    }
    assert forall|i: int| 0 <= i < now.len() implies (#[trigger] now[i].next matches Some(n) ==> n
        < now.len()) by {
        if done.len() > 0 && i == done.last() {
            if from < chain.len() {
                assert(chain[from] < prev.len());
            }
        } else {
            assert(now[i] == prev[i]);
        }
    }
    assert forall|i: int| 0 <= i < whole.len() implies now[whole[i] as int].val
        == prev[whole[i] as int].val by {
        if done.len() > 0 && whole[i] != done.last() {
            assert(now[whole[i] as int] == prev[whole[i] as int]);
        }
    }
    assert(values(now, whole) =~= values(prev, done) + values(prev, chain).skip(from));
}

/// The state of a merge before a value is taken.
proof fn lemma_nothing_taken<T: PartialOrd>(first: Seq<T>, second: Seq<T>)
    ensures
        Seq::<T>::empty().to_multiset() == first.take(0).to_multiset().add(
            second.take(0).to_multiset(),
        ),
        merged(first, second) == Seq::<T>::empty() + merged(first.skip(0), second.skip(0)),
{
    broadcast use vstd::seq_lib::group_to_multiset_ensures;

    assert(first.take(0) =~= Seq::<T>::empty());
    assert(second.take(0) =~= Seq::<T>::empty());
    assert(first.skip(0) =~= first);
    assert(second.skip(0) =~= second);
    assert(Seq::<T>::empty() + merged(first, second) =~= merged(first, second));
    assert(Seq::<T>::empty().to_multiset().len() == 0);
    assert(Seq::<T>::empty().to_multiset() =~= Multiset::<T>::empty());
    assert(Seq::<T>::empty().to_multiset() =~= first.take(0).to_multiset().add(
        second.take(0).to_multiset(),
    ));
}

/// One step of a merge: with `taken_a` values of `first` and `taken_b` of `second`
/// in `sofar`, the next value goes behind them, from `first` if `from_a`.
proof fn lemma_one_taken<T: PartialOrd>(
    first: Seq<T>,
    second: Seq<T>,
    taken_a: int,
    taken_b: int,
    sofar: Seq<T>,
    from_a: bool,
)
    requires
        0 <= taken_a < first.len(),
        0 <= taken_b < second.len(),
        sofar.to_multiset() == first.take(taken_a).to_multiset().add(
            second.take(taken_b).to_multiset(),
        ),
        comparable::<T>() ==> from_a == at_most(first[taken_a], second[taken_b]),
        comparable::<T>() ==> merged(first, second) == sofar + merged(
            first.skip(taken_a),
            second.skip(taken_b),
        ),
    ensures
        ({
            let next_a = if from_a {
                taken_a + 1
            } else {
                taken_a
            };
            let next_b = if from_a {
                taken_b
            } else {
                taken_b + 1
            };
            let value = if from_a {
                first[taken_a]
            } else {
                second[taken_b]
            };
            &&& sofar.push(value).to_multiset() == first.take(next_a).to_multiset().add(
                second.take(next_b).to_multiset(),
            )
            &&& comparable::<T>() ==> merged(first, second) == sofar.push(value) + merged(
                first.skip(next_a),
                second.skip(next_b),
            )
        }),
{
    broadcast use vstd::seq_lib::group_to_multiset_ensures;

    let rest_a = first.skip(taken_a);
    let rest_b = second.skip(taken_b);
    assert(rest_a[0] == first[taken_a] && rest_b[0] == second[taken_b]);
    if from_a {
        let value = first[taken_a];
        assert(rest_a.drop_first() =~= first.skip(taken_a + 1));
        assert(first.take(taken_a + 1) =~= first.take(taken_a).push(value));
        assert(sofar.push(value).to_multiset() =~= first.take(taken_a + 1).to_multiset().add(
            second.take(taken_b).to_multiset(),
        ));
        if comparable::<T>() {
            let tail = merged(first.skip(taken_a + 1), second.skip(taken_b));
            assert(merged(rest_a, rest_b) == seq![value] + tail);
            assert(sofar + (seq![value] + tail) =~= sofar.push(value) + tail);
        }
    } else {
        let value = second[taken_b];
        assert(rest_b.drop_first() =~= second.skip(taken_b + 1));
        assert(second.take(taken_b + 1) =~= second.take(taken_b).push(value));
        assert(sofar.push(value).to_multiset() =~= first.take(taken_a).to_multiset().add(
            second.take(taken_b + 1).to_multiset(),
        ));
        if comparable::<T>() {
            let tail = merged(first.skip(taken_a), second.skip(taken_b + 1));
            assert(merged(rest_a, rest_b) == seq![value] + tail);
            assert(sofar + (seq![value] + tail) =~= sofar.push(value) + tail);
        }
    }
}

/// The end of a merge: one of the two sequences is used up, and what is left of
/// the other goes behind `sofar`.
proof fn lemma_all_taken<T: PartialOrd>(
    first: Seq<T>,
    second: Seq<T>,
    taken_a: int,
    taken_b: int,
    sofar: Seq<T>,
)
    requires
        0 <= taken_a <= first.len(),
        0 <= taken_b <= second.len(),
        taken_a == first.len() || taken_b == second.len(),
        sofar.len() == taken_a + taken_b,
        sofar.to_multiset() == first.take(taken_a).to_multiset().add(
            second.take(taken_b).to_multiset(),
        ),
        comparable::<T>() ==> merged(first, second) == sofar + merged(
            first.skip(taken_a),
            second.skip(taken_b),
        ),
    ensures
        ({
            let rest = if taken_a < first.len() {
                first.skip(taken_a)
            } else {
                second.skip(taken_b)
            };
            &&& (sofar + rest).len() == first.len() + second.len()
            &&& (sofar + rest).to_multiset() == first.to_multiset().add(second.to_multiset())
            &&& comparable::<T>() ==> sofar + rest == merged(first, second)
        }),
{
    broadcast use vstd::seq_lib::group_to_multiset_ensures;

    let rest = if taken_a < first.len() {
        first.skip(taken_a)
    } else {
        second.skip(taken_b)
    };
    vstd::seq_lib::lemma_multiset_commutative(sofar, rest);
    if taken_a < first.len() {
        assert(second.take(taken_b) =~= second);
        assert(first.take(taken_a) + first.skip(taken_a) =~= first);
        vstd::seq_lib::lemma_multiset_commutative(first.take(taken_a), first.skip(taken_a));
    } else {
        assert(first.take(taken_a) =~= first);
        assert(second.take(taken_b) + second.skip(taken_b) =~= second);
        vstd::seq_lib::lemma_multiset_commutative(second.take(taken_b), second.skip(taken_b));
    }
    assert((sofar + rest).to_multiset() =~= first.to_multiset().add(second.to_multiset()));
    if comparable::<T>() {
        assert(merged(first.skip(taken_a), second.skip(taken_b)) =~= rest);
    }
}

impl<T> LinkedList<T> {
    /// The links, followed from the first node, visit every node of the arena
    /// once, `length` nodes in all, and end at the last node. No link leads out of
    /// the arena.
    pub closed spec fn well_formed(&self) -> bool {
        &&& self.chain@.len() == self.length
        &&& self.nodes@.len() == self.length
        &&& within(self.chain@, 0, self.length as int)
        &&& distinct(self.chain@)
        &&& linked_from(self.nodes@, self.chain@, 0)
        &&& links_inside(self.nodes@)
        &&& self.start == head_of(self.chain@)
        &&& self.end == tail_of(self.chain@)
    }

    /// The values of the list, from the first node to the last.
    pub closed spec fn view(&self) -> Seq<T> {
        values(self.nodes@, self.chain@)
    }

    /// A well-formed list holds `length` values.
    pub proof fn lemma_length(&self)
        requires
            self.well_formed(),
        ensures
            self@.len() == self.length,
    {
    }

    /// The ends of a well-formed list: an empty list has neither a first nor a
    /// last node; in any other, `start` is the place of the node with the first
    /// value and `end` the place of the node with the last value, which links to
    /// none. The arena holds `length` nodes.
    pub proof fn lemma_ends(&self)
        requires
            self.well_formed(),
        ensures
            self.nodes@.len() == self.length,
            self.length == 0 ==> self.start is None && self.end is None,
            self.length > 0 ==> {
                &&& self.start is Some
                &&& self.end is Some
                &&& self.start->0 < self.nodes@.len()
                &&& self.end->0 < self.nodes@.len()
                &&& self.nodes@[self.start->0 as int].val == self@[0]
                &&& self.nodes@[self.end->0 as int].val == self@.last()
                &&& self.nodes@[self.end->0 as int].next is None
            },
    {
        if self.length > 0 {
            assert(linked(self.nodes@, self.chain@, self.length - 1));
        }
    }

    /// The empty list.
    pub fn new() -> (list: Self)
        ensures
            list.well_formed(),
            list@ == Seq::<T>::empty(),
            list.length == 0,
            list.start is None,
            list.end is None,
    {
        Self { length: 0, nodes: Vec::new(), start: None, end: None, chain: Ghost(Seq::empty()) }
    }

    /// Appends `obj` behind the last node, in constant time.
    pub fn add(&mut self, obj: T)
        requires
            old(self).well_formed(),
            old(self).length < u32::MAX,
        ensures
            final(self).well_formed(),
            final(self)@ == old(self)@.push(obj),
            final(self).length == old(self).length + 1,
    {
        let idx = self.nodes.len();
        self.nodes.push(Node::new(obj));
        match self.end {
            None => {
                self.start = Some(idx);
            },
            Some(end_idx) => {
                assert(end_idx == old(self).chain@.last());
                self.nodes[end_idx].next = Some(idx);
            },
        }
        self.end = Some(idx);
        self.length += 1;
        proof {
            let before = old(self).chain@;
            let after = before.push(idx);
            self.chain@ = after;
            assert forall|i: int| 0 <= i < after.len() implies #[trigger] linked(
                self.nodes@,
                after,
                i,
            ) by {
                if i < before.len() {
                    assert(linked(old(self).nodes@, before, i));
                }
            }
            assert(self@ =~= old(self)@.push(obj));
        }
    }

    /// The value at position `index`, counted from zero and reached by following
    /// `index` links from the first node; none for an index that is negative or
    /// not below the length.
    pub fn get(&mut self, index: i32) -> (value: Option<&T>)
        requires
            old(self).well_formed(),
        ensures
            *final(self) == *old(self),
            0 <= index < old(self)@.len() ==> value == Some(&old(self)@[index as int]),
            !(0 <= index < old(self)@.len()) ==> value is None,
    {
        self.get_ith_node(self.start, index, Ghost(0))
    }

    /// The value `index` links behind `node`, which stands at position `at`.
    fn get_ith_node(&self, node: Option<usize>, index: i32, Ghost(at): Ghost<int>) -> (value:
        Option<&T>)
        requires
            self.well_formed(),
            0 <= at <= self.length,
            node == cursor(self.chain@, at),
        ensures
            0 <= index && at + index < self@.len() ==> value == Some(&self@[at + index]),
            !(0 <= index && at + index < self@.len()) ==> value is None,
        decreases self.length - at,
    {
        match node {
            None => None,
            Some(idx) => {
                if index == 0 {
                    Some(&self.nodes[idx].val)
                } else if index < 0 {
                    None
                } else {
                    assert(linked(self.nodes@, self.chain@, at));
                    self.get_ith_node(self.nodes[idx].next, index - 1, Ghost(at + 1))
                }
            },
        }
    }

    /// Merges two lists into one and uses both up: the nodes of `list_a` and of
    /// `list_b` become the nodes of the result. While both lists have nodes left,
    /// the first node of `list_a` is linked to the end of the result if its value
    /// is at most that of the first node of `list_b`, and else the first node of
    /// `list_b`; what is left of the other list is then linked on in one step.
    ///
    /// The result holds the values of both lists, each list in its own order.
    /// For sorted lists of a type with a strict weak order it is sorted.
    pub fn merge(list_a: LinkedList<T>, list_b: LinkedList<T>) -> (merged_list: Self) where
        T: PartialOrd,

        requires
            list_a.well_formed(),
            list_b.well_formed(),
            list_a.length + list_b.length <= u32::MAX,
        ensures
            merged_list.well_formed(),
            merged_list.length == list_a.length + list_b.length,
            merged_list@.len() == list_a@.len() + list_b@.len(),
            merged_list@.to_multiset() == list_a@.to_multiset().add(list_b@.to_multiset()),
            comparable::<T>() ==> merged_list@ == merged(list_a@, list_b@),
            comparable::<T>() ==> interleaves(merged_list@, list_a@, list_b@),
            weak_order::<T>() && ascending(list_a@) && ascending(list_b@) ==> ascending(
                merged_list@,
            ),
    {
        let ghost first = list_a@;
        let ghost second = list_b@;
        let ghost chain_a = list_a.chain@;
        let ghost chain_b = shifted_chain(list_b.chain@, list_a.length as usize);
        let length = list_a.length + list_b.length;
        let offset = list_a.nodes.len();
        let end_a = list_a.end;
        let end_b = shift(list_b.end, offset);
        let mut current_a = list_a.start;
        let mut current_b = shift(list_b.start, offset);
        let ghost nodes_a = list_a.nodes@;
        let ghost nodes_b = list_b.nodes@;
        let mut nodes = join_arenas(list_a.nodes, list_b.nodes);
        proof {
            lemma_joined(nodes_a, nodes_b, nodes@, chain_a, list_b.chain@);
            lemma_nothing_taken(first, second);
            assert(values(nodes@, Seq::<usize>::empty()) =~= Seq::<T>::empty());
        }
        let mut start: Option<usize> = None;
        let mut tail: Option<usize> = None;
        let ghost mut taken_a: int = 0;
        let ghost mut taken_b: int = 0;
        let ghost mut done: Seq<usize> = Seq::empty();
        while current_a.is_some() && current_b.is_some()
            invariant
                chain_a.len() == offset,
                chain_a.len() == first.len(),
                chain_b.len() == second.len(),
                nodes@.len() == offset + chain_b.len(),
                0 <= taken_a <= chain_a.len(),
                0 <= taken_b <= chain_b.len(),
                done.len() == taken_a + taken_b,
                current_a == cursor(chain_a, taken_a),
                current_b == cursor(chain_b, taken_b),
                within(chain_a, 0, offset as int),
                within(chain_b, offset as int, nodes@.len() as int),
                distinct(chain_a),
                distinct(chain_b),
                linked_from(nodes@, chain_a, taken_a),
                linked_from(nodes@, chain_b, taken_b),
                values(nodes@, chain_a) == first,
                values(nodes@, chain_b) == second,
                within(done, 0, nodes@.len() as int),
                distinct(done),
                joined_below(nodes@, done),
                links_inside(nodes@),
                apart(done, chain_a, taken_a),
                apart(done, chain_b, taken_b),
                start == head_of(done),
                tail == tail_of(done),
                values(nodes@, done).to_multiset() == first.take(taken_a).to_multiset().add(
                    second.take(taken_b).to_multiset(),
                ),
                comparable::<T>() ==> merged(first, second) == values(nodes@, done) + merged(
                    first.skip(taken_a),
                    second.skip(taken_b),
                ),
            decreases chain_a.len() - taken_a + chain_b.len() - taken_b,
        {
            let a_idx = current_a.unwrap();
            let b_idx = current_b.unwrap();
            let ghost prev = nodes@;
            let ghost was_a = taken_a;
            let ghost was_b = taken_b;
            assert(prev[a_idx as int].val == values(prev, chain_a)[taken_a]);
            assert(prev[b_idx as int].val == values(prev, chain_b)[taken_b]);
            let chosen: usize;
            let from_a = nodes[a_idx].val <= nodes[b_idx].val;
            if from_a {
                chosen = a_idx;
                assert(linked(nodes@, chain_a, taken_a));
                current_a = nodes[a_idx].next;
                proof {
                    taken_a = taken_a + 1;
                }
            } else {
                chosen = b_idx;
                assert(linked(nodes@, chain_b, taken_b));
                current_b = nodes[b_idx].next;
                proof {
                    taken_b = taken_b + 1;
                }
            }
            match tail {
                None => {
                    start = Some(chosen);
                },
                Some(t) => {
                    nodes[t].next = Some(chosen);
                },
            }
            tail = Some(chosen);
            proof {
                if done.len() > 0 {
                    let t = done.last() as int;
                    assert(relinked(prev, nodes@, t));
                    lemma_relinked_values(prev, nodes@, t, chain_a);
                    lemma_relinked_values(prev, nodes@, t, chain_b);
                    lemma_relinked_elsewhere(prev, nodes@, t, chain_a, taken_a);
                    lemma_relinked_elsewhere(prev, nodes@, t, chain_b, taken_b);
                }
                lemma_extend_done(prev, nodes@, done, chosen);
                lemma_one_taken(first, second, was_a, was_b, values(prev, done), from_a);
                done = done.push(chosen);
            }
        }
        let remainder = if current_a.is_some() {
            current_a
        } else {
            current_b
        };
        let ghost prev = nodes@;
        match tail {
            None => {
                start = remainder;
            },
            Some(t) => {
                nodes[t].next = remainder;
            },
        }
        let end = if current_a.is_some() {
            end_a
        } else if current_b.is_some() {
            end_b
        } else {
            tail
        };
        let ghost whole = if taken_a < chain_a.len() {
            done + chain_a.skip(taken_a)
        } else {
            done + chain_b.skip(taken_b)
        };
        let merged_list = LinkedList { length, nodes, start, end, chain: Ghost(whole) };
        proof {
            let now = merged_list.nodes@;
            if taken_a < chain_a.len() {
                lemma_spliced(prev, now, done, chain_a, taken_a);
                assert(values(prev, chain_a).skip(taken_a) == first.skip(taken_a));
            } else {
                lemma_spliced(prev, now, done, chain_b, taken_b);
                assert(values(prev, chain_b).skip(taken_b) == second.skip(taken_b));
            }
            lemma_all_taken(first, second, taken_a, taken_b, values(prev, done));
            lemma_merged_interleaves(first, second);
            if weak_order::<T>() && ascending(first) && ascending(second) {
                lemma_merged_ascending(first, second);
            }
        }
        merged_list
    }
}

impl<T> Default for LinkedList<T> {
    /// The empty list.
    fn default() -> (list: Self)
        ensures
            list.well_formed(),
            list@ == Seq::<T>::empty(),
            list.length == 0,
    {
        Self::new()
    }
}

/// The arena that holds the nodes of `first` and, behind them, those of `second`
/// with their links moved along.
fn join_arenas<T>(first: Vec<Node<T>>, second: Vec<Node<T>>) -> (arena: Vec<Node<T>>)
    requires
        first@.len() + second@.len() <= usize::MAX,
        links_inside(first@),
        links_inside(second@),
    ensures
        arena@.len() == first@.len() + second@.len(),
        links_inside(arena@),
        forall|i: int| 0 <= i < first@.len() ==> #[trigger] arena@[i] == first@[i],
        forall|i: int|
            0 <= i < second@.len() ==> (#[trigger] arena@[first@.len() + i]).val == second@[i].val,
        forall|i: int|
            0 <= i < second@.len() ==> (#[trigger] arena@[first@.len() + i]).next == shifted(
                second@[i].next,
                first@.len() as usize,
            ),
{
    let mut arena = first;
    let mut moved = second;
    let offset = arena.len();
    arena.append(&mut moved);
    let total = arena.len();
    let mut k = offset;
    while k < total
        invariant
            offset == first@.len(),
            total == offset + second@.len(),
            arena@.len() == total,
            offset <= k <= total,
            forall|i: int| 0 <= i < offset ==> #[trigger] arena@[i] == first@[i],
            forall|i: int|
                0 <= i < second@.len() ==> (#[trigger] arena@[offset + i]).val == second@[i].val,
            forall|i: int|
                0 <= i < k - offset ==> (#[trigger] arena@[offset + i]).next == shifted(
                    second@[i].next,
                    offset,
                ),
            forall|i: int|
                k - offset <= i < second@.len() ==> (#[trigger] arena@[offset + i]).next
                    == second@[i].next,
            links_inside(first@),
            links_inside(second@),
        decreases total - k,
    {
        let ghost prev = arena@;
        assert(prev[offset + (k - offset)].next == second@[k - offset].next);
        let link = shift(arena[k].next, offset);
        arena[k].next = link;
        assert forall|i: int| 0 <= i < second@.len() implies (#[trigger] arena@[offset + i]).val
            == second@[i].val by {
            assert(prev[offset + i].val == second@[i].val);
        }
        assert forall|i: int| 0 <= i < k + 1 - offset implies (#[trigger] arena@[offset + i]).next
            == shifted(second@[i].next, offset) by {
            if i < k - offset {
                assert(prev[offset + i].next == shifted(second@[i].next, offset));
            }
        }
        assert forall|i: int| k + 1 - offset <= i < second@.len() implies (#[trigger] arena@[offset
            + i]).next == second@[i].next by {
            assert(prev[offset + i].next == second@[i].next);
        }
        k += 1;
    }
    proof {
        assert forall|i: int| 0 <= i < arena@.len() implies (#[trigger] arena@[i].next matches Some(
            n,
        ) ==> n < arena@.len()) by {
            if i < offset {
                assert(arena@[i] == first@[i]);
            } else {
                assert(arena@[offset + (i - offset)].next == shifted(
                    second@[i - offset].next,
                    offset,
                ));
            }
        }
    }
    arena
}

/// The link `link` once `offset` places were put in front of the arena.
fn shift(link: Option<usize>, offset: usize) -> (moved: Option<usize>)
    requires
        link matches Some(i) ==> i + offset <= usize::MAX,
    ensures
        moved == shifted(link, offset),
{
    match link {
        Some(i) => Some(i + offset),
        None => None,
    }
}

/// The first `lo` bounds `merged(a, b)` from below if it bounds `a` and `b`.
proof fn lemma_merged_bounded<T: PartialOrd>(lo: T, a: Seq<T>, b: Seq<T>)
    requires
        forall|i: int| 0 <= i < a.len() ==> at_most(lo, #[trigger] a[i]),
        forall|i: int| 0 <= i < b.len() ==> at_most(lo, #[trigger] b[i]),
    ensures
        forall|i: int| 0 <= i < merged(a, b).len() ==> at_most(lo, #[trigger] merged(a, b)[i]),
    decreases a.len() + b.len(),
{
    if a.len() == 0 || b.len() == 0 {
    } else if at_most(a[0], b[0]) {
        let rest = a.drop_first();
        assert forall|i: int| 0 <= i < rest.len() implies at_most(lo, #[trigger] rest[i]) by {
            assert(rest[i] == a[i + 1]);
        }
        lemma_merged_bounded(lo, rest, b);
        assert forall|i: int| 0 <= i < merged(a, b).len() implies at_most(
            lo,
            #[trigger] merged(a, b)[i],
        ) by {
            if i > 0 {
                assert(merged(a, b)[i] == merged(rest, b)[i - 1]);
            }
        }
    } else {
        let rest = b.drop_first();
        assert forall|i: int| 0 <= i < rest.len() implies at_most(lo, #[trigger] rest[i]) by {
            assert(rest[i] == b[i + 1]);
        }
        lemma_merged_bounded(lo, a, rest);
        assert forall|i: int| 0 <= i < merged(a, b).len() implies at_most(
            lo,
            #[trigger] merged(a, b)[i],
        ) by {
            if i > 0 {
                assert(merged(a, b)[i] == merged(a, rest)[i - 1]);
            }
        }
    }
}

/// `r` is made of the entries of `a` and of `b`, each of the two in its own
/// order: nothing is lost, doubled or made up.
pub open spec fn interleaves<T>(r: Seq<T>, a: Seq<T>, b: Seq<T>) -> bool
    decreases r.len(),
{
    if r.len() == 0 {
        a.len() == 0 && b.len() == 0
    } else {
        ||| a.len() > 0 && r[0] == a[0] && interleaves(r.drop_first(), a.drop_first(), b)
        ||| b.len() > 0 && r[0] == b[0] && interleaves(r.drop_first(), a, b.drop_first())
    }
}

/// A sequence interleaves itself with the empty sequence, on either side.
proof fn lemma_interleaves_alone<T>(s: Seq<T>)
    ensures
        interleaves(s, s, Seq::<T>::empty()),
        interleaves(s, Seq::<T>::empty(), s),
    decreases s.len(),
{
    if s.len() > 0 {
        lemma_interleaves_alone(s.drop_first());
    }
}

/// The merge of two sequences is made of the entries of both, each of the two
/// in its own order.
pub proof fn lemma_merged_interleaves<T: PartialOrd>(a: Seq<T>, b: Seq<T>)
    ensures
        interleaves(merged(a, b), a, b),
    decreases a.len() + b.len(),
{
    if a.len() == 0 {
        lemma_interleaves_alone(b);
        assert(a =~= Seq::<T>::empty());
    } else if b.len() == 0 {
        lemma_interleaves_alone(a);
        assert(b =~= Seq::<T>::empty());
    } else if at_most(a[0], b[0]) {
        lemma_merged_interleaves(a.drop_first(), b);
        assert(merged(a, b).drop_first() =~= merged(a.drop_first(), b));
    } else {
        lemma_merged_interleaves(a, b.drop_first());
        assert(merged(a, b).drop_first() =~= merged(a, b.drop_first()));
    }
}

/// The merge of two sequences has the length of both together.
pub proof fn lemma_merged_len<T: PartialOrd>(a: Seq<T>, b: Seq<T>)
    ensures
        merged(a, b).len() == a.len() + b.len(),
    decreases a.len() + b.len(),
{
    if a.len() == 0 || b.len() == 0 {
    } else if at_most(a[0], b[0]) {
        lemma_merged_len(a.drop_first(), b);
    } else {
        lemma_merged_len(a, b.drop_first());
    }
}

/// The merge of two sequences holds the elements of both, each as often as the
/// two hold it together.
pub proof fn lemma_merged_elements<T: PartialOrd>(a: Seq<T>, b: Seq<T>)
    ensures
        merged(a, b).to_multiset() == a.to_multiset().add(b.to_multiset()),
    decreases a.len() + b.len(),
{
    broadcast use vstd::seq_lib::group_to_multiset_ensures;

    if a.len() == 0 {
        assert(a.to_multiset() =~= Multiset::<T>::empty());
        assert(merged(a, b).to_multiset() =~= a.to_multiset().add(b.to_multiset()));
    } else if b.len() == 0 {
        assert(b.to_multiset() =~= Multiset::<T>::empty());
        assert(merged(a, b).to_multiset() =~= a.to_multiset().add(b.to_multiset()));
    } else if at_most(a[0], b[0]) {
        let rest = a.drop_first();
        lemma_merged_elements(rest, b);
        vstd::seq_lib::lemma_multiset_commutative(seq![a[0]], merged(rest, b));
        vstd::seq_lib::lemma_multiset_commutative(seq![a[0]], rest);
        assert(seq![a[0]] + rest =~= a);
        assert(merged(a, b).to_multiset() =~= a.to_multiset().add(b.to_multiset()));
    } else {
        let rest = b.drop_first();
        lemma_merged_elements(a, rest);
        vstd::seq_lib::lemma_multiset_commutative(seq![b[0]], merged(a, rest));
        vstd::seq_lib::lemma_multiset_commutative(seq![b[0]], rest);
        assert(seq![b[0]] + rest =~= b);
        assert(merged(a, b).to_multiset() =~= a.to_multiset().add(b.to_multiset()));
    }
}

/// The merge of two ascending sequences is ascending, for a strict weak order.
pub proof fn lemma_merged_ascending<T: PartialOrd>(a: Seq<T>, b: Seq<T>)
    requires
        weak_order::<T>(),
        ascending(a),
        ascending(b),
    ensures
        ascending(merged(a, b)),
    decreases a.len() + b.len(),
{
    lemma_merged_len(a, b);
    if a.len() == 0 || b.len() == 0 {
    } else {
        lemma_comparison(a[0], b[0]);
        lemma_comparison(a[0], a[0]);
        lemma_comparison(b[0], b[0]);
        if at_most(a[0], b[0]) {
            let rest = a.drop_first();
            assert forall|i: int, j: int| 0 <= i < j < rest.len() implies at_most(
                #[trigger] rest[i],
                #[trigger] rest[j],
            ) by {
                assert(at_most(a[i + 1], a[j + 1]));
            }
            lemma_merged_ascending(rest, b);
            assert forall|i: int| 0 <= i < rest.len() implies at_most(a[0], #[trigger] rest[i]) by {
                assert(at_most(a[0], a[i + 1]));
            }
            assert forall|i: int| 0 <= i < b.len() implies at_most(a[0], #[trigger] b[i]) by {
                if i > 0 {
                    assert(at_most(b[0], b[i]));
                    lemma_at_most_transitive(a[0], b[0], b[i]);
                }
            }
            lemma_merged_bounded(a[0], rest, b);
            lemma_merged_len(rest, b);
            let m = merged(a, b);
            assert forall|i: int, j: int| 0 <= i < j < m.len() implies at_most(
                #[trigger] m[i],
                #[trigger] m[j],
            ) by {
                assert(m[j] == merged(rest, b)[j - 1]);
                if i > 0 {
                    assert(m[i] == merged(rest, b)[i - 1]);
                }
            }
        } else {
            let rest = b.drop_first();
            assert forall|i: int, j: int| 0 <= i < j < rest.len() implies at_most(
                #[trigger] rest[i],
                #[trigger] rest[j],
            ) by {
                assert(at_most(b[i + 1], b[j + 1]));
            }
            lemma_merged_ascending(a, rest);
            assert forall|i: int| 0 <= i < rest.len() implies at_most(b[0], #[trigger] rest[i]) by {
                assert(at_most(b[0], b[i + 1]));
            }
            assert forall|i: int| 0 <= i < a.len() implies at_most(b[0], #[trigger] a[i]) by {
                if i > 0 {
                    assert(at_most(a[0], a[i]));
                    lemma_at_most_transitive(b[0], a[0], a[i]);
                }
            }
            lemma_merged_bounded(b[0], a, rest);
            lemma_merged_len(a, rest);
            let m = merged(a, b);
            assert forall|i: int, j: int| 0 <= i < j < m.len() implies at_most(
                #[trigger] m[i],
                #[trigger] m[j],
            ) by {
                assert(m[j] == merged(a, rest)[j - 1]);
                if i > 0 {
                    assert(m[i] == merged(a, rest)[i - 1]);
                }
            }
        }
    }
}

} // verus!
