//! Breadth-first traversal of an undirected graph that is kept as adjacency lists.
//!
//! The vertices of a graph are the numbers below its size. The neighbours of a
//! vertex stand in the order in which the edges were added, and the traversal
//! follows that order, so the order of the edges decides the order of the visit.

use std::collections::VecDeque;
use vstd::prelude::*;

verus! {

/// An undirected graph on the vertices `0`, `1`, and so on.
pub struct Graph {
    adj: Vec<Vec<usize>>,
}

/// `order`, and behind it the vertices of `found` that occur neither in `order`
/// nor earlier in `found`, each once and in the order of `found`.
pub open spec fn with_new(order: Seq<usize>, found: Seq<usize>) -> Seq<usize>
    decreases found.len(),
{
    if found.len() == 0 {
        order
    } else {
        let before = with_new(order, found.drop_last());
        if before.contains(found.last()) {
            before
        } else {
            before.push(found.last())
        }
    }
}

/// The order of a breadth-first visit of which `order` is known so far and the
/// vertices before position `at` have had their neighbours looked at: the
/// neighbours of each further vertex, as far as they are new, go to the end of
/// the order.
pub open spec fn bfs_from(adj: Seq<Seq<usize>>, order: Seq<usize>, at: nat) -> Seq<usize>
    decreases adj.len() - at,
{
    if at >= order.len() || at >= adj.len() || order[at as int] >= adj.len() {
        order
    } else {
        bfs_from(adj, with_new(order, adj[order[at as int] as int]), at + 1)
    }
}

/// The order in which a breadth-first traversal from `start` visits the vertices
/// of the graph with the adjacency lists `adj`. A graph without vertices has
/// nothing to visit.
pub open spec fn bfs_order(adj: Seq<Seq<usize>>, start: usize) -> Seq<usize> {
    if adj.len() == 0 {
        Seq::empty()
    } else {
        bfs_from(adj, seq![start], 0)
    }
}

/// The adjacency lists `adj` with an edge between `src` and `dest` added: `dest`
/// at the end of the list of `src`, then `src` at the end of the list of `dest`.
pub open spec fn with_edge(adj: Seq<Seq<usize>>, src: usize, dest: usize) -> Seq<Seq<usize>> {
    let half = adj.update(src as int, adj[src as int].push(dest));
    half.update(dest as int, half[dest as int].push(src))
}

/// Every neighbour in the adjacency lists `adj` is a vertex.
pub open spec fn closed_lists(adj: Seq<Seq<usize>>) -> bool {
    forall|u: int, k: int|
        0 <= u < adj.len() && 0 <= k < adj[u].len() ==> #[trigger] adj[u][k] < adj.len()
}

/// `v` stands in the adjacency list of the vertex `u`.
pub open spec fn adjacent(adj: Seq<Seq<usize>>, u: usize, v: usize) -> bool {
    u < adj.len() && adj[u as int].contains(v)
}

/// The vertex at position `i + 1` of `path` is a neighbour of the one at `i`.
pub open spec fn step_along(adj: Seq<Seq<usize>>, path: Seq<usize>, i: int) -> bool {
    adjacent(adj, path[i], path[i + 1])
}

/// `path` leads from its first vertex to its last along edges of the graph.
pub open spec fn is_path(adj: Seq<Seq<usize>>, path: Seq<usize>) -> bool {
    &&& path.len() > 0
    &&& forall|i: int| 0 <= i < path.len() - 1 ==> #[trigger] step_along(adj, path, i)
}

/// A path leads from `start` to `v`.
pub open spec fn reachable(adj: Seq<Seq<usize>>, start: usize, v: usize) -> bool {
    exists|path: Seq<usize>| #[trigger] is_path(adj, path) && path[0] == start && path.last() == v
}

/// The vertex at position `j` of `order` is a neighbour of one that stands before
/// it and before position `at`.
spec fn has_parent(adj: Seq<Seq<usize>>, order: Seq<usize>, at: int, j: int) -> bool {
    exists|i: int| 0 <= i < j && i < at && #[trigger] adjacent(adj, order[i], order[j])
}

/// What holds of a visit in progress: `order` begins with `start`, holds
/// vertices only and none twice, each but the first was found as the neighbour
/// of an earlier one, and all neighbours of the vertices before `at` are in it.
spec fn visit_holds(adj: Seq<Seq<usize>>, start: usize, order: Seq<usize>, at: int) -> bool {
    &&& 0 <= at <= order.len()
    &&& order.len() > 0
    &&& order[0] == start
    &&& forall|i: int| 0 <= i < order.len() ==> #[trigger] order[i] < adj.len()
    &&& order.no_duplicates()
    &&& forall|j: int| 0 < j < order.len() ==> #[trigger] has_parent(adj, order, at, j)
    &&& forall|i: int, k: int|
        0 <= i < at && 0 <= k < adj[order[i] as int].len() ==> order.contains(
            #[trigger] adj[order[i] as int][k],
        )
}

/// A path of at most `n` edges leads from `start` to `v`.
pub open spec fn reachable_within(adj: Seq<Seq<usize>>, start: usize, v: usize, n: nat) -> bool {
    exists|path: Seq<usize>| #[trigger]
        is_path(adj, path) && path[0] == start && path.last() == v && path.len() <= n + 1
}

/// The levels of the vertices of `with_new(order, found)`: those of `order` as
/// `lev` gives them, and `l` for each vertex that is new.
spec fn levels_with_new(order: Seq<usize>, lev: Seq<nat>, found: Seq<usize>, l: nat) -> Seq<nat>
    decreases found.len(),
{
    if found.len() == 0 {
        lev
    } else {
        let before = levels_with_new(order, lev, found.drop_last(), l);
        if with_new(order, found.drop_last()).contains(found.last()) {
            before
        } else {
            before.push(l)
        }
    }
}

/// The levels of the vertices of `bfs_from(adj, order, at)`: a vertex stands one
/// level below the vertex whose neighbours were looked at when it was found.
spec fn levels_from(adj: Seq<Seq<usize>>, order: Seq<usize>, lev: Seq<nat>, at: nat) -> Seq<nat>
    decreases adj.len() - at,
{
    if at >= order.len() || at >= adj.len() || order[at as int] >= adj.len() {
        lev
    } else {
        levels_from(
            adj,
            with_new(order, adj[order[at as int] as int]),
            levels_with_new(order, lev, adj[order[at as int] as int], lev[at as int] + 1),
            at + 1,
        )
    }
}

/// The position before `at`, and `0` before `0`.
spec fn before(at: int) -> int {
    if at > 0 {
        at - 1
    } else {
        0
    }
}

/// What holds of the levels in a visit in progress: they begin at `0`, never
/// fall along the order, stay within one of the level of the vertex looked at
/// last, can each be walked in as many edges, and rise by at most one along an
/// edge from a vertex before `at`.
spec fn levels_hold(
    adj: Seq<Seq<usize>>,
    start: usize,
    order: Seq<usize>,
    lev: Seq<nat>,
    at: int,
) -> bool {
    &&& lev.len() == order.len()
    &&& lev[0] == 0
    &&& forall|j: int, k: int| 0 <= j <= k < lev.len() ==> #[trigger] lev[j] <= #[trigger] lev[k]
    &&& forall|k: int| 0 <= k < lev.len() ==> #[trigger] lev[k] <= lev[before(at)] + 1
    &&& forall|k: int|
        0 <= k < lev.len() ==> reachable_within(adj, start, #[trigger] order[k], lev[k])
    &&& forall|i: int, m: int|
        0 <= i < at && 0 <= m < lev.len() && #[trigger] adjacent(adj, order[i], order[m])
            ==> lev[m] <= lev[i] + 1
}

impl Graph {
    /// The adjacency lists: for each vertex its neighbours, in the order in which
    /// the edges were added.
    pub closed spec fn view(&self) -> Seq<Seq<usize>> {
        Seq::new(self.adj@.len(), |u: int| self.adj@[u]@)
    }

    /// The number of vertices.
    pub open spec fn vertices(&self) -> nat {
        self@.len()
    }

    /// Every neighbour is a vertex of the graph.
    pub open spec fn well_formed(&self) -> bool {
        closed_lists(self@)
    }

    /// The graph with `n` vertices and no edge.
    pub fn new(n: usize) -> (graph: Self)
        ensures
            graph.well_formed(),
            graph.vertices() == n,
            forall|u: int| 0 <= u < n ==> #[trigger] graph@[u] == Seq::<usize>::empty(),
    {
        let graph = Graph { adj: vec![vec![]; n] };
        proof {
            assert forall|u: int| 0 <= u < n implies #[trigger] graph@[u] == Seq::<usize>::empty() by {
                assert(graph.adj@[u]@.len() == 0);
                assert(graph@[u] =~= Seq::<usize>::empty());
            }
        }
        graph
    }

    /// Adds an edge between `src` and `dest`, which are vertices of the graph.
    /// Neither an edge that is there already nor an edge from a vertex to itself
    /// is treated apart.
    pub fn add_edge(&mut self, src: usize, dest: usize)
        requires
            old(self).well_formed(),
            src < old(self).vertices(),
            dest < old(self).vertices(),
        ensures
            final(self).well_formed(),
            final(self)@ == with_edge(old(self)@, src, dest),
            final(self).vertices() == old(self).vertices(),
    {
        self.adj[src].push(dest);
        self.adj[dest].push(src);
        proof {
            assert(self@ =~= with_edge(old(self)@, src, dest));
            assert forall|u: int, k: int|
                0 <= u < self@.len() && 0 <= k < self@[u].len() implies #[trigger] self@[u][k]
                < self@.len() by {
                if k < old(self)@[u].len() {
                    assert(self@[u][k] == old(self)@[u][k]);
                }
            }
        }
    }

    /// The vertices that can be reached from `start`, in the order of a
    /// breadth-first visit: `start` first, and then, for one visited vertex after
    /// the other, those of its neighbours that were not met before, in the order
    /// of its adjacency list. Of a graph without vertices nothing is visited.
    pub fn bfs_with_return(&self, start: usize) -> (visit_order: Vec<usize>)
        requires
            self.well_formed(),
            self.vertices() > 0 ==> start < self.vertices(),
        ensures
            visit_order@ == bfs_order(self@, start),
            self.vertices() > 0 ==> visit_order@.len() > 0 && visit_order@[0] == start,
            visit_order@.no_duplicates(),
            self.vertices() > 0 ==> forall|v: usize| #[trigger]
                visit_order@.contains(v) <==> reachable(self@, start, v),
    {
        let n = self.adj.len();
        if n == 0 {
            return vec![];
        }
        let mut visited = vec![false; n];
        let mut queue: VecDeque<usize> = VecDeque::new();
        let mut visit_order: Vec<usize> = vec![];
        visited[start] = true;
        queue.push_back(start);
        let ghost mut found: Seq<usize> = seq![start];
        let ghost mut seen: Set<int> = Set::empty().insert(start as int);
        proof {
            assert(found =~= visit_order@ + queue@);
            assert(found[0] == start);
        }
        while queue.len() > 0
            invariant
                self.well_formed(),
                n == self@.len(),
                n == visited@.len(),
                found == visit_order@ + queue@,
                forall|i: int| 0 <= i < found.len() ==> #[trigger] found[i] < n,
                forall|v: usize| v < n ==> (#[trigger] visited@[v as int] <==> found.contains(v)),
                forall|v: usize| #[trigger] found.contains(v) <==> seen.contains(v as int),
                forall|x: int| #[trigger] seen.contains(x) ==> 0 <= x < n,
                seen.finite(),
                seen.len() == found.len(),
                bfs_order(self@, start) == bfs_from(self@, found, visit_order@.len() as nat),
            decreases n - visit_order@.len(),
        {
            proof {
                vstd::set_lib::lemma_int_range(0, n as int);
                assert(seen.subset_of(vstd::set_lib::set_int_range(0, n as int)));
                vstd::set_lib::lemma_len_subset(seen, vstd::set_lib::set_int_range(0, n as int));
            }
            let ghost at = visit_order@.len() as int;
            let u = queue.pop_front().unwrap();
            visit_order.push(u);
            proof {
                assert(found[at] == u);
                assert(found =~= visit_order@ + queue@);
            }
            let neighbors = &self.adj[u];
            assert(neighbors@ == self@[u as int]);
            let ghost before = found;
            let mut k: usize = 0;
            while k < neighbors.len()
                invariant
                    self.well_formed(),
                    u < n,
                    n == self@.len(),
                    n == visited@.len(),
                    neighbors@ == self@[u as int],
                    k <= neighbors@.len(),
                    found == visit_order@ + queue@,
                    found == with_new(before, neighbors@.take(k as int)),
                    forall|i: int| 0 <= i < found.len() ==> #[trigger] found[i] < n,
                    forall|v: usize|
                        v < n ==> (#[trigger] visited@[v as int] <==> found.contains(v)),
                    forall|v: usize| #[trigger] found.contains(v) <==> seen.contains(v as int),
                    forall|x: int| #[trigger] seen.contains(x) ==> 0 <= x < n,
                    seen.finite(),
                    seen.len() == found.len(),
                decreases neighbors@.len() - k,
            {
                let v = neighbors[k];
                let ghost sofar = found;
                proof {
                    assert(self@[u as int][k as int] < n);
                    assert(neighbors@.take(k + 1).drop_last() =~= neighbors@.take(k as int));
                    assert(neighbors@.take(k + 1).last() == v);
                }
                if !visited[v] {
                    visited[v] = true;
                    queue.push_back(v);
                    proof {
                        found = sofar.push(v);
                        seen = seen.insert(v as int);
                        assert(found =~= visit_order@ + queue@);
                        assert(found.last() == v);
                        assert forall|w: usize| #[trigger] found.contains(w) <==> (sofar.contains(w)
                            || w == v) by {
                            if sofar.contains(w) {
                                let i = choose|i: int| 0 <= i < sofar.len() && sofar[i] == w;
                                assert(found[i] == w);
                            }
                            if found.contains(w) {
                                let i = choose|i: int| 0 <= i < found.len() && found[i] == w;
                                if i < sofar.len() {
                                    assert(sofar[i] == w);
                                }
                            }
                        }
                    }
                }
                k += 1;
            }
            proof {
                assert(neighbors@.take(k as int) =~= neighbors@);
            }
        }
        proof {
            assert(visit_order@ + queue@ =~= visit_order@);
            lemma_bfs_visits_what_is_reachable(self@, start);
        }
        visit_order
    }
}

/// A sequence of distinct numbers below `n` has at most `n` entries.
proof fn lemma_distinct_below(s: Seq<usize>, n: nat)
    requires
        s.no_duplicates(),
        forall|i: int| 0 <= i < s.len() ==> #[trigger] s[i] < n,
    ensures
        s.len() <= n,
    decreases n,
{
    if s.len() > 0 {
        if exists|k: int| 0 <= k < s.len() && s[k] == n - 1 {
            let k = choose|k: int| 0 <= k < s.len() && s[k] == n - 1;
            let rest = s.remove(k);
            assert forall|i: int| 0 <= i < rest.len() implies #[trigger] rest[i] < n - 1 by {
                if i < k {
                    assert(rest[i] == s[i]);
                    assert(s[i] != s[k]);
                } else {
                    assert(rest[i] == s[i + 1]);
                    assert(s[i + 1] != s[k]);
                }
            }
            assert forall|i: int, j: int| 0 <= i < rest.len() && 0 <= j < rest.len() && i
                != j implies rest[i] != rest[j] by {
                let a = if i < k {
                    i
                } else {
                    i + 1
                };
                let b = if j < k {
                    j
                } else {
                    j + 1
                };
                assert(rest[i] == s[a] && rest[j] == s[b]);
            }
            lemma_distinct_below(rest, (n - 1) as nat);
        } else {
            assert(n > 0) by {
                assert(s[0] < n);
            }
            assert forall|i: int| 0 <= i < s.len() implies #[trigger] s[i] < n - 1 by {
                assert(s[i] < n);
            }
            lemma_distinct_below(s, (n - 1) as nat);
        }
    }
}

/// `with_new(order, found)` begins with `order`, holds every vertex of `found`,
/// holds behind `order` vertices of `found` only, and holds none twice if
/// `order` does not.
proof fn lemma_with_new(order: Seq<usize>, found: Seq<usize>)
    ensures
        with_new(order, found).len() >= order.len(),
        forall|i: int| 0 <= i < order.len() ==> #[trigger] with_new(order, found)[i] == order[i],
        forall|k: int| 0 <= k < found.len() ==> with_new(order, found).contains(#[trigger] found[k]),
        forall|j: int|
            order.len() <= j < with_new(order, found).len() ==> found.contains(
                #[trigger] with_new(order, found)[j],
            ),
        order.no_duplicates() ==> with_new(order, found).no_duplicates(),
    decreases found.len(),
{
    if found.len() > 0 {
        let earlier = found.drop_last();
        let before = with_new(order, earlier);
        let after = with_new(order, found);
        let v = found.last();
        lemma_with_new(order, earlier);
        assert forall|k: int| 0 <= k < found.len() implies after.contains(#[trigger] found[k]) by {
            if k < earlier.len() {
                assert(earlier[k] == found[k]);
                assert(before.contains(earlier[k]));
                let at = choose|at: int| 0 <= at < before.len() && before[at] == found[k];
                assert(after[at] == found[k]);
            } else if before.contains(v) {
            } else {
                assert(after[before.len() as int] == v);
            }
        }
        assert forall|j: int| order.len() <= j < after.len() implies found.contains(
            #[trigger] after[j],
        ) by {
            if j < before.len() {
                assert(earlier.contains(before[j]));
                let at = choose|at: int| 0 <= at < earlier.len() && earlier[at] == before[j];
                assert(found[at] == after[j]);
            } else {
                assert(found[found.len() - 1] == after[j]);
            }
        }
    }
}

/// Looking at the neighbours of the vertex at position `at` keeps what holds of
/// a visit in progress.
proof fn lemma_visit_step(adj: Seq<Seq<usize>>, start: usize, order: Seq<usize>, at: int)
    requires
        closed_lists(adj),
        visit_holds(adj, start, order, at),
        at < order.len(),
    ensures
        visit_holds(adj, start, with_new(order, adj[order[at] as int]), at + 1),
{
    let u = order[at];
    let found = adj[u as int];
    let next = with_new(order, found);
    lemma_with_new(order, found);
    assert(next[0] == order[0]);
    assert forall|i: int| 0 <= i < next.len() implies #[trigger] next[i] < adj.len() by {
        if i < order.len() {
            assert(next[i] == order[i]);
        } else {
            assert(found.contains(next[i]));
            let k = choose|k: int| 0 <= k < found.len() && found[k] == next[i];
            assert(adj[u as int][k] < adj.len());
        }
    }
    assert forall|j: int| 0 < j < next.len() implies #[trigger] has_parent(
        adj,
        next,
        at + 1,
        j,
    ) by {
        if j < order.len() {
            assert(has_parent(adj, order, at, j));
            let i = choose|i: int| 0 <= i < j && i < at && #[trigger] adjacent(
                adj,
                order[i],
                order[j],
            );
            assert(next[i] == order[i] && next[j] == order[j]);
            assert(adjacent(adj, next[i], next[j]));
        } else {
            assert(found.contains(next[j]));
            assert(next[at] == order[at]);
            assert(adjacent(adj, next[at], next[j]));
        }
    }
    assert forall|i: int, k: int|
        0 <= i < at + 1 && 0 <= k < adj[next[i] as int].len() implies next.contains(
        #[trigger] adj[next[i] as int][k],
    ) by {
        assert(next[i] == order[i]);
        if i < at {
            let w = adj[order[i] as int][k];
            assert(order.contains(w));
            let m = choose|m: int| 0 <= m < order.len() && order[m] == w;
            assert(next[m] == w);
        } else {
            assert(next.contains(found[k]));
        }
    }
}

/// What holds of a visit in progress holds of the whole visit when it is over.
proof fn lemma_visit_end(adj: Seq<Seq<usize>>, start: usize, order: Seq<usize>, at: int)
    requires
        closed_lists(adj),
        visit_holds(adj, start, order, at),
    ensures
        visit_holds(
            adj,
            start,
            bfs_from(adj, order, at as nat),
            bfs_from(adj, order, at as nat).len() as int,
        ),
    decreases adj.len() - at,
{
    lemma_distinct_below(order, adj.len());
    if at < order.len() {
        lemma_visit_step(adj, start, order, at);
        lemma_visit_end(adj, start, with_new(order, adj[order[at] as int]), at + 1);
    } else {
        assert forall|j: int| 0 < j < order.len() implies #[trigger] has_parent(
            adj,
            order,
            order.len() as int,
            j,
        ) by {
            assert(has_parent(adj, order, at, j));
        }
    }
}

/// Every vertex on a path from `start` is in the order of a finished visit.
proof fn lemma_path_is_visited(
    adj: Seq<Seq<usize>>,
    start: usize,
    order: Seq<usize>,
    path: Seq<usize>,
    i: int,
)
    requires
        visit_holds(adj, start, order, order.len() as int),
        is_path(adj, path),
        path[0] == start,
        0 <= i < path.len(),
    ensures
        order.contains(path[i]),
    decreases i,
{
    if i == 0 {
        assert(order[0] == path[0]);
    } else {
        lemma_path_is_visited(adj, start, order, path, i - 1);
        assert(step_along(adj, path, i - 1));
        let m = choose|m: int| 0 <= m < order.len() && order[m] == path[i - 1];
        let found = adj[order[m] as int];
        let k = choose|k: int| 0 <= k < found.len() && found[k] == path[i];
        assert(order.contains(adj[order[m] as int][k]));
    }
}

/// A path leads from `start` to every vertex in the order of a visit.
proof fn lemma_visited_is_reachable(
    adj: Seq<Seq<usize>>,
    start: usize,
    order: Seq<usize>,
    j: int,
)
    requires
        visit_holds(adj, start, order, order.len() as int),
        0 <= j < order.len(),
    ensures
        reachable(adj, start, order[j]),
    decreases j,
{
    if j == 0 {
        let path = seq![start];
        assert(is_path(adj, path) && path[0] == start && path.last() == order[0]);
    } else {
        assert(has_parent(adj, order, order.len() as int, j));
        let i = choose|i: int| 0 <= i < j && i < order.len() && #[trigger] adjacent(
            adj,
            order[i],
            order[j],
        );
        lemma_visited_is_reachable(adj, start, order, i);
        let to_parent = choose|path: Seq<usize>| #[trigger]
            is_path(adj, path) && path[0] == start && path.last() == order[i];
        let path = to_parent.push(order[j]);
        assert forall|m: int| 0 <= m < path.len() - 1 implies #[trigger] step_along(
            adj,
            path,
            m,
        ) by {
            if m < to_parent.len() - 1 {
                assert(step_along(adj, to_parent, m));
            }
        }
        assert(is_path(adj, path) && path[0] == start && path.last() == order[j]);
    }
}

/// A breadth-first traversal visits `start` first, visits no vertex twice, and
/// visits a vertex if and only if a path leads to it from `start`.
pub proof fn lemma_bfs_visits_what_is_reachable(adj: Seq<Seq<usize>>, start: usize)
    requires
        closed_lists(adj),
        start < adj.len(),
    ensures
        bfs_order(adj, start).len() > 0,
        bfs_order(adj, start)[0] == start,
        bfs_order(adj, start).no_duplicates(),
        forall|v: usize| #[trigger] bfs_order(adj, start).contains(v) <==> reachable(adj, start, v),
{
    let first = seq![start];
    assert(visit_holds(adj, start, first, 0));
    lemma_visit_end(adj, start, first, 0);
    let order = bfs_order(adj, start);
    assert forall|v: usize| #[trigger] order.contains(v) <==> reachable(adj, start, v) by {
        if order.contains(v) {
            let j = choose|j: int| 0 <= j < order.len() && order[j] == v;
            lemma_visited_is_reachable(adj, start, order, j);
        }
        if reachable(adj, start, v) {
            let path = choose|path: Seq<usize>| #[trigger]
                is_path(adj, path) && path[0] == start && path.last() == v;
            lemma_path_is_visited(adj, start, order, path, path.len() - 1);
        }
    }
}

/// The levels of `with_new(order, found)` are those of `order`, and `l` for each
/// vertex that is new.
proof fn lemma_levels_with_new(order: Seq<usize>, lev: Seq<nat>, found: Seq<usize>, l: nat)
    requires
        lev.len() == order.len(),
    ensures
        levels_with_new(order, lev, found, l).len() == with_new(order, found).len(),
        forall|i: int|
            0 <= i < lev.len() ==> #[trigger] levels_with_new(order, lev, found, l)[i] == lev[i],
        forall|i: int|
            lev.len() <= i < levels_with_new(order, lev, found, l).len()
                ==> #[trigger] levels_with_new(order, lev, found, l)[i] == l,
    decreases found.len(),
{
    if found.len() > 0 {
        lemma_levels_with_new(order, lev, found.drop_last(), l);
        lemma_with_new(order, found.drop_last());
    }
}

/// Looking at the neighbours of the vertex at position `at` keeps what holds of
/// the levels.
proof fn lemma_levels_step(
    adj: Seq<Seq<usize>>,
    start: usize,
    order: Seq<usize>,
    lev: Seq<nat>,
    at: int,
)
    requires
        closed_lists(adj),
        visit_holds(adj, start, order, at),
        levels_hold(adj, start, order, lev, at),
        at < order.len(),
    ensures
        levels_hold(
            adj,
            start,
            with_new(order, adj[order[at] as int]),
            levels_with_new(order, lev, adj[order[at] as int], lev[at] + 1),
            at + 1,
        ),
{
    let u = order[at];
    let found = adj[u as int];
    let next = with_new(order, found);
    let l = lev[at] + 1;
    let nlev = levels_with_new(order, lev, found, l);
    lemma_with_new(order, found);
    lemma_levels_with_new(order, lev, found, l);
    lemma_visit_step(adj, start, order, at);
    let old_len = order.len() as int;
    assert(lev[before(at)] <= lev[at]);
    assert forall|k: int| 0 <= k < nlev.len() implies #[trigger] nlev[k] <= l by {
        if k < old_len {
            assert(nlev[k] == lev[k]);
            assert(lev[k] <= lev[before(at)] + 1);
        }
    }
    assert(nlev[at] == lev[at]);
    assert forall|j: int, k: int| 0 <= j <= k < nlev.len() implies #[trigger] nlev[j]
        <= #[trigger] nlev[k] by {
        if k < old_len {
            assert(nlev[j] == lev[j] && nlev[k] == lev[k]);
        } else {
            assert(nlev[k] == l);
        }
    }
    assert forall|k: int| 0 <= k < nlev.len() implies reachable_within(
        adj,
        start,
        #[trigger] next[k],
        nlev[k],
    ) by {
        if k < old_len {
            assert(next[k] == order[k] && nlev[k] == lev[k]);
            assert(reachable_within(adj, start, order[k], lev[k]));
        } else {
            assert(nlev[k] == l);
            assert(found.contains(next[k]));
            assert(reachable_within(adj, start, order[at], lev[at]));
            let to_u = choose|path: Seq<usize>| #[trigger]
                is_path(adj, path) && path[0] == start && path.last() == order[at] && path.len()
                    <= lev[at] + 1;
            let path = to_u.push(next[k]);
            assert forall|m: int| 0 <= m < path.len() - 1 implies #[trigger] step_along(
                adj,
                path,
                m,
            ) by {
                if m < to_u.len() - 1 {
                    assert(step_along(adj, to_u, m));
                }
            }
            assert(is_path(adj, path) && path[0] == start && path.last() == next[k] && path.len()
                <= l + 1);
        }
    }
    assert forall|i: int, m: int|
        0 <= i < at + 1 && 0 <= m < nlev.len() && #[trigger] adjacent(
            adj,
            next[i],
            next[m],
        ) implies nlev[m] <= nlev[i] + 1 by {
        assert(next[i] == order[i] && nlev[i] == lev[i]);
        if i == at {
            assert(nlev[m] <= l);
        } else if m < old_len {
            assert(next[m] == order[m] && nlev[m] == lev[m]);
            assert(adjacent(adj, order[i], order[m]));
        } else {
            let near = adj[order[i] as int];
            let k = choose|k: int| 0 <= k < near.len() && near[k] == next[m];
            assert(order.contains(adj[order[i] as int][k]));
            let again = choose|again: int| 0 <= again < order.len() && order[again] == next[m];
            assert(next[again] == next[m]);
            assert(false);
        }
    }
}

/// What holds of the levels in a visit in progress holds of the whole visit
/// when it is over.
proof fn lemma_levels_end(
    adj: Seq<Seq<usize>>,
    start: usize,
    order: Seq<usize>,
    lev: Seq<nat>,
    at: int,
)
    requires
        closed_lists(adj),
        visit_holds(adj, start, order, at),
        levels_hold(adj, start, order, lev, at),
    ensures
        levels_hold(
            adj,
            start,
            bfs_from(adj, order, at as nat),
            levels_from(adj, order, lev, at as nat),
            bfs_from(adj, order, at as nat).len() as int,
        ),
    decreases adj.len() - at,
{
    lemma_distinct_below(order, adj.len());
    if at < order.len() {
        lemma_visit_step(adj, start, order, at);
        lemma_levels_step(adj, start, order, lev, at);
        lemma_levels_end(
            adj,
            start,
            with_new(order, adj[order[at] as int]),
            levels_with_new(order, lev, adj[order[at] as int], lev[at] + 1),
            at + 1,
        );
    }
}

/// A vertex that a path from `start` reaches after `t` edges stands in the
/// order of a finished visit, at a level of at most `t`.
proof fn lemma_level_bounds_path(
    adj: Seq<Seq<usize>>,
    start: usize,
    order: Seq<usize>,
    lev: Seq<nat>,
    path: Seq<usize>,
    t: int,
) -> (m: int)
    requires
        visit_holds(adj, start, order, order.len() as int),
        levels_hold(adj, start, order, lev, order.len() as int),
        is_path(adj, path),
        path[0] == start,
        0 <= t < path.len(),
    ensures
        0 <= m < order.len(),
        order[m] == path[t],
        lev[m] <= t,
    decreases t,
{
    if t == 0 {
        0
    } else {
        let i = lemma_level_bounds_path(adj, start, order, lev, path, t - 1);
        lemma_path_is_visited(adj, start, order, path, t);
        let m = choose|m: int| 0 <= m < order.len() && order[m] == path[t];
        assert(step_along(adj, path, t - 1));
        assert(adjacent(adj, order[i], order[m]));
        m
    }
}

/// A breadth-first traversal goes level by level: a vertex that is visited
/// before another is at most as many edges away from `start`. Whatever number
/// of edges is enough to reach the later one is enough to reach the earlier.
pub proof fn lemma_bfs_goes_level_by_level(
    adj: Seq<Seq<usize>>,
    start: usize,
    j: int,
    k: int,
    n: nat,
)
    requires
        closed_lists(adj),
        start < adj.len(),
        0 <= j <= k < bfs_order(adj, start).len(),
        reachable_within(adj, start, bfs_order(adj, start)[k], n),
    ensures
        reachable_within(adj, start, bfs_order(adj, start)[j], n),
{
    let first = seq![start];
    let zero = seq![0nat];
    assert(visit_holds(adj, start, first, 0));
    assert(levels_hold(adj, start, first, zero, 0)) by {
        assert(is_path(adj, first) && first[0] == start && first.last() == start && first.len()
            <= 1);
        assert(reachable_within(adj, start, first[0], 0));
    }
    lemma_visit_end(adj, start, first, 0);
    lemma_levels_end(adj, start, first, zero, 0);
    let order = bfs_order(adj, start);
    let lev = levels_from(adj, first, zero, 0);
    let far = choose|path: Seq<usize>| #[trigger]
        is_path(adj, path) && path[0] == start && path.last() == order[k] && path.len() <= n + 1;
    let m = lemma_level_bounds_path(adj, start, order, lev, far, far.len() - 1);
    assert(m == k);
    assert(lev[j] <= lev[k]);
    assert(reachable_within(adj, start, order[j], lev[j]));
    let near = choose|path: Seq<usize>| #[trigger]
        is_path(adj, path) && path[0] == start && path.last() == order[j] && path.len() <= lev[j]
            + 1;
    assert(is_path(adj, near) && near[0] == start && near.last() == order[j] && near.len() <= n
        + 1);
}

} // verus!
