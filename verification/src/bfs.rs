//! Breadth-first traversal of a graph held as adjacency lists.
//!
//! Edges are directed. An edge that runs both ways is two edges, one each
//! way: [`add_edges`] builds a graph in that manner.

use std::collections::VecDeque;
use vstd::prelude::*;
use crate::error::{same_outcome, GraphError};
use crate::reach::{
    check_adjacency, edge, flagged, lemma_contains_push, lemma_flagged_set, lemma_reach_in_step,
    lemma_unseen_insert, listed, lists, reach_in, reach_within, reaches, unseen, valid_adjacency,
};

verus! {

/// The queue history `order` after the neighbours `nbrs` have been looked at
/// in turn: each that is not yet in the history is put at its end.
pub open spec fn enqueue(order: Seq<usize>, nbrs: Seq<usize>) -> Seq<usize>
    decreases nbrs.len(),
{
    if nbrs.len() == 0 {
        order
    } else {
        let before = enqueue(order, nbrs.drop_last());
        if before.contains(nbrs.last()) {
            before
        } else {
            before.push(nbrs.last())
        }
    }
}

/// Looking at neighbours that are vertices of the graph trades each unseen
/// vertex for an entry of the history.
pub proof fn lemma_enqueue_count(n: nat, order: Seq<usize>, nbrs: Seq<usize>)
    requires
        forall|i: int| 0 <= i < nbrs.len() ==> (#[trigger] nbrs[i]) < n,
    ensures
        unseen(n, listed(enqueue(order, nbrs))) + enqueue(order, nbrs).len() == unseen(
            n,
            listed(order),
        ) + order.len(),
    decreases nbrs.len(),
{
    if nbrs.len() > 0 {
        let rest = nbrs.drop_last();
        assert forall|i: int| 0 <= i < rest.len() implies (#[trigger] rest[i]) < n by {
            assert(rest[i] == nbrs[i]);
        }
        lemma_enqueue_count(n, order, rest);
        let before = enqueue(order, rest);
        let x = nbrs.last();
        assert(nbrs[nbrs.len() - 1] < n);
        if !before.contains(x) {
            assert forall|y: usize| listed(before.push(x)).contains(y) == listed(before).insert(
                x,
            ).contains(y) by {
                lemma_contains_push(before, x, y);
            }
            assert(listed(before.push(x)) =~= listed(before).insert(x));
            lemma_unseen_insert(n, listed(before), x);
        }
    }
}

/// The order in which a breadth-first traversal visits the vertices, when
/// `order` is the history of its queue so far and the entries before `head`
/// have been taken out: the neighbours of the entry at `head` are looked at,
/// then the traversal goes on with the next entry, until none is left.
pub open spec fn bfs_from(adj: Seq<Seq<usize>>, order: Seq<usize>, head: nat) -> Seq<usize>
    decreases unseen(adj.len(), listed(order)) + order.len() - head,
{
    if head < order.len() && order[head as int] < adj.len() && valid_adjacency(adj) {
        proof {
            lemma_enqueue_count(adj.len(), order, adj[order[head as int] as int]);
        }
        bfs_from(adj, enqueue(order, adj[order[head as int] as int]), head + 1)
    } else {
        order
    }
}

/// The vertices that a breadth-first traversal from `start` visits, in the
/// order in which it visits them.
pub open spec fn bfs_order(adj: Seq<Seq<usize>>, start: usize) -> Seq<usize> {
    bfs_from(adj, seq![start], 0)
}

/// No entry comes before an entry that is nearer to `start`: whenever an
/// entry is within `k` edges of `start`, so is every entry before it.
pub open spec fn by_distance(adj: Seq<Seq<usize>>, start: usize, order: Seq<usize>) -> bool {
    forall|i: int, j: int, k: nat|
        0 <= i <= j < order.len() && #[trigger] reach_within(adj, start, order[j], k)
            ==> #[trigger] reach_within(adj, start, order[i], k)
}

/// The levels that belong to the history after the neighbours `nbrs` have
/// been looked at: `level` for each entry that was put at the end.
spec fn lifted(order: Seq<usize>, lev: Seq<nat>, nbrs: Seq<usize>, level: nat) -> Seq<nat>
    decreases nbrs.len(),
{
    if nbrs.len() == 0 {
        lev
    } else {
        let before = enqueue(order, nbrs.drop_last());
        let levels = lifted(order, lev, nbrs.drop_last(), level);
        if before.contains(nbrs.last()) {
            levels
        } else {
            levels.push(level)
        }
    }
}

/// `y` stands in `order` at a level of at most `bound`.
spec fn near(order: Seq<usize>, lev: Seq<nat>, y: usize, bound: nat) -> bool {
    exists|i: int| 0 <= i < order.len() && #[trigger] order[i] == y && lev[i] <= bound
}

/// What holds of the history of the queue and the levels of its entries
/// while the traversal runs.
spec fn levels_ok(
    adj: Seq<Seq<usize>>,
    start: usize,
    order: Seq<usize>,
    head: int,
    lev: Seq<nat>,
) -> bool {
    &&& order.len() == lev.len()
    &&& order.len() > 0
    &&& 0 <= head <= order.len()
    &&& order[0] == start
    &&& lev[0] == 0
    &&& order.no_duplicates()
    &&& forall|i: int| 0 <= i < order.len() ==> (#[trigger] order[i]) < adj.len()
    &&& forall|i: int| 0 <= i < order.len() ==> reach_in(adj, start, #[trigger] order[i], lev[i])
    &&& forall|i: int, j: int| 0 <= i <= j < lev.len() ==> #[trigger] lev[i] <= #[trigger] lev[j]
    &&& head < order.len() ==> lev[lev.len() - 1] <= lev[head] + 1
    &&& forall|j: int, y: usize|
        0 <= j < head && #[trigger] edge(adj, order[j], y) ==> near(order, lev, y, lev[j] + 1)
}

/// What looking at neighbours does to the history and its levels.
proof fn lemma_enqueue_facts(order: Seq<usize>, lev: Seq<nat>, nbrs: Seq<usize>, level: nat)
    requires
        order.len() == lev.len(),
        order.no_duplicates(),
    ensures
        enqueue(order, nbrs).len() == lifted(order, lev, nbrs, level).len(),
        enqueue(order, nbrs).len() >= order.len(),
        enqueue(order, nbrs).no_duplicates(),
        forall|i: int|
            0 <= i < order.len() ==> (#[trigger] enqueue(order, nbrs)[i]) == order[i] && lifted(
                order,
                lev,
                nbrs,
                level,
            )[i] == lev[i],
        forall|i: int|
            order.len() <= i < enqueue(order, nbrs).len() ==> nbrs.contains(
                #[trigger] enqueue(order, nbrs)[i],
            ) && lifted(order, lev, nbrs, level)[i] == level,
        forall|y: usize| nbrs.contains(y) ==> #[trigger] enqueue(order, nbrs).contains(y),
    decreases nbrs.len(),
{
    if nbrs.len() > 0 {
        let rest = nbrs.drop_last();
        let x = nbrs.last();
        lemma_enqueue_facts(order, lev, rest, level);
        let before = enqueue(order, rest);
        let levels = lifted(order, lev, rest, level);
        let after = enqueue(order, nbrs);
        let lifted_after = lifted(order, lev, nbrs, level);
        assert forall|i: int| 0 <= i < order.len() implies (#[trigger] after[i]) == order[i]
            && lifted_after[i] == lev[i] by {
            assert(before[i] == order[i]);
        }
        assert forall|i: int| order.len() <= i < after.len() implies nbrs.contains(
            #[trigger] after[i],
        ) && lifted_after[i] == level by {
            if i < before.len() {
                assert(rest.contains(before[i]));
                let k = choose|k: int| 0 <= k < rest.len() && rest[k] == before[i];
                assert(nbrs[k] == before[i]);
            } else {
                assert(nbrs[nbrs.len() - 1] == x);
            }
        }
        assert forall|y: usize| nbrs.contains(y) implies #[trigger] after.contains(y) by {
            let k = choose|k: int| 0 <= k < nbrs.len() && nbrs[k] == y;
            lemma_contains_push(before, x, y);
            if k < rest.len() {
                assert(rest[k] == y);
                assert(rest.contains(y));
            }
        }
        if !before.contains(x) {
            assert forall|i: int, j: int|
                0 <= i < after.len() && 0 <= j < after.len() && i != j implies after[i]
                != after[j] by {
                if i < before.len() {
                    assert(before.contains(before[i]));
                }
                if j < before.len() {
                    assert(before.contains(before[j]));
                }
            }
        }
    }
}

/// Looking at the neighbours of the entry at `head` keeps the history and
/// its levels in order.
proof fn lemma_levels_step(
    adj: Seq<Seq<usize>>,
    start: usize,
    order: Seq<usize>,
    head: int,
    lev: Seq<nat>,
)
    requires
        valid_adjacency(adj),
        levels_ok(adj, start, order, head, lev),
        head < order.len(),
    ensures
        levels_ok(
            adj,
            start,
            enqueue(order, adj[order[head] as int]),
            head + 1,
            lifted(order, lev, adj[order[head] as int], lev[head] + 1),
        ),
{
    let u = order[head];
    let nbrs = adj[u as int];
    let level = lev[head] + 1;
    let after = enqueue(order, nbrs);
    let lv = lifted(order, lev, nbrs, level);
    lemma_enqueue_facts(order, lev, nbrs, level);
    assert(after[0] == order[0]);
    assert forall|i: int| 0 <= i < after.len() implies (#[trigger] after[i]) < adj.len()
        && reach_in(adj, start, after[i], lv[i]) by {
        if i < order.len() {
            assert(after[i] == order[i]);
        } else {
            assert(nbrs.contains(after[i]));
            let k = choose|k: int| 0 <= k < nbrs.len() && nbrs[k] == after[i];
            assert(adj[u as int][k] < adj.len());
            assert(edge(adj, u, after[i]));
            lemma_reach_in_step(adj, start, u, after[i], lev[head]);
        }
    }
    assert forall|i: int, j: int| 0 <= i <= j < lv.len() implies #[trigger] lv[i]
        <= #[trigger] lv[j] by {
        if j < order.len() {
            assert(after[i] == order[i]);
            assert(after[j] == order[j]);
            assert(lev[i] <= lev[j]);
        } else {
            assert(nbrs.contains(after[j]));
            if i < order.len() {
                assert(after[i] == order[i]);
                assert(lev[i] <= lev[lev.len() - 1]);
            } else {
                assert(nbrs.contains(after[i]));
            }
        }
    }
    if head + 1 < after.len() {
        let last = lv.len() - 1;
        assert(lv[head] <= lv[head + 1]);
        assert(after[head] == order[head]);
        if last < order.len() {
            assert(after[last] == order[last]);
        } else {
            assert(nbrs.contains(after[last]));
        }
    }
    assert forall|j: int, y: usize|
        0 <= j < head + 1 && #[trigger] edge(adj, after[j], y) implies near(
        after,
        lv,
        y,
        lv[j] + 1,
    ) by {
        assert(after[j] == order[j]);
        if j < head {
            assert(near(order, lev, y, lev[j] + 1));
            let i = choose|i: int|
                0 <= i < order.len() && #[trigger] order[i] == y && lev[i] <= lev[j] + 1;
            assert(after[i] == y);
        } else {
            assert(nbrs.contains(y));
            assert(after.contains(y));
            let i = choose|i: int| 0 <= i < after.len() && after[i] == y;
            if i < order.len() {
                assert(after[i] == order[i]);
                assert(lev[i] <= lev[lev.len() - 1]);
            } else {
                assert(nbrs.contains(after[i]));
            }
            assert(after[i] == y && lv[i] <= lv[j] + 1);
        }
    }
}

/// Once every entry has been taken out, whatever is within `k` edges of
/// `start` stands in the history at a level of at most `k`.
proof fn lemma_found(
    adj: Seq<Seq<usize>>,
    start: usize,
    order: Seq<usize>,
    lev: Seq<nat>,
    x: usize,
    k: nat,
)
    requires
        levels_ok(adj, start, order, order.len() as int, lev),
        reach_in(adj, start, x, k),
    ensures
        near(order, lev, x, k),
    decreases k,
{
    if k == 0 {
        assert(order[0] == x);
    } else {
        let m = choose|m: usize|
            reach_in(adj, start, m, (k - 1) as nat) && #[trigger] edge(adj, m, x);
        lemma_found(adj, start, order, lev, m, (k - 1) as nat);
        let j = choose|j: int| 0 <= j < order.len() && #[trigger] order[j] == m && lev[j] <= k - 1;
        assert(edge(adj, order[j], x));
        assert(near(order, lev, x, lev[j] + 1));
        let i = choose|i: int|
            0 <= i < order.len() && #[trigger] order[i] == x && lev[i] <= lev[j] + 1;
        assert(order[i] == x && lev[i] <= k);
    }
}

/// What holds of the order in which a breadth-first traversal from `start`
/// visits the vertices.
pub open spec fn bfs_facts(adj: Seq<Seq<usize>>, start: usize, order: Seq<usize>) -> bool {
    &&& order.len() > 0
    &&& order[0] == start
    &&& order.no_duplicates()
    &&& forall|x: usize| #[trigger] order.contains(x) <==> reaches(adj, start, x)
    &&& by_distance(adj, start, order)
}

/// Once every entry has been taken out, the history is the order of the
/// traversal, and has all that holds of it.
proof fn lemma_levels_complete(adj: Seq<Seq<usize>>, start: usize, order: Seq<usize>, lev: Seq<nat>)
    requires
        levels_ok(adj, start, order, order.len() as int, lev),
    ensures
        bfs_facts(adj, start, order),
{
    assert forall|x: usize| #[trigger] order.contains(x) <==> reaches(adj, start, x) by {
        if order.contains(x) {
            let i = choose|i: int| 0 <= i < order.len() && order[i] == x;
            assert(reach_in(adj, start, order[i], lev[i]));
        }
        if reaches(adj, start, x) {
            let k = choose|k: nat| reach_in(adj, start, x, k);
            lemma_found(adj, start, order, lev, x, k);
            let i = choose|i: int| 0 <= i < order.len() && #[trigger] order[i] == x && lev[i] <= k;
            assert(order[i] == x);
        }
    }
    assert forall|i: int, j: int, k: nat|
        0 <= i <= j < order.len() && #[trigger] reach_within(
            adj,
            start,
            order[j],
            k,
        ) implies #[trigger] reach_within(adj, start, order[i], k) by {
        let steps = choose|steps: nat| steps <= k && reach_in(adj, start, order[j], steps);
        lemma_found(adj, start, order, lev, order[j], steps);
        let at = choose|at: int|
            0 <= at < order.len() && #[trigger] order[at] == order[j] && lev[at] <= steps;
        assert(at == j);
        assert(lev[i] <= lev[j]);
        assert(reach_in(adj, start, order[i], lev[i]));
    }
}

/// A traversal that goes on from a history in order ends with all that holds
/// of the order of a breadth-first traversal.
proof fn lemma_bfs_from(
    adj: Seq<Seq<usize>>,
    start: usize,
    order: Seq<usize>,
    head: nat,
    lev: Seq<nat>,
)
    requires
        valid_adjacency(adj),
        levels_ok(adj, start, order, head as int, lev),
    ensures
        bfs_facts(adj, start, bfs_from(adj, order, head)),
    decreases unseen(adj.len(), listed(order)) + order.len() - head,
{
    if head < order.len() {
        let u = order[head as int];
        assert(u < adj.len());
        lemma_enqueue_count(adj.len(), order, adj[u as int]);
        lemma_levels_step(adj, start, order, head as int, lev);
        lemma_bfs_from(
            adj,
            start,
            enqueue(order, adj[u as int]),
            head + 1,
            lifted(order, lev, adj[u as int], lev[head as int] + 1),
        );
    } else {
        lemma_levels_complete(adj, start, order, lev);
    }
}

/// A breadth-first traversal from `start` visits `start` first, visits
/// exactly the vertices that `start` reaches, each once, and none before a
/// vertex that is nearer to `start`.
pub proof fn lemma_bfs_order(adj: Seq<Seq<usize>>, start: usize)
    requires
        valid_adjacency(adj),
        start < adj.len(),
    ensures
        bfs_facts(adj, start, bfs_order(adj, start)),
{
    let order = seq![start];
    let lev = seq![0nat];
    assert(reach_in(adj, start, start, 0));
    assert(levels_ok(adj, start, order, 0, lev));
    lemma_bfs_from(adj, start, order, 0, lev);
}

/// A directed graph held as adjacency lists.
pub struct Graph {
    /// For each vertex, its neighbours in the order in which the edges were
    /// added.
    pub edges: Vec<Vec<usize>>,
    /// The number of vertices.
    pub vertices: usize,
}

impl Graph {
    /// The adjacency lists of the graph.
    pub open spec fn view(&self) -> Seq<Seq<usize>> {
        lists(&self.edges)
    }

    /// There is one list for each vertex, and every neighbour named is a
    /// vertex of the graph.
    pub open spec fn wf(&self) -> bool {
        &&& self@.len() == self.vertices
        &&& valid_adjacency(self@)
    }

    /// A graph with `vertices` vertices and no edges.
    pub fn new(vertices: usize) -> (g: Graph)
        ensures
            g.wf(),
            g.vertices == vertices,
            g@ == Seq::new(vertices as nat, |i: int| Seq::<usize>::empty()),
    {
        let mut edges: Vec<Vec<usize>> = Vec::new();
        while edges.len() < vertices
            invariant
                edges.len() <= vertices,
                forall|k: int| 0 <= k < edges.len() ==> (#[trigger] edges[k])@.len() == 0,
            decreases vertices - edges.len(),
        {
            edges.push(Vec::new());
        }
        let g = Graph { edges, vertices };
        proof {
            assert forall|k: int| 0 <= k < g@.len() implies #[trigger] g@[k]
                == Seq::<usize>::empty() by {
                assert(g.edges[k]@ =~= Seq::<usize>::empty());
            }
            assert(g@ =~= Seq::new(vertices as nat, |i: int| Seq::<usize>::empty()));
        }
        g
    }

    /// Adds the edge from `u` to `v`, behind the edges that `u` has already:
    /// one entry, in the list of `u`, and no other list changes. An endpoint
    /// that is no vertex of the graph is rejected, and the graph stays as it
    /// is.
    pub fn add_edge(&mut self, u: usize, v: usize) -> (r: Result<(), GraphError>)
        ensures
            final(self).vertices == old(self).vertices,
            match r {
                Ok(_) => {
                    &&& u < old(self).vertices
                    &&& v < old(self).vertices
                    &&& old(self)@.len() == old(self).vertices
                    &&& final(self)@ == old(self)@.update(u as int, old(self)@[u as int].push(v))
                },
                Err(e) => {
                    &&& e == GraphError::InvalidVertexIndex
                    &&& !(u < old(self).vertices && v < old(self).vertices && old(self)@.len()
                        == old(self).vertices)
                    &&& final(self)@ == old(self)@
                },
            },
            old(self).wf() ==> final(self).wf(),
    {
        if u >= self.vertices || v >= self.vertices || self.edges.len() != self.vertices {
            return Err(GraphError::InvalidVertexIndex);
        }
        let ghost before = self@;
        self.edges[u].push(v);
        proof {
            assert(self@ =~= before.update(u as int, before[u as int].push(v)));
            if old(self).wf() {
                lemma_valid_after_push(before, u, v);
            }
        }
        Ok(())
    }

    /// What [`Graph::b_fs`] returns: for a well-formed graph and a `start`
    /// that is a vertex of it, the order of the breadth-first traversal from
    /// `start`, which lists exactly the vertices that `start` reaches, each
    /// once, and none before a vertex that is nearer to `start`; an error
    /// otherwise.
    pub open spec fn b_fs_spec(&self, start: usize, r: Result<Vec<usize>, GraphError>) -> bool {
        match r {
            Ok(order) => {
                &&& self.wf()
                &&& start < self.vertices
                &&& order@ == bfs_order(self@, start)
                &&& bfs_facts(self@, start, order@)
            },
            Err(e) => {
                &&& e == GraphError::InvalidVertexIndex
                &&& !(self.wf() && start < self.vertices)
            },
        }
    }

    /// The vertices that a breadth-first traversal from `start` visits, in
    /// the order in which it visits them: `start` first, then level by
    /// level, the neighbours of a vertex in the order of its list.
    ///
    /// A `start` that is no vertex of the graph is rejected, and so is a
    /// graph whose lists do not fit its number of vertices.
    pub fn b_fs(&self, start: usize) -> (r: Result<Vec<usize>, GraphError>)
        ensures
            self.b_fs_spec(start, r),
    {
        let n = self.vertices;
        if self.edges.len() != n || start >= n || !check_adjacency(&self.edges) {
            return Err(GraphError::InvalidVertexIndex);
        }
        let ghost g = self@;
        let mut visited: Vec<bool> = vec![false; n];
        let mut queue: VecDeque<usize> = VecDeque::new();
        let mut result: Vec<usize> = Vec::new();
        visited[start] = true;
        queue.push_back(start);
        let ghost mut order: Seq<usize> = seq![start];
        proof {
            assert(queue@ =~= seq![start]);
            assert(result@ + queue@ =~= order);
            assert(seq![start][0] == start);
            assert(flagged(visited@) =~= listed(order));
            lemma_bfs_order(g, start);
        }
        loop
            invariant
                n == self.vertices,
                g == lists(&self.edges),
                valid_adjacency(g),
                g.len() == n,
                visited.len() == n,
                result@ + queue@ == order,
                flagged(visited@) == listed(order),
                forall|k: int| 0 <= k < order.len() ==> (#[trigger] order[k]) < n,
                bfs_from(g, order, result@.len()) == bfs_order(g, start),
            ensures
                result@ == bfs_order(g, start),
            decreases unseen(n as nat, flagged(visited@)) + queue@.len(),
        {
            let ghost head = result@.len();
            let ghost base = order;
            let ghost waiting = queue@;
            let ghost budget = unseen(n as nat, flagged(visited@)) + queue@.len();
            let u = match queue.pop_front() {
                Some(u) => u,
                None => {
                    assert(result@ =~= order);
                    break ;
                },
            };
            result.push(u);
            proof {
                assert(order[head as int] == waiting[0]);
                assert(result@ + queue@ =~= order);
                assert(u < n);
            }
            let row = &self.edges[u];
            let mut i: usize = 0;
            assert(row@.take(0) =~= Seq::empty());
            while i < row.len()
                invariant
                    n == self.vertices,
                    g == lists(&self.edges),
                    valid_adjacency(g),
                    g.len() == n,
                    u < n,
                    row@ == g[u as int],
                    i <= row.len(),
                    visited.len() == n,
                    head < base.len(),
                    base[head as int] == u,
                    bfs_from(g, base, head) == bfs_order(g, start),
                    result@.len() == head + 1,
                    result@ + queue@ == order,
                    flagged(visited@) == listed(order),
                    forall|k: int| 0 <= k < order.len() ==> (#[trigger] order[k]) < n,
                    order == enqueue(base, row@.take(i as int)),
                    unseen(n as nat, flagged(visited@)) + queue@.len() + 1 == budget,
                decreases row.len() - i,
            {
                let v = row[i];
                proof {
                    assert(g[u as int][i as int] < n);
                    assert(row@.take(i + 1).drop_last() =~= row@.take(i as int));
                    assert(row@.take(i + 1).last() == v);
                }
                if !visited[v] {
                    proof {
                        assert(!listed(order).contains(v));
                        lemma_flagged_set(visited@, v);
                        lemma_unseen_insert(n as nat, flagged(visited@), v);
                        assert forall|y: usize| listed(order.push(v)).contains(y) == listed(
                            order,
                        ).insert(v).contains(y) by {
                            lemma_contains_push(order, v, y);
                        }
                        assert(listed(order.push(v)) =~= listed(order).insert(v));
                    }
                    visited[v] = true;
                    queue.push_back(v);
                    proof {
                        let grown = order.push(v);
                        assert(result@ + queue@ =~= grown);
                        order = grown;
                    }
                } else {
                    proof {
                        assert(listed(order).contains(v));
                    }
                }
                i += 1;
            }
            proof {
                assert(row@.take(row@.len() as int) =~= row@);
                let after = enqueue(base, g[u as int]);
                assert(bfs_from(g, base, head) == bfs_from(g, after, head + 1));
            }
        }
        Ok(result)
    }
}

/// The adjacency lists `g` with one more edge from `u` to `v`, behind the
/// edges that `u` has already.
pub open spec fn with_edge(g: Seq<Seq<usize>>, u: usize, v: usize) -> Seq<Seq<usize>> {
    g.update(u as int, g[u as int].push(v))
}

/// Appending a vertex of the graph to a list leaves every neighbour named a
/// vertex of the graph.
proof fn lemma_valid_after_push(g: Seq<Seq<usize>>, u: usize, v: usize)
    requires
        valid_adjacency(g),
        u < g.len(),
        v < g.len(),
    ensures
        valid_adjacency(g.update(u as int, g[u as int].push(v))),
{
    let after = g.update(u as int, g[u as int].push(v));
    assert forall|a: int, i: int| 0 <= a < after.len() && 0 <= i < after[a].len() implies (
    #[trigger] after[a][i]) < after.len() by {
        if a == u && i == g[u as int].len() {
        } else {
            assert(after[a][i] == g[a][i]);
        }
    }
}

/// Every pair joins two of the vertices `0 .. n`.
pub open spec fn pairs_valid(n: nat, pairs: Seq<(usize, usize)>) -> bool {
    forall|i: int| 0 <= i < pairs.len() ==> (#[trigger] pairs[i]).0 < n && pairs[i].1 < n
}

/// The adjacency lists of the graph with `n` vertices that is built from
/// `pairs`: for each pair in turn, an edge from its first vertex to its
/// second, then one back.
pub open spec fn built(n: nat, pairs: Seq<(usize, usize)>) -> Seq<Seq<usize>>
    decreases pairs.len(),
{
    if pairs.len() == 0 {
        Seq::new(n, |i: int| Seq::<usize>::empty())
    } else {
        with_edge(
            with_edge(built(n, pairs.drop_last()), pairs.last().0, pairs.last().1),
            pairs.last().1,
            pairs.last().0,
        )
    }
}

/// Builds the graph with `vertices` vertices in which every pair of `pairs`
/// is joined both ways: for each pair in turn, an edge from its first vertex
/// to its second, then one back. A pair that names a vertex which the graph
/// does not have is rejected.
pub fn add_edges(vertices: usize, pairs: &Vec<(usize, usize)>) -> (r: Result<Graph, GraphError>)
    ensures
        match r {
            Ok(g) => {
                &&& pairs_valid(vertices as nat, pairs@)
                &&& g.wf()
                &&& g.vertices == vertices
                &&& g@ == built(vertices as nat, pairs@)
            },
            Err(e) => e == GraphError::InvalidVertexIndex && !pairs_valid(vertices as nat, pairs@),
        },
{
    let mut g = Graph::new(vertices);
    let mut i: usize = 0;
    assert(pairs@.take(0) =~= Seq::empty());
    while i < pairs.len()
        invariant
            i <= pairs.len(),
            g.wf(),
            g.vertices == vertices,
            pairs_valid(vertices as nat, pairs@.take(i as int)),
            g@ == built(vertices as nat, pairs@.take(i as int)),
        decreases pairs.len() - i,
    {
        let (s, d) = pairs[i];
        proof {
            assert(pairs@.take(i + 1).drop_last() =~= pairs@.take(i as int));
            assert(pairs@.take(i + 1).last() == pairs@[i as int]);
        }
        if g.add_edge(s, d).is_err() {
            return Err(GraphError::InvalidVertexIndex);
        }
        if g.add_edge(d, s).is_err() {
            return Err(GraphError::InvalidVertexIndex);
        }
        proof {
            let upto = pairs@.take(i + 1);
            assert forall|k: int| 0 <= k < upto.len() implies (#[trigger] upto[k]).0 < vertices
                && upto[k].1 < vertices by {
                if k < i {
                    assert(pairs@.take(i as int)[k] == upto[k]);
                }
            }
        }
        i += 1;
    }
    assert(pairs@.take(pairs@.len() as int) =~= pairs@);
    Ok(g)
}

/// What [`bfs`] returns: where every pair and `start` name vertices of the
/// graph, the order of the breadth-first traversal from `start` of the graph
/// built from `pairs`; an error otherwise.
pub open spec fn bfs_spec(
    vertices: usize,
    pairs: Seq<(usize, usize)>,
    start: usize,
    r: Result<Vec<usize>, GraphError>,
) -> bool {
    match r {
        Ok(order) => {
            &&& pairs_valid(vertices as nat, pairs)
            &&& start < vertices
            &&& order@ == bfs_order(built(vertices as nat, pairs), start)
            &&& bfs_facts(built(vertices as nat, pairs), start, order@)
        },
        Err(e) => e == GraphError::InvalidVertexIndex && !(pairs_valid(vertices as nat, pairs)
            && start < vertices),
    }
}

/// The order in which a breadth-first traversal from `start` visits the
/// graph with `vertices` vertices that is built from `pairs` as by
/// [`add_edges`]. A pair or a `start` that names a vertex which the graph
/// does not have is rejected.
pub fn bfs(vertices: usize, pairs: &Vec<(usize, usize)>, start: usize) -> (r: Result<
    Vec<usize>,
    GraphError,
>)
    ensures
        bfs_spec(vertices, pairs@, start, r),
{
    match add_edges(vertices, pairs) {
        Ok(g) => g.b_fs(start),
        Err(e) => Err(e),
    }
}

/// Two breadth-first traversals of the same graph from the same vertex end
/// alike: both are rejected, or both visit the same vertices in the same
/// order.
pub proof fn lemma_b_fs_deterministic(
    g1: Graph,
    g2: Graph,
    start: usize,
    r1: Result<Vec<usize>, GraphError>,
    r2: Result<Vec<usize>, GraphError>,
)
    requires
        g1@ == g2@,
        g1.vertices == g2.vertices,
        g1.b_fs_spec(start, r1),
        g2.b_fs_spec(start, r2),
    ensures
        same_outcome(r1, r2),
{
}

/// Building a graph twice from the same pairs and traversing it breadth-first
/// from the same vertex ends alike both times.
pub proof fn lemma_bfs_idempotent(
    vertices: usize,
    pairs: Seq<(usize, usize)>,
    start: usize,
    r1: Result<Vec<usize>, GraphError>,
    r2: Result<Vec<usize>, GraphError>,
)
    requires
        bfs_spec(vertices, pairs, start, r1),
        bfs_spec(vertices, pairs, start, r2),
    ensures
        same_outcome(r1, r2),
{
}

} // verus!
