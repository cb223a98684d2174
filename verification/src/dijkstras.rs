//! Shortest distances from one vertex by Dijkstra's algorithm, on a graph with
//! weighted directed edges.
//!
//! An edge that runs both ways is two edges, one each way: [`dijkstras`]
//! builds a graph in that manner.

use vstd::multiset::Multiset;
use vstd::prelude::*;
use crate::error::{same_outcome, GraphError};
use crate::frontier::{no_later, Frontier, Node};
use crate::reach::{flagged, lemma_flagged_set, lemma_unseen_insert, unseen};
use crate::weighted::{
    least_weights, lemma_walk_self, lemma_walk_step, walk, walk_in, INFINITY,
};

verus! {

/// The adjacency lists held by `adj`, one sequence of entries per vertex.
pub open spec fn rows(adj: &Vec<Vec<Node>>) -> Seq<Seq<Node>> {
    adj@.map_values(|row: Vec<Node>| row@)
}

/// The arcs of the graph with the adjacency lists `g`: one from `u` to
/// `e.vertex` of weight `e.dist` for each entry `e` in the list of `u`.
pub open spec fn arcs_of(g: Seq<Seq<Node>>) -> Set<(usize, usize, i32)> {
    Set::new(
        |t: (usize, usize, i32)|
            t.0 < g.len() && g[t.0 as int].contains(Node { vertex: t.1, dist: t.2 }),
    )
}

/// Every entry of `g` names a vertex of the graph.
pub open spec fn targets_valid(g: Seq<Seq<Node>>) -> bool {
    forall|u: int, i: int|
        0 <= u < g.len() && 0 <= i < g[u].len() ==> (#[trigger] g[u][i]).vertex < g.len()
}

/// No entry of `g` has a negative weight.
pub open spec fn weights_nonnegative(g: Seq<Seq<Node>>) -> bool {
    forall|u: int, i: int| 0 <= u < g.len() && 0 <= i < g[u].len()
        ==> (#[trigger] g[u][i]).dist >= 0
}

/// The entry of `q` that is taken out first: the nearest, and among the
/// nearest the one of the least vertex.
pub open spec fn soonest(q: Multiset<Node>) -> Node {
    choose|x: Node| q.contains(x) && forall|y: Node| #[trigger] q.contains(y) ==> no_later(x, y)
}

/// The distances and the frontier after the arc `e` out of `u` has been
/// relaxed: where the way over `u` is shorter than what is known for the end
/// of the arc, the end gets the shorter distance and an entry in the
/// frontier. There are none if that distance is below the least `i32`.
pub open spec fn relax_edge(dist: Seq<i32>, q: Multiset<Node>, u: usize, e: Node) -> Option<
    (Seq<i32>, Multiset<Node>),
> {
    let near = dist[u as int] + e.dist;
    if near < dist[e.vertex as int] {
        if near < i32::MIN {
            None
        } else {
            Some(
                (
                    dist.update(e.vertex as int, near as i32),
                    q.insert(Node { vertex: e.vertex, dist: near as i32 }),
                ),
            )
        }
    } else {
        Some((dist, q))
    }
}

/// The distances and the frontier after the arcs `row` out of `u` have been
/// relaxed in their order.
pub open spec fn relax_row(dist: Seq<i32>, q: Multiset<Node>, u: usize, row: Seq<Node>) -> Option<
    (Seq<i32>, Multiset<Node>),
>
    decreases row.len(),
{
    if row.len() == 0 {
        Some((dist, q))
    } else {
        match relax_row(dist, q, u, row.drop_last()) {
            Some((d, f)) => relax_edge(d, f, u, row.last()),
            None => None,
        }
    }
}

/// Taking out an entry that is there leaves one entry less.
pub proof fn lemma_remove_len(q: Multiset<Node>, x: Node)
    requires
        q.contains(x),
    ensures
        q.remove(x).len() + 1 == q.len(),
{
    let one = Multiset::singleton(x);
    assert forall|v: Node| one.count(v) <= q.count(v) by {
        if v != x {
            assert(one.count(v) == 0);
        }
    }
    assert(one.subset_of(q));
}

/// What the algorithm ends with when it goes on from the distances `dist`,
/// the processed vertices `done` and the frontier `q`: the entry that comes
/// soonest is taken out; if its vertex is not yet processed, the arcs out of
/// it are relaxed and it is processed; and so on until the frontier is
/// empty. (A frontier whose soonest entry names no vertex ends the run as
/// well: the algorithm never makes one.)
pub open spec fn run(
    g: Seq<Seq<Node>>,
    dist: Seq<i32>,
    done: Seq<bool>,
    q: Multiset<Node>,
) -> Result<Seq<i32>, GraphError>
    decreases unseen(g.len(), flagged(done)), q.len(),
{
    let node = soonest(q);
    if q.len() == 0 || !q.contains(node) || node.vertex >= g.len() || done.len() != g.len() {
        Ok(dist)
    } else if done[node.vertex as int] {
        proof {
            lemma_remove_len(q, node);
        }
        run(g, dist, done, q.remove(node))
    } else {
        proof {
            lemma_flagged_set(done, node.vertex);
            lemma_unseen_insert(g.len(), flagged(done), node.vertex);
        }
        match relax_row(dist, q.remove(node), node.vertex, g[node.vertex as int]) {
            Some((d, f)) => run(g, d, done.update(node.vertex as int, true), f),
            None => Err(GraphError::DistanceOverflow),
        }
    }
}

/// The distances before the first step: nothing for the source, and
/// [`INFINITY`] for every other vertex.
pub open spec fn initial(n: nat, src: usize) -> Seq<i32> {
    Seq::new(
        n,
        |v: int|
            if v == src {
                0i32
            } else {
                INFINITY
            },
    )
}

/// What the algorithm returns for the graph with the adjacency lists `g`: what
/// it ends with when it starts with the source alone in the frontier and no
/// vertex processed.
pub open spec fn outcome(g: Seq<Seq<Node>>, src: usize) -> Result<Seq<i32>, GraphError> {
    if src >= g.len() {
        Err(GraphError::InvalidVertexIndex)
    } else {
        run(
            g,
            initial(g.len(), src),
            Seq::new(g.len(), |v: int| false),
            Multiset::<Node>::empty().insert(Node { vertex: src, dist: 0 }),
        )
    }
}

/// The entry that a frontier hands out is the entry that comes soonest.
proof fn lemma_soonest(q: Multiset<Node>, node: Node)
    requires
        q.contains(node),
        forall|other: Node| #[trigger] q.contains(other) ==> no_later(node, other),
    ensures
        soonest(q) == node,
        q.len() > 0,
{
    let x = soonest(q);
    assert(q.contains(x) && no_later(x, node));
    assert(no_later(node, x));
    lemma_remove_len(q, node);
}

/// Relaxing arcs that fails on a part of a list fails on the whole list.
proof fn lemma_relax_row_fails(
    dist: Seq<i32>,
    q: Multiset<Node>,
    u: usize,
    row: Seq<Node>,
    upto: int,
)
    requires
        0 <= upto <= row.len(),
        relax_row(dist, q, u, row.take(upto)) is None,
    ensures
        relax_row(dist, q, u, row) is None,
    decreases row.len() - upto,
{
    if upto < row.len() {
        assert(row.take(upto + 1).drop_last() =~= row.take(upto));
        lemma_relax_row_fails(dist, q, u, row, upto + 1);
    } else {
        assert(row.take(upto) =~= row);
    }
}

/// The source is at distance nothing, no distance is negative, and every
/// distance below [`INFINITY`] is the weight of a walk from the source.
spec fn reached_ok(g: Seq<Seq<Node>>, src: usize, dist: Seq<i32>) -> bool {
    &&& src < dist.len()
    &&& dist[src as int] == 0
    &&& forall|v: usize|
        v < dist.len() ==> 0 <= #[trigger] dist[v as int] && (dist[v as int] < INFINITY ==> walk(
            arcs_of(g),
            src,
            v,
            dist[v as int] as int,
        ))
}

/// Every entry of the frontier names a vertex, at a distance that is no
/// less than the distance known for that vertex nor than `bound`.
spec fn entries_ok(dist: Seq<i32>, q: Multiset<Node>, bound: int) -> bool {
    forall|x: Node| #[trigger]
        q.contains(x) ==> x.vertex < dist.len() && dist[x.vertex as int] <= x.dist && bound
            <= x.dist < INFINITY
}

/// Every vertex that is reached and not yet processed stands in the frontier
/// with the distance known for it.
spec fn waiting_ok(dist: Seq<i32>, done: Seq<bool>, q: Multiset<Node>) -> bool {
    forall|v: usize|
        v < dist.len() && !(#[trigger] done[v as int]) && dist[v as int] < INFINITY ==> q.contains(
            Node { vertex: v, dist: dist[v as int] },
        )
}

/// No processed vertex is farther than `bound`.
spec fn done_ok(dist: Seq<i32>, done: Seq<bool>, bound: int) -> bool {
    forall|f: usize| f < dist.len() && #[trigger] done[f as int] ==> dist[f as int] <= bound
}

/// No arc out of a processed vertex can shorten a distance; of the vertex `u`
/// only the arcs before the position `upto` are meant.
spec fn relaxed_ok(g: Seq<Seq<Node>>, dist: Seq<i32>, done: Seq<bool>, u: int, upto: int) -> bool {
    forall|f: int, j: int|
        0 <= f < g.len() && 0 <= j < g[f].len() && done[f] && (f != u || j < upto) ==> dist[(
        #[trigger] g[f][j]).vertex as int] <= dist[f] + g[f][j].dist
}

/// What holds between two steps of the algorithm.
spec fn settled(
    g: Seq<Seq<Node>>,
    src: usize,
    dist: Seq<i32>,
    done: Seq<bool>,
    q: Multiset<Node>,
    bound: int,
    u: int,
    upto: int,
) -> bool {
    &&& dist.len() == g.len()
    &&& done.len() == g.len()
    &&& 0 <= bound < INFINITY
    &&& reached_ok(g, src, dist)
    &&& entries_ok(dist, q, bound)
    &&& waiting_ok(dist, done, q)
    &&& done_ok(dist, done, bound)
    &&& relaxed_ok(g, dist, done, u, upto)
}

/// At the start only the source is reached, and only it waits.
proof fn lemma_start(g: Seq<Seq<Node>>, src: usize, dist: Seq<i32>, done: Seq<bool>)
    requires
        src < g.len(),
        dist.len() == g.len(),
        done.len() == g.len(),
        dist[src as int] == 0,
        forall|v: int| 0 <= v < dist.len() && v != src ==> #[trigger] dist[v] == INFINITY,
        forall|v: int| 0 <= v < done.len() ==> !#[trigger] done[v],
    ensures
        settled(
            g,
            src,
            dist,
            done,
            Multiset::<Node>::empty().insert(Node { vertex: src, dist: 0 }),
            0,
            -1,
            0,
        ),
{
    lemma_walk_self(arcs_of(g), src);
    let q = Multiset::<Node>::empty().insert(Node { vertex: src, dist: 0 });
    let first = Node { vertex: src, dist: 0 };
    assert(q.contains(first));
    assert forall|x: Node| #[trigger] q.contains(x) implies x == first by {
        if x != first {
            assert(q.count(x) == 0);
        }
    }
}

/// Taking out an entry of a vertex that is processed already changes nothing.
proof fn lemma_pop_stale(
    g: Seq<Seq<Node>>,
    src: usize,
    dist: Seq<i32>,
    done: Seq<bool>,
    q: Multiset<Node>,
    bound: int,
    node: Node,
)
    requires
        settled(g, src, dist, done, q, bound, -1, 0),
        q.contains(node),
        done[node.vertex as int],
    ensures
        settled(g, src, dist, done, q.remove(node), bound, -1, 0),
{
    let r = q.remove(node);
    assert forall|x: Node| #[trigger] r.contains(x) implies q.contains(x) by {
        if x != node {
            assert(r.count(x) == q.count(x));
        }
    }
    assert forall|v: usize|
        v < dist.len() && !(#[trigger] done[v as int]) && dist[v as int] < INFINITY
            implies r.contains(
        Node { vertex: v, dist: dist[v as int] },
    ) by {
        let x = Node { vertex: v, dist: dist[v as int] };
        assert(q.contains(x));
        assert(x != node);
        assert(r.count(x) == q.count(x));
    }
}

/// The nearest entry of the frontier, if its vertex is not yet processed,
/// holds the distance known for that vertex, and the vertex can be processed.
proof fn lemma_pop_fresh(
    g: Seq<Seq<Node>>,
    src: usize,
    dist: Seq<i32>,
    done: Seq<bool>,
    q: Multiset<Node>,
    bound: int,
    node: Node,
)
    requires
        settled(g, src, dist, done, q, bound, -1, 0),
        q.contains(node),
        node.vertex < done.len(),
        !done[node.vertex as int],
        forall|other: Node| #[trigger] q.contains(other) ==> node.dist <= other.dist,
    ensures
        dist[node.vertex as int] == node.dist,
        settled(
            g,
            src,
            dist,
            done.update(node.vertex as int, true),
            q.remove(node),
            node.dist as int,
            node.vertex as int,
            0,
        ),
{
    let u = node.vertex as int;
    let r = q.remove(node);
    let marked = done.update(u, true);
    let own = Node { vertex: node.vertex, dist: dist[u] };
    assert(q.contains(own));
    assert(node.dist <= own.dist);
    assert(dist[u] == node.dist);
    assert forall|x: Node| #[trigger] r.contains(x) implies q.contains(x) by {
        if x != node {
            assert(r.count(x) == q.count(x));
        }
    }
    assert forall|v: usize|
        v < dist.len() && !(#[trigger] marked[v as int]) && dist[v as int] < INFINITY
            implies r.contains(
        Node { vertex: v, dist: dist[v as int] },
    ) by {
        let x = Node { vertex: v, dist: dist[v as int] };
        assert(!done[v as int]);
        assert(q.contains(x));
        assert(x != node);
        assert(r.count(x) == q.count(x));
    }
    assert forall|f: usize| f < dist.len() && #[trigger] marked[f as int] implies dist[f as int]
        <= node.dist by {
        if f != u {
            assert(done[f as int]);
        }
    }
    assert forall|f: int, j: int|
        0 <= f < g.len() && 0 <= j < g[f].len() && marked[f] && (f != u || j < 0) implies dist[(
    #[trigger] g[f][j]).vertex as int] <= dist[f] + g[f][j].dist by {
        assert(done[f]);
    }
}

/// An arc out of the vertex being processed that shortens the distance of its
/// end: the end gets the shorter distance and an entry in the frontier.
proof fn lemma_relax(
    g: Seq<Seq<Node>>,
    src: usize,
    dist: Seq<i32>,
    done: Seq<bool>,
    q: Multiset<Node>,
    u: usize,
    i: int,
)
    requires
        targets_valid(g),
        weights_nonnegative(g),
        u < g.len(),
        0 <= i < g[u as int].len(),
        settled(g, src, dist, done, q, dist[u as int] as int, u as int, i),
        done[u as int],
        dist[u as int] + g[u as int][i].dist < dist[g[u as int][i].vertex as int],
    ensures
        0 <= dist[u as int] + g[u as int][i].dist < INFINITY,
        g[u as int][i].vertex != u,
        settled(
            g,
            src,
            dist.update(
                g[u as int][i].vertex as int,
                (dist[u as int] + g[u as int][i].dist) as i32,
            ),
            done,
            q.insert(
                Node {
                    vertex: g[u as int][i].vertex,
                    dist: (dist[u as int] + g[u as int][i].dist) as i32,
                },
            ),
            dist[u as int] as int,
            u as int,
            i + 1,
        ),
{
    let e = g[u as int][i];
    let v = e.vertex;
    let k = dist[u as int] as int;
    let cand = (k + e.dist) as i32;
    let entry = Node { vertex: v, dist: cand };
    let after = dist.update(v as int, cand);
    let r = q.insert(entry);
    assert(e.dist >= 0);
    assert(v < g.len());
    assert(0 <= dist[u as int]);
    assert(0 <= dist[v as int]);
    if done[v as int] {
        assert(dist[v as int] <= k);
    }
    assert(!done[v as int]);
    assert(g[u as int].contains(e));
    assert(arcs_of(g).contains((u, v, e.dist)));
    lemma_walk_step(arcs_of(g), src, u, v, e.dist, k);
    assert forall|x: usize|
        x < after.len() implies 0 <= #[trigger] after[x as int] && (after[x as int] < INFINITY
        ==> walk(arcs_of(g), src, x, after[x as int] as int)) by {
        if x != v {
            assert(after[x as int] == dist[x as int]);
        }
    }
    assert(v != src) by {
        if v == src {
            assert(dist[v as int] == 0);
        }
    }
    assert forall|x: Node| #[trigger] r.contains(x) implies {
        &&& x.vertex < after.len()
        &&& after[x.vertex as int] <= x.dist
        &&& k <= x.dist < INFINITY
    } by {
        if x != entry {
            assert(r.count(x) == q.count(x));
            assert(q.contains(x));
        }
    }
    assert forall|x: usize|
        x < after.len() && !(#[trigger] done[x as int]) && after[x as int] < INFINITY implies {
            r.contains(Node { vertex: x, dist: after[x as int] })
        } by {
        if x != v {
            let y = Node { vertex: x, dist: dist[x as int] };
            assert(q.contains(y));
        }
    }
    assert forall|f: usize| f < after.len() && #[trigger] done[f as int] implies after[f as int]
        <= k by {
        assert(dist[f as int] <= k);
    }
    assert forall|f: int, j: int|
        0 <= f < g.len() && 0 <= j < g[f].len() && done[f] && (f != u || j < i + 1) implies after[(
    #[trigger] g[f][j]).vertex as int] <= after[f] + g[f][j].dist by {
        let t = g[f][j].vertex as int;
        assert(t < g.len());
        assert(after[f] == dist[f]);
        if f == u && j == i {
        } else {
            assert(dist[t] <= dist[f] + g[f][j].dist);
            assert(after[t] <= dist[t]);
        }
    }
}

/// An arc out of the vertex being processed that does not shorten the
/// distance of its end changes nothing.
proof fn lemma_keep(
    g: Seq<Seq<Node>>,
    src: usize,
    dist: Seq<i32>,
    done: Seq<bool>,
    q: Multiset<Node>,
    u: usize,
    i: int,
)
    requires
        targets_valid(g),
        u < g.len(),
        0 <= i < g[u as int].len(),
        settled(g, src, dist, done, q, dist[u as int] as int, u as int, i),
        dist[u as int] + g[u as int][i].dist >= dist[g[u as int][i].vertex as int],
    ensures
        settled(g, src, dist, done, q, dist[u as int] as int, u as int, i + 1),
{
    assert forall|f: int, j: int|
        0 <= f < g.len() && 0 <= j < g[f].len() && done[f] && (f != u || j < i + 1) implies dist[(
    #[trigger] g[f][j]).vertex as int] <= dist[f] + g[f][j].dist by {
        if f == u && j == i {
        } else {
            assert(dist[g[f][j].vertex as int] <= dist[f] + g[f][j].dist);
        }
    }
}

/// Once all arcs out of a vertex have been looked at, the vertex is
/// processed like the others.
proof fn lemma_vertex_done(
    g: Seq<Seq<Node>>,
    src: usize,
    dist: Seq<i32>,
    done: Seq<bool>,
    q: Multiset<Node>,
    bound: int,
    u: usize,
)
    requires
        u < g.len(),
        settled(g, src, dist, done, q, bound, u as int, g[u as int].len() as int),
    ensures
        settled(g, src, dist, done, q, bound, -1, 0),
{
    assert forall|f: int, j: int|
        0 <= f < g.len() && 0 <= j < g[f].len() && done[f] && (f != -1 || j < 0) implies dist[(
    #[trigger] g[f][j]).vertex as int] <= dist[f] + g[f][j].dist by {
        assert(f != u || j < g[u as int].len());
    }
}

/// With nothing left to process, no walk from the source is lighter than the
/// distance of its end.
proof fn lemma_no_lighter_walk(
    g: Seq<Seq<Node>>,
    src: usize,
    dist: Seq<i32>,
    done: Seq<bool>,
    bound: int,
    v: usize,
    k: nat,
    w: int,
)
    requires
        targets_valid(g),
        weights_nonnegative(g),
        settled(g, src, dist, done, Multiset::<Node>::empty(), bound, -1, 0),
        walk_in(arcs_of(g), src, v, k, w),
    ensures
        v < g.len(),
        dist[v as int] <= w,
    decreases k,
{
    if k > 0 {
        let (m, c) = choose|m: usize, c: i32|
            walk_in(arcs_of(g), src, m, (k - 1) as nat, w - c) && #[trigger] arcs_of(g).contains(
                (m, v, c),
            );
        lemma_no_lighter_walk(g, src, dist, done, bound, m, (k - 1) as nat, w - c);
        let e = Node { vertex: v, dist: c };
        assert(g[m as int].contains(e));
        let j = choose|j: int| 0 <= j < g[m as int].len() && g[m as int][j] == e;
        assert(g[m as int][j].vertex < g.len());
        assert(g[m as int][j].dist >= 0);
        assert(0 <= dist[v as int]);
        if done[m as int] {
            assert(dist[g[m as int][j].vertex as int] <= dist[m as int] + g[m as int][j].dist);
        } else {
            if dist[m as int] < INFINITY {
                assert(Multiset::<Node>::empty().contains(
                    Node { vertex: m, dist: dist[m as int] },
                ));
            }
            assert(dist[m as int] == INFINITY);
        }
    }
}

/// With nothing left to process, the distances are the least weights of walks
/// from the source.
proof fn lemma_finished(
    g: Seq<Seq<Node>>,
    src: usize,
    dist: Seq<i32>,
    done: Seq<bool>,
    bound: int,
)
    requires
        targets_valid(g),
        weights_nonnegative(g),
        settled(g, src, dist, done, Multiset::<Node>::empty(), bound, -1, 0),
    ensures
        least_weights(arcs_of(g), src, dist),
{
    assert forall|v: usize| v < dist.len() implies {
        &&& (#[trigger] dist[v as int]) < INFINITY ==> walk(
            arcs_of(g),
            src,
            v,
            dist[v as int] as int,
        )
        &&& forall|w: int| #[trigger] walk(arcs_of(g), src, v, w) ==> dist[v as int] <= w
    } by {
        assert forall|w: int| #[trigger] walk(arcs_of(g), src, v, w) implies dist[v as int]
            <= w by {
            let k = choose|k: nat| walk_in(arcs_of(g), src, v, k, w);
            lemma_no_lighter_walk(g, src, dist, done, bound, v, k, w);
        }
    }
}

/// The adjacency lists `g` with one more edge of weight `w` from `u` to `v`:
/// an entry for `v` at the end of the list of `u`.
pub open spec fn with_edge(g: Seq<Seq<Node>>, u: usize, v: usize, w: i32) -> Seq<Seq<Node>> {
    g.update(u as int, g[u as int].push(Node { vertex: v, dist: w }))
}

/// Appending an entry that names a vertex of the graph leaves every entry
/// naming a vertex of the graph.
proof fn lemma_targets_after_push(g: Seq<Seq<Node>>, u: usize, e: Node)
    requires
        targets_valid(g),
        u < g.len(),
        e.vertex < g.len(),
    ensures
        targets_valid(g.update(u as int, g[u as int].push(e))),
{
    let after = g.update(u as int, g[u as int].push(e));
    assert forall|a: int, i: int| 0 <= a < after.len() && 0 <= i < after[a].len() implies (
    #[trigger] after[a][i]).vertex < after.len() by {
        if a == u && i == g[u as int].len() {
        } else {
            assert(after[a][i] == g[a][i]);
        }
    }
}

/// Relaxes the arcs `row` out of the vertex `u`, in their order, and tells
/// whether every distance could be held: if not, a distance would have
/// fallen below the least `i32`, and what `dist` and `frontier` hold then is
/// of no use.
fn relax_arcs(
    row: &Vec<Node>,
    u: usize,
    dist: &mut Vec<i32>,
    frontier: &mut Frontier,
    Ghost(g): Ghost<Seq<Seq<Node>>>,
    Ghost(src): Ghost<usize>,
    Ghost(done): Ghost<Seq<bool>>,
) -> (fits: bool)
    requires
        targets_valid(g),
        u < g.len(),
        row@ == g[u as int],
        old(dist).len() == g.len(),
        done.len() == g.len(),
        old(frontier).wf(),
        forall|x: Node| #[trigger] old(frontier)@.contains(x) ==> x.vertex < g.len(),
        weights_nonnegative(g) ==> done[u as int] && settled(
            g,
            src,
            old(dist)@,
            done,
            old(frontier)@,
            old(dist)[u as int] as int,
            u as int,
            0,
        ),
    ensures
        final(dist).len() == g.len(),
        final(frontier).wf(),
        forall|x: Node| #[trigger] final(frontier)@.contains(x) ==> x.vertex < g.len(),
        fits ==> relax_row(old(dist)@, old(frontier)@, u, row@) == Some(
            (final(dist)@, final(frontier)@),
        ),
        !fits ==> relax_row(old(dist)@, old(frontier)@, u, row@) is None && !weights_nonnegative(g),
        weights_nonnegative(g) ==> settled(
            g,
            src,
            final(dist)@,
            done,
            final(frontier)@,
            old(dist)[u as int] as int,
            u as int,
            row@.len() as int,
        ),
{
    let ghost plain = weights_nonnegative(g);
    let ghost first = dist@;
    let ghost waiting = frontier@;
    let ghost bound = dist[u as int] as int;
    let n = dist.len();
    let mut i: usize = 0;
    assert(row@.take(0) =~= Seq::empty());
    while i < row.len()
        invariant
            targets_valid(g),
            plain == weights_nonnegative(g),
            n == g.len(),
            u < n,
            row@ == g[u as int],
            i <= row.len(),
            dist.len() == n,
            done.len() == n,
            frontier.wf(),
            forall|x: Node| #[trigger] frontier@.contains(x) ==> x.vertex < n,
            first == old(dist)@,
            waiting == old(frontier)@,
            relax_row(first, waiting, u, row@.take(i as int)) == Some((dist@, frontier@)),
            plain ==> done[u as int] && bound == dist[u as int] && settled(
                g,
                src,
                dist@,
                done,
                frontier@,
                bound,
                u as int,
                i as int,
            ),
        decreases row.len() - i,
    {
        let edge = row[i];
        let v = edge.vertex;
        proof {
            assert(g[u as int][i as int] == edge);
            assert(v < n);
            assert(row@.take(i + 1).drop_last() =~= row@.take(i as int));
            assert(row@.take(i + 1).last() == edge);
        }
        let cand: i64 = dist[u] as i64 + edge.dist as i64;
        if cand < dist[v] as i64 {
            let ghost q1 = frontier@;
            proof {
                if plain {
                    lemma_relax(g, src, dist@, done, q1, u, i as int);
                }
            }
            if cand < i32::MIN as i64 {
                proof {
                    assert(relax_edge(dist@, frontier@, u, edge) is None);
                    assert(relax_row(first, waiting, u, row@.take(i + 1)) is None);
                    lemma_relax_row_fails(first, waiting, u, row@, i + 1);
                }
                return false;
            }
            let near = cand as i32;
            dist[v] = near;
            frontier.push(Node { vertex: v, dist: near });
            proof {
                assert forall|x: Node| #[trigger] frontier@.contains(x) implies x.vertex < n by {
                    if x != (Node { vertex: v, dist: near }) {
                        assert(frontier@.count(x) == q1.count(x));
                        assert(q1.contains(x));
                    }
                }
            }
        } else {
            proof {
                if plain {
                    lemma_keep(g, src, dist@, done, frontier@, u, i as int);
                }
            }
        }
        i += 1;
    }
    assert(row@.take(row@.len() as int) =~= row@);
    true
}

/// A directed graph with weighted edges, held as adjacency lists.
pub struct Graph {
    adj_list: Vec<Vec<Node>>,
    vertices: usize,
}

impl Graph {
    /// The adjacency lists of the graph: for each vertex, an entry for each
    /// edge out of it, with the vertex at its end and its weight, in the
    /// order in which the edges were added.
    pub closed spec fn view(&self) -> Seq<Seq<Node>> {
        rows(&self.adj_list)
    }

    /// There is one list for each vertex, and every entry names a vertex of
    /// the graph.
    pub closed spec fn wf(&self) -> bool {
        &&& self.adj_list.len() == self.vertices
        &&& targets_valid(rows(&self.adj_list))
    }

    /// In a well-formed graph every entry names a vertex of the graph.
    pub proof fn lemma_wf(&self)
        requires
            self.wf(),
        ensures
            targets_valid(self@),
            self@.len() <= usize::MAX,
    {
    }

    /// A graph with `vertices` vertices and no edges.
    pub fn new(vertices: usize) -> (g: Graph)
        ensures
            g.wf(),
            g@ == Seq::new(vertices as nat, |i: int| Seq::<Node>::empty()),
    {
        let mut adj_list: Vec<Vec<Node>> = Vec::new();
        while adj_list.len() < vertices
            invariant
                adj_list.len() <= vertices,
                forall|k: int| 0 <= k < adj_list.len() ==> (#[trigger] adj_list[k])@.len() == 0,
            decreases vertices - adj_list.len(),
        {
            adj_list.push(Vec::new());
        }
        proof {
            let g = rows(&adj_list);
            assert forall|k: int| 0 <= k < g.len() implies #[trigger] g[k]
                == Seq::<Node>::empty() by {
                assert(adj_list[k]@ =~= Seq::<Node>::empty());
            }
            assert(g =~= Seq::new(vertices as nat, |i: int| Seq::<Node>::empty()));
        }
        Graph { adj_list, vertices }
    }

    /// The number of vertices.
    pub fn vertices(&self) -> (n: usize)
        requires
            self.wf(),
        ensures
            n == self@.len(),
    {
        self.vertices
    }

    /// Adds the edge of weight `w` from `u` to `v`: one entry for `v`, at the
    /// end of the list of `u`, and no other list changes. An endpoint that is
    /// no vertex of the graph is rejected, and the graph stays as it is.
    pub fn add_edge(&mut self, u: usize, v: usize, w: i32) -> (r: Result<(), GraphError>)
        requires
            old(self).wf(),
        ensures
            final(self).wf(),
            match r {
                Ok(_) => {
                    &&& u < old(self)@.len()
                    &&& v < old(self)@.len()
                    &&& final(self)@ == old(self)@.update(
                        u as int,
                        old(self)@[u as int].push(Node { vertex: v, dist: w }),
                    )
                },
                Err(e) => {
                    &&& e == GraphError::InvalidVertexIndex
                    &&& !(u < old(self)@.len() && v < old(self)@.len())
                    &&& final(self)@ == old(self)@
                },
            },
    {
        if u >= self.vertices || v >= self.vertices {
            return Err(GraphError::InvalidVertexIndex);
        }
        let ghost before = rows(&self.adj_list);
        self.adj_list[u].push(Node { vertex: v, dist: w });
        proof {
            let there = Node { vertex: v, dist: w };
            let after = rows(&self.adj_list);
            assert(after =~= before.update(u as int, before[u as int].push(there)));
            lemma_targets_after_push(before, u, there);
        }
        Ok(())
    }

    /// The distance from `src` to every vertex: the least total weight of a
    /// walk from `src` to it, and [`INFINITY`] for a vertex that no walk
    /// reaches, or none of a total weight below that. This is what comes
    /// out if no edge has a negative weight; nothing is promised of the
    /// distances otherwise.
    ///
    /// A `src` that is no vertex of the graph is rejected. A distance that
    /// would fall below the least `i32`, which only negative weights can
    /// bring about, is reported as an overflow.
    pub fn dijkstra(&self, src: usize) -> (r: Result<Vec<i32>, GraphError>)
        requires
            self.wf(),
        ensures
            dijkstra_spec(self@, src, r),
    {
        let n = self.vertices;
        if src >= n {
            return Err(GraphError::InvalidVertexIndex);
        }
        let ghost g = self@;
        let ghost plain = weights_nonnegative(g);
        let mut dist: Vec<i32> = vec![INFINITY; n];
        let mut done: Vec<bool> = vec![false; n];
        dist[src] = 0;
        let mut frontier = Frontier::new();
        frontier.push(Node { vertex: src, dist: 0 });
        let ghost mut bound: int = 0;
        let ghost goal = outcome(g, src);
        proof {
            assert(dist@ =~= initial(n as nat, src));
            assert(done@ =~= Seq::new(n as nat, |v: int| false));
            lemma_start(g, src, dist@, done@);
            assert forall|x: Node| #[trigger] frontier@.contains(x) implies x.vertex < n by {
                if x != (Node { vertex: src, dist: 0 }) {
                    assert(frontier@.count(x) == 0);
                }
            }
        }
        loop
            invariant
                n == self.vertices,
                g == rows(&self.adj_list),
                g.len() == n,
                targets_valid(g),
                plain == weights_nonnegative(g),
                src < n,
                dist.len() == n,
                done.len() == n,
                frontier.wf(),
                forall|x: Node| #[trigger] frontier@.contains(x) ==> x.vertex < n,
                plain ==> settled(g, src, dist@, done@, frontier@, bound, -1, 0),
                goal == outcome(g, src),
                run(g, dist@, done@, frontier@) == goal,
            ensures
                dist.len() == n,
                plain ==> settled(g, src, dist@, done@, Multiset::<Node>::empty(), bound, -1, 0),
                goal == Ok::<Seq<i32>, GraphError>(dist@),
            decreases unseen(n as nat, flagged(done@)), frontier.spec_len(),
        {
            let ghost q = frontier@;
            let node = match frontier.pop() {
                Some(node) => node,
                None => {
                    proof {
                        frontier.lemma_len();
                        assert(frontier@.len() == 0);
                        assert(frontier@ =~= Multiset::<Node>::empty());
                    }
                    break ;
                },
            };
            let u = node.vertex;
            let ghost at_pop = dist@;
            let ghost was_done = done@;
            proof {
                assert(q.contains(node));
                lemma_soonest(q, node);
                assert forall|x: Node| #[trigger] frontier@.contains(x) implies x.vertex < n by {
                    if x != node {
                        assert(frontier@.count(x) == q.count(x));
                    }
                    assert(q.contains(x));
                }
            }
            if done[u] {
                proof {
                    if plain {
                        lemma_pop_stale(g, src, dist@, done@, q, bound, node);
                    }
                }
            } else {
                proof {
                    if plain {
                        lemma_pop_fresh(g, src, dist@, done@, q, bound, node);
                        bound = node.dist as int;
                    }
                    lemma_flagged_set(done@, u);
                    lemma_unseen_insert(n as nat, flagged(done@), u);
                }
                done[u] = true;
                let fits = relax_arcs(
                    &self.adj_list[u],
                    u,
                    &mut dist,
                    &mut frontier,
                    Ghost(g),
                    Ghost(src),
                    Ghost(done@),
                );
                if !fits {
                    return Err(GraphError::DistanceOverflow);
                }
                proof {
                    if plain {
                        lemma_vertex_done(g, src, dist@, done@, frontier@, bound, u);
                    }
                }
            }
        }
        proof {
            if plain {
                lemma_finished(g, src, dist@, done@, bound);
            }
        }
        Ok(dist)
    }
}

/// What [`Graph::dijkstra`] returns for the graph with the adjacency lists
/// `g`: the [`outcome`] of the steps. For a `src` that is a vertex of the
/// graph that is a distance for every vertex, which is the least weight of
/// a walk from `src` if no weight is negative, or the error of the overflow,
/// which only a negative weight can bring about; for any other `src` it is
/// the error of the invalid vertex. No other error is returned, so a `src`
/// that is a vertex of a graph without negative weights has its distances.
pub open spec fn dijkstra_spec(
    g: Seq<Seq<Node>>,
    src: usize,
    r: Result<Vec<i32>, GraphError>,
) -> bool {
    match r {
        Ok(dist) => {
            &&& outcome(g, src) == Ok::<Seq<i32>, GraphError>(dist@)
            &&& src < g.len()
            &&& dist@.len() == g.len()
            &&& weights_nonnegative(g) ==> least_weights(arcs_of(g), src, dist@)
        },
        Err(e) => {
            &&& outcome(g, src) == Err::<Seq<i32>, GraphError>(e)
            &&& e == GraphError::InvalidVertexIndex || e == GraphError::DistanceOverflow
            &&& e == GraphError::InvalidVertexIndex <==> src >= g.len()
            &&& e == GraphError::DistanceOverflow ==> !weights_nonnegative(g)
        },
    }
}

/// Every edge joins two of the vertices `0 .. n`.
pub open spec fn triples_valid(n: nat, edges: Seq<(usize, usize, i32)>) -> bool {
    forall|i: int| 0 <= i < edges.len() ==> (#[trigger] edges[i]).0 < n && edges[i].1 < n
}

/// The adjacency lists of the graph with `n` vertices that is built from
/// `edges`: for each edge in turn, an edge of its weight from its first
/// vertex to its second, then one back.
pub open spec fn built(n: nat, edges: Seq<(usize, usize, i32)>) -> Seq<Seq<Node>>
    decreases edges.len(),
{
    if edges.len() == 0 {
        Seq::new(n, |i: int| Seq::<Node>::empty())
    } else {
        with_edge(
            with_edge(
                built(n, edges.drop_last()),
                edges.last().0,
                edges.last().1,
                edges.last().2,
            ),
            edges.last().1,
            edges.last().0,
            edges.last().2,
        )
    }
}

/// What [`dijkstras`] returns: what [`Graph::dijkstra`] returns for the graph
/// built from `edges`, where every edge names vertices of the graph, and the
/// error of the invalid vertex otherwise.
pub open spec fn dijkstras_spec(
    vertices: usize,
    source: usize,
    edges: Seq<(usize, usize, i32)>,
    r: Result<Vec<i32>, GraphError>,
) -> bool {
    if triples_valid(vertices as nat, edges) {
        dijkstra_spec(built(vertices as nat, edges), source, r) && built(
            vertices as nat,
            edges,
        ).len() == vertices
    } else {
        r == Err::<Vec<i32>, GraphError>(GraphError::InvalidVertexIndex)
    }
}

/// The distances from `source` in the graph with `vertices` vertices in which
/// every edge of `edges` runs both ways: for each edge in turn, an edge of
/// its weight from its first vertex to its second is added, then one back.
/// An edge or a `source` that names a vertex which the graph does not have
/// is rejected.
pub fn dijkstras(vertices: usize, source: usize, edges: &Vec<(usize, usize, i32)>) -> (r: Result<
    Vec<i32>,
    GraphError,
>)
    ensures
        dijkstras_spec(vertices, source, edges@, r),
{
    let mut g = Graph::new(vertices);
    let mut i: usize = 0;
    assert(edges@.take(0) =~= Seq::empty());
    while i < edges.len()
        invariant
            i <= edges.len(),
            g.wf(),
            g@.len() == vertices,
            triples_valid(vertices as nat, edges@.take(i as int)),
            g@ == built(vertices as nat, edges@.take(i as int)),
        decreases edges.len() - i,
    {
        let (s, d, w) = edges[i];
        proof {
            assert(edges@.take(i + 1).drop_last() =~= edges@.take(i as int));
            assert(edges@.take(i + 1).last() == edges@[i as int]);
        }
        if g.add_edge(s, d, w).is_err() {
            return Err(GraphError::InvalidVertexIndex);
        }
        if g.add_edge(d, s, w).is_err() {
            return Err(GraphError::InvalidVertexIndex);
        }
        proof {
            let upto = edges@.take(i + 1);
            assert forall|k: int| 0 <= k < upto.len() implies (#[trigger] upto[k]).0 < vertices
                && upto[k].1 < vertices by {
                if k < i {
                    assert(edges@.take(i as int)[k] == upto[k]);
                }
            }
        }
        i += 1;
    }
    assert(edges@.take(edges@.len() as int) =~= edges@);
    g.dijkstra(source)
}

/// Two runs on the same graph from the same vertex end alike: both report
/// the same error, or both give the same distances.
pub proof fn lemma_dijkstra_deterministic(
    g: Seq<Seq<Node>>,
    src: usize,
    r1: Result<Vec<i32>, GraphError>,
    r2: Result<Vec<i32>, GraphError>,
)
    requires
        dijkstra_spec(g, src, r1),
        dijkstra_spec(g, src, r2),
    ensures
        same_outcome(r1, r2),
{
}

/// Building a graph twice from the same edges and running the algorithm from
/// the same vertex ends alike both times.
pub proof fn lemma_dijkstras_idempotent(
    vertices: usize,
    source: usize,
    edges: Seq<(usize, usize, i32)>,
    r1: Result<Vec<i32>, GraphError>,
    r2: Result<Vec<i32>, GraphError>,
)
    requires
        dijkstras_spec(vertices, source, edges, r1),
        dijkstras_spec(vertices, source, edges, r2),
    ensures
        same_outcome(r1, r2),
{
}

} // verus!
