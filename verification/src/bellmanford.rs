//! Shortest distances from one vertex by the Bellman-Ford algorithm, on a
//! directed graph held as a list of weighted edges. Weights may be negative;
//! a cycle of negative weight that can be reached is detected.

use vstd::prelude::*;
use crate::cycles::{
    arcs_within, lemma_light_cycle_is_cycle, lemma_pump, lemma_shorten, negative_cycle_exists,
    negative_cycle_reached,
};
use crate::error::{same_outcome, GraphError};
use crate::weighted::{
    least_light_weights, least_weights, lemma_light_in_step, lemma_light_is_walk,
    lemma_light_least_is_least, light, light_in, nonnegative, walk, INFINITY,
};

verus! {

/// Whether the edge `e` can shorten the distance of its end: its start is
/// reached, and the way over it is shorter than what is known for its end.
pub open spec fn can_relax(dist: Seq<i32>, e: (usize, usize, i32)) -> bool {
    dist[e.0 as int] != INFINITY && dist[e.0 as int] + e.2 < dist[e.1 as int]
}

/// The distances after the edge `e` has been relaxed: where the edge can
/// shorten the distance of its end, that distance becomes the distance of its
/// start plus its weight. There are none if that sum is below the least
/// `i32`.
pub open spec fn relax(dist: Seq<i32>, e: (usize, usize, i32)) -> Option<Seq<i32>> {
    if can_relax(dist, e) {
        if dist[e.0 as int] + e.2 < i32::MIN {
            None
        } else {
            Some(dist.update(e.1 as int, (dist[e.0 as int] + e.2) as i32))
        }
    } else {
        Some(dist)
    }
}

/// The distances after one pass: every edge relaxed once, in the order of the
/// list, each on what the edges before it have left.
pub open spec fn sweep(dist: Seq<i32>, edges: Seq<(usize, usize, i32)>) -> Option<Seq<i32>>
    decreases edges.len(),
{
    if edges.len() == 0 {
        Some(dist)
    } else {
        match sweep(dist, edges.drop_last()) {
            Some(d) => relax(d, edges.last()),
            None => None,
        }
    }
}

/// The distances after `passes` passes.
pub open spec fn sweeps(dist: Seq<i32>, edges: Seq<(usize, usize, i32)>, passes: nat) -> Option<
    Seq<i32>,
>
    decreases passes,
{
    if passes == 0 {
        Some(dist)
    } else {
        match sweeps(dist, edges, (passes - 1) as nat) {
            Some(d) => sweep(d, edges),
            None => None,
        }
    }
}

/// No edge can shorten a distance any more.
pub open spec fn stable(dist: Seq<i32>, edges: Seq<(usize, usize, i32)>) -> bool {
    forall|i: int| 0 <= i < edges.len() ==> !can_relax(dist, #[trigger] edges[i])
}

/// The distances before the first pass: nothing for the source, and
/// [`INFINITY`] for every other vertex.
pub open spec fn initial(n: nat, src: usize) -> Seq<i32> {
    Seq::new(
        n,
        |v: int|
            if v == src {
                0i32
            } else {
                INFINITY
            },
    )
}

/// What the algorithm returns for the graph with `n` vertices and the edge
/// list `edges`: the distances after `n + 1` passes if no edge can shorten
/// one of them any more.
pub open spec fn outcome(edges: Seq<(usize, usize, i32)>, n: nat, src: usize) -> Result<
    Seq<i32>,
    GraphError,
> {
    if src >= n {
        Err(GraphError::InvalidVertexIndex)
    } else {
        match sweeps(initial(n, src), edges, n + 1) {
            None => Err(GraphError::DistanceOverflow),
            Some(d) => if stable(d, edges) {
                Ok(d)
            } else {
                Err(GraphError::NegativeWeightCycle)
            },
        }
    }
}

/// Every edge of the list joins two of the vertices `0 .. n`.
pub open spec fn ends_valid(edges: Seq<(usize, usize, i32)>, n: nat) -> bool {
    forall|i: int| 0 <= i < edges.len() ==> (#[trigger] edges[i]).0 < n && edges[i].1 < n
}

/// The arcs of the graph with the edge list `edges`.
pub open spec fn arcs_of(edges: Seq<(usize, usize, i32)>) -> Set<(usize, usize, i32)> {
    Set::new(|t: (usize, usize, i32)| edges.contains(t))
}

/// The source is at a distance of nothing or less, and every distance other
/// than [`INFINITY`] is the weight of a light walk from the source.
pub open spec fn attained(edges: Seq<(usize, usize, i32)>, src: usize, dist: Seq<i32>) -> bool {
    &&& src < dist.len()
    &&& dist[src as int] <= 0
    &&& forall|v: usize|
        v < dist.len() && (#[trigger] dist[v as int]) != INFINITY ==> light(
            arcs_of(edges),
            src,
            v,
            dist[v as int] as int,
        )
}

/// Relaxing an edge of the graph keeps the distances attained.
proof fn lemma_relax_attained(
    edges: Seq<(usize, usize, i32)>,
    src: usize,
    dist: Seq<i32>,
    e: (usize, usize, i32),
)
    requires
        attained(edges, src, dist),
        edges.contains(e),
        e.0 < dist.len(),
        e.1 < dist.len(),
        relax(dist, e) is Some,
    ensures
        attained(edges, src, relax(dist, e)->0),
        relax(dist, e)->0.len() == dist.len(),
{
    if can_relax(dist, e) {
        let after = relax(dist, e)->0;
        assert(arcs_of(edges).contains((e.0, e.1, e.2)));
        let k = choose|k: nat| light_in(arcs_of(edges), src, e.0, k, 0, dist[e.0 as int] as int);
        lemma_light_in_step(arcs_of(edges), src, e.0, e.1, e.2, k, 0, dist[e.0 as int] as int);
        assert forall|v: usize|
            v < after.len() && (#[trigger] after[v as int]) != INFINITY implies light(
            arcs_of(edges),
            src,
            v,
            after[v as int] as int,
        ) by {
            if v != e.1 {
                assert(after[v as int] == dist[v as int]);
            }
        }
    }
}

/// A pass over edges of the graph keeps the distances attained.
proof fn lemma_sweep_attained(
    edges: Seq<(usize, usize, i32)>,
    src: usize,
    dist: Seq<i32>,
    part: Seq<(usize, usize, i32)>,
)
    requires
        attained(edges, src, dist),
        ends_valid(edges, dist.len()),
        forall|i: int| 0 <= i < part.len() ==> edges.contains(#[trigger] part[i]),
        sweep(dist, part) is Some,
    ensures
        attained(edges, src, sweep(dist, part)->0),
        sweep(dist, part)->0.len() == dist.len(),
    decreases part.len(),
{
    if part.len() > 0 {
        let before = part.drop_last();
        assert forall|i: int| 0 <= i < before.len()
            implies edges.contains(#[trigger] before[i]) by {
            assert(before[i] == part[i]);
        }
        lemma_sweep_attained(edges, src, dist, before);
        let e = part.last();
        assert(edges.contains(e));
        let k = choose|k: int| 0 <= k < edges.len() && edges[k] == e;
        assert(edges[k].0 < dist.len());
        lemma_relax_attained(edges, src, sweep(dist, before)->0, e);
    }
}

/// Passes over the edges of the graph keep the distances attained.
proof fn lemma_sweeps_attained(
    edges: Seq<(usize, usize, i32)>,
    src: usize,
    dist: Seq<i32>,
    passes: nat,
)
    requires
        attained(edges, src, dist),
        ends_valid(edges, dist.len()),
        sweeps(dist, edges, passes) is Some,
    ensures
        attained(edges, src, sweeps(dist, edges, passes)->0),
        sweeps(dist, edges, passes)->0.len() == dist.len(),
    decreases passes,
{
    if passes > 0 {
        lemma_sweeps_attained(edges, src, dist, (passes - 1) as nat);
        assert forall|i: int| 0 <= i < edges.len() implies edges.contains(#[trigger] edges[i]) by {}
        lemma_sweep_attained(edges, src, sweeps(dist, edges, (passes - 1) as nat)->0, edges);
    }
}

/// Where the distances are attained and no edge can shorten one, no light
/// walk from the source is lighter than the distance of its end.
proof fn lemma_no_lighter_walk(
    edges: Seq<(usize, usize, i32)>,
    src: usize,
    dist: Seq<i32>,
    v: usize,
    k: nat,
    w: int,
)
    requires
        ends_valid(edges, dist.len()),
        attained(edges, src, dist),
        stable(dist, edges),
        light_in(arcs_of(edges), src, v, k, 0, w),
    ensures
        v < dist.len(),
        dist[v as int] <= w,
    decreases k,
{
    if k > 0 {
        let (m, c) = choose|m: usize, c: i32|
            light_in(arcs_of(edges), src, m, (k - 1) as nat, 0, w - c) && w - c < INFINITY
                && #[trigger] arcs_of(edges).contains((m, v, c));
        lemma_no_lighter_walk(edges, src, dist, m, (k - 1) as nat, w - c);
        assert(edges.contains((m, v, c)));
        let i = choose|i: int| 0 <= i < edges.len() && edges[i] == (m, v, c);
        assert(!can_relax(dist, edges[i]));
        assert(edges[i].1 < dist.len());
    }
}

/// Distances that are attained and that no edge can shorten are the least
/// weights of light walks from the source.
pub proof fn lemma_stable_is_least(edges: Seq<(usize, usize, i32)>, src: usize, dist: Seq<i32>)
    requires
        ends_valid(edges, dist.len()),
        attained(edges, src, dist),
        stable(dist, edges),
    ensures
        least_light_weights(arcs_of(edges), src, dist),
{
    assert forall|v: usize| v < dist.len() implies {
        &&& (#[trigger] dist[v as int]) < INFINITY ==> light(
            arcs_of(edges),
            src,
            v,
            dist[v as int] as int,
        )
        &&& forall|w: int| #[trigger] light(arcs_of(edges), src, v, w) ==> dist[v as int] <= w
    } by {
        assert forall|w: int| #[trigger] light(arcs_of(edges), src, v, w) implies dist[v as int]
            <= w by {
            let k = choose|k: nat| light_in(arcs_of(edges), src, v, k, 0, w);
            lemma_no_lighter_walk(edges, src, dist, v, k, w);
        }
    }
}

/// Distances that are attained are weights of walks from the source.
pub proof fn lemma_attained_walks(edges: Seq<(usize, usize, i32)>, src: usize, dist: Seq<i32>)
    requires
        attained(edges, src, dist),
    ensures
        forall|v: usize|
            v < dist.len() && (#[trigger] dist[v as int]) != INFINITY ==> walk(
                arcs_of(edges),
                src,
                v,
                dist[v as int] as int,
            ),
{
    assert forall|v: usize| v < dist.len() && (#[trigger] dist[v as int]) != INFINITY implies walk(
        arcs_of(edges),
        src,
        v,
        dist[v as int] as int,
    ) by {
        let k = choose|k: nat| light_in(arcs_of(edges), src, v, k, 0, dist[v as int] as int);
        lemma_light_is_walk(arcs_of(edges), src, v, k, 0, dist[v as int] as int);
    }
}

/// A pass lowers distances only, and leaves the end of every edge no
/// farther than its start was before the pass plus the weight of the edge.
proof fn lemma_sweep_lowers(dist: Seq<i32>, part: Seq<(usize, usize, i32)>)
    requires
        ends_valid(part, dist.len()),
        sweep(dist, part) is Some,
    ensures
        sweep(dist, part)->0.len() == dist.len(),
        forall|v: int| 0 <= v < dist.len() ==> (#[trigger] sweep(dist, part)->0[v]) <= dist[v],
        forall|i: int|
            0 <= i < part.len() && dist[(#[trigger] part[i]).0 as int] != INFINITY ==> sweep(
                dist,
                part,
            )->0[part[i].1 as int] <= dist[part[i].0 as int] + part[i].2,
    decreases part.len(),
{
    if part.len() > 0 {
        let before = part.drop_last();
        let e = part.last();
        assert forall|i: int| 0 <= i < before.len() implies (#[trigger] before[i]).0 < dist.len()
            && before[i].1 < dist.len() by {
            assert(before[i] == part[i]);
        }
        lemma_sweep_lowers(dist, before);
        let mid = sweep(dist, before)->0;
        let after = sweep(dist, part)->0;
        assert(part[part.len() - 1] == e);
        assert(e.0 < dist.len() && e.1 < dist.len());
        assert forall|v: int| 0 <= v < dist.len() implies (#[trigger] after[v]) <= dist[v] by {
            assert(mid[v] <= dist[v]);
        }
        assert forall|i: int|
            0 <= i < part.len() && dist[(#[trigger] part[i]).0 as int] != INFINITY implies {
                after[part[i].1 as int] <= dist[part[i].0 as int] + part[i].2
            } by {
            if i < before.len() {
                assert(before[i] == part[i]);
                assert(mid[before[i].1 as int] <= dist[before[i].0 as int] + before[i].2);
                assert(after[part[i].1 as int] <= mid[part[i].1 as int]);
            } else {
                assert(mid[e.0 as int] <= dist[e.0 as int]);
            }
        }
    }
}

/// No light walk from `src` of at most `k` arcs is lighter than the distance
/// of its end.
pub open spec fn covers(
    edges: Seq<(usize, usize, i32)>,
    src: usize,
    dist: Seq<i32>,
    k: nat,
) -> bool {
    forall|v: usize, j: nat, w: int|
        j <= k && #[trigger] light_in(arcs_of(edges), src, v, j, 0, w) ==> v < dist.len()
            && dist[v as int] <= w
}

/// After `k` passes no light walk of at most `k` arcs is lighter than the
/// distance of its end.
proof fn lemma_sweeps_cover(edges: Seq<(usize, usize, i32)>, n: nat, src: usize, k: nat)
    requires
        src < n,
        ends_valid(edges, n),
        sweeps(initial(n, src), edges, k) is Some,
    ensures
        sweeps(initial(n, src), edges, k)->0.len() == n,
        covers(edges, src, sweeps(initial(n, src), edges, k)->0, k),
    decreases k,
{
    let arcs = arcs_of(edges);
    let now = sweeps(initial(n, src), edges, k)->0;
    if k > 0 {
        lemma_sweeps_cover(edges, n, src, (k - 1) as nat);
        let was = sweeps(initial(n, src), edges, (k - 1) as nat)->0;
        lemma_sweep_lowers(was, edges);
        assert forall|v: usize, j: nat, w: int|
            j <= k && #[trigger] light_in(arcs, src, v, j, 0, w) implies v < now.len()
            && now[v as int] <= w by {
            if j <= k - 1 {
                assert(was[v as int] <= w);
                assert(now[v as int] <= was[v as int]);
            } else {
                let (m, c) = choose|m: usize, c: i32|
                    light_in(arcs, src, m, (j - 1) as nat, 0, w - c) && w - c < INFINITY
                        && #[trigger] arcs.contains((m, v, c));
                assert(was[m as int] <= w - c);
                assert(edges.contains((m, v, c)));
                let i = choose|i: int| 0 <= i < edges.len() && edges[i] == (m, v, c);
                assert(edges[i].1 < n);
                assert(now[edges[i].1 as int] <= was[edges[i].0 as int] + edges[i].2);
            }
        }
    }
}

/// Every edge of the list is an arc between two vertices of the graph.
proof fn lemma_arcs_within(edges: Seq<(usize, usize, i32)>, n: nat)
    requires
        ends_valid(edges, n),
    ensures
        arcs_within(arcs_of(edges), n),
{
    assert forall|a: usize, b: usize, c: i32| #[trigger]
        arcs_of(edges).contains((a, b, c)) implies a < n && b < n by {
        let i = choose|i: int| 0 <= i < edges.len() && edges[i] == (a, b, c);
        assert(edges[i].0 < n);
    }
}

/// If an edge can still shorten a distance after the passes, some vertex
/// that the source reaches lies on a closed walk that brings the weight
/// down, and so on a closed walk of negative weight.
pub proof fn lemma_cycle_found(edges: Seq<(usize, usize, i32)>, n: nat, src: usize)
    requires
        src < n,
        ends_valid(edges, n),
        sweeps(initial(n, src), edges, n + 1) is Some,
        !stable(sweeps(initial(n, src), edges, n + 1)->0, edges),
    ensures
        negative_cycle_reached(arcs_of(edges), src),
        negative_cycle_exists(arcs_of(edges), src),
{
    let arcs = arcs_of(edges);
    let dist = sweeps(initial(n, src), edges, n + 1)->0;
    if !negative_cycle_reached(arcs, src) {
        lemma_initial_attained(edges, n, src);
        lemma_sweeps_attained(edges, src, initial(n, src), n + 1);
        lemma_sweeps_cover(edges, n, src, n + 1);
        lemma_arcs_within(edges, n);
        let i = choose|i: int| 0 <= i < edges.len() && can_relax(dist, #[trigger] edges[i]);
        let e = edges[i];
        assert(e.0 < n && e.1 < n);
        assert(light(arcs, src, e.0, dist[e.0 as int] as int));
        let k = choose|k: nat| light_in(arcs, src, e.0, k, 0, dist[e.0 as int] as int);
        assert(edges.contains(e));
        assert(arcs.contains((e.0, e.1, e.2)));
        lemma_light_in_step(arcs, src, e.0, e.1, e.2, k, 0, dist[e.0 as int] as int);
        let (steps, weight) = lemma_shorten(arcs, n, src, e.1, k + 1, dist[e.0 as int] + e.2);
        assert(dist[e.1 as int] <= weight);
    }
    lemma_light_cycle_is_cycle(arcs, src);
}

/// Before the first pass the distances are attained.
proof fn lemma_initial_attained(edges: Seq<(usize, usize, i32)>, n: nat, src: usize)
    requires
        src < n,
    ensures
        attained(edges, src, initial(n, src)),
{
    assert(light_in(arcs_of(edges), src, src, 0, 0, 0));
}

/// Where the distances are attained and no edge can shorten one, no vertex
/// that the source reaches lies on a closed walk that brings the weight
/// down.
pub proof fn lemma_no_cycle(edges: Seq<(usize, usize, i32)>, src: usize, dist: Seq<i32>)
    requires
        ends_valid(edges, dist.len()),
        attained(edges, src, dist),
        stable(dist, edges),
    ensures
        !negative_cycle_reached(arcs_of(edges), src),
{
    let arcs = arcs_of(edges);
    if negative_cycle_reached(arcs, src) {
        let (v, d, k, e) = choose|v: usize, d: int, k: nat, e: int|
            #[trigger] light(arcs, src, v, d) && d < INFINITY && k > 0 && #[trigger] light_in(
                arcs,
                v,
                v,
                k,
                d,
                e,
            ) && e < d;
        let steps = choose|steps: nat| light_in(arcs, src, v, steps, 0, d);
        lemma_no_lighter_walk(edges, src, dist, v, steps, d);
        let times = (d - dist[v as int] + 1) as nat;
        lemma_pump(arcs, src, v, d, k, e, times);
        let far = d - times * (d - e);
        let more = choose|more: nat| light_in(arcs, src, v, more, 0, far);
        lemma_no_lighter_walk(edges, src, dist, v, more, far);
        assert(times * (d - e) >= times) by (nonlinear_arith)
            requires
                d - e >= 1,
                times >= 0,
        ;
    }
}

/// No distance is negative.
spec fn none_negative(dist: Seq<i32>) -> bool {
    forall|v: int| 0 <= v < dist.len() ==> (#[trigger] dist[v]) >= 0
}

/// Where no weight and no distance is negative, a pass leaves every distance
/// in range and none negative.
proof fn lemma_sweep_fits(
    edges: Seq<(usize, usize, i32)>,
    dist: Seq<i32>,
    part: Seq<(usize, usize, i32)>,
)
    requires
        nonnegative(arcs_of(edges)),
        ends_valid(edges, dist.len()),
        forall|i: int| 0 <= i < part.len() ==> edges.contains(#[trigger] part[i]),
        none_negative(dist),
    ensures
        sweep(dist, part) is Some,
        sweep(dist, part)->0.len() == dist.len(),
        none_negative(sweep(dist, part)->0),
    decreases part.len(),
{
    if part.len() > 0 {
        let before = part.drop_last();
        assert forall|i: int| 0 <= i < before.len()
            implies edges.contains(#[trigger] before[i]) by {
            assert(before[i] == part[i]);
        }
        lemma_sweep_fits(edges, dist, before);
        let e = part.last();
        assert(edges.contains(e));
        assert(arcs_of(edges).contains((e.0, e.1, e.2)));
        let k = choose|k: int| 0 <= k < edges.len() && edges[k] == e;
        assert(edges[k].0 < dist.len() && edges[k].1 < dist.len());
        let mid = sweep(dist, before)->0;
        assert(mid[e.0 as int] >= 0);
    }
}

/// Where no weight is negative, every pass leaves every distance in range.
proof fn lemma_sweeps_fit(edges: Seq<(usize, usize, i32)>, n: nat, src: usize, passes: nat)
    requires
        nonnegative(arcs_of(edges)),
        ends_valid(edges, n),
        src < n,
    ensures
        sweeps(initial(n, src), edges, passes) is Some,
        sweeps(initial(n, src), edges, passes)->0.len() == n,
        none_negative(sweeps(initial(n, src), edges, passes)->0),
    decreases passes,
{
    if passes > 0 {
        lemma_sweeps_fit(edges, n, src, (passes - 1) as nat);
        assert forall|i: int| 0 <= i < edges.len() implies edges.contains(#[trigger] edges[i]) by {}
        lemma_sweep_fits(edges, sweeps(initial(n, src), edges, (passes - 1) as nat)->0, edges);
    }
}

/// A directed graph held as a list of weighted edges.
pub struct Graph {
    edges: Vec<(usize, usize, i32)>,
    vertices: usize,
}

impl Graph {
    /// The edges of the graph, each with its start, its end and its weight,
    /// in the order in which they were added.
    pub closed spec fn view(&self) -> Seq<(usize, usize, i32)> {
        self.edges@
    }

    /// The number of vertices.
    pub closed spec fn size(&self) -> nat {
        self.vertices as nat
    }

    /// Every edge joins two vertices of the graph.
    pub open spec fn wf(&self) -> bool {
        ends_valid(self@, self.size())
    }

    /// A graph with `vertices` vertices and no edges.
    pub fn new(vertices: usize) -> (g: Graph)
        ensures
            g.wf(),
            g.size() == vertices,
            g@ == Seq::<(usize, usize, i32)>::empty(),
    {
        Graph { edges: Vec::new(), vertices }
    }

    /// The number of vertices.
    pub fn vertices(&self) -> (n: usize)
        ensures
            n == self.size(),
    {
        self.vertices
    }

    /// Adds the edge from `u` to `v` of weight `w` at the end of the list.
    /// An endpoint that is no vertex of the graph is rejected, and the graph
    /// stays as it is.
    pub fn add_edge(&mut self, u: usize, v: usize, w: i32) -> (r: Result<(), GraphError>)
        ensures
            final(self).size() == old(self).size(),
            old(self).wf() ==> final(self).wf(),
            match r {
                Ok(_) => {
                    &&& u < old(self).size()
                    &&& v < old(self).size()
                    &&& final(self)@ == old(self)@.push((u, v, w))
                },
                Err(e) => {
                    &&& e == GraphError::InvalidVertexIndex
                    &&& !(u < old(self).size() && v < old(self).size())
                    &&& final(self)@ == old(self)@
                },
            },
    {
        if u >= self.vertices || v >= self.vertices {
            return Err(GraphError::InvalidVertexIndex);
        }
        self.edges.push((u, v, w));
        Ok(())
    }

    /// The distance from `src` to every vertex, by `vertices + 1` passes that
    /// relax every edge in the order of the list, and [`INFINITY`] for a
    /// vertex that is not reached.
    ///
    /// A `src` that is no vertex of the graph is rejected. If after the
    /// passes an edge can still shorten a distance, a cycle of negative
    /// weight is reported. A distance that would fall below the least `i32`
    /// is reported as an overflow.
    pub fn bellman_ford(&self, src: usize) -> (r: Result<Vec<i32>, GraphError>)
        requires
            self.wf(),
        ensures
            bellman_ford_spec(self@, self.size(), src, r),
    {
        let n = self.vertices;
        if src >= n {
            return Err(GraphError::InvalidVertexIndex);
        }
        let ghost edges = self@;
        let ghost first = initial(n as nat, src);
        let mut dist: Vec<i32> = vec![INFINITY; n];
        dist[src] = 0;
        assert(dist@ =~= first);
        proof {
            lemma_initial_attained(edges, n as nat, src);
        }
        let m = self.edges.len();
        let mut pass: usize = 0;
        loop
            invariant_except_break
                sweeps(first, edges, pass as nat) == Some(dist@),
            invariant
                n == self.vertices,
                edges == self.edges@,
                m == edges.len(),
                ends_valid(edges, n as nat),
                src < n,
                first == initial(n as nat, src),
                attained(edges, src, first),
                pass <= n,
                dist.len() == n,
            ensures
                dist.len() == n,
                sweeps(first, edges, (n + 1) as nat) == Some(dist@),
            decreases n - pass,
        {
            let ghost at_start = dist@;
            let mut i: usize = 0;
            assert(edges.take(0) =~= Seq::empty());
            while i < m
                invariant
                    n == self.vertices,
                    edges == self.edges@,
                    m == edges.len(),
                    ends_valid(edges, n as nat),
                    src < n,
                    first == initial(n as nat, src),
                    pass <= n,
                    i <= m,
                    dist.len() == n,
                    at_start.len() == n,
                    sweeps(first, edges, pass as nat) == Some(at_start),
                    sweep(at_start, edges.take(i as int)) == Some(dist@),
                decreases m - i,
            {
                let (u, v, w) = self.edges[i];
                proof {
                    assert(edges[i as int] == (u, v, w));
                    assert(edges.take(i + 1).drop_last() =~= edges.take(i as int));
                    assert(edges.take(i + 1).last() == edges[i as int]);
                }
                if dist[u] != INFINITY {
                    let cand: i64 = dist[u] as i64 + w as i64;
                    if cand < dist[v] as i64 {
                        if cand < i32::MIN as i64 {
                            proof {
                                assert(can_relax(dist@, edges[i as int]));
                                assert(relax(dist@, edges[i as int]) is None);
                                assert(sweep(at_start, edges.take(i + 1)) is None);
                                lemma_sweep_fails(at_start, edges, i + 1);
                                assert(sweep(at_start, edges) is None);
                                assert(sweeps(first, edges, (pass + 1) as nat) is None);
                                lemma_sweeps_fail(first, edges, (pass + 1) as nat, (n + 1) as nat);
                                if nonnegative(arcs_of(edges)) {
                                    lemma_sweeps_fit(edges, n as nat, src, (n + 1) as nat);
                                }
                            }
                            return Err(GraphError::DistanceOverflow);
                        }
                        dist[v] = cand as i32;
                    }
                }
                i += 1;
            }
            assert(edges.take(m as int) =~= edges);
            assert(sweeps(first, edges, (pass + 1) as nat) == Some(dist@));
            if pass == n {
                break ;
            }
            pass += 1;
        }
        proof {
            lemma_sweeps_attained(edges, src, first, (n + 1) as nat);
        }
        let mut i: usize = 0;
        while i < m
            invariant
                n == self.vertices,
                edges == self.edges@,
                m == edges.len(),
                ends_valid(edges, n as nat),
                src < n,
                i <= m,
                dist.len() == n,
                sweeps(initial(n as nat, src), edges, (n + 1) as nat) == Some(dist@),
                forall|j: int| 0 <= j < i ==> !can_relax(dist@, #[trigger] edges[j]),
            decreases m - i,
        {
            let (u, v, w) = self.edges[i];
            assert(edges[i as int] == (u, v, w));
            if dist[u] != INFINITY && dist[u] as i64 + (w as i64) < dist[v] as i64 {
                proof {
                    assert(can_relax(dist@, edges[i as int]));
                    lemma_cycle_found(edges, n as nat, src);
                }
                return Err(GraphError::NegativeWeightCycle);
            }
            i += 1;
        }
        proof {
            lemma_stable_is_least(edges, src, dist@);
            if nonnegative(arcs_of(edges)) {
                lemma_light_least_is_least(arcs_of(edges), src, dist@);
            }
            lemma_no_cycle(edges, src, dist@);
            lemma_attained_walks(edges, src, dist@);
        }
        Ok(dist)
    }
}

/// A pass that fails on a part of the list fails on the whole list.
proof fn lemma_sweep_fails(dist: Seq<i32>, edges: Seq<(usize, usize, i32)>, upto: int)
    requires
        0 <= upto <= edges.len(),
        sweep(dist, edges.take(upto)) is None,
    ensures
        sweep(dist, edges) is None,
    decreases edges.len() - upto,
{
    if upto < edges.len() {
        assert(edges.take(upto + 1).drop_last() =~= edges.take(upto));
        lemma_sweep_fails(dist, edges, upto + 1);
    } else {
        assert(edges.take(upto) =~= edges);
    }
}

/// Passes that fail keep failing.
proof fn lemma_sweeps_fail(
    dist: Seq<i32>,
    edges: Seq<(usize, usize, i32)>,
    failed: nat,
    passes: nat,
)
    requires
        failed <= passes,
        sweeps(dist, edges, failed) is None,
    ensures
        sweeps(dist, edges, passes) is None,
    decreases passes - failed,
{
    if failed < passes {
        lemma_sweeps_fail(dist, edges, failed, (passes - 1) as nat);
    }
}

/// What [`Graph::bellman_ford`] returns for the graph with `n` vertices and
/// the edge list `edges`: the [`outcome`] of the passes. Distances that are
/// returned are the least weights of light walks from `src`, which are the
/// least weights of walks where no weight is negative, and no edge can
/// shorten one of them; they are returned only if `src` reaches no closed
/// walk that brings the weight down. The error of the negative cycle is
/// returned only if `src` reaches a closed walk of negative weight, the
/// error of the overflow only if some weight is negative, and the error of
/// the invalid vertex exactly for a `src` that is no vertex of the graph.
pub open spec fn bellman_ford_spec(
    edges: Seq<(usize, usize, i32)>,
    n: nat,
    src: usize,
    r: Result<Vec<i32>, GraphError>,
) -> bool {
    match r {
        Ok(dist) => {
            &&& outcome(edges, n, src) == Ok::<Seq<i32>, GraphError>(dist@)
            &&& dist@.len() == n
            &&& stable(dist@, edges)
            &&& attained(edges, src, dist@)
            &&& least_light_weights(arcs_of(edges), src, dist@)
            &&& nonnegative(arcs_of(edges)) ==> least_weights(arcs_of(edges), src, dist@)
            &&& !negative_cycle_reached(arcs_of(edges), src)
            &&& forall|v: usize|
                v < dist@.len() && (#[trigger] dist@[v as int]) != INFINITY ==> walk(
                    arcs_of(edges),
                    src,
                    v,
                    dist@[v as int] as int,
                )
        },
        Err(e) => {
            &&& outcome(edges, n, src) == Err::<Seq<i32>, GraphError>(e)
            &&& e == GraphError::InvalidVertexIndex <==> src >= n
            &&& e == GraphError::DistanceOverflow ==> !nonnegative(arcs_of(edges))
            &&& e == GraphError::NegativeWeightCycle ==> negative_cycle_reached(arcs_of(edges), src)
                && negative_cycle_exists(arcs_of(edges), src)
        },
    }
}

/// Builds the graph with `vertices` vertices and the edges `edges`, in their
/// order. An edge that names a vertex which the graph does not have is
/// rejected.
pub fn add_weights(vertices: usize, edges: &Vec<(usize, usize, i32)>) -> (r: Result<
    Graph,
    GraphError,
>)
    ensures
        match r {
            Ok(g) => {
                &&& ends_valid(edges@, vertices as nat)
                &&& g.wf()
                &&& g.size() == vertices
                &&& g@ == edges@
            },
            Err(e) => e == GraphError::InvalidVertexIndex && !ends_valid(edges@, vertices as nat),
        },
{
    let mut g = Graph::new(vertices);
    let mut i: usize = 0;
    while i < edges.len()
        invariant
            i <= edges.len(),
            g.wf(),
            g.size() == vertices,
            g@ == edges@.take(i as int),
        decreases edges.len() - i,
    {
        let (s, d, w) = edges[i];
        if g.add_edge(s, d, w).is_err() {
            assert(!(edges@[i as int].0 < vertices && edges@[i as int].1 < vertices));
            return Err(GraphError::InvalidVertexIndex);
        }
        assert(edges@.take(i + 1) =~= edges@.take(i as int).push(edges@[i as int]));
        i += 1;
    }
    assert(edges@.take(edges@.len() as int) =~= edges@);
    Ok(g)
}

/// What [`bellmanford`] returns: what [`Graph::bellman_ford`] returns for
/// the graph with the edges `edges`, where every edge names vertices of the
/// graph, and the error of the invalid vertex otherwise.
pub open spec fn bellmanford_spec(
    vertices: usize,
    source: usize,
    edges: Seq<(usize, usize, i32)>,
    r: Result<Vec<i32>, GraphError>,
) -> bool {
    if ends_valid(edges, vertices as nat) {
        bellman_ford_spec(edges, vertices as nat, source, r)
    } else {
        r == Err::<Vec<i32>, GraphError>(GraphError::InvalidVertexIndex)
    }
}

/// The distances from `source` in the graph with `vertices` vertices and the
/// edges `edges`. An edge or a `source` that names a vertex which the graph
/// does not have is rejected.
pub fn bellmanford(vertices: usize, source: usize, edges: &Vec<(usize, usize, i32)>) -> (r: Result<
    Vec<i32>,
    GraphError,
>)
    ensures
        bellmanford_spec(vertices, source, edges@, r),
{
    match add_weights(vertices, edges) {
        Ok(g) => g.bellman_ford(source),
        Err(e) => Err(e),
    }
}

/// Two runs on the same graph from the same vertex end alike: both report
/// the same error, or both give the same distances.
pub proof fn lemma_bellman_ford_deterministic(
    edges: Seq<(usize, usize, i32)>,
    n: nat,
    src: usize,
    r1: Result<Vec<i32>, GraphError>,
    r2: Result<Vec<i32>, GraphError>,
)
    requires
        bellman_ford_spec(edges, n, src, r1),
        bellman_ford_spec(edges, n, src, r2),
    ensures
        same_outcome(r1, r2),
{
}

/// Building a graph twice from the same edges and running the algorithm from
/// the same vertex ends alike both times.
pub proof fn lemma_bellmanford_idempotent(
    vertices: usize,
    source: usize,
    edges: Seq<(usize, usize, i32)>,
    r1: Result<Vec<i32>, GraphError>,
    r2: Result<Vec<i32>, GraphError>,
)
    requires
        bellmanford_spec(vertices, source, edges, r1),
        bellmanford_spec(vertices, source, edges, r2),
    ensures
        same_outcome(r1, r2),
{
}

} // verus!
