//! Weighted walks: what it means for a walk of a given total weight to lead
//! from one vertex to another.
//!
//! A weighted graph is taken as the set of its arcs, each a triple of start,
//! end and weight. Both shortest-path algorithms of the crate state their
//! results in these terms.

use vstd::prelude::*;

verus! {

/// The distance that stands for "not reached".
pub const INFINITY: i32 = i32::MAX;

/// Some walk of exactly `k` arcs and total weight `w` leads from `a` to `b`.
pub open spec fn walk_in(arcs: Set<(usize, usize, i32)>, a: usize, b: usize, k: nat, w: int) -> bool
    decreases k,
{
    if k == 0 {
        a == b && w == 0
    } else {
        exists|m: usize, c: i32|
            walk_in(arcs, a, m, (k - 1) as nat, w - c) && #[trigger] arcs.contains((m, b, c))
    }
}

/// Some walk of total weight `w` leads from `a` to `b`.
pub open spec fn walk(arcs: Set<(usize, usize, i32)>, a: usize, b: usize, w: int) -> bool {
    exists|k: nat| walk_in(arcs, a, b, k, w)
}

/// `dist` holds for every vertex the least weight of a walk from `src` to it,
/// and [`INFINITY`] where there is no walk, or none lighter than that.
pub open spec fn least_weights(arcs: Set<(usize, usize, i32)>, src: usize, dist: Seq<i32>) -> bool {
    forall|v: usize|
        v < dist.len() ==> {
            &&& (#[trigger] dist[v as int]) < INFINITY ==> walk(arcs, src, v, dist[v as int] as int)
            &&& forall|w: int| #[trigger] walk(arcs, src, v, w) ==> dist[v as int] <= w
        }
}

/// The empty walk leads from a vertex to itself and weighs nothing.
pub proof fn lemma_walk_self(arcs: Set<(usize, usize, i32)>, a: usize)
    ensures
        walk(arcs, a, a, 0),
{
    assert(walk_in(arcs, a, a, 0, 0));
}

/// A walk can be lengthened by one arc at its end.
pub proof fn lemma_walk_in_step(
    arcs: Set<(usize, usize, i32)>,
    a: usize,
    m: usize,
    b: usize,
    c: i32,
    k: nat,
    w: int,
)
    requires
        walk_in(arcs, a, m, k, w),
        arcs.contains((m, b, c)),
    ensures
        walk_in(arcs, a, b, k + 1, w + c),
{
    assert(walk_in(arcs, a, m, ((k + 1) - 1) as nat, (w + c) - c));
}

/// A walk can be lengthened by one arc at its end.
pub proof fn lemma_walk_step(
    arcs: Set<(usize, usize, i32)>,
    a: usize,
    m: usize,
    b: usize,
    c: i32,
    w: int,
)
    requires
        walk(arcs, a, m, w),
        arcs.contains((m, b, c)),
    ensures
        walk(arcs, a, b, w + c),
{
    let k = choose|k: nat| walk_in(arcs, a, m, k, w);
    lemma_walk_in_step(arcs, a, m, b, c, k, w);
}

/// Some walk of exactly `k` arcs leads from `a` to `b` and takes the weight
/// carried along from `from` to `to`, without the weight being as much as
/// [`INFINITY`] at the start of any of its arcs.
pub open spec fn light_in(
    arcs: Set<(usize, usize, i32)>,
    a: usize,
    b: usize,
    k: nat,
    from: int,
    to: int,
) -> bool
    decreases k,
{
    if k == 0 {
        a == b && from == to
    } else {
        exists|m: usize, c: i32|
            light_in(arcs, a, m, (k - 1) as nat, from, to - c) && to - c < INFINITY
                && #[trigger] arcs.contains((m, b, c))
    }
}

/// Some walk of total weight `w` leads from `a` to `b`, without the weight of
/// what has been walked being as much as [`INFINITY`] at the start of any of
/// its arcs.
pub open spec fn light(arcs: Set<(usize, usize, i32)>, a: usize, b: usize, w: int) -> bool {
    exists|k: nat| light_in(arcs, a, b, k, 0, w)
}

/// `dist` holds for every vertex the least weight of a light walk from `src`
/// to it, and [`INFINITY`] where there is no such walk, or none lighter than
/// that.
pub open spec fn least_light_weights(
    arcs: Set<(usize, usize, i32)>,
    src: usize,
    dist: Seq<i32>,
) -> bool {
    forall|v: usize|
        v < dist.len() ==> {
            &&& (#[trigger] dist[v as int]) < INFINITY ==> light(arcs, src, v,
                dist[v as int] as int)
            &&& forall|w: int| #[trigger] light(arcs, src, v, w) ==> dist[v as int] <= w
        }
}

/// A light walk can be lengthened by one arc at its end, if the weight is
/// not as much as [`INFINITY`] there.
pub proof fn lemma_light_in_step(
    arcs: Set<(usize, usize, i32)>,
    a: usize,
    m: usize,
    b: usize,
    c: i32,
    k: nat,
    from: int,
    to: int,
)
    requires
        light_in(arcs, a, m, k, from, to),
        to < INFINITY,
        arcs.contains((m, b, c)),
    ensures
        light_in(arcs, a, b, k + 1, from, to + c),
{
    assert(light_in(arcs, a, m, ((k + 1) - 1) as nat, from, (to + c) - c));
}

/// Two light walks that meet can be joined, if the second takes the weight
/// up where the first leaves it.
pub proof fn lemma_light_in_join(
    arcs: Set<(usize, usize, i32)>,
    a: usize,
    b: usize,
    c: usize,
    j: nat,
    k: nat,
    from: int,
    mid: int,
    to: int,
)
    requires
        light_in(arcs, a, b, j, from, mid),
        light_in(arcs, b, c, k, mid, to),
    ensures
        light_in(arcs, a, c, j + k, from, to),
    decreases k,
{
    if k > 0 {
        let (m, x) = choose|m: usize, x: i32|
            light_in(arcs, b, m, (k - 1) as nat, mid, to - x) && to - x < INFINITY
                && #[trigger] arcs.contains((m, c, x));
        lemma_light_in_join(arcs, a, b, m, j, (k - 1) as nat, from, mid, to - x);
        lemma_light_in_step(arcs, a, m, c, x, (j + k - 1) as nat, from, to - x);
    }
}

/// A light walk stays light when it starts with less weight.
pub proof fn lemma_light_in_lower(
    arcs: Set<(usize, usize, i32)>,
    a: usize,
    b: usize,
    k: nat,
    from: int,
    to: int,
    less: int,
)
    requires
        light_in(arcs, a, b, k, from, to),
        less >= 0,
    ensures
        light_in(arcs, a, b, k, from - less, to - less),
    decreases k,
{
    if k > 0 {
        let (m, c) = choose|m: usize, c: i32|
            light_in(arcs, a, m, (k - 1) as nat, from, to - c) && to - c < INFINITY
                && #[trigger] arcs.contains((m, b, c));
        lemma_light_in_lower(arcs, a, m, (k - 1) as nat, from, to - c, less);
        lemma_light_in_step(arcs, a, m, b, c, (k - 1) as nat, from - less, to - c - less);
    }
}

/// A light walk is a walk, of the weight that it adds.
pub proof fn lemma_light_is_walk(
    arcs: Set<(usize, usize, i32)>,
    a: usize,
    b: usize,
    k: nat,
    from: int,
    to: int,
)
    requires
        light_in(arcs, a, b, k, from, to),
    ensures
        walk_in(arcs, a, b, k, to - from),
    decreases k,
{
    if k > 0 {
        let (m, c) = choose|m: usize, c: i32|
            light_in(arcs, a, m, (k - 1) as nat, from, to - c) && to - c < INFINITY
                && #[trigger] arcs.contains((m, b, c));
        lemma_light_is_walk(arcs, a, m, (k - 1) as nat, from, to - c);
        lemma_walk_in_step(arcs, a, m, b, c, (k - 1) as nat, to - c - from);
    }
}

/// No arc has a negative weight.
pub open spec fn nonnegative(arcs: Set<(usize, usize, i32)>) -> bool {
    forall|a: usize, b: usize, c: i32| #[trigger] arcs.contains((a, b, c)) ==> c >= 0
}

/// Where no weight is negative, a walk that weighs less than [`INFINITY`] is
/// light: it never weighed more on its way.
pub proof fn lemma_walk_is_light(
    arcs: Set<(usize, usize, i32)>,
    a: usize,
    b: usize,
    k: nat,
    w: int,
)
    requires
        nonnegative(arcs),
        walk_in(arcs, a, b, k, w),
        w < INFINITY,
    ensures
        light_in(arcs, a, b, k, 0, w),
    decreases k,
{
    if k > 0 {
        let (m, c) = choose|m: usize, c: i32|
            walk_in(arcs, a, m, (k - 1) as nat, w - c) && #[trigger] arcs.contains((m, b, c));
        lemma_walk_is_light(arcs, a, m, (k - 1) as nat, w - c);
        lemma_light_in_step(arcs, a, m, b, c, (k - 1) as nat, 0, w - c);
    }
}

/// Where no weight is negative, the least weights of light walks are the
/// least weights of walks.
pub proof fn lemma_light_least_is_least(arcs: Set<(usize, usize, i32)>, src: usize, dist: Seq<i32>)
    requires
        nonnegative(arcs),
        least_light_weights(arcs, src, dist),
    ensures
        least_weights(arcs, src, dist),
{
    assert forall|v: usize| v < dist.len() implies {
        &&& (#[trigger] dist[v as int]) < INFINITY ==> walk(arcs, src, v, dist[v as int] as int)
        &&& forall|w: int| #[trigger] walk(arcs, src, v, w) ==> dist[v as int] <= w
    } by {
        if dist[v as int] < INFINITY {
            let k = choose|k: nat| light_in(arcs, src, v, k, 0, dist[v as int] as int);
            lemma_light_is_walk(arcs, src, v, k, 0, dist[v as int] as int);
        }
        assert forall|w: int| #[trigger] walk(arcs, src, v, w) implies dist[v as int] <= w by {
            if w < INFINITY {
                let k = choose|k: nat| walk_in(arcs, src, v, k, w);
                lemma_walk_is_light(arcs, src, v, k, w);
                assert(light(arcs, src, v, w));
            }
        }
    }
}

} // verus!
