//! Closed walks of negative weight, and what their absence means: every walk
//! can be shortened to one of fewer arcs than the graph has vertices,
//! without getting heavier.
//!
//! The walks here are the light walks of [`crate::weighted`]: the distances
//! of this crate treat a weight as large as `INFINITY` as "not reached", so
//! a walk counts only while the weight walked so far stays below that.

use vstd::prelude::*;
use crate::reach::lemma_repeat;
use crate::weighted::{
    lemma_light_in_join, lemma_light_in_lower, lemma_light_in_step, lemma_light_is_walk, light,
    light_in, walk, walk_in, INFINITY,
};

verus! {

/// Every arc joins two of the vertices `0 .. n`.
pub open spec fn arcs_within(arcs: Set<(usize, usize, i32)>, n: nat) -> bool {
    forall|a: usize, b: usize, c: i32| #[trigger] arcs.contains((a, b, c)) ==> a < n && b < n
}

/// Some vertex that a light walk from `src` reaches with the weight `d` lies
/// on a closed walk that is light from there and brings the weight below `d`.
pub open spec fn negative_cycle_reached(arcs: Set<(usize, usize, i32)>, src: usize) -> bool {
    exists|v: usize, d: int, k: nat, e: int|
        #[trigger] light(arcs, src, v, d) && d < INFINITY && k > 0 && #[trigger] light_in(
            arcs,
            v,
            v,
            k,
            d,
            e,
        ) && e < d
}

/// Some vertex that `src` reaches lies on a closed walk of negative weight.
pub open spec fn negative_cycle_exists(arcs: Set<(usize, usize, i32)>, src: usize) -> bool {
    exists|v: usize, d: int, k: nat, c: int|
        #[trigger] walk(arcs, src, v, d) && k > 0 && #[trigger] walk_in(arcs, v, v, k, c) && c < 0
}

/// A closed walk that is light and brings the weight down is a closed walk of
/// negative weight.
pub proof fn lemma_light_cycle_is_cycle(arcs: Set<(usize, usize, i32)>, src: usize)
    requires
        negative_cycle_reached(arcs, src),
    ensures
        negative_cycle_exists(arcs, src),
{
    let (v, d, k, e) = choose|v: usize, d: int, k: nat, e: int|
        #[trigger] light(arcs, src, v, d) && d < INFINITY && k > 0 && #[trigger] light_in(
            arcs,
            v,
            v,
            k,
            d,
            e,
        ) && e < d;
    let steps = choose|steps: nat| light_in(arcs, src, v, steps, 0, d);
    lemma_light_is_walk(arcs, src, v, steps, 0, d);
    lemma_light_is_walk(arcs, v, v, k, d, e);
    assert(walk(arcs, src, v, d));
    assert(walk_in(arcs, v, v, k, e - d));
}

/// The sum of the weights `ws`.
spec fn total(ws: Seq<i32>) -> int
    decreases ws.len(),
{
    if ws.len() == 0 {
        0
    } else {
        total(ws.drop_last()) + ws.last()
    }
}

/// The arc from the vertex at `t` to the next one, with the weight at `t`, is
/// an arc of the graph, and the weight walked before it is not as much as
/// [`INFINITY`].
spec fn hop(arcs: Set<(usize, usize, i32)>, p: Seq<usize>, ws: Seq<i32>, t: int) -> bool {
    arcs.contains((p[t], p[t + 1], ws[t])) && total(ws.take(t)) < INFINITY
}

/// The vertices `p` are the vertices of a light walk, in their order, and
/// `ws` the weights of its arcs.
spec fn trail(arcs: Set<(usize, usize, i32)>, p: Seq<usize>, ws: Seq<i32>) -> bool {
    &&& p.len() == ws.len() + 1
    &&& forall|t: int| 0 <= t < ws.len() ==> #[trigger] hop(arcs, p, ws, t)
}

/// A light walk has vertices and weights.
proof fn lemma_trail_of_walk(
    arcs: Set<(usize, usize, i32)>,
    a: usize,
    b: usize,
    k: nat,
    w: int,
) -> (r: (Seq<usize>, Seq<i32>))
    requires
        light_in(arcs, a, b, k, 0, w),
    ensures
        trail(arcs, r.0, r.1),
        r.1.len() == k,
        r.0[0] == a,
        r.0[k as int] == b,
        total(r.1) == w,
    decreases k,
{
    if k == 0 {
        (seq![a], Seq::empty())
    } else {
        let (m, c) = choose|m: usize, c: i32|
            light_in(arcs, a, m, (k - 1) as nat, 0, w - c) && w - c < INFINITY
                && #[trigger] arcs.contains((m, b, c));
        let (p, ws) = lemma_trail_of_walk(arcs, a, m, (k - 1) as nat, w - c);
        let q = p.push(b);
        let vs = ws.push(c);
        assert(vs.drop_last() =~= ws);
        assert forall|t: int| 0 <= t < vs.len() implies #[trigger] hop(arcs, q, vs, t) by {
            if t < ws.len() {
                assert(hop(arcs, p, ws, t));
                assert(vs.take(t) =~= ws.take(t));
            } else {
                assert(vs.take(t) =~= ws);
            }
        }
        (q, vs)
    }
}

/// A part of a light walk is a light walk, from the weight walked before it
/// to the weight walked at its end.
proof fn lemma_segment(arcs: Set<(usize, usize, i32)>, p: Seq<usize>, ws: Seq<i32>, i: int, j: int)
    requires
        trail(arcs, p, ws),
        0 <= i <= j <= ws.len(),
    ensures
        light_in(arcs, p[i], p[j], (j - i) as nat, total(ws.take(i)), total(ws.take(j))),
    decreases j - i,
{
    if j > i {
        lemma_segment(arcs, p, ws, i, j - 1);
        assert(hop(arcs, p, ws, j - 1));
        assert(ws.take(j).drop_last() =~= ws.take(j - 1));
        assert(ws.take(j).last() == ws[j - 1]);
        lemma_light_in_step(
            arcs,
            p[i],
            p[j - 1],
            p[j],
            ws[j - 1],
            (j - 1 - i) as nat,
            total(ws.take(i)),
            total(ws.take(j - 1)),
        );
    }
}

/// Where no closed walk that brings the weight down is reached, every light
/// walk from `src` can be replaced by one of fewer arcs than the graph has
/// vertices that is no heavier.
pub proof fn lemma_shorten(
    arcs: Set<(usize, usize, i32)>,
    n: nat,
    src: usize,
    v: usize,
    k: nat,
    w: int,
) -> (r: (nat, int))
    requires
        arcs_within(arcs, n),
        src < n,
        !negative_cycle_reached(arcs, src),
        light_in(arcs, src, v, k, 0, w),
    ensures
        r.0 < n,
        r.1 <= w,
        light_in(arcs, src, v, r.0, 0, r.1),
    decreases k,
{
    if k < n {
        (k, w)
    } else {
        let (p, ws) = lemma_trail_of_walk(arcs, src, v, k, w);
        assert forall|t: int| 0 <= t < p.len() implies (#[trigger] p[t]) < n by {
            if t > 0 {
                assert(hop(arcs, p, ws, t - 1));
            }
        }
        let (i, j) = lemma_repeat(n, p);
        let x = p[i];
        assert(ws.take(0) =~= Seq::empty());
        assert(ws.take(k as int) =~= ws);
        lemma_segment(arcs, p, ws, 0, i);
        lemma_segment(arcs, p, ws, i, j);
        lemma_segment(arcs, p, ws, j, k as int);
        let before = total(ws.take(i));
        let around = total(ws.take(j));
        assert(hop(arcs, p, ws, i));
        assert(light(arcs, src, x, before));
        assert(light_in(arcs, x, x, (j - i) as nat, before, around));
        assert(around >= before);
        lemma_light_in_lower(arcs, x, v, (k - j) as nat, around, w, around - before);
        lemma_light_in_join(
            arcs,
            src,
            x,
            v,
            i as nat,
            (k - j) as nat,
            0,
            before,
            w - (around - before),
        );
        lemma_shorten(arcs, n, src, v, (i + k - j) as nat, w - (around - before))
    }
}

/// A closed walk that brings the weight down can be gone round any number of
/// times, and brings it down every time.
pub proof fn lemma_pump(
    arcs: Set<(usize, usize, i32)>,
    a: usize,
    v: usize,
    d: int,
    k: nat,
    e: int,
    times: nat,
)
    requires
        light(arcs, a, v, d),
        light_in(arcs, v, v, k, d, e),
        e < d,
    ensures
        light(arcs, a, v, d - times * (d - e)),
    decreases times,
{
    if times > 0 {
        lemma_pump(arcs, a, v, d, k, e, (times - 1) as nat);
        let far = d - (times - 1) * (d - e);
        assert(far <= d) by (nonlinear_arith)
            requires
                far == d - (times - 1) * (d - e),
                times >= 1,
                d - e > 0,
        ;
        let steps = choose|steps: nat| light_in(arcs, a, v, steps, 0, far);
        lemma_light_in_lower(arcs, v, v, k, d, e, d - far);
        lemma_light_in_join(arcs, a, v, v, steps, k, 0, far, e - (d - far));
        assert(e - (d - far) == d - times * (d - e)) by (nonlinear_arith)
            requires
                far == d - (times - 1) * (d - e),
        ;
        assert(light_in(arcs, a, v, steps + k, 0, d - times * (d - e)));
    } else {
        assert(d - times * (d - e) == d) by (nonlinear_arith)
            requires
                times == 0,
        ;
    }
}

} // verus!
