//! Adjacency lists as mathematical objects: edges, walks and reachability.
//!
//! A graph on the vertices `0 .. n` is a sequence of `n` neighbour lists.
//! Everything here is stated over that sequence, so that every algorithm of
//! the crate can phrase its contract in the same terms.

use vstd::prelude::*;

verus! {

/// The adjacency lists held by `adj`, one sequence of neighbours per vertex.
pub open spec fn lists(adj: &Vec<Vec<usize>>) -> Seq<Seq<usize>> {
    adj@.map_values(|row: Vec<usize>| row@)
}

/// Every neighbour named in `adj` is a vertex of the graph.
pub open spec fn valid_adjacency(adj: Seq<Seq<usize>>) -> bool {
    forall|u: int, i: int|
        0 <= u < adj.len() && 0 <= i < adj[u].len() ==> (#[trigger] adj[u][i]) < adj.len()
}

/// There is an edge from `u` to `v`.
pub open spec fn edge(adj: Seq<Seq<usize>>, u: usize, v: usize) -> bool {
    u < adj.len() && adj[u as int].contains(v)
}

/// Some walk of exactly `k` edges leads from `a` to `b`.
pub open spec fn reach_in(adj: Seq<Seq<usize>>, a: usize, b: usize, k: nat) -> bool
    decreases k,
{
    if k == 0 {
        a == b && a < adj.len()
    } else {
        exists|m: usize| reach_in(adj, a, m, (k - 1) as nat) && #[trigger] edge(adj, m, b)
    }
}

/// Some walk leads from `a` to `b`.
pub open spec fn reaches(adj: Seq<Seq<usize>>, a: usize, b: usize) -> bool {
    exists|k: nat| reach_in(adj, a, b, k)
}

/// Some walk of at most `k` edges leads from `a` to `b`.
pub open spec fn reach_within(adj: Seq<Seq<usize>>, a: usize, b: usize, k: nat) -> bool {
    exists|j: nat| j <= k && reach_in(adj, a, b, j)
}

/// `a` and `b` lie on a common closed walk: each reaches the other.
pub open spec fn mutually_reachable(adj: Seq<Seq<usize>>, a: usize, b: usize) -> bool {
    reaches(adj, a, b) && reaches(adj, b, a)
}

/// `rev` has exactly the edges of `adj`, each turned around.
pub open spec fn is_reversal(adj: Seq<Seq<usize>>, rev: Seq<Seq<usize>>) -> bool {
    &&& rev.len() == adj.len()
    &&& forall|u: usize, v: usize| #[trigger] edge(rev, v, u) <==> edge(adj, u, v)
}

/// The vertices of `0 .. limit` that are not in `seen`, counted.
pub open spec fn unseen(limit: nat, seen: Set<usize>) -> nat
    decreases limit,
{
    if limit == 0 {
        0
    } else {
        unseen((limit - 1) as nat, seen) + if limit - 1 <= usize::MAX && seen.contains(
            (limit - 1) as usize,
        ) {
            0nat
        } else {
            1nat
        }
    }
}

/// The set `seen` enlarged by every element of `more`.
pub open spec fn with_all(seen: Set<usize>, more: Seq<usize>) -> Set<usize> {
    Set::new(|x: usize| seen.contains(x) || more.contains(x))
}

/// The set of the entries of `order`.
pub open spec fn listed(order: Seq<usize>) -> Set<usize> {
    Set::new(|x: usize| order.contains(x))
}

/// The set of indices at which `flags` holds `true`.
pub open spec fn flagged(flags: Seq<bool>) -> Set<usize> {
    Set::new(|x: usize| x < flags.len() && flags[x as int])
}

/// Every vertex reaches itself.
pub proof fn lemma_reach_self(adj: Seq<Seq<usize>>, a: usize)
    requires
        a < adj.len(),
    ensures
        reaches(adj, a, a),
{
    assert(reach_in(adj, a, a, 0));
}

/// A walk can be lengthened by one edge at its end.
pub proof fn lemma_reach_in_step(adj: Seq<Seq<usize>>, a: usize, m: usize, b: usize, k: nat)
    requires
        reach_in(adj, a, m, k),
        edge(adj, m, b),
    ensures
        reach_in(adj, a, b, k + 1),
{
    assert(reach_in(adj, a, m, ((k + 1) - 1) as nat));
}

/// A walk can be lengthened by one edge at its start.
pub proof fn lemma_reach_in_prepend(adj: Seq<Seq<usize>>, a: usize, m: usize, b: usize, k: nat)
    requires
        edge(adj, a, m),
        reach_in(adj, m, b, k),
    ensures
        reach_in(adj, a, b, k + 1),
    decreases k,
{
    if k == 0 {
        assert(reach_in(adj, a, a, 0));
        lemma_reach_in_step(adj, a, a, b, 0);
    } else {
        let x = choose|x: usize| reach_in(adj, m, x, (k - 1) as nat) && #[trigger] edge(adj, x, b);
        lemma_reach_in_prepend(adj, a, m, x, (k - 1) as nat);
        lemma_reach_in_step(adj, a, x, b, k);
    }
}

/// Reachability can be lengthened by one edge at its start.
pub proof fn lemma_reach_prepend(adj: Seq<Seq<usize>>, a: usize, m: usize, b: usize)
    requires
        edge(adj, a, m),
        reaches(adj, m, b),
    ensures
        reaches(adj, a, b),
{
    let k = choose|k: nat| reach_in(adj, m, b, k);
    lemma_reach_in_prepend(adj, a, m, b, k);
}

/// Two walks that meet can be joined.
pub proof fn lemma_reach_in_join(
    adj: Seq<Seq<usize>>,
    a: usize,
    b: usize,
    c: usize,
    j: nat,
    k: nat,
)
    requires
        reach_in(adj, a, b, j),
        reach_in(adj, b, c, k),
    ensures
        reach_in(adj, a, c, j + k),
    decreases k,
{
    if k > 0 {
        let x = choose|x: usize| reach_in(adj, b, x, (k - 1) as nat) && #[trigger] edge(adj, x, c);
        lemma_reach_in_join(adj, a, b, x, j, (k - 1) as nat);
        lemma_reach_in_step(adj, a, x, c, (j + k - 1) as nat);
    }
}

/// Reachability is transitive.
pub proof fn lemma_reach_trans(adj: Seq<Seq<usize>>, a: usize, b: usize, c: usize)
    requires
        reaches(adj, a, b),
        reaches(adj, b, c),
    ensures
        reaches(adj, a, c),
{
    let j = choose|j: nat| reach_in(adj, a, b, j);
    let k = choose|k: nat| reach_in(adj, b, c, k);
    lemma_reach_in_join(adj, a, b, c, j, k);
}

/// A walk in a graph is a walk the other way in its reversal.
pub proof fn lemma_reach_in_reversal(
    adj: Seq<Seq<usize>>,
    rev: Seq<Seq<usize>>,
    a: usize,
    b: usize,
    k: nat,
)
    requires
        is_reversal(adj, rev),
        reach_in(rev, a, b, k),
    ensures
        reach_in(adj, b, a, k),
    decreases k,
{
    if k > 0 {
        let m = choose|m: usize| reach_in(rev, a, m, (k - 1) as nat) && #[trigger] edge(rev, m, b);
        lemma_reach_in_reversal(adj, rev, a, m, (k - 1) as nat);
        assert(edge(adj, b, m));
        lemma_reach_in_prepend(adj, b, m, a, (k - 1) as nat);
    }
}

/// Reachability in the reversal is reachability the other way.
pub proof fn lemma_reach_reversal(adj: Seq<Seq<usize>>, rev: Seq<Seq<usize>>, a: usize, b: usize)
    requires
        is_reversal(adj, rev),
        reaches(rev, a, b),
    ensures
        reaches(adj, b, a),
{
    let k = choose|k: nat| reach_in(rev, a, b, k);
    lemma_reach_in_reversal(adj, rev, a, b, k);
}

/// Seeing more vertices never leaves more of them unseen.
pub proof fn lemma_unseen_monotone(limit: nat, small: Set<usize>, large: Set<usize>)
    requires
        small.subset_of(large),
    ensures
        unseen(limit, large) <= unseen(limit, small),
    decreases limit,
{
    if limit > 0 {
        lemma_unseen_monotone((limit - 1) as nat, small, large);
    }
}

/// Seeing one more vertex of the graph leaves one fewer unseen.
pub proof fn lemma_unseen_insert(limit: nat, seen: Set<usize>, v: usize)
    requires
        v < limit,
        !seen.contains(v),
    ensures
        unseen(limit, seen.insert(v)) + 1 == unseen(limit, seen),
    decreases limit,
{
    if limit - 1 == v {
        lemma_unseen_same_below((limit - 1) as nat, seen, seen.insert(v));
    } else {
        lemma_unseen_insert((limit - 1) as nat, seen, v);
    }
}

/// Only membership below `limit` matters to the count.
pub proof fn lemma_unseen_same_below(limit: nat, a: Set<usize>, b: Set<usize>)
    requires
        forall|x: usize| x < limit ==> (a.contains(x) <==> b.contains(x)),
    ensures
        unseen(limit, a) == unseen(limit, b),
    decreases limit,
{
    if limit > 0 {
        lemma_unseen_same_below((limit - 1) as nat, a, b);
    }
}

/// An element of a concatenation is an element of one of its parts.
pub proof fn lemma_contains_concat(a: Seq<usize>, b: Seq<usize>, x: usize)
    ensures
        (a + b).contains(x) <==> a.contains(x) || b.contains(x),
{
    if a.contains(x) {
        let i = choose|i: int| 0 <= i < a.len() && a[i] == x;
        assert((a + b)[i] == x);
    }
    if b.contains(x) {
        let i = choose|i: int| 0 <= i < b.len() && b[i] == x;
        assert((a + b)[a.len() + i] == x);
    }
    if (a + b).contains(x) {
        let i = choose|i: int| 0 <= i < (a + b).len() && (a + b)[i] == x;
        if i < a.len() {
            assert(a[i] == x);
        } else {
            assert(b[i - a.len()] == x);
        }
    }
}

/// An element of a sequence with one more entry is that entry or an element
/// of the sequence.
pub proof fn lemma_contains_push(a: Seq<usize>, v: usize, x: usize)
    ensures
        a.push(v).contains(x) <==> a.contains(x) || x == v,
{
    assert(a.push(v) =~= a + seq![v]);
    lemma_contains_concat(a, seq![v], x);
    assert(seq![v][0] == v);
}

/// Adding a concatenation to a set adds its parts one after the other.
pub proof fn lemma_with_all_concat(seen: Set<usize>, a: Seq<usize>, b: Seq<usize>)
    ensures
        with_all(seen, a + b) == with_all(with_all(seen, a), b),
{
    assert forall|x: usize| with_all(seen, a + b).contains(x) == with_all(
        with_all(seen, a),
        b,
    ).contains(x) by {
        lemma_contains_concat(a, b, x);
    }
    assert(with_all(seen, a + b) =~= with_all(with_all(seen, a), b));
}

/// Adding no elements leaves a set as it is.
pub proof fn lemma_with_all_empty(seen: Set<usize>)
    ensures
        with_all(seen, Seq::<usize>::empty()) == seen,
{
    assert(with_all(seen, Seq::<usize>::empty()) =~= seen);
}

/// Adding a sequence and then one more element is inserting that element.
pub proof fn lemma_with_all_push(seen: Set<usize>, a: Seq<usize>, x: usize)
    ensures
        with_all(seen, a.push(x)) == with_all(seen, a).insert(x),
        with_all(seen, a.push(x)) == with_all(seen.insert(x), a),
        with_all(seen, seq![x] + a) == with_all(seen.insert(x), a),
{
    assert(a.push(x) =~= a + seq![x]);
    assert forall|y: usize| seq![x].contains(y) <==> y == x by {
        assert(seq![x][0] == x);
    }
    assert forall|y: usize| with_all(seen, a.push(x)).contains(y) == with_all(seen, a).insert(
        x,
    ).contains(y) by {
        lemma_contains_concat(a, seq![x], y);
    }
    assert forall|y: usize| with_all(seen, seq![x] + a).contains(y) == with_all(
        seen.insert(x),
        a,
    ).contains(y) by {
        lemma_contains_concat(seq![x], a, y);
    }
    assert(with_all(seen, a.push(x)) =~= with_all(seen, a).insert(x));
    assert(with_all(seen, a.push(x)) =~= with_all(seen.insert(x), a));
    assert(with_all(seen, seq![x] + a) =~= with_all(seen.insert(x), a));
}

/// Setting one flag inserts its index into the set of flagged indices.
pub proof fn lemma_flagged_set(flags: Seq<bool>, v: usize)
    requires
        v < flags.len(),
    ensures
        flagged(flags.update(v as int, true)) == flagged(flags).insert(v),
{
    assert(flagged(flags.update(v as int, true)) =~= flagged(flags).insert(v));
}

/// With nothing seen, every vertex is unseen.
pub proof fn lemma_unseen_none(limit: nat)
    ensures
        unseen(limit, Set::empty()) == limit,
    decreases limit,
{
    if limit > 0 {
        lemma_unseen_none((limit - 1) as nat);
    }
}

/// A sequence of distinct vertices of a graph leaves as many vertices unseen
/// as the graph has more than the sequence.
pub proof fn lemma_distinct_count(n: nat, p: Seq<usize>)
    requires
        p.no_duplicates(),
        forall|t: int| 0 <= t < p.len() ==> (#[trigger] p[t]) < n,
    ensures
        unseen(n, listed(p)) + p.len() == n,
    decreases p.len(),
{
    if p.len() == 0 {
        assert(listed(p) =~= Set::empty());
        lemma_unseen_none(n);
    } else {
        let rest = p.drop_last();
        let x = p.last();
        assert forall|t: int| 0 <= t < rest.len() implies (#[trigger] rest[t]) < n by {
            assert(rest[t] == p[t]);
        }
        lemma_distinct_count(n, rest);
        assert(!rest.contains(x)) by {
            if rest.contains(x) {
                let t = choose|t: int| 0 <= t < rest.len() && rest[t] == x;
                assert(p[t] == p[p.len() - 1]);
            }
        }
        assert forall|y: usize| listed(p).contains(y) == listed(rest).insert(x).contains(y) by {
            assert(p =~= rest.push(x));
            lemma_contains_push(rest, x, y);
        }
        assert(listed(p) =~= listed(rest).insert(x));
        assert(p[p.len() - 1] < n);
        lemma_unseen_insert(n, listed(rest), x);
    }
}

/// More vertices than a graph has cannot all be distinct: two places of the
/// sequence hold the same vertex.
pub proof fn lemma_repeat(n: nat, p: Seq<usize>) -> (r: (int, int))
    requires
        p.len() > n,
        forall|t: int| 0 <= t < p.len() ==> (#[trigger] p[t]) < n,
    ensures
        0 <= r.0 < r.1 < p.len(),
        p[r.0] == p[r.1],
{
    if p.no_duplicates() {
        lemma_distinct_count(n, p);
    }
    let (i, j) = choose|i: int, j: int| 0 <= i < p.len() && 0 <= j < p.len() && i != j && p[i]
        == p[j];
    if i < j {
        (i, j)
    } else {
        (j, i)
    }
}

/// Tells whether every neighbour named in `adj` is a vertex of the graph.
pub fn check_adjacency(adj: &Vec<Vec<usize>>) -> (ok: bool)
    ensures
        ok == valid_adjacency(lists(adj)),
{
    let n = adj.len();
    let mut u: usize = 0;
    while u < n
        invariant
            n == adj.len(),
            u <= n,
            forall|a: int, i: int|
                0 <= a < u && 0 <= i < lists(adj)[a].len() ==> (#[trigger] lists(adj)[a][i]) < n,
        decreases n - u,
    {
        let row = &adj[u];
        let mut i: usize = 0;
        while i < row.len()
            invariant
                n == adj.len(),
                u < n,
                row@ == lists(adj)[u as int],
                i <= row.len(),
                forall|j: int| 0 <= j < i ==> (#[trigger] row@[j]) < n,
            decreases row.len() - i,
        {
            if row[i] >= n {
                assert(!(lists(adj)[u as int][i as int] < lists(adj).len()));
                return false;
            }
            i += 1;
        }
        u += 1;
    }
    true
}

} // verus!
