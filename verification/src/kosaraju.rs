//! Strongly connected components by Kosaraju's two passes.
//!
//! The first pass explores the reversed graph depth-first from every vertex
//! in ascending order and records the order in which explorations are
//! completed. The second pass takes the vertices from the last completed to
//! the first, and explores the graph itself from each that is not yet
//! visited: what one such exploration visits is one component.

use vstd::prelude::*;
use crate::error::GraphError;
use crate::reach::{
    check_adjacency, edge, flagged, is_reversal, lemma_contains_push, lemma_reach_prepend,
    lemma_reach_reversal, lemma_reach_trans, lemma_with_all_empty, lists, mutually_reachable,
    reach_in, reaches, valid_adjacency, with_all,
};
use crate::traverse::{explore, forest, visit};
use crate::traverse_facts::{
    block_ok, blocks, closed, has_block, lemma_forest_basic, lemma_forest_blocks,
    lemma_forest_closed, lemma_visit_basic, lemma_visit_closed, lemma_visit_inside,
    lemma_visit_reached,
};

verus! {

/// The vertices `0 .. n` in ascending order.
spec fn all_vertices(n: nat) -> Seq<usize> {
    Seq::new(n, |i: int| i as usize)
}

/// The entry `j` of the list of `a` is `b`, and stands before the position
/// `(u, i)`: in the list of a vertex before `u`, or in that of `u` before `i`.
spec fn placed(adj: Seq<Seq<usize>>, u: int, i: int, a: usize, b: usize, j: int) -> bool {
    &&& a < adj.len()
    &&& 0 <= j < adj[a as int].len()
    &&& adj[a as int][j] == b
    &&& (a < u || (a == u && j < i))
}

/// The edge from `a` to `b` stands in the list of `a` before the position
/// `(u, i)`.
spec fn edge_before(adj: Seq<Seq<usize>>, u: int, i: int, a: usize, b: usize) -> bool {
    exists|j: int| #[trigger] placed(adj, u, i, a, b, j)
}

/// The edges before the end of the list of `u` are the edges before the start
/// of the next list.
proof fn lemma_next_list(adj: Seq<Seq<usize>>, u: int, a: usize, b: usize)
    requires
        0 <= u < adj.len(),
    ensures
        edge_before(adj, u, adj[u].len() as int, a, b) <==> edge_before(adj, u + 1, 0, a, b),
{
    if edge_before(adj, u, adj[u].len() as int, a, b) {
        let j = choose|j: int| #[trigger] placed(adj, u, adj[u].len() as int, a, b, j);
        assert(placed(adj, u + 1, 0, a, b, j));
    }
    if edge_before(adj, u + 1, 0, a, b) {
        let j = choose|j: int| #[trigger] placed(adj, u + 1, 0, a, b, j);
        assert(placed(adj, u, adj[u].len() as int, a, b, j));
    }
}

/// The edges before the position behind `(u, i)` are the edges before
/// `(u, i)` and the edge at `(u, i)`.
proof fn lemma_next_entry(adj: Seq<Seq<usize>>, u: int, i: int, a: usize, b: usize)
    requires
        0 <= u < adj.len(),
        0 <= i < adj[u].len(),
    ensures
        edge_before(adj, u, i + 1, a, b) <==> edge_before(adj, u, i, a, b) || (a == u && b
            == adj[u][i]),
{
    if edge_before(adj, u, i, a, b) {
        let j = choose|j: int| #[trigger] placed(adj, u, i, a, b, j);
        assert(placed(adj, u, i + 1, a, b, j));
    }
    if a == u && b == adj[u][i] {
        assert(placed(adj, u, i + 1, a, b, i));
    }
    if edge_before(adj, u, i + 1, a, b) {
        let j = choose|j: int| #[trigger] placed(adj, u, i + 1, a, b, j);
        if !(a == u && j == i) {
            assert(placed(adj, u, i, a, b, j));
        }
    }
}

/// All the edges of a graph stand before the end of its last list.
proof fn lemma_all_lists(adj: Seq<Seq<usize>>, a: usize, b: usize)
    ensures
        edge_before(adj, adj.len() as int, 0, a, b) <==> edge(adj, a, b),
{
    if edge_before(adj, adj.len() as int, 0, a, b) {
        let j = choose|j: int| #[trigger] placed(adj, adj.len() as int, 0, a, b, j);
        assert(adj[a as int][j] == b);
    }
    if edge(adj, a, b) {
        let j = choose|j: int| 0 <= j < adj[a as int].len() && adj[a as int][j] == b;
        assert(placed(adj, adj.len() as int, 0, a, b, j));
    }
}

/// Builds the reversed graph: for every edge from `u` to `v` in `adj`, an
/// edge from `v` to `u`.
fn reversed(adj: &Vec<Vec<usize>>) -> (rev: Vec<Vec<usize>>)
    requires
        valid_adjacency(lists(adj)),
    ensures
        is_reversal(lists(adj), lists(&rev)),
        valid_adjacency(lists(&rev)),
{
    let n = adj.len();
    let ghost g = lists(adj);
    let mut rev: Vec<Vec<usize>> = Vec::new();
    while rev.len() < n
        invariant
            rev.len() <= n,
            forall|k: int| 0 <= k < rev.len() ==> (#[trigger] rev[k])@.len() == 0,
        decreases n - rev.len(),
    {
        rev.push(Vec::new());
    }
    let mut u: usize = 0;
    assert forall|a: usize, b: usize| #[trigger]
        edge(lists(&rev), b, a) <==> edge_before(g, 0, 0, a, b) by {
        if edge_before(g, 0, 0, a, b) {
            let j = choose|j: int| #[trigger] placed(g, 0, 0, a, b, j);
        }
    }
    while u < n
        invariant
            n == adj.len(),
            g == lists(adj),
            valid_adjacency(g),
            rev.len() == n,
            u <= n,
            valid_adjacency(lists(&rev)),
            forall|a: usize, b: usize| #[trigger]
                edge(lists(&rev), b, a) <==> edge_before(g, u as int, 0, a, b),
        decreases n - u,
    {
        let row = &adj[u];
        let mut i: usize = 0;
        while i < row.len()
            invariant
                n == adj.len(),
                g == lists(adj),
                valid_adjacency(g),
                rev.len() == n,
                u < n,
                row@ == g[u as int],
                i <= row.len(),
                valid_adjacency(lists(&rev)),
                forall|a: usize, b: usize| #[trigger]
                    edge(lists(&rev), b, a) <==> edge_before(g, u as int, i as int, a, b),
            decreases row.len() - i,
        {
            let v = row[i];
            assert(g[u as int][i as int] < n);
            let ghost old_rev = lists(&rev);
            rev[v].push(u);
            proof {
                let new_rev = lists(&rev);
                assert(new_rev =~= old_rev.update(v as int, old_rev[v as int].push(u)));
                assert forall|a: usize, b: usize| #[trigger]
                    edge(new_rev, b, a) <==> edge_before(g, u as int, i + 1, a, b) by {
                    lemma_edge_after_push(old_rev, v, u, b, a);
                    lemma_next_entry(g, u as int, i as int, a, b);
                }
                assert forall|x: int, y: int|
                    0 <= x < new_rev.len() && 0 <= y < new_rev[x].len() implies (
                #[trigger] new_rev[x][y]) < new_rev.len() by {
                    if !(x == v && y == old_rev[v as int].len()) {
                        assert(new_rev[x][y] == old_rev[x][y]);
                    }
                }
            }
            i += 1;
        }
        proof {
            assert forall|a: usize, b: usize| #[trigger]
                edge(lists(&rev), b, a) <==> edge_before(g, u + 1, 0, a, b) by {
                lemma_next_list(g, u as int, a, b);
            }
        }
        u += 1;
    }
    proof {
        assert forall|a: usize, b: usize| #[trigger] edge(lists(&rev), b, a) <==> edge(g, a, b) by {
            lemma_all_lists(g, a, b);
        }
    }
    rev
}

/// Appending `u` to the list of `v` adds the edge from `v` to `u` and no other.
proof fn lemma_edge_after_push(adj: Seq<Seq<usize>>, v: usize, u: usize, a: usize, b: usize)
    requires
        v < adj.len(),
    ensures
        edge(adj.update(v as int, adj[v as int].push(u)), a, b) <==> edge(adj, a, b) || (a == v && b
            == u),
{
    let after = adj.update(v as int, adj[v as int].push(u));
    if edge(adj, a, b) {
        let j = choose|j: int| 0 <= j < adj[a as int].len() && adj[a as int][j] == b;
        assert(after[a as int][j] == b);
    }
    if a == v && b == u {
        assert(after[a as int][adj[v as int].len() as int] == b);
    }
    if edge(after, a, b) {
        let j = choose|j: int| 0 <= j < after[a as int].len() && after[a as int][j] == b;
        if a == v && j == adj[v as int].len() {
        } else {
            assert(adj[a as int][j] == b);
        }
    }
}

/// The order in which the explorations of the first pass are completed: the
/// graph is explored depth-first from every vertex in ascending order, and
/// each vertex is listed when its exploration is complete.
fn finish_order(adj: &Vec<Vec<usize>>) -> (order: Vec<usize>)
    requires
        valid_adjacency(lists(adj)),
    ensures
        order@ == forest(lists(adj), all_vertices(adj.len() as nat), Set::empty(), true),
{
    let n = adj.len();
    let ghost g = lists(adj);
    let ghost roots = all_vertices(n as nat);
    let ghost total = forest(g, roots, Set::empty(), true);
    let mut visited: Vec<bool> = vec![false; n];
    let mut order: Vec<usize> = Vec::new();
    assert(flagged(visited@) =~= Set::empty());
    assert(roots.skip(0) =~= roots);
    assert(order@ + total =~= total);
    let mut u: usize = 0;
    while u < n
        invariant
            n == adj.len(),
            g == lists(adj),
            valid_adjacency(g),
            roots == all_vertices(n as nat),
            visited.len() == n,
            u <= n,
            total == order@ + forest(g, roots.skip(u as int), flagged(visited@), true),
        decreases n - u,
    {
        let ghost seen = flagged(visited@);
        let ghost listed = order@;
        proof {
            assert(roots.skip(u as int)[0] == u);
            assert(roots.skip(u as int).skip(1) =~= roots.skip(u + 1));
        }
        if !visited[u] {
            explore(adj, u, &mut visited, &mut order, true);
            assert(listed + (visit(g, u, seen, true) + forest(g, roots.skip(u + 1),
                flagged(visited@), true)) =~= order@ + forest(g, roots.skip(u + 1),
                flagged(visited@), true));
        } else {
            proof {
                lemma_with_all_empty(seen);
                assert(visit(g, u, seen, true) =~= Seq::empty());
                assert(listed + (visit(g, u, seen, true) + forest(g, roots.skip(u + 1), seen, true))
                    =~= listed + forest(g, roots.skip(u + 1), seen, true));
            }
        }
        u += 1;
    }
    assert(roots.skip(n as int) =~= Seq::empty());
    assert(order@ + Seq::<usize>::empty() =~= order@);
    order
}

/// `c` is one whole class of mutually reachable vertices.
pub open spec fn is_class(adj: Seq<Seq<usize>>, c: Seq<usize>) -> bool {
    &&& c.len() > 0
    &&& forall|x: usize, y: usize|
        #![trigger c.contains(x), c.contains(y)]
        #![trigger c.contains(x), mutually_reachable(adj, x, y)]
        c.contains(x) ==> (c.contains(y) <==> mutually_reachable(adj, x, y))
}

/// Whatever is mutually reachable with a vertex of `seen` is in `seen` too.
spec fn class_closed(adj: Seq<Seq<usize>>, seen: Set<usize>) -> bool {
    forall|a: usize, b: usize|
        seen.contains(a) && #[trigger] mutually_reachable(adj, a, b) ==> seen.contains(b)
}

/// `v` stands in one of the lists of `comps`.
pub open spec fn listed_in(comps: Seq<Seq<usize>>, v: usize) -> bool {
    exists|i: int| 0 <= i < comps.len() && (#[trigger] comps[i]).contains(v)
}

/// No vertex stands in two of the lists of `comps`.
spec fn disjoint(comps: Seq<Seq<usize>>) -> bool {
    forall|i: int, j: int, x: usize|
        0 <= i < j < comps.len() ==> !(#[trigger] comps[i].contains(x)
            && #[trigger] comps[j].contains(
            x,
        ))
}

/// Mutual reachability is transitive.
pub proof fn lemma_mutual_trans(adj: Seq<Seq<usize>>, a: usize, b: usize, c: usize)
    requires
        mutually_reachable(adj, a, b),
        mutually_reachable(adj, b, c),
    ensures
        mutually_reachable(adj, a, c),
{
    lemma_reach_trans(adj, a, b, c);
    lemma_reach_trans(adj, c, b, a);
}

/// An exploration that leaves no edge open lists every vertex that is
/// mutually reachable with its root, provided the vertices seen before are
/// whole classes.
proof fn lemma_collected(
    adj: Seq<Seq<usize>>,
    seen: Set<usize>,
    c: Seq<usize>,
    u: usize,
    y: usize,
    k: nat,
)
    requires
        closed(adj, with_all(seen, c), with_all(seen, c)),
        class_closed(adj, seen),
        !seen.contains(u),
        c.contains(u),
        reach_in(adj, u, y, k),
        reaches(adj, y, u),
    ensures
        c.contains(y),
    decreases k,
{
    if k > 0 {
        let m = choose|m: usize| reach_in(adj, u, m, (k - 1) as nat) && #[trigger] edge(adj, m, y);
        lemma_reach_prepend(adj, m, y, u);
        lemma_collected(adj, seen, c, u, m, (k - 1) as nat);
        assert(with_all(seen, c).contains(m));
        assert(with_all(seen, c).contains(y));
        if seen.contains(y) {
            assert(reaches(adj, u, y));
            assert(mutually_reachable(adj, y, u));
        }
    }
}

/// What the second pass collects from a vertex is the class of that vertex.
proof fn lemma_component(
    adj: Seq<Seq<usize>>,
    rev: Seq<Seq<usize>>,
    order: Seq<usize>,
    i: int,
    seen: Set<usize>,
)
    requires
        valid_adjacency(adj),
        is_reversal(adj, rev),
        blocks(rev, order),
        forall|v: usize| v < adj.len() ==> #[trigger] order.contains(v),
        0 <= i < order.len(),
        order[i] < adj.len(),
        !seen.contains(order[i]),
        forall|j: int| i < j < order.len() ==> seen.contains(#[trigger] order[j]),
        class_closed(adj, seen),
        closed(adj, seen, seen),
    ensures
        is_class(adj, visit(adj, order[i], seen, false)),
        class_closed(adj, with_all(seen, visit(adj, order[i], seen, false))),
        closed(
            adj,
            with_all(seen, visit(adj, order[i], seen, false)),
            with_all(seen, visit(adj, order[i], seen, false)),
        ),
        visit(adj, order[i], seen, false).no_duplicates(),
        visit(adj, order[i], seen, false).contains(order[i]),
        forall|x: usize| #[trigger]
            visit(adj, order[i], seen, false).contains(x) ==> x < adj.len() && !seen.contains(x),
{
    let u = order[i];
    let c = visit(adj, u, seen, false);
    assert(has_block(rev, order, i));
    let s = choose|s: int| #[trigger] block_ok(rev, order, i, s);
    let inside = Set::new(|x: usize| exists|l: int| s <= l <= i && #[trigger] order[l] == x);
    assert(order[i] == u);
    assert(inside.contains(u));
    assert forall|x: usize, y: usize|
        inside.contains(x) && #[trigger] edge(adj, x, y) && !seen.contains(y)
            implies inside.contains(
        y,
    ) by {
        let l = choose|l: int| s <= l <= i && #[trigger] order[l] == x;
        let e = choose|e: int| 0 <= e < adj[x as int].len() && adj[x as int][e] == y;
        assert(adj[x as int][e] < adj.len());
        assert(order.contains(y));
        let m = choose|m: int| 0 <= m < order.len() && order[m] == y;
        assert(edge(rev, y, x));
        if m > i {
            assert(seen.contains(order[m]));
        }
        if m < s {
            assert(!edge(rev, order[m], order[l]));
        }
        assert(order[m] == y);
    }
    lemma_visit_inside(adj, u, seen, false, inside);
    lemma_visit_reached(adj, u, seen, false);
    lemma_visit_closed(adj, u, seen, seen, false);
    lemma_visit_basic(adj, u, seen, false);
    assert forall|x: usize| c.contains(x) implies mutually_reachable(adj, u, x) by {
        assert(inside.contains(x));
        let l = choose|l: int| s <= l <= i && #[trigger] order[l] == x;
        assert(reaches(rev, order[i], order[l]));
        lemma_reach_reversal(adj, rev, u, x);
    }
    assert forall|y: usize| mutually_reachable(adj, u, y) implies c.contains(y) by {
        let k = choose|k: nat| reach_in(adj, u, y, k);
        lemma_collected(adj, seen, c, u, y, k);
    }
    assert forall|x: usize, y: usize| c.contains(x) implies (c.contains(y) <==> mutually_reachable(
        adj,
        x,
        y,
    )) by {
        assert(mutually_reachable(adj, x, u));
        if c.contains(y) {
            lemma_mutual_trans(adj, x, u, y);
        }
        if mutually_reachable(adj, x, y) {
            lemma_mutual_trans(adj, u, x, y);
        }
    }
    assert forall|a: usize, b: usize|
        with_all(seen, c).contains(a) && #[trigger] mutually_reachable(
            adj,
            a,
            b,
        ) implies with_all(seen, c).contains(b) by {
        if !seen.contains(a) {
            assert(c.contains(a));
        }
    }
}

/// The second pass: takes the vertices of `order` from the last to the first
/// and explores `adj` from each that is not yet visited. What one exploration
/// visits becomes one list of the result.
fn collect_components(
    adj: &Vec<Vec<usize>>,
    rev: &Vec<Vec<usize>>,
    order: &Vec<usize>,
) -> (comps: Vec<Vec<usize>>)
    requires
        valid_adjacency(lists(adj)),
        valid_adjacency(lists(rev)),
        is_reversal(lists(adj), lists(rev)),
        order@ == forest(lists(rev), all_vertices(adj.len() as nat), Set::empty(), true),
    ensures
        forall|i: int| 0 <= i < comps.len() ==> is_class(lists(adj), #[trigger] lists(&comps)[i]),
        forall|i: int| 0 <= i < comps.len() ==> (#[trigger] lists(&comps)[i]).no_duplicates(),
        disjoint(lists(&comps)),
        forall|v: usize| v < adj.len() <==> #[trigger] listed_in(lists(&comps), v),
{
    let n = adj.len();
    let ghost g = lists(adj);
    let ghost h = lists(rev);
    let ghost roots = all_vertices(n as nat);
    proof {
        let none = Set::<usize>::empty();
        lemma_forest_basic(h, roots, none, true);
        lemma_forest_closed(h, roots, none, none, true);
        lemma_forest_blocks(h, roots, none, none);
        assert forall|v: usize| v < n implies #[trigger] order@.contains(v) by {
            assert(roots[v as int] == v);
            assert(roots.contains(v));
            assert(with_all(none, order@).contains(v));
        }
    }
    let mut visited: Vec<bool> = vec![false; n];
    let mut comps: Vec<Vec<usize>> = Vec::new();
    let mut k: usize = order.len();
    assert(flagged(visited@) =~= Set::empty());
    while k > 0
        invariant
            n == adj.len(),
            g == lists(adj),
            h == lists(rev),
            valid_adjacency(g),
            is_reversal(g, h),
            blocks(h, order@),
            forall|v: usize| v < n ==> #[trigger] order@.contains(v),
            forall|x: usize| #[trigger] order@.contains(x) ==> x < n,
            k <= order.len(),
            visited.len() == n,
            class_closed(g, flagged(visited@)),
            closed(g, flagged(visited@), flagged(visited@)),
            forall|j: int| k <= j < order.len() ==> flagged(visited@).contains(#[trigger] order[j]),
            forall|i: int| 0 <= i < comps.len() ==> is_class(g, #[trigger] lists(&comps)[i]),
            forall|i: int| 0 <= i < comps.len() ==> (#[trigger] lists(&comps)[i]).no_duplicates(),
            disjoint(lists(&comps)),
            forall|v: usize| flagged(visited@).contains(v) <==> #[trigger] listed_in(lists(&comps),
                v),
        decreases k,
    {
        k -= 1;
        let u = order[k];
        assert(order@.contains(u));
        if !visited[u] {
            let ghost seen = flagged(visited@);
            let ghost before = lists(&comps);
            proof {
                lemma_component(g, h, order@, k as int, seen);
            }
            let mut comp: Vec<usize> = Vec::new();
            explore(adj, u, &mut visited, &mut comp, false);
            assert(comp@ =~= visit(g, u, seen, false));
            comps.push(comp);
            proof {
                let after = lists(&comps);
                assert(after =~= before.push(comp@));
                assert forall|v: usize| flagged(visited@).contains(v) <==> #[trigger] listed_in(
                    after,
                    v,
                ) by {
                    if listed_in(after, v) {
                        let i = choose|i: int| 0 <= i < after.len()
                            && (#[trigger] after[i]).contains(v);
                        if i < before.len() {
                            assert(before[i].contains(v));
                            assert(listed_in(before, v));
                        }
                    }
                    if seen.contains(v) {
                        assert(listed_in(before, v));
                        let i = choose|i: int| 0 <= i < before.len()
                            && (#[trigger] before[i]).contains(v);
                        assert(after[i].contains(v));
                    }
                    if comp@.contains(v) {
                        assert(after[before.len() as int].contains(v));
                    }
                }
                assert forall|i: int, j: int, x: usize| 0 <= i < j < after.len() implies !(
                #[trigger] after[i].contains(x) && #[trigger] after[j].contains(x)) by {
                    if j == before.len() && after[i].contains(x) {
                        assert(before[i].contains(x));
                        assert(listed_in(before, x));
                    } else if j < before.len() {
                        assert(after[i] == before[i]);
                        assert(after[j] == before[j]);
                    }
                }
                assert forall|i: int| 0 <= i < after.len() implies is_class(g,
                    #[trigger] after[i]) by {
                    if i < before.len() {
                        assert(after[i] == before[i]);
                    }
                }
                assert forall|i: int| 0 <= i < after.len()
                    implies (#[trigger] after[i]).no_duplicates() by {
                    if i < before.len() {
                        assert(after[i] == before[i]);
                    }
                }
            }
        }
    }
    proof {
        assert forall|v: usize| v < n <==> #[trigger] listed_in(lists(&comps), v) by {
            if v < n {
                assert(order@.contains(v));
                let j = choose|j: int| 0 <= j < order@.len() && order@[j] == v;
                assert(flagged(visited@).contains(order@[j]));
            }
        }
    }
    comps
}

/// The entries of `c` are strictly ascending.
pub open spec fn ascending(c: Seq<usize>) -> bool {
    forall|a: int, b: int| 0 <= a < b < c.len() ==> c[a] < c[b]
}

/// `a` and `b` list the same vertices.
pub open spec fn same_members(a: Seq<usize>, b: Seq<usize>) -> bool {
    forall|x: usize|
        #![trigger a.contains(x)]
        #![trigger b.contains(x)]
        a.contains(x) <==> b.contains(x)
}

/// Some list of `comps` has the members of `c`.
spec fn has_members(comps: Seq<Seq<usize>>, c: Seq<usize>) -> bool {
    exists|i: int| 0 <= i < comps.len() && same_members(#[trigger] comps[i], c)
}

/// The lists of `comps` come in the order of their first entries.
pub open spec fn ordered_by_first(comps: Seq<Seq<usize>>) -> bool {
    forall|i: int, j: int|
        0 <= i < j < comps.len() ==> (#[trigger] comps[i])[0] < (#[trigger] comps[j])[0]
}

/// `comps` is the decomposition of the graph into strongly connected
/// components: every list is one whole class of mutually reachable vertices
/// in ascending order, every vertex stands in a list, and the lists come in
/// the order of their smallest vertices.
pub open spec fn is_scc_decomposition(adj: Seq<Seq<usize>>, comps: Seq<Seq<usize>>) -> bool {
    &&& forall|i: int| 0 <= i < comps.len() ==> is_class(adj, #[trigger] comps[i])
    &&& forall|i: int| 0 <= i < comps.len() ==> ascending(#[trigger] comps[i])
    &&& ordered_by_first(comps)
    &&& forall|v: usize| v < adj.len() ==> #[trigger] listed_in(comps, v)
}

/// Lays the lists of `comps` out in order: every list ascending, and the
/// lists by their smallest entries. `comps` must split the vertices `0 .. n`
/// into non-empty lists. One sweep over the vertices does it: each vertex is
/// appended to the list of its part, and a part gets its list when its first
/// vertex comes by.
fn arrange(comps: &Vec<Vec<usize>>, n: usize) -> (res: Vec<Vec<usize>>)
    requires
        forall|i: int| 0 <= i < comps.len() ==> (#[trigger] lists(comps)[i]).len() > 0,
        disjoint(lists(comps)),
        forall|v: usize| v < n <==> #[trigger] listed_in(lists(comps), v),
    ensures
        forall|r: int| 0 <= r < res.len() ==> (#[trigger] lists(&res)[r]).len() > 0,
        forall|r: int| 0 <= r < res.len() ==> ascending(#[trigger] lists(&res)[r]),
        ordered_by_first(lists(&res)),
        forall|r: int| 0 <= r < res.len() ==> has_members(lists(comps), #[trigger] lists(&res)[r]),
        forall|c: int| 0 <= c < comps.len() ==> has_members(lists(&res),
            #[trigger] lists(comps)[c]),
{
    let k = comps.len();
    let ghost parts = lists(comps);
    let mut slot: Vec<Option<usize>> = Vec::new();
    while slot.len() < k
        invariant
            slot.len() <= k,
            forall|i: int| 0 <= i < slot.len() ==> (#[trigger] slot[i]) is None,
        decreases k - slot.len(),
    {
        slot.push(None);
    }
    let mut label: Vec<usize> = vec![0; n];
    let mut c: usize = 0;
    proof {
        assert forall|i: int, j: int| 0 <= i < k && 0 <= j < parts[i].len() implies (
        #[trigger] parts[i][j]) < n by {
            assert(parts[i].contains(parts[i][j]));
            assert(listed_in(parts, parts[i][j]));
        }
    }
    while c < k
        invariant
            k == comps.len(),
            parts == lists(comps),
            disjoint(parts),
            forall|i: int, j: int| 0 <= i < k && 0 <= j < parts[i].len()
                ==> (#[trigger] parts[i][j]) < n,
            label.len() == n,
            c <= k,
            forall|i: int, j: int|
                0 <= i < c && 0 <= j < parts[i].len() ==> label[(#[trigger] parts[i][j]) as int]
                    == i,
            forall|v: usize| v < n <==> #[trigger] listed_in(parts, v),
        decreases k - c,
    {
        let row = &comps[c];
        let mut j: usize = 0;
        while j < row.len()
            invariant
                k == comps.len(),
                parts == lists(comps),
                disjoint(parts),
                forall|i: int, j: int|
                    0 <= i < k && 0 <= j < parts[i].len() ==> (#[trigger] parts[i][j]) < n,
                label.len() == n,
                c < k,
                row@ == parts[c as int],
                j <= row.len(),
                forall|i: int, j: int|
                    0 <= i < c && 0 <= j < parts[i].len() ==> label[(#[trigger] parts[i][j]) as int]
                        == i,
                forall|l: int| 0 <= l < j ==> label[(#[trigger] row@[l]) as int] == c,
            decreases row.len() - j,
        {
            let x = row[j];
            proof {
                assert(parts[c as int][j as int] == x);
                assert(parts[c as int].contains(x));
                assert forall|i: int, l: int| 0 <= i < c && 0 <= l < parts[i].len() implies (
                #[trigger] parts[i][l]) != x by {
                    if parts[i][l] == x {
                        assert(parts[i].contains(x));
                    }
                }
            }
            label[x] = c;
            j += 1;
        }
        c += 1;
    }
    proof {
        assert forall|i: int, x: usize| 0 <= i < k && #[trigger] parts[i].contains(x) implies x < n
            && label[x as int] == i by {
            assert(listed_in(parts, x));
            let j = choose|j: int| 0 <= j < parts[i].len() && parts[i][j] == x;
            assert(label[parts[i][j] as int] == i);
        }
        assert forall|x: usize| x < n implies (#[trigger] label[x as int]) < k
            && parts[label[x as int] as int].contains(x) by {
            assert(listed_in(parts, x));
            let i = choose|i: int| 0 <= i < parts.len() && (#[trigger] parts[i]).contains(x);
            assert(parts[i].contains(x));
        }
    }
    let mut res: Vec<Vec<usize>> = Vec::new();
    let ghost mut back: Seq<int> = Seq::empty();
    let mut v: usize = 0;
    while v < n
        invariant
            k == comps.len(),
            parts == lists(comps),
            label.len() == n,
            slot.len() == k,
            v <= n,
            forall|x: usize|
                x < n ==> (#[trigger] label[x as int]) < k
                    && parts[label[x as int] as int].contains(x),
            back.len() == res.len(),
            forall|i: int|
                0 <= i < k && (#[trigger] slot[i]) is Some ==> {
                    &&& slot[i]->0 < res.len()
                    &&& back[slot[i]->0 as int] == i
                },
            forall|i: int, x: usize|
                0 <= i < k && (#[trigger] slot[i]) is None && x < v
                    ==> #[trigger] label[x as int] != i,
            forall|r: int|
                0 <= r < res.len() ==> {
                    &&& 0 <= #[trigger] back[r] < k
                    &&& slot[back[r]] == Some(r as usize)
                },
            forall|r: int| 0 <= r < res.len() ==> (#[trigger] lists(&res)[r]).len() > 0,
            forall|r: int| 0 <= r < res.len() ==> ascending(#[trigger] lists(&res)[r]),
            forall|r: int, x: usize|
                0 <= r < res.len() ==> (#[trigger] lists(&res)[r].contains(x) <==> {
                    &&& x < v
                    &&& label[x as int] == back[r]
                }),
            ordered_by_first(lists(&res)),
        decreases n - v,
    {
        let c = label[v];
        let ghost before = lists(&res);
        assert(parts[label[v as int] as int].contains(v));
        let r = match slot[c] {
            Some(r) => r,
            None => {
                let r = res.len();
                slot[c] = Some(r);
                res.push(Vec::new());
                proof {
                    back = back.push(c as int);
                    assert(lists(&res) =~= before.push(Seq::empty()));
                }
                r
            },
        };
        let ghost mid = lists(&res);
        assert(back[r as int] == c);
        res[r].push(v);
        proof {
            let after = lists(&res);
            assert(after =~= mid.update(r as int, mid[r as int].push(v)));
            assert forall|q: int, x: usize| 0 <= q < after.len()
                implies (#[trigger] after[q].contains(
                x,
            ) <==> x < v + 1 && label[x as int] == back[q]) by {
                if q == r {
                    lemma_contains_push(mid[r as int], v, x);
                    if r < before.len() {
                        assert(mid[q] == before[q]);
                        assert(before[q].contains(x) <==> x < v && label[x as int] == back[q]);
                    } else {
                        assert(mid[q] =~= Seq::empty());
                        if x < v && label[x as int] == c {
                            assert(label[x as int] != c);
                        }
                    }
                } else {
                    assert(after[q] == before[q]);
                    assert(before[q].contains(x) <==> x < v && label[x as int] == back[q]);
                    if x == v {
                        assert(slot[back[q]] == Some(q as usize));
                    }
                }
            }
            assert forall|q: int| 0 <= q < after.len() implies ascending(#[trigger] after[q]) by {
                if q == r {
                    if r < before.len() {
                        assert(mid[q] == before[q]);
                        assert(ascending(before[q]));
                        let row = after[q];
                        assert forall|a: int, b: int| 0 <= a < b < row.len() implies row[a]
                            < row[b] by {
                            if b == before[q].len() {
                                assert(before[q].contains(before[q][a]));
                            }
                        }
                    } else {
                        assert(after[q] =~= seq![v]);
                    }
                } else {
                    assert(after[q] == before[q]);
                }
            }
            assert forall|q: int| 0 <= q < after.len() implies (#[trigger] after[q]).len() > 0 by {
                if q != r {
                    assert(after[q] == before[q]);
                }
            }
            assert forall|i: int, j: int| 0 <= i < j < after.len() implies (
            #[trigger] after[i])[0] < (#[trigger] after[j])[0] by {
                if i < before.len() {
                    assert(before[i].len() > 0);
                    assert(before[i].contains(before[i][0]));
                    assert(after[i][0] == before[i][0]);
                }
                if j < before.len() {
                    assert(before[j].len() > 0);
                    assert(after[j][0] == before[j][0]);
                } else {
                    assert(after[j] =~= seq![v]);
                }
            }
        }
        v += 1;
    }
    proof {
        let done = lists(&res);
        assert forall|r: int| 0 <= r < res.len() implies has_members(parts, #[trigger] done[r]) by {
            let c = back[r];
            assert forall|x: usize| parts[c].contains(x) <==> done[r].contains(x) by {
                if done[r].contains(x) {
                    assert(parts[label[x as int] as int].contains(x));
                }
            }
            assert(same_members(parts[c], done[r]));
        }
        assert forall|c: int| 0 <= c < comps.len() implies has_members(done,
            #[trigger] parts[c]) by {
            let x = parts[c][0];
            assert(parts[c].contains(x));
            assert(label[x as int] == c);
            assert(slot[c] is Some);
            let r = slot[c]->0 as int;
            assert forall|y: usize| done[r].contains(y) <==> parts[c].contains(y) by {
                if done[r].contains(y) {
                    assert(parts[label[y as int] as int].contains(y));
                }
            }
            assert(same_members(done[r], parts[c]));
        }
    }
    res
}

/// What [`kosaraju_algorithm`] returns for the graph with the adjacency lists
/// `adj`: its decomposition into strongly connected components if every
/// neighbour named is a vertex of the graph, and an error otherwise.
pub open spec fn kosaraju_spec(
    adj: Seq<Seq<usize>>,
    r: Result<Vec<Vec<usize>>, GraphError>,
) -> bool {
    match r {
        Ok(comps) => valid_adjacency(adj) && is_scc_decomposition(adj, lists(&comps)),
        Err(e) => e == GraphError::InvalidVertexIndex && !valid_adjacency(adj),
    }
}

/// The strongly connected components of the graph with the adjacency lists
/// `adj_list`: each component in ascending order, the components in the order
/// of their smallest vertices. A list that names a vertex which the graph
/// does not have is rejected.
pub fn kosaraju_algorithm(adj_list: &Vec<Vec<usize>>) -> (result: Result<
    Vec<Vec<usize>>,
    GraphError,
>)
    ensures
        kosaraju_spec(lists(adj_list), result),
{
    if !check_adjacency(adj_list) {
        return Err(GraphError::InvalidVertexIndex);
    }
    let rev = reversed(adj_list);
    let order = finish_order(&rev);
    let found = collect_components(adj_list, &rev, &order);
    let comps = arrange(&found, adj_list.len());
    proof {
        let g = lists(adj_list);
        let parts = lists(&found);
        let done = lists(&comps);
        assert forall|i: int| 0 <= i < done.len() implies is_class(g, #[trigger] done[i]) by {
            assert(has_members(parts, done[i]));
            let c = choose|c: int| 0 <= c < parts.len() && same_members(#[trigger] parts[c],
                done[i]);
            assert(is_class(g, parts[c]));
            assert forall|x: usize, y: usize| done[i].contains(x) implies (done[i].contains(y)
                <==> mutually_reachable(g, x, y)) by {
                assert(parts[c].contains(x));
                assert(parts[c].contains(y) <==> done[i].contains(y));
            }
        }
        assert forall|v: usize| v < g.len() implies #[trigger] listed_in(done, v) by {
            assert(listed_in(parts, v));
            let c = choose|c: int| 0 <= c < parts.len() && (#[trigger] parts[c]).contains(v);
            assert(has_members(done, parts[c]));
            let r = choose|r: int| 0 <= r < done.len() && same_members(#[trigger] done[r],
                parts[c]);
            assert(done[r].contains(v));
        }
    }
    Ok(comps)
}

/// Two ascending lists with the same members are the same list.
pub proof fn lemma_ascending_unique(x: Seq<usize>, y: Seq<usize>)
    requires
        ascending(x),
        ascending(y),
        same_members(x, y),
    ensures
        x == y,
    decreases x.len(),
{
    if x.len() == 0 {
        if y.len() > 0 {
            assert(y.contains(y[0]));
            assert(x.contains(y[0]));
        }
        assert(x =~= y);
    } else {
        assert(x.contains(x.last()));
        assert(y.contains(x.last()));
        assert(y.len() > 0);
        assert(y.contains(y.last()));
        assert(x.contains(y.last()));
        let i = choose|i: int| 0 <= i < y.len() && y[i] == x.last();
        let j = choose|j: int| 0 <= j < x.len() && x[j] == y.last();
        assert(x.last() == y.last());
        let xs = x.drop_last();
        let ys = y.drop_last();
        assert forall|v: usize| xs.contains(v) <==> ys.contains(v) by {
            if xs.contains(v) {
                let a = choose|a: int| 0 <= a < xs.len() && xs[a] == v;
                assert(x[a] == v);
                assert(x.contains(v));
                assert(y.contains(v));
                let b = choose|b: int| 0 <= b < y.len() && y[b] == v;
                assert(b < y.len() - 1);
                assert(ys[b] == v);
            }
            if ys.contains(v) {
                let b = choose|b: int| 0 <= b < ys.len() && ys[b] == v;
                assert(y[b] == v);
                assert(y.contains(v));
                assert(x.contains(v));
                let a = choose|a: int| 0 <= a < x.len() && x[a] == v;
                assert(a < x.len() - 1);
                assert(xs[a] == v);
            }
        }
        lemma_ascending_unique(xs, ys);
        assert(x =~= xs.push(x.last()));
        assert(y =~= ys.push(y.last()));
    }
}

/// The first entries of the lists of `comps`.
pub open spec fn firsts(comps: Seq<Seq<usize>>) -> Seq<usize> {
    Seq::new(comps.len(), |i: int| comps[i][0])
}

/// The first entry of every list of one decomposition is the first entry of a
/// list of any other.
proof fn lemma_first_is_first(adj: Seq<Seq<usize>>, a: Seq<Seq<usize>>, b: Seq<Seq<usize>>, i: int)
    requires
        is_scc_decomposition(adj, a),
        is_scc_decomposition(adj, b),
        0 <= i < a.len(),
    ensures
        firsts(b).contains(a[i][0]),
{
    let v = a[i][0];
    assert(is_class(adj, a[i]));
    assert(a[i].contains(v));
    assert(mutually_reachable(adj, v, v));
    let k = choose|k: nat| reach_in(adj, v, v, k);
    lemma_reach_start_in_range(adj, v, v, k);
    assert(listed_in(b, v));
    let j = choose|j: int| 0 <= j < b.len() && (#[trigger] b[j]).contains(v);
    assert(is_class(adj, b[j]));
    let w = b[j][0];
    assert(b[j].contains(w));
    assert(mutually_reachable(adj, v, w));
    assert(a[i].contains(w));
    assert(ascending(a[i]));
    assert(ascending(b[j]));
    let p = choose|p: int| 0 <= p < a[i].len() && a[i][p] == w;
    let q = choose|q: int| 0 <= q < b[j].len() && b[j][q] == v;
    assert(v <= w);
    assert(w <= v);
    assert(firsts(b)[j] == v);
}

/// A walk starts in a vertex of the graph.
proof fn lemma_reach_start_in_range(adj: Seq<Seq<usize>>, a: usize, b: usize, k: nat)
    requires
        reach_in(adj, a, b, k),
    ensures
        a < adj.len(),
    decreases k,
{
    if k > 0 {
        let m = choose|m: usize| reach_in(adj, a, m, (k - 1) as nat) && #[trigger] edge(adj, m, b);
        lemma_reach_start_in_range(adj, a, m, (k - 1) as nat);
    }
}

/// A graph has one decomposition into strongly connected components: two
/// values that both are such a decomposition of the same graph are equal,
/// list by list and entry by entry.
pub proof fn lemma_scc_decomposition_unique(
    adj: Seq<Seq<usize>>,
    a: Seq<Seq<usize>>,
    b: Seq<Seq<usize>>,
)
    requires
        is_scc_decomposition(adj, a),
        is_scc_decomposition(adj, b),
    ensures
        a == b,
{
    let fa = firsts(a);
    let fb = firsts(b);
    assert forall|v: usize| fa.contains(v) <==> fb.contains(v) by {
        if fa.contains(v) {
            let i = choose|i: int| 0 <= i < fa.len() && fa[i] == v;
            lemma_first_is_first(adj, a, b, i);
        }
        if fb.contains(v) {
            let i = choose|i: int| 0 <= i < fb.len() && fb[i] == v;
            lemma_first_is_first(adj, b, a, i);
        }
    }
    lemma_ascending_unique(fa, fb);
    assert(fa.len() == a.len());
    assert(fb.len() == b.len());
    assert(a.len() == b.len());
    assert forall|i: int| 0 <= i < a.len() implies a[i] == b[i] by {
        assert(fa[i] == fb[i]);
        assert(is_class(adj, a[i]));
        assert(is_class(adj, b[i]));
        let v = a[i][0];
        assert(a[i].contains(v));
        assert(b[i].contains(v));
        assert forall|x: usize| a[i].contains(x) <==> b[i].contains(x) by {
            assert(a[i].contains(x) <==> mutually_reachable(adj, v, x));
            assert(b[i].contains(x) <==> mutually_reachable(adj, v, x));
        }
        assert(ascending(a[i]));
        assert(ascending(b[i]));
        lemma_ascending_unique(a[i], b[i]);
    }
    assert(a =~= b);
}

/// Two runs on the same adjacency lists end alike: both are rejected, or both
/// give the same components in the same order, each with the same vertices
/// in the same order.
pub proof fn lemma_kosaraju_deterministic(
    adj: Seq<Seq<usize>>,
    r1: Result<Vec<Vec<usize>>, GraphError>,
    r2: Result<Vec<Vec<usize>>, GraphError>,
)
    requires
        kosaraju_spec(adj, r1),
        kosaraju_spec(adj, r2),
    ensures
        match (r1, r2) {
            (Ok(a), Ok(b)) => lists(&a) == lists(&b),
            (Err(a), Err(b)) => a == b,
            _ => false,
        },
{
    if r1 is Ok && r2 is Ok {
        lemma_scc_decomposition_unique(adj, lists(&r1->Ok_0), lists(&r2->Ok_0));
    }
}

} // verus!
