//! What holds of every depth-first exploration, proved by induction over
//! [`visit`] and [`forest`].

use vstd::prelude::*;
use vstd::seq_lib::lemma_no_dup_in_concat;
use crate::reach::{
    edge, lemma_contains_concat, lemma_reach_prepend, lemma_reach_self, lemma_unseen_insert,
    lemma_unseen_monotone, lemma_with_all_concat, lemma_with_all_push, reach_in, reaches,
    unseen, valid_adjacency, with_all,
};
use crate::traverse::{forest, visit};

verus! {

/// Every edge out of a vertex of `black` ends in a vertex of `seen`.
pub open spec fn closed(adj: Seq<Seq<usize>>, black: Set<usize>, seen: Set<usize>) -> bool {
    forall|b: usize, y: usize| black.contains(b) && #[trigger] edge(adj, b, y) ==> seen.contains(y)
}

/// No edge out of a vertex not in `seen` leaves `inside`, unless it ends in
/// `seen`.
pub open spec fn kept_inside(adj: Seq<Seq<usize>>, inside: Set<usize>, seen: Set<usize>) -> bool {
    forall|x: usize, y: usize|
        inside.contains(x) && #[trigger] edge(adj, x, y) && !seen.contains(y) ==> inside.contains(y)
}

/// The entries `from ..= upto` of `p` are all reached from `p[upto]`, and no
/// edge leads into them from an entry before `from`.
pub open spec fn block_ok(adj: Seq<Seq<usize>>, p: Seq<usize>, upto: int, from: int) -> bool {
    &&& 0 <= from <= upto < p.len()
    &&& forall|j: int| from <= j <= upto ==> reaches(adj, p[upto], #[trigger] p[j])
    &&& forall|j: int, l: int|
        0 <= j < from && from <= l <= upto ==> !edge(adj, #[trigger] p[j], #[trigger] p[l])
}

/// The entry `upto` of `p` closes a block: see [`block_ok`].
pub open spec fn has_block(adj: Seq<Seq<usize>>, p: Seq<usize>, upto: int) -> bool {
    exists|from: int| #[trigger] block_ok(adj, p, upto, from)
}

/// Every entry of `p` closes a block.
pub open spec fn blocks(adj: Seq<Seq<usize>>, p: Seq<usize>) -> bool {
    forall|i: int| 0 <= i < p.len() ==> #[trigger] has_block(adj, p, i)
}

/// An exploration lists each vertex once, lists only vertices of the graph
/// that were not yet seen, and lists its root if that was not yet seen.
pub proof fn lemma_visit_basic(adj: Seq<Seq<usize>>, u: usize, seen: Set<usize>, post: bool)
    ensures
        visit(adj, u, seen, post).no_duplicates(),
        forall|x: usize| #[trigger]
            visit(adj, u, seen, post).contains(x) ==> x < adj.len() && !seen.contains(x),
        u < adj.len() && !seen.contains(u) ==> visit(adj, u, seen, post).contains(u),
    decreases unseen(adj.len(), seen), 0nat,
{
    if u < adj.len() && !seen.contains(u) {
        lemma_unseen_insert(adj.len(), seen, u);
        lemma_forest_basic(adj, adj[u as int], seen.insert(u), post);
        let inner = forest(adj, adj[u as int], seen.insert(u), post);
        let p = visit(adj, u, seen, post);
        assert(seq![u].no_duplicates());
        assert forall|i: int, j: int| 0 <= i < seq![u].len() && 0 <= j < inner.len() implies seq![
            u,
        ][i] != inner[j] by {
            assert(inner.contains(inner[j]));
        }
        if post {
            assert(p =~= inner + seq![u]);
            lemma_no_dup_in_concat(inner, seq![u]);
        } else {
            lemma_no_dup_in_concat(seq![u], inner);
        }
        assert(seq![u][0] == u);
        assert forall|x: usize| #[trigger] p.contains(x) implies x < adj.len() && !seen.contains(
            x,
        ) by {
            lemma_contains_concat(inner, seq![u], x);
            lemma_contains_concat(seq![u], inner, x);
        }
        lemma_contains_concat(inner, seq![u], u);
        lemma_contains_concat(seq![u], inner, u);
    }
}

/// The explorations from a list of roots list each vertex once, and list only
/// vertices of the graph that were not yet seen.
pub proof fn lemma_forest_basic(
    adj: Seq<Seq<usize>>,
    roots: Seq<usize>,
    seen: Set<usize>,
    post: bool,
)
    ensures
        forest(adj, roots, seen, post).no_duplicates(),
        forall|x: usize| #[trigger]
            forest(adj, roots, seen, post).contains(x) ==> x < adj.len() && !seen.contains(x),
    decreases unseen(adj.len(), seen), 1 + roots.len(),
{
    if roots.len() > 0 {
        let first = visit(adj, roots[0], seen, post);
        lemma_visit_basic(adj, roots[0], seen, post);
        lemma_unseen_monotone(adj.len(), seen, with_all(seen, first));
        lemma_forest_basic(adj, roots.skip(1), with_all(seen, first), post);
        let rest = forest(adj, roots.skip(1), with_all(seen, first), post);
        assert forall|i: int, j: int| 0 <= i < first.len() && 0 <= j < rest.len() implies first[i]
            != rest[j] by {
            assert(rest.contains(rest[j]));
            assert(first.contains(first[i]));
        }
        lemma_no_dup_in_concat(first, rest);
        assert forall|x: usize| #[trigger] (first + rest).contains(x) implies x < adj.len()
            && !seen.contains(x) by {
            lemma_contains_concat(first, rest, x);
        }
    }
}

/// Every vertex that an exploration lists is reached from its root.
pub proof fn lemma_visit_reached(adj: Seq<Seq<usize>>, u: usize, seen: Set<usize>, post: bool)
    ensures
        forall|x: usize| #[trigger] visit(adj, u, seen, post).contains(x) ==> reaches(adj, u, x),
    decreases unseen(adj.len(), seen), 0nat,
{
    if u < adj.len() && !seen.contains(u) {
        lemma_unseen_insert(adj.len(), seen, u);
        lemma_forest_reached(adj, adj[u as int], seen.insert(u), post);
        let inner = forest(adj, adj[u as int], seen.insert(u), post);
        let p = visit(adj, u, seen, post);
        assert forall|x: usize| #[trigger] p.contains(x) implies reaches(adj, u, x) by {
            lemma_contains_concat(inner, seq![u], x);
            lemma_contains_concat(seq![u], inner, x);
            assert(p =~= if post {
                inner + seq![u]
            } else {
                seq![u] + inner
            });
            if inner.contains(x) {
                let r = choose|r: usize| adj[u as int].contains(r) && reaches(adj, r, x);
                assert(edge(adj, u, r));
                lemma_reach_prepend(adj, u, r, x);
            } else {
                assert(seq![u].contains(x));
                assert(x == u);
                lemma_reach_self(adj, u);
            }
        }
    }
}

/// Every vertex that the explorations from a list of roots list is reached
/// from one of the roots.
pub proof fn lemma_forest_reached(
    adj: Seq<Seq<usize>>,
    roots: Seq<usize>,
    seen: Set<usize>,
    post: bool,
)
    ensures
        forall|x: usize| #[trigger]
            forest(adj, roots, seen, post).contains(x) ==> exists|r: usize|
                roots.contains(r) && reaches(adj, r, x),
    decreases unseen(adj.len(), seen), 1 + roots.len(),
{
    if roots.len() > 0 {
        let first = visit(adj, roots[0], seen, post);
        lemma_visit_reached(adj, roots[0], seen, post);
        lemma_unseen_monotone(adj.len(), seen, with_all(seen, first));
        lemma_forest_reached(adj, roots.skip(1), with_all(seen, first), post);
        let rest = forest(adj, roots.skip(1), with_all(seen, first), post);
        assert forall|x: usize| #[trigger] (first + rest).contains(x) implies exists|r: usize|
            roots.contains(r) && reaches(adj, r, x) by {
            lemma_contains_concat(first, rest, x);
            if first.contains(x) {
                assert(roots.contains(roots[0]));
                assert(reaches(adj, roots[0], x));
            } else {
                let r = choose|r: usize| roots.skip(1).contains(r) && reaches(adj, r, x);
                let i = choose|i: int| 0 <= i < roots.skip(1).len() && roots.skip(1)[i] == r;
                assert(roots[i + 1] == r);
                assert(roots.contains(r));
            }
        }
    }
}

/// After an exploration, every edge out of a listed vertex ends in a vertex
/// that is seen or listed.
pub proof fn lemma_visit_closed(
    adj: Seq<Seq<usize>>,
    u: usize,
    black: Set<usize>,
    seen: Set<usize>,
    post: bool,
)
    requires
        valid_adjacency(adj),
        closed(adj, black, seen),
    ensures
        closed(
            adj,
            with_all(black, visit(adj, u, seen, post)),
            with_all(seen, visit(adj, u, seen, post)),
        ),
    decreases unseen(adj.len(), seen), 0nat,
{
    let p = visit(adj, u, seen, post);
    if u < adj.len() && !seen.contains(u) {
        lemma_unseen_insert(adj.len(), seen, u);
        let inner = forest(adj, adj[u as int], seen.insert(u), post);
        lemma_forest_closed(adj, adj[u as int], black, seen.insert(u), post);
        lemma_with_all_push(seen, inner, u);
        lemma_with_all_push(black, inner, u);
        assert(with_all(seen, p) == with_all(seen.insert(u), inner));
        assert forall|b: usize, y: usize| with_all(black, p).contains(b) && #[trigger] edge(
            adj,
            b,
            y,
        ) implies with_all(seen, p).contains(y) by {
            lemma_contains_concat(inner, seq![u], b);
            lemma_contains_concat(seq![u], inner, b);
            assert(p =~= if post {
                inner + seq![u]
            } else {
                seq![u] + inner
            });
            if with_all(black, inner).contains(b) {
            } else {
                assert(seq![u].contains(b));
                assert(b == u);
                let i = choose|i: int| 0 <= i < adj[u as int].len() && adj[u as int][i] == y;
                assert(adj[u as int][i] < adj.len());
                assert(adj[u as int].contains(y));
            }
        }
    } else {
        assert(with_all(black, p) =~= black);
        assert(with_all(seen, p) =~= seen);
    }
}

/// After the explorations from a list of roots, every edge out of a listed
/// vertex ends in a vertex that is seen or listed, and so is every root.
pub proof fn lemma_forest_closed(
    adj: Seq<Seq<usize>>,
    roots: Seq<usize>,
    black: Set<usize>,
    seen: Set<usize>,
    post: bool,
)
    requires
        valid_adjacency(adj),
        closed(adj, black, seen),
    ensures
        closed(
            adj,
            with_all(black, forest(adj, roots, seen, post)),
            with_all(seen, forest(adj, roots, seen, post)),
        ),
        forall|r: usize|
            roots.contains(r) && r < adj.len() ==> #[trigger] with_all(
                seen,
                forest(adj, roots, seen, post),
            ).contains(r),
    decreases unseen(adj.len(), seen), 1 + roots.len(),
{
    let p = forest(adj, roots, seen, post);
    if roots.len() > 0 {
        let first = visit(adj, roots[0], seen, post);
        lemma_visit_closed(adj, roots[0], black, seen, post);
        lemma_visit_basic(adj, roots[0], seen, post);
        lemma_unseen_monotone(adj.len(), seen, with_all(seen, first));
        lemma_forest_closed(
            adj,
            roots.skip(1),
            with_all(black, first),
            with_all(seen, first),
            post,
        );
        let rest = forest(adj, roots.skip(1), with_all(seen, first), post);
        lemma_with_all_concat(seen, first, rest);
        lemma_with_all_concat(black, first, rest);
        assert forall|r: usize| roots.contains(r) && r < adj.len() implies #[trigger] with_all(
            seen,
            p,
        ).contains(r) by {
            let i = choose|i: int| 0 <= i < roots.len() && roots[i] == r;
            if i == 0 {
                assert(with_all(seen, first).contains(r));
            } else {
                assert(roots.skip(1)[i - 1] == r);
                assert(roots.skip(1).contains(r));
            }
        }
    } else {
        assert(with_all(black, p) =~= black);
        assert(with_all(seen, p) =~= seen);
    }
}

/// An exploration that starts inside a set which no edge leaves, but into
/// vertices already seen, lists only vertices of that set.
pub proof fn lemma_visit_inside(
    adj: Seq<Seq<usize>>,
    u: usize,
    seen: Set<usize>,
    post: bool,
    inside: Set<usize>,
)
    requires
        kept_inside(adj, inside, seen),
        inside.contains(u),
    ensures
        forall|x: usize| #[trigger] visit(adj, u, seen, post).contains(x) ==> inside.contains(x),
    decreases unseen(adj.len(), seen), 0nat,
{
    if u < adj.len() && !seen.contains(u) {
        lemma_unseen_insert(adj.len(), seen, u);
        let inner = forest(adj, adj[u as int], seen.insert(u), post);
        let p = visit(adj, u, seen, post);
        assert forall|r: usize|
            adj[u as int].contains(r) && !seen.insert(u).contains(r) implies inside.contains(
            r,
        ) by {
            assert(edge(adj, u, r));
        }
        lemma_forest_inside(adj, adj[u as int], seen.insert(u), post, inside);
        assert forall|x: usize| #[trigger] p.contains(x) implies inside.contains(x) by {
            lemma_contains_concat(inner, seq![u], x);
            lemma_contains_concat(seq![u], inner, x);
            assert(p =~= if post {
                inner + seq![u]
            } else {
                seq![u] + inner
            });
            if !inner.contains(x) {
                assert(seq![u].contains(x));
            }
        }
    }
}

/// Explorations whose roots are seen or inside a set which no edge leaves,
/// but into vertices already seen, list only vertices of that set.
pub proof fn lemma_forest_inside(
    adj: Seq<Seq<usize>>,
    roots: Seq<usize>,
    seen: Set<usize>,
    post: bool,
    inside: Set<usize>,
)
    requires
        kept_inside(adj, inside, seen),
        forall|r: usize| roots.contains(r) && !seen.contains(r) ==> inside.contains(r),
    ensures
        forall|x: usize| #[trigger]
            forest(adj, roots, seen, post).contains(x) ==> inside.contains(x),
    decreases unseen(adj.len(), seen), 1 + roots.len(),
{
    if roots.len() > 0 {
        let first = visit(adj, roots[0], seen, post);
        assert(roots.contains(roots[0]));
        if !seen.contains(roots[0]) {
            lemma_visit_inside(adj, roots[0], seen, post, inside);
        }
        lemma_unseen_monotone(adj.len(), seen, with_all(seen, first));
        assert forall|r: usize|
            roots.skip(1).contains(r) && !with_all(seen, first).contains(
                r,
            ) implies inside.contains(r) by {
            let i = choose|i: int| 0 <= i < roots.skip(1).len() && roots.skip(1)[i] == r;
            assert(roots[i + 1] == r);
            assert(roots.contains(r));
        }
        lemma_forest_inside(adj, roots.skip(1), with_all(seen, first), post, inside);
        let rest = forest(adj, roots.skip(1), with_all(seen, first), post);
        assert forall|x: usize| #[trigger] (first + rest).contains(x) implies inside.contains(
            x,
        ) by {
            lemma_contains_concat(first, rest, x);
        }
    }
}

/// Blocks survive concatenation when no edge leads from the first part into
/// the second.
proof fn lemma_blocks_concat(adj: Seq<Seq<usize>>, a: Seq<usize>, b: Seq<usize>)
    requires
        blocks(adj, a),
        blocks(adj, b),
        forall|j: int, l: int|
            0 <= j < a.len() && 0 <= l < b.len() ==> !edge(adj, #[trigger] a[j], #[trigger] b[l]),
    ensures
        blocks(adj, a + b),
{
    let p = a + b;
    assert forall|i: int| 0 <= i < p.len() implies #[trigger] has_block(adj, p, i) by {
        if i < a.len() {
            assert(has_block(adj, a, i));
            let s = choose|s: int| #[trigger] block_ok(adj, a, i, s);
            assert forall|j: int| s <= j <= i implies reaches(adj, p[i], #[trigger] p[j]) by {
                assert(reaches(adj, a[i], a[j]));
            }
            assert forall|j: int, l: int| 0 <= j < s && s <= l <= i implies !edge(
                adj,
                #[trigger] p[j],
                #[trigger] p[l],
            ) by {
                assert(!edge(adj, a[j], a[l]));
            }
            assert(block_ok(adj, p, i, s));
        } else {
            let k = i - a.len();
            assert(has_block(adj, b, k));
            let t = choose|t: int| #[trigger] block_ok(adj, b, k, t);
            let s = a.len() + t;
            assert forall|j: int| s <= j <= i implies reaches(adj, p[i], #[trigger] p[j]) by {
                assert(reaches(adj, b[k], b[j - a.len()]));
            }
            assert forall|j: int, l: int| 0 <= j < s && s <= l <= i implies !edge(
                adj,
                #[trigger] p[j],
                #[trigger] p[l],
            ) by {
                if j < a.len() {
                    assert(!edge(adj, a[j], b[l - a.len()]));
                } else {
                    assert(!edge(adj, b[j - a.len()], b[l - a.len()]));
                }
            }
            assert(block_ok(adj, p, i, s));
        }
    }
}

/// Blocks survive a new last entry that reaches every entry before it.
proof fn lemma_blocks_push(adj: Seq<Seq<usize>>, a: Seq<usize>, u: usize)
    requires
        blocks(adj, a),
        u < adj.len(),
        forall|j: int| 0 <= j < a.len() ==> reaches(adj, u, #[trigger] a[j]),
    ensures
        blocks(adj, a.push(u)),
{
    let p = a.push(u);
    lemma_reach_self(adj, u);
    assert forall|i: int| 0 <= i < p.len() implies #[trigger] has_block(adj, p, i) by {
        if i < a.len() {
            assert(has_block(adj, a, i));
            let s = choose|s: int| #[trigger] block_ok(adj, a, i, s);
            assert forall|j: int| s <= j <= i implies reaches(adj, p[i], #[trigger] p[j]) by {
                assert(reaches(adj, a[i], a[j]));
            }
            assert forall|j: int, l: int| 0 <= j < s && s <= l <= i implies !edge(
                adj,
                #[trigger] p[j],
                #[trigger] p[l],
            ) by {
                assert(!edge(adj, a[j], a[l]));
            }
            assert(block_ok(adj, p, i, s));
        } else {
            assert forall|j: int| 0 <= j <= i implies reaches(adj, p[i], #[trigger] p[j]) by {
                if j < a.len() {
                    assert(reaches(adj, u, a[j]));
                }
            }
            assert(block_ok(adj, p, i, 0));
        }
    }
}

/// The vertices of an exploration, listed as each is completed, fall into
/// blocks: each vertex closes the block of what was explored from it.
pub proof fn lemma_visit_blocks(adj: Seq<Seq<usize>>, u: usize, black: Set<usize>, seen: Set<usize>)
    requires
        valid_adjacency(adj),
        closed(adj, black, seen),
    ensures
        blocks(adj, visit(adj, u, seen, true)),
    decreases unseen(adj.len(), seen), 0nat,
{
    if u < adj.len() && !seen.contains(u) {
        lemma_unseen_insert(adj.len(), seen, u);
        let inner = forest(adj, adj[u as int], seen.insert(u), true);
        lemma_forest_blocks(adj, adj[u as int], black, seen.insert(u));
        lemma_forest_reached(adj, adj[u as int], seen.insert(u), true);
        assert forall|j: int| 0 <= j < inner.len() implies reaches(adj, u, #[trigger] inner[j]) by {
            let x = inner[j];
            assert(inner.contains(x));
            let r = choose|r: usize| adj[u as int].contains(r) && reaches(adj, r, x);
            assert(edge(adj, u, r));
            lemma_reach_prepend(adj, u, r, x);
        }
        lemma_blocks_push(adj, inner, u);
    }
}

/// The vertices of the explorations from a list of roots, listed as each is
/// completed, fall into blocks.
pub proof fn lemma_forest_blocks(
    adj: Seq<Seq<usize>>,
    roots: Seq<usize>,
    black: Set<usize>,
    seen: Set<usize>,
)
    requires
        valid_adjacency(adj),
        closed(adj, black, seen),
    ensures
        blocks(adj, forest(adj, roots, seen, true)),
    decreases unseen(adj.len(), seen), 1 + roots.len(),
{
    if roots.len() > 0 {
        let first = visit(adj, roots[0], seen, true);
        lemma_visit_blocks(adj, roots[0], black, seen);
        lemma_visit_closed(adj, roots[0], black, seen, true);
        lemma_unseen_monotone(adj.len(), seen, with_all(seen, first));
        lemma_forest_blocks(adj, roots.skip(1), with_all(black, first), with_all(seen, first));
        lemma_forest_basic(adj, roots.skip(1), with_all(seen, first), true);
        let rest = forest(adj, roots.skip(1), with_all(seen, first), true);
        assert forall|j: int, l: int| 0 <= j < first.len() && 0 <= l < rest.len() implies !edge(
            adj,
            #[trigger] first[j],
            #[trigger] rest[l],
        ) by {
            assert(first.contains(first[j]));
            assert(rest.contains(rest[l]));
            assert(with_all(black, first).contains(first[j]));
        }
        lemma_blocks_concat(adj, first, rest);
    }
}

/// Two sets hold the same vertices of a graph with `n` vertices.
pub open spec fn same_below(n: nat, a: Set<usize>, b: Set<usize>) -> bool {
    forall|x: usize| x < n ==> (a.contains(x) <==> b.contains(x))
}

/// An exploration depends only on which vertices of the graph were seen:
/// what else the set of seen vertices holds makes no difference.
pub proof fn lemma_visit_same_below(
    adj: Seq<Seq<usize>>,
    u: usize,
    a: Set<usize>,
    b: Set<usize>,
    post: bool,
)
    requires
        valid_adjacency(adj),
        same_below(adj.len(), a, b),
    ensures
        visit(adj, u, a, post) == visit(adj, u, b, post),
    decreases unseen(adj.len(), a), 0nat,
{
    if u < adj.len() && !a.contains(u) {
        lemma_unseen_insert(adj.len(), a, u);
        lemma_forest_same_below(adj, adj[u as int], a.insert(u), b.insert(u), post);
    }
}

/// The explorations from a list of roots depend only on which vertices of the
/// graph were seen.
pub proof fn lemma_forest_same_below(
    adj: Seq<Seq<usize>>,
    roots: Seq<usize>,
    a: Set<usize>,
    b: Set<usize>,
    post: bool,
)
    requires
        valid_adjacency(adj),
        same_below(adj.len(), a, b),
    ensures
        forest(adj, roots, a, post) == forest(adj, roots, b, post),
    decreases unseen(adj.len(), a), 1 + roots.len(),
{
    if roots.len() > 0 {
        let first = visit(adj, roots[0], a, post);
        lemma_visit_same_below(adj, roots[0], a, b, post);
        lemma_unseen_monotone(adj.len(), a, with_all(a, first));
        lemma_forest_same_below(adj, roots.skip(1), with_all(a, first), with_all(b, first), post);
    }
}

/// Whatever is reached from a vertex that an exploration has listed is seen
/// or listed, once no edge out of a listed vertex is open.
proof fn lemma_closed_reach(adj: Seq<Seq<usize>>, all: Set<usize>, u: usize, y: usize, k: nat)
    requires
        closed(adj, all, all),
        all.contains(u),
        reach_in(adj, u, y, k),
    ensures
        all.contains(y),
    decreases k,
{
    if k > 0 {
        let m = choose|m: usize| reach_in(adj, u, m, (k - 1) as nat) && #[trigger] edge(adj, m, y);
        lemma_closed_reach(adj, all, u, m, (k - 1) as nat);
    }
}

/// An exploration that starts with nothing seen lists exactly the vertices
/// that its root reaches.
pub proof fn lemma_visit_all_reached(adj: Seq<Seq<usize>>, u: usize, post: bool)
    requires
        valid_adjacency(adj),
        u < adj.len(),
    ensures
        forall|x: usize| #[trigger]
            visit(adj, u, Set::empty(), post).contains(x) <==> reaches(adj, u, x),
{
    let none = Set::<usize>::empty();
    let p = visit(adj, u, none, post);
    lemma_visit_reached(adj, u, none, post);
    lemma_visit_basic(adj, u, none, post);
    lemma_visit_closed(adj, u, none, none, post);
    assert forall|x: usize| reaches(adj, u, x) implies #[trigger] p.contains(x) by {
        let k = choose|k: nat| reach_in(adj, u, x, k);
        lemma_closed_reach(adj, with_all(none, p), u, x, k);
    }
}

/// Some walk of exactly `k` edges leads from `a` to `b` and passes no vertex
/// of `seen`, its ends included.
pub open spec fn reach_avoiding_in(
    adj: Seq<Seq<usize>>,
    seen: Set<usize>,
    a: usize,
    b: usize,
    k: nat,
) -> bool
    decreases k,
{
    if k == 0 {
        a == b && a < adj.len() && !seen.contains(a)
    } else {
        exists|m: usize|
            reach_avoiding_in(adj, seen, a, m, (k - 1) as nat) && #[trigger] edge(adj, m, b)
                && !seen.contains(b)
    }
}

/// Some walk leads from `a` to `b` and passes no vertex of `seen`.
pub open spec fn reaches_avoiding(
    adj: Seq<Seq<usize>>,
    seen: Set<usize>,
    a: usize,
    b: usize,
) -> bool {
    exists|k: nat| reach_avoiding_in(adj, seen, a, b, k)
}

/// Whatever a walk reaches that passes no seen vertex is listed, once no
/// edge out of a listed vertex is open.
proof fn lemma_avoiding_listed(
    adj: Seq<Seq<usize>>,
    seen: Set<usize>,
    p: Seq<usize>,
    u: usize,
    y: usize,
    k: nat,
)
    requires
        closed(adj, with_all(Set::empty(), p), with_all(seen, p)),
        u < adj.len() && !seen.contains(u) ==> p.contains(u),
        reach_avoiding_in(adj, seen, u, y, k),
    ensures
        p.contains(y),
    decreases k,
{
    if k > 0 {
        let m = choose|m: usize|
            reach_avoiding_in(adj, seen, u, m, (k - 1) as nat) && #[trigger] edge(adj, m, y)
                && !seen.contains(y);
        lemma_avoiding_listed(adj, seen, p, u, m, (k - 1) as nat);
        assert(with_all(Set::empty(), p).contains(m));
        assert(with_all(seen, p).contains(y));
    }
}

/// An exploration lists exactly the vertices that its root reaches by walks
/// that pass no vertex seen before.
pub proof fn lemma_visit_avoiding(adj: Seq<Seq<usize>>, u: usize, seen: Set<usize>, post: bool)
    requires
        valid_adjacency(adj),
    ensures
        forall|x: usize| #[trigger]
            visit(adj, u, seen, post).contains(x) <==> reaches_avoiding(adj, seen, u, x),
{
    let p = visit(adj, u, seen, post);
    let none = Set::<usize>::empty();
    lemma_visit_basic(adj, u, seen, post);
    lemma_visit_closed(adj, u, none, seen, post);
    let inside = Set::new(|x: usize| reaches_avoiding(adj, seen, u, x));
    assert forall|x: usize, y: usize|
        inside.contains(x) && #[trigger] edge(adj, x, y) && !seen.contains(y)
            implies inside.contains(
        y,
    ) by {
        let k = choose|k: nat| reach_avoiding_in(adj, seen, u, x, k);
        assert(reach_avoiding_in(adj, seen, u, x, ((k + 1) - 1) as nat));
        assert(reach_avoiding_in(adj, seen, u, y, k + 1));
    }
    if u < adj.len() && !seen.contains(u) {
        assert(reach_avoiding_in(adj, seen, u, u, 0));
        lemma_visit_inside(adj, u, seen, post, inside);
    }
    assert forall|x: usize| #[trigger] p.contains(x) <==> reaches_avoiding(adj, seen, u, x) by {
        if p.contains(x) {
            assert(inside.contains(x));
        }
        if reaches_avoiding(adj, seen, u, x) {
            let k = choose|k: nat| reach_avoiding_in(adj, seen, u, x, k);
            lemma_avoiding_listed(adj, seen, p, u, x, k);
        }
    }
}

} // verus!
