//! Depth-first exploration: what it visits, in which order, and the loop that
//! computes it without recursion.
//!
//! The order of a depth-first exploration is defined by two mutually
//! recursive functions over adjacency lists, [`visit`] for one vertex and
//! [`forest`] for a list of roots. [`explore`] computes `visit` with an
//! explicit stack of frames, each a vertex with the position of the next
//! neighbour to look at.

use vstd::prelude::*;
use crate::reach::{
    flagged, lemma_flagged_set, lemma_unseen_insert, lemma_unseen_monotone, lemma_with_all_concat,
    lemma_with_all_empty, lemma_with_all_push, lists, unseen, valid_adjacency, with_all,
};

verus! {

/// The vertices that a depth-first exploration from `u` visits, when the
/// vertices in `seen` count as visited already. Neighbours are taken in the
/// order of their list. With `post` each vertex is listed when its
/// exploration is complete, otherwise when it is first reached. A vertex that
/// is in `seen`, or is no vertex of the graph, contributes nothing.
pub open spec fn visit(adj: Seq<Seq<usize>>, u: usize, seen: Set<usize>, post: bool) -> Seq<usize>
    decreases unseen(adj.len(), seen), 0nat,
{
    if u < adj.len() && !seen.contains(u) {
        proof {
            lemma_unseen_insert(adj.len(), seen, u);
        }
        let inner = forest(adj, adj[u as int], seen.insert(u), post);
        if post {
            inner.push(u)
        } else {
            seq![u] + inner
        }
    } else {
        Seq::empty()
    }
}

/// The vertices visited by exploring from each of `roots` in turn, every
/// exploration counting as visited what the earlier ones have listed.
pub open spec fn forest(
    adj: Seq<Seq<usize>>,
    roots: Seq<usize>,
    seen: Set<usize>,
    post: bool,
) -> Seq<usize>
    decreases unseen(adj.len(), seen), 1 + roots.len(),
{
    if roots.len() == 0 {
        Seq::empty()
    } else {
        let first = visit(adj, roots[0], seen, post);
        proof {
            lemma_unseen_monotone(adj.len(), seen, with_all(seen, first));
        }
        first + forest(adj, roots.skip(1), with_all(seen, first), post)
    }
}

/// What the frames of `stack` have yet to list: for each frame, from the top
/// down, the exploration of the neighbours from its position on, and with
/// `post` the frame's own vertex after them.
pub open spec fn pending(
    adj: Seq<Seq<usize>>,
    stack: Seq<(usize, usize)>,
    seen: Set<usize>,
    post: bool,
) -> Seq<usize>
    decreases stack.len(),
{
    if stack.len() == 0 {
        Seq::empty()
    } else {
        let below = forest(adj, adj[stack.last().0 as int].skip(stack.last().1 as int), seen, post);
        let done = if post {
            below.push(stack.last().0)
        } else {
            below
        };
        done + pending(adj, stack.drop_last(), with_all(seen, done), post)
    }
}

/// The steps that the frames of `stack` can still take without reaching a new
/// vertex.
pub open spec fn work(adj: Seq<Seq<usize>>, stack: Seq<(usize, usize)>) -> nat
    decreases stack.len(),
{
    if stack.len() == 0 {
        0
    } else {
        work(adj, stack.drop_last()) + 1
            + (adj[stack.last().0 as int].len() - stack.last().1) as nat
    }
}

/// Every frame names a vertex that is marked, and a position in its list.
pub open spec fn frames_ok(
    adj: Seq<Seq<usize>>,
    stack: Seq<(usize, usize)>,
    seen: Set<usize>,
) -> bool {
    forall|k: int|
        0 <= k < stack.len() ==> {
            &&& (#[trigger] stack[k]).0 < adj.len()
            &&& stack[k].1 <= adj[stack[k].0 as int].len()
            &&& seen.contains(stack[k].0)
        }
}

/// A frame that has looked at all its neighbours is complete: with `post` its
/// vertex is listed now, and the frames below go on.
proof fn lemma_pending_pop(
    adj: Seq<Seq<usize>>,
    stack: Seq<(usize, usize)>,
    seen: Set<usize>,
    post: bool,
)
    requires
        stack.len() > 0,
        frames_ok(adj, stack, seen),
        stack.last().1 == adj[stack.last().0 as int].len(),
    ensures
        pending(adj, stack, seen, post) == (if post {
            seq![stack.last().0]
        } else {
            Seq::empty()
        }) + pending(adj, stack.drop_last(), seen, post),
        with_all(seen, pending(adj, stack, seen, post)) == with_all(
            seen,
            pending(adj, stack.drop_last(), seen, post),
        ),
{
    let u = stack.last().0;
    let row = adj[u as int];
    let below = forest(adj, row.skip(stack.last().1 as int), seen, post);
    assert(below =~= Seq::empty());
    let done = if post {
        below.push(u)
    } else {
        below
    };
    assert(seen.contains(u));
    lemma_with_all_empty(seen);
    lemma_with_all_push(seen, below, u);
    assert(with_all(seen, done) =~= seen);
    assert(done =~= if post {
        seq![u]
    } else {
        Seq::empty()
    });
    lemma_with_all_concat(seen, done, pending(adj, stack.drop_last(), seen, post));
}

/// A neighbour that is marked already is passed over.
proof fn lemma_pending_skip(
    adj: Seq<Seq<usize>>,
    stack: Seq<(usize, usize)>,
    seen: Set<usize>,
    post: bool,
)
    requires
        stack.len() > 0,
        frames_ok(adj, stack, seen),
        stack.last().1 < adj[stack.last().0 as int].len(),
        stack.last().1 < usize::MAX,
        seen.contains(adj[stack.last().0 as int][stack.last().1 as int]),
    ensures
        pending(adj, stack, seen, post) == pending(
            adj,
            stack.update(stack.len() - 1, (stack.last().0, (stack.last().1 + 1) as usize)),
            seen,
            post,
        ),
{
    let u = stack.last().0;
    let i = stack.last().1;
    let row = adj[u as int];
    let next = stack.update(stack.len() - 1, (u, (i + 1) as usize));
    assert(next.drop_last() =~= stack.drop_last());
    assert(row.skip(i as int).skip(1) =~= row.skip(i + 1));
    assert(row.skip(i as int)[0] == row[i as int]);
    let first = visit(adj, row[i as int], seen, post);
    assert(first =~= Seq::empty());
    lemma_with_all_empty(seen);
    assert(forest(adj, row.skip(i as int), seen, post) =~= forest(
        adj,
        row.skip(i + 1),
        seen,
        post,
    ));
}

/// A neighbour that is not yet marked gets a frame of its own; without `post`
/// it is listed at once.
proof fn lemma_pending_push(
    adj: Seq<Seq<usize>>,
    stack: Seq<(usize, usize)>,
    seen: Set<usize>,
    post: bool,
)
    requires
        stack.len() > 0,
        frames_ok(adj, stack, seen),
        stack.last().1 < adj[stack.last().0 as int].len(),
        stack.last().1 < usize::MAX,
        adj[stack.last().0 as int][stack.last().1 as int] < adj.len(),
        !seen.contains(adj[stack.last().0 as int][stack.last().1 as int]),
    ensures
        pending(adj, stack, seen, post) == (if post {
            Seq::empty()
        } else {
            seq![adj[stack.last().0 as int][stack.last().1 as int]]
        }) + pending(
            adj,
            stack.update(stack.len() - 1, (stack.last().0, (stack.last().1 + 1) as usize)).push(
                (adj[stack.last().0 as int][stack.last().1 as int], 0),
            ),
            seen.insert(adj[stack.last().0 as int][stack.last().1 as int]),
            post,
        ),
        with_all(seen, pending(adj, stack, seen, post)) == with_all(
            seen.insert(adj[stack.last().0 as int][stack.last().1 as int]),
            pending(
                adj,
                stack.update(stack.len() - 1, (stack.last().0, (stack.last().1 + 1) as usize)).push(
                    (adj[stack.last().0 as int][stack.last().1 as int], 0),
                ),
                seen.insert(adj[stack.last().0 as int][stack.last().1 as int]),
                post,
            ),
        ),
{
    let u = stack.last().0;
    let i = stack.last().1;
    let row = adj[u as int];
    let v = row[i as int];
    let s1 = stack.update(stack.len() - 1, (u, (i + 1) as usize));
    let s2 = s1.push((v, 0));
    assert(s2.drop_last() =~= s1);
    assert(s1.drop_last() =~= stack.drop_last());
    assert(adj[v as int].skip(0) =~= adj[v as int]);
    assert(row.skip(i as int).skip(1) =~= row.skip(i + 1));
    assert(row.skip(i as int)[0] == v);

    let inner = forest(adj, adj[v as int], seen.insert(v), post);
    let first = visit(adj, v, seen, post);
    let done_v = if post {
        inner.push(v)
    } else {
        inner
    };
    let seen1 = with_all(seen, first);
    lemma_with_all_push(seen, inner, v);
    assert(with_all(seen.insert(v), done_v) == seen1) by {
        if post {
            lemma_with_all_push(seen.insert(v), inner, v);
            assert(with_all(seen.insert(v), inner).insert(v) =~= with_all(seen.insert(v), inner));
        }
    }
    let below_u1 = forest(adj, row.skip(i + 1), seen1, post);
    let done_u1 = if post {
        below_u1.push(u)
    } else {
        below_u1
    };
    let below_u = forest(adj, row.skip(i as int), seen, post);
    assert(below_u == first + below_u1);
    let done_u = if post {
        below_u.push(u)
    } else {
        below_u
    };
    assert(done_u =~= first + done_u1);
    lemma_with_all_concat(seen, first, done_u1);
    let rest = pending(adj, stack.drop_last(), with_all(seen1, done_u1), post);
    assert(pending(adj, stack, seen, post) == done_u + rest);
    assert(pending(adj, s1, seen1, post) == done_u1 + rest);
    assert(pending(adj, s2, seen.insert(v), post) == done_v + (done_u1 + rest));
    let lead = if post {
        Seq::<usize>::empty()
    } else {
        seq![v]
    };
    assert(lead + done_v =~= first);
    assert(done_u + rest =~= lead + (done_v + (done_u1 + rest)));
    let tail = done_u1 + rest;
    assert(done_u + rest =~= first + tail);
    lemma_with_all_concat(seen, first, tail);
    lemma_with_all_concat(seen.insert(v), done_v, tail);
}

/// The first frame of an exploration has everything yet to list that the
/// exploration lists, but for the root itself where that is listed at once.
proof fn lemma_pending_start(adj: Seq<Seq<usize>>, root: usize, seen: Set<usize>, post: bool)
    requires
        root < adj.len(),
        !seen.contains(root),
    ensures
        visit(adj, root, seen, post) == (if post {
            Seq::empty()
        } else {
            seq![root]
        }) + pending(adj, seq![(root, 0usize)], seen.insert(root), post),
        with_all(seen, visit(adj, root, seen, post)) == with_all(
            seen.insert(root),
            pending(adj, seq![(root, 0usize)], seen.insert(root), post),
        ),
{
    let stack = seq![(root, 0usize)];
    assert(adj[root as int].skip(0) =~= adj[root as int]);
    assert(stack.drop_last() =~= Seq::empty());
    let inner = forest(adj, adj[root as int], seen.insert(root), post);
    let done = if post {
        inner.push(root)
    } else {
        inner
    };
    assert(pending(adj, stack.drop_last(), with_all(seen.insert(root), done), post)
        =~= Seq::empty());
    assert(pending(adj, stack, seen.insert(root), post) =~= done);
    assert(visit(adj, root, seen, post) =~= (if post {
        Seq::empty()
    } else {
        seq![root]
    }) + done);
    lemma_with_all_push(seen, inner, root);
    if post {
        lemma_with_all_push(seen.insert(root), inner, root);
        assert(with_all(seen.insert(root), inner).insert(root) =~= with_all(
            seen.insert(root),
            inner,
        ));
    }
}

/// Replacing the top frame by one that is a neighbour further leaves one
/// step less to take.
proof fn lemma_work_advance(adj: Seq<Seq<usize>>, stack: Seq<(usize, usize)>)
    requires
        stack.len() > 0,
        stack.last().1 < adj[stack.last().0 as int].len(),
        stack.last().1 < usize::MAX,
    ensures
        work(adj, stack.update(stack.len() - 1, (stack.last().0, (stack.last().1 + 1) as usize)))
            + 1 == work(adj, stack),
{
    let next = stack.update(stack.len() - 1, (stack.last().0, (stack.last().1 + 1) as usize));
    assert(next.drop_last() =~= stack.drop_last());
}

/// Explores the graph depth-first from `root`, which must not be marked in
/// `visited`, and appends to `out` the vertices reached, in the order of
/// [`visit`]. Every vertex listed is marked in `visited`.
pub fn explore(
    adj: &Vec<Vec<usize>>,
    root: usize,
    visited: &mut Vec<bool>,
    out: &mut Vec<usize>,
    post: bool,
)
    requires
        valid_adjacency(lists(adj)),
        old(visited).len() == adj.len(),
        root < adj.len(),
        !old(visited)[root as int],
    ensures
        final(visited).len() == adj.len(),
        final(out)@ == old(out)@ + visit(lists(adj), root, flagged(old(visited)@), post),
        flagged(final(visited)@) == with_all(
            flagged(old(visited)@),
            visit(lists(adj), root, flagged(old(visited)@), post),
        ),
{
    let n = adj.len();
    let ghost g = lists(adj);
    let ghost seen0 = flagged(visited@);
    let ghost out0 = out@;
    let ghost goal = visit(g, root, seen0, post);
    let mut stack: Vec<(usize, usize)> = Vec::new();
    proof {
        lemma_pending_start(g, root, seen0, post);
        lemma_flagged_set(visited@, root);
    }
    visited[root] = true;
    if !post {
        out.push(root);
    }
    stack.push((root, 0));
    assert(stack@ =~= seq![(root, 0usize)]);
    assert(out0 + goal =~= out@ + pending(g, stack@, flagged(visited@), post));
    while stack.len() > 0
        invariant
            n == adj.len(),
            g == lists(adj),
            valid_adjacency(g),
            visited.len() == n,
            frames_ok(g, stack@, flagged(visited@)),
            out0 + goal == out@ + pending(g, stack@, flagged(visited@), post),
            with_all(seen0, goal) == with_all(
                flagged(visited@),
                pending(g, stack@, flagged(visited@), post),
            ),
        decreases unseen(n as nat, flagged(visited@)), work(g, stack@),
    {
        let top = stack.len() - 1;
        let u = stack[top].0;
        let i = stack[top].1;
        let ghost seen = flagged(visited@);
        let ghost before = stack@;
        let ghost listed = out@;
        assert(before.last() == (u, i));
        if i == adj[u].len() {
            proof {
                lemma_pending_pop(g, before, seen, post);
            }
            stack.pop();
            if post {
                out.push(u);
            }
            assert(listed + (seq![u] + pending(g, stack@, seen, post))
                =~= listed.push(u) + pending(g, stack@, seen, post));
            assert(listed + (Seq::<usize>::empty() + pending(g, stack@, seen, post)) =~= listed
                + pending(g, stack@, seen, post));
        } else {
            let v = adj[u][i];
            assert(g[u as int][i as int] == v);
            stack[top] = (u, i + 1);
            assert(stack@ == before.update(before.len() - 1, (u, (i + 1) as usize)));
            proof {
                lemma_work_advance(g, before);
            }
            if !visited[v] {
                proof {
                    lemma_pending_push(g, before, seen, post);
                    lemma_flagged_set(visited@, v);
                    lemma_unseen_insert(n as nat, seen, v);
                }
                visited[v] = true;
                if !post {
                    out.push(v);
                }
                stack.push((v, 0));
                assert(listed + (seq![v] + pending(g, stack@, seen.insert(v), post))
                    =~= listed.push(v) + pending(g, stack@, seen.insert(v), post));
                assert(listed + (Seq::<usize>::empty() + pending(g, stack@, seen.insert(v), post))
                    =~= listed + pending(g, stack@, seen.insert(v), post));
            } else {
                proof {
                    lemma_pending_skip(g, before, seen, post);
                }
            }
        }
    }
    proof {
        lemma_with_all_empty(flagged(visited@));
        assert(out@ + Seq::<usize>::empty() =~= out@);
    }
}

} // verus!
