//! Depth-first traversal of a graph held as adjacency lists.

use std::collections::HashSet;
use vstd::prelude::*;
use crate::error::{same_outcome, GraphError};
use crate::reach::{
    check_adjacency, flagged, lemma_with_all_push, lists, reaches, valid_adjacency, with_all,
};
use crate::traverse::{explore, visit};
use crate::traverse_facts::{
    lemma_visit_all_reached, lemma_visit_avoiding, lemma_visit_basic, lemma_visit_reached,
    lemma_visit_same_below, reaches_avoiding, same_below,
};

verus! {

broadcast use vstd::std_specs::hash::group_hash_axioms;

/// A directed graph held as adjacency lists.
pub struct Graph {
    /// For each vertex, its neighbours in the order in which the edges were
    /// added.
    pub edges: Vec<Vec<usize>>,
    /// The number of vertices.
    pub vertices: usize,
}

impl Graph {
    /// The adjacency lists of the graph.
    pub open spec fn view(&self) -> Seq<Seq<usize>> {
        lists(&self.edges)
    }

    /// There is one list for each vertex, and every neighbour named is a
    /// vertex of the graph.
    pub open spec fn wf(&self) -> bool {
        &&& self@.len() == self.vertices
        &&& valid_adjacency(self@)
    }

    /// A graph with `vertices` vertices and no edges.
    pub fn new(vertices: usize) -> (g: Graph)
        ensures
            g.wf(),
            g.vertices == vertices,
            g@ == Seq::new(vertices as nat, |i: int| Seq::<usize>::empty()),
    {
        let mut edges: Vec<Vec<usize>> = Vec::new();
        while edges.len() < vertices
            invariant
                edges.len() <= vertices,
                forall|k: int| 0 <= k < edges.len() ==> (#[trigger] edges[k])@.len() == 0,
            decreases vertices - edges.len(),
        {
            edges.push(Vec::new());
        }
        let g = Graph { edges, vertices };
        proof {
            assert forall|k: int| 0 <= k < g@.len() implies #[trigger] g@[k]
                == Seq::<usize>::empty() by {
                assert(g.edges[k]@ =~= Seq::<usize>::empty());
            }
            assert(g@ =~= Seq::new(vertices as nat, |i: int| Seq::<usize>::empty()));
        }
        g
    }

    /// Adds the edge from `u` to `v`, behind the edges that `u` has already.
    /// An endpoint that is no vertex of the graph is rejected, and the graph
    /// stays as it is.
    pub fn add_edge(&mut self, u: usize, v: usize) -> (r: Result<(), GraphError>)
        ensures
            final(self).vertices == old(self).vertices,
            match r {
                Ok(_) => {
                    &&& u < old(self).vertices
                    &&& v < old(self).vertices
                    &&& old(self)@.len() == old(self).vertices
                    &&& final(self)@ == with_edge(old(self)@, u, v)
                },
                Err(e) => {
                    &&& e == GraphError::InvalidVertexIndex
                    &&& !(u < old(self).vertices && v < old(self).vertices && old(self)@.len()
                        == old(self).vertices)
                    &&& final(self)@ == old(self)@
                },
            },
            old(self).wf() ==> final(self).wf(),
    {
        if u >= self.vertices || v >= self.vertices || self.edges.len() != self.vertices {
            return Err(GraphError::InvalidVertexIndex);
        }
        self.edges[u].push(v);
        proof {
            let before = old(self)@;
            let after = self@;
            assert(after =~= before.update(u as int, before[u as int].push(v)));
            if old(self).wf() {
                assert forall|a: int, i: int|
                    0 <= a < after.len() && 0 <= i < after[a].len() implies (
                #[trigger] after[a][i]) < after.len() by {
                    if a == u && i == before[u as int].len() {
                    } else {
                        assert(after[a][i] == before[a][i]);
                    }
                }
            }
        }
        Ok(())
    }

    /// What [`Graph::d_fs`] returns and leaves in the set of visited
    /// vertices, which held `before` and holds `after`: for a well-formed
    /// graph and a `u` that is a vertex of it, the order of the depth-first
    /// traversal from `u`, which lists `u` first, lists no vertex twice and
    /// lists exactly the vertices that `u` reaches by walks that pass no
    /// vertex visited before, and the set enlarged by the vertices listed; an
    /// error and the set unchanged otherwise.
    pub open spec fn d_fs_spec(
        &self,
        u: usize,
        before: Set<usize>,
        after: Set<usize>,
        r: Result<Vec<usize>, GraphError>,
    ) -> bool {
        match r {
            Ok(order) => {
                &&& self.wf()
                &&& u < self.vertices
                &&& order@ == visit(self@, u, before.remove(u), false)
                &&& after == with_all(before, order@)
                &&& order@.no_duplicates()
                &&& order@.len() > 0 && order@[0] == u
                &&& forall|x: usize| #[trigger] order@.contains(x) ==> reaches(self@, u, x)
                &&& forall|x: usize| #[trigger]
                    order@.contains(x) <==> reaches_avoiding(self@, before.remove(u), u, x)
            },
            Err(e) => {
                &&& e == GraphError::InvalidVertexIndex
                &&& !(self.wf() && u < self.vertices)
                &&& after == before
            },
        }
    }

    /// The vertices that a depth-first traversal from `u` reaches, in the
    /// order in which it reaches them: `u` first, then for each neighbour of
    /// `u` in turn that is not yet visited, what the traversal from it
    /// reaches. The vertices in `visited`, other than `u` itself, count as
    /// visited already; every vertex listed is added to `visited`.
    ///
    /// A `u` that is no vertex of the graph is rejected, and so is a graph
    /// whose lists do not fit its number of vertices.
    pub fn d_fs(&self, u: usize, visited: &mut HashSet<usize>) -> (r: Result<
        Vec<usize>,
        GraphError,
    >)
        ensures
            self.d_fs_spec(u, old(visited)@, final(visited)@, r),
    {
        let n = self.vertices;
        if self.edges.len() != n || u >= n || !check_adjacency(&self.edges) {
            return Err(GraphError::InvalidVertexIndex);
        }
        let ghost seen = visited@.remove(u);
        let mut flags: Vec<bool> = Vec::new();
        while flags.len() < n
            invariant
                flags.len() <= n,
                u < n,
                forall|x: int|
                    0 <= x < flags.len() ==> (#[trigger] flags[x] <==> x != u && visited@.contains(
                        x as usize,
                    )),
            decreases n - flags.len(),
        {
            let x = flags.len();
            let was = x != u && visited.contains(&x);
            flags.push(was);
        }
        let mut order: Vec<usize> = Vec::new();
        proof {
            assert(same_below(n as nat, flagged(flags@), seen));
            lemma_visit_same_below(self@, u, flagged(flags@), seen, false);
            lemma_visit_basic(self@, u, seen, false);
            lemma_visit_reached(self@, u, seen, false);
            lemma_visit_avoiding(self@, u, seen, false);
        }
        explore(&self.edges, u, &mut flags, &mut order, false);
        assert(order@ =~= visit(self@, u, seen, false));
        let mut i: usize = 0;
        while i < order.len()
            invariant
                i <= order.len(),
                visited@ == with_all(old(visited)@, order@.take(i as int)),
            decreases order.len() - i,
        {
            visited.insert(order[i]);
            proof {
                assert(order@.take(i + 1) =~= order@.take(i as int).push(order@[i as int]));
                lemma_with_all_push(old(visited)@, order@.take(i as int), order@[i as int]);
            }
            i += 1;
        }
        assert(order@.take(order@.len() as int) =~= order@);
        Ok(order)
    }
}

/// The adjacency lists `g` with one more edge from `u` to `v`, behind the
/// edges that `u` has already.
pub open spec fn with_edge(g: Seq<Seq<usize>>, u: usize, v: usize) -> Seq<Seq<usize>> {
    g.update(u as int, g[u as int].push(v))
}

/// Every pair joins two of the vertices `0 .. n`.
pub open spec fn pairs_valid(n: nat, pairs: Seq<(usize, usize)>) -> bool {
    forall|i: int| 0 <= i < pairs.len() ==> (#[trigger] pairs[i]).0 < n && pairs[i].1 < n
}

/// The adjacency lists of the graph with `n` vertices that is built from
/// `pairs`: for each pair in turn, an edge from its first vertex to its
/// second, then one back.
pub open spec fn built(n: nat, pairs: Seq<(usize, usize)>) -> Seq<Seq<usize>>
    decreases pairs.len(),
{
    if pairs.len() == 0 {
        Seq::new(n, |i: int| Seq::<usize>::empty())
    } else {
        with_edge(
            with_edge(built(n, pairs.drop_last()), pairs.last().0, pairs.last().1),
            pairs.last().1,
            pairs.last().0,
        )
    }
}

/// Builds the graph with `vertices` vertices from `pairs`: for each pair in
/// turn, an edge from its first vertex to its second, then one back. A pair
/// that names a vertex which the graph does not have is rejected.
pub fn add_edges(vertices: usize, pairs: &Vec<(usize, usize)>) -> (r: Result<Graph, GraphError>)
    ensures
        match r {
            Ok(g) => {
                &&& pairs_valid(vertices as nat, pairs@)
                &&& g.wf()
                &&& g.vertices == vertices
                &&& g@ == built(vertices as nat, pairs@)
            },
            Err(e) => e == GraphError::InvalidVertexIndex && !pairs_valid(vertices as nat, pairs@),
        },
{
    let mut g = Graph::new(vertices);
    let mut i: usize = 0;
    assert(pairs@.take(0) =~= Seq::empty());
    while i < pairs.len()
        invariant
            i <= pairs.len(),
            g.wf(),
            g.vertices == vertices,
            pairs_valid(vertices as nat, pairs@.take(i as int)),
            g@ == built(vertices as nat, pairs@.take(i as int)),
        decreases pairs.len() - i,
    {
        let (s, d) = pairs[i];
        proof {
            assert(pairs@.take(i + 1).drop_last() =~= pairs@.take(i as int));
            assert(pairs@.take(i + 1).last() == pairs@[i as int]);
        }
        if g.add_edge(s, d).is_err() {
            return Err(GraphError::InvalidVertexIndex);
        }
        if g.add_edge(d, s).is_err() {
            return Err(GraphError::InvalidVertexIndex);
        }
        proof {
            let upto = pairs@.take(i + 1);
            assert forall|k: int| 0 <= k < upto.len() implies (#[trigger] upto[k]).0 < vertices
                && upto[k].1 < vertices by {
                if k < i {
                    assert(pairs@.take(i as int)[k] == upto[k]);
                }
            }
        }
        i += 1;
    }
    assert(pairs@.take(pairs@.len() as int) =~= pairs@);
    Ok(g)
}

/// What [`dfs`] returns: where every pair and `start` name vertices of the
/// graph, the order of the depth-first traversal from `start` of the graph
/// built from `pairs`, which lists exactly the vertices that `start`
/// reaches, each once; an error otherwise.
pub open spec fn dfs_spec(
    vertices: usize,
    pairs: Seq<(usize, usize)>,
    start: usize,
    r: Result<Vec<usize>, GraphError>,
) -> bool {
    match r {
        Ok(order) => {
            &&& pairs_valid(vertices as nat, pairs)
            &&& start < vertices
            &&& order@ == visit(built(vertices as nat, pairs), start, Set::empty(), false)
            &&& order@.no_duplicates()
            &&& order@.len() > 0 && order@[0] == start
            &&& forall|x: usize| #[trigger]
                order@.contains(x) <==> reaches(built(vertices as nat, pairs), start, x)
        },
        Err(e) => e == GraphError::InvalidVertexIndex && !(pairs_valid(vertices as nat, pairs)
            && start < vertices),
    }
}

/// The order in which a depth-first traversal from `start` reaches the
/// vertices of the graph with `vertices` vertices that is built from `pairs`
/// as by [`add_edges`]. A pair or a `start` that names a vertex which the
/// graph does not have is rejected.
pub fn dfs(vertices: usize, pairs: &Vec<(usize, usize)>, start: usize) -> (r: Result<
    Vec<usize>,
    GraphError,
>)
    ensures
        dfs_spec(vertices, pairs@, start, r),
{
    match add_edges(vertices, pairs) {
        Ok(g) => {
            let mut visited: HashSet<usize> = HashSet::new();
            proof {
                assert(visited@.remove(start) =~= Set::<usize>::empty());
                if start < vertices {
                    lemma_visit_all_reached(g@, start, false);
                }
            }
            g.d_fs(start, &mut visited)
        },
        Err(e) => Err(e),
    }
}

/// Two depth-first traversals of the same graph from the same vertex, with
/// the same vertices visited before, end alike: both are rejected, or both
/// list the same vertices in the same order; and both leave the same
/// vertices visited.
pub proof fn lemma_d_fs_deterministic(
    g1: Graph,
    g2: Graph,
    u: usize,
    before: Set<usize>,
    after1: Set<usize>,
    after2: Set<usize>,
    r1: Result<Vec<usize>, GraphError>,
    r2: Result<Vec<usize>, GraphError>,
)
    requires
        g1@ == g2@,
        g1.vertices == g2.vertices,
        g1.d_fs_spec(u, before, after1, r1),
        g2.d_fs_spec(u, before, after2, r2),
    ensures
        same_outcome(r1, r2),
        after1 == after2,
{
}

/// Building a graph twice from the same pairs and traversing it depth-first
/// from the same vertex ends alike both times.
pub proof fn lemma_dfs_idempotent(
    vertices: usize,
    pairs: Seq<(usize, usize)>,
    start: usize,
    r1: Result<Vec<usize>, GraphError>,
    r2: Result<Vec<usize>, GraphError>,
)
    requires
        dfs_spec(vertices, pairs, start, r1),
        dfs_spec(vertices, pairs, start, r2),
    ensures
        same_outcome(r1, r2),
{
}

} // verus!
