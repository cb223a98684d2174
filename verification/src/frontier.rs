//! A min-priority queue of vertices with tentative distances, as a binary heap
//! in a vector.

use vstd::multiset::Multiset;
use vstd::prelude::*;
use vstd::seq_lib::{to_multiset_build, to_multiset_insert, to_multiset_remove};

verus! {

/// A vertex together with a distance: an entry of an adjacency list, where
/// the distance is the weight of the edge to the vertex, or an entry of the
/// frontier, where it is the tentative distance of the vertex.
#[derive(Clone, Copy, Debug, PartialEq, Eq, Structural)]
pub struct Node {
    /// The vertex.
    pub vertex: usize,
    /// The distance.
    pub dist: i32,
}

/// `a` is taken out of the frontier no later than `b`: it is nearer, or as near
/// and of no greater vertex.
pub open spec fn no_later(a: Node, b: Node) -> bool {
    a.dist < b.dist || (a.dist == b.dist && a.vertex <= b.vertex)
}

/// Whether `a` is taken out of the frontier before `b`: it is nearer, or as
/// near and of a lesser vertex.
pub fn sooner(a: Node, b: Node) -> (r: bool)
    ensures
        r == !no_later(b, a),
{
    a.dist < b.dist || (a.dist == b.dist && a.vertex < b.vertex)
}

/// The position above `i` in the heap.
pub open spec fn parent(i: int) -> int {
    (i - 1) / 2
}

/// No entry comes sooner than the entry above it, except that the entry at
/// `hole` is not compared with the entries below it.
pub open spec fn ordered_but(s: Seq<Node>, hole: int) -> bool {
    forall|i: int| 0 < i < s.len() && parent(i) != hole ==> no_later(s[parent(i)], #[trigger] s[i])
}

/// No entry comes sooner than the entry above it, except that the entry at
/// `hole` is not compared with the entry above it.
pub open spec fn ordered_above(s: Seq<Node>, hole: int) -> bool {
    forall|i: int| 0 < i < s.len() && i != hole ==> no_later(s[parent(i)], #[trigger] s[i])
}

/// No entry comes sooner than the entry above it.
pub open spec fn ordered(s: Seq<Node>) -> bool {
    ordered_but(s, -1)
}

/// The entries below `hole` come no sooner than the entry above it.
pub open spec fn bridged(s: Seq<Node>, hole: int) -> bool {
    forall|i: int|
        0 < i < s.len() && parent(i) == hole && hole > 0 ==> no_later(
            s[parent(hole)],
            #[trigger] s[i],
        )
}

/// `s` with the entries at `i` and `j` exchanged.
pub open spec fn swapped(s: Seq<Node>, i: int, j: int) -> Seq<Node> {
    s.update(i, s[j]).update(j, s[i])
}

/// Replacing an entry takes one occurrence of the old entry out and puts one
/// of the new entry in.
proof fn lemma_update_multiset(s: Seq<Node>, i: int, a: Node)
    requires
        0 <= i < s.len(),
    ensures
        s.update(i, a).to_multiset() == s.to_multiset().remove(s[i]).insert(a),
{
    to_multiset_remove(s, i);
    to_multiset_insert(s.remove(i), i, a);
    assert(s.update(i, a) =~= s.remove(i).insert(i, a));
}

/// Exchanging two entries leaves the entries what they are.
proof fn lemma_swap_multiset(s: Seq<Node>, i: int, j: int)
    requires
        0 <= i < s.len(),
        0 <= j < s.len(),
    ensures
        swapped(s, i, j).to_multiset() == s.to_multiset(),
{
    let t = s.update(i, s[j]);
    lemma_update_multiset(s, i, s[j]);
    lemma_update_multiset(t, j, s[i]);
    s.to_multiset_ensures();
    assert(s.contains(s[i]));
    assert(s.contains(s[j]));
    assert(swapped(s, i, j).to_multiset() =~= s.to_multiset());
}

/// In an ordered heap no entry comes sooner than the first.
proof fn lemma_first_is_least(s: Seq<Node>, i: int)
    requires
        ordered(s),
        0 <= i < s.len(),
    ensures
        no_later(s[0], s[i]),
    decreases i,
{
    if i > 0 {
        lemma_first_is_least(s, parent(i));
        assert(no_later(s[parent(i)], s[i]));
    }
}

/// Exchanges the entries at `i` and `j`.
fn exchange(heap: &mut Vec<Node>, i: usize, j: usize)
    requires
        i < old(heap).len(),
        j < old(heap).len(),
    ensures
        final(heap)@ == swapped(old(heap)@, i as int, j as int),
        final(heap)@.to_multiset() == old(heap)@.to_multiset(),
        final(heap).len() == old(heap).len(),
{
    let a = heap[i];
    let b = heap[j];
    heap[i] = b;
    heap[j] = a;
    proof {
        assert(heap@ =~= swapped(old(heap)@, i as int, j as int));
        lemma_swap_multiset(old(heap)@, i as int, j as int);
    }
}

/// Exchanging an entry with the entry above it, where it comes sooner than
/// that, moves the one place where the order may fail a level up.
proof fn lemma_step_up(s: Seq<Node>, i: int)
    requires
        0 < i < s.len(),
        ordered_above(s, i),
        bridged(s, i),
        !no_later(s[parent(i)], s[i]),
    ensures
        ordered_above(swapped(s, i, parent(i)), parent(i)),
        bridged(swapped(s, i, parent(i)), parent(i)),
{
    let p = parent(i);
    let t = swapped(s, i, p);
    assert forall|j: int| 0 < j < t.len() && j != p implies no_later(
        t[parent(j)],
        #[trigger] t[j],
    ) by {
        if j == i {
        } else if parent(j) == i {
            assert(no_later(s[parent(i)], s[j]));
        } else {
            assert(no_later(s[parent(j)], s[j]));
        }
    }
    assert forall|j: int| 0 < j < t.len() && parent(j) == p && p > 0 implies no_later(
        t[parent(p)],
        #[trigger] t[j],
    ) by {
        assert(no_later(s[parent(p)], s[p]));
        if j != i {
            assert(no_later(s[parent(j)], s[j]));
        }
    }
}

/// Exchanging an entry with the soonest entry below it, where that comes
/// sooner, moves the one place where the order may fail a level down.
proof fn lemma_step_down(s: Seq<Node>, i: int, child: int)
    requires
        0 <= i < child < s.len(),
        parent(child) == i,
        ordered_but(s, i),
        bridged(s, i),
        !no_later(s[i], s[child]),
        forall|j: int| 0 < j < s.len() && parent(j) == i ==> no_later(s[child], #[trigger] s[j]),
    ensures
        ordered_but(swapped(s, i, child), child),
        bridged(swapped(s, i, child), child),
{
    let t = swapped(s, i, child);
    assert forall|j: int| 0 < j < t.len() && parent(j) != child implies no_later(
        t[parent(j)],
        #[trigger] t[j],
    ) by {
        if parent(j) == i {
            assert(no_later(s[child], s[j]));
        } else if j == i {
            assert(no_later(s[parent(i)], s[child]));
        } else {
            assert(no_later(s[parent(j)], s[j]));
        }
    }
    assert forall|j: int| 0 < j < t.len() && parent(j) == child && child > 0 implies no_later(
        t[parent(child)],
        #[trigger] t[j],
    ) by {
        assert(no_later(s[parent(j)], s[j]));
    }
}

/// Restores the order of a heap in which only the entry at `start` may come
/// sooner than the entry above it.
fn sift_up(heap: &mut Vec<Node>, start: usize)
    requires
        start < old(heap).len(),
        ordered_above(old(heap)@, start as int),
        bridged(old(heap)@, start as int),
    ensures
        final(heap).len() == old(heap).len(),
        final(heap)@.to_multiset() == old(heap)@.to_multiset(),
        ordered(final(heap)@),
{
    let mut i: usize = start;
    while i > 0 && sooner(heap[i], heap[(i - 1) / 2])
        invariant
            i < heap.len(),
            heap.len() == old(heap).len(),
            heap@.to_multiset() == old(heap)@.to_multiset(),
            ordered_above(heap@, i as int),
            bridged(heap@, i as int),
        decreases i,
    {
        let p = (i - 1) / 2;
        proof {
            lemma_step_up(heap@, i as int);
        }
        exchange(heap, i, p);
        i = p;
    }
    proof {
        let s = heap@;
        assert forall|j: int| 0 < j < s.len() && parent(j) != -1 implies no_later(
            s[parent(j)],
            #[trigger] s[j],
        ) by {
            if j != i {
                assert(no_later(s[parent(j)], s[j]));
            }
        }
    }
}

/// Restores the order of a heap in which only the first entry may come later
/// than the entries below it.
fn sift_down(heap: &mut Vec<Node>)
    requires
        ordered_but(old(heap)@, 0),
    ensures
        final(heap).len() == old(heap).len(),
        final(heap)@.to_multiset() == old(heap)@.to_multiset(),
        ordered(final(heap)@),
{
    let n = heap.len();
    let mut i: usize = 0;
    loop
        invariant
            n == heap.len(),
            n == old(heap).len(),
            i <= n,
            heap@.to_multiset() == old(heap)@.to_multiset(),
            ordered_but(heap@, i as int),
            bridged(heap@, i as int),
        ensures
            n == heap.len(),
            heap@.to_multiset() == old(heap)@.to_multiset(),
            ordered(heap@),
        decreases n - i,
    {
        if n < 2 || i >= n / 2 {
            proof {
                let s = heap@;
                assert forall|j: int| 0 < j < s.len() && parent(j) != -1 implies no_later(
                    s[parent(j)],
                    #[trigger] s[j],
                ) by {
                    assert(parent(j) != i);
                }
            }
            break ;
        }
        let left = 2 * i + 1;
        let right = left + 1;
        let mut child = left;
        if right < n && sooner(heap[right], heap[left]) {
            child = right;
        }
        proof {
            let s = heap@;
            assert forall|j: int| 0 < j < s.len() && parent(j) == i implies no_later(
                s[child as int],
                #[trigger] s[j],
            ) by {
                assert(j == left || j == right);
            }
        }
        if !sooner(heap[child], heap[i]) {
            proof {
                let s = heap@;
                assert forall|j: int| 0 < j < s.len() && parent(j) != -1 implies no_later(
                    s[parent(j)],
                    #[trigger] s[j],
                ) by {
                    if parent(j) == i {
                        assert(no_later(s[child as int], s[j]));
                    }
                }
            }
            break ;
        }
        proof {
            lemma_step_down(heap@, i as int, child as int);
        }
        exchange(heap, i, child);
        i = child;
    }
}

/// The first entry of an ordered heap is one of its entries, and none comes
/// sooner.
proof fn lemma_least(s: Seq<Node>)
    requires
        ordered(s),
        s.len() > 0,
    ensures
        s.to_multiset().contains(s[0]),
        forall|other: Node| #[trigger] s.to_multiset().contains(other) ==> no_later(s[0], other),
{
    s.to_multiset_ensures();
    assert(s.contains(s[0]));
    assert forall|other: Node| #[trigger] s.to_multiset().contains(other) implies no_later(
        s[0],
        other,
    ) by {
        assert(s.contains(other));
        let j = choose|j: int| 0 <= j < s.len() && s[j] == other;
        lemma_first_is_least(s, j);
    }
}

/// The vertices that await processing, each with a tentative distance. The
/// entry taken out is always the nearest, and among the nearest the one of
/// the least vertex.
pub struct Frontier {
    heap: Vec<Node>,
}

impl Frontier {
    /// The entries of the frontier, each as often as it was put in and not
    /// yet taken out.
    pub closed spec fn view(&self) -> Multiset<Node> {
        self.heap@.to_multiset()
    }

    /// The heap is ordered.
    pub closed spec fn wf(&self) -> bool {
        ordered(self.heap@)
    }

    /// The number of entries.
    pub closed spec fn spec_len(&self) -> nat {
        self.heap@.len()
    }

    /// The number of entries is the size of the multiset of entries.
    pub proof fn lemma_len(&self)
        ensures
            self.spec_len() == self@.len(),
    {
        self.heap@.to_multiset_ensures();
    }

    /// An empty frontier.
    pub fn new() -> (f: Frontier)
        ensures
            f.wf(),
            f@ == Multiset::<Node>::empty(),
            f.spec_len() == 0,
    {
        let f = Frontier { heap: Vec::new() };
        proof {
            f.heap@.to_multiset_ensures();
            assert(f@.len() == 0);
            assert(f@ =~= Multiset::<Node>::empty());
        }
        f
    }

    /// Puts `node` into the frontier.
    pub fn push(&mut self, node: Node)
        requires
            old(self).wf(),
        ensures
            final(self).wf(),
            final(self)@ == old(self)@.insert(node),
            final(self).spec_len() == old(self).spec_len() + 1,
    {
        proof {
            to_multiset_build(self.heap@, node);
        }
        self.heap.push(node);
        let last = self.heap.len() - 1;
        proof {
            let s = self.heap@;
            let before = old(self).heap@;
            assert forall|j: int| 0 < j < s.len() && j != last implies no_later(
                s[parent(j)],
                #[trigger] s[j],
            ) by {
                assert(no_later(before[parent(j)], before[j]));
            }
        }
        sift_up(&mut self.heap, last);
    }

    /// Takes the entry that comes soonest out of the frontier, if there is
    /// any entry.
    pub fn pop(&mut self) -> (r: Option<Node>)
        requires
            old(self).wf(),
        ensures
            final(self).wf(),
            match r {
                Some(node) => {
                    &&& old(self)@.contains(node)
                    &&& final(self)@ == old(self)@.remove(node)
                    &&& final(self).spec_len() + 1 == old(self).spec_len()
                    &&& forall|other: Node| #[trigger]
                        old(self)@.contains(other) ==> no_later(node, other)
                },
                None => {
                    &&& old(self).spec_len() == 0
                    &&& final(self)@ == old(self)@
                    &&& final(self).spec_len() == 0
                },
            },
    {
        let len = self.heap.len();
        if len == 0 {
            return None;
        }
        let ghost start = self.heap@;
        let least = self.heap[0];
        proof {
            lemma_least(start);
        }
        exchange(&mut self.heap, 0, len - 1);
        let ghost turned = self.heap@;
        self.heap.pop();
        proof {
            to_multiset_remove(turned, len - 1);
            assert(turned.remove(len - 1) =~= turned.drop_last());
            let s = self.heap@;
            assert forall|j: int| 0 < j < s.len() && parent(j) != 0 implies no_later(
                s[parent(j)],
                #[trigger] s[j],
            ) by {
                assert(no_later(start[parent(j)], start[j]));
            }
        }
        sift_down(&mut self.heap);
        Some(least)
    }

    /// The number of entries.
    pub fn len(&self) -> (n: usize)
        ensures
            n == self.spec_len(),
    {
        self.heap.len()
    }

    /// Whether the frontier has no entry.
    pub fn is_empty(&self) -> (empty: bool)
        ensures
            empty == (self.spec_len() == 0),
    {
        self.heap.len() == 0
    }
}

} // verus!
