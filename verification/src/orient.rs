//! Consistent orientation of a mesh: every two triangles with a common side
//! run through that side in opposite directions.

use crate::mesh::Mesh;
use crate::simplex::{
    lemma_induced_is_side, lemma_sorted, lemma_swap_reverses_induced, Edge, Orientation, Triangle,
};
use crate::spread::{
    count_true, flip_of, flips_of, forced, keeps_parity, lemma_conflict_not_orientable,
    lemma_count_true, lemma_drained, lemma_finish_active, lemma_flips, lemma_flips_same_complex,
    lemma_forces, lemma_keeps_parity, lemma_none_paired, lemma_pop_keeps_settled,
        lemma_same_adjacent, lemma_start,
    lemma_visit_keeps_forced, lemma_visit_keeps_reach, lemma_visit_keeps_settled,
    lemma_visited_is_reachable, paired, settled, visited_reachable,
};
use std::collections::VecDeque;
use vstd::prelude::*;

verus! {

/// The two triangles run through the edge `e` in opposite directions.
#[verifier::opaque]
pub open spec fn opposed(a: Triangle, b: Triangle, e: Edge) -> bool {
    a.induced(e) == b.induced(e).reversed()
}

/// Two triangles with the same vertex set and the same parity induce the
/// same orientation on each side, two of different parity the opposite one.
pub proof fn lemma_parity_decides(a: Triangle, b: Triangle, e: Edge)
    requires
        a.wf(),
        b.wf(),
        e.wf(),
        a.same_simplex(b),
        a.has_face(e),
    ensures
        a.is_even() == b.is_even() ==> a.induced(e) == b.induced(e),
        a.is_even() != b.is_even() ==> opposed(a, b, e),
        a.is_even() == b.is_even() ==> !opposed(a, b, e),
        a.induced(e) != a.induced(e).reversed(),
{
    reveal(opposed);
}

/// Two triangles with two different sides in common have the same vertex
/// set.
pub proof fn lemma_two_sides_same_simplex(a: Triangle, b: Triangle, e1: Edge, e2: Edge)
    requires
        a.wf(),
        b.wf(),
        e1.wf(),
        e2.wf(),
        !e1.same_simplex(e2),
        a.has_face(e1),
        a.has_face(e2),
        b.has_face(e1),
        b.has_face(e2),
    ensures
        a.same_simplex(b),
{
}

/// Two triangles with the same vertex set that are opposed on one side are
/// opposed on every side.
pub proof fn lemma_opposed_on_all_sides(a: Triangle, b: Triangle, e1: Edge, e2: Edge)
    requires
        a.wf(),
        b.wf(),
        e1.wf(),
        e2.wf(),
        a.same_simplex(b),
        a.has_face(e1),
        a.has_face(e2),
        opposed(a, b, e1),
    ensures
        opposed(a, b, e2),
{
    lemma_parity_decides(a, b, e1);
    lemma_parity_decides(a, b, e2);
}

/// What being opposed means for the tuples that the two triangles induce.
pub proof fn lemma_opposed(a: Triangle, b: Triangle, e: Edge)
    ensures
        opposed(a, b, e) <==> a.induced(e) == b.induced(e).reversed(),
{
    reveal(opposed);
}

/// Where two triangles are opposed on a common side, and two other tuples
/// of the same triangles are opposed on it too, the first has kept its
/// parity exactly if the second has.
pub proof fn lemma_opposed_forces(a: Triangle, b: Triangle, a2: Triangle, b2: Triangle, e: Edge)
    requires
        a.wf(),
        b.wf(),
        a2.wf(),
        b2.wf(),
        e.wf(),
        a.same_simplex(a2),
        b.same_simplex(b2),
        a.has_face(e),
        b.has_face(e),
        opposed(a, b, e),
        opposed(a2, b2, e),
    ensures
        (a.is_even() == a2.is_even()) == (b.is_even() == b2.is_even()),
{
    reveal(opposed);
    lemma_parity_decides(a, a2, e);
    lemma_parity_decides(b, b2, e);
}

/// Why a mesh cannot be given a consistent orientation.
#[derive(Debug, Clone, Copy, PartialEq, Eq, Structural)]
pub enum OrientationError {
    /// This triangle would have to run both ways to be opposed to all its
    /// neighbours.
    Conflict { triangle: usize },
    /// This triangle cannot be reached from the first one by stepping from
    /// triangle to triangle across common sides.
    Unreachable { triangle: usize },
}

impl Mesh {
    /// Both meshes are made of the same simplices, whatever their
    /// orientations.
    pub open spec fn same_complex(&self, other: &Mesh) -> bool {
        &&& self.vertex_count == other.vertex_count
        &&& self.edges@.len() == other.edges@.len()
        &&& self.triangles@.len() == other.triangles@.len()
        &&& forall|k: int|
            0 <= k < self.edges@.len() ==> (#[trigger] self.edges@[k]).same_simplex(other.edges@[k])
        &&& forall|j: int|
            0 <= j < self.triangles@.len() ==> (#[trigger] self.triangles@[j]).same_simplex(
                other.triangles@[j],
            )
    }

    /// The tuples `o` are the triangles of the mesh, each in one of its
    /// orientations, such that any two with a common side are opposed on
    /// it.
    pub open spec fn oriented_by(&self, o: Seq<Triangle>) -> bool {
        &&& o.len() == self.triangles@.len()
        &&& forall|j: int|
            0 <= j < o.len() ==> (#[trigger] o[j]).wf() && o[j].same_simplex(self.triangles@[j])
        &&& forall|t: int, u: int, k: int|
            0 <= t < o.len() && 0 <= u < o.len() && t != u && 0 <= k < self.edges@.len()
                && #[trigger] self.shares(t, u, k) ==> opposed(o[t], o[u], self.edges@[k])
    }

    /// Any two triangles with a common side induce opposite orientations on
    /// it.
    pub open spec fn consistently_oriented(&self) -> bool {
        forall|t: int, u: int, k: int|
            0 <= t < self.triangles@.len() && 0 <= u < self.triangles@.len() && t != u && 0 <= k
                < self.edges@.len() && #[trigger] self.shares(t, u, k) ==> opposed(
                self.triangles@[t],
                self.triangles@[u],
                self.edges@[k],
            )
    }

    /// The triangles of the mesh can be oriented consistently.
    pub open spec fn orientable(&self) -> bool {
        exists|o: Seq<Triangle>| #[trigger] self.oriented_by(o)
    }

    /// The tuples `o` are the triangles of the mesh, each in one of its
    /// orientations, such that every triangle that can be reached from the
    /// first one is opposed to its neighbours.
    pub open spec fn oriented_in_reach_by(&self, o: Seq<Triangle>) -> bool {
        &&& o.len() == self.triangles@.len()
        &&& forall|j: int|
            0 <= j < o.len() ==> (#[trigger] o[j]).wf() && o[j].same_simplex(self.triangles@[j])
        &&& forall|t: int, u: int, k: int|
            0 <= t < o.len() && 0 <= u < o.len() && t != u && 0 <= k < self.edges@.len()
                && self.reachable(t) && #[trigger] self.shares(t, u, k) ==> opposed(
                o[t],
                o[u],
                self.edges@[k],
            )
    }

    /// The triangles that can be reached from the first one can be oriented
    /// consistently.
    pub open spec fn orientable_in_reach(&self) -> bool {
        exists|o: Seq<Triangle>| #[trigger] self.oriented_in_reach_by(o)
    }

    /// A walk from the first triangle that steps from each triangle to one
    /// with which it has a side in common.
    pub open spec fn is_walk(&self, walk: Seq<int>) -> bool {
        &&& walk.len() > 0
        &&& walk[0] == 0
        &&& forall|i: int| 0 <= i < walk.len() ==> 0 <= #[trigger] walk[i] < self.triangles@.len()
        &&& forall|i: int| 1 <= i < walk.len() ==> self.adjacent(walk[i - 1], #[trigger] walk[i])
    }

    /// Some walk from the first triangle ends at triangle `t`.
    pub open spec fn reachable(&self, t: int) -> bool {
        exists|walk: Seq<int>| #[trigger] self.is_walk(walk) && walk.last() == t
    }

    /// Every triangle can be reached from the first one.
    pub open spec fn connected(&self) -> bool {
        forall|t: int| 0 <= t < self.triangles@.len() ==> #[trigger] self.reachable(t)
    }
}

/// Meshes of the same simplices have the same sides and the same
/// neighbours, and one is a mesh if the other is.
pub proof fn lemma_same_complex(a: &Mesh, b: &Mesh)
    requires
        a.same_complex(b),
        a.wf(),
    ensures
        b.wf(),
        b.same_complex(a),
        forall|k: int, t: int|
            0 <= k < a.edges@.len() && 0 <= t < a.triangles@.len() ==> (#[trigger] a.is_side(k, t)
                <==> b.is_side(k, t)),
        forall|k: int, t: int|
            0 <= k < a.edges@.len() && 0 <= t < a.triangles@.len() ==> (a.is_side(k, t)
                <==> #[trigger] b.is_side(k, t)),
        forall|t: int, u: int, k: int|
            0 <= k < a.edges@.len() && 0 <= t < a.triangles@.len() && 0 <= u < a.triangles@.len()
                ==> (#[trigger] a.shares(t, u, k) <==> b.shares(t, u, k)),
        forall|t: int, u: int, k: int|
            0 <= k < a.edges@.len() && 0 <= t < a.triangles@.len() && 0 <= u < a.triangles@.len()
                ==> (a.shares(t, u, k) <==> #[trigger] b.shares(t, u, k)),
{
    assert forall|k: int| 0 <= k < b.edges@.len() implies b.edge_ok(#[trigger] b.edges@[k]) by {
        assert(a.edge_ok(a.edges@[k]));
        assert(a.edges@[k].same_simplex(b.edges@[k]));
    }
    assert forall|j: int| 0 <= j < b.triangles@.len() implies b.triangle_ok(
        #[trigger] b.triangles@[j],
    ) by {
        assert(a.triangle_ok(a.triangles@[j]));
        assert(a.triangles@[j].same_simplex(b.triangles@[j]));
    }
    assert forall|k1: int, k2: int| 0 <= k1 < k2 < b.edges@.len() implies !(
    #[trigger] b.edges@[k1]).same_simplex(#[trigger] b.edges@[k2]) by {
        assert(a.edges@[k1].same_simplex(b.edges@[k1]));
        assert(a.edges@[k2].same_simplex(b.edges@[k2]));
        assert(!a.edges@[k1].same_simplex(a.edges@[k2]));
        assert(a.edge_ok(a.edges@[k1]));
        assert(a.edge_ok(a.edges@[k2]));
    }
    assert forall|j: int| 0 <= j < b.triangles@.len() implies crate::mesh::holds_sides(
        b.edges@,
        #[trigger] b.triangles@[j],
    ) by {
        let ta = a.triangles@[j];
        let tb = b.triangles@[j];
        assert(a.triangle_ok(ta));
        assert(ta.same_simplex(tb));
        assert(crate::mesh::holds_sides(a.edges@, ta));
        lemma_same_edge_held(a, b, j, tb.0, tb.1);
        lemma_same_edge_held(a, b, j, tb.1, tb.2);
        lemma_same_edge_held(a, b, j, tb.0, tb.2);
    }
    assert forall|k: int, t: int|
        0 <= k < a.edges@.len() && 0 <= t < a.triangles@.len() implies (a.is_side(k, t)
        <==> b.is_side(k, t)) by {
        assert(a.edges@[k].same_simplex(b.edges@[k]));
        assert(a.triangles@[t].same_simplex(b.triangles@[t]));
        assert(a.edge_ok(a.edges@[k]));
        assert(a.triangle_ok(a.triangles@[t]));
    }
    assert forall|j: int| 0 <= j < b.triangles@.len()
        implies (#[trigger] b.triangles@[j]).same_simplex(
        a.triangles@[j],
    ) by {
        assert(a.triangles@[j].same_simplex(b.triangles@[j]));
    }
    assert forall|k: int| 0 <= k < b.edges@.len() implies (#[trigger] b.edges@[k]).same_simplex(
        a.edges@[k],
    ) by {
        assert(a.edges@[k].same_simplex(b.edges@[k]));
    }
}

/// An edge between two corners of a triangle is held by every mesh of the
/// same simplices.
proof fn lemma_same_edge_held(a: &Mesh, b: &Mesh, j: int, x: usize, y: usize)
    requires
        a.same_complex(b),
        a.wf(),
        0 <= j < a.triangles@.len(),
        x != y,
        a.triangles@[j].has_vertex(x),
        a.triangles@[j].has_vertex(y),
    ensures
        crate::mesh::holds_edge(b.edges@, x, y),
{
    crate::mesh::lemma_one_edge_per_side(a, j, x, y);
    let k = choose|k: int| 0 <= k < a.edges@.len() && #[trigger] a.edges@[k].spans(x, y);
    assert(a.edges@[k].same_simplex(b.edges@[k]));
    assert(b.edges@[k].spans(x, y));
}

impl Mesh {
    /// Stores every edge with its endpoints ascending and every triangle
    /// with its corners ascending.
    fn normalize(&mut self)
        requires
            old(self).wf(),
        ensures
            final(self).wf(),
            old(self).same_complex(final(self)),
            forall|k: int|
                0 <= k < final(self).edges@.len() ==> #[trigger] final(self).edges@[k]
                    == old(self).edges@[k].ascending(),
            forall|j: int|
                0 <= j < final(self).triangles@.len() ==> #[trigger] final(self).triangles@[j]
                    == old(self).triangles@[j].sorted(),
    {
        let mut k: usize = 0;
        while k < self.edges.len()
            invariant
                self.vertex_count == old(self).vertex_count,
                self.triangles@ == old(self).triangles@,
                self.edges@.len() == old(self).edges@.len(),
                k <= self.edges@.len(),
                forall|i: int| 0 <= i < k ==> #[trigger] self.edges@[i]
                    == old(self).edges@[i].ascending(),
                forall|i: int|
                    k <= i < self.edges@.len() ==> #[trigger] self.edges@[i] == old(self).edges@[i],
            decreases self.edges@.len() - k,
        {
            let e: Edge = self.edges[k];
            if e.0 > e.1 {
                self.edges.set(k, Edge(e.1, e.0));
            }
            k += 1;
        }
        let mut j: usize = 0;
        while j < self.triangles.len()
            invariant
                self.vertex_count == old(self).vertex_count,
                self.triangles@.len() == old(self).triangles@.len(),
                self.edges@.len() == old(self).edges@.len(),
                forall|i: int|
                    0 <= i < self.edges@.len() ==> #[trigger] self.edges@[i]
                        == old(self).edges@[i].ascending(),
                j <= self.triangles@.len(),
                forall|i: int|
                    0 <= i < j ==> #[trigger] self.triangles@[i]
                        == old(self).triangles@[i].sorted(),
                forall|i: int|
                    j <= i < self.triangles@.len() ==> #[trigger] self.triangles@[i]
                        == old(self).triangles@[i],
            decreases self.triangles@.len() - j,
        {
            let mut t: Triangle = self.triangles[j];
            t.orient(Orientation::CCW);
            self.triangles.set(j, t);
            j += 1;
        }
        proof {
            assert forall|i: int| 0 <= i < self.triangles@.len()
                implies (#[trigger] old(self).triangles@[i]).same_simplex(self.triangles@[i]) by {
                lemma_sorted(old(self).triangles@[i]);
            }
            assert forall|i: int| 0 <= i < self.edges@.len()
                implies (#[trigger] old(self).edges@[i]).same_simplex(self.edges@[i]) by {
                assert(self.edges@[i] == old(self).edges@[i].ascending());
            }
            lemma_same_complex(old(self), self);
        }
    }

    /// Makes triangle `u` opposed to its neighbour `t` on their common
    /// sides, by exchanging the last two corners of `u` if it is not. A
    /// triangle that is `frozen` is not changed: if it is not opposed to `t`
    /// the answer is `false`.
    fn settle(&mut self, t: usize, u: usize, sides: &[usize; 3], frozen: bool) -> (ok: bool)
        requires
            old(self).wf(),
            t < old(self).triangles@.len(),
            u < old(self).triangles@.len(),
            t != u,
            sides[0] < sides[1] < sides[2] < old(self).edges@.len(),
            forall|k: int|
                0 <= k < old(self).edges@.len() ==> (#[trigger] old(self).is_side(k,
                    t as int) <==> (
                k == sides[0] || k == sides[1] || k == sides[2])),
        ensures
            final(self).wf(),
            final(self).vertex_count == old(self).vertex_count,
            final(self).edges@ == old(self).edges@,
            final(self).triangles@.len() == old(self).triangles@.len(),
            forall|j: int|
                0 <= j < final(self).triangles@.len() && j != u
                    ==> #[trigger] final(self).triangles@[j] == old(self).triangles@[j],
            final(self).triangles@[u as int] == old(self).triangles@[u as int] || (!frozen
                && final(self).triangles@[u as int] == old(self).triangles@[u as int].flipped()),
            ok ==> forall|k: int|
                0 <= k < final(self).edges@.len() && #[trigger] final(self).shares(
                    t as int,
                    u as int,
                    k,
                ) ==> opposed(
                    final(self).triangles@[t as int],
                    final(self).triangles@[u as int],
                    final(self).edges@[k],
                ),
            !ok ==> frozen && final(self).triangles@ == old(self).triangles@ && exists|k: int|
                0 <= k < old(self).edges@.len() && #[trigger] old(self).shares(t as int, u as int,
                    k)
                    && !opposed(
                    old(self).triangles@[t as int],
                    old(self).triangles@[u as int],
                    old(self).edges@[k],
                ),
    {
        let first: Triangle = self.triangles[t];
        let mut i: usize = 0;
        while i < 3
            invariant
                i <= 3,
                self.wf(),
                old(self).wf(),
                t < old(self).triangles@.len(),
                u < old(self).triangles@.len(),
                t != u,
                first == self.triangles@[t as int],
                sides[0] < sides[1] < sides[2] < old(self).edges@.len(),
                forall|k: int|
                    0 <= k < old(self).edges@.len() ==> (#[trigger] old(self).is_side(k, t as int)
                        <==> (k == sides[0] || k == sides[1] || k == sides[2])),
                self.vertex_count == old(self).vertex_count,
                self.edges@ == old(self).edges@,
                self.triangles@.len() == old(self).triangles@.len(),
                forall|j: int|
                    0 <= j < self.triangles@.len() && j != u ==> #[trigger] self.triangles@[j]
                        == old(self).triangles@[j],
                self.triangles@[u as int] == old(self).triangles@[u as int] || (!frozen
                    && self.triangles@[u as int] == old(self).triangles@[u as int].flipped()),
                forall|a: int|
                    0 <= a < i
                        && self.triangles@[u as int].has_face(self.edges@[#[trigger] sides[a] as int])
                        ==> opposed(first, self.triangles@[u as int], self.edges@[sides[a] as int]),
            decreases 3 - i,
        {
            let k: usize = sides[i];
            let e: Edge = self.edges[k];
            let other: Triangle = self.triangles[u];
            if other.is_face(&e) {
                let mut mine: Edge = e;
                mine.induce_orientation(&first);
                let mut theirs: Edge = e;
                theirs.induce_orientation(&other);
                proof {
                    assert(self.edge_ok(e));
                    assert(self.triangle_ok(first));
                    assert(self.triangle_ok(other));
                    assert(old(self).is_side(k as int, t as int));
                    assert(first.has_face(e));
                    lemma_induced_is_side(first, e);
                    lemma_induced_is_side(other, e);
                    lemma_opposed(first, other, e);
                }
                if mine.0 == theirs.0 && mine.1 == theirs.1 {
                    if frozen {
                        proof {
                            assert(self.triangles@ =~= old(self).triangles@);
                            assert(old(self).shares(t as int, u as int, k as int));
                        }
                        return false;
                    }
                    proof {
                        assert forall|a: int| 0 <= a < i implies !other.has_face(
                            self.edges@[#[trigger] sides[a] as int],
                        ) by {
                            let e2 = self.edges@[sides[a] as int];
                            if other.has_face(e2) {
                                assert(self.edge_ok(e2));
                                assert(old(self).is_side(sides[a] as int, t as int));
                                assert(!self.edges@[sides[a] as int].same_simplex(
                                    self.edges@[k as int],
                                ));
                                lemma_two_sides_same_simplex(first, other, e2, e);
                                lemma_opposed_on_all_sides(first, other, e2, e);
                            }
                        }
                        lemma_swap_reverses_induced(other, e);
                        lemma_opposed(first, other.flipped(), e);
                    }
                    self.triangles.set(u, Triangle(other.0, other.2, other.1));
                    proof {
                        assert(old(self).same_complex(self)) by {
                            assert forall|j: int| 0 <= j < self.triangles@.len() implies (
                            #[trigger] old(self).triangles@[j]).same_simplex(
                                self.triangles@[j],
                            ) by {
                                assert(old(self).triangle_ok(old(self).triangles@[j]));
                            }
                            assert forall|j: int| 0 <= j < self.edges@.len() implies (
                            #[trigger] old(self).edges@[j]).same_simplex(self.edges@[j]) by {
                                assert(old(self).edge_ok(old(self).edges@[j]));
                            }
                        }
                        lemma_same_complex(old(self), self);
                    }
                }
            }
            i += 1;
        }
        proof {
            assert forall|k: int|
                0 <= k < self.edges@.len() && #[trigger] self.shares(
                    t as int,
                    u as int,
                    k,
                ) implies opposed(
                self.triangles@[t as int],
                self.triangles@[u as int],
                self.edges@[k],
            ) by {
                assert(self.triangles@[t as int] == old(self).triangles@[t as int]);
                assert(old(self).is_side(k, t as int));
                if k == sides[0] {
                    assert(sides[0] as int == k);
                } else if k == sides[1] {
                    assert(sides[1] as int == k);
                } else {
                    assert(sides[2] as int == k);
                }
            }
        }
        true
    }
}

/// The first triangle that has not been visited, if there is one.
fn first_unvisited(visited: &Vec<bool>) -> (r: Option<usize>)
    ensures
        match r {
            Some(j) => j < visited@.len() && !visited@[j as int] && forall|i: int|
                0 <= i < j ==> visited@[i],
            None => forall|i: int| 0 <= i < visited@.len() ==> visited@[i],
        },
{
    let mut j: usize = 0;
    while j < visited.len()
        invariant
            j <= visited@.len(),
            forall|i: int| 0 <= i < j ==> visited@[i],
        decreases visited@.len() - j,
    {
        if !visited[j] {
            return Some(j);
        }
        j += 1;
    }
    None
}

impl Mesh {
    /// Carries the orientation of the first triangle across common sides to
    /// every triangle that can be reached from it, breadth first.
    fn propagate(&mut self) -> (r: Result<(), OrientationError>)
        requires
            old(self).wf(),
            old(self).triangles@.len() > 0,
        ensures
            final(self).wf(),
            final(self).vertex_count == old(self).vertex_count,
            final(self).edges@ == old(self).edges@,
            final(self).triangles@.len() == old(self).triangles@.len(),
            final(self).triangles@[0] == old(self).triangles@[0],
            forall|j: int|
                0 <= j < final(self).triangles@.len() ==> flip_of(
                    old(self).triangles@[j],
                    #[trigger] final(self).triangles@[j],
                ),
            match r {
                Ok(()) => old(self).connected() && final(self).consistently_oriented(),
                Err(OrientationError::Conflict { triangle }) => {
                    &&& triangle < old(self).triangles@.len()
                    &&& old(self).reachable(triangle as int)
                    &&& !old(self).orientable_in_reach()
                },
                Err(OrientationError::Unreachable { triangle }) => {
                    &&& triangle < old(self).triangles@.len()
                    &&& !old(self).reachable(triangle as int)
                    &&& forall|j: int| 0 <= j < triangle ==> old(self).reachable(j)
                    &&& old(self).orientable_in_reach()
                },
            },
    {
        let n: usize = self.triangles.len();
        let mut visited: Vec<bool> = Vec::new();
        let mut j: usize = 0;
        while j < n
            invariant
                j <= n,
                visited@.len() == j,
                forall|i: int| 0 <= i < j ==> !visited@[i],
                count_true(visited@) == 0,
            decreases n - j,
        {
            let ghost before = visited@;
            visited.push(false);
            proof {
                assert(visited@.drop_last() =~= before);
            }
            j += 1;
        }
        proof {
            lemma_count_true(visited@, 0);
        }
        visited.set(0, true);
        let mut queue: VecDeque<usize> = VecDeque::new();
        queue.push_back(0);
        proof {
            lemma_start(old(self), visited@, queue@);
        }
        while queue.len() > 0
            invariant
                old(self).wf(),
                self.wf(),
                n == old(self).triangles@.len(),
                n > 0,
                self.vertex_count == old(self).vertex_count,
                self.edges@ == old(self).edges@,
                self.triangles@.len() == n,
                visited@.len() == n,
                visited@[0],
                self.triangles@[0] == old(self).triangles@[0],
                flips_of(old(self).triangles@, self.triangles@, visited@),
                settled(old(self), self.triangles@, visited@, queue@, -1),
                forced(old(self), self.triangles@, visited@),
                visited_reachable(old(self), visited@),
                forall|i: int|
                    0 <= i < queue@.len() ==> (#[trigger] queue@[i]) < n
                        && visited@[queue@[i] as int],
                count_true(visited@) <= n,
            decreases 2 * (n - count_true(visited@)) + queue@.len(),
        {
            let ghost queue0 = queue@;
            let ghost measure = 2 * (n - count_true(visited@)) + queue@.len();
            let t: usize = queue.pop_front().unwrap();
            proof {
                assert(t == queue0[0]);
                lemma_pop_keeps_settled(old(self), self.triangles@, visited@, queue0);
                assert forall|i: int| 0 <= i < queue@.len() implies (#[trigger] queue@[i]) < n
                    && visited@[queue@[i] as int] by {
                    assert(queue@[i] == queue0[i + 1]);
                }
            }
            let sides: [usize; 3] = self.edges_of(t);
            let nbrs: Vec<usize> = self.neighbors(t);
            proof {
                lemma_flips_same_complex(old(self), self, visited@);
                lemma_same_complex(old(self), self);
                assert forall|b: int| 0 <= b < nbrs@.len() implies old(self).adjacent(
                    t as int,
                    #[trigger] nbrs@[b] as int,
                ) by {
                    lemma_same_adjacent(old(self), self, t as int, nbrs@[b] as int);
                }
                assert forall|u: int|
                    0 <= u < n && #[trigger] old(self).adjacent(t as int, u) implies exists|b: int|
                    0 <= b < nbrs@.len() && #[trigger] nbrs@[b] as int == u by {
                    lemma_same_adjacent(old(self), self, t as int, u);
                    assert(self.adjacent(t as int, u));
                    assert(nbrs@.contains(u as usize));
                    let b = choose|b: int| 0 <= b < nbrs@.len() && nbrs@[b] == u as usize;
                    assert(nbrs@[b] as int == u);
                }
                assert forall|k: int| 0 <= k < old(self).edges@.len()
                    implies (#[trigger] old(self).is_side(k, t as int) <==> (k == sides[0] || k
                    == sides[1] || k == sides[2])) by {
                    assert(old(self).is_side(k, t as int) <==> self.is_side(k, t as int));
                }
            }
            proof {
                lemma_none_paired(old(self), self.triangles@, visited@, t as int, nbrs@);
            }
            let mut a: usize = 0;
            while a < nbrs.len()
                invariant
                    old(self).wf(),
                    self.wf(),
                    n == old(self).triangles@.len(),
                    n > 0,
                    t < n,
                    self.vertex_count == old(self).vertex_count,
                    self.edges@ == old(self).edges@,
                    self.triangles@.len() == n,
                    visited@.len() == n,
                    visited@[0],
                    visited@[t as int],
                    self.triangles@[0] == old(self).triangles@[0],
                    flips_of(old(self).triangles@, self.triangles@, visited@),
                    settled(old(self), self.triangles@, visited@, queue@, t as int),
                    paired(old(self), self.triangles@, visited@, t as int, nbrs@, a as int),
                    forced(old(self), self.triangles@, visited@),
                    visited_reachable(old(self), visited@),
                    forall|i: int|
                        0 <= i < queue@.len() ==> (#[trigger] queue@[i]) < n
                            && visited@[queue@[i] as int],
                    count_true(visited@) <= n,
                    2 * (n - count_true(visited@)) + queue@.len() < measure,
                    a <= nbrs@.len(),
                    forall|i: int, j: int| 0 <= i < j < nbrs@.len() ==> nbrs@[i] < nbrs@[j],
                    forall|b: int| 0 <= b < nbrs@.len() ==> (#[trigger] nbrs@[b]) < n,
                    forall|b: int|
                        0 <= b < nbrs@.len() ==> old(self).adjacent(
                            t as int,
                            #[trigger] nbrs@[b] as int,
                        ),
                    sides[0] < sides[1] < sides[2] < old(self).edges@.len(),
                    forall|k: int|
                        0 <= k < old(self).edges@.len() ==> (#[trigger] old(self).is_side(
                            k,
                            t as int,
                        ) <==> (k == sides[0] || k == sides[1] || k == sides[2])),
                decreases nbrs@.len() - a,
            {
                let u: usize = nbrs[a];
                let frozen: bool = visited[u];
                let ghost cur = self.triangles@;
                let ghost seen = visited@;
                let ghost waiting = queue@;
                let ghost pre = *self;
                proof {
                    assert(old(self).adjacent(t as int, nbrs@[a as int] as int));
                    lemma_flips_same_complex(old(self), &pre, seen);
                    lemma_same_complex(old(self), &pre);
                    assert forall|k: int| 0 <= k < pre.edges@.len() implies (#[trigger] pre.is_side(
                        k,
                        t as int,
                    ) <==> (k == sides[0] || k == sides[1] || k == sides[2])) by {
                        assert(old(self).is_side(k, t as int) <==> pre.is_side(k, t as int));
                    }
                }
                let ok: bool = self.settle(t, u, &sides, frozen);
                if !ok {
                    proof {
                        let k = choose|k: int|
                            0 <= k < pre.edges@.len() && #[trigger] pre.shares(
                                t as int,
                                u as int,
                                k,
                            ) && !opposed(cur[t as int], cur[u as int], pre.edges@[k]);
                        assert(old(self).shares(t as int, u as int, k));
                        lemma_conflict_not_orientable(
                            old(self),
                            cur,
                            seen,
                            t as int,
                            u as int,
                            k,
                        );
                        lemma_visited_is_reachable(old(self), seen, u as int);
                        lemma_flips(old(self).triangles@, cur, seen);
                    }
                    return Err(OrientationError::Conflict { triangle: u });
                }
                if !frozen {
                    proof {
                        lemma_count_true(visited@, u as int);
                    }
                    visited.set(u, true);
                    queue.push_back(u);
                }
                proof {
                    let cur2 = self.triangles@;
                    assert(visited@ =~= seen.update(u as int, true));
                    lemma_visit_keeps_reach(old(self), cur, cur2, seen, t as int, u as int);
                    lemma_flips_same_complex(old(self), self, visited@);
                    lemma_same_complex(old(self), self);
                    assert forall|k: int|
                        0 <= k < old(self).edges@.len() && #[trigger] old(self).shares(
                            t as int,
                            u as int,
                            k,
                        ) implies opposed(cur2[t as int], cur2[u as int], old(self).edges@[k]) by {
                        assert(self.shares(t as int, u as int, k));
                    }
                    lemma_visit_keeps_settled(
                        old(self),
                        cur,
                        cur2,
                        seen,
                        waiting,
                        queue@,
                        t as int,
                        nbrs@,
                        a as int,
                    );
                    lemma_visit_keeps_forced(old(self), cur, cur2, seen, t as int, u as int);
                    assert forall|i: int| 0 <= i < queue@.len() implies (#[trigger] queue@[i]) < n
                        && visited@[queue@[i] as int] by {
                        if i < waiting.len() {
                            assert(queue@[i] == waiting[i]);
                        }
                    }
                }
                a += 1;
            }
            proof {
                lemma_finish_active(
                    old(self),
                    self.triangles@,
                    visited@,
                    queue@,
                    t as int,
                    nbrs@,
                );
            }
        }
        proof {
            lemma_drained(old(self), self.triangles@, visited@, queue@);
            lemma_flips(old(self).triangles@, self.triangles@, visited@);
            lemma_flips_same_complex(old(self), self, visited@);
            lemma_same_complex(old(self), self);
        }
        if let Some(j) = first_unvisited(&visited) {
            proof {
                let o = self.triangles@;
                assert(!old(self).reachable(j as int));
                assert forall|i: int| 0 <= i < j implies old(self).reachable(i) by {
                    assert(visited@[i]);
                }
                assert(old(self).oriented_in_reach_by(o)) by {
                    assert forall|i: int| 0 <= i < o.len() implies (#[trigger] o[i]).wf()
                        && o[i].same_simplex(old(self).triangles@[i]) by {
                        assert(self.triangle_ok(self.triangles@[i]));
                        assert(self.triangles@[i].same_simplex(old(self).triangles@[i]));
                    }
                }
            }
            return Err(OrientationError::Unreachable { triangle: j });
        }
        proof {
            assert forall|t: int, u: int, k: int|
                0 <= t < self.triangles@.len() && 0 <= u < self.triangles@.len() && t != u && 0
                    <= k < self.edges@.len() && #[trigger] self.shares(t, u, k) implies opposed(
                self.triangles@[t],
                self.triangles@[u],
                self.edges@[k],
            ) by {
                assert(old(self).shares(t, u, k));
                assert(visited@[t]);
            }
        }
        Ok(())
    }
}

/// What is known of the edges while they are given their orientations, when
/// the triangles before `upto` have been gone through: `owner` says for each
/// edge which triangle was the first to have it as a side, or `-1` if none
/// had, and the edge has the orientation that its owner induces.
spec fn edges_claimed(
    base: &Mesh,
    edges: Seq<Edge>,
    oriented: Seq<bool>,
    owner: Seq<int>,
    upto: int,
) -> bool {
    &&& edges.len() == base.edges@.len()
    &&& oriented.len() == edges.len()
    &&& owner.len() == edges.len()
    &&& forall|k: int| 0 <= k < edges.len() ==> (#[trigger] oriented[k] <==> owner[k] >= 0)
    &&& forall|k: int| 0 <= k < edges.len() ==> -1 <= #[trigger] owner[k] < upto
    &&& forall|k: int|
        0 <= k < edges.len() && #[trigger] owner[k] >= 0 ==> base.is_first_with(k, owner[k])
            && edges[k] == base.triangles@[owner[k]].induced(base.edges@[k])
    &&& forall|k: int| 0 <= k < edges.len() && #[trigger] owner[k] < 0 ==> edges[k]
        == base.edges@[k]
}

impl Mesh {
    /// Triangle `t` is the first triangle of the mesh that has edge `k` as a
    /// side.
    pub open spec fn is_first_with(&self, k: int, t: int) -> bool {
        &&& 0 <= t < self.triangles@.len()
        &&& self.is_side(k, t)
        &&& forall|earlier: int| 0 <= earlier < t ==> !#[trigger] self.is_side(k, earlier)
    }

    /// No triangle of the mesh has edge `k` as a side.
    pub open spec fn is_loose(&self, k: int) -> bool {
        forall|t: int| 0 <= t < self.triangles@.len() ==> !#[trigger] self.is_side(k, t)
    }

    /// Gives every edge the orientation that the first triangle with that
    /// side induces on it. The triangles are gone through in their order,
    /// and an edge that has been given an orientation keeps it.
    fn orient_edges(&mut self)
        requires
            old(self).wf(),
        ensures
            final(self).wf(),
            old(self).same_complex(final(self)),
            final(self).triangles@ == old(self).triangles@,
            forall|k: int, t: int|
                0 <= k < old(self).edges@.len() && #[trigger] old(self).is_first_with(k, t)
                    ==> final(self).edges@[k] == old(self).triangles@[t].induced(
                    old(self).edges@[k],
                ),
            forall|k: int|
                0 <= k < old(self).edges@.len() && #[trigger] old(self).is_loose(k)
                    ==> final(self).edges@[k] == old(self).edges@[k],
    {
        let m: usize = self.edges.len();
        let n: usize = self.triangles.len();
        let mut oriented: Vec<bool> = Vec::new();
        let ghost mut owner: Seq<int> = Seq::empty();
        let mut k: usize = 0;
        while k < m
            invariant
                k <= m,
                oriented@.len() == k,
                owner.len() == k,
                forall|i: int| 0 <= i < k ==> !oriented@[i],
                forall|i: int| 0 <= i < k ==> owner[i] == -1,
            decreases m - k,
        {
            oriented.push(false);
            proof {
                owner = owner.push(-1);
            }
            k += 1;
        }
        let mut t: usize = 0;
        while t < n
            invariant
                old(self).wf(),
                self.wf(),
                old(self).same_complex(self),
                m == old(self).edges@.len(),
                n == old(self).triangles@.len(),
                self.triangles@ == old(self).triangles@,
                self.vertex_count == old(self).vertex_count,
                t <= n,
                edges_claimed(old(self), self.edges@, oriented@, owner, t as int),
                forall|k: int, before: int|
                    0 <= k < m && 0 <= before < t && owner[k] < 0 ==> !#[trigger] old(self).is_side(
                        k,
                        before,
                    ),
            decreases n - t,
        {
            let sides: [usize; 3] = self.edges_of(t);
            let tri: Triangle = self.triangles[t];
            proof {
                lemma_same_complex(old(self), self);
                assert forall|k: int| 0 <= k < m implies (#[trigger] old(self).is_side(k, t as int)
                    <==> (k == sides[0] || k == sides[1] || k == sides[2])) by {
                    assert(old(self).is_side(k, t as int) <==> self.is_side(k, t as int));
                }
            }
            let mut i: usize = 0;
            while i < 3
                invariant
                    old(self).wf(),
                    old(self).same_complex(self),
                    m == old(self).edges@.len(),
                    n == old(self).triangles@.len(),
                    self.triangles@ == old(self).triangles@,
                    self.vertex_count == old(self).vertex_count,
                    t < n,
                    tri == old(self).triangles@[t as int],
                    i <= 3,
                    sides[0] < sides[1] < sides[2] < m,
                    forall|k: int|
                        0 <= k < m ==> (#[trigger] old(self).is_side(k, t as int) <==> (k
                            == sides[0] || k == sides[1] || k == sides[2])),
                    edges_claimed(old(self), self.edges@, oriented@, owner, t as int + 1),
                    forall|a: int| 0 <= a < i ==> owner[#[trigger] sides[a] as int] >= 0,
                    forall|k: int, before: int|
                        0 <= k < m && 0 <= before < t && owner[k] < 0
                            ==> !#[trigger] old(self).is_side(k, before),
                decreases 3 - i,
            {
                let k: usize = sides[i];
                if !oriented[k] {
                    let mut e: Edge = self.edges[k];
                    e.induce_orientation(&tri);
                    let ghost edges0 = self.edges@;
                    self.edges.set(k, e);
                    oriented.set(k, true);
                    proof {
                        owner = owner.update(k as int, t as int);
                        assert(old(self).is_side(k as int, t as int));
                        assert(old(self).is_first_with(k as int, t as int));
                        assert(old(self).edge_ok(old(self).edges@[k as int]));
                        assert(old(self).triangle_ok(tri));
                        lemma_induced_is_side(tri, old(self).edges@[k as int]);
                        assert forall|j: int| 0 <= j < self.edges@.len()
                            implies (#[trigger] old(self).edges@[j]).same_simplex(self.edges@[j]) by {
                            if j != k {
                                assert(old(self).edges@[j].same_simplex(edges0[j]));
                            }
                        }
                    }
                }
                i += 1;
            }
            proof {
                lemma_same_complex(old(self), self);
                assert forall|k: int, before: int|
                    0 <= k < m && 0 <= before < t + 1 && owner[k] < 0
                        implies !#[trigger] old(self).is_side(k, before) by {
                    if before == t {
                        if old(self).is_side(k, t as int) {
                            if k == sides[0] {
                                assert(owner[sides[0] as int] >= 0);
                            } else if k == sides[1] {
                                assert(owner[sides[1] as int] >= 0);
                            } else {
                                assert(owner[sides[2] as int] >= 0);
                            }
                        }
                    }
                }
            }
            t += 1;
        }
        proof {
            assert forall|k: int, t: int|
                0 <= k < old(self).edges@.len() && #[trigger] old(self).is_first_with(
                    k,
                    t,
                ) implies self.edges@[k]
                    == old(self).triangles@[t].induced(old(self).edges@[k]) by {
                assert(owner[k] >= 0);
                assert(old(self).is_first_with(k, owner[k]));
            }
            assert forall|k: int|
                0 <= k < old(self).edges@.len() && #[trigger] old(self).is_loose(k)
                    implies self.edges@[k]
                == old(self).edges@[k] by {
                if owner[k] >= 0 {
                    assert(old(self).is_first_with(k, owner[k]));
                }
            }
        }
    }
}

/// Edges of the same vertex set are given the same orientation by a
/// triangle, and two triangles that are opposed on one are opposed on the
/// other.
proof fn lemma_same_edge_opposed(a: Triangle, b: Triangle, e1: Edge, e2: Edge)
    requires
        e1.same_simplex(e2),
        e1.wf(),
    ensures
        a.induced(e1) == a.induced(e2) || !a.has_face(e1),
        a.has_face(e1) && b.has_face(e1) ==> (opposed(a, b, e1) <==> opposed(a, b, e2)),
{
    reveal(opposed);
}

/// A consistent orientation of a mesh is one of every mesh of the same
/// simplices.
proof fn lemma_same_complex_oriented_by(a: &Mesh, b: &Mesh, o: Seq<Triangle>)
    requires
        a.same_complex(b),
        a.wf(),
        a.oriented_by(o),
    ensures
        b.oriented_by(o),
{
    lemma_same_complex(a, b);
    assert forall|j: int| 0 <= j < o.len() implies (#[trigger] o[j]).wf() && o[j].same_simplex(
        b.triangles@[j],
    ) by {
        assert(o[j].same_simplex(a.triangles@[j]));
        assert(a.triangles@[j].same_simplex(b.triangles@[j]));
    }
    assert forall|t: int, u: int, k: int|
        0 <= t < o.len() && 0 <= u < o.len() && t != u && 0 <= k < b.edges@.len()
            && #[trigger] b.shares(t, u, k) implies opposed(o[t], o[u], b.edges@[k]) by {
        assert(a.shares(t, u, k));
        assert(opposed(o[t], o[u], a.edges@[k]));
        assert(a.edge_ok(a.edges@[k]));
        assert(a.edges@[k].same_simplex(b.edges@[k]));
        assert(o[t].same_simplex(a.triangles@[t]));
        assert(o[u].same_simplex(a.triangles@[u]));
        lemma_same_edge_opposed(o[t], o[u], a.edges@[k], b.edges@[k]);
    }
}

/// An orientation that is consistent on what can be reached is one of
/// every mesh of the same simplices.
proof fn lemma_same_complex_oriented_in_reach_by(a: &Mesh, b: &Mesh, o: Seq<Triangle>)
    requires
        a.same_complex(b),
        a.wf(),
        a.oriented_in_reach_by(o),
    ensures
        b.oriented_in_reach_by(o),
{
    lemma_same_complex(a, b);
    assert forall|j: int| 0 <= j < o.len() implies (#[trigger] o[j]).wf() && o[j].same_simplex(
        b.triangles@[j],
    ) by {
        assert(o[j].same_simplex(a.triangles@[j]));
        assert(a.triangles@[j].same_simplex(b.triangles@[j]));
    }
    assert forall|t: int, u: int, k: int|
        0 <= t < o.len() && 0 <= u < o.len() && t != u && 0 <= k < b.edges@.len() && b.reachable(t)
            && #[trigger] b.shares(t, u, k) implies opposed(o[t], o[u], b.edges@[k]) by {
        lemma_same_complex_reachable(b, a, t);
        assert(a.shares(t, u, k));
        assert(opposed(o[t], o[u], a.edges@[k]));
        assert(a.edge_ok(a.edges@[k]));
        assert(a.edges@[k].same_simplex(b.edges@[k]));
        assert(o[t].same_simplex(a.triangles@[t]));
        assert(o[u].same_simplex(a.triangles@[u]));
        lemma_same_edge_opposed(o[t], o[u], a.edges@[k], b.edges@[k]);
    }
}

/// A triangle that can be reached in a mesh can be reached in every mesh
/// of the same simplices.
proof fn lemma_same_complex_reachable(a: &Mesh, b: &Mesh, t: int)
    requires
        a.same_complex(b),
        a.wf(),
        a.reachable(t),
    ensures
        b.reachable(t),
{
    let walk = choose|walk: Seq<int>| #[trigger] a.is_walk(walk) && walk.last() == t;
    assert forall|i: int| 1 <= i < walk.len() implies b.adjacent(walk[i - 1],
        #[trigger] walk[i]) by {
        assert(a.adjacent(walk[i - 1], walk[i]));
        lemma_same_adjacent(a, b, walk[i - 1], walk[i]);
    }
    assert(b.is_walk(walk));
}

/// Orientability and reachability are properties of the complex, not of
/// the orientations in which it is stored.
pub proof fn lemma_same_complex_same_shape(a: &Mesh, b: &Mesh)
    requires
        a.same_complex(b),
        a.wf(),
    ensures
        a.orientable() <==> b.orientable(),
        a.orientable_in_reach() <==> b.orientable_in_reach(),
        a.connected() <==> b.connected(),
        forall|t: int| a.reachable(t) <==> b.reachable(t),
{
    lemma_same_complex(a, b);
    if a.orientable_in_reach() {
        let o = choose|o: Seq<Triangle>| #[trigger] a.oriented_in_reach_by(o);
        lemma_same_complex_oriented_in_reach_by(a, b, o);
    }
    if b.orientable_in_reach() {
        let o = choose|o: Seq<Triangle>| #[trigger] b.oriented_in_reach_by(o);
        lemma_same_complex_oriented_in_reach_by(b, a, o);
    }
    if a.orientable() {
        let o = choose|o: Seq<Triangle>| #[trigger] a.oriented_by(o);
        lemma_same_complex_oriented_by(a, b, o);
    }
    if b.orientable() {
        let o = choose|o: Seq<Triangle>| #[trigger] b.oriented_by(o);
        lemma_same_complex_oriented_by(b, a, o);
    }
    assert forall|t: int| a.reachable(t) <==> b.reachable(t) by {
        if a.reachable(t) {
            lemma_same_complex_reachable(a, b, t);
        }
        if b.reachable(t) {
            lemma_same_complex_reachable(b, a, t);
        }
    }
    if a.connected() {
        assert forall|t: int| 0 <= t < b.triangles@.len() implies #[trigger] b.reachable(t) by {
            assert(a.reachable(t));
        }
    }
    if b.connected() {
        assert forall|t: int| 0 <= t < a.triangles@.len() implies #[trigger] a.reachable(t) by {
            assert(b.reachable(t));
        }
    }
}

/// A mesh that is consistently oriented shows that its complex can be
/// oriented, and stays consistently oriented when its edges are turned.
proof fn lemma_consistent(a: &Mesh, b: &Mesh)
    requires
        a.wf(),
        a.same_complex(b),
        a.triangles@ == b.triangles@,
        a.consistently_oriented(),
    ensures
        a.orientable(),
        b.consistently_oriented(),
{
    lemma_same_complex(a, b);
    assert(a.oriented_by(a.triangles@)) by {
        assert forall|j: int| 0 <= j < a.triangles@.len() implies (#[trigger] a.triangles@[j]).wf()
            && a.triangles@[j].same_simplex(a.triangles@[j]) by {
            assert(a.triangle_ok(a.triangles@[j]));
        }
    }
    assert forall|t: int, u: int, k: int|
        0 <= t < b.triangles@.len() && 0 <= u < b.triangles@.len() && t != u && 0 <= k
            < b.edges@.len() && #[trigger] b.shares(t, u, k) implies opposed(
        b.triangles@[t],
        b.triangles@[u],
        b.edges@[k],
    ) by {
        assert(a.shares(t, u, k));
        assert(a.edge_ok(a.edges@[k]));
        assert(a.edges@[k].same_simplex(b.edges@[k]));
        lemma_same_edge_opposed(a.triangles@[t], a.triangles@[u], a.edges@[k], b.edges@[k]);
    }
}

/// A mesh that can be oriented can be oriented where it can be reached, and
/// for a connected mesh the two are the same.
pub proof fn lemma_orientable_in_reach(a: &Mesh)
    ensures
        a.orientable() ==> a.orientable_in_reach(),
        a.connected() && a.orientable_in_reach() ==> a.orientable(),
{
    if a.orientable() {
        let o = choose|o: Seq<Triangle>| #[trigger] a.oriented_by(o);
        assert(a.oriented_in_reach_by(o));
    }
    if a.connected() && a.orientable_in_reach() {
        let o = choose|o: Seq<Triangle>| #[trigger] a.oriented_in_reach_by(o);
        assert(a.oriented_by(o)) by {
            assert forall|t: int, u: int, k: int|
                0 <= t < o.len() && 0 <= u < o.len() && t != u && 0 <= k < a.edges@.len()
                    && #[trigger] a.shares(t, u, k) implies opposed(o[t], o[u], a.edges@[k]) by {
                assert(a.reachable(t));
            }
        }
    }
}

/// Two tuples with the vertex set of a third have the same vertex set and
/// the sides of the third.
proof fn lemma_common_simplex(x: Triangle, y: Triangle, z: Triangle, e: Edge)
    requires
        x.same_simplex(z),
        y.same_simplex(z),
        z.has_face(e),
    ensures
        x.same_simplex(y),
        x.has_face(e),
        y.has_face(e),
{
}

/// Along a walk, two consistent orientations that agree in parity on the
/// first triangle agree on every triangle.
proof fn lemma_unique_along(mesh: &Mesh, a: Seq<Triangle>, b: Seq<Triangle>, walk: Seq<int>, i: int)
    requires
        mesh.wf(),
        mesh.oriented_by(a),
        mesh.oriented_by(b),
        mesh.is_walk(walk),
        keeps_parity(b[0], a[0]),
        0 <= i < walk.len(),
    ensures
        keeps_parity(b[walk[i]], a[walk[i]]),
    decreases i,
{
    if i > 0 {
        lemma_unique_along(mesh, a, b, walk, i - 1);
        let p = walk[i - 1];
        let q = walk[i];
        assert(mesh.adjacent(p, q));
        let k = choose|k: int| 0 <= k < mesh.edges@.len() && #[trigger] mesh.shares(p, q, k);
        let e = mesh.edges@[k];
        assert(mesh.edge_ok(e));
        assert(a[p].wf() && a[p].same_simplex(mesh.triangles@[p]));
        assert(a[q].wf() && a[q].same_simplex(mesh.triangles@[q]));
        assert(b[p].wf() && b[p].same_simplex(mesh.triangles@[p]));
        assert(b[q].wf() && b[q].same_simplex(mesh.triangles@[q]));
        assert(opposed(a[p], a[q], e));
        assert(opposed(b[p], b[q], e));
        lemma_common_simplex(a[p], b[p], mesh.triangles@[p], e);
        lemma_common_simplex(a[q], b[q], mesh.triangles@[q], e);
        lemma_forces(a[p], a[q], b[p], b[q], e);
    }
}

/// A connected mesh has at most one consistent orientation for each
/// orientation of its first triangle: two consistent orientations that agree
/// in parity on the first triangle agree in parity on every triangle that
/// can be reached.
pub proof fn lemma_orientation_unique(mesh: &Mesh, a: Seq<Triangle>, b: Seq<Triangle>, t: int)
    requires
        mesh.wf(),
        mesh.oriented_by(a),
        mesh.oriented_by(b),
        a[0].is_even() == b[0].is_even(),
        mesh.reachable(t),
    ensures
        a[t].is_even() == b[t].is_even(),
{
    lemma_keeps_parity(b[0], a[0]);
    lemma_keeps_parity(b[t], a[t]);
    let walk = choose|walk: Seq<int>| #[trigger] mesh.is_walk(walk) && walk.last() == t;
    lemma_unique_along(mesh, a, b, walk, walk.len() - 1);
}

/// A mesh without triangles is connected and can be oriented.
proof fn lemma_no_triangles(a: &Mesh)
    requires
        a.triangles@.len() == 0,
    ensures
        a.orientable(),
        a.connected(),
        a.consistently_oriented(),
{
    assert(a.oriented_by(Seq::<Triangle>::empty()));
}

impl Mesh {
    /// Gives the mesh a consistent orientation, if it has one.
    ///
    /// Every edge and every triangle is first stored ascending. The first
    /// triangle stays so. Its orientation is carried breadth first across
    /// common sides: a neighbour that is not opposed to the triangle at hand
    /// has its last two corners exchanged, unless it was reached before, in
    /// which case the mesh cannot be oriented. A mesh with a triangle that
    /// is not reached is refused too. At the end every edge is given the
    /// orientation that the first triangle with that side induces on it.
    ///
    /// On an error the simplices are left ascending, or with their last two
    /// corners exchanged.
    pub fn orient(&mut self) -> (r: Result<(), OrientationError>)
        requires
            old(self).wf(),
        ensures
            final(self).wf(),
            old(self).same_complex(final(self)),
            r is Ok <==> old(self).connected() && old(self).orientable(),
            forall|j: int|
                0 <= j < final(self).triangles@.len() ==> #[trigger] final(self).triangles@[j]
                    == old(self).triangles@[j].sorted() || final(self).triangles@[j]
                        == old(self).triangles@[j].sorted().flipped(),
            final(self).triangles@.len() > 0 ==> final(self).triangles@[0]
                == old(self).triangles@[0].sorted(),
            match r {
                Ok(()) => {
                    &&& final(self).consistently_oriented()
                    &&& forall|k: int, t: int|
                        0 <= k < old(self).edges@.len() && #[trigger] old(self).is_first_with(k, t)
                            ==> final(self).edges@[k] == final(self).triangles@[t].induced(
                            old(self).edges@[k],
                        )
                    &&& forall|k: int|
                        0 <= k < old(self).edges@.len() && #[trigger] old(self).is_loose(k)
                            ==> final(self).edges@[k] == old(self).edges@[k].ascending()
                },
                Err(OrientationError::Conflict { triangle }) => {
                    &&& triangle < old(self).triangles@.len()
                    &&& old(self).reachable(triangle as int)
                    &&& !old(self).orientable_in_reach()
                    &&& forall|k: int|
                        0 <= k < old(self).edges@.len() ==> #[trigger] final(self).edges@[k]
                            == old(self).edges@[k].ascending()
                },
                Err(OrientationError::Unreachable { triangle }) => {
                    &&& triangle < old(self).triangles@.len()
                    &&& !old(self).reachable(triangle as int)
                    &&& forall|j: int| 0 <= j < triangle ==> old(self).reachable(j)
                    &&& old(self).orientable_in_reach()
                    &&& forall|k: int|
                        0 <= k < old(self).edges@.len() ==> #[trigger] final(self).edges@[k]
                            == old(self).edges@[k].ascending()
                },
            },
    {
        self.normalize();
        let ghost sorted = *self;
        proof {
            lemma_same_complex_same_shape(old(self), &sorted);
            lemma_orientable_in_reach(old(self));
        }
        if self.triangles.len() == 0 {
            proof {
                lemma_no_triangles(&sorted);
                assert forall|k: int, t: int|
                    0 <= k < old(self).edges@.len() && #[trigger] old(self).is_first_with(
                        k,
                        t,
                    ) implies self.edges@[k]
                        == self.triangles@[t].induced(old(self).edges@[k]) by {}
            }
            return Ok(());
        }
        let r = self.propagate();
        let ghost spread = *self;
        proof {
            assert forall|j: int| 0 <= j < self.triangles@.len()
                implies #[trigger] self.triangles@[j]
                == old(self).triangles@[j].sorted() || self.triangles@[j]
                    == old(self).triangles@[j].sorted().flipped() by {
                assert(flip_of(sorted.triangles@[j], self.triangles@[j]));
            }
            assert(sorted.same_complex(&spread)) by {
                assert forall|j: int| 0 <= j < sorted.triangles@.len() implies (
                #[trigger] sorted.triangles@[j]).same_simplex(spread.triangles@[j]) by {
                    assert(sorted.triangle_ok(sorted.triangles@[j]));
                    assert(flip_of(sorted.triangles@[j], spread.triangles@[j]));
                }
                assert forall|k: int| 0 <= k < sorted.edges@.len() implies (
                #[trigger] sorted.edges@[k]).same_simplex(spread.edges@[k]) by {
                    assert(sorted.edge_ok(sorted.edges@[k]));
                }
            }
            lemma_same_complex_chain(old(self), &sorted, &spread);
        }
        match r {
            Err(e) => Err(e),
            Ok(()) => {
                self.orient_edges();
                proof {
                    lemma_same_complex_same_shape(&sorted, &spread);
                    lemma_consistent(&spread, self);
                    lemma_same_complex(old(self), &spread);
                    lemma_same_complex_chain(old(self), &spread, self);
                    lemma_edges_follow(old(self), &spread, self);
                }
                Ok(())
            },
        }
    }
}

impl Mesh {
    /// Orients a mesh that lies flat, by the side from which each triangle
    /// is seen: `facing` says for each triangle which orientation its tuple
    /// is to have. A triangle is stored ascending for `CCW` and ascending
    /// with its first two corners exchanged for `CW`. Every edge is then
    /// given the orientation that the first triangle with that side induces
    /// on it, and an edge of no triangle is stored ascending.
    pub fn orient2d(&mut self, facing: &Vec<Orientation>) -> (r: Result<(), OrientationError>)
        requires
            old(self).wf(),
            facing@.len() == old(self).triangles@.len(),
        ensures
            r is Ok,
            final(self).wf(),
            old(self).same_complex(final(self)),
            forall|j: int|
                0 <= j < final(self).triangles@.len() ==> #[trigger] final(self).triangles@[j] == (
                if facing@[j] == Orientation::CCW {
                    old(self).triangles@[j].sorted()
                } else {
                    old(self).triangles@[j].sorted().swapped()
                }),
            forall|k: int, t: int|
                0 <= k < old(self).edges@.len() && #[trigger] old(self).is_first_with(k, t)
                    ==> final(self).edges@[k] == final(self).triangles@[t].induced(
                    old(self).edges@[k],
                ),
            forall|k: int|
                0 <= k < old(self).edges@.len() && #[trigger] old(self).is_loose(k)
                    ==> final(self).edges@[k] == old(self).edges@[k].ascending(),
    {
        self.normalize();
        let ghost sorted = *self;
        let mut j: usize = 0;
        while j < self.triangles.len()
            invariant
                sorted.wf(),
                facing@.len() == sorted.triangles@.len(),
                self.vertex_count == sorted.vertex_count,
                self.edges@ == sorted.edges@,
                self.triangles@.len() == sorted.triangles@.len(),
                j <= self.triangles@.len(),
                forall|i: int|
                    0 <= i < j ==> #[trigger] self.triangles@[i] == (if facing@[i]
                        == Orientation::CCW {
                        sorted.triangles@[i]
                    } else {
                        sorted.triangles@[i].swapped()
                    }),
                forall|i: int|
                    j <= i < self.triangles@.len() ==> #[trigger] self.triangles@[i]
                        == sorted.triangles@[i],
            decreases self.triangles@.len() - j,
        {
            if facing[j] == Orientation::CW {
                let mut t: Triangle = self.triangles[j];
                t.swap_orientation();
                self.triangles.set(j, t);
            }
            j += 1;
        }
        let ghost turned = *self;
        proof {
            assert(sorted.same_complex(&turned)) by {
                assert forall|i: int| 0 <= i < sorted.triangles@.len() implies (
                #[trigger] sorted.triangles@[i]).same_simplex(turned.triangles@[i]) by {
                    assert(sorted.triangle_ok(sorted.triangles@[i]));
                }
                assert forall|k: int| 0 <= k < sorted.edges@.len() implies (
                #[trigger] sorted.edges@[k]).same_simplex(turned.edges@[k]) by {
                    assert(sorted.edge_ok(sorted.edges@[k]));
                }
            }
            lemma_same_complex(old(self), &sorted);
            lemma_same_complex(&sorted, &turned);
            lemma_same_complex_chain(old(self), &sorted, &turned);
        }
        self.orient_edges();
        proof {
            lemma_same_complex(old(self), &turned);
            lemma_same_complex_chain(old(self), &turned, self);
            lemma_edges_follow(old(self), &turned, self);
        }
        Ok(())
    }
}

/// Edges that follow the first triangle of a mesh whose edges are stored
/// ascending follow it in every mesh of the same simplices.
proof fn lemma_edges_follow(base: &Mesh, turned: &Mesh, done: &Mesh)
    requires
        base.wf(),
        base.same_complex(turned),
        forall|k: int|
            0 <= k < base.edges@.len() ==> #[trigger] turned.edges@[k]
                == base.edges@[k].ascending(),
        done.triangles@ == turned.triangles@,
        forall|k: int, t: int|
            0 <= k < turned.edges@.len() && #[trigger] turned.is_first_with(k, t)
                ==> done.edges@[k] == turned.triangles@[t].induced(turned.edges@[k]),
        forall|k: int|
            0 <= k < turned.edges@.len() && #[trigger] turned.is_loose(k) ==> done.edges@[k]
                == turned.edges@[k],
    ensures
        forall|k: int, t: int|
            0 <= k < base.edges@.len() && #[trigger] base.is_first_with(k, t) ==> done.edges@[k]
                == done.triangles@[t].induced(base.edges@[k]),
        forall|k: int|
            0 <= k < base.edges@.len() && #[trigger] base.is_loose(k) ==> done.edges@[k]
                == base.edges@[k].ascending(),
{
    lemma_same_complex(base, turned);
    assert forall|k: int, t: int|
        0 <= k < base.edges@.len() && #[trigger] base.is_first_with(k, t) implies done.edges@[k]
        == done.triangles@[t].induced(base.edges@[k]) by {
        assert(turned.is_first_with(k, t)) by {
            assert(base.is_side(k, t) <==> turned.is_side(k, t));
            assert forall|earlier: int| 0 <= earlier < t implies !#[trigger] turned.is_side(
                k,
                earlier,
            ) by {
                assert(base.is_side(k, earlier) <==> turned.is_side(k, earlier));
            }
        }
        assert(base.edge_ok(base.edges@[k]));
        assert(turned.triangle_ok(turned.triangles@[t]));
        assert(turned.edges@[k] == base.edges@[k].ascending());
        lemma_induced_is_side(turned.triangles@[t], base.edges@[k]);
    }
    assert forall|k: int| 0 <= k < base.edges@.len() && #[trigger] base.is_loose(
        k,
    ) implies done.edges@[k] == base.edges@[k].ascending() by {
        assert(turned.is_loose(k)) by {
            assert forall|t: int| 0 <= t < turned.triangles@.len()
                implies !#[trigger] turned.is_side(
                k,
                t,
            ) by {
                assert(base.is_side(k, t) <==> turned.is_side(k, t));
            }
        }
    }
}

/// Being made of the same simplices carries over from mesh to mesh.
proof fn lemma_same_complex_chain(a: &Mesh, b: &Mesh, c: &Mesh)
    requires
        a.wf(),
        a.same_complex(b),
        b.same_complex(c),
    ensures
        a.same_complex(c),
{
    lemma_same_complex(a, b);
    assert forall|j: int| 0 <= j < a.triangles@.len()
        implies (#[trigger] a.triangles@[j]).same_simplex(
        c.triangles@[j],
    ) by {
        assert(a.triangles@[j].same_simplex(b.triangles@[j]));
        assert(b.triangles@[j].same_simplex(c.triangles@[j]));
    }
    assert forall|k: int| 0 <= k < a.edges@.len() implies (#[trigger] a.edges@[k]).same_simplex(
        c.edges@[k],
    ) by {
        assert(a.edges@[k].same_simplex(b.edges@[k]));
        assert(b.edges@[k].same_simplex(c.edges@[k]));
        assert(a.edge_ok(a.edges@[k]));
    }
}

} // verus!
