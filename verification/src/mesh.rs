//! The triangle mesh: a vertex count, a table of edges and a table of
//! triangles, with every side of every triangle stored once in the edge table.

use crate::simplex::{Edge, Triangle};
use vstd::prelude::*;

verus! {

/// Why a face cannot be added to a mesh.
#[derive(Debug, Clone, Copy, PartialEq, Eq, Structural)]
pub enum TopologyError {
    /// The face does not have three distinct vertices.
    NotATriangle,
    /// A vertex index of the face is not below the mesh's vertex count.
    IndexOutOfBounds,
}

/// A triangulated 2-complex. Vertices are known by their indices, which run
/// from zero up to `vertex_count`.
pub struct Mesh {
    pub vertex_count: usize,
    pub edges: Vec<Edge>,
    pub triangles: Vec<Triangle>,
}

/// Some edge of the table joins `a` and `b`.
pub open spec fn holds_edge(edges: Seq<Edge>, a: usize, b: usize) -> bool {
    exists|k: int| 0 <= k < edges.len() && #[trigger] edges[k].spans(a, b)
}

/// The edge table once the edge between `a` and `b` is in it: unchanged if it
/// was there in either direction, else with the ascending edge at its end.
pub open spec fn with_edge(edges: Seq<Edge>, a: usize, b: usize) -> Seq<Edge> {
    if holds_edge(edges, a, b) {
        edges
    } else {
        edges.push(Edge(a, b).ascending())
    }
}

/// No two entries of the table have the same vertex set.
pub open spec fn edges_distinct(edges: Seq<Edge>) -> bool {
    forall|k1: int, k2: int|
        0 <= k1 < k2 < edges.len() ==> !(#[trigger] edges[k1]).same_simplex(#[trigger] edges[k2])
}

/// The three sides of `t` are in the table.
pub open spec fn holds_sides(edges: Seq<Edge>, t: Triangle) -> bool {
    holds_edge(edges, t.0, t.1) && holds_edge(edges, t.1, t.2) && holds_edge(edges, t.0, t.2)
}

impl Mesh {
    /// The edge has two distinct endpoints that are vertices of the mesh.
    pub open spec fn edge_ok(&self, e: Edge) -> bool {
        e.wf() && e.0 < self.vertex_count && e.1 < self.vertex_count
    }

    /// The triangle has three distinct corners that are vertices of the mesh.
    pub open spec fn triangle_ok(&self, t: Triangle) -> bool {
        t.wf() && t.0 < self.vertex_count && t.1 < self.vertex_count && t.2 < self.vertex_count
    }

    /// The invariant of a mesh: every simplex is made of distinct vertices of
    /// the mesh, no edge is stored twice, and the sides of every triangle are
    /// stored.
    pub open spec fn wf(&self) -> bool {
        &&& forall|k: int| 0 <= k < self.edges@.len() ==> self.edge_ok(#[trigger] self.edges@[k])
        &&& forall|j: int|
            0 <= j < self.triangles@.len() ==> self.triangle_ok(#[trigger] self.triangles@[j])
        &&& edges_distinct(self.edges@)
        &&& forall|j: int|
            0 <= j < self.triangles@.len() ==> holds_sides(
                self.edges@,
                #[trigger] self.triangles@[j],
            )
    }

    /// Edge `k` is a side of triangle `t`.
    pub open spec fn is_side(&self, k: int, t: int) -> bool {
        self.triangles@[t].has_face(self.edges@[k])
    }

    /// Edge `k` is a side of both triangles.
    pub open spec fn shares(&self, t: int, u: int, k: int) -> bool {
        self.is_side(k, t) && self.is_side(k, u)
    }

    /// Two different triangles with a common side.
    pub open spec fn adjacent(&self, t: int, u: int) -> bool {
        t != u && exists|k: int| 0 <= k < self.edges@.len() && #[trigger] self.shares(t, u, k)
    }

    /// A mesh of `vertex_count` vertices without edges and triangles.
    pub fn new(vertex_count: usize) -> (m: Mesh)
        ensures
            m.wf(),
            m.vertex_count == vertex_count,
            m.edges@.len() == 0,
            m.triangles@.len() == 0,
    {
        Mesh { vertex_count, edges: Vec::new(), triangles: Vec::new() }
    }

    /// The index of the edge between `a` and `b`, whichever way it is stored,
    /// or `None` if the table has no such edge. Of several it is the first.
    pub fn find_edge(&self, a: usize, b: usize) -> (r: Option<usize>)
        ensures
            match r {
                Some(k) => {
                    &&& k < self.edges@.len()
                    &&& self.edges@[k as int].spans(a, b)
                    &&& forall|i: int| 0 <= i < k ==> !(#[trigger] self.edges@[i]).spans(a, b)
                },
                None => !holds_edge(self.edges@, a, b),
            },
    {
        let mut k: usize = 0;
        while k < self.edges.len()
            invariant
                k <= self.edges@.len(),
                forall|i: int| 0 <= i < k ==> !(#[trigger] self.edges@[i]).spans(a, b),
            decreases self.edges@.len() - k,
        {
            let e: Edge = self.edges[k];
            if (e.0 == a && e.1 == b) || (e.0 == b && e.1 == a) {
                return Some(k);
            }
            k += 1;
        }
        None
    }

    /// Stores the edge between `a` and `b` unless the table has it already.
    fn ensure_edge(&mut self, a: usize, b: usize)
        requires
            old(self).wf(),
            a != b,
            a < old(self).vertex_count,
            b < old(self).vertex_count,
        ensures
            final(self).wf(),
            final(self).vertex_count == old(self).vertex_count,
            final(self).triangles@ == old(self).triangles@,
            final(self).edges@ == with_edge(old(self).edges@, a, b),
            holds_edge(final(self).edges@, a, b),
    {
        match self.find_edge(a, b) {
            Some(_) => {},
            None => {
                let e: Edge = if a < b {
                    Edge(a, b)
                } else {
                    Edge(b, a)
                };
                let ghost before = self.edges@;
                self.edges.push(e);
                proof {
                    let after = self.edges@;
                    assert(after[before.len() as int].spans(a, b));
                    assert forall|k1: int, k2: int| 0 <= k1 < k2 < after.len() implies !(
                    #[trigger] after[k1]).same_simplex(#[trigger] after[k2]) by {
                        if k2 == before.len() {
                            assert(after[k1] == before[k1]);
                            assert(!before[k1].spans(a, b));
                        } else {
                            assert(after[k1] == before[k1] && after[k2] == before[k2]);
                        }
                    }
                    assert forall|j: int| 0 <= j < self.triangles@.len() implies holds_sides(
                        after,
                        #[trigger] self.triangles@[j],
                    ) by {
                        let t = self.triangles@[j];
                        lemma_push_keeps_edges(before, e, t.0, t.1);
                        lemma_push_keeps_edges(before, e, t.1, t.2);
                        lemma_push_keeps_edges(before, e, t.0, t.2);
                    }
                }
            },
        }
    }

    /// Adds the triangle `(i, j, k)` and stores those of its sides that the
    /// edge table lacks, in the order `{i,j}`, `{i,k}`, `{j,k}`, each with
    /// its endpoints ascending. A face that is refused leaves the mesh as it
    /// was.
    pub fn add_face(&mut self, i: usize, j: usize, k: usize) -> (r: Result<(), TopologyError>)
        requires
            old(self).wf(),
        ensures
            final(self).wf(),
            final(self).vertex_count == old(self).vertex_count,
            match r {
                Ok(()) => {
                    &&& old(self).triangle_ok(Triangle(i, j, k))
                    &&& final(self).triangles@ == old(self).triangles@.push(Triangle(i, j, k))
                    &&& final(self).edges@ == with_edge(
                        with_edge(with_edge(old(self).edges@, i, j), i, k),
                        j,
                        k,
                    )
                },
                Err(TopologyError::IndexOutOfBounds) => {
                    &&& i >= old(self).vertex_count || j >= old(self).vertex_count || k >= old(
                        self,
                    ).vertex_count
                    &&& *final(self) == *old(self)
                },
                Err(TopologyError::NotATriangle) => {
                    &&& i < old(self).vertex_count && j < old(self).vertex_count && k < old(
                        self,
                    ).vertex_count
                    &&& !Triangle(i, j, k).wf()
                    &&& *final(self) == *old(self)
                },
            },
    {
        if i >= self.vertex_count || j >= self.vertex_count || k >= self.vertex_count {
            return Err(TopologyError::IndexOutOfBounds);
        }
        if i == j || j == k || i == k {
            return Err(TopologyError::NotATriangle);
        }
        self.ensure_edge(i, j);
        self.ensure_edge(i, k);
        self.ensure_edge(j, k);
        let ghost before = self.triangles@;
        self.triangles.push(Triangle(i, j, k));
        proof {
            assert forall|t: int| 0 <= t < self.triangles@.len() implies holds_sides(
                self.edges@,
                #[trigger] self.triangles@[t],
            ) by {
                if t < before.len() {
                    assert(self.triangles@[t] == before[t]);
                } else {
                    let e1 = old(self).edges@;
                    let e2 = with_edge(e1, i, j);
                    let e3 = with_edge(e2, i, k);
                    lemma_with_edge_keeps(e2, i, k, i, j);
                    lemma_with_edge_keeps(e3, j, k, i, j);
                    lemma_with_edge_keeps(e3, j, k, i, k);
                }
            }
            assert forall|t: int| 0 <= t < self.triangles@.len() implies self.triangle_ok(
                #[trigger] self.triangles@[t],
            ) by {
                if t < before.len() {
                    assert(self.triangles@[t] == before[t]);
                }
            }
        }
        Ok(())
    }

    /// The indices of the three sides of triangle `tri` in the edge table, in
    /// ascending order.
    pub fn edges_of(&self, tri: usize) -> (r: [usize; 3])
        requires
            self.wf(),
            tri < self.triangles@.len(),
        ensures
            r[0] < r[1] < r[2] < self.edges@.len(),
            forall|k: int|
                0 <= k < self.edges@.len() ==> (#[trigger] self.is_side(k, tri as int) <==> (k
                    == r[0] || k == r[1] || k == r[2])),
    {
        let t: Triangle = self.triangles[tri];
        let mut k0: usize = 0;
        let mut k1: usize = 0;
        let mut k2: usize = 0;
        let mut count: usize = 0;
        let mut k: usize = 0;
        while k < self.edges.len()
            invariant
                self.wf(),
                tri < self.triangles@.len(),
                t == self.triangles@[tri as int],
                k <= self.edges@.len(),
                count <= 3,
                count >= 1 ==> k0 < k && self.is_side(k0 as int, tri as int),
                count >= 2 ==> k0 < k1 < k && self.is_side(k1 as int, tri as int),
                count >= 3 ==> k1 < k2 < k && self.is_side(k2 as int, tri as int),
                forall|i: int|
                    0 <= i < k && #[trigger] self.is_side(i, tri as int) ==> (count >= 1 && i
                        == k0) || (count >= 2 && i == k1) || (count >= 3 && i == k2),
            decreases self.edges@.len() - k,
        {
            if t.is_face(&self.edges[k]) {
                if count == 0 {
                    k0 = k;
                } else if count == 1 {
                    k1 = k;
                } else {
                    proof {
                        if count == 3 {
                            lemma_three_sides(
                                self,
                                tri as int,
                                k0 as int,
                                k1 as int,
                                k2 as int,
                                k as int,
                            );
                        }
                    }
                    k2 = k;
                }
                count += 1;
            }
            k += 1;
        }
        proof {
            let a = choose|a: int| 0 <= a < self.edges@.len()
                && #[trigger] self.edges@[a].spans(t.0, t.1);
            let b = choose|b: int| 0 <= b < self.edges@.len()
                && #[trigger] self.edges@[b].spans(t.1, t.2);
            let c = choose|c: int| 0 <= c < self.edges@.len()
                && #[trigger] self.edges@[c].spans(t.0, t.2);
            assert(holds_sides(self.edges@, t));
            assert(self.triangle_ok(t));
            assert(self.is_side(a, tri as int));
            assert(self.is_side(b, tri as int));
            assert(self.is_side(c, tri as int));
            assert(a != b && b != c && a != c);
        }
        [k0, k1, k2]
    }

    /// The triangles that have a side in common with triangle `tri`, in
    /// ascending order of their indices.
    pub fn neighbors(&self, tri: usize) -> (r: Vec<usize>)
        requires
            self.wf(),
            tri < self.triangles@.len(),
        ensures
            forall|i: int, j: int| 0 <= i < j < r@.len() ==> r@[i] < r@[j],
            forall|i: int| 0 <= i < r@.len() ==> self.adjacent(tri as int, #[trigger] r@[i] as int),
            forall|i: int| 0 <= i < r@.len() ==> (#[trigger] r@[i]) < self.triangles@.len(),
            forall|u: int|
                0 <= u < self.triangles@.len() && #[trigger] self.adjacent(tri as int, u)
                    ==> r@.contains(u as usize),
    {
        let sides: [usize; 3] = self.edges_of(tri);
        let e0: Edge = self.edges[sides[0]];
        let e1: Edge = self.edges[sides[1]];
        let e2: Edge = self.edges[sides[2]];
        let mut found: Vec<usize> = Vec::new();
        let mut u: usize = 0;
        while u < self.triangles.len()
            invariant
                self.wf(),
                tri < self.triangles@.len(),
                u <= self.triangles@.len(),
                sides[0] < sides[1] < sides[2] < self.edges@.len(),
                e0 == self.edges@[sides[0] as int],
                e1 == self.edges@[sides[1] as int],
                e2 == self.edges@[sides[2] as int],
                forall|k: int|
                    0 <= k < self.edges@.len() ==> (#[trigger] self.is_side(k, tri as int) <==> (k
                        == sides[0] || k == sides[1] || k == sides[2])),
                forall|i: int, j: int| 0 <= i < j < found@.len() ==> found@[i] < found@[j],
                forall|i: int| 0 <= i < found@.len() ==> (#[trigger] found@[i]) < u,
                forall|i: int|
                    0 <= i < found@.len() ==> self.adjacent(tri as int,
                        #[trigger] found@[i] as int),
                forall|w: int|
                    0 <= w < u && #[trigger] self.adjacent(tri as int, w) ==> found@.contains(
                        w as usize,
                    ),
            decreases self.triangles@.len() - u,
        {
            let ghost before = found@;
            let other: Triangle = self.triangles[u];
            let touching: bool = u != tri && (other.is_face(&e0) || other.is_face(&e1)
                || other.is_face(&e2));
            if touching {
                found.push(u);
            }
            proof {
                if touching {
                    let k = if other.has_face(e0) {
                        sides[0] as int
                    } else if other.has_face(e1) {
                        sides[1] as int
                    } else {
                        sides[2] as int
                    };
                    assert(self.is_side(k, tri as int));
                    assert(self.shares(tri as int, u as int, k));
                    assert(found@[before.len() as int] == u);
                    assert forall|w: int|
                        0 <= w < u + 1 && #[trigger] self.adjacent(tri as int, w)
                            implies found@.contains(
                        w as usize,
                    ) by {
                        if w < u {
                            let i = choose|i: int| 0 <= i < before.len() && before[i] == w as usize;
                            assert(found@[i] == w as usize);
                        }
                    }
                } else {
                    if self.adjacent(tri as int, u as int) {
                        let k = choose|k: int|
                            0 <= k < self.edges@.len() && #[trigger] self.shares(
                                tri as int,
                                u as int,
                                k,
                            );
                        assert(self.is_side(k, tri as int));
                        assert(self.is_side(k, u as int));
                    }
                }
            }
            u += 1;
        }
        found
    }
}

/// A side of a triangle joins two of its three corners.
pub proof fn lemma_side_spans(t: Triangle, e: Edge)
    requires
        t.wf(),
        e.wf(),
        t.has_face(e),
    ensures
        e.spans(t.0, t.1) || e.spans(t.1, t.2) || e.spans(t.0, t.2),
{
}

/// A triangle of a mesh has no more than three sides in the edge table.
pub proof fn lemma_three_sides(mesh: &Mesh, t: int, a: int, b: int, c: int, d: int)
    requires
        mesh.wf(),
        0 <= t < mesh.triangles@.len(),
        0 <= a < b < c < d < mesh.edges@.len(),
        mesh.is_side(a, t),
        mesh.is_side(b, t),
        mesh.is_side(c, t),
    ensures
        !mesh.is_side(d, t),
{
    let tri = mesh.triangles@[t];
    assert(mesh.triangle_ok(tri));
    assert(mesh.edge_ok(mesh.edges@[a]));
    assert(mesh.edge_ok(mesh.edges@[b]));
    assert(mesh.edge_ok(mesh.edges@[c]));
    assert(mesh.edge_ok(mesh.edges@[d]));
    lemma_side_spans(tri, mesh.edges@[a]);
    lemma_side_spans(tri, mesh.edges@[b]);
    lemma_side_spans(tri, mesh.edges@[c]);
    assert(!mesh.edges@[a].same_simplex(mesh.edges@[b]));
    assert(!mesh.edges@[a].same_simplex(mesh.edges@[c]));
    assert(!mesh.edges@[a].same_simplex(mesh.edges@[d]));
    assert(!mesh.edges@[b].same_simplex(mesh.edges@[c]));
    assert(!mesh.edges@[b].same_simplex(mesh.edges@[d]));
    assert(!mesh.edges@[c].same_simplex(mesh.edges@[d]));
    if mesh.is_side(d, t) {
        lemma_side_spans(tri, mesh.edges@[d]);
    }
}

/// An edge that the table holds is still held after a push.
pub proof fn lemma_push_keeps_edges(edges: Seq<Edge>, e: Edge, a: usize, b: usize)
    requires
        holds_edge(edges, a, b),
    ensures
        holds_edge(edges.push(e), a, b),
{
    let k = choose|k: int| 0 <= k < edges.len() && #[trigger] edges[k].spans(a, b);
    assert(edges.push(e)[k].spans(a, b));
}

/// `with_edge` brings its edge into the table and keeps those that were in
/// it.
pub proof fn lemma_with_edge_keeps(edges: Seq<Edge>, a: usize, b: usize, c: usize, d: usize)
    ensures
        holds_edge(with_edge(edges, a, b), a, b),
        holds_edge(edges, c, d) ==> holds_edge(with_edge(edges, a, b), c, d),
{
    let after = with_edge(edges, a, b);
    if !holds_edge(edges, a, b) {
        assert(after[edges.len() as int].spans(a, b));
        if holds_edge(edges, c, d) {
            lemma_push_keeps_edges(edges, Edge(a, b).ascending(), c, d);
        }
    }
}

/// Edge deduplication: for two vertices of a triangle of the mesh, and so
/// for two vertices that several triangles share, the edge table holds
/// exactly one edge with that vertex set.
pub proof fn lemma_one_edge_per_side(mesh: &Mesh, t: int, a: usize, b: usize)
    requires
        mesh.wf(),
        0 <= t < mesh.triangles@.len(),
        a != b,
        mesh.triangles@[t].has_vertex(a),
        mesh.triangles@[t].has_vertex(b),
    ensures
        holds_edge(mesh.edges@, a, b),
        forall|k1: int, k2: int|
            0 <= k1 < mesh.edges@.len() && 0 <= k2 < mesh.edges@.len() && (
            #[trigger] mesh.edges@[k1]).spans(a, b) && (#[trigger] mesh.edges@[k2]).spans(a, b)
                ==> k1 == k2,
{
    let tri = mesh.triangles@[t];
    assert(holds_sides(mesh.edges@, tri));
    assert(mesh.triangle_ok(tri));
    let (c, d) = if Edge(a, b).spans(tri.0, tri.1) {
        (tri.0, tri.1)
    } else if Edge(a, b).spans(tri.1, tri.2) {
        (tri.1, tri.2)
    } else {
        (tri.0, tri.2)
    };
    let k = choose|k: int| 0 <= k < mesh.edges@.len() && #[trigger] mesh.edges@[k].spans(c, d);
    assert(mesh.edges@[k].spans(a, b));
    assert forall|k1: int, k2: int|
        0 <= k1 < mesh.edges@.len() && 0 <= k2 < mesh.edges@.len() && (
        #[trigger] mesh.edges@[k1]).spans(a, b) && (#[trigger] mesh.edges@[k2]).spans(a, b)
            implies k1 == k2 by {
        if k1 < k2 {
            assert(mesh.edges@[k1].same_simplex(mesh.edges@[k2]));
        } else if k2 < k1 {
            assert(mesh.edges@[k2].same_simplex(mesh.edges@[k1]));
        }
    }
}

} // verus!
