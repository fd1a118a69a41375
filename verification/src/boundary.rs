//! The boundary operator of a mesh: the signed incidence of its edges in its
//! triangles, held as a dense matrix with one row for each edge and one
//! column for each triangle.

use crate::mesh::Mesh;
use crate::simplex::{Edge, Triangle};
use vstd::prelude::*;

verus! {

/// The entry of the boundary operator for an edge and a triangle: `0` if the
/// edge is no side of the triangle, `1` if the edge is stored in the
/// direction that the triangle induces on it, `-1` if it is stored against
/// it.
pub open spec fn boundary_sign(e: Edge, t: Triangle) -> int {
    if !t.has_face(e) {
        0
    } else if t.induced(e) == e {
        1
    } else {
        -1
    }
}

/// Computes `boundary_sign`.
pub fn boundary_entry(edge: &Edge, tri: &Triangle) -> (s: i8)
    ensures
        s == boundary_sign(*edge, *tri),
{
    if !tri.is_face(edge) {
        0
    } else {
        let mut induced: Edge = *edge;
        induced.induce_orientation(tri);
        if induced.0 == edge.0 && induced.1 == edge.1 {
            1
        } else {
            -1
        }
    }
}

/// A dense matrix of `nalgebra` with entries of type `i8`: a
/// `nalgebra::DMatrix<i8>`. The type stands behind this struct because its
/// storage is bounded by a trait of `nalgebra`. Of its contents nothing is
/// known but what is said of `matrix_rows`.
#[verifier::external_body]
pub struct SignMatrix {
    cells: nalgebra::DMatrix<i8>,
}

/// The rows of a `SignMatrix`, each row as the sequence of its entries.
pub uninterp spec fn matrix_rows(m: SignMatrix) -> Seq<Seq<i8>>;

/// `nalgebra::DMatrix::from_fn` with one row for each edge of the mesh and
/// one column for each triangle. It allocates the matrix, calls the function
/// it is given once for every pair of a row and a column of the matrix, and
/// stores what the function returns at that pair. The function given is
/// `Mesh::incidence`, so the entry in row `i` and column `j` is the boundary
/// entry of edge `i` in triangle `j`. The bound on the size keeps the number
/// of entries, which is the number of bytes allocated, within what can be
/// allocated; without it `from_fn` may panic.
#[verifier::external_body]
fn incidence_matrix(mesh: &Mesh) -> (b: SignMatrix)
    requires
        mesh.edges@.len() * mesh.triangles@.len() <= isize::MAX,
    ensures
        matrix_rows(b).len() == mesh.edges@.len(),
        forall|i: int|
            0 <= i < mesh.edges@.len() ==> (#[trigger] matrix_rows(b)[i]).len()
                == mesh.triangles@.len(),
        forall|i: int, j: int|
            0 <= i < mesh.edges@.len() && 0 <= j < mesh.triangles@.len() ==> (
            #[trigger] matrix_rows(b)[i][j]) == boundary_sign(mesh.edges@[i], mesh.triangles@[j]),
{
    SignMatrix {
        cells: nalgebra::DMatrix::from_fn(
            mesh.edges.len(),
            mesh.triangles.len(),
            |i, j| mesh.incidence(i, j),
        ),
    }
}

/// `nalgebra::Matrix::index` for a pair of a row and a column, which is what
/// `m[(i, j)]` calls. It panics when the pair lies outside the matrix and
/// else returns the entry there.
#[verifier::external_body]
fn matrix_entry(m: &SignMatrix, i: usize, j: usize) -> (s: i8)
    requires
        i < matrix_rows(*m).len(),
        j < matrix_rows(*m)[i as int].len(),
    ensures
        s == matrix_rows(*m)[i as int][j as int],
{
    m.cells[(i, j)]
}

/// The boundary operator of a mesh as it stood when the operator was built.
pub struct Boundary {
    pub rows: usize,
    pub cols: usize,
    pub cells: SignMatrix,
}

impl Mesh {
    /// The boundary entry of edge `i` in triangle `j`, and `0` for a pair
    /// that lies outside the tables.
    pub fn incidence(&self, i: usize, j: usize) -> (s: i8)
        ensures
            i < self.edges@.len() && j < self.triangles@.len() ==> s == boundary_sign(
                self.edges@[i as int],
                self.triangles@[j as int],
            ),
            !(i < self.edges@.len() && j < self.triangles@.len()) ==> s == 0,
    {
        if i < self.edges.len() && j < self.triangles.len() {
            boundary_entry(&self.edges[i], &self.triangles[j])
        } else {
            0
        }
    }
}

impl Boundary {
    /// The matrix has the shape that `rows` and `cols` give.
    pub open spec fn wf(&self) -> bool {
        &&& matrix_rows(self.cells).len() == self.rows
        &&& forall|i: int| 0 <= i < self.rows ==> (#[trigger] matrix_rows(self.cells)[i]).len()
            == self.cols
    }

    /// The entry in row `i` and column `j`.
    pub open spec fn sign(&self, i: int, j: int) -> int {
        matrix_rows(self.cells)[i][j] as int
    }

    /// The matrix is the boundary operator of `mesh`.
    pub open spec fn is_boundary_of(&self, mesh: &Mesh) -> bool {
        &&& self.wf()
        &&& self.rows == mesh.edges@.len()
        &&& self.cols == mesh.triangles@.len()
        &&& forall|i: int, j: int|
            0 <= i < self.rows && 0 <= j < self.cols ==> #[trigger] self.sign(i, j)
                == boundary_sign(mesh.edges@[i], mesh.triangles@[j])
    }

    /// The boundary operator of `mesh`, or `None` for a mesh with so many
    /// edges and triangles that a matrix of their product cannot be
    /// allocated.
    pub fn of(mesh: &Mesh) -> (r: Option<Boundary>)
        ensures
            r is Some <==> mesh.edges@.len() * mesh.triangles@.len() <= isize::MAX,
            r matches Some(b) ==> b.is_boundary_of(mesh),
    {
        let rows: usize = mesh.edges.len();
        let cols: usize = mesh.triangles.len();
        match rows.checked_mul(cols) {
            None => None,
            Some(size) => {
                if size > isize::MAX as usize {
                    None
                } else {
                    let cells = incidence_matrix(mesh);
                    let b = Boundary { rows, cols, cells };
                    proof {
                        assert forall|i: int, j: int|
                            0 <= i < b.rows && 0 <= j < b.cols implies #[trigger] b.sign(i, j)
                            == boundary_sign(mesh.edges@[i], mesh.triangles@[j]) by {
                            assert(matrix_rows(b.cells)[i][j] == boundary_sign(
                                mesh.edges@[i],
                                mesh.triangles@[j],
                            ));
                        }
                    }
                    Some(b)
                }
            },
        }
    }

    /// The entry in row `i` and column `j`.
    pub fn entry(&self, i: usize, j: usize) -> (s: i8)
        requires
            self.wf(),
            i < self.rows,
            j < self.cols,
        ensures
            s == self.sign(i as int, j as int),
    {
        matrix_entry(&self.cells, i, j)
    }
}

/// The column of a triangle in the boundary operator is the sum of its three
/// sides, each in the direction in which the triangle runs through it: an
/// edge stored as `(a, b)`, `(b, c)` or `(c, a)` of the triangle `(a, b, c)`
/// has the entry `1`, an edge stored as the reverse of one of them `-1`, and
/// every other edge `0`.
pub proof fn lemma_boundary_of_triangle(t: Triangle, e: Edge)
    requires
        t.wf(),
        e.wf(),
    ensures
        boundary_sign(e, t) == 1 <==> e == Edge(t.0, t.1) || e == Edge(t.1, t.2) || e == Edge(
            t.2,
            t.0,
        ),
        boundary_sign(e, t) == -1 <==> e == Edge(t.1, t.0) || e == Edge(t.2, t.1) || e == Edge(
            t.0,
            t.2,
        ),
        boundary_sign(e, t) == 0 <==> !t.has_face(e),
        boundary_sign(e.reversed(), t) == -boundary_sign(e, t),
{
}

/// The edges with the indices `a`, `b` and `c` are three different edges,
/// and they are the sides of triangle `j`.
pub open spec fn sides_are(mesh: &Mesh, j: int, a: int, b: int, c: int) -> bool {
    &&& 0 <= a < mesh.edges@.len() && 0 <= b < mesh.edges@.len() && 0 <= c < mesh.edges@.len()
    &&& a != b && b != c && a != c
    &&& forall|k: int|
        0 <= k < mesh.edges@.len() ==> (#[trigger] mesh.is_side(k, j) <==> (k == a || k == b || k
            == c))
}

/// In a mesh, the column of a triangle has exactly three entries other than
/// `0`: those of its three sides.
pub proof fn lemma_boundary_column(mesh: &Mesh, j: int)
    requires
        mesh.wf(),
        0 <= j < mesh.triangles@.len(),
    ensures
        forall|k: int|
            0 <= k < mesh.edges@.len() ==> (boundary_sign(mesh.edges@[k], mesh.triangles@[j]) != 0
                <==> #[trigger] mesh.is_side(k, j)),
        exists|a: int, b: int, c: int| #[trigger] sides_are(mesh, j, a, b, c),
{
    let t = mesh.triangles@[j];
    let edges = mesh.edges@;
    assert(mesh.triangle_ok(t));
    assert(crate::mesh::holds_sides(edges, t));
    let a = choose|a: int| 0 <= a < edges.len() && #[trigger] edges[a].spans(t.0, t.1);
    let b = choose|b: int| 0 <= b < edges.len() && #[trigger] edges[b].spans(t.1, t.2);
    let c = choose|c: int| 0 <= c < edges.len() && #[trigger] edges[c].spans(t.0, t.2);
    assert forall|k: int| 0 <= k < edges.len() implies (#[trigger] mesh.is_side(k, j) <==> (k == a
        || k == b || k == c)) by {
        if mesh.is_side(k, j) {
            assert(mesh.edge_ok(edges[k]));
            crate::mesh::lemma_side_spans(t, edges[k]);
            let w = if edges[k].spans(t.0, t.1) {
                a
            } else if edges[k].spans(t.1, t.2) {
                b
            } else {
                c
            };
            assert(edges[k].same_simplex(edges[w]));
            if k < w {
                assert(!edges[k].same_simplex(edges[w]));
            } else if w < k {
                assert(!edges[w].same_simplex(edges[k]));
            }
        }
    }
    assert(sides_are(mesh, j, a, b, c));
}

} // verus!
