//! Oriented edges and triangles: the simplices a mesh is made of.
//!
//! A simplex is a tuple of vertex indices. The vertex set says which simplex
//! it is, the order of the tuple says which of its two orientations it has.

use vstd::prelude::*;

verus! {

/// One of the two orientations of a simplex, read off its tuple: `CCW` when
/// the tuple is an even permutation of its ascending order, `CW` otherwise.
#[derive(Debug, Clone, Copy, PartialEq, Eq, Structural)]
pub enum Orientation {
    CCW,
    CW,
}

/// An oriented edge: it runs from `.0` to `.1`.
#[derive(Debug, Clone, Copy, PartialEq, Eq, Structural)]
pub struct Edge(pub usize, pub usize);

/// An oriented triangle. Rotating the tuple keeps the orientation, swapping
/// two entries reverses it.
#[derive(Debug, Clone, Copy, PartialEq, Eq, Structural)]
pub struct Triangle(pub usize, pub usize, pub usize);

/// The smallest of three numbers.
pub open spec fn min3(a: int, b: int, c: int) -> int {
    if a <= b && a <= c {
        a
    } else if b <= c {
        b
    } else {
        c
    }
}

/// The largest of three numbers.
pub open spec fn max3(a: int, b: int, c: int) -> int {
    if a >= b && a >= c {
        a
    } else if b >= c {
        b
    } else {
        c
    }
}

/// The one of three numbers that is neither taken as smallest nor as largest.
pub open spec fn mid3(a: int, b: int, c: int) -> int {
    a + b + c - min3(a, b, c) - max3(a, b, c)
}

impl Edge {
    /// The two endpoints are distinct.
    pub open spec fn wf(self) -> bool {
        self.0 != self.1
    }

    /// The same edge walked the other way.
    pub open spec fn reversed(self) -> Edge {
        Edge(self.1, self.0)
    }

    /// The edge joins `a` and `b`, in either direction.
    pub open spec fn spans(self, a: usize, b: usize) -> bool {
        (self.0 == a && self.1 == b) || (self.0 == b && self.1 == a)
    }

    /// Both edges have the same vertex set: they are the same 1-simplex.
    pub open spec fn same_simplex(self, other: Edge) -> bool {
        self.spans(other.0, other.1)
    }

    /// The orientation of the tuple.
    pub open spec fn direction(self) -> Orientation {
        if self.0 < self.1 {
            Orientation::CCW
        } else {
            Orientation::CW
        }
    }

    /// The edge with its endpoints in ascending order.
    pub open spec fn ascending(self) -> Edge {
        if self.0 <= self.1 {
            self
        } else {
            self.reversed()
        }
    }

    /// Reverses the edge.
    pub fn swap_orientation(&mut self)
        ensures
            *final(self) == old(self).reversed(),
    {
        let tmp: usize = self.0;
        self.0 = self.1;
        self.1 = tmp;
    }

    /// Gives the edge the orientation that `tri` induces on it. An edge that
    /// is no side of `tri` gets none and stays as it is.
    pub fn induce_orientation(&mut self, tri: &Triangle)
        ensures
            *final(self) == tri.induced(*old(self)),
    {
        let a: usize = self.0;
        let b: usize = self.1;
        if (a == tri.0 && b == tri.1) || (a == tri.1 && b == tri.0) {
            self.0 = tri.0;
            self.1 = tri.1;
        } else if (a == tri.1 && b == tri.2) || (a == tri.2 && b == tri.1) {
            self.0 = tri.1;
            self.1 = tri.2;
        } else if (a == tri.2 && b == tri.0) || (a == tri.0 && b == tri.2) {
            self.0 = tri.2;
            self.1 = tri.0;
        }
    }

    /// `CCW` for an edge that runs from the smaller index to the larger one.
    pub fn orientation(&self) -> (o: Orientation)
        ensures
            o == self.direction(),
    {
        if self.0 < self.1 {
            Orientation::CCW
        } else {
            Orientation::CW
        }
    }
}

impl Triangle {
    /// The three vertices are distinct.
    pub open spec fn wf(self) -> bool {
        self.0 != self.1 && self.1 != self.2 && self.0 != self.2
    }

    /// `v` is one of the triangle's vertices.
    pub open spec fn has_vertex(self, v: usize) -> bool {
        self.0 == v || self.1 == v || self.2 == v
    }

    /// Both endpoints of `e` are vertices of the triangle.
    pub open spec fn has_face(self, e: Edge) -> bool {
        self.has_vertex(e.0) && self.has_vertex(e.1)
    }

    /// Both triangles have the same vertex set.
    pub open spec fn same_simplex(self, other: Triangle) -> bool {
        &&& self.has_vertex(other.0) && self.has_vertex(other.1) && self.has_vertex(other.2)
        &&& other.has_vertex(self.0) && other.has_vertex(self.1) && other.has_vertex(self.2)
    }

    /// The side of the triangle with the vertex set of `e`, in the direction
    /// in which the triangle's tuple runs through it: `(.0, .1)`, `(.1, .2)`
    /// or `(.2, .0)`. An edge that is no side of the triangle is returned as
    /// it is.
    pub open spec fn induced(self, e: Edge) -> Edge {
        if e.spans(self.0, self.1) {
            Edge(self.0, self.1)
        } else if e.spans(self.1, self.2) {
            Edge(self.1, self.2)
        } else if e.spans(self.2, self.0) {
            Edge(self.2, self.0)
        } else {
            e
        }
    }

    /// The triangle with its first two vertices exchanged.
    pub open spec fn swapped(self) -> Triangle {
        Triangle(self.1, self.0, self.2)
    }

    /// The triangle with its last two vertices exchanged.
    pub open spec fn flipped(self) -> Triangle {
        Triangle(self.0, self.2, self.1)
    }

    /// The triangle with its vertices in ascending order.
    pub open spec fn sorted(self) -> Triangle {
        Triangle(
            min3(self.0 as int, self.1 as int, self.2 as int) as usize,
            mid3(self.0 as int, self.1 as int, self.2 as int) as usize,
            max3(self.0 as int, self.1 as int, self.2 as int) as usize,
        )
    }

    /// The tuple is a rotation of its ascending order.
    pub open spec fn is_even(self) -> bool {
        ||| self.0 < self.1 && self.1 < self.2
        ||| self.1 < self.2 && self.2 < self.0
        ||| self.2 < self.0 && self.0 < self.1
    }

    /// The orientation of the tuple. A tuple with a repeated vertex counts
    /// as `CW`.
    pub open spec fn direction(self) -> Orientation {
        if self.is_even() {
            Orientation::CCW
        } else {
            Orientation::CW
        }
    }

    /// Both endpoints of `edge` are vertices of the triangle.
    pub fn is_face(&self, edge: &Edge) -> (b: bool)
        ensures
            b == self.has_face(*edge),
    {
        (self.0 == edge.0 || self.1 == edge.0 || self.2 == edge.0) && (self.0 == edge.1 || self.1
            == edge.1 || self.2 == edge.1)
    }

    /// Reverses the triangle by exchanging its first two vertices.
    pub fn swap_orientation(&mut self)
        ensures
            *final(self) == old(self).swapped(),
    {
        let tmp: usize = self.0;
        self.0 = self.1;
        self.1 = tmp;
    }

    /// Rewrites the tuple to the given orientation: ascending for `CCW`,
    /// ascending with the first two vertices exchanged for `CW`.
    pub fn orient(&mut self, orientation: Orientation)
        ensures
            orientation == Orientation::CCW ==> *final(self) == old(self).sorted(),
            orientation == Orientation::CW ==> *final(self) == old(self).sorted().swapped(),
    {
        let mut a: usize = self.0;
        let mut b: usize = self.1;
        let mut c: usize = self.2;
        if a > b {
            let t: usize = a;
            a = b;
            b = t;
        }
        if b > c {
            let t: usize = b;
            b = c;
            c = t;
        }
        if a > b {
            let t: usize = a;
            a = b;
            b = t;
        }
        self.0 = a;
        self.1 = b;
        self.2 = c;
        if orientation == Orientation::CW {
            self.swap_orientation();
        }
    }

    /// `CCW` for a rotation of the ascending order, `CW` for every other
    /// tuple.
    pub fn orientation(&self) -> (o: Orientation)
        ensures
            o == self.direction(),
    {
        if self.0 < self.1 && self.1 < self.2 {
            Orientation::CCW
        } else if self.1 < self.2 && self.2 < self.0 {
            Orientation::CCW
        } else if self.2 < self.0 && self.0 < self.1 {
            Orientation::CCW
        } else {
            Orientation::CW
        }
    }
}

/// On a side of a triangle, the induced orientation is the side itself or
/// its reverse, and never both.
pub proof fn lemma_induced_is_side(t: Triangle, e: Edge)
    requires
        t.wf(),
        e.wf(),
        t.has_face(e),
    ensures
        t.induced(e) == e || t.induced(e) == e.reversed(),
        t.induced(e) != t.induced(e).reversed(),
        t.induced(e).same_simplex(e),
        t.induced(e.reversed()) == t.induced(e),
{
}

/// Exchanging two vertices of a triangle reverses the orientation that it
/// induces on each of its sides.
pub proof fn lemma_swap_reverses_induced(t: Triangle, e: Edge)
    requires
        t.wf(),
        e.wf(),
        t.has_face(e),
    ensures
        t.flipped().induced(e) == t.induced(e).reversed(),
        t.swapped().induced(e) == t.induced(e).reversed(),
        t.flipped().wf() && t.flipped().has_face(e),
        t.swapped().wf() && t.swapped().has_face(e),
{
}

/// Rotating the tuple of a triangle keeps its orientation: its parity, and
/// the orientation that it induces on each of its sides. Exchanging its
/// first and last vertex reverses both, as exchanging any two does.
pub proof fn lemma_rotation_keeps_orientation(t: Triangle, e: Edge)
    requires
        t.wf(),
        e.wf(),
        t.has_face(e),
    ensures
        Triangle(t.1, t.2, t.0).induced(e) == t.induced(e),
        Triangle(t.2, t.0, t.1).induced(e) == t.induced(e),
        Triangle(t.1, t.2, t.0).direction() == t.direction(),
        Triangle(t.2, t.0, t.1).direction() == t.direction(),
        Triangle(t.2, t.1, t.0).induced(e) == t.induced(e).reversed(),
        Triangle(t.2, t.1, t.0).direction() != t.direction(),
        t.swapped().direction() != t.direction(),
        t.flipped().direction() != t.direction(),
{
}

/// Sorting a triangle keeps its vertex set, and a sorted triangle is `CCW`.
pub proof fn lemma_sorted(t: Triangle)
    ensures
        t.sorted().same_simplex(t),
        t.wf() ==> t.sorted().wf() && t.sorted().direction() == Orientation::CCW,
        t.wf() ==> t.sorted().swapped().direction() == Orientation::CW,
        t.wf() ==> t.sorted().flipped().direction() == Orientation::CW,
        t.sorted().0 <= t.sorted().1 <= t.sorted().2,
{
}

} // verus!
