//! Chains: integer combinations of the edges or of the triangles of a mesh,
//! and currents, the vertex paths that chains are read from.

use crate::mesh::{holds_edge, Mesh};
use crate::simplex::Edge;
use vstd::prelude::*;

verus! {

/// Why an input to the median problem is refused.
#[derive(Debug, Clone, Copy, PartialEq, Eq, Structural)]
pub enum InputError {
    /// There are not as many weights as chains.
    CountMismatch { chains: usize, weights: usize },
    /// The weight of the chain with this index is negative.
    NegativeWeight { chain: usize },
    /// The chain with this index is no 1-chain, or it does not have one
    /// coefficient for each edge of the mesh.
    DimensionMismatch { chain: usize },
    /// The mesh has no edge between these two vertices.
    UnknownEdge { from: usize, to: usize },
    /// The problem has more unknowns, or its boundary operator more entries,
    /// than the machine can count.
    TooLarge,
}

/// A chain of dimension 1 or 2 on a mesh: one coefficient for each edge, or
/// one for each triangle, in the order of the mesh's tables. A positive
/// coefficient runs along the simplex as the mesh stores it.
pub struct Chain<'a> {
    pub dim: u32,
    pub mesh: &'a Mesh,
    pub coeff: Vec<i64>,
}

/// One term of a chain written as a signed sum: the simplex with this index
/// in its table, taken `magnitude` times, forwards or backwards.
#[derive(Debug, Clone, Copy, PartialEq, Eq, Structural)]
pub struct SignedTerm {
    pub negative: bool,
    pub magnitude: u64,
    pub simplex: usize,
}

/// The term of a coefficient `c` on the simplex with index `k`.
pub open spec fn term_of(c: i64, k: usize) -> SignedTerm {
    SignedTerm {
        negative: c < 0,
        magnitude: (if c < 0 {
            -c
        } else {
            c as int
        }) as u64,
        simplex: k,
    }
}

/// A path on a mesh, given by the vertices it visits in turn.
pub struct Current<'a> {
    pub mesh: &'a Mesh,
    pub path: Vec<usize>,
}

/// The index of the first edge of the table that joins `a` and `b`; the
/// table's length if there is none.
pub open spec fn first_edge(edges: Seq<Edge>, a: usize, b: usize) -> int
    decreases edges.len(),
{
    if edges.len() == 0 {
        0
    } else if edges[0].spans(a, b) {
        0
    } else {
        1 + first_edge(edges.subrange(1, edges.len() as int), a, b)
    }
}

/// `first_edge` is the least index of an edge between `a` and `b`.
pub proof fn lemma_first_edge(edges: Seq<Edge>, a: usize, b: usize)
    ensures
        0 <= first_edge(edges, a, b) <= edges.len(),
        first_edge(edges, a, b) < edges.len() <==> holds_edge(edges, a, b),
        first_edge(edges, a, b) < edges.len() ==> edges[first_edge(edges, a, b)].spans(a, b),
        forall|i: int| 0 <= i < first_edge(edges, a, b) ==> !(#[trigger] edges[i]).spans(a, b),
    decreases edges.len(),
{
    if edges.len() == 0 {
    } else if edges[0].spans(a, b) {
    } else {
        let rest = edges.subrange(1, edges.len() as int);
        lemma_first_edge(rest, a, b);
        let f = first_edge(rest, a, b);
        assert forall|i: int| 0 <= i < 1 + f implies !(#[trigger] edges[i]).spans(a, b) by {
            if i > 0 {
                assert(rest[i - 1] == edges[i]);
            }
        }
        if f < rest.len() {
            assert(rest[f] == edges[f + 1]);
            assert(edges[f + 1].spans(a, b));
        }
        if holds_edge(edges, a, b) {
            let k = choose|k: int| 0 <= k < edges.len() && #[trigger] edges[k].spans(a, b);
            assert(rest[k - 1] == edges[k]);
            assert(rest[k - 1].spans(a, b));
        }
    }
}

/// Step `i` of a path, from its vertex `i - 1` to its vertex `i`, runs along
/// edge `k` of the table.
pub open spec fn step_on_edge(edges: Seq<Edge>, path: Seq<usize>, i: int, k: int) -> bool {
    1 <= i < path.len() && k < edges.len() && first_edge(edges, path[i - 1], path[i]) == k
}

/// One of the first `upto` steps of the path runs along edge `k`.
pub open spec fn path_covers(edges: Seq<Edge>, path: Seq<usize>, upto: int, k: int) -> bool {
    exists|i: int| 1 <= i < upto && #[trigger] step_on_edge(edges, path, i, k)
}

impl<'a> Chain<'a> {
    /// The number of coefficients that a chain of dimension `dim` has.
    pub open spec fn len_for(mesh: &Mesh, dim: u32) -> nat {
        if dim == 1 {
            mesh.edges@.len()
        } else {
            mesh.triangles@.len()
        }
    }

    /// The chain has dimension 1 or 2 and one coefficient for each simplex of
    /// that dimension.
    pub open spec fn wf(&self) -> bool {
        &&& self.dim == 1 || self.dim == 2
        &&& self.coeff@.len() == Self::len_for(self.mesh, self.dim)
    }

    /// The chain of dimension `dim` with every coefficient zero.
    pub fn zero(dim: u32, mesh: &'a Mesh) -> (c: Chain<'a>)
        requires
            dim == 1 || dim == 2,
        ensures
            c.wf(),
            c.dim == dim,
            c.mesh == mesh,
            forall|i: int| 0 <= i < c.coeff@.len() ==> c.coeff@[i] == 0,
    {
        let n: usize = if dim == 1 {
            mesh.edges.len()
        } else {
            mesh.triangles.len()
        };
        let mut coeff: Vec<i64> = Vec::new();
        let mut i: usize = 0;
        while i < n
            invariant
                i <= n,
                coeff@.len() == i,
                forall|k: int| 0 <= k < i ==> coeff@[k] == 0,
            decreases n - i,
        {
            coeff.push(0);
            i += 1;
        }
        Chain { dim, mesh, coeff }
    }

    /// Gives the edge between `from` and `to` the coefficient `1`, whichever
    /// way the mesh stores it. Without such an edge the chain stays as it
    /// is.
    pub fn mark_edge(&mut self, from: usize, to: usize) -> (r: Result<(), InputError>)
        requires
            old(self).wf(),
            old(self).dim == 1,
        ensures
            final(self).wf(),
            final(self).dim == 1,
            final(self).mesh == old(self).mesh,
            r is Ok <==> holds_edge(old(self).mesh.edges@, from, to),
            r is Ok ==> final(self).coeff@ == old(self).coeff@.update(
                first_edge(old(self).mesh.edges@, from, to),
                1i64,
            ),
            r is Err ==> r == Err::<(), InputError>(InputError::UnknownEdge { from, to })
                && final(self).coeff@ == old(self).coeff@,
    {
        proof {
            lemma_first_edge(self.mesh.edges@, from, to);
        }
        match self.mesh.find_edge(from, to) {
            Some(k) => {
                self.coeff.set(k, 1);
                Ok(())
            },
            None => Err(InputError::UnknownEdge { from, to }),
        }
    }

    /// The indices of the coefficients other than zero, in ascending order:
    /// the simplices that the chain is made of.
    pub fn support(&self) -> (s: Vec<usize>)
        ensures
            forall|i: int, j: int| 0 <= i < j < s@.len() ==> s@[i] < s@[j],
            forall|i: int|
                0 <= i < s@.len() ==> (#[trigger] s@[i]) < self.coeff@.len()
                    && self.coeff@[s@[i] as int]
                    != 0,
            forall|k: int|
                0 <= k < self.coeff@.len() && self.coeff@[k] != 0 ==> s@.contains(k as usize),
    {
        let mut s: Vec<usize> = Vec::new();
        let mut k: usize = 0;
        while k < self.coeff.len()
            invariant
                k <= self.coeff@.len(),
                forall|i: int, j: int| 0 <= i < j < s@.len() ==> s@[i] < s@[j],
                forall|i: int|
                    0 <= i < s@.len() ==> (#[trigger] s@[i]) < k && self.coeff@[s@[i] as int] != 0,
                forall|i: int|
                    0 <= i < k && self.coeff@[i] != 0 ==> s@.contains(i as usize),
            decreases self.coeff@.len() - k,
        {
            if self.coeff[k] != 0 {
                let ghost before = s@;
                s.push(k);
                proof {
                    assert(s@[before.len() as int] == k);
                    assert forall|i: int| 0 <= i < k + 1 && self.coeff@[i] != 0 implies s@.contains(
                        i as usize,
                    ) by {
                        if i < k {
                            let w = choose|w: int| 0 <= w < before.len() && before[w] == i as usize;
                            assert(s@[w] == i as usize);
                        }
                    }
                }
            }
            k += 1;
        }
        s
    }

    /// The chain as a signed sum: one term for each coefficient other than
    /// zero, in the order of the simplices.
    pub fn terms(&self) -> (t: Vec<SignedTerm>)
        ensures
            forall|i: int, j: int| 0 <= i < j < t@.len() ==> t@[i].simplex < t@[j].simplex,
            forall|i: int|
                0 <= i < t@.len() ==> (#[trigger] t@[i]).simplex < self.coeff@.len()
                    && self.coeff@[t@[i].simplex as int] != 0 && t@[i] == term_of(
                    self.coeff@[t@[i].simplex as int],
                    t@[i].simplex,
                ),
            forall|k: int|
                0 <= k < self.coeff@.len() && self.coeff@[k] != 0 ==> exists|i: int|
                    0 <= i < t@.len() && (#[trigger] t@[i]).simplex == k,
    {
        let support: Vec<usize> = self.support();
        let n: usize = self.coeff.len();
        let mut t: Vec<SignedTerm> = Vec::new();
        let mut i: usize = 0;
        while i < support.len()
            invariant
                i <= support@.len(),
                t@.len() == i,
                forall|a: int|
                    0 <= a < support@.len() ==> (#[trigger] support@[a]) < self.coeff@.len()
                        && self.coeff@[support@[a] as int] != 0,
                forall|a: int|
                    0 <= a < i ==> #[trigger] t@[a] == term_of(
                        self.coeff@[support@[a] as int],
                        support@[a],
                    ),
            decreases support@.len() - i,
        {
            let k: usize = support[i];
            let c: i64 = self.coeff[k];
            let magnitude: u64 = if c < 0 {
                (-(c + 1)) as u64 + 1
            } else {
                c as u64
            };
            t.push(SignedTerm { negative: c < 0, magnitude, simplex: k });
            i += 1;
        }
        proof {
            assert forall|k: int| 0 <= k < self.coeff@.len() && self.coeff@[k] != 0 implies exists|
                i: int,
            | 0 <= i < t@.len() && (#[trigger] t@[i]).simplex == k by {
                assert(k < n);
                assert(support@.contains(k as usize));
                let a = choose|a: int| 0 <= a < support@.len() && support@[a] == k as usize;
                assert(t@[a].simplex == k);
            }
        }
        t
    }
}

impl<'a> Current<'a> {
    /// The empty path on `mesh`.
    pub fn new(mesh: &'a Mesh) -> (c: Current<'a>)
        ensures
            c.mesh == mesh,
            c.path@.len() == 0,
    {
        Current { mesh, path: Vec::new() }
    }

    /// The 1-chain of the edges that the path runs along: coefficient `1` on
    /// every edge that joins two successive vertices of the path, whichever
    /// way the mesh stores the edge, and `0` on every other edge. A step
    /// between two vertices that no edge joins is an error, and the error
    /// names the first such step.
    pub fn as_chain(&self) -> (r: Result<Chain<'a>, InputError>)
        ensures
            match r {
                Ok(c) => {
                    &&& c.wf()
                    &&& c.dim == 1
                    &&& c.mesh == self.mesh
                    &&& forall|i: int|
                        1 <= i < self.path@.len() ==> holds_edge(
                            self.mesh.edges@,
                            #[trigger] self.path@[i - 1],
                            self.path@[i],
                        )
                    &&& forall|k: int|
                        0 <= k < c.coeff@.len() ==> #[trigger] c.coeff@[k] == (if path_covers(
                            self.mesh.edges@,
                            self.path@,
                            self.path@.len() as int,
                            k,
                        ) {
                            1i64
                        } else {
                            0i64
                        })
                },
                Err(e) => exists|i: int|
                    {
                        &&& 1 <= i < self.path@.len()
                        &&& e == (InputError::UnknownEdge {
                            from: #[trigger] self.path@[i - 1],
                            to: self.path@[i],
                        })
                        &&& !holds_edge(self.mesh.edges@, self.path@[i - 1], self.path@[i])
                        &&& forall|j: int|
                            1 <= j < i ==> holds_edge(
                                self.mesh.edges@,
                                #[trigger] self.path@[j - 1],
                                self.path@[j],
                            )
                    },
            },
    {
        let mut chain: Chain<'a> = Chain::zero(1, self.mesh);
        let mut i: usize = 1;
        while i < self.path.len()
            invariant
                1 <= i,
                chain.wf(),
                chain.dim == 1,
                chain.mesh == self.mesh,
                forall|j: int|
                    1 <= j < i && j < self.path@.len() ==> holds_edge(
                        self.mesh.edges@,
                        #[trigger] self.path@[j - 1],
                        self.path@[j],
                    ),
                forall|k: int|
                    0 <= k < chain.coeff@.len() ==> #[trigger] chain.coeff@[k] == (if path_covers(
                        self.mesh.edges@,
                        self.path@,
                        i as int,
                        k,
                    ) {
                        1i64
                    } else {
                        0i64
                    }),
            decreases self.path@.len() - i,
        {
            let a: usize = self.path[i - 1];
            let b: usize = self.path[i];
            let ghost before = chain.coeff@;
            let ghost edges = self.mesh.edges@;
            let ghost path = self.path@;
            match chain.mark_edge(a, b) {
                Ok(()) => {},
                Err(e) => {
                    return Err(e);
                },
            }
            proof {
                lemma_first_edge(edges, a, b);
                let f = first_edge(edges, a, b);
                assert(step_on_edge(edges, path, i as int, f));
                assert forall|k: int| 0 <= k < chain.coeff@.len() implies #[trigger] chain.coeff@[k]
                    == (if path_covers(edges, path, i + 1, k) {
                    1i64
                } else {
                    0i64
                }) by {
                    if path_covers(edges, path, i as int, k) {
                        let w = choose|w: int|
                            1 <= w < i && #[trigger] step_on_edge(edges, path, w, k);
                        assert(step_on_edge(edges, path, w, k));
                    } else if k != f {
                        if path_covers(edges, path, i + 1, k) {
                            let w = choose|w: int|
                                1 <= w < i + 1 && #[trigger] step_on_edge(edges, path, w, k);
                            assert(w == i);
                        }
                    }
                }
            }
            i += 1;
        }
        Ok(chain)
    }
}

} // verus!
