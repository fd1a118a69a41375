//! The unknowns of the median program and the order in which they are
//! numbered.
//!
//! Every unknown is the positive or the negative part of one coefficient.
//! First come the parts of the median chain, two for each edge. Then comes
//! one block for each input chain: the parts of its residual 1-chain, two for
//! each edge, followed by the parts of its fill 2-chain, two for each
//! triangle. The positive part of a coefficient stands directly before its
//! negative part.

use vstd::prelude::*;

verus! {

/// The sizes that fix the numbering: the mesh's edges and triangles and the
/// number of input chains.
#[derive(Debug, Clone, Copy, PartialEq, Eq, Structural)]
pub struct Layout {
    pub edges: usize,
    pub triangles: usize,
    pub chains: usize,
}

impl Layout {
    /// The number of unknowns that belong to one input chain.
    pub open spec fn block(&self) -> int {
        2 * self.edges + 2 * self.triangles
    }

    /// The number of unknowns.
    pub open spec fn total(&self) -> int {
        2 * self.edges + self.chains * self.block()
    }

    /// The number of unknowns can be counted in a `usize`.
    pub open spec fn fits(&self) -> bool {
        self.total() <= usize::MAX
    }

    /// The first unknown of input chain `h`.
    pub open spec fn base(&self, h: int) -> int {
        2 * self.edges + h * self.block()
    }

    /// The positive part of the median's coefficient on edge `i`.
    pub open spec fn t_plus_at(&self, i: int) -> int {
        2 * i
    }

    /// The negative part of the median's coefficient on edge `i`.
    pub open spec fn t_minus_at(&self, i: int) -> int {
        2 * i + 1
    }

    /// The positive part of the residual of chain `h` on edge `i`.
    pub open spec fn r_plus_at(&self, h: int, i: int) -> int {
        self.base(h) + 2 * i
    }

    /// The negative part of the residual of chain `h` on edge `i`.
    pub open spec fn r_minus_at(&self, h: int, i: int) -> int {
        self.base(h) + 2 * i + 1
    }

    /// The positive part of the fill of chain `h` on triangle `j`.
    pub open spec fn s_plus_at(&self, h: int, j: int) -> int {
        self.base(h) + 2 * self.edges + 2 * j
    }

    /// The negative part of the fill of chain `h` on triangle `j`.
    pub open spec fn s_minus_at(&self, h: int, j: int) -> int {
        self.base(h) + 2 * self.edges + 2 * j + 1
    }

    /// The blocks of the chains up to `h` end where the numbering ends or
    /// before.
    pub proof fn lemma_block_bound(&self, h: int)
        requires
            0 <= h < self.chains,
        ensures
            0 <= h * self.block(),
            self.base(h) + self.block() <= self.total(),
            self.base(h + 1) == self.base(h) + self.block(),
    {
        let b = self.block();
        let c = self.chains as int;
        assert(0 <= h * b) by (nonlinear_arith)
            requires
                0 <= h,
                0 <= b,
        ;
        assert((h + 1) * b <= c * b) by (nonlinear_arith)
            requires
                h + 1 <= c,
                0 <= b,
        ;
        assert((h + 1) * b == h * b + b) by (nonlinear_arith);
    }

    /// The layout for the given sizes, or `None` if it has more unknowns than
    /// a `usize` can count.
    pub fn new(edges: usize, triangles: usize, chains: usize) -> (r: Option<Layout>)
        ensures
            r is Some <==> (Layout { edges, triangles, chains }).fits(),
            r matches Some(l) ==> l == (Layout { edges, triangles, chains }),
    {
        let l = Layout { edges, triangles, chains };
        let two_m: usize = match edges.checked_mul(2) {
            Some(v) => v,
            None => {
                proof {
                    assert(0 <= chains * l.block()) by (nonlinear_arith)
                        requires
                            0 <= chains,
                            0 <= l.block(),
                    ;
                }
                return None;
            },
        };
        if chains == 0 {
            assert(l.total() == two_m) by (nonlinear_arith)
                requires
                    l.total() == two_m + chains * l.block(),
                    chains == 0,
            ;
            return Some(l);
        }
        proof {
            assert(l.block() <= chains * l.block()) by (nonlinear_arith)
                requires
                    1 <= chains,
                    0 <= l.block(),
            ;
        }
        let two_n: usize = match triangles.checked_mul(2) {
            Some(v) => v,
            None => {
                return None;
            },
        };
        let block: usize = match two_m.checked_add(two_n) {
            Some(v) => v,
            None => {
                return None;
            },
        };
        let blocks: usize = match chains.checked_mul(block) {
            Some(v) => v,
            None => {
                return None;
            },
        };
        match two_m.checked_add(blocks) {
            Some(_) => Some(l),
            None => None,
        }
    }

    /// The number of unknowns.
    pub fn len(&self) -> (n: usize)
        requires
            self.fits(),
        ensures
            n == self.total(),
    {
        proof {
            if self.chains > 0 {
                self.lemma_block_bound(0);
            }
            assert(0 <= self.chains * self.block()) by (nonlinear_arith)
                requires
                    0 <= self.chains,
                    0 <= self.block(),
            ;
        }
        if self.chains == 0 {
            assert(self.chains * self.block() == 0) by (nonlinear_arith)
                requires
                    self.chains == 0,
            ;
            2 * self.edges
        } else {
            2 * self.edges + self.chains * (2 * self.edges + 2 * self.triangles)
        }
    }

    /// The first unknown of input chain `h`.
    fn block_start(&self, h: usize) -> (n: usize)
        requires
            self.fits(),
            h < self.chains,
        ensures
            n == self.base(h as int),
            n + self.block() <= self.total(),
    {
        proof {
            self.lemma_block_bound(h as int);
        }
        2 * self.edges + h * (2 * self.edges + 2 * self.triangles)
    }

    /// The positive part of the median's coefficient on edge `i`.
    pub fn t_plus(&self, i: usize) -> (n: usize)
        requires
            self.fits(),
            i < self.edges,
        ensures
            n == self.t_plus_at(i as int),
            n < self.total(),
    {
        proof {
            assert(0 <= self.chains * self.block()) by (nonlinear_arith)
                requires
                    0 <= self.chains,
                    0 <= self.block(),
            ;
        }
        2 * i
    }

    /// The negative part of the median's coefficient on edge `i`.
    pub fn t_minus(&self, i: usize) -> (n: usize)
        requires
            self.fits(),
            i < self.edges,
        ensures
            n == self.t_minus_at(i as int),
            n < self.total(),
    {
        proof {
            assert(0 <= self.chains * self.block()) by (nonlinear_arith)
                requires
                    0 <= self.chains,
                    0 <= self.block(),
            ;
        }
        2 * i + 1
    }

    /// The positive part of the residual of chain `h` on edge `i`.
    pub fn r_plus(&self, h: usize, i: usize) -> (n: usize)
        requires
            self.fits(),
            h < self.chains,
            i < self.edges,
        ensures
            n == self.r_plus_at(h as int, i as int),
            n < self.total(),
    {
        self.block_start(h) + 2 * i
    }

    /// The negative part of the residual of chain `h` on edge `i`.
    pub fn r_minus(&self, h: usize, i: usize) -> (n: usize)
        requires
            self.fits(),
            h < self.chains,
            i < self.edges,
        ensures
            n == self.r_minus_at(h as int, i as int),
            n < self.total(),
    {
        self.block_start(h) + 2 * i + 1
    }

    /// The positive part of the fill of chain `h` on triangle `j`.
    pub fn s_plus(&self, h: usize, j: usize) -> (n: usize)
        requires
            self.fits(),
            h < self.chains,
            j < self.triangles,
        ensures
            n == self.s_plus_at(h as int, j as int),
            n < self.total(),
    {
        self.block_start(h) + 2 * self.edges + 2 * j
    }

    /// The negative part of the fill of chain `h` on triangle `j`.
    pub fn s_minus(&self, h: usize, j: usize) -> (n: usize)
        requires
            self.fits(),
            h < self.chains,
            j < self.triangles,
        ensures
            n == self.s_minus_at(h as int, j as int),
            n < self.total(),
    {
        self.block_start(h) + 2 * self.edges + 2 * j + 1
    }
}

} // verus!
