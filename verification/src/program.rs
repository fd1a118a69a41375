//! The median program: the linear program whose minimum is the median chain
//! of the input chains, as data that a solver can be given.
//!
//! The program has one equality for each input chain and each edge. It says
//! that on that edge the median less the input chain is the residual plus the
//! boundary of the fill. Its unknowns are bounded below by zero, and what it
//! minimises is a sum of one cost for each unknown.

use crate::boundary::{boundary_sign, Boundary};
use crate::chain::{Chain, InputError};
use crate::layout::Layout;
use crate::mesh::Mesh;
use crate::simplex::{Edge, Triangle};
use vstd::prelude::*;

verus! {

/// What the program needs to know of the weight of an input chain.
#[derive(Debug, Clone, Copy, PartialEq, Eq, Structural)]
pub enum WeightSign {
    Negative,
    Zero,
    Positive,
}

/// The cost of one unit of an unknown, as the product that it stands for.
#[derive(Debug, Clone, Copy, PartialEq, Eq, Structural)]
pub enum Cost {
    /// The length of the edge times the scale of the median's mass.
    Median { edge: usize },
    /// The length of the edge times the weight of the chain.
    Residual { chain: usize, edge: usize },
    /// The area of the triangle times the weight of the chain times the scale
    /// of the fills' area.
    Fill { chain: usize, triangle: usize },
}

/// An unknown with its coefficient in an equality.
#[derive(Debug, Clone, Copy, PartialEq, Eq, Structural)]
pub struct Term {
    pub var: usize,
    pub coeff: i8,
}

/// An equality: the sum of the terms is `rhs`.
pub struct Row {
    pub terms: Vec<Term>,
    pub rhs: i64,
}

/// The median program of a mesh and its input chains.
pub struct Program {
    pub layout: Layout,
    /// The cost of each unknown, in the order of the layout.
    pub costs: Vec<Cost>,
    /// The equalities, those of the first chain first, and those of one chain
    /// in the order of the edges.
    pub rows: Vec<Row>,
}

/// The terms that the fill of chain `h` has in the equality of an edge, for
/// the triangles before `upto`: for each triangle that has the edge as a
/// side, the negated boundary entry on the positive part and the boundary
/// entry on the negative part.
pub open spec fn fill_terms(l: Layout, e: Edge, triangles: Seq<Triangle>, h: int, upto: int) -> Seq<
    Term,
>
    decreases upto,
{
    if upto <= 0 {
        Seq::empty()
    } else {
        let j = upto - 1;
        let b = boundary_sign(e, triangles[j]);
        let before = fill_terms(l, e, triangles, h, j);
        if b != 0 {
            before.push(Term { var: l.s_plus_at(h, j) as usize, coeff: (-b) as i8 }).push(
                Term { var: l.s_minus_at(h, j) as usize, coeff: b as i8 },
            )
        } else {
            before
        }
    }
}

/// The four terms of the median and of the residual of chain `h` in the
/// equality of edge `i`.
pub open spec fn edge_terms(l: Layout, h: int, i: int) -> Seq<Term> {
    seq![
        Term { var: l.t_plus_at(i) as usize, coeff: 1 },
        Term { var: l.t_minus_at(i) as usize, coeff: -1i8 },
        Term { var: l.r_plus_at(h, i) as usize, coeff: -1i8 },
        Term { var: l.r_minus_at(h, i) as usize, coeff: 1 },
    ]
}

/// The terms of the equality of chain `h` and edge `i`.
pub open spec fn row_terms(l: Layout, mesh: &Mesh, h: int, i: int) -> Seq<Term> {
    edge_terms(l, h, i) + fill_terms(
        l,
        mesh.edges@[i],
        mesh.triangles@,
        h,
        mesh.triangles@.len() as int,
    )
}

/// The layout is that of the program of `mesh` with `chains` input chains.
pub open spec fn layout_matches(l: Layout, mesh: &Mesh, chains: nat) -> bool {
    l.edges == mesh.edges@.len() && l.triangles == mesh.triangles@.len() && l.chains == chains
}

/// The chain is a 1-chain with one coefficient for each edge of `mesh`.
pub open spec fn chain_fits(mesh: &Mesh, c: Chain) -> bool {
    c.dim == 1 && c.coeff@.len() == mesh.edges@.len()
}

/// The program of `mesh` with `chains` input chains can be held: its
/// unknowns can be counted, and so can the entries of the boundary operator.
pub open spec fn size_fits(mesh: &Mesh, chains: nat) -> bool {
    &&& 2 * mesh.edges@.len() + chains * (2 * mesh.edges@.len() + 2 * mesh.triangles@.len())
        <= usize::MAX
    &&& mesh.edges@.len() * mesh.triangles@.len() <= isize::MAX
}

/// The costs are those of the layout's unknowns: each part of a coefficient
/// costs what the coefficient's simplex and chain say.
pub open spec fn costs_match(l: Layout, costs: Seq<Cost>) -> bool {
    &&& costs.len() == l.total()
    &&& forall|i: int|
        0 <= i < l.edges ==> #[trigger] costs[l.t_plus_at(i)] == (Cost::Median { edge: i as usize })
    &&& forall|i: int|
        0 <= i < l.edges ==> #[trigger] costs[l.t_minus_at(i)] == (Cost::Median {
            edge: i as usize,
        })
    &&& forall|h: int, i: int|
        0 <= h < l.chains && 0 <= i < l.edges ==> #[trigger] costs[l.r_plus_at(h, i)] == (
        Cost::Residual { chain: h as usize, edge: i as usize })
    &&& forall|h: int, i: int|
        0 <= h < l.chains && 0 <= i < l.edges ==> #[trigger] costs[l.r_minus_at(h, i)] == (
        Cost::Residual { chain: h as usize, edge: i as usize })
    &&& forall|h: int, j: int|
        0 <= h < l.chains && 0 <= j < l.triangles ==> #[trigger] costs[l.s_plus_at(h, j)] == (
        Cost::Fill { chain: h as usize, triangle: j as usize })
    &&& forall|h: int, j: int|
        0 <= h < l.chains && 0 <= j < l.triangles ==> #[trigger] costs[l.s_minus_at(h, j)] == (
        Cost::Fill { chain: h as usize, triangle: j as usize })
}

impl Program {
    /// The equalities are those of the input chains on the edges of `mesh`.
    pub open spec fn rows_match(&self, mesh: &Mesh, input: Seq<Chain>) -> bool {
        let l = self.layout;
        &&& self.rows@.len() == l.chains * l.edges
        &&& forall|h: int, i: int|
            0 <= h < l.chains && 0 <= i < l.edges ==> {
                &&& (#[trigger] self.rows@[h * l.edges + i]).terms@ == row_terms(l, mesh, h, i)
                &&& self.rows@[h * l.edges + i].rhs == input[h].coeff@[i]
            }
    }

    /// This is the median program of `mesh` and `input`.
    pub open spec fn is_program_of(&self, mesh: &Mesh, input: Seq<Chain>) -> bool {
        &&& layout_matches(self.layout, mesh, input.len())
        &&& self.layout.fits()
        &&& costs_match(self.layout, self.costs@)
        &&& self.rows_match(mesh, input)
    }
}

/// The costs of the unknowns in the order of the layout.
fn assemble_costs(l: Layout) -> (costs: Vec<Cost>)
    requires
        l.fits(),
    ensures
        costs_match(l, costs@),
{
    let mut costs: Vec<Cost> = Vec::new();
    let mut i: usize = 0;
    while i < l.edges
        invariant
            i <= l.edges,
            costs@.len() == 2 * i,
            forall|k: int| 0 <= k < i ==> #[trigger] costs@[l.t_plus_at(k)]
                == (Cost::Median { edge: k as usize }),
            forall|k: int| 0 <= k < i ==> #[trigger] costs@[l.t_minus_at(k)]
                == (Cost::Median { edge: k as usize }),
        decreases l.edges - i,
    {
        costs.push(Cost::Median { edge: i });
        costs.push(Cost::Median { edge: i });
        i += 1;
    }
    let mut h: usize = 0;
    while h < l.chains
        invariant
            l.fits(),
            h <= l.chains,
            costs@.len() == l.base(h as int),
            forall|k: int| 0 <= k < l.edges ==> #[trigger] costs@[l.t_plus_at(k)]
                == (Cost::Median { edge: k as usize }),
            forall|k: int| 0 <= k < l.edges ==> #[trigger] costs@[l.t_minus_at(k)]
                == (Cost::Median { edge: k as usize }),
            forall|g: int, k: int|
                0 <= g < h && 0 <= k < l.edges ==> #[trigger] costs@[l.r_plus_at(g, k)] == (
                Cost::Residual { chain: g as usize, edge: k as usize }),
            forall|g: int, k: int|
                0 <= g < h && 0 <= k < l.edges ==> #[trigger] costs@[l.r_minus_at(g, k)] == (
                Cost::Residual { chain: g as usize, edge: k as usize }),
            forall|g: int, k: int|
                0 <= g < h && 0 <= k < l.triangles ==> #[trigger] costs@[l.s_plus_at(g, k)] == (
                Cost::Fill { chain: g as usize, triangle: k as usize }),
            forall|g: int, k: int|
                0 <= g < h && 0 <= k < l.triangles ==> #[trigger] costs@[l.s_minus_at(g, k)] == (
                Cost::Fill { chain: g as usize, triangle: k as usize }),
        decreases l.chains - h,
    {
        let ghost start = costs@;
        proof {
            l.lemma_block_bound(h as int);
            assert forall|g: int| 0 <= g < h implies l.base(g) + l.block() <= l.base(h as int) by {
                l.lemma_block_bound(g);
                assert((g + 1) * l.block() <= h * l.block()) by (nonlinear_arith)
                    requires
                        g + 1 <= h,
                        0 <= l.block(),
                ;
                assert((g + 1) * l.block() == g * l.block() + l.block()) by (nonlinear_arith);
            }
        }
        let mut i: usize = 0;
        while i < l.edges
            invariant
                i <= l.edges,
                costs@.len() == l.base(h as int) + 2 * i,
                start.len() == l.base(h as int),
                forall|k: int| 0 <= k < start.len() ==> costs@[k] == start[k],
                forall|k: int|
                    0 <= k < i ==> #[trigger] costs@[l.r_plus_at(h as int, k)] == (Cost::Residual {
                        chain: h,
                        edge: k as usize,
                    }),
                forall|k: int|
                    0 <= k < i ==> #[trigger] costs@[l.r_minus_at(h as int, k)] == (Cost::Residual {
                        chain: h,
                        edge: k as usize,
                    }),
            decreases l.edges - i,
        {
            costs.push(Cost::Residual { chain: h, edge: i });
            costs.push(Cost::Residual { chain: h, edge: i });
            i += 1;
        }
        let mut j: usize = 0;
        while j < l.triangles
            invariant
                j <= l.triangles,
                costs@.len() == l.base(h as int) + 2 * l.edges + 2 * j,
                start.len() == l.base(h as int),
                forall|k: int| 0 <= k < start.len() ==> costs@[k] == start[k],
                forall|k: int|
                    0 <= k < l.edges ==> #[trigger] costs@[l.r_plus_at(h as int, k)] == (
                    Cost::Residual { chain: h, edge: k as usize }),
                forall|k: int|
                    0 <= k < l.edges ==> #[trigger] costs@[l.r_minus_at(h as int, k)] == (
                    Cost::Residual { chain: h, edge: k as usize }),
                forall|k: int|
                    0 <= k < j ==> #[trigger] costs@[l.s_plus_at(h as int, k)] == (Cost::Fill {
                        chain: h,
                        triangle: k as usize,
                    }),
                forall|k: int|
                    0 <= k < j ==> #[trigger] costs@[l.s_minus_at(h as int, k)] == (Cost::Fill {
                        chain: h,
                        triangle: k as usize,
                    }),
            decreases l.triangles - j,
        {
            costs.push(Cost::Fill { chain: h, triangle: j });
            costs.push(Cost::Fill { chain: h, triangle: j });
            j += 1;
        }
        proof {
            assert(0 <= h * l.block()) by (nonlinear_arith)
                requires
                    0 <= h,
                    0 <= l.block(),
            ;
            assert forall|k: int| 0 <= k < l.edges implies #[trigger] costs@[l.t_plus_at(k)] == (
            Cost::Median { edge: k as usize }) by {
                assert(costs@[l.t_plus_at(k)] == start[l.t_plus_at(k)]);
            }
            assert forall|k: int| 0 <= k < l.edges implies #[trigger] costs@[l.t_minus_at(k)] == (
            Cost::Median { edge: k as usize }) by {
                assert(costs@[l.t_minus_at(k)] == start[l.t_minus_at(k)]);
            }
            assert forall|g: int, k: int| 0 <= g < h && 0 <= k < l.edges
                implies #[trigger] costs@[l.r_plus_at(
                g,
                k,
            )] == (Cost::Residual { chain: g as usize, edge: k as usize }) by {
                assert(costs@[l.r_plus_at(g, k)] == start[l.r_plus_at(g, k)]);
            }
            assert forall|g: int, k: int| 0 <= g < h && 0 <= k < l.edges
                implies #[trigger] costs@[l.r_minus_at(
                g,
                k,
            )] == (Cost::Residual { chain: g as usize, edge: k as usize }) by {
                assert(costs@[l.r_minus_at(g, k)] == start[l.r_minus_at(g, k)]);
            }
            assert forall|g: int, k: int|
                0 <= g < h && 0 <= k < l.triangles implies #[trigger] costs@[l.s_plus_at(g, k)] == (
            Cost::Fill { chain: g as usize, triangle: k as usize }) by {
                assert(costs@[l.s_plus_at(g, k)] == start[l.s_plus_at(g, k)]);
            }
            assert forall|g: int, k: int|
                0 <= g < h && 0 <= k < l.triangles implies #[trigger] costs@[l.s_minus_at(g, k)]
                == (Cost::Fill { chain: g as usize, triangle: k as usize }) by {
                assert(costs@[l.s_minus_at(g, k)] == start[l.s_minus_at(g, k)]);
            }
        }
        h += 1;
    }
    costs
}

/// The equality of chain `h` and edge `i`.
fn assemble_row(l: Layout, mesh: &Mesh, boundary: &Boundary, h: usize, i: usize, rhs: i64) -> (row:
    Row)
    requires
        l.fits(),
        l.edges == mesh.edges@.len(),
        l.triangles == mesh.triangles@.len(),
        boundary.is_boundary_of(mesh),
        h < l.chains,
        i < l.edges,
    ensures
        row.terms@ == row_terms(l, mesh, h as int, i as int),
        row.rhs == rhs,
{
    let mut terms: Vec<Term> = Vec::new();
    terms.push(Term { var: l.t_plus(i), coeff: 1 });
    terms.push(Term { var: l.t_minus(i), coeff: -1 });
    terms.push(Term { var: l.r_plus(h, i), coeff: -1 });
    terms.push(Term { var: l.r_minus(h, i), coeff: 1 });
    assert(terms@ =~= edge_terms(l, h as int, i as int));
    let mut j: usize = 0;
    while j < l.triangles
        invariant
            l.fits(),
            l.edges == mesh.edges@.len(),
            l.triangles == mesh.triangles@.len(),
            boundary.is_boundary_of(mesh),
            h < l.chains,
            i < l.edges,
            j <= l.triangles,
            terms@ == edge_terms(l, h as int, i as int) + fill_terms(
                l,
                mesh.edges@[i as int],
                mesh.triangles@,
                h as int,
                j as int,
            ),
        decreases l.triangles - j,
    {
        let b: i8 = boundary.entry(i, j);
        assert(b == boundary.sign(i as int, j as int));
        assert(b == boundary_sign(mesh.edges@[i as int], mesh.triangles@[j as int]));
        let ghost before = fill_terms(
            l,
            mesh.edges@[i as int],
            mesh.triangles@,
            h as int,
            j as int,
        );
        if b != 0 {
            terms.push(Term { var: l.s_plus(h, j), coeff: -b });
            terms.push(Term { var: l.s_minus(h, j), coeff: b });
            assert(terms@ =~= edge_terms(l, h as int, i as int) + before.push(
                Term { var: l.s_plus_at(h as int, j as int) as usize, coeff: (-b) as i8 },
            ).push(Term { var: l.s_minus_at(h as int, j as int) as usize, coeff: b }));
        }
        j += 1;
    }
    Row { terms, rhs }
}

/// The first negative weight, if there is one.
fn find_negative(alpha: &Vec<WeightSign>) -> (r: Option<usize>)
    ensures
        match r {
            Some(h) => {
                &&& h < alpha@.len()
                &&& alpha@[h as int] == WeightSign::Negative
                &&& forall|g: int| 0 <= g < h ==> alpha@[g] != WeightSign::Negative
            },
            None => forall|g: int| 0 <= g < alpha@.len() ==> alpha@[g] != WeightSign::Negative,
        },
{
    let mut h: usize = 0;
    while h < alpha.len()
        invariant
            h <= alpha@.len(),
            forall|g: int| 0 <= g < h ==> alpha@[g] != WeightSign::Negative,
        decreases alpha@.len() - h,
    {
        if alpha[h] == WeightSign::Negative {
            return Some(h);
        }
        h += 1;
    }
    None
}

/// The first input chain that is no 1-chain of the mesh, if there is one.
fn find_misfit(mesh: &Mesh, input: &Vec<Chain>) -> (r: Option<usize>)
    ensures
        match r {
            Some(h) => {
                &&& h < input@.len()
                &&& !chain_fits(mesh, input@[h as int])
                &&& forall|g: int| 0 <= g < h ==> chain_fits(mesh, input@[g])
            },
            None => forall|g: int| 0 <= g < input@.len() ==> chain_fits(mesh, input@[g]),
        },
{
    let mut h: usize = 0;
    while h < input.len()
        invariant
            h <= input@.len(),
            forall|g: int| 0 <= g < h ==> chain_fits(mesh, input@[g]),
        decreases input@.len() - h,
    {
        if input[h].dim != 1 || input[h].coeff.len() != mesh.edges.len() {
            return Some(h);
        }
        h += 1;
    }
    None
}

/// What `assemble` answers for a mesh, the input chains and the signs of
/// their weights: the program, if there are as many weights as chains, no
/// weight is negative, every chain is a 1-chain of the mesh and the program
/// can be held; else the first of these that fails, with the first chain at
/// fault.
pub open spec fn assembled(
    mesh: &Mesh,
    input: Seq<Chain>,
    alpha: Seq<WeightSign>,
    r: Result<Program, InputError>,
) -> bool {
    match r {
        Ok(p) => {
            &&& input.len() == alpha.len()
            &&& forall|g: int| 0 <= g < alpha.len() ==> alpha[g] != WeightSign::Negative
            &&& forall|g: int| 0 <= g < input.len() ==> chain_fits(mesh, input[g])
            &&& size_fits(mesh, input.len())
            &&& p.is_program_of(mesh, input)
        },
        Err(InputError::CountMismatch { chains, weights }) => {
            &&& chains == input.len()
            &&& weights == alpha.len()
            &&& chains != weights
        },
        Err(InputError::NegativeWeight { chain }) => {
            &&& input.len() == alpha.len()
            &&& chain < alpha.len()
            &&& alpha[chain as int] == WeightSign::Negative
            &&& forall|g: int| 0 <= g < chain ==> alpha[g] != WeightSign::Negative
        },
        Err(InputError::DimensionMismatch { chain }) => {
            &&& input.len() == alpha.len()
            &&& forall|g: int| 0 <= g < alpha.len() ==> alpha[g] != WeightSign::Negative
            &&& chain < input.len()
            &&& !chain_fits(mesh, input[chain as int])
            &&& forall|g: int| 0 <= g < chain ==> chain_fits(mesh, input[g])
        },
        Err(InputError::TooLarge) => {
            &&& input.len() == alpha.len()
            &&& forall|g: int| 0 <= g < alpha.len() ==> alpha[g] != WeightSign::Negative
            &&& forall|g: int| 0 <= g < input.len() ==> chain_fits(mesh, input[g])
            &&& !size_fits(mesh, input.len())
        },
        Err(InputError::UnknownEdge { .. }) => false,
    }
}

/// The median program of `mesh` and the chains `input` with the weights
/// whose signs are `alpha`.
///
/// The input is refused, in this order, if there are not as many weights as
/// chains, if a weight is negative, if a chain is no 1-chain of the mesh, or
/// if the program is too large to be held. The error names the first chain
/// at fault.
pub fn assemble(mesh: &Mesh, input: &Vec<Chain>, alpha: &Vec<WeightSign>) -> (r: Result<
    Program,
    InputError,
>)
    ensures
        assembled(mesh, input@, alpha@, r),
{
    if input.len() != alpha.len() {
        return Err(InputError::CountMismatch { chains: input.len(), weights: alpha.len() });
    }
    if let Some(h) = find_negative(alpha) {
        return Err(InputError::NegativeWeight { chain: h });
    }
    if let Some(h) = find_misfit(mesh, input) {
        return Err(InputError::DimensionMismatch { chain: h });
    }
    let l: Layout = match Layout::new(mesh.edges.len(), mesh.triangles.len(), input.len()) {
        Some(l) => l,
        None => {
            return Err(InputError::TooLarge);
        },
    };
    let boundary: Boundary = match Boundary::of(mesh) {
        Some(b) => b,
        None => {
            return Err(InputError::TooLarge);
        },
    };
    let costs: Vec<Cost> = assemble_costs(l);
    let mut rows: Vec<Row> = Vec::new();
    let mut h: usize = 0;
    while h < l.chains
        invariant
            l.fits(),
            l.edges == mesh.edges@.len(),
            l.triangles == mesh.triangles@.len(),
            l.chains == input@.len(),
            boundary.is_boundary_of(mesh),
            forall|g: int| 0 <= g < input@.len() ==> chain_fits(mesh, input@[g]),
            h <= l.chains,
            rows@.len() == h * l.edges,
            forall|g: int, i: int|
                0 <= g < h && 0 <= i < l.edges ==> {
                    &&& (#[trigger] rows@[g * l.edges + i]).terms@ == row_terms(l, mesh, g, i)
                    &&& rows@[g * l.edges + i].rhs == input@[g].coeff@[i]
                },
        decreases l.chains - h,
    {
        let ghost start = rows@;
        let mut i: usize = 0;
        while i < l.edges
            invariant
                    l.fits(),
                l.edges == mesh.edges@.len(),
                l.triangles == mesh.triangles@.len(),
                l.chains == input@.len(),
                boundary.is_boundary_of(mesh),
                chain_fits(mesh, input@[h as int]),
                h < l.chains,
                i <= l.edges,
                start.len() == h * l.edges,
                rows@.len() == h * l.edges + i,
                forall|k: int| 0 <= k < start.len() ==> rows@[k] == start[k],
                forall|k: int|
                    0 <= k < i ==> {
                        &&& (#[trigger] rows@[h * l.edges + k]).terms@ == row_terms(
                            l,
                            mesh,
                            h as int,
                            k,
                        )
                        &&& rows@[h * l.edges + k].rhs == input@[h as int].coeff@[k]
                    },
            decreases l.edges - i,
        {
            let rhs: i64 = input[h].coeff[i];
            let row: Row = assemble_row(l, mesh, &boundary, h, i, rhs);
            rows.push(row);
            i += 1;
        }
        proof {
            let m = l.edges as int;
            assert((h + 1) * m == h * m + m) by (nonlinear_arith);
            assert forall|g: int, k: int| 0 <= g < h + 1 && 0 <= k < m implies {
                &&& (#[trigger] rows@[g * m + k]).terms@ == row_terms(l, mesh, g, k)
                &&& rows@[g * m + k].rhs == input@[g].coeff@[k]
            } by {
                if g < h {
                    assert(g * m + k < h * m) by (nonlinear_arith)
                        requires
                            0 <= g < h,
                            0 <= k < m,
                    ;
                    assert(0 <= g * m + k) by (nonlinear_arith)
                        requires
                            0 <= g,
                            0 <= k,
                            0 <= m,
                    ;
                    assert(rows@[g * m + k] == start[g * m + k]);
                }
            }
        }
        h += 1;
    }
    Ok(Program { layout: l, costs, rows })
}

} // verus!
