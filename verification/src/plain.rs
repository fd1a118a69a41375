//! Solutions of a median program that can be written down: the residual
//! solution, which every program has, and the plain solution, whose median
//! is the chain that all input chains are.

use crate::boundary::boundary_sign;
use crate::chain::Chain;
use crate::layout::Layout;
use crate::mesh::Mesh;
use crate::objective::{
    lemma_mass_zero, lemma_objective_nonnegative, lemma_objective_without_decomposition, mass,
    Weights,
};
use crate::program::Program;
use crate::simplex::{Edge, Triangle};
use crate::solution::{
    fill_at, fill_boundary_at, lemma_row_states_decomposition, median_at, residual_at,
};
use vstd::prelude::*;

verus! {

/// The positive part of a coefficient.
pub open spec fn positive_part(c: int) -> real {
    if c > 0 {
        c as real
    } else {
        0real
    }
}

/// The negative part of a coefficient.
pub open spec fn negative_part(c: int) -> real {
    if c < 0 {
        (-c) as real
    } else {
        0real
    }
}

/// The values at which the median is the chain `t` and every residual and
/// every fill is zero.
pub open spec fn plain_solution(l: Layout, t: Seq<i64>) -> Seq<real> {
    Seq::new(
        l.total() as nat,
        |k: int|
            if 0 <= k < 2 * l.edges {
                if k % 2 == 0 {
                    positive_part(t[k / 2] as int)
                } else {
                    negative_part(t[k / 2] as int)
                }
            } else {
                0real
            },
    )
}

/// The boundary of a fill that is zero is zero.
proof fn lemma_zero_fill(
    l: Layout,
    e: Edge,
    triangles: Seq<Triangle>,
    x: Seq<real>,
    h: int,
    upto: int,
)
    requires
        0 <= upto,
        forall|j: int| 0 <= j < upto ==> #[trigger] fill_at(l, x, h, j) == 0real,
    ensures
        fill_boundary_at(l, e, triangles, x, h, upto) == 0real,
    decreases upto,
{
    if upto > 0 {
        lemma_zero_fill(l, e, triangles, x, h, upto - 1);
        let b = boundary_sign(e, triangles[upto - 1]) as real;
        assert(fill_at(l, x, h, upto - 1) == 0real);
        assert(b * 0real == 0real) by (nonlinear_arith);
    }
}

/// What is read off the plain solution: the median is `t`, and every
/// residual and every fill is zero.
pub proof fn lemma_plain_solution(l: Layout, t: Seq<i64>)
    requires
        l.fits(),
        t.len() == l.edges,
    ensures
        plain_solution(l, t).len() == l.total(),
        forall|k: int| 0 <= k < l.total() ==> #[trigger] plain_solution(l, t)[k] >= 0real,
        forall|k: int| 2 * l.edges <= k < l.total() ==> #[trigger] plain_solution(l, t)[k] == 0real,
        forall|i: int|
            0 <= i < l.edges ==> #[trigger] median_at(l, plain_solution(l, t), i) == t[i] as real,
        forall|h: int, i: int|
            0 <= h < l.chains && 0 <= i < l.edges ==> #[trigger] residual_at(
                l,
                plain_solution(l, t),
                h,
                i,
            ) == 0real,
        forall|h: int, j: int|
            0 <= h < l.chains && 0 <= j < l.triangles ==> #[trigger] fill_at(
                l,
                plain_solution(l, t),
                h,
                j,
            ) == 0real,
{
    let x = plain_solution(l, t);
    assert(0 <= l.chains * l.block()) by (nonlinear_arith)
        requires
            0 <= l.chains,
            0 <= l.block(),
    ;
    assert forall|i: int| 0 <= i < l.edges implies #[trigger] median_at(l, x, i)
        == t[i] as real by {
        assert(x[2 * i] == positive_part(t[i] as int));
        assert(x[2 * i + 1] == negative_part(t[i] as int));
    }
    assert forall|h: int, i: int| 0 <= h < l.chains && 0 <= i < l.edges
        implies #[trigger] residual_at(
        l,
        x,
        h,
        i,
    ) == 0real by {
        l.lemma_block_bound(h);
    }
    assert forall|h: int, j: int|
        0 <= h < l.chains && 0 <= j < l.triangles implies #[trigger] fill_at(l, x, h, j)
        == 0real by {
        l.lemma_block_bound(h);
    }
}

/// Every index below `chains * edges` is that of one chain and one edge.
pub(crate) proof fn lemma_row_index(r: int, edges: int, chains: int) -> (hi: (int, int))
    requires
        0 <= r < chains * edges,
        0 <= edges,
        0 <= chains,
    ensures
        0 <= hi.0 < chains,
        0 <= hi.1 < edges,
        r == hi.0 * edges + hi.1,
{
    assert(edges > 0) by (nonlinear_arith)
        requires
            0 <= r < chains * edges,
            0 <= edges,
    ;
    let h = r / edges;
    let i = r % edges;
    vstd::arithmetic::div_mod::lemma_fundamental_div_mod(r, edges);
    vstd::arithmetic::div_mod::lemma_mod_pos_bound(r, edges);
    vstd::arithmetic::div_mod::lemma_div_pos_is_pos(r, edges);
    assert(edges * h == h * edges) by (nonlinear_arith);
    assert(h < chains) by (nonlinear_arith)
        requires
            r == h * edges + i,
            0 <= i < edges,
            r < chains * edges,
            0 <= h,
    ;
    (h, i)
}

/// The plain solution for `t` meets the equality of chain `h` and edge `i`
/// if chain `h` is `t`.
proof fn lemma_plain_row(p: &Program, mesh: &Mesh, input: Seq<Chain>, t: Seq<i64>, h: int, i: int)
    requires
        p.is_program_of(mesh, input),
        t.len() == mesh.edges@.len(),
        0 <= h < input.len(),
        0 <= i < mesh.edges@.len(),
        input[h].coeff@ == t,
    ensures
        p.row_holds(h * p.layout.edges + i, plain_solution(p.layout, t)),
{
    let l = p.layout;
    let x = plain_solution(l, t);
    lemma_plain_solution(l, t);
    lemma_row_states_decomposition(p, mesh, input, x, h, i);
    assert forall|j: int| 0 <= j < l.triangles implies #[trigger] fill_at(l, x, h, j) == 0real by {}
    lemma_zero_fill(l, mesh.edges@[i], mesh.triangles@, x, h, l.triangles as int);
    assert(median_at(l, x, i) == t[i] as real);
    assert(residual_at(l, x, h, i) == 0real);
}

/// Where all input chains are one chain `t`, the plain solution for `t` is
/// a solution.
pub proof fn lemma_plain_solution_feasible(
    p: &Program,
    mesh: &Mesh,
    input: Seq<Chain>,
    t: Seq<i64>,
)
    requires
        p.is_program_of(mesh, input),
        t.len() == mesh.edges@.len(),
        forall|h: int| 0 <= h < input.len() ==> (#[trigger] input[h]).coeff@ == t,
    ensures
        p.feasible(plain_solution(p.layout, t)),
{
    let l = p.layout;
    let x = plain_solution(l, t);
    lemma_plain_solution(l, t);
    assert forall|r: int| 0 <= r < p.rows@.len() implies #[trigger] p.row_holds(r, x) by {
        let hi = lemma_row_index(r, l.edges as int, l.chains as int);
        assert(input[hi.0].coeff@ == t);
        lemma_plain_row(p, mesh, input, t, hi.0, hi.1);
    }
}

/// Where all input chains are one chain `t`, and the median's mass costs
/// nothing or `t` is zero, `t` is a median: the plain solution for `t` is
/// a solution of least cost, and its cost is zero. So a single input chain
/// is its own median where the median's mass costs nothing, and without
/// input chains the zero chain is a median.
pub proof fn lemma_common_input_is_median(
    p: &Program,
    mesh: &Mesh,
    input: Seq<Chain>,
    wt: Weights,
    t: Seq<i64>,
)
    requires
        p.is_program_of(mesh, input),
        t.len() == mesh.edges@.len(),
        forall|h: int| 0 <= h < input.len() ==> (#[trigger] input[h]).coeff@ == t,
        wt.fits(p.layout),
        wt.nonnegative(),
        wt.mu == 0real || forall|i: int| 0 <= i < t.len() ==> #[trigger] t[i] == 0,
    ensures
        p.optimal(wt, plain_solution(p.layout, t)),
        p.objective(wt, plain_solution(p.layout, t)) == 0real,
{
    let l = p.layout;
    let x = plain_solution(l, t);
    lemma_plain_solution(l, t);
    lemma_plain_solution_feasible(p, mesh, input, t);
    lemma_objective_without_decomposition(p, wt, x);
    let tm = mass(wt.lengths, x, 0, l.edges as int);
    if wt.mu == 0real {
        assert(0real * tm == 0real) by (nonlinear_arith);
    } else {
        assert forall|k: int| 0 <= k < 0 + 2 * l.edges implies #[trigger] x[k] == 0real by {
            assert(t[k / 2] == 0);
        }
        lemma_mass_zero(wt.lengths, x, 0, l.edges as int);
        let mu = wt.mu;
        assert(mu * 0real == 0real) by (nonlinear_arith);
    }
    assert forall|y: Seq<real>| #[trigger] p.feasible(y) implies p.objective(wt, x) <= p.objective(
        wt,
        y,
    ) by {
        lemma_objective_nonnegative(p, wt, y);
    }
}

/// The values at which the median is zero, the residual of every input
/// chain is the chain reversed, and every fill is zero.
pub open spec fn residual_solution(l: Layout, input: Seq<Chain>) -> Seq<real> {
    Seq::new(
        l.total() as nat,
        |k: int|
            {
                let within = (k - 2 * l.edges) % l.block();
                let h = (k - 2 * l.edges) / l.block();
                if 2 * l.edges <= k && 0 <= within < 2 * l.edges {
                    if within % 2 == 0 {
                        negative_part(input[h].coeff@[within / 2] as int)
                    } else {
                        positive_part(input[h].coeff@[within / 2] as int)
                    }
                } else {
                    0real
                }
            },
    )
}

/// What is read off the residual solution.
proof fn lemma_residual_solution(l: Layout, input: Seq<Chain>, h: int, i: int)
    requires
        l.fits(),
        0 <= h < l.chains,
        0 <= i < l.edges,
    ensures
        median_at(l, residual_solution(l, input), i) == 0real,
        residual_at(l, residual_solution(l, input), h, i) == -(input[h].coeff@[i] as real),
        forall|j: int|
            0 <= j < l.triangles ==> #[trigger] fill_at(l, residual_solution(l, input), h, j)
                == 0real,
{
    let x = residual_solution(l, input);
    let b = l.block();
    l.lemma_block_bound(h);
    assert(h * b == b * h) by (nonlinear_arith);
    vstd::arithmetic::div_mod::lemma_fundamental_div_mod_converse(h * b + 2 * i, b, h, 2 * i);
    vstd::arithmetic::div_mod::lemma_fundamental_div_mod_converse(
        h * b + 2 * i + 1,
        b,
        h,
        2 * i + 1,
    );
    assert(x[l.r_plus_at(h, i)] == negative_part(input[h].coeff@[i] as int));
    assert(x[l.r_minus_at(h, i)] == positive_part(input[h].coeff@[i] as int));
    assert forall|j: int| 0 <= j < l.triangles implies #[trigger] fill_at(l, x, h, j) == 0real by {
        vstd::arithmetic::div_mod::lemma_fundamental_div_mod_converse(
            h * b + 2 * l.edges + 2 * j,
            b,
            h,
            2 * l.edges + 2 * j,
        );
        vstd::arithmetic::div_mod::lemma_fundamental_div_mod_converse(
            h * b + 2 * l.edges + 2 * j + 1,
            b,
            h,
            2 * l.edges + 2 * j + 1,
        );
    }
}

/// The values of the residual solution are not negative.
proof fn lemma_residual_solution_nonnegative(l: Layout, input: Seq<Chain>, k: int)
    requires
        0 <= k < l.total(),
    ensures
        residual_solution(l, input)[k] >= 0real,
{
}

/// Every median program has a solution: the residual solution meets all
/// its equalities. So no median program is infeasible.
pub proof fn lemma_feasible(p: &Program, mesh: &Mesh, input: Seq<Chain>)
    requires
        p.is_program_of(mesh, input),
    ensures
        p.feasible(residual_solution(p.layout, input)),
{
    let l = p.layout;
    let x = residual_solution(l, input);
    assert forall|k: int| 0 <= k < x.len() implies #[trigger] x[k] >= 0real by {
        lemma_residual_solution_nonnegative(l, input, k);
    }
    assert forall|r: int| 0 <= r < p.rows@.len() implies #[trigger] p.row_holds(r, x) by {
        let hi = lemma_row_index(r, l.edges as int, l.chains as int);
        let h = hi.0;
        let i = hi.1;
        lemma_residual_solution(l, input, h, i);
        lemma_row_states_decomposition(p, mesh, input, x, h, i);
        lemma_zero_fill(l, mesh.edges@[i], mesh.triangles@, x, h, l.triangles as int);
    }
}

} // verus!
