//! What a heavy cost of the median's mass does: where one unit of the
//! median's mass costs at least what it costs to leave it to all the
//! residuals, the median may as well be zero.

use crate::chain::Chain;
use crate::layout::Layout;
use crate::mesh::Mesh;
use crate::objective::{
    flat_cost, flat_costs, lemma_mass_nonnegative, lemma_mass_zero,
    lemma_objective_is_median_objective, mass, Weights,
};
use crate::program::Program;
use crate::simplex::{Edge, Triangle};
use crate::solution::{
    fill_at, fill_boundary_at, lemma_row_states_decomposition, median_at, residual_at,
};
use vstd::prelude::*;

verus! {

/// The sum of the weights of the input chains before `upto`.
pub open spec fn alpha_sum(alpha: Seq<real>, upto: int) -> real
    decreases upto,
{
    if upto <= 0 {
        0real
    } else {
        alpha_sum(alpha, upto - 1) + alpha[upto - 1]
    }
}

/// The values `x` with the median taken out and left to the residuals: the
/// median is zero, and every residual is what it was less the median. The
/// positive part of the median goes to the negative part of each residual
/// and its negative part to the positive part.
pub open spec fn without_median(l: Layout, x: Seq<real>) -> Seq<real> {
    Seq::new(
        l.total() as nat,
        |k: int|
            {
                let within = (k - 2 * l.edges) % l.block();
                if k < 2 * l.edges {
                    0real
                } else if 0 <= within < 2 * l.edges {
                    if within % 2 == 0 {
                        x[k] + x[within + 1]
                    } else {
                        x[k] + x[within - 1]
                    }
                } else {
                    x[k]
                }
            },
    )
}

/// What the values without the median are at the parts of the chains of
/// input chain `h`.
proof fn lemma_without_median(l: Layout, x: Seq<real>, h: int)
    requires
        l.fits(),
        x.len() == l.total(),
        0 <= h < l.chains,
    ensures
        forall|i: int|
            0 <= i < l.edges ==> #[trigger] without_median(l, x)[l.base(h) + 2 * i] == x[l.base(h)
                + 2 * i] + x[2 * i + 1],
        forall|i: int|
            0 <= i < l.edges ==> #[trigger] without_median(l, x)[l.base(h) + 2 * i + 1] == x[l.base(
                h,
            ) + 2 * i + 1] + x[2 * i],
        forall|j: int|
            0 <= j < 2 * l.triangles ==> #[trigger] without_median(l, x)[l.base(h) + 2 * l.edges
                + j] == x[l.base(h) + 2 * l.edges + j],
        forall|k: int| 0 <= k < 2 * l.edges ==> #[trigger] without_median(l, x)[k] == 0real,
{
    let y = without_median(l, x);
    let b = l.block();
    l.lemma_block_bound(h);
    assert(h * b == b * h) by (nonlinear_arith);
    assert forall|i: int| 0 <= i < l.edges implies #[trigger] y[l.base(h) + 2 * i] == x[l.base(h)
        + 2 * i] + x[2 * i + 1] by {
        vstd::arithmetic::div_mod::lemma_fundamental_div_mod_converse(h * b + 2 * i, b, h, 2 * i);
    }
    assert forall|i: int| 0 <= i < l.edges implies #[trigger] y[l.base(h) + 2 * i + 1] == x[l.base(
        h,
    ) + 2 * i + 1] + x[2 * i] by {
        vstd::arithmetic::div_mod::lemma_fundamental_div_mod_converse(
            h * b + 2 * i + 1,
            b,
            h,
            2 * i + 1,
        );
    }
    assert forall|j: int| 0 <= j < 2 * l.triangles implies #[trigger] y[l.base(h) + 2 * l.edges
        + j] == x[l.base(h) + 2 * l.edges + j] by {
        vstd::arithmetic::div_mod::lemma_fundamental_div_mod_converse(
            h * b + 2 * l.edges + j,
            b,
            h,
            2 * l.edges + j,
        );
    }
}

/// The mass of a residual without the median is its mass with the median
/// plus the mass of the median.
proof fn lemma_mass_with_median(
    weights: Seq<real>,
    x: Seq<real>,
    y: Seq<real>,
    first: int,
    upto: int,
)
    requires
        0 <= first,
        0 <= upto,
        forall|i: int|
            0 <= i < upto ==> #[trigger] y[first + 2 * i] == x[first + 2 * i] + x[2 * i + 1],
        forall|i: int|
            0 <= i < upto ==> #[trigger] y[first + 2 * i + 1] == x[first + 2 * i + 1] + x[2 * i],
    ensures
        mass(weights, y, first, upto) == mass(weights, x, first, upto) + mass(weights, x, 0, upto),
    decreases upto,
{
    if upto > 0 {
        let i = upto - 1;
        lemma_mass_with_median(weights, x, y, first, i);
        let w = weights[i];
        let a = x[first + 2 * i];
        let b = x[first + 2 * i + 1];
        let c = x[0 + 2 * i];
        let d = x[0 + 2 * i + 1];
        assert(y[first + 2 * i] == a + d);
        assert(y[first + 2 * i + 1] == b + c);
        assert(w * ((a + d) + (b + c)) == w * (a + b) + w * (c + d)) by (nonlinear_arith);
    }
}

/// Chains with the same parts have the same mass.
proof fn lemma_mass_same(weights: Seq<real>, x: Seq<real>, y: Seq<real>, first: int, upto: int)
    requires
        0 <= first,
        0 <= upto,
        forall|j: int| 0 <= j < 2 * upto ==> #[trigger] y[first + j] == x[first + j],
    ensures
        mass(weights, y, first, upto) == mass(weights, x, first, upto),
    decreases upto,
{
    if upto > 0 {
        let i = upto - 1;
        lemma_mass_same(weights, x, y, first, i);
        assert(y[first + 2 * i] == x[first + 2 * i]);
        assert(y[first + (2 * i + 1)] == x[first + (2 * i + 1)]);
    }
}

/// Without the median, the weighted flat costs are what they were plus the
/// mass of the median at the weight of every input chain.
proof fn lemma_flat_costs_without_median(l: Layout, wt: Weights, x: Seq<real>, upto: int)
    requires
        l.fits(),
        x.len() == l.total(),
        0 <= upto <= l.chains,
    ensures
        flat_costs(l, wt, without_median(l, x), upto) == flat_costs(l, wt, x, upto) + alpha_sum(
            wt.alpha,
            upto,
        ) * mass(wt.lengths, x, 0, l.edges as int),
    decreases upto,
{
    let y = without_median(l, x);
    let m = l.edges as int;
    let n = l.triangles as int;
    let t = mass(wt.lengths, x, 0, m);
    if upto <= 0 {
        assert(0real * t == 0real) by (nonlinear_arith);
    } else {
        let h = upto - 1;
        lemma_flat_costs_without_median(l, wt, x, h);
        lemma_without_median(l, x, h);
        l.lemma_block_bound(h);
        lemma_mass_with_median(wt.lengths, x, y, l.base(h), m);
        lemma_mass_same(wt.areas, x, y, l.base(h) + 2 * m, n);
        let a = wt.alpha[h];
        let f = flat_cost(l, wt, x, h);
        assert(flat_cost(l, wt, y, h) == f + t);
        let s = alpha_sum(wt.alpha, h);
        let before = flat_costs(l, wt, x, h);
        assert((before + s * t) + a * (f + t) == (before + a * f) + (s + a) * t)
            by (nonlinear_arith);
    }
}

/// The boundary of a fill depends on the fill only.
proof fn lemma_same_fill(
    l: Layout,
    e: Edge,
    triangles: Seq<Triangle>,
    x: Seq<real>,
    y: Seq<real>,
    h: int,
    upto: int,
)
    requires
        0 <= upto,
        forall|j: int| 0 <= j < upto ==> #[trigger] fill_at(l, y, h, j) == fill_at(l, x, h, j),
    ensures
        fill_boundary_at(l, e, triangles, y, h, upto) == fill_boundary_at(
            l,
            e,
            triangles,
            x,
            h,
            upto,
        ),
    decreases upto,
{
    if upto > 0 {
        lemma_same_fill(l, e, triangles, x, y, h, upto - 1);
        assert(fill_at(l, y, h, upto - 1) == fill_at(l, x, h, upto - 1));
    }
}

/// With weights that are not negative, the sum of the weights of the input
/// chains is not negative.
proof fn lemma_alpha_sum_nonnegative(alpha: Seq<real>, upto: int)
    requires
        0 <= upto <= alpha.len(),
        forall|h: int| 0 <= h < alpha.len() ==> #[trigger] alpha[h] >= 0real,
    ensures
        alpha_sum(alpha, upto) >= 0real,
    decreases upto,
{
    if upto > 0 {
        lemma_alpha_sum_nonnegative(alpha, upto - 1);
    }
}

/// Taking the median out of a solution gives a solution.
pub proof fn lemma_without_median_feasible(
    p: &Program,
    mesh: &Mesh,
    input: Seq<Chain>,
    x: Seq<real>,
)
    requires
        p.is_program_of(mesh, input),
        p.feasible(x),
    ensures
        p.feasible(without_median(p.layout, x)),
        forall|i: int|
            0 <= i < p.layout.edges ==> #[trigger] median_at(
                p.layout,
                without_median(p.layout, x),
                i,
            ) == 0real,
{
    let l = p.layout;
    let m = l.edges as int;
    let y = without_median(l, x);
    assert(0 <= l.chains * l.block()) by (nonlinear_arith)
        requires
            0 <= l.chains,
            0 <= l.block(),
    ;
    assert forall|i: int| 0 <= i < m implies #[trigger] median_at(l, y, i) == 0real by {
        assert(y[2 * i] == 0real);
        assert(y[2 * i + 1] == 0real);
    }
    assert forall|k: int| 0 <= k < y.len() implies #[trigger] y[k] >= 0real by {
        let within = (k - 2 * m) % l.block();
        if k >= 2 * m && 0 <= within < 2 * m {
            assert(x[k] >= 0real);
            if within % 2 == 0 {
                assert(x[within + 1] >= 0real);
            } else {
                assert(x[within - 1] >= 0real);
            }
        } else if k >= 2 * m {
            assert(x[k] >= 0real);
        }
    }
    assert forall|r: int| 0 <= r < p.rows@.len() implies #[trigger] p.row_holds(r, y) by {
        let hi = crate::plain::lemma_row_index(r, m, l.chains as int);
        let h = hi.0;
        let i = hi.1;
        assert(p.row_holds(h * m + i, x));
        lemma_row_states_decomposition(p, mesh, input, x, h, i);
        lemma_row_states_decomposition(p, mesh, input, y, h, i);
        lemma_without_median(l, x, h);
        l.lemma_block_bound(h);
        assert(y[l.r_plus_at(h, i)] == x[l.r_plus_at(h, i)] + x[2 * i + 1]);
        assert(y[l.r_minus_at(h, i)] == x[l.r_minus_at(h, i)] + x[2 * i]);
        assert(y[2 * i] == 0real);
        assert(y[2 * i + 1] == 0real);
        assert forall|j: int| 0 <= j < l.triangles implies #[trigger] fill_at(l, y, h, j)
            == fill_at(l, x, h, j) by {
            assert(y[l.base(h) + 2 * m + 2 * j] == x[l.base(h) + 2 * m + 2 * j]);
            assert(y[l.base(h) + 2 * m + (2 * j + 1)] == x[l.base(h) + 2 * m + (2 * j + 1)]);
        }
        lemma_same_fill(l, mesh.edges@[i], mesh.triangles@, x, y, h, l.triangles as int);
        assert(median_at(l, y, i) == 0real);
        assert(residual_at(l, y, h, i) == residual_at(l, x, h, i) - median_at(l, x, i));
    }
}

/// A heavy median's mass: where one unit of the median's mass costs at
/// least the sum of the weights of all input chains, every solution has
/// beside it a solution with the zero chain as its median that costs no
/// more. So the zero chain is a median whenever there is one.
pub proof fn lemma_heavy_mass_zero_median(
    p: &Program,
    mesh: &Mesh,
    input: Seq<Chain>,
    wt: Weights,
    x: Seq<real>,
)
    requires
        p.is_program_of(mesh, input),
        p.feasible(x),
        wt.fits(p.layout),
        wt.nonnegative(),
        wt.mu >= alpha_sum(wt.alpha, wt.alpha.len() as int),
    ensures
        p.feasible(without_median(p.layout, x)),
        p.objective(wt, without_median(p.layout, x)) <= p.objective(wt, x),
{
    let l = p.layout;
    let m = l.edges as int;
    let y = without_median(l, x);
    lemma_without_median_feasible(p, mesh, input, x);
    lemma_objective_is_median_objective(p, wt, x);
    lemma_objective_is_median_objective(p, wt, y);
    lemma_flat_costs_without_median(l, wt, x, l.chains as int);
    assert(0 <= l.chains * l.block()) by (nonlinear_arith)
        requires
            0 <= l.chains,
            0 <= l.block(),
    ;
    assert forall|k: int| 0 <= k < 0 + 2 * m implies #[trigger] y[k] == 0real by {}
    lemma_mass_zero(wt.lengths, y, 0, m);
    lemma_mass_nonnegative(wt.lengths, x, 0, m);
    let t = mass(wt.lengths, x, 0, m);
    let s = alpha_sum(wt.alpha, l.chains as int);
    let mu = wt.mu;
    assert(mu * 0real == 0real) by (nonlinear_arith);
    assert(s * t <= mu * t) by (nonlinear_arith)
        requires
            s <= mu,
            t >= 0real,
    ;
}

} // verus!
