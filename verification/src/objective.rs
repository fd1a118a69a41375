//! What the median program minimises, and what follows for its minima.
//!
//! The weights of the problem are real numbers that the library never
//! computes with: the lengths of the edges, the areas of the triangles, the
//! weights of the input chains and the two scales. Here they stand in
//! specifications only.

use crate::layout::Layout;
use crate::program::{costs_match, Cost, Program};
use vstd::prelude::*;

verus! {

/// The real weights of a median problem.
pub struct Weights {
    /// The length of each edge.
    pub lengths: Seq<real>,
    /// The area of each triangle.
    pub areas: Seq<real>,
    /// The weight of each input chain.
    pub alpha: Seq<real>,
    /// The scale of the median's mass.
    pub mu: real,
    /// The scale of the fills' area.
    pub lambda: real,
}

impl Weights {
    /// There is one length for each edge, one area for each triangle and one
    /// weight for each chain of the layout.
    pub open spec fn fits(self, l: Layout) -> bool {
        self.lengths.len() == l.edges && self.areas.len() == l.triangles && self.alpha.len()
            == l.chains
    }

    /// No weight is negative.
    pub open spec fn nonnegative(self) -> bool {
        &&& self.mu >= 0real
        &&& self.lambda >= 0real
        &&& forall|i: int| 0 <= i < self.lengths.len() ==> #[trigger] self.lengths[i] >= 0real
        &&& forall|j: int| 0 <= j < self.areas.len() ==> #[trigger] self.areas[j] >= 0real
        &&& forall|h: int| 0 <= h < self.alpha.len() ==> #[trigger] self.alpha[h] >= 0real
    }

    /// The same weights with the weight of every input chain multiplied by
    /// `c`.
    pub open spec fn with_alpha_scaled(self, c: real) -> Weights {
        Weights {
            lengths: self.lengths,
            areas: self.areas,
            alpha: Seq::new(self.alpha.len(), |h: int| c * self.alpha[h]),
            mu: self.mu,
            lambda: self.lambda,
        }
    }
}

/// The cost of one unit of an unknown.
pub open spec fn cost_value(c: Cost, wt: Weights) -> real {
    match c {
        Cost::Median { edge } => wt.mu * wt.lengths[edge as int],
        Cost::Residual { chain, edge } => wt.alpha[chain as int] * wt.lengths[edge as int],
        Cost::Fill { chain, triangle } => wt.alpha[chain as int] * wt.lambda
            * wt.areas[triangle as int],
    }
}

/// The cost of the values `x` of the unknowns before `upto`, each unknown
/// at the cost that `costs` names for it.
pub open spec fn cost_upto(costs: Seq<Cost>, wt: Weights, x: Seq<real>, upto: int) -> real
    decreases upto,
{
    if upto <= 0 {
        0real
    } else {
        cost_upto(costs, wt, x, upto - 1) + cost_value(costs[upto - 1], wt) * x[upto - 1]
    }
}

/// The weighted mass of a chain whose parts are the unknowns from `first`
/// on, over its simplices before `upto`: for each simplex its weight times
/// the sum of the positive and the negative part of its coefficient.
pub open spec fn mass(weights: Seq<real>, x: Seq<real>, first: int, upto: int) -> real
    decreases upto,
{
    if upto <= 0 {
        0real
    } else {
        mass(weights, x, first, upto - 1) + weights[upto - 1] * (x[first + 2 * (upto - 1)] + x[first
            + 2 * (upto - 1) + 1])
    }
}

/// The flat distance that the decomposition for input chain `h` measures:
/// the length of its residual plus the scaled area of its fill.
pub open spec fn flat_cost(l: Layout, wt: Weights, x: Seq<real>, h: int) -> real {
    mass(wt.lengths, x, l.base(h), l.edges as int) + wt.lambda * mass(
        wt.areas,
        x,
        l.base(h) + 2 * l.edges,
        l.triangles as int,
    )
}

/// The weighted flat costs of the input chains before `upto`.
pub open spec fn flat_costs(l: Layout, wt: Weights, x: Seq<real>, upto: int) -> real
    decreases upto,
{
    if upto <= 0 {
        0real
    } else {
        flat_costs(l, wt, x, upto - 1) + wt.alpha[upto - 1] * flat_cost(l, wt, x, upto - 1)
    }
}

/// The median objective: the scaled length of the median plus the weighted
/// flat costs of all input chains.
pub open spec fn median_objective(l: Layout, wt: Weights, x: Seq<real>) -> real {
    wt.mu * mass(wt.lengths, x, 0, l.edges as int) + flat_costs(l, wt, x, l.chains as int)
}

impl Program {
    /// What the program minimises, at the values `x`.
    pub open spec fn objective(&self, wt: Weights, x: Seq<real>) -> real {
        cost_upto(self.costs@, wt, x, self.costs@.len() as int)
    }

    /// The values `x` are a solution of least cost.
    pub open spec fn optimal(&self, wt: Weights, x: Seq<real>) -> bool {
        &&& self.feasible(x)
        &&& forall|y: Seq<real>| #[trigger]
            self.feasible(y) ==> self.objective(wt, x) <= self.objective(wt, y)
    }
}

/// Over a run of unknowns that are the parts of one chain, each at the cost
/// `c` times the weight of its simplex, the cost is `c` times the mass.
proof fn lemma_cost_of_run(
    costs: Seq<Cost>,
    wt: Weights,
    x: Seq<real>,
    weights: Seq<real>,
    c: real,
    first: int,
    upto: int,
)
    requires
        0 <= first,
        0 <= upto,
        forall|i: int|
            0 <= i < upto ==> cost_value(#[trigger] costs[first + 2 * i], wt) == c * weights[i],
        forall|i: int|
            0 <= i < upto ==> cost_value(#[trigger] costs[first + 2 * i + 1], wt) == c * weights[i],
    ensures
        cost_upto(costs, wt, x, first + 2 * upto) == cost_upto(costs, wt, x, first) + c * mass(
            weights,
            x,
            first,
            upto,
        ),
    decreases upto,
{
    if upto <= 0 {
        assert(c * 0real == 0real) by (nonlinear_arith);
    } else {
        let i = upto - 1;
        lemma_cost_of_run(costs, wt, x, weights, c, first, i);
        let a = x[first + 2 * i];
        let b = x[first + 2 * i + 1];
        let w = weights[i];
        let before = mass(weights, x, first, i);
        assert(cost_value(costs[first + 2 * i], wt) == c * w);
        assert(cost_value(costs[first + 2 * i + 1], wt) == c * w);
        assert(cost_upto(costs, wt, x, first + 2 * i + 1) == cost_upto(
            costs,
            wt,
            x,
            first + 2 * i,
        ) + (c * w) * a);
        assert(cost_upto(costs, wt, x, first + 2 * i + 2) == cost_upto(
            costs,
            wt,
            x,
            first + 2 * i + 1,
        ) + (c * w) * b);
        assert(c * before + (c * w) * a + (c * w) * b == c * (before + w * (a + b)))
            by (nonlinear_arith);
    }
}

/// The cost of the unknowns up to the end of the block of chain `upto - 1`
/// is the scaled length of the median plus the weighted flat costs of the
/// chains before `upto`.
proof fn lemma_cost_of_blocks(p: &Program, wt: Weights, x: Seq<real>, upto: int)
    requires
        p.layout.fits(),
        costs_match(p.layout, p.costs@),
        0 <= upto <= p.layout.chains,
    ensures
        cost_upto(p.costs@, wt, x, p.layout.base(upto)) == wt.mu * mass(
            wt.lengths,
            x,
            0,
            p.layout.edges as int,
        ) + flat_costs(p.layout, wt, x, upto),
    decreases upto,
{
    let l = p.layout;
    let costs = p.costs@;
    let m = l.edges as int;
    let n = l.triangles as int;
    if upto == 0 {
        assert(l.base(0) == 2 * m) by (nonlinear_arith)
            requires
                l.base(0) == 2 * m + 0 * l.block(),
        ;
        assert forall|i: int| 0 <= i < m implies cost_value(#[trigger] costs[0 + 2 * i], wt)
            == wt.mu * wt.lengths[i] by {
            assert(costs[l.t_plus_at(i)] == Cost::Median { edge: i as usize });
        }
        assert forall|i: int| 0 <= i < m implies cost_value(#[trigger] costs[0 + 2 * i + 1], wt)
            == wt.mu * wt.lengths[i] by {
            assert(costs[l.t_minus_at(i)] == Cost::Median { edge: i as usize });
        }
        lemma_cost_of_run(costs, wt, x, wt.lengths, wt.mu, 0, m);
        assert(cost_upto(costs, wt, x, 0) == 0real);
    } else {
        let h = upto - 1;
        lemma_cost_of_blocks(p, wt, x, h);
        l.lemma_block_bound(h);
        let start = l.base(h);
        let a = wt.alpha[h];
        assert forall|i: int| 0 <= i < m implies cost_value(#[trigger] costs[start + 2 * i], wt)
            == a * wt.lengths[i] by {
            assert(costs[l.r_plus_at(h, i)] == Cost::Residual {
                chain: h as usize,
                edge: i as usize,
            });
        }
        assert forall|i: int| 0 <= i < m implies cost_value(
            #[trigger] costs[start + 2 * i + 1],
            wt,
        ) == a * wt.lengths[i] by {
            assert(costs[l.r_minus_at(h, i)] == Cost::Residual {
                chain: h as usize,
                edge: i as usize,
            });
        }
        lemma_cost_of_run(costs, wt, x, wt.lengths, a, start, m);
        let mid = start + 2 * m;
        assert forall|j: int| 0 <= j < n implies cost_value(#[trigger] costs[mid + 2 * j], wt) == (a
            * wt.lambda) * wt.areas[j] by {
            assert(costs[l.s_plus_at(h, j)] == Cost::Fill {
                chain: h as usize,
                triangle: j as usize,
            });
        }
        assert forall|j: int| 0 <= j < n implies cost_value(#[trigger] costs[mid + 2 * j + 1], wt)
            == (a * wt.lambda) * wt.areas[j] by {
            assert(costs[l.s_minus_at(h, j)] == Cost::Fill {
                chain: h as usize,
                triangle: j as usize,
            });
        }
        lemma_cost_of_run(costs, wt, x, wt.areas, a * wt.lambda, mid, n);
        assert(mid + 2 * n == l.base(upto));
        let mr = mass(wt.lengths, x, start, m);
        let ms = mass(wt.areas, x, mid, n);
        assert(a * mr + (a * wt.lambda) * ms == a * (mr + wt.lambda * ms)) by (nonlinear_arith);
    }
}

/// The program's objective is the median objective: the cost that the
/// program names for each unknown adds up to the scaled length of the
/// median plus the weighted flat costs of the input chains.
pub proof fn lemma_objective_is_median_objective(p: &Program, wt: Weights, x: Seq<real>)
    requires
        p.layout.fits(),
        costs_match(p.layout, p.costs@),
    ensures
        p.objective(wt, x) == median_objective(p.layout, wt, x),
{
    lemma_cost_of_blocks(p, wt, x, p.layout.chains as int);
}

/// Multiplying the weights of all input chains by `c` multiplies their
/// weighted flat costs by `c`.
proof fn lemma_flat_costs_scaled(l: Layout, wt: Weights, c: real, x: Seq<real>, upto: int)
    requires
        0 <= upto <= wt.alpha.len(),
    ensures
        flat_costs(l, wt.with_alpha_scaled(c), x, upto) == c * flat_costs(l, wt, x, upto),
    decreases upto,
{
    let scaled = wt.with_alpha_scaled(c);
    if upto <= 0 {
        assert(c * 0real == 0real) by (nonlinear_arith);
    } else {
        let h = upto - 1;
        lemma_flat_costs_scaled(l, wt, c, x, h);
        let f = flat_cost(l, wt, x, h);
        assert(flat_cost(l, scaled, x, h) == f);
        let a = wt.alpha[h];
        assert(scaled.alpha[h] == c * a);
        let before = flat_costs(l, wt, x, h);
        assert(c * before + (c * a) * f == c * (before + a * f)) by (nonlinear_arith);
    }
}

/// Where the median's mass costs nothing, multiplying the weights of all
/// input chains by `c` multiplies the objective by `c`.
pub proof fn lemma_objective_scaled(p: &Program, wt: Weights, c: real, x: Seq<real>)
    requires
        p.layout.fits(),
        costs_match(p.layout, p.costs@),
        wt.alpha.len() == p.layout.chains,
        wt.mu == 0real,
    ensures
        p.objective(wt.with_alpha_scaled(c), x) == c * p.objective(wt, x),
{
    let l = p.layout;
    let scaled = wt.with_alpha_scaled(c);
    lemma_objective_is_median_objective(p, wt, x);
    lemma_objective_is_median_objective(p, scaled, x);
    lemma_flat_costs_scaled(l, wt, c, x, l.chains as int);
    let t = mass(wt.lengths, x, 0, l.edges as int);
    let f = flat_costs(l, wt, x, l.chains as int);
    assert(0real * t + c * f == c * (0real * t + f)) by (nonlinear_arith);
}

/// Weight scaling: where the median's mass costs nothing, multiplying the
/// weight of every input chain by one positive number leaves the solutions
/// of least cost, and so the medians that are read off them, as they were.
pub proof fn lemma_weight_scaling(p: &Program, wt: Weights, c: real, x: Seq<real>)
    requires
        p.layout.fits(),
        costs_match(p.layout, p.costs@),
        wt.alpha.len() == p.layout.chains,
        wt.mu == 0real,
        c > 0real,
    ensures
        p.optimal(wt, x) <==> p.optimal(wt.with_alpha_scaled(c), x),
{
    let scaled = wt.with_alpha_scaled(c);
    lemma_objective_scaled(p, wt, c, x);
    let ox = p.objective(wt, x);
    assert forall|y: Seq<real>| #[trigger] p.feasible(y) implies (ox <= p.objective(wt, y)
        <==> p.objective(scaled, x) <= p.objective(scaled, y)) by {
        lemma_objective_scaled(p, wt, c, y);
        let oy = p.objective(wt, y);
        assert((ox <= oy) <==> (c * ox <= c * oy)) by (nonlinear_arith)
            requires
                c > 0real,
        ;
    }
}

/// The mass of a chain whose parts are not negative, with weights that are
/// not negative, is not negative.
pub proof fn lemma_mass_nonnegative(weights: Seq<real>, x: Seq<real>, first: int, upto: int)
    requires
        0 <= first,
        0 <= upto <= weights.len(),
        first + 2 * upto <= x.len(),
        forall|i: int| 0 <= i < weights.len() ==> #[trigger] weights[i] >= 0real,
        forall|k: int| 0 <= k < x.len() ==> #[trigger] x[k] >= 0real,
    ensures
        mass(weights, x, first, upto) >= 0real,
    decreases upto,
{
    if upto > 0 {
        let i = upto - 1;
        lemma_mass_nonnegative(weights, x, first, i);
        let a = x[first + 2 * i];
        let b = x[first + 2 * i + 1];
        let w = weights[i];
        assert(w * (a + b) >= 0real) by (nonlinear_arith)
            requires
                w >= 0real,
                a >= 0real,
                b >= 0real,
        ;
    }
}

/// The mass of a chain whose parts are all zero is zero.
pub proof fn lemma_mass_zero(weights: Seq<real>, x: Seq<real>, first: int, upto: int)
    requires
        0 <= first,
        0 <= upto,
        forall|k: int| first <= k < first + 2 * upto ==> #[trigger] x[k] == 0real,
    ensures
        mass(weights, x, first, upto) == 0real,
    decreases upto,
{
    if upto > 0 {
        let i = upto - 1;
        lemma_mass_zero(weights, x, first, i);
        let w = weights[i];
        assert(x[first + 2 * i] == 0real);
        assert(x[first + 2 * i + 1] == 0real);
        assert(w * (0real + 0real) == 0real) by (nonlinear_arith);
    }
}

/// With weights that are not negative, the weighted flat costs of values
/// that are not negative are not negative.
proof fn lemma_flat_costs_nonnegative(l: Layout, wt: Weights, x: Seq<real>, upto: int)
    requires
        l.fits(),
        wt.fits(l),
        wt.nonnegative(),
        x.len() == l.total(),
        forall|k: int| 0 <= k < x.len() ==> #[trigger] x[k] >= 0real,
        0 <= upto <= l.chains,
    ensures
        flat_costs(l, wt, x, upto) >= 0real,
    decreases upto,
{
    if upto > 0 {
        let h = upto - 1;
        lemma_flat_costs_nonnegative(l, wt, x, h);
        l.lemma_block_bound(h);
        lemma_mass_nonnegative(wt.lengths, x, l.base(h), l.edges as int);
        lemma_mass_nonnegative(wt.areas, x, l.base(h) + 2 * l.edges, l.triangles as int);
        let mr = mass(wt.lengths, x, l.base(h), l.edges as int);
        let ms = mass(wt.areas, x, l.base(h) + 2 * l.edges, l.triangles as int);
        let a = wt.alpha[h];
        let lam = wt.lambda;
        assert(a * (mr + lam * ms) >= 0real) by (nonlinear_arith)
            requires
                a >= 0real,
                lam >= 0real,
                mr >= 0real,
                ms >= 0real,
        ;
    }
}

/// With weights that are not negative, no solution has a negative cost.
pub proof fn lemma_objective_nonnegative(p: &Program, wt: Weights, x: Seq<real>)
    requires
        p.layout.fits(),
        costs_match(p.layout, p.costs@),
        wt.fits(p.layout),
        wt.nonnegative(),
        p.feasible(x),
    ensures
        p.objective(wt, x) >= 0real,
{
    let l = p.layout;
    lemma_objective_is_median_objective(p, wt, x);
    lemma_flat_costs_nonnegative(l, wt, x, l.chains as int);
    assert(0 <= l.chains * l.block()) by (nonlinear_arith)
        requires
            0 <= l.chains,
            0 <= l.block(),
    ;
    lemma_mass_nonnegative(wt.lengths, x, 0, l.edges as int);
    let t = mass(wt.lengths, x, 0, l.edges as int);
    let mu = wt.mu;
    assert(mu * t >= 0real) by (nonlinear_arith)
        requires
            mu >= 0real,
            t >= 0real,
    ;
}

/// Where every residual and every fill is zero, the cost is the scaled
/// length of the median.
pub proof fn lemma_objective_without_decomposition(p: &Program, wt: Weights, x: Seq<real>)
    requires
        p.layout.fits(),
        costs_match(p.layout, p.costs@),
        forall|k: int| 2 * p.layout.edges <= k < p.layout.total() ==> #[trigger] x[k] == 0real,
    ensures
        p.objective(wt, x) == wt.mu * mass(wt.lengths, x, 0, p.layout.edges as int),
{
    lemma_objective_is_median_objective(p, wt, x);
    lemma_flat_costs_zero(p.layout, wt, x, p.layout.chains as int);
}

/// Where every residual and every fill is zero, the weighted flat costs are
/// zero.
pub proof fn lemma_flat_costs_zero(l: Layout, wt: Weights, x: Seq<real>, upto: int)
    requires
        l.fits(),
        0 <= upto <= l.chains,
        forall|k: int| 2 * l.edges <= k < l.total() ==> #[trigger] x[k] == 0real,
    ensures
        flat_costs(l, wt, x, upto) == 0real,
    decreases upto,
{
    if upto > 0 {
        let h = upto - 1;
        lemma_flat_costs_zero(l, wt, x, h);
        l.lemma_block_bound(h);
        lemma_mass_zero(wt.lengths, x, l.base(h), l.edges as int);
        lemma_mass_zero(wt.areas, x, l.base(h) + 2 * l.edges, l.triangles as int);
        let a = wt.alpha[h];
        let lam = wt.lambda;
        assert(a * (0real + lam * 0real) == 0real) by (nonlinear_arith);
    }
}

} // verus!
