use good_lp::{
    default_solver, variable, Expression, ProblemVariables, Solution, SolverModel, Variable,
};
use median_shape::{assemble, Boundary, Chain, Cost, Mesh, Program, WeightSign};

const EPS: f64 = 1e-6;

struct Weights {
    lengths: Vec<f64>,
    areas: Vec<f64>,
    alpha: Vec<f64>,
    mu: f64,
    lambda: f64,
}

struct Outcome {
    values: Vec<f64>,
    median: Vec<f64>,
    residuals: Vec<Vec<f64>>,
    fills: Vec<Vec<f64>>,
}

fn cost_of(c: &Cost, w: &Weights) -> f64 {
    match *c {
        Cost::Median { edge } => w.mu * w.lengths[edge],
        Cost::Residual { chain, edge } => w.alpha[chain] * w.lengths[edge],
        Cost::Fill { chain, triangle } => w.alpha[chain] * w.lambda * w.areas[triangle],
    }
}

fn clean(v: f64) -> f64 {
    if v.abs() > EPS {
        v
    } else {
        0.0
    }
}

// Hands the program to the solver and reads the chains off its answer.
fn solve(p: &Program, w: &Weights) -> Outcome {
    let mut problem = ProblemVariables::new();
    let vars: Vec<Variable> = (0..p.costs.len())
        .map(|_| problem.add(variable().min(0.0)))
        .collect();
    let mut objective = Expression::from(0.0);
    for (k, c) in p.costs.iter().enumerate() {
        objective.add_mul(cost_of(c, w), vars[k]);
    }
    let mut model = problem.minimise(objective).using(default_solver);
    for row in p.rows.iter() {
        let mut lhs = Expression::from(0.0);
        for t in row.terms.iter() {
            lhs.add_mul(t.coeff as f64, vars[t.var]);
        }
        model = model.with(lhs.eq(row.rhs as f64));
    }
    let solution = model.solve().unwrap();
    let values: Vec<f64> = vars.iter().map(|x| solution.value(*x)).collect();
    let l = p.layout;
    let median = (0..l.edges)
        .map(|i| clean(values[l.t_plus(i)] - values[l.t_minus(i)]))
        .collect();
    let residuals = (0..l.chains)
        .map(|h| {
            (0..l.edges)
                .map(|i| clean(values[l.r_plus(h, i)] - values[l.r_minus(h, i)]))
                .collect()
        })
        .collect();
    let fills = (0..l.chains)
        .map(|h| {
            (0..l.triangles)
                .map(|j| clean(values[l.s_plus(h, j)] - values[l.s_minus(h, j)]))
                .collect()
        })
        .collect();
    Outcome { values, median, residuals, fills }
}

fn close(a: &[f64], b: &[f64]) -> bool {
    a.len() == b.len() && a.iter().zip(b.iter()).all(|(x, y)| (x - y).abs() < 1e-5)
}

// The unit square in the plane y = 0, cut along the diagonal from 0 to 2.
// Its edges are (0,1), (0,2), (1,2), (0,3), (2,3).
fn square() -> (Mesh, Vec<f64>, Vec<f64>) {
    let mut mesh = Mesh::new(4);
    assert_eq!(mesh.add_face(0, 1, 2), Ok(()));
    assert_eq!(mesh.add_face(0, 2, 3), Ok(()));
    let lengths = vec![1.0, 2f64.sqrt(), 1.0, 1.0, 1.0];
    let areas = vec![0.5, 0.5];
    (mesh, lengths, areas)
}

fn chain_with<'a>(mesh: &'a Mesh, coeff: Vec<i64>) -> Chain<'a> {
    let mut chain = Chain::zero(1, mesh);
    chain.coeff = coeff;
    chain
}

fn as_reals(coeff: &[i64]) -> Vec<f64> {
    coeff.iter().map(|c| *c as f64).collect()
}

// The flat decomposition on every edge: median - input = residual + boundary
// of the fill.
fn decomposes(mesh: &Mesh, input: &[Chain], out: &Outcome) -> bool {
    let b = Boundary::of(mesh).unwrap();
    for (h, chain) in input.iter().enumerate() {
        for i in 0..b.rows {
            let mut rhs = out.residuals[h][i];
            for j in 0..b.cols {
                rhs += b.entry(i, j) as f64 * out.fills[h][j];
            }
            let lhs = out.median[i] - chain.coeff[i] as f64;
            if (lhs - rhs).abs() > 1e-5 {
                return false;
            }
        }
    }
    true
}

#[test]
fn single_input_is_its_own_median() {
    let (mesh, lengths, areas) = square();
    let t = vec![1, 0, 1, 0, 0];
    let input = vec![chain_with(&mesh, t.clone())];
    let p = assemble(&mesh, &input, &vec![WeightSign::Positive]).unwrap();
    let w = Weights { lengths, areas, alpha: vec![1.0], mu: 0.0, lambda: 0.0 };
    let out = solve(&p, &w);
    assert!(close(&out.median, &as_reals(&t)));
    assert!(close(&out.residuals[0], &[0.0; 5]));
    assert!(close(&out.fills[0], &[0.0; 2]));
}

#[test]
fn single_input_is_its_own_median_when_fills_cost() {
    let (mesh, lengths, areas) = square();
    let t = vec![0, -1, 0, 2, 0];
    let input = vec![chain_with(&mesh, t.clone())];
    let p = assemble(&mesh, &input, &vec![WeightSign::Positive]).unwrap();
    let w = Weights { lengths, areas, alpha: vec![3.0], mu: 0.0, lambda: 1.0 };
    let out = solve(&p, &w);
    assert!(close(&out.median, &as_reals(&t)));
    assert!(close(&out.residuals[0], &[0.0; 5]));
    assert!(close(&out.fills[0], &[0.0; 2]));
}

#[test]
fn median_of_two_identical_chains_is_the_chain() {
    let (mesh, lengths, areas) = square();
    let t = vec![0, 1, 0, 0, 1];
    let input = vec![chain_with(&mesh, t.clone()), chain_with(&mesh, t.clone())];
    let p = assemble(&mesh, &input, &vec![WeightSign::Positive; 2]).unwrap();
    let w = Weights { lengths, areas, alpha: vec![0.5, 0.5], mu: 0.0, lambda: 0.0 };
    let out = solve(&p, &w);
    assert!(close(&out.median, &as_reals(&t)));
    for h in 0..2 {
        assert!(close(&out.residuals[h], &[0.0; 5]));
        assert!(close(&out.fills[h], &[0.0; 2]));
    }
}

#[test]
fn solution_satisfies_the_flat_decomposition() {
    let (mesh, lengths, areas) = square();
    let input = vec![
        chain_with(&mesh, vec![1, 0, 1, 0, 0]),
        chain_with(&mesh, vec![0, 1, 0, 0, 0]),
        chain_with(&mesh, vec![0, 0, 0, -1, -1]),
    ];
    let p = assemble(&mesh, &input, &vec![WeightSign::Positive; 3]).unwrap();
    let w = Weights {
        lengths,
        areas,
        alpha: vec![0.2, 0.3, 0.5],
        mu: 1e-3,
        lambda: 1e-2,
    };
    let out = solve(&p, &w);
    assert!(decomposes(&mesh, &input, &out));
}

#[test]
fn solution_has_no_negative_value() {
    let (mesh, lengths, areas) = square();
    let input = vec![
        chain_with(&mesh, vec![1, 0, 1, 0, 0]),
        chain_with(&mesh, vec![0, 0, 0, -1, -1]),
    ];
    let p = assemble(&mesh, &input, &vec![WeightSign::Positive; 2]).unwrap();
    let w = Weights { lengths, areas, alpha: vec![0.5, 0.5], mu: 1e-5, lambda: 1e-5 };
    let out = solve(&p, &w);
    assert_eq!(out.values.len(), p.layout.len());
    for v in out.values.iter() {
        assert!(*v >= -EPS);
    }
    let l = p.layout;
    for i in 0..l.edges {
        let difference = out.values[l.t_plus(i)] - out.values[l.t_minus(i)];
        if out.median[i] != 0.0 {
            assert_eq!(out.median[i] > 0.0, difference > 0.0);
        } else {
            assert!(difference.abs() <= EPS);
        }
    }
}

#[test]
fn planar_median_is_the_shorter_path() {
    // Two paths from vertex 0 to vertex 2: along the sides over vertex 1,
    // and along the diagonal. They bracket the first triangle.
    let (mesh, lengths, areas) = square();
    let sides = vec![1, 0, 1, 0, 0];
    let diagonal = vec![0, 1, 0, 0, 0];
    let input = vec![chain_with(&mesh, sides), chain_with(&mesh, diagonal.clone())];
    let p = assemble(&mesh, &input, &vec![WeightSign::Positive; 2]).unwrap();
    let w = Weights { lengths, areas, alpha: vec![0.5, 0.5], mu: 1e-5, lambda: 1e-5 };
    let out = solve(&p, &w);
    assert!(close(&out.median, &as_reals(&diagonal)));
    // The first triangle fills the gap between the sides and the median,
    // nothing lies between the diagonal and the median.
    assert!(close(&out.residuals[0], &[0.0; 5]));
    assert!(close(&out.residuals[1], &[0.0; 5]));
    assert!(close(&out.fills[0], &[-1.0, 0.0]));
    assert!(close(&out.fills[1], &[0.0, 0.0]));
    assert!(decomposes(&mesh, &input, &out));
}

#[test]
fn scaling_the_weights_keeps_the_median() {
    let (mesh, lengths, areas) = square();
    let input = vec![
        chain_with(&mesh, vec![1, 0, 1, 0, 0]),
        chain_with(&mesh, vec![0, 1, 0, 0, 0]),
        chain_with(&mesh, vec![0, 1, 0, 0, 0]),
    ];
    let p = assemble(&mesh, &input, &vec![WeightSign::Positive; 3]).unwrap();
    let small = Weights {
        lengths: lengths.clone(),
        areas: areas.clone(),
        alpha: vec![0.2, 0.4, 0.4],
        mu: 0.0,
        lambda: 0.5,
    };
    let large = Weights { lengths, areas, alpha: vec![1.4, 2.8, 2.8], mu: 0.0, lambda: 0.5 };
    let a = solve(&p, &small);
    let b = solve(&p, &large);
    assert!(close(&a.median, &b.median));
    assert!(close(&a.median, &[0.0, 1.0, 0.0, 0.0, 0.0]));
}

#[test]
fn heavy_median_mass_pulls_the_median_to_zero() {
    let (mesh, lengths, areas) = square();
    let input = vec![chain_with(&mesh, vec![1, 0, 1, 0, 0])];
    let p = assemble(&mesh, &input, &vec![WeightSign::Positive]).unwrap();
    let w = Weights { lengths, areas, alpha: vec![1.0], mu: 100.0, lambda: 1.0 };
    let out = solve(&p, &w);
    assert!(close(&out.median, &[0.0; 5]));
    assert!(decomposes(&mesh, &input, &out));
}

#[test]
fn problem_without_chains_has_the_zero_median() {
    let (mesh, lengths, areas) = square();
    let p = assemble(&mesh, &vec![], &vec![]).unwrap();
    let w = Weights { lengths, areas, alpha: vec![], mu: 1.0, lambda: 1.0 };
    let out = solve(&p, &w);
    assert!(close(&out.median, &[0.0; 5]));
    assert!(out.residuals.is_empty());
    assert!(out.fills.is_empty());
}
