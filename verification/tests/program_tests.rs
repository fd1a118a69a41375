use median_shape::{
    assemble, Chain, Cost, InputError, Layout, MedianShape, Mesh, Program, Term, WeightSign,
};

fn triangle_mesh() -> Mesh {
    let mut mesh = Mesh::new(3);
    assert_eq!(mesh.add_face(0, 1, 2), Ok(()));
    mesh
}

fn square_mesh() -> Mesh {
    let mut mesh = Mesh::new(4);
    assert_eq!(mesh.add_face(0, 1, 2), Ok(()));
    assert_eq!(mesh.add_face(0, 2, 3), Ok(()));
    mesh
}

fn chain_on<'a>(mesh: &'a Mesh, coeff: Vec<i64>) -> Chain<'a> {
    let mut chain = Chain::zero(1, mesh);
    chain.coeff = coeff;
    chain
}

fn term(var: usize, coeff: i8) -> Term {
    Term { var, coeff }
}

#[test]
fn layout_numbers_the_median_first() {
    let l = Layout::new(3, 1, 2).unwrap();
    assert_eq!(l.len(), 22);
    assert_eq!(l.t_plus(0), 0);
    assert_eq!(l.t_minus(0), 1);
    assert_eq!(l.t_plus(2), 4);
    assert_eq!(l.t_minus(2), 5);
}

#[test]
fn layout_gives_each_chain_a_block() {
    let l = Layout::new(3, 1, 2).unwrap();
    assert_eq!(l.r_plus(0, 0), 6);
    assert_eq!(l.r_minus(0, 2), 11);
    assert_eq!(l.s_plus(0, 0), 12);
    assert_eq!(l.s_minus(0, 0), 13);
    assert_eq!(l.r_plus(1, 0), 14);
    assert_eq!(l.r_minus(1, 1), 17);
    assert_eq!(l.s_plus(1, 0), 20);
    assert_eq!(l.s_minus(1, 0), 21);
}

#[test]
fn layout_without_chains_has_the_median_only() {
    let l = Layout::new(4, 9, 0).unwrap();
    assert_eq!(l.len(), 8);
}

#[test]
fn layout_that_cannot_be_counted_is_refused() {
    assert_eq!(Layout::new(usize::MAX, 0, 0), None);
    assert_eq!(Layout::new(usize::MAX / 2, 1, 1), None);
    assert_eq!(Layout::new(1, usize::MAX / 2, 2), None);
    assert_eq!(Layout::new(1 << 20, 1 << 20, usize::MAX >> 20), None);
    assert!(Layout::new(usize::MAX / 2, usize::MAX / 2, 0).is_some());
}

#[test]
fn more_weights_than_chains_are_refused() {
    let mesh = triangle_mesh();
    let input = vec![chain_on(&mesh, vec![1, 0, 0]), chain_on(&mesh, vec![0, 1, 0])];
    let alpha = vec![WeightSign::Positive; 3];
    assert_eq!(
        assemble(&mesh, &input, &alpha).err(),
        Some(InputError::CountMismatch { chains: 2, weights: 3 })
    );
}

#[test]
fn fewer_weights_than_chains_are_refused() {
    let mesh = triangle_mesh();
    let input = vec![chain_on(&mesh, vec![1, 0, 0])];
    let alpha = vec![];
    assert_eq!(
        assemble(&mesh, &input, &alpha).err(),
        Some(InputError::CountMismatch { chains: 1, weights: 0 })
    );
}

#[test]
fn negative_weight_is_refused() {
    let mesh = triangle_mesh();
    let input = vec![
        chain_on(&mesh, vec![1, 0, 0]),
        chain_on(&mesh, vec![0, 1, 0]),
        chain_on(&mesh, vec![0, 0, 1]),
    ];
    let alpha = vec![WeightSign::Zero, WeightSign::Negative, WeightSign::Negative];
    assert_eq!(
        assemble(&mesh, &input, &alpha).err(),
        Some(InputError::NegativeWeight { chain: 1 })
    );
}

#[test]
fn chain_of_the_wrong_length_is_refused() {
    let mesh = triangle_mesh();
    let input = vec![chain_on(&mesh, vec![1, 0, 0]), chain_on(&mesh, vec![1, 0])];
    let alpha = vec![WeightSign::Positive; 2];
    assert_eq!(
        assemble(&mesh, &input, &alpha).err(),
        Some(InputError::DimensionMismatch { chain: 1 })
    );
}

#[test]
fn chain_of_triangles_is_refused() {
    let mesh = triangle_mesh();
    let mut two = Chain::zero(2, &mesh);
    two.coeff = vec![0, 0, 0];
    let input = vec![two];
    let alpha = vec![WeightSign::Positive];
    assert_eq!(
        assemble(&mesh, &input, &alpha).err(),
        Some(InputError::DimensionMismatch { chain: 0 })
    );
}

#[test]
fn negative_weight_is_reported_before_a_wrong_chain() {
    let mesh = triangle_mesh();
    let input = vec![chain_on(&mesh, vec![1]), chain_on(&mesh, vec![1, 0, 0])];
    let alpha = vec![WeightSign::Positive, WeightSign::Negative];
    assert_eq!(
        assemble(&mesh, &input, &alpha).err(),
        Some(InputError::NegativeWeight { chain: 1 })
    );
}

#[test]
fn problem_without_chains_has_no_equalities() {
    let mesh = triangle_mesh();
    let p: Program = assemble(&mesh, &vec![], &vec![]).unwrap();
    assert_eq!(p.layout, Layout { edges: 3, triangles: 1, chains: 0 });
    assert!(p.rows.is_empty());
    assert_eq!(
        p.costs,
        vec![
            Cost::Median { edge: 0 },
            Cost::Median { edge: 0 },
            Cost::Median { edge: 1 },
            Cost::Median { edge: 1 },
            Cost::Median { edge: 2 },
            Cost::Median { edge: 2 },
        ]
    );
}

#[test]
fn program_of_one_chain_on_the_unit_triangle() {
    let mesh = triangle_mesh();
    let input = vec![chain_on(&mesh, vec![1, 0, -2])];
    let p = assemble(&mesh, &input, &vec![WeightSign::Positive]).unwrap();
    assert_eq!(p.layout, Layout { edges: 3, triangles: 1, chains: 1 });
    assert_eq!(p.costs.len(), 14);
    assert_eq!(p.costs[0], Cost::Median { edge: 0 });
    assert_eq!(p.costs[5], Cost::Median { edge: 2 });
    assert_eq!(p.costs[6], Cost::Residual { chain: 0, edge: 0 });
    assert_eq!(p.costs[7], Cost::Residual { chain: 0, edge: 0 });
    assert_eq!(p.costs[11], Cost::Residual { chain: 0, edge: 2 });
    assert_eq!(p.costs[12], Cost::Fill { chain: 0, triangle: 0 });
    assert_eq!(p.costs[13], Cost::Fill { chain: 0, triangle: 0 });
    assert_eq!(p.rows.len(), 3);
    // The edges are (0,1), (0,2), (1,2): the triangle runs with the first
    // and the last and against the second.
    assert_eq!(
        p.rows[0].terms,
        vec![term(0, 1), term(1, -1), term(6, -1), term(7, 1), term(12, -1), term(13, 1)]
    );
    assert_eq!(p.rows[0].rhs, 1);
    assert_eq!(
        p.rows[1].terms,
        vec![term(2, 1), term(3, -1), term(8, -1), term(9, 1), term(12, 1), term(13, -1)]
    );
    assert_eq!(p.rows[1].rhs, 0);
    assert_eq!(
        p.rows[2].terms,
        vec![term(4, 1), term(5, -1), term(10, -1), term(11, 1), term(12, -1), term(13, 1)]
    );
    assert_eq!(p.rows[2].rhs, -2);
}

#[test]
fn equalities_come_chain_by_chain() {
    let mesh = square_mesh();
    let input = vec![
        chain_on(&mesh, vec![1, 0, 1, 0, 0]),
        chain_on(&mesh, vec![0, 1, 0, 0, 0]),
    ];
    let p = assemble(&mesh, &input, &vec![WeightSign::Positive; 2]).unwrap();
    assert_eq!(p.layout, Layout { edges: 5, triangles: 2, chains: 2 });
    assert_eq!(p.costs.len(), 10 + 2 * 14);
    assert_eq!(p.rows.len(), 10);
    let rhs: Vec<i64> = p.rows.iter().map(|r| r.rhs).collect();
    assert_eq!(rhs, vec![1, 0, 1, 0, 0, 0, 1, 0, 0, 0]);
    // The diagonal (0,2) is a side of both triangles; the first runs
    // against it, the second with it.
    assert_eq!(
        p.rows[1].terms,
        vec![
            term(2, 1),
            term(3, -1),
            term(12, -1),
            term(13, 1),
            term(20, 1),
            term(21, -1),
            term(22, -1),
            term(23, 1),
        ]
    );
    assert_eq!(
        p.rows[6].terms,
        vec![
            term(2, 1),
            term(3, -1),
            term(26, -1),
            term(27, 1),
            term(34, 1),
            term(35, -1),
            term(36, -1),
            term(37, 1),
        ]
    );
    // The edge (0,3) is a side of the second triangle only.
    assert_eq!(
        p.rows[3].terms,
        vec![term(6, 1), term(7, -1), term(16, -1), term(17, 1), term(22, 1), term(23, -1)]
    );
}

#[test]
fn every_unknown_has_its_cost() {
    let mesh = square_mesh();
    let input = vec![
        chain_on(&mesh, vec![0; 5]),
        chain_on(&mesh, vec![0; 5]),
        chain_on(&mesh, vec![0; 5]),
    ];
    let p = assemble(&mesh, &input, &vec![WeightSign::Zero; 3]).unwrap();
    let l = p.layout;
    assert_eq!(p.costs.len(), l.len());
    for i in 0..l.edges {
        assert_eq!(p.costs[l.t_plus(i)], Cost::Median { edge: i });
        assert_eq!(p.costs[l.t_minus(i)], Cost::Median { edge: i });
    }
    for h in 0..l.chains {
        for i in 0..l.edges {
            assert_eq!(p.costs[l.r_plus(h, i)], Cost::Residual { chain: h, edge: i });
            assert_eq!(p.costs[l.r_minus(h, i)], Cost::Residual { chain: h, edge: i });
        }
        for j in 0..l.triangles {
            assert_eq!(p.costs[l.s_plus(h, j)], Cost::Fill { chain: h, triangle: j });
            assert_eq!(p.costs[l.s_minus(h, j)], Cost::Fill { chain: h, triangle: j });
        }
    }
}

#[test]
fn builder_collects_chains_and_weights() {
    let mesh = triangle_mesh();
    let shape = MedianShape::new(&mesh)
        .add_chain(chain_on(&mesh, vec![1, 0, 0]), WeightSign::Positive)
        .add_chain(chain_on(&mesh, vec![0, 1, 0]), WeightSign::Zero);
    assert_eq!(shape.chains.len(), 2);
    assert_eq!(shape.alpha, vec![WeightSign::Positive, WeightSign::Zero]);
    let p = shape.program().unwrap();
    assert_eq!(p.layout, Layout { edges: 3, triangles: 1, chains: 2 });
    assert_eq!(p.rows.len(), 6);
}

#[test]
fn builder_refuses_what_the_program_refuses() {
    let mesh = triangle_mesh();
    let shape = MedianShape::new(&mesh)
        .add_chain(chain_on(&mesh, vec![1, 0, 0]), WeightSign::Positive)
        .add_chain(chain_on(&mesh, vec![0, 1]), WeightSign::Positive);
    assert_eq!(shape.program().err(), Some(InputError::DimensionMismatch { chain: 1 }));
    let shape = MedianShape::new(&mesh).add_chain(chain_on(&mesh, vec![1, 0, 0]), WeightSign::Negative);
    assert_eq!(shape.program().err(), Some(InputError::NegativeWeight { chain: 0 }));
}

#[test]
fn builder_with_a_spare_weight_is_refused() {
    let mesh = triangle_mesh();
    let mut shape = MedianShape::new(&mesh)
        .add_chain(chain_on(&mesh, vec![1, 0, 0]), WeightSign::Positive)
        .add_chain(chain_on(&mesh, vec![0, 1, 0]), WeightSign::Positive);
    shape.alpha.push(WeightSign::Positive);
    assert_eq!(
        shape.program().err(),
        Some(InputError::CountMismatch { chains: 2, weights: 3 })
    );
}
