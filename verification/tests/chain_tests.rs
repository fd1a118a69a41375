use median_shape::{Chain, Current, InputError, Mesh, SignedTerm};

fn square() -> Mesh {
    let mut mesh = Mesh::new(4);
    assert_eq!(mesh.add_face(0, 1, 2), Ok(()));
    assert_eq!(mesh.add_face(0, 2, 3), Ok(()));
    mesh
}

#[test]
fn zero_chain_has_one_coefficient_for_each_simplex() {
    let mesh = square();
    let one = Chain::zero(1, &mesh);
    assert_eq!(one.dim, 1);
    assert_eq!(one.coeff, vec![0; 5]);
    let two = Chain::zero(2, &mesh);
    assert_eq!(two.dim, 2);
    assert_eq!(two.coeff, vec![0; 2]);
}

#[test]
fn mark_edge_sets_the_coefficient_to_one() {
    let mesh = square();
    let mut chain = Chain::zero(1, &mesh);
    assert_eq!(chain.mark_edge(1, 2), Ok(()));
    assert_eq!(chain.coeff, vec![0, 0, 1, 0, 0]);
    assert_eq!(chain.mark_edge(1, 2), Ok(()));
    assert_eq!(chain.coeff, vec![0, 0, 1, 0, 0]);
}

#[test]
fn mark_edge_takes_the_edge_in_either_direction() {
    let mesh = square();
    let mut chain = Chain::zero(1, &mesh);
    assert_eq!(chain.mark_edge(3, 0), Ok(()));
    assert_eq!(chain.coeff, vec![0, 0, 0, 1, 0]);
}

#[test]
fn mark_edge_refuses_an_unknown_edge() {
    let mesh = square();
    let mut chain = Chain::zero(1, &mesh);
    assert_eq!(chain.mark_edge(1, 3), Err(InputError::UnknownEdge { from: 1, to: 3 }));
    assert_eq!(chain.coeff, vec![0; 5]);
}

#[test]
fn empty_current_gives_the_zero_chain() {
    let mesh = square();
    let current = Current::new(&mesh);
    assert!(current.path.is_empty());
    let chain = current.as_chain().unwrap();
    assert_eq!(chain.dim, 1);
    assert_eq!(chain.coeff, vec![0; 5]);
}

#[test]
fn current_of_one_vertex_gives_the_zero_chain() {
    let mesh = square();
    let mut current = Current::new(&mesh);
    current.path.push(2);
    assert_eq!(current.as_chain().unwrap().coeff, vec![0; 5]);
}

#[test]
fn current_becomes_the_chain_of_its_steps() {
    let mesh = square();
    let mut current = Current::new(&mesh);
    current.path = vec![0, 1, 2, 3];
    let chain = current.as_chain().unwrap();
    assert_eq!(chain.coeff, vec![1, 0, 1, 0, 1]);
}

#[test]
fn step_against_the_stored_edge_has_coefficient_one_too() {
    let mesh = square();
    let mut current = Current::new(&mesh);
    current.path = vec![3, 2, 0];
    let chain = current.as_chain().unwrap();
    assert_eq!(chain.coeff, vec![0, 1, 0, 0, 1]);
}

#[test]
fn current_with_a_step_off_the_mesh_is_refused() {
    let mesh = square();
    let mut current = Current::new(&mesh);
    current.path = vec![0, 1, 3, 2];
    assert_eq!(
        current.as_chain().err(),
        Some(InputError::UnknownEdge { from: 1, to: 3 })
    );
}

#[test]
fn current_that_stands_still_is_refused() {
    let mesh = square();
    let mut current = Current::new(&mesh);
    current.path = vec![0, 1, 1];
    assert_eq!(
        current.as_chain().err(),
        Some(InputError::UnknownEdge { from: 1, to: 1 })
    );
}

#[test]
fn support_lists_the_simplices_of_the_chain() {
    let mesh = square();
    let mut chain = Chain::zero(1, &mesh);
    assert!(chain.support().is_empty());
    chain.coeff = vec![0, -2, 0, 1, 0];
    assert_eq!(chain.support(), vec![1, 3]);
}

#[test]
fn terms_give_sign_and_magnitude() {
    let mesh = square();
    let mut chain = Chain::zero(1, &mesh);
    chain.coeff = vec![1, -3, 0, 0, i64::MIN];
    assert_eq!(
        chain.terms(),
        vec![
            SignedTerm { negative: false, magnitude: 1, simplex: 0 },
            SignedTerm { negative: true, magnitude: 3, simplex: 1 },
            SignedTerm { negative: true, magnitude: 1u64 << 63, simplex: 4 },
        ]
    );
}
