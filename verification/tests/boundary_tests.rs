use median_shape::{boundary_entry, Boundary, Edge, Mesh, Triangle};

fn mesh_with(vertices: usize, faces: &[(usize, usize, usize)]) -> Mesh {
    let mut mesh = Mesh::new(vertices);
    for &(i, j, k) in faces {
        assert_eq!(mesh.add_face(i, j, k), Ok(()));
    }
    mesh
}

fn column(b: &Boundary, j: usize) -> Vec<i8> {
    (0..b.rows).map(|i| b.entry(i, j)).collect()
}

#[test]
fn entry_is_plus_one_along_the_triangle() {
    let t = Triangle(0, 1, 2);
    assert_eq!(boundary_entry(&Edge(0, 1), &t), 1);
    assert_eq!(boundary_entry(&Edge(1, 2), &t), 1);
    assert_eq!(boundary_entry(&Edge(2, 0), &t), 1);
}

#[test]
fn entry_is_minus_one_against_the_triangle() {
    let t = Triangle(0, 1, 2);
    assert_eq!(boundary_entry(&Edge(1, 0), &t), -1);
    assert_eq!(boundary_entry(&Edge(2, 1), &t), -1);
    assert_eq!(boundary_entry(&Edge(0, 2), &t), -1);
}

#[test]
fn entry_is_zero_off_the_triangle() {
    let t = Triangle(0, 1, 2);
    assert_eq!(boundary_entry(&Edge(0, 3), &t), 0);
    assert_eq!(boundary_entry(&Edge(3, 4), &t), 0);
}

#[test]
fn entry_follows_the_triangle_when_it_is_reversed() {
    let t = Triangle(0, 2, 1);
    assert_eq!(boundary_entry(&Edge(0, 1), &t), -1);
    assert_eq!(boundary_entry(&Edge(1, 2), &t), -1);
    assert_eq!(boundary_entry(&Edge(0, 2), &t), 1);
}

#[test]
fn unit_triangle_column_with_sorted_edges() {
    let mesh = mesh_with(3, &[(0, 1, 2)]);
    assert_eq!(mesh.edges, vec![Edge(0, 1), Edge(0, 2), Edge(1, 2)]);
    let b = Boundary::of(&mesh).unwrap();
    assert_eq!(b.rows, 3);
    assert_eq!(b.cols, 1);
    // (0,1) and (1,2) run with the triangle, (0,2) against it.
    assert_eq!(column(&b, 0), vec![1, -1, 1]);
}

#[test]
fn unit_triangle_column_after_orientation() {
    let mut mesh = mesh_with(3, &[(0, 1, 2)]);
    assert_eq!(mesh.orient(), Ok(()));
    let b = Boundary::of(&mesh).unwrap();
    assert_eq!(column(&b, 0), vec![1, 1, 1]);
}

#[test]
fn square_columns_disagree_on_the_diagonal() {
    let mut mesh = mesh_with(4, &[(0, 1, 2), (0, 2, 3)]);
    assert_eq!(mesh.orient(), Ok(()));
    let b = Boundary::of(&mesh).unwrap();
    assert_eq!(b.rows, 5);
    assert_eq!(b.cols, 2);
    assert_eq!(column(&b, 0), vec![1, 1, 1, 0, 0]);
    assert_eq!(column(&b, 1), vec![0, -1, 0, 1, 1]);
}

#[test]
fn every_column_has_three_entries() {
    let mut mesh = mesh_with(4, &[(0, 1, 2), (0, 1, 3), (0, 2, 3), (1, 2, 3)]);
    assert_eq!(mesh.orient(), Ok(()));
    let b = Boundary::of(&mesh).unwrap();
    for j in 0..b.cols {
        let nonzero = column(&b, j).iter().filter(|s| **s != 0).count();
        assert_eq!(nonzero, 3);
    }
    // On a closed oriented surface every edge is run through once each way.
    for i in 0..b.rows {
        let sum: i32 = (0..b.cols).map(|j| b.entry(i, j) as i32).sum();
        assert_eq!(sum, 0);
    }
}

#[test]
fn matrix_entries_are_those_of_the_mesh() {
    let mesh = mesh_with(5, &[(0, 1, 2), (1, 2, 3), (2, 3, 4)]);
    let b = Boundary::of(&mesh).unwrap();
    for i in 0..b.rows {
        for j in 0..b.cols {
            assert_eq!(b.entry(i, j), boundary_entry(&mesh.edges[i], &mesh.triangles[j]));
            assert_eq!(b.entry(i, j), mesh.incidence(i, j));
        }
    }
}

#[test]
fn incidence_outside_the_tables_is_zero() {
    let mesh = mesh_with(3, &[(0, 1, 2)]);
    assert_eq!(mesh.incidence(3, 0), 0);
    assert_eq!(mesh.incidence(0, 1), 0);
}

#[test]
fn boundary_of_the_empty_mesh_is_empty() {
    let mesh = Mesh::new(0);
    let b = Boundary::of(&mesh).unwrap();
    assert_eq!(b.rows, 0);
    assert_eq!(b.cols, 0);
}
