use median_shape::{Edge, Mesh, Orientation, OrientationError, Triangle};

fn mesh_of(vertices: usize, faces: &[(usize, usize, usize)]) -> Mesh {
    let mut mesh = Mesh::new(vertices);
    for &(i, j, k) in faces {
        assert_eq!(mesh.add_face(i, j, k), Ok(()));
    }
    mesh
}

fn induced(t: &Triangle, e: &Edge) -> Edge {
    let mut side = *e;
    side.induce_orientation(t);
    side
}

// Every two triangles with a common side run through it in opposite
// directions.
fn is_consistent(mesh: &Mesh) -> bool {
    for (a, t) in mesh.triangles.iter().enumerate() {
        for (b, u) in mesh.triangles.iter().enumerate() {
            if a == b {
                continue;
            }
            for e in mesh.edges.iter() {
                if t.is_face(e) && u.is_face(e) {
                    let mine = induced(t, e);
                    let theirs = induced(u, e);
                    if mine != Edge(theirs.1, theirs.0) {
                        return false;
                    }
                }
            }
        }
    }
    true
}

// Every edge runs as the first triangle with that side runs through it.
fn edges_follow_first_triangle(mesh: &Mesh) -> bool {
    for e in mesh.edges.iter() {
        if let Some(t) = mesh.triangles.iter().find(|t| t.is_face(e)) {
            if induced(t, e) != *e {
                return false;
            }
        }
    }
    true
}

fn same_vertices(a: &Triangle, b: &Triangle) -> bool {
    let mut x = [a.0, a.1, a.2];
    let mut y = [b.0, b.1, b.2];
    x.sort();
    y.sort();
    x == y
}

#[test]
fn unit_triangle_is_oriented_as_it_stands() {
    let mut mesh = mesh_of(3, &[(0, 1, 2)]);
    assert_eq!(mesh.edges, vec![Edge(0, 1), Edge(0, 2), Edge(1, 2)]);
    assert_eq!(mesh.orient(), Ok(()));
    assert_eq!(mesh.triangles, vec![Triangle(0, 1, 2)]);
    assert_eq!(mesh.edges, vec![Edge(0, 1), Edge(2, 0), Edge(1, 2)]);
}

#[test]
fn unit_triangle_given_backwards_is_sorted_first() {
    let mut mesh = mesh_of(3, &[(2, 1, 0)]);
    assert_eq!(mesh.orient(), Ok(()));
    assert_eq!(mesh.triangles, vec![Triangle(0, 1, 2)]);
    assert!(edges_follow_first_triangle(&mesh));
}

#[test]
fn two_triangle_square_has_opposite_orientations_on_the_diagonal() {
    let mut mesh = mesh_of(4, &[(0, 1, 2), (0, 2, 3)]);
    assert_eq!(mesh.orient(), Ok(()));
    assert_eq!(mesh.triangles, vec![Triangle(0, 1, 2), Triangle(0, 2, 3)]);
    let diagonal = mesh.edges[1];
    assert_eq!(induced(&mesh.triangles[0], &diagonal), Edge(2, 0));
    assert_eq!(induced(&mesh.triangles[1], &diagonal), Edge(0, 2));
    assert_eq!(
        mesh.edges,
        vec![Edge(0, 1), Edge(2, 0), Edge(1, 2), Edge(3, 0), Edge(2, 3)]
    );
    assert!(is_consistent(&mesh));
}

#[test]
fn neighbour_that_agrees_has_its_last_two_corners_exchanged() {
    // Sorted, both triangles run through the side {1, 2} from 1 to 2.
    let mut mesh = mesh_of(4, &[(0, 1, 2), (1, 2, 3)]);
    assert_eq!(mesh.orient(), Ok(()));
    assert_eq!(mesh.triangles, vec![Triangle(0, 1, 2), Triangle(1, 3, 2)]);
    assert!(is_consistent(&mesh));
    assert!(edges_follow_first_triangle(&mesh));
}

#[test]
fn moebius_strip_cannot_be_oriented() {
    let mut mesh = mesh_of(5, &[(0, 1, 2), (1, 2, 3), (2, 3, 4), (3, 4, 0), (4, 0, 1)]);
    let before = mesh.triangles.clone();
    let r = mesh.orient();
    assert!(matches!(r, Err(OrientationError::Conflict { .. })));
    for (a, b) in before.iter().zip(mesh.triangles.iter()) {
        assert!(same_vertices(a, b));
    }
}

#[test]
fn longer_moebius_strip_cannot_be_oriented() {
    // A strip of six triangles over the vertices 0..5 whose ends are glued
    // with a twist.
    let mut mesh = mesh_of(
        6,
        &[(0, 1, 2), (1, 2, 3), (2, 3, 4), (3, 4, 5), (4, 5, 1), (5, 1, 0)],
    );
    assert!(matches!(mesh.orient(), Err(OrientationError::Conflict { .. })));
}

#[test]
fn cylinder_can_be_oriented() {
    // The same strip glued without a twist.
    let mut mesh = mesh_of(
        6,
        &[(0, 1, 2), (1, 2, 3), (2, 3, 4), (3, 4, 5), (4, 5, 0), (5, 0, 1)],
    );
    assert_eq!(mesh.orient(), Ok(()));
    assert!(is_consistent(&mesh));
    assert!(edges_follow_first_triangle(&mesh));
}

#[test]
fn tetrahedron_can_be_oriented() {
    let mut mesh = mesh_of(4, &[(0, 1, 2), (0, 1, 3), (0, 2, 3), (1, 2, 3)]);
    assert_eq!(mesh.orient(), Ok(()));
    assert_eq!(mesh.triangles[0], Triangle(0, 1, 2));
    assert!(is_consistent(&mesh));
    assert!(edges_follow_first_triangle(&mesh));
}

#[test]
fn orientation_keeps_the_simplices() {
    let faces = [(3, 1, 0), (2, 3, 1), (4, 2, 3), (5, 3, 4)];
    let mut mesh = mesh_of(6, &faces);
    let edges = mesh.edges.clone();
    let triangles = mesh.triangles.clone();
    assert_eq!(mesh.orient(), Ok(()));
    assert_eq!(mesh.edges.len(), edges.len());
    for (a, b) in edges.iter().zip(mesh.edges.iter()) {
        assert!((a.0 == b.0 && a.1 == b.1) || (a.0 == b.1 && a.1 == b.0));
    }
    for (a, b) in triangles.iter().zip(mesh.triangles.iter()) {
        assert!(same_vertices(a, b));
    }
    assert!(is_consistent(&mesh));
}

#[test]
fn mesh_in_two_pieces_is_refused() {
    let mut mesh = mesh_of(6, &[(0, 1, 2), (3, 4, 5)]);
    assert_eq!(mesh.orient(), Err(OrientationError::Unreachable { triangle: 1 }));
}

#[test]
fn pieces_joined_in_a_vertex_only_are_refused() {
    let mut mesh = mesh_of(5, &[(0, 1, 2), (2, 3, 4)]);
    assert_eq!(mesh.orient(), Err(OrientationError::Unreachable { triangle: 1 }));
}

#[test]
fn mesh_without_triangles_is_oriented() {
    let mut mesh = Mesh::new(3);
    assert_eq!(mesh.orient(), Ok(()));
    assert!(mesh.triangles.is_empty());
    assert!(mesh.edges.is_empty());
}

#[test]
fn same_triangle_twice_is_oriented_both_ways() {
    let mut mesh = mesh_of(3, &[(0, 1, 2), (2, 0, 1)]);
    assert_eq!(mesh.orient(), Ok(()));
    assert_eq!(mesh.triangles, vec![Triangle(0, 1, 2), Triangle(0, 2, 1)]);
    assert!(is_consistent(&mesh));
}

#[test]
fn three_triangles_on_one_side_cannot_be_oriented() {
    let mut mesh = mesh_of(5, &[(0, 1, 2), (0, 1, 3), (0, 1, 4)]);
    assert!(matches!(mesh.orient(), Err(OrientationError::Conflict { .. })));
}

#[test]
fn orient2d_turns_each_triangle_as_told() {
    let mut mesh = mesh_of(4, &[(2, 1, 0), (0, 2, 3)]);
    let facing = vec![Orientation::CCW, Orientation::CW];
    assert_eq!(mesh.orient2d(&facing), Ok(()));
    assert_eq!(mesh.triangles, vec![Triangle(0, 1, 2), Triangle(2, 0, 3)]);
    // The first triangle decides the diagonal, the second its other sides.
    assert_eq!(
        mesh.edges,
        vec![Edge(1, 2), Edge(2, 0), Edge(0, 1), Edge(0, 3), Edge(3, 2)]
    );
    assert!(edges_follow_first_triangle(&mesh));
}

#[test]
fn orient2d_with_all_triangles_counterclockwise_sorts_them() {
    let mut mesh = mesh_of(4, &[(1, 0, 2), (3, 2, 0)]);
    let facing = vec![Orientation::CCW, Orientation::CCW];
    assert_eq!(mesh.orient2d(&facing), Ok(()));
    assert_eq!(mesh.triangles, vec![Triangle(0, 1, 2), Triangle(0, 2, 3)]);
    assert!(is_consistent(&mesh));
}

// A square grid of `n` by `n` cells, each cut into two triangles whose
// corners are listed in an order that changes from cell to cell.
fn grid(n: usize) -> Mesh {
    let at = |row: usize, col: usize| row * (n + 1) + col;
    let mut faces = Vec::new();
    for row in 0..n {
        for col in 0..n {
            let (a, b, c, d) = (at(row, col), at(row, col + 1), at(row + 1, col + 1), at(row + 1, col));
            if (row + col) % 2 == 0 {
                faces.push((a, b, c));
                faces.push((c, a, d));
            } else {
                faces.push((b, a, d));
                faces.push((d, c, b));
            }
        }
    }
    mesh_of((n + 1) * (n + 1), &faces)
}

#[test]
fn grid_is_oriented_consistently() {
    let mut mesh = grid(4);
    assert_eq!(mesh.triangles.len(), 32);
    assert_eq!(mesh.edges.len(), 56);
    let before = mesh.triangles.clone();
    assert_eq!(mesh.orient(), Ok(()));
    assert!(is_consistent(&mesh));
    assert!(edges_follow_first_triangle(&mesh));
    for (a, b) in before.iter().zip(mesh.triangles.iter()) {
        assert!(same_vertices(a, b));
    }
    let first = mesh.triangles[0];
    assert!(first.0 < first.1 && first.1 < first.2);
}

#[test]
fn octahedron_is_oriented_consistently() {
    let mut mesh = mesh_of(
        6,
        &[
            (0, 2, 4),
            (2, 1, 4),
            (1, 3, 4),
            (3, 0, 4),
            (2, 0, 5),
            (1, 2, 5),
            (3, 1, 5),
            (0, 3, 5),
        ],
    );
    assert_eq!(mesh.edges.len(), 12);
    assert_eq!(mesh.orient(), Ok(()));
    assert!(is_consistent(&mesh));
    assert!(edges_follow_first_triangle(&mesh));
    // On a closed surface every edge has two triangles, which run through
    // it in opposite directions.
    for e in mesh.edges.iter() {
        let with: Vec<Edge> = mesh
            .triangles
            .iter()
            .filter(|t| t.is_face(e))
            .map(|t| induced(t, e))
            .collect();
        assert_eq!(with.len(), 2);
        assert_eq!(with[0], Edge(with[1].1, with[1].0));
    }
}
