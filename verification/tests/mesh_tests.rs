use median_shape::{Edge, Mesh, TopologyError, Triangle};

fn square_mesh() -> Mesh {
    let mut mesh = Mesh::new(4);
    assert_eq!(mesh.add_face(0, 1, 2), Ok(()));
    assert_eq!(mesh.add_face(0, 2, 3), Ok(()));
    mesh
}

#[test]
fn new_mesh_is_empty() {
    let mesh = Mesh::new(7);
    assert_eq!(mesh.vertex_count, 7);
    assert!(mesh.edges.is_empty());
    assert!(mesh.triangles.is_empty());
}

#[test]
fn add_face_stores_its_three_sides_ascending() {
    let mut mesh = Mesh::new(5);
    assert_eq!(mesh.add_face(4, 1, 3), Ok(()));
    assert_eq!(mesh.triangles, vec![Triangle(4, 1, 3)]);
    assert_eq!(mesh.edges, vec![Edge(1, 4), Edge(3, 4), Edge(1, 3)]);
}

#[test]
fn shared_side_is_stored_once() {
    let mesh = square_mesh();
    assert_eq!(mesh.triangles, vec![Triangle(0, 1, 2), Triangle(0, 2, 3)]);
    assert_eq!(
        mesh.edges,
        vec![Edge(0, 1), Edge(0, 2), Edge(1, 2), Edge(0, 3), Edge(2, 3)]
    );
    let shared = mesh
        .edges
        .iter()
        .filter(|e| (e.0 == 0 && e.1 == 2) || (e.0 == 2 && e.1 == 0))
        .count();
    assert_eq!(shared, 1);
}

#[test]
fn side_met_in_the_other_direction_is_not_stored_again() {
    let mut mesh = Mesh::new(4);
    assert_eq!(mesh.add_face(0, 1, 2), Ok(()));
    assert_eq!(mesh.add_face(2, 1, 3), Ok(()));
    assert_eq!(
        mesh.edges,
        vec![Edge(0, 1), Edge(0, 2), Edge(1, 2), Edge(2, 3), Edge(1, 3)]
    );
}

#[test]
fn every_pair_of_corners_has_exactly_one_edge() {
    let mut mesh = Mesh::new(6);
    for (i, j, k) in [(0, 1, 2), (1, 2, 3), (2, 3, 4), (3, 4, 5), (5, 0, 1), (4, 5, 0)] {
        assert_eq!(mesh.add_face(i, j, k), Ok(()));
    }
    for t in mesh.triangles.iter() {
        for (a, b) in [(t.0, t.1), (t.1, t.2), (t.0, t.2)] {
            let count = mesh
                .edges
                .iter()
                .filter(|e| (e.0 == a && e.1 == b) || (e.0 == b && e.1 == a))
                .count();
            assert_eq!(count, 1);
        }
    }
    for e in mesh.edges.iter() {
        assert!(e.0 < e.1);
    }
}

#[test]
fn face_with_a_vertex_out_of_range_is_refused() {
    let mut mesh = Mesh::new(3);
    assert_eq!(mesh.add_face(0, 1, 3), Err(TopologyError::IndexOutOfBounds));
    assert_eq!(mesh.add_face(3, 3, 1), Err(TopologyError::IndexOutOfBounds));
    assert!(mesh.edges.is_empty());
    assert!(mesh.triangles.is_empty());
}

#[test]
fn face_with_a_repeated_vertex_is_refused() {
    let mut mesh = Mesh::new(3);
    assert_eq!(mesh.add_face(0, 1, 1), Err(TopologyError::NotATriangle));
    assert_eq!(mesh.add_face(2, 1, 2), Err(TopologyError::NotATriangle));
    assert_eq!(mesh.add_face(0, 0, 0), Err(TopologyError::NotATriangle));
    assert!(mesh.edges.is_empty());
    assert!(mesh.triangles.is_empty());
}

#[test]
fn find_edge_ignores_the_direction() {
    let mesh = square_mesh();
    assert_eq!(mesh.find_edge(0, 2), Some(1));
    assert_eq!(mesh.find_edge(2, 0), Some(1));
    assert_eq!(mesh.find_edge(3, 2), Some(4));
    assert_eq!(mesh.find_edge(1, 3), None);
    assert_eq!(mesh.find_edge(1, 1), None);
}

#[test]
fn edges_of_lists_the_sides_in_table_order() {
    let mesh = square_mesh();
    assert_eq!(mesh.edges_of(0), [0, 1, 2]);
    assert_eq!(mesh.edges_of(1), [1, 3, 4]);
}

#[test]
fn neighbors_share_a_side() {
    let mut mesh = Mesh::new(6);
    for (i, j, k) in [(0, 1, 2), (0, 2, 3), (0, 3, 4), (1, 2, 5)] {
        assert_eq!(mesh.add_face(i, j, k), Ok(()));
    }
    assert_eq!(mesh.neighbors(0), vec![1, 3]);
    assert_eq!(mesh.neighbors(1), vec![0, 2]);
    assert_eq!(mesh.neighbors(2), vec![1]);
    assert_eq!(mesh.neighbors(3), vec![0]);
}

#[test]
fn triangles_that_only_touch_in_a_vertex_are_no_neighbors() {
    let mut mesh = Mesh::new(5);
    assert_eq!(mesh.add_face(0, 1, 2), Ok(()));
    assert_eq!(mesh.add_face(2, 3, 4), Ok(()));
    assert!(mesh.neighbors(0).is_empty());
    assert!(mesh.neighbors(1).is_empty());
}
