use median_shape::{Edge, Orientation, Triangle};

#[test]
fn edge_swap_orientation_reverses() {
    let mut e = Edge(3, 7);
    e.swap_orientation();
    assert_eq!(e, Edge(7, 3));
    e.swap_orientation();
    assert_eq!(e, Edge(3, 7));
}

#[test]
fn edge_orientation_reads_the_order() {
    assert_eq!(Edge(1, 2).orientation(), Orientation::CCW);
    assert_eq!(Edge(2, 1).orientation(), Orientation::CW);
    assert_eq!(Edge(4, 4).orientation(), Orientation::CW);
}

#[test]
fn induced_orientation_follows_the_triangle() {
    let t = Triangle(5, 7, 9);
    let sides = [
        (Edge(5, 7), Edge(5, 7)),
        (Edge(7, 5), Edge(5, 7)),
        (Edge(7, 9), Edge(7, 9)),
        (Edge(9, 7), Edge(7, 9)),
        (Edge(5, 9), Edge(9, 5)),
        (Edge(9, 5), Edge(9, 5)),
    ];
    for (stored, induced) in sides {
        let mut e = stored;
        e.induce_orientation(&t);
        assert_eq!(e, induced);
    }
}

#[test]
fn induced_orientation_of_the_missing_middle_vertex_is_reversed() {
    // The side without the vertex at position 1 runs from the last vertex
    // back to the first.
    let mut e = Edge(0, 2);
    e.induce_orientation(&Triangle(0, 1, 2));
    assert_eq!(e, Edge(2, 0));
    let mut e = Edge(0, 2);
    e.induce_orientation(&Triangle(0, 2, 1));
    assert_eq!(e, Edge(0, 2));
}

#[test]
fn induced_orientation_leaves_a_foreign_edge_alone() {
    let mut e = Edge(1, 8);
    e.induce_orientation(&Triangle(1, 2, 3));
    assert_eq!(e, Edge(1, 8));
}

#[test]
fn swapping_a_triangle_reverses_every_induced_side() {
    let t = Triangle(2, 4, 6);
    let mut s = t;
    s.swap_orientation();
    assert_eq!(s, Triangle(4, 2, 6));
    for stored in [Edge(2, 4), Edge(4, 6), Edge(2, 6)] {
        let mut a = stored;
        a.induce_orientation(&t);
        let mut b = stored;
        b.induce_orientation(&s);
        assert_eq!(a, Edge(b.1, b.0));
    }
}

#[test]
fn triangle_is_face_needs_both_endpoints() {
    let t = Triangle(1, 2, 3);
    assert!(t.is_face(&Edge(1, 2)));
    assert!(t.is_face(&Edge(3, 1)));
    assert!(t.is_face(&Edge(2, 3)));
    assert!(!t.is_face(&Edge(1, 4)));
    assert!(!t.is_face(&Edge(0, 5)));
}

#[test]
fn triangle_orient_sorts_and_swaps() {
    let mut t = Triangle(9, 3, 6);
    t.orient(Orientation::CCW);
    assert_eq!(t, Triangle(3, 6, 9));
    let mut t = Triangle(9, 3, 6);
    t.orient(Orientation::CW);
    assert_eq!(t, Triangle(6, 3, 9));
    let mut t = Triangle(1, 2, 3);
    t.orient(Orientation::CCW);
    assert_eq!(t, Triangle(1, 2, 3));
    let mut t = Triangle(3, 2, 1);
    t.orient(Orientation::CCW);
    assert_eq!(t, Triangle(1, 2, 3));
}

#[test]
fn triangle_orientation_is_the_parity_of_the_tuple() {
    assert_eq!(Triangle(0, 1, 2).orientation(), Orientation::CCW);
    assert_eq!(Triangle(1, 2, 0).orientation(), Orientation::CCW);
    assert_eq!(Triangle(2, 0, 1).orientation(), Orientation::CCW);
    assert_eq!(Triangle(0, 2, 1).orientation(), Orientation::CW);
    assert_eq!(Triangle(1, 0, 2).orientation(), Orientation::CW);
    assert_eq!(Triangle(2, 1, 0).orientation(), Orientation::CW);
}

#[test]
fn triangle_orientation_of_a_degenerate_tuple_is_cw() {
    assert_eq!(Triangle(1, 1, 2).orientation(), Orientation::CW);
    assert_eq!(Triangle(4, 4, 4).orientation(), Orientation::CW);
}

#[test]
fn oriented_triangle_has_the_orientation_asked_for() {
    for tuple in [Triangle(5, 1, 3), Triangle(1, 3, 5), Triangle(3, 5, 1), Triangle(5, 3, 1)] {
        let mut t = tuple;
        t.orient(Orientation::CCW);
        assert_eq!(t.orientation(), Orientation::CCW);
        let mut t = tuple;
        t.orient(Orientation::CW);
        assert_eq!(t.orientation(), Orientation::CW);
    }
}
