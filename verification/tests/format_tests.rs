use median_shape::format::{parse_coordinates, parse_edge, parse_face};
use median_shape::text::{fields, is_comment, parse_index};
use median_shape::{
    Edge, MeshError, OffEvent, OffReader, OffStage, ParseError, Span, TopologyError, Triangle,
};

fn span(start: usize, end: usize) -> Span {
    Span { start, end }
}

fn whole(text: &[u8]) -> Option<usize> {
    parse_index(text, span(0, text.len()))
}

#[test]
fn fields_are_cut_at_white_space() {
    assert_eq!(fields(b"3 10 11 12"), vec![span(0, 1), span(2, 4), span(5, 7), span(8, 10)]);
    assert_eq!(fields(b"  a\t\tbc \r"), vec![span(2, 3), span(5, 7)]);
    assert_eq!(fields(b"word"), vec![span(0, 4)]);
}

#[test]
fn line_of_white_space_has_no_fields() {
    assert!(fields(b"").is_empty());
    assert!(fields(b" \t \x0b\x0c\r\n").is_empty());
}

#[test]
fn comment_begins_with_a_number_sign() {
    assert!(is_comment(b"# a comment"));
    assert!(is_comment(b"#"));
    assert!(!is_comment(b" # not at the front"));
    assert!(!is_comment(b""));
    assert!(!is_comment(b"3 0 1 2"));
}

#[test]
fn index_is_read_from_decimal_digits() {
    assert_eq!(whole(b"0"), Some(0));
    assert_eq!(whole(b"7"), Some(7));
    assert_eq!(whole(b"0042"), Some(42));
    assert_eq!(whole(b"1234567890"), Some(1234567890));
    assert_eq!(whole(b"+15"), Some(15));
}

#[test]
fn index_is_read_from_its_stretch_only() {
    assert_eq!(parse_index(b"3 10 11 12", span(2, 4)), Some(10));
    assert_eq!(parse_index(b"3 10 11 12", span(3, 6)), None);
    assert_eq!(parse_index(b"3 10 11 12", span(8, 9)), Some(1));
}

#[test]
fn what_is_no_index_is_refused() {
    assert_eq!(whole(b""), None);
    assert_eq!(whole(b"+"), None);
    assert_eq!(whole(b"-1"), None);
    assert_eq!(whole(b"1.5"), None);
    assert_eq!(whole(b"12a"), None);
    assert_eq!(whole(b"a12"), None);
    assert_eq!(whole(b"++1"), None);
    assert_eq!(whole(b" 1"), None);
}

#[test]
fn index_beyond_the_machine_is_refused() {
    let max = usize::MAX.to_string();
    assert_eq!(whole(max.as_bytes()), Some(usize::MAX));
    let mut over = max.clone().into_bytes();
    let last = over.len() - 1;
    over[last] += 1;
    assert_eq!(whole(&over), None);
    let longer = format!("{}0", max);
    assert_eq!(whole(longer.as_bytes()), None);
    assert_eq!(whole(b"99999999999999999999999999999999999999999999"), None);
}

#[test]
fn stretch_outside_the_line_is_refused() {
    assert_eq!(parse_index(b"123", span(0, 4)), None);
    assert_eq!(parse_index(b"123", span(2, 1)), None);
}

#[test]
fn edge_line_names_two_vertices() {
    assert_eq!(parse_edge(b"4 17"), Ok((4, 17)));
    assert_eq!(parse_edge(b"  4\t17  and more"), Ok((4, 17)));
}

#[test]
fn edge_line_without_two_indices_is_refused() {
    assert_eq!(parse_edge(b""), Err(ParseError::InvalidEdge));
    assert_eq!(parse_edge(b"4"), Err(ParseError::InvalidEdge));
    assert_eq!(parse_edge(b"4 x"), Err(ParseError::InvalidEdge));
    assert_eq!(parse_edge(b"x 4"), Err(ParseError::InvalidEdge));
    assert_eq!(parse_edge(b"1.0 2.0"), Err(ParseError::InvalidEdge));
}

#[test]
fn face_line_names_three_vertices() {
    assert_eq!(parse_face(b"3 0 1 2"), Ok((0, 1, 2)));
    assert_eq!(parse_face(b"3  12 7 9  255 0 0"), Ok((12, 7, 9)));
}

#[test]
fn face_that_is_no_triangle_is_refused() {
    assert_eq!(
        parse_face(b"4 0 1 2 3"),
        Err(MeshError::Topology(TopologyError::NotATriangle))
    );
    assert_eq!(parse_face(b"2 0 1"), Err(MeshError::Topology(TopologyError::NotATriangle)));
}

#[test]
fn face_that_cannot_be_read_is_refused() {
    assert_eq!(parse_face(b""), Err(MeshError::Parse(ParseError::InvalidFace)));
    assert_eq!(parse_face(b"x 0 1 2"), Err(MeshError::Parse(ParseError::InvalidFace)));
    assert_eq!(parse_face(b"3 0 1"), Err(MeshError::Parse(ParseError::InvalidFace)));
    assert_eq!(parse_face(b"3 0 1 z"), Err(MeshError::Parse(ParseError::InvalidFace)));
    assert_eq!(parse_face(b"3 0 -1 2"), Err(MeshError::Parse(ParseError::InvalidFace)));
}

#[test]
fn coordinates_are_the_first_three_fields() {
    assert_eq!(
        parse_coordinates(b"0.5 -1e3  2"),
        Ok((span(0, 3), span(4, 8), span(10, 11)))
    );
    assert_eq!(
        parse_coordinates(b" 1 2 3 4"),
        Ok((span(1, 2), span(3, 4), span(5, 6)))
    );
}

#[test]
fn line_with_fewer_than_three_fields_has_no_coordinates() {
    assert_eq!(parse_coordinates(b"0.5 1.5"), Err(ParseError::MalformedCoordinate));
    assert_eq!(parse_coordinates(b""), Err(ParseError::MalformedCoordinate));
}

fn read(lines: &[&[u8]]) -> Result<OffReader, MeshError> {
    let mut reader = OffReader::new();
    for line in lines {
        reader.feed(line)?;
    }
    Ok(reader)
}

#[test]
fn mesh_file_is_read_line_by_line() {
    let mut reader = OffReader::new();
    assert_eq!(reader.feed(b"# a square"), Ok(OffEvent::Comment));
    assert_eq!(reader.stage, OffStage::Header);
    assert_eq!(reader.feed(b"OFF"), Ok(OffEvent::Header));
    assert_eq!(reader.stage, OffStage::Counts);
    assert_eq!(reader.feed(b"4 2 5"), Ok(OffEvent::Counts(4)));
    assert_eq!(reader.stage, OffStage::Vertices);
    assert_eq!(
        reader.feed(b"0 0 0"),
        Ok(OffEvent::Vertex(span(0, 1), span(2, 3), span(4, 5)))
    );
    assert_eq!(reader.feed(b"# between the vertices"), Ok(OffEvent::Comment));
    assert!(matches!(reader.feed(b"1.0 0.0 0.0"), Ok(OffEvent::Vertex(..))));
    assert!(matches!(reader.feed(b"1.0 0.0 1.0"), Ok(OffEvent::Vertex(..))));
    assert_eq!(reader.stage, OffStage::Vertices);
    assert!(matches!(reader.feed(b"0.0 0.0 1.0"), Ok(OffEvent::Vertex(..))));
    assert_eq!(reader.stage, OffStage::Faces);
    assert_eq!(reader.mesh.vertex_count, 4);
    assert_eq!(reader.feed(b"3 0 1 2"), Ok(OffEvent::Face(Triangle(0, 1, 2))));
    assert_eq!(reader.feed(b"3 0 2 3"), Ok(OffEvent::Face(Triangle(0, 2, 3))));
    let mesh = reader.finish().ok().unwrap();
    assert_eq!(mesh.vertex_count, 4);
    assert_eq!(mesh.triangles, vec![Triangle(0, 1, 2), Triangle(0, 2, 3)]);
    assert_eq!(
        mesh.edges,
        vec![Edge(0, 1), Edge(0, 2), Edge(1, 2), Edge(0, 3), Edge(2, 3)]
    );
}

#[test]
fn new_reader_stands_before_the_header() {
    let reader = OffReader::new();
    assert_eq!(reader.stage, OffStage::Header);
    assert_eq!(reader.remaining, 0);
    assert_eq!(reader.mesh.vertex_count, 0);
    assert!(reader.mesh.edges.is_empty());
    assert!(reader.mesh.triangles.is_empty());
}

#[test]
fn mesh_file_without_vertices_goes_on_to_the_faces() {
    let reader = read(&[b"OFF", b"0"]).ok().unwrap();
    assert_eq!(reader.stage, OffStage::Faces);
    assert!(reader.finish().is_ok());
}

#[test]
fn mesh_file_must_begin_with_the_header() {
    assert_eq!(
        read(&[b"COFF"]).err(),
        Some(MeshError::Parse(ParseError::MissingHeader))
    );
    assert_eq!(
        read(&[b"# nothing", b"3 0 0"]).err(),
        Some(MeshError::Parse(ParseError::MissingHeader))
    );
    assert_eq!(read(&[b""]).err(), Some(MeshError::Parse(ParseError::MissingHeader)));
    assert_eq!(read(&[b"off"]).err(), Some(MeshError::Parse(ParseError::MissingHeader)));
}

#[test]
fn vertex_count_must_be_an_index() {
    assert_eq!(
        read(&[b"OFF", b"four 2 5"]).err(),
        Some(MeshError::Parse(ParseError::InvalidVertexCount))
    );
    assert_eq!(
        read(&[b"OFF", b"-4"]).err(),
        Some(MeshError::Parse(ParseError::InvalidVertexCount))
    );
}

#[test]
fn vertex_needs_three_coordinates() {
    assert_eq!(
        read(&[b"OFF", b"1", b"0.0 1.0"]).err(),
        Some(MeshError::Parse(ParseError::MalformedCoordinate))
    );
}

#[test]
fn face_of_a_mesh_file_must_be_a_triangle_of_its_vertices() {
    let head: [&[u8]; 5] = [b"OFF", b"3 1 3", b"0 0 0", b"1 0 0", b"0 0 1"];
    let with = |face: &'static [u8]| {
        let mut lines = head.to_vec();
        lines.push(face);
        read(&lines).err()
    };
    assert_eq!(with(b"3 0 1 2"), None);
    assert_eq!(with(b"3 0 1 3"), Some(MeshError::Topology(TopologyError::IndexOutOfBounds)));
    assert_eq!(with(b"3 0 1 1"), Some(MeshError::Topology(TopologyError::NotATriangle)));
    assert_eq!(with(b"4 0 1 2 0"), Some(MeshError::Topology(TopologyError::NotATriangle)));
    assert_eq!(with(b"3 0 1"), Some(MeshError::Parse(ParseError::InvalidFace)));
    assert_eq!(with(b"three"), Some(MeshError::Parse(ParseError::InvalidFace)));
}

#[test]
fn refused_line_leaves_the_reader_as_it_was() {
    let mut reader = read(&[b"OFF", b"3", b"0 0 0", b"1 0 0", b"0 0 1", b"3 0 1 2"]).ok().unwrap();
    assert!(reader.feed(b"3 0 1 7").is_err());
    assert_eq!(reader.stage, OffStage::Faces);
    assert_eq!(reader.mesh.triangles, vec![Triangle(0, 1, 2)]);
    assert_eq!(reader.mesh.edges.len(), 3);
}

#[test]
fn mesh_file_that_ends_early_is_refused() {
    assert_eq!(
        OffReader::new().finish().err(),
        Some(MeshError::Parse(ParseError::MissingHeader))
    );
    assert_eq!(
        read(&[b"OFF"]).ok().unwrap().finish().err(),
        Some(MeshError::Parse(ParseError::InvalidVertexCount))
    );
    assert_eq!(
        read(&[b"OFF", b"2", b"0 0 0"]).ok().unwrap().finish().err(),
        Some(MeshError::Parse(ParseError::MalformedCoordinate))
    );
}
