//! The text formats of mesh files, chain files and current files, line by
//! line. Coordinates are located, not read: a line of coordinates yields the
//! three stretches of the line that hold them.

use crate::mesh::{with_edge, Mesh, TopologyError};
use crate::simplex::Triangle;
use crate::text::{fields, fields_of, index_of, is_comment, is_comment_line, parse_index, text_of,
    Span};
use vstd::prelude::*;

verus! {

/// Why a line of a file is refused.
#[derive(Debug, Clone, Copy, PartialEq, Eq, Structural)]
pub enum ParseError {
    /// The first line of a mesh file does not begin with the field `OFF`,
    /// or the file has no such line.
    MissingHeader,
    /// The second line of a mesh file does not begin with an index, or the
    /// file has no such line.
    InvalidVertexCount,
    /// A line of coordinates has fewer than three fields, or the mesh file
    /// ends before all its vertices.
    MalformedCoordinate,
    /// A face does not begin with an index, or not all of its three vertices
    /// are indices.
    InvalidFace,
    /// A line of a chain file does not begin with two indices.
    InvalidEdge,
}

/// Why a mesh file is refused.
#[derive(Debug, Clone, Copy, PartialEq, Eq, Structural)]
pub enum MeshError {
    Parse(ParseError),
    Topology(TopologyError),
}

/// The index that field `k` of the line writes, if the line has such a
/// field and it writes one.
pub open spec fn field_index(line: Seq<u8>, k: int) -> Option<usize> {
    if 0 <= k < fields_of(line).len() {
        index_of(text_of(line, fields_of(line)[k]))
    } else {
        None
    }
}

/// The edge that a line of a chain file names: its first two fields, which
/// both are indices.
pub open spec fn edge_of_line(line: Seq<u8>) -> Result<(usize, usize), ParseError> {
    match (field_index(line, 0), field_index(line, 1)) {
        (Some(i), Some(j)) => Ok((i, j)),
        _ => Err(ParseError::InvalidEdge),
    }
}

/// The face that a line of a mesh file names: the index 3 followed by three
/// indices.
pub open spec fn face_of_line(line: Seq<u8>) -> Result<(usize, usize, usize), MeshError> {
    match field_index(line, 0) {
        None => Err(MeshError::Parse(ParseError::InvalidFace)),
        Some(count) => if count != 3 {
            Err(MeshError::Topology(TopologyError::NotATriangle))
        } else {
            match (field_index(line, 1), field_index(line, 2), field_index(line, 3)) {
                (Some(i), Some(j), Some(k)) => Ok((i, j, k)),
                _ => Err(MeshError::Parse(ParseError::InvalidFace)),
            }
        },
    }
}

/// Where a line of coordinates holds them: its first three fields.
pub open spec fn coordinates_of_line(line: Seq<u8>) -> Result<(Span, Span, Span), ParseError> {
    if fields_of(line).len() >= 3 {
        Ok((fields_of(line)[0], fields_of(line)[1], fields_of(line)[2]))
    } else {
        Err(ParseError::MalformedCoordinate)
    }
}

/// The first field of the line is `OFF`.
pub open spec fn is_off_header(line: Seq<u8>) -> bool {
    fields_of(line).len() >= 1 && text_of(line, fields_of(line)[0]) == seq![0x4fu8, 0x46u8, 0x46u8]
}

/// The index that field `k` of the line writes.
fn index_at(line: &[u8], f: &Vec<Span>, k: usize) -> (r: Option<usize>)
    requires
        f@ == fields_of(line@),
        crate::text::are_fields(line@, f@),
    ensures
        r == field_index(line@, k as int),
{
    if k < f.len() {
        assert(crate::text::is_field(line@, f@[k as int]));
        parse_index(line, f[k])
    } else {
        None
    }
}

/// Reads a line of a chain file.
pub fn parse_edge(line: &[u8]) -> (r: Result<(usize, usize), ParseError>)
    ensures
        r == edge_of_line(line@),
{
    let f: Vec<Span> = fields(line);
    match (index_at(line, &f, 0), index_at(line, &f, 1)) {
        (Some(i), Some(j)) => Ok((i, j)),
        _ => Err(ParseError::InvalidEdge),
    }
}

/// Reads a face of a mesh file.
pub fn parse_face(line: &[u8]) -> (r: Result<(usize, usize, usize), MeshError>)
    ensures
        r == face_of_line(line@),
{
    let f: Vec<Span> = fields(line);
    match index_at(line, &f, 0) {
        None => Err(MeshError::Parse(ParseError::InvalidFace)),
        Some(count) => {
            if count != 3 {
                Err(MeshError::Topology(TopologyError::NotATriangle))
            } else {
                match (index_at(line, &f, 1), index_at(line, &f, 2), index_at(line, &f, 3)) {
                    (Some(i), Some(j), Some(k)) => Ok((i, j, k)),
                    _ => Err(MeshError::Parse(ParseError::InvalidFace)),
                }
            }
        },
    }
}

/// Finds the three coordinates of a line.
pub fn parse_coordinates(line: &[u8]) -> (r: Result<(Span, Span, Span), ParseError>)
    ensures
        r == coordinates_of_line(line@),
{
    let f: Vec<Span> = fields(line);
    if f.len() >= 3 {
        Ok((f[0], f[1], f[2]))
    } else {
        Err(ParseError::MalformedCoordinate)
    }
}

/// Tells whether the first field of the line is `OFF`.
fn off_header(line: &[u8]) -> (r: bool)
    ensures
        r == is_off_header(line@),
{
    let f: Vec<Span> = fields(line);
    if f.len() == 0 {
        return false;
    }
    let s: Span = f[0];
    assert(crate::text::is_field(line@, f@[0]));
    let found: bool = s.end - s.start == 3 && line[s.start] == 0x4f && line[s.start + 1] == 0x46
        && line[s.start + 2] == 0x46;
    proof {
        let text = text_of(line@, s);
        let want = seq![0x4fu8, 0x46u8, 0x46u8];
        if found {
            assert(text =~= want);
        } else if text == want {
            assert(text.len() == 3);
            assert(text[0] == 0x4f && text[1] == 0x46 && text[2] == 0x46);
        }
    }
    found
}

/// The part of a mesh file that the next line belongs to.
#[derive(Debug, Clone, Copy, PartialEq, Eq, Structural)]
pub enum OffStage {
    Header,
    Counts,
    Vertices,
    Faces,
}

/// What a line of a mesh file was.
#[derive(Debug, Clone, Copy, PartialEq, Eq, Structural)]
pub enum OffEvent {
    /// A comment, which counts for nothing.
    Comment,
    /// The header.
    Header,
    /// The line of counts, with the number of vertices that it gives.
    Counts(usize),
    /// A vertex, with the stretches of the line that hold its coordinates.
    Vertex(Span, Span, Span),
    /// A face, which has been added to the mesh.
    Face(Triangle),
}

/// A mesh file that is being read: the part that has been reached, the
/// number of vertices that are still to come, and the mesh so far.
pub struct OffReader {
    pub stage: OffStage,
    pub remaining: usize,
    pub mesh: Mesh,
}

impl OffReader {
    /// The invariant of a reader.
    pub open spec fn wf(&self) -> bool {
        &&& self.mesh.wf()
        &&& self.stage == OffStage::Header || self.stage == OffStage::Counts
            ==> self.mesh.vertex_count == 0
        &&& self.stage == OffStage::Vertices ==> self.remaining > 0 && self.mesh.vertex_count
            + self.remaining <= usize::MAX
    }

    /// A reader at the beginning of a file.
    pub fn new() -> (r: OffReader)
        ensures
            r.wf(),
            r.stage == OffStage::Header,
            r.remaining == 0,
            r.mesh.vertex_count == 0,
            r.mesh.edges@.len() == 0,
            r.mesh.triangles@.len() == 0,
    {
        OffReader { stage: OffStage::Header, remaining: 0, mesh: Mesh::new(0) }
    }

    /// Takes the next line of the file. A comment changes nothing. Any other
    /// line must be what the stage asks for: the header, then the counts,
    /// then as many vertices as the counts gave, then faces. A vertex raises
    /// the vertex count of the mesh, a face is added to the mesh. A line
    /// that is refused changes nothing.
    pub fn feed(&mut self, line: &[u8]) -> (r: Result<OffEvent, MeshError>)
        requires
            old(self).wf(),
        ensures
            final(self).wf(),
            r is Err ==> *final(self) == *old(self),
            is_comment_line(line@) ==> r == Ok::<OffEvent, MeshError>(OffEvent::Comment)
                && *final(self) == *old(self),
            !is_comment_line(line@) && old(self).stage == OffStage::Header ==> (if is_off_header(
                line@,
            ) {
                &&& r == Ok::<OffEvent, MeshError>(OffEvent::Header)
                &&& final(self).stage == OffStage::Counts
                &&& final(self).remaining == old(self).remaining
                &&& final(self).mesh == old(self).mesh
            } else {
                r == Err::<OffEvent, MeshError>(MeshError::Parse(ParseError::MissingHeader))
            }),
            !is_comment_line(line@) && old(self).stage == OffStage::Counts ==> (match field_index(
                line@,
                0,
            ) {
                Some(v) => {
                    &&& r == Ok::<OffEvent, MeshError>(OffEvent::Counts(v))
                    &&& final(self).stage == (if v == 0 {
                        OffStage::Faces
                    } else {
                        OffStage::Vertices
                    })
                    &&& final(self).remaining == v
                    &&& final(self).mesh == old(self).mesh
                },
                None => r == Err::<OffEvent, MeshError>(
                    MeshError::Parse(ParseError::InvalidVertexCount),
                ),
            }),
            !is_comment_line(line@) && old(self).stage == OffStage::Vertices
                ==> (match coordinates_of_line(line@) {
                Ok((x, y, z)) => {
                    &&& r == Ok::<OffEvent, MeshError>(OffEvent::Vertex(x, y, z))
                    &&& final(self).remaining == old(self).remaining - 1
                    &&& final(self).stage == (if old(self).remaining == 1 {
                        OffStage::Faces
                    } else {
                        OffStage::Vertices
                    })
                    &&& final(self).mesh.vertex_count == old(self).mesh.vertex_count + 1
                    &&& final(self).mesh.edges@ == old(self).mesh.edges@
                    &&& final(self).mesh.triangles@ == old(self).mesh.triangles@
                },
                Err(e) => r == Err::<OffEvent, MeshError>(MeshError::Parse(e)),
            }),
            !is_comment_line(line@) && old(self).stage == OffStage::Faces ==> (match face_of_line(
                line@,
            ) {
                Ok((i, j, k)) => {
                    if !old(self).mesh.triangle_ok(Triangle(i, j, k)) {
                        r == Err::<OffEvent, MeshError>(
                            MeshError::Topology(
                                if i >= old(self).mesh.vertex_count
                                    || j >= old(self).mesh.vertex_count
                                    || k >= old(self).mesh.vertex_count {
                                    TopologyError::IndexOutOfBounds
                                } else {
                                    TopologyError::NotATriangle
                                },
                            ),
                        )
                    } else {
                        &&& r == Ok::<OffEvent, MeshError>(OffEvent::Face(Triangle(i, j, k)))
                        &&& final(self).stage == OffStage::Faces
                        &&& final(self).remaining == old(self).remaining
                        &&& final(self).mesh.vertex_count == old(self).mesh.vertex_count
                        &&& final(self).mesh.triangles@ == old(self).mesh.triangles@.push(
                            Triangle(i, j, k),
                        )
                        &&& final(self).mesh.edges@ == with_edge(
                            with_edge(with_edge(old(self).mesh.edges@, i, j), i, k),
                            j,
                            k,
                        )
                    }
                },
                Err(e) => r == Err::<OffEvent, MeshError>(e),
            }),
    {
        if is_comment(line) {
            return Ok(OffEvent::Comment);
        }
        match self.stage {
            OffStage::Header => {
                if off_header(line) {
                    self.stage = OffStage::Counts;
                    Ok(OffEvent::Header)
                } else {
                    Err(MeshError::Parse(ParseError::MissingHeader))
                }
            },
            OffStage::Counts => {
                let f: Vec<Span> = fields(line);
                match index_at(line, &f, 0) {
                    Some(v) => {
                        self.remaining = v;
                        self.stage = if v == 0 {
                            OffStage::Faces
                        } else {
                            OffStage::Vertices
                        };
                        Ok(OffEvent::Counts(v))
                    },
                    None => Err(MeshError::Parse(ParseError::InvalidVertexCount)),
                }
            },
            OffStage::Vertices => {
                match parse_coordinates(line) {
                    Ok((x, y, z)) => {
                        self.mesh.vertex_count = self.mesh.vertex_count + 1;
                        self.remaining = self.remaining - 1;
                        if self.remaining == 0 {
                            self.stage = OffStage::Faces;
                        }
                        proof {
                            assert forall|a: int| 0 <= a < self.mesh.edges@.len()
                                implies self.mesh.edge_ok(
                                #[trigger] self.mesh.edges@[a],
                            ) by {
                                assert(old(self).mesh.edge_ok(old(self).mesh.edges@[a]));
                            }
                            assert forall|a: int|
                                0 <= a < self.mesh.triangles@.len() implies self.mesh.triangle_ok(
                                #[trigger] self.mesh.triangles@[a],
                            ) by {
                                assert(old(self).mesh.triangle_ok(old(self).mesh.triangles@[a]));
                            }
                        }
                        Ok(OffEvent::Vertex(x, y, z))
                    },
                    Err(e) => Err(MeshError::Parse(e)),
                }
            },
            OffStage::Faces => {
                match parse_face(line) {
                    Ok((i, j, k)) => {
                        match self.mesh.add_face(i, j, k) {
                            Ok(()) => Ok(OffEvent::Face(Triangle(i, j, k))),
                            Err(e) => Err(MeshError::Topology(e)),
                        }
                    },
                    Err(e) => Err(e),
                }
            },
        }
    }

    /// The mesh of a file that has been read to its end. A file that ends
    /// before its faces begin is refused.
    pub fn finish(self) -> (r: Result<Mesh, MeshError>)
        requires
            self.wf(),
        ensures
            match self.stage {
                OffStage::Header => r == Err::<Mesh, MeshError>(
                    MeshError::Parse(ParseError::MissingHeader),
                ),
                OffStage::Counts => r == Err::<Mesh, MeshError>(
                    MeshError::Parse(ParseError::InvalidVertexCount),
                ),
                OffStage::Vertices => r == Err::<Mesh, MeshError>(
                    MeshError::Parse(ParseError::MalformedCoordinate),
                ),
                OffStage::Faces => r == Ok::<Mesh, MeshError>(self.mesh) && self.mesh.wf(),
            },
    {
        match self.stage {
            OffStage::Header => Err(MeshError::Parse(ParseError::MissingHeader)),
            OffStage::Counts => Err(MeshError::Parse(ParseError::InvalidVertexCount)),
            OffStage::Vertices => Err(MeshError::Parse(ParseError::MalformedCoordinate)),
            OffStage::Faces => Ok(self.mesh),
        }
    }
}

} // verus!
