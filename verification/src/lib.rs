//! Median shapes of one-dimensional chains on an oriented triangle mesh.
//!
//! A mesh is oriented, input chains are laid on its edges, and the median
//! of the chains is the minimum of a linear program. The library builds the
//! mesh, orients it, and puts the program together; it states what the
//! program's solutions are. Solving the program is left to a solver of
//! linear programs.

pub mod boundary;
pub mod chain;
pub mod format;
pub mod heavy;
pub mod layout;
pub mod median;
pub mod mesh;
pub mod objective;
pub mod orient;
pub mod plain;
pub mod program;
pub mod simplex;
pub mod snap;
pub mod solution;
mod spread;
pub mod text;

pub use crate::boundary::{boundary_entry, Boundary};
pub use crate::chain::{Chain, Current, InputError, SignedTerm};
pub use crate::format::{MeshError, OffEvent, OffReader, OffStage, ParseError};
pub use crate::layout::Layout;
pub use crate::median::MedianShape;
pub use crate::mesh::{Mesh, TopologyError};
pub use crate::orient::OrientationError;
pub use crate::program::{assemble, Cost, Program, Row, Term, WeightSign};
pub use crate::simplex::{Edge, Orientation, Triangle};
pub use crate::text::Span;
