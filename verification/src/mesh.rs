//! What the renderer is handed: vertex positions and the indices that
//! string them together.

use crate::geometry::Point;
use crate::quad::Quad;
use vstd::prelude::*;

verus! {

/// How the indices of a mesh are to be read.
#[derive(Clone, Copy, Debug, PartialEq, Eq, Structural)]
pub enum PrimitiveTopology {
    /// Every two indices are one line.
    LineList,
    /// Every three indices are one triangle.
    TriangleList,
}

/// Geometry ready to draw.
#[derive(Debug)]
pub struct Mesh {
    pub primitive_topology: PrimitiveTopology,
    pub positions: Vec<Point>,
    pub indices: Vec<u32>,
}

/// A straight line between two points, drawn to show where a ray goes.
#[derive(Clone, Copy, Debug, PartialEq, Eq, Structural)]
pub struct Line {
    pub start: Point,
    pub end: Point,
}

impl Mesh {
    /// The mesh is the single line from `start` to `end`.
    pub open spec fn is_line(self, line: Line) -> bool {
        &&& self.primitive_topology == PrimitiveTopology::LineList
        &&& self.positions@ == seq![line.start, line.end]
        &&& self.indices@ == seq![0u32, 1u32]
    }

    /// The mesh is the quadrilateral: its corners in counter-clockwise
    /// order, cut into the triangles `(0, 1, 2)` and `(0, 2, 3)`.
    pub open spec fn is_quad(self, quad: Quad) -> bool {
        &&& self.primitive_topology == PrimitiveTopology::TriangleList
        &&& self.positions@ == quad.sorted_corners()
        &&& self.indices@ == seq![0u32, 1u32, 2u32, 0u32, 2u32, 3u32]
    }

    /// The mesh of a line.
    pub fn from_line(value: Line) -> (mesh: Mesh)
        ensures
            mesh.is_line(value),
    {
        let mut positions: Vec<Point> = Vec::new();
        positions.push(value.start);
        positions.push(value.end);
        let mut indices: Vec<u32> = Vec::new();
        indices.push(0);
        indices.push(1);
        assert(positions@ =~= seq![value.start, value.end]);
        assert(indices@ =~= seq![0u32, 1u32]);
        Mesh { primitive_topology: PrimitiveTopology::LineList, positions, indices }
    }

    /// The mesh of a quadrilateral, whatever order its corners come in.
    pub fn from_quad(value: Quad) -> (mesh: Mesh)
        requires
            value.in_reach(),
        ensures
            mesh.is_quad(value),
    {
        let values = value.counter_clockwise();
        let mut positions: Vec<Point> = Vec::new();
        positions.push(values[0]);
        positions.push(values[1]);
        positions.push(values[2]);
        positions.push(values[3]);
        let mut indices: Vec<u32> = Vec::new();
        indices.push(0);
        indices.push(1);
        indices.push(2);
        indices.push(0);
        indices.push(2);
        indices.push(3);
        assert(positions@ =~= value.sorted_corners());
        assert(indices@ =~= seq![0u32, 1u32, 2u32, 0u32, 2u32, 3u32]);
        Mesh { primitive_topology: PrimitiveTopology::TriangleList, positions, indices }
    }
}

} // verus!
