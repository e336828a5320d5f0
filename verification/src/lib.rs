//! Two-dimensional visibility for a top-down scene: which things a viewer
//! sees past the walls, and the shadows the walls throw.
//!
//! Positions live on an integer grid. Every decision the engine takes
//! (do two segments cross, does a wall block a line of sight, is a sprite
//! swallowed by a shadow) is taken in exact integer arithmetic, so the
//! contracts can state the geometry itself. One value is rounded: the end
//! of a ray followed to the border of the window is the grid point nearest
//! to where the ray really ends.
//!
//! - `geometry`: points, segments, and whether two segments cross.
//! - `occluder`: walls, and whether a segment crosses one.
//! - `sight`: who sees whom along straight lines of sight.
//! - `projection`: following a ray to the border of the window.
//! - `quad`: quadrilaterals, their corners in counter-clockwise order, and
//!   whether a point lies in one.
//! - `mesh`: lines and quadrilaterals as vertex positions and indices.
//! - `light`: the shadows of the walls, kept up to date as walls come and
//!   go and the viewer moves, and what they hide.
//! - `wedge`: the proof that what lies behind an edge lies in its shadow.

pub mod geometry;
pub mod light;
pub mod mesh;
pub mod occluder;
pub mod projection;
pub mod quad;
pub mod sight;
pub mod wedge;
