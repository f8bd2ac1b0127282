//! Placement of a figure inside a polygonal hole: exact integer geometry,
//! the cost functions built on it, and two randomized search strategies.
//!
//! A figure is a graph whose vertices are to be placed on grid points so that
//! every vertex and every edge lies in the hole, every edge keeps its length
//! within a tolerance, and the corners of the hole are as near to vertices as
//! can be. The modules, from the ground up:
//!
//! - `point`, `polygon`: grid points, and the containment of points and
//!   segments in a polygon; `polygon_laws`, `convex`, `parity` and
//!   `segment_laws` hold what is proved of them;
//! - `stretch`, `root`: the tolerance on the length of an edge, and square
//!   roots in whole numbers;
//! - `model`: problems and poses;
//! - `dislikes`: the cost of a pose;
//! - `constraints`: the constraints around one vertex, as a verdict and as a
//!   penalty;
//! - `hill_climb`: the local strategy;
//! - `field`, `score`, `anneal`: the proximity field, the score built on it,
//!   and the global strategy; `field_laws` and `feasibility` hold what is
//!   proved of them;
//! - `random`: the source of the random choices.

pub mod point;
pub mod polygon;
pub mod polygon_laws;
pub mod convex;
pub mod parity;
pub mod segment_laws;
pub mod stretch;
pub mod root;
pub mod model;
pub mod dislikes;
pub mod constraints;
pub mod random;
pub mod hill_climb;
pub mod field;
pub mod field_laws;
pub mod score;
pub mod anneal;
pub mod feasibility;
