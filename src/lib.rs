//! Convex hulls of finite planar point sets, by gift wrapping (Jarvis march)
//! and by the marriage-before-conquest method of Kirkpatrick and Seidel.
//!
//! Coordinates are integers of absolute value at most `COORD_LIMIT`, so every
//! orientation and slope comparison is exact: no tie is ever decided by a
//! rounding error or a tolerance.
//!
//! Conventions of the two algorithms:
//! - `kirk_patrick_seidel` lists the hull clockwise from the leftmost point
//!   (the highest of them). It returns nothing for no points, the one point
//!   for coincident points, and both points for two distinct points. Its
//!   contract proves that every hull vertex is an input point, that every
//!   input point lies on or right of every edge of the closed boundary, and
//!   that a hull of one vertex comes only from coincident points.
//! - `jarvis_march` lists the hull counter-clockwise from the leftmost point
//!   (the lowest of them), and returns nothing for fewer than three points.
//!   Of collinear candidates it takes the furthest. The walk stops when it is back at the first vertex, and after at
//!   most one step per point. Every vertex is an input point; for points in
//!   general position every point lies on or left of each edge, and of the
//!   closing edge once the walk has closed.

pub mod point;
pub mod select;
pub mod bridge;
pub mod upper;
pub mod kirkpatrick;
pub mod jarvis;
pub mod algorithm;

pub use algorithm::AlgorithmType;
pub use jarvis::jarvis_march;
pub use kirkpatrick::kirk_patrick_seidel;
pub use point::{COORD_LIMIT, Orientation, Point, orientation};
pub use select::{SelectionError, median_of_medians};
