//! Choosing between the two hull algorithms.

use vstd::prelude::*;
use crate::point::{Point, valid_points};
use crate::jarvis::{encloses_ccw, in_general_position, jarvis_march, left_of, leftmost_index, wrap_closes, wrap_walk};
use crate::kirkpatrick::{encloses, kirk_patrick_seidel};

verus! {

/// The implemented hull algorithms.
#[derive(Clone, Copy, Debug, PartialEq, Eq, Structural)]
pub enum AlgorithmType {
    JarvisMarch,
    KirkPatrickSeidel,
}

impl AlgorithmType {
    /// The convex hull of `points` by this algorithm.
    pub fn hull(&self, points: Vec<Point>) -> (h: Vec<Point>)
        requires
            valid_points(points@),
        ensures
            points@.len() == 0 ==> h@.len() == 0,
            forall|i: int| 0 <= i < h@.len() ==> points@.contains(#[trigger] h@[i]),
            *self == AlgorithmType::JarvisMarch && points@.len() < 3 ==> h@.len() == 0,
            *self == AlgorithmType::JarvisMarch && points@.len() >= 3 ==> {
                let l = leftmost_index(points@, points@.len() as int);
                &&& h@ == wrap_walk(points@, l, l, points@.len())
                &&& h@.len() < points@.len() ==> wrap_closes(points@, l, l, points@.len())
            },
            *self == AlgorithmType::JarvisMarch && points@.len() >= 3 && in_general_position(
                points@,
            ) ==> {
                let l = leftmost_index(points@, points@.len() as int);
                &&& forall|i: int, j: int|
                    0 <= i < h@.len() - 1 && 0 <= j < points@.len() ==> left_of(
                        #[trigger] h@[i],
                        h@[i + 1],
                        #[trigger] points@[j],
                    )
                &&& wrap_closes(points@, l, l, points@.len()) ==> forall|j: int|
                    0 <= j < points@.len() ==> encloses_ccw(h@, #[trigger] points@[j])
            },
            *self == AlgorithmType::KirkPatrickSeidel ==> points@.len() > 0 ==> h@.len() >= 1,
            *self == AlgorithmType::KirkPatrickSeidel ==> forall|j: int|
                0 <= j < points@.len() ==> encloses(h@, #[trigger] points@[j]),
            *self == AlgorithmType::KirkPatrickSeidel && h@.len() == 1 ==> forall|j: int|
                0 <= j < points@.len() ==> #[trigger] points@[j] == h@[0],
    {
        match self {
            AlgorithmType::JarvisMarch => jarvis_march(points),
            AlgorithmType::KirkPatrickSeidel => kirk_patrick_seidel(points),
        }
    }
}

} // verus!
