use convex_hull::bridge::Slope;
use convex_hull::select::select_median;
use convex_hull::{median_of_medians, orientation, Orientation, Point, SelectionError};

#[test]
fn median_of_empty_is_an_error() {
    let empty: Vec<i64> = vec![];
    assert_eq!(median_of_medians(&empty), Err(SelectionError::Empty));
}

#[test]
fn median_of_small_sets_is_the_middle() {
    assert_eq!(median_of_medians(&[7i64]), Ok(7));
    assert_eq!(median_of_medians(&[3i64, 1, 2]), Ok(2));
    // even length: the lower of the two middles
    assert_eq!(median_of_medians(&[4i64, 1, 3, 2]), Ok(2));
    assert_eq!(median_of_medians(&[5i64, 5, 1, 9, 5]), Ok(5));
}

#[test]
fn median_of_medians_of_groups() {
    // groups [5,4,3,2,1] and [0]: middles 3 and 0, whose lower middle is 0
    assert_eq!(median_of_medians(&[5i64, 4, 3, 2, 1, 0]), Ok(0));
    let v: Vec<i64> = (1..=25).collect();
    // middles 3, 8, 13, 18, 23 -> 13
    assert_eq!(median_of_medians(&v), Ok(13));
    let w: Vec<i64> = (0..100).rev().collect();
    let m = median_of_medians(&w).unwrap();
    assert!(m >= 30 && m <= 70, "median of medians {}", m);
    assert_eq!(select_median(&w), m);
}

#[test]
fn median_of_slopes() {
    let slopes = [Slope { dy: 1, dx: 2 }, Slope { dy: 3, dx: 1 }, Slope { dy: -1, dx: 4 }];
    assert_eq!(median_of_medians(&slopes), Ok(Slope { dy: 1, dx: 2 }));
}

#[test]
fn orientation_classifies_turns() {
    let p = Point::new(0, 0);
    let q = Point::new(4, 0);
    assert_eq!(orientation(&p, &q, &Point::new(4, 3)), Orientation::Counterclockwise);
    assert_eq!(orientation(&p, &q, &Point::new(4, -3)), Orientation::Clockwise);
    assert_eq!(orientation(&p, &q, &Point::new(9, 0)), Orientation::Colinear);
}
