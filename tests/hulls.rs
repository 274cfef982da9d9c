use convex_hull::bridge::bridge;
use convex_hull::upper::{connect, upper_hull};
use convex_hull::{jarvis_march, kirk_patrick_seidel, AlgorithmType, Point};
use rand::rngs::StdRng;
use rand::{Rng, SeedableRng};
use std::collections::BTreeSet;

fn pts(coords: &[(i64, i64)]) -> Vec<Point> {
    coords.iter().map(|&(x, y)| Point::new(x, y)).collect()
}

fn as_set(hull: &[Point]) -> BTreeSet<(i64, i64)> {
    hull.iter().map(|p| (p.x, p.y)).collect()
}

fn turn(p: Point, q: Point, r: Point) -> i128 {
    let (px, py, qx, qy, rx, ry) = (p.x as i128, p.y as i128, q.x as i128, q.y as i128, r.x as i128, r.y as i128);
    (qy - py) * (rx - qx) - (qx - px) * (ry - qy)
}

/// Every point lies on or right of each edge (clockwise boundary).
fn enclosed_clockwise(hull: &[Point], points: &[Point]) -> bool {
    let n = hull.len();
    (0..n).all(|i| points.iter().all(|&p| turn(hull[i], hull[(i + 1) % n], p) >= 0))
}

/// Every point lies on or left of each edge (counter-clockwise boundary).
fn enclosed_counter_clockwise(hull: &[Point], points: &[Point]) -> bool {
    let n = hull.len();
    (0..n).all(|i| points.iter().all(|&p| turn(hull[i], hull[(i + 1) % n], p) <= 0))
}

fn random_points(seed: u64, n: usize, range: i64) -> Vec<Point> {
    let mut rng = StdRng::seed_from_u64(seed);
    (0..n)
        .map(|_| Point::new(rng.gen_range(-range..=range), rng.gen_range(-range..=range)))
        .collect()
}

fn disk_points(seed: u64, n: usize, radius: f64, scale: f64) -> Vec<Point> {
    let mut rng = StdRng::seed_from_u64(seed);
    let mut out = Vec::new();
    while out.len() < n {
        let x: f64 = rng.gen_range(-radius..radius);
        let y: f64 = rng.gen_range(-radius..radius);
        if x * x + y * y <= radius * radius {
            out.push(Point::new((x * scale).round() as i64, (y * scale).round() as i64));
        }
    }
    out
}

#[test]
fn square_scenario_both_algorithms() {
    let points = pts(&[(0, 3), (2, 2), (1, 1), (2, 1), (3, 0), (0, 0), (3, 3)]);
    let expected: BTreeSet<(i64, i64)> = [(0, 0), (3, 0), (3, 3), (0, 3)].into_iter().collect();
    let ks = kirk_patrick_seidel(points.clone());
    assert_eq!(ks.len(), 4);
    assert_eq!(as_set(&ks), expected);
    assert_eq!(ks, pts(&[(0, 3), (3, 3), (3, 0), (0, 0)]));
    let jm = jarvis_march(points.clone());
    assert_eq!(jm.len(), 4);
    assert_eq!(as_set(&jm), expected);
    assert_eq!(jm[0], Point::new(0, 0));
}

#[test]
fn disk_scenario_hull_is_small_and_on_the_rim() {
    let radius = 100.0;
    let scale = 1000.0;
    let points = disk_points(7, 1000, radius, scale);
    let ks = kirk_patrick_seidel(points.clone());
    let jm = jarvis_march(points.clone());
    assert!(ks.len() >= 3 && ks.len() < 100, "hull size {}", ks.len());
    assert_eq!(as_set(&ks), as_set(&jm));
    for p in &ks {
        let r = ((p.x as f64).powi(2) + (p.y as f64).powi(2)).sqrt() / scale;
        assert!(r > 0.9 * radius && r <= radius + 0.01, "vertex {:?} at radius {}", p, r);
    }
    assert!(enclosed_clockwise(&ks, &points));
    assert!(enclosed_counter_clockwise(&jm, &points));
}

#[test]
fn identical_points_give_one_vertex() {
    let points = vec![Point::new(5, 5); 50];
    assert_eq!(kirk_patrick_seidel(points.clone()), vec![Point::new(5, 5)]);
    assert_eq!(jarvis_march(points), vec![Point::new(5, 5)]);
}

#[test]
fn collinear_points_keep_only_the_ends() {
    let points = pts(&[(0, 0), (1, 0), (2, 0), (3, 0)]);
    let ks = kirk_patrick_seidel(points.clone());
    assert_eq!(ks, pts(&[(0, 0), (3, 0)]));
    let shuffled = pts(&[(2, 0), (0, 0), (3, 0), (1, 0)]);
    let ks = kirk_patrick_seidel(shuffled.clone());
    assert_eq!(as_set(&ks), as_set(&pts(&[(0, 0), (3, 0)])));
    assert_eq!(jarvis_march(points), pts(&[(0, 0), (3, 0)]));
    assert_eq!(jarvis_march(shuffled), pts(&[(0, 0), (3, 0)]));
}

#[test]
fn degenerate_sizes() {
    assert!(kirk_patrick_seidel(vec![]).is_empty());
    assert!(jarvis_march(vec![]).is_empty());
    let one = pts(&[(4, -2)]);
    assert_eq!(kirk_patrick_seidel(one.clone()), one);
    assert!(jarvis_march(one).is_empty());
    let two = pts(&[(1, 1), (-3, 2)]);
    let ks = kirk_patrick_seidel(two.clone());
    assert_eq!(as_set(&ks), as_set(&two));
    assert_eq!(ks.len(), 2);
    assert!(jarvis_march(two).is_empty());
    let vertical = pts(&[(2, 5), (2, -1), (2, 3)]);
    assert_eq!(kirk_patrick_seidel(vertical), pts(&[(2, 5), (2, -1)]));
}

#[test]
fn algorithms_agree_on_random_sets() {
    for seed in 0..20u64 {
        let points = random_points(seed, 200, 1_000_000);
        let ks = kirk_patrick_seidel(points.clone());
        let jm = jarvis_march(points.clone());
        assert_eq!(as_set(&ks), as_set(&jm), "seed {}", seed);
        assert!(enclosed_clockwise(&ks, &points));
        assert!(enclosed_counter_clockwise(&jm, &points));
    }
}

#[test]
fn hull_of_a_hull_is_itself() {
    for seed in 100..110u64 {
        let points = random_points(seed, 300, 1_000_000);
        let ks = kirk_patrick_seidel(points.clone());
        let again = kirk_patrick_seidel(ks.clone());
        assert_eq!(as_set(&again), as_set(&ks));
        assert_eq!(again.len(), ks.len());
        let jm = jarvis_march(points);
        let again = jarvis_march(jm.clone());
        assert_eq!(as_set(&again), as_set(&jm));
        assert_eq!(again.len(), jm.len());
    }
}

#[test]
fn large_random_sets_complete_and_agree() {
    for &n in &[1_000usize, 10_000, 100_000] {
        let points = random_points(n as u64, n, 1_000_000_000);
        let ks = kirk_patrick_seidel(points.clone());
        let jm = jarvis_march(points.clone());
        assert_eq!(as_set(&ks), as_set(&jm), "n {}", n);
        assert!(ks.len() < 200);
    }
}

#[test]
fn hull_vertices_come_from_the_input() {
    let points = random_points(42, 500, 10_000);
    let input = as_set(&points);
    for hull in [kirk_patrick_seidel(points.clone()), jarvis_march(points.clone())] {
        assert!(hull.iter().all(|p| input.contains(&(p.x, p.y))));
    }
}

#[test]
fn jarvis_passes_over_duplicates() {
    let points = pts(&[(0, 0), (2, 0), (2, 0), (1, 2)]);
    assert_eq!(jarvis_march(points), pts(&[(0, 0), (2, 0), (1, 2)]));
}

#[test]
fn duplicates_do_not_repeat_vertices() {
    let points = pts(&[(0, 0), (4, 0), (4, 4), (0, 4), (0, 0), (4, 4), (2, 2), (0, 4)]);
    let ks = kirk_patrick_seidel(points.clone());
    assert_eq!(ks.len(), 4);
    assert_eq!(as_set(&ks), as_set(&pts(&[(0, 0), (4, 0), (4, 4), (0, 4)])));
    let jm = jarvis_march(points);
    assert_eq!(jm, pts(&[(0, 0), (4, 0), (4, 4), (0, 4)]));
}

#[test]
fn algorithm_type_dispatches() {
    let points = pts(&[(0, 3), (2, 2), (1, 1), (2, 1), (3, 0), (0, 0), (3, 3)]);
    let a = AlgorithmType::JarvisMarch.hull(points.clone());
    let b = AlgorithmType::KirkPatrickSeidel.hull(points.clone());
    assert_eq!(a, jarvis_march(points.clone()));
    assert_eq!(b, kirk_patrick_seidel(points));
}

#[test]
fn bridge_over_a_line() {
    // upper tangent over x = 1 of a small set
    let points = pts(&[(0, 0), (1, 5), (2, 1), (3, 4), (4, 0)]);
    let (l, r) = bridge(&points, 2);
    assert_eq!((l, r), (Point::new(1, 5), Point::new(3, 4)));
    let (l, r) = bridge(&points, 0);
    assert_eq!((l, r), (Point::new(0, 0), Point::new(1, 5)));
    let two = pts(&[(5, 1), (-5, 1)]);
    assert_eq!(bridge(&two, 0), (Point::new(-5, 1), Point::new(5, 1)));
}

#[test]
fn upper_hull_and_connect() {
    let points = pts(&[(0, 0), (1, 5), (2, 1), (3, 4), (4, 0), (0, 2), (4, 1)]);
    assert_eq!(upper_hull(&points), pts(&[(0, 2), (1, 5), (3, 4), (4, 1)]));
    let work = pts(&[(0, 2), (4, 1), (1, 5), (2, 1), (3, 4)]);
    assert_eq!(connect(Point::new(0, 2), Point::new(4, 1), &work), pts(&[(0, 2), (1, 5), (3, 4), (4, 1)]));
}

#[test]
fn jarvis_starts_at_lowest_leftmost_point() {
    let points = pts(&[(3, 3), (0, 1), (5, 0), (0, -1), (2, -4)]);
    let jm = jarvis_march(points.clone());
    assert_eq!(jm[0], Point::new(0, -1));
    assert!(enclosed_counter_clockwise(&jm, &points));
    assert_eq!(as_set(&jm), as_set(&kirk_patrick_seidel(points)));
}

#[test]
fn jarvis_handles_a_vertical_through_the_start() {
    // three points on the vertical through the leftmost points
    let points = pts(&[(0, 0), (0, 2), (0, -2), (1, 0)]);
    let jm = jarvis_march(points.clone());
    assert_eq!(jm, pts(&[(0, -2), (1, 0), (0, 2)]));
    assert!(enclosed_counter_clockwise(&jm, &points));
    assert_eq!(jarvis_march(jm.clone()), jm);
    let ks = kirk_patrick_seidel(points.clone());
    assert!(enclosed_clockwise(&ks, &points));
    assert_eq!(as_set(&ks), as_set(&pts(&[(0, 2), (1, 0), (0, -2)])));
}
