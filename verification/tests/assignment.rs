use redistricter::assignment::{
    center_quotas, pair_cost, AssignmentBuilder, Center, WeightedPoint,
};
use redistricter::simplex::FlowError;

fn pt(x: i64, y: i64) -> WeightedPoint {
    WeightedPoint { x, y, weight: 1 }
}

fn ct(x: i64, y: i64, weight: i64) -> Center {
    Center { x, y, weight }
}

#[test]
fn quotas_are_balanced() {
    let q = center_quotas(4, 2);
    assert_eq!(q, vec![2, 2]);
    let q = center_quotas(7, 3);
    assert_eq!(q, vec![3, 2, 2]);
    let q = center_quotas(2, 5);
    assert_eq!(q, vec![1, 1, 0, 0, 0]);
    let q = center_quotas(0, 3);
    assert_eq!(q, vec![0, 0, 0]);
}

#[test]
fn pair_cost_is_squared_distance_less_weight() {
    let p = pt(2, -1);
    let c = ct(-1, 3, 5);
    // dx = 3, dy = -4, squared distance 25, weight 5.
    assert_eq!(pair_cost(&p, &c), 20);
}

#[test]
fn unit_square_splits_between_opposite_corners() {
    // Four points at the corners of the unit square, two equally weighted
    // centers at opposite corners: each center takes its own corner plus one
    // of the two tied middle corners, quota 4 / 2 = 2 each, and the sum of
    // squared distances to the chosen centers is 0 + 0 + 1 + 1 = 2.
    let points = vec![pt(0, 0), pt(1, 0), pt(0, 1), pt(1, 1)];
    let centers = vec![ct(0, 0, 3), ct(1, 1, 3)];
    let builder = AssignmentBuilder::new(points, centers);
    let a = builder.solve_assignment(100_000).unwrap();
    assert_eq!(a.assigned_center.len(), 4);
    assert_eq!(a.assigned_center[0], 0);
    assert_eq!(a.assigned_center[3], 1);
    let taken_by_first = a.assigned_center.iter().filter(|&&c| c == 0).count();
    assert_eq!(taken_by_first, 2);
    assert_eq!(a.total_squared_distance, 2);
    // Objective: squared distances less one weight of 3 per assigned point.
    assert_eq!(a.total_cost, 2 - 4 * 3);
}

#[test]
fn single_center_takes_every_point() {
    // With one center the quota is the full point count, so every point is
    // assigned to it regardless of its weight, and the squared-distance
    // total is the plain sum over all points.
    let points = vec![pt(0, 0), pt(1, 0), pt(0, 1), pt(1, 1)];
    let centers = vec![ct(5, 5, 7)];
    let builder = AssignmentBuilder::new(points, centers);
    let a = builder.solve_assignment(100_000).unwrap();
    assert_eq!(a.assigned_center, vec![0, 0, 0, 0]);
    assert_eq!(a.total_squared_distance, 50 + 41 + 41 + 32);
    assert_eq!(a.total_cost, 164 - 4 * 7);
}

#[test]
fn heavier_center_attracts_points() {
    // Three points between two centers; the right-hand center's weight
    // discount does not change the split, but quotas do: 3 points over 2
    // centers give the first center 2 seats.
    let points = vec![pt(0, 0), pt(10, 0), pt(4, 0)];
    let centers = vec![ct(0, 0, 0), ct(10, 0, 0)];
    let builder = AssignmentBuilder::new(points, centers);
    let a = builder.solve_assignment(100_000).unwrap();
    assert_eq!(a.assigned_center[0], 0);
    assert_eq!(a.assigned_center[1], 1);
    // The middle point goes to the first center, which still has a seat.
    assert_eq!(a.assigned_center[2], 0);
    assert_eq!(a.total_squared_distance, 16);
}

#[test]
fn coordinates_too_far_apart_overflow() {
    // The squared distance between opposite limit corners does not fit the
    // network's 32-bit cost word.
    let points = vec![pt(-1_000_000_000, -1_000_000_000)];
    let centers = vec![ct(1_000_000_000, 1_000_000_000, 0)];
    let builder = AssignmentBuilder::new(points, centers);
    let r = builder.solve_assignment(100_000);
    assert!(matches!(r, Err(FlowError::NumericOverflow)));
}

#[test]
fn no_points_is_an_empty_assignment() {
    let points: Vec<WeightedPoint> = vec![];
    let centers = vec![ct(0, 0, 0), ct(5, 5, 0)];
    let builder = AssignmentBuilder::new(points, centers);
    let a = builder.solve_assignment(100_000).unwrap();
    assert_eq!(a.assigned_center.len(), 0);
    assert_eq!(a.total_cost, 0);
    assert_eq!(a.total_squared_distance, 0);
}
