use single_line::error::PathError;
use single_line::geometry::{squared_distance, tour_visits, Point};

fn walk_length(points: &[(f32, f32)], visits: &[usize]) -> f32 {
    let mut length = 0f32;
    for i in 0..visits.len() - 1 {
        let p = points[visits[i]];
        let q = points[visits[i + 1]];
        let dx = q.0 - p.0;
        let dy = q.1 - p.1;
        length += (dx * dx + dy * dy).sqrt();
    }
    length
}

#[test]
fn test_round_trip() {
    let pts = vec![(0f32, 0f32), (1f32, 0f32)];
    let visits = tour_visits(pts.len(), None, true).unwrap();
    assert_eq!(visits, vec![0, 1, 0]);
    assert_eq!(walk_length(&pts, &visits), 2f32);
}

#[test]
fn test_one_way_trip() {
    let pts = vec![(0f32, 0f32), (1f32, 0f32)];
    let visits = tour_visits(pts.len(), None, false).unwrap();
    assert_eq!(visits, vec![0, 1]);
    assert_eq!(walk_length(&pts, &visits), 1f32);
}

#[test]
fn test_back_and_forth() {
    let pts = vec![(0f32, 0f32), (1f32, 0f32)];
    let order = vec![0usize, 1, 0, 1];
    let visits = tour_visits(pts.len(), Some(&order), false).unwrap();
    assert_eq!(visits, vec![0, 1, 0, 1]);
    assert_eq!(walk_length(&pts, &visits), 3f32);
}

#[test]
fn closed_walk_repeats_first_of_given_order() {
    let order = vec![2usize, 0, 1];
    assert_eq!(tour_visits(3, Some(&order), true), Ok(vec![2, 0, 1, 2]));
}

#[test]
fn fewer_than_two_points_is_invalid() {
    assert_eq!(tour_visits(1, None, true), Err(PathError::InvalidInput));
    assert_eq!(tour_visits(0, None, false), Err(PathError::InvalidInput));
}

#[test]
fn reversed_order_has_same_length() {
    let pts = vec![(0f32, 0f32), (3f32, 0f32), (3f32, 4f32), (0f32, 4f32)];
    let order = vec![0usize, 2, 1, 3];
    let reversed: Vec<usize> = order.iter().rev().cloned().collect();
    for close in [false, true] {
        let a = walk_length(&pts, &tour_visits(4, Some(&order), close).unwrap());
        let b = walk_length(&pts, &tour_visits(4, Some(&reversed), close).unwrap());
        assert_eq!(a, b);
    }
}

#[test]
fn squared_distance_is_exact() {
    assert_eq!(squared_distance(Point::new(0, 0), Point::new(3, 4)), 25);
    assert_eq!(squared_distance(Point::new(3, 4), Point::new(0, 0)), 25);
    let lo = Point::new(i32::MIN, i32::MIN);
    let hi = Point::new(i32::MAX, i32::MAX);
    let d: u128 = (u32::MAX as u128) * (u32::MAX as u128) * 2;
    assert_eq!(squared_distance(lo, hi), d);
}
