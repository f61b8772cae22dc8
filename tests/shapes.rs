use srtree::{euclidean, Euclidean, Metric, Point, Rect, Sphere};

fn pt(c: Vec<i32>) -> Point {
    Point::with_coords(c)
}

#[test]
fn test_rect_closest_point() {
    let rec = Rect::new(vec![5, 5], vec![10, 10]);
    assert_eq!(rec.closest_point_to(&pt(vec![0, 0])).coords, [5, 5]);
    assert_eq!(rec.closest_point_to(&pt(vec![15, 0])).coords, [10, 5]);
    assert_eq!(rec.closest_point_to(&pt(vec![0, 15])).coords, [5, 10]);
    assert_eq!(rec.closest_point_to(&pt(vec![15, 15])).coords, [10, 10]);
    assert_eq!(rec.closest_point_to(&pt(vec![7, 7])).coords, [7, 7]);
}

#[test]
fn rect_test_rect_farthest_point() {
    let rec = Rect::new(vec![5, 5], vec![10, 10]);
    assert_eq!(rec.farthest_point_to(&pt(vec![0, 0])).coords, [10, 10]);
    assert_eq!(rec.farthest_point_to(&pt(vec![15, 0])).coords, [5, 10]);
    assert_eq!(rec.farthest_point_to(&pt(vec![0, 15])).coords, [10, 5]);
    assert_eq!(rec.farthest_point_to(&pt(vec![15, 15])).coords, [5, 5]);
    assert_eq!(rec.farthest_point_to(&pt(vec![15, 5])).coords, [5, 10]);
}

#[test]
fn rect_test_intersects_point() {
    let rec = Rect::new(vec![0, 0], vec![10, 10]);
    let point2 = pt(vec![5, 5]);
    assert!(rec.intersects_point(&point2));
}

#[test]
fn rect_test_doesnot_intersect_point() {
    let rec = Rect::new(vec![0, 0], vec![10, 10]);
    let point1 = pt(vec![11, 0]);
    assert_eq!(rec.intersects_point(&point1), false);
}

#[test]
fn rect_test_intersects_rect() {
    let rec = Rect::new(vec![0, 0], vec![10, 10]);
    let rec2 = Rect::new(vec![5, 5], vec![15, 15]);
    assert!(rec.intersects(&rec2));
}

#[test]
fn rect_test_doesnot_intersect_rect() {
    let rec = Rect::new(vec![0, 0], vec![10, 10]);
    let rec2 = Rect::new(vec![15, 0], vec![20, 10]);
    assert_eq!(rec.intersects(&rec2), false);
}

fn ball(c: Vec<i32>, radius: u128) -> Sphere {
    Sphere::new(pt(c), radius * radius)
}

#[test]
fn test_sphere_intersects_point() {
    let sphere1 = ball(vec![0, 0], 10);
    let point1 = pt(vec![5, 5]);
    assert!(sphere1.intersects_point(&point1));
}

#[test]
fn test_sphere_doesnot_intersect_point() {
    let sphere1 = ball(vec![0, 0], 10);
    let point2 = pt(vec![15, 15]);
    assert!(!sphere1.intersects_point(&point2));
}

#[test]
fn sphere_test_sphere_intersects_sphere() {
    let sphere1 = ball(vec![0, 0], 10);
    let sphere2 = ball(vec![15, 15], 15);
    assert!(sphere1.intersects(&sphere2));
}

#[test]
fn sphere_test_sphere_doesnot_intersect_sphere() {
    let sphere1 = ball(vec![450, 150], 50);
    let sphere2 = ball(vec![530, 220], 50);
    assert_eq!(sphere1.intersects(&sphere2), false);
    let sphere3 = ball(vec![0, 0], 5);
    let sphere4 = ball(vec![20, 20], 5);
    assert_eq!(sphere3.intersects(&sphere4), false);
}

#[test]
fn sphere_test_sphere_intersects_its_clone() {
    let sphere1 = ball(vec![0, 0], 10);
    let sphere2 = ball(vec![0, 0], 10);
    assert!(sphere1.intersects(&sphere2));
}

#[test]
fn sphere_test_sphere_intersects_smaller_sphere() {
    let sphere1 = ball(vec![0, 0], 10);
    let sphere2 = ball(vec![10, 10], 100);
    assert!(sphere1.intersects(&sphere2));
}

#[test]
fn test_from_point() {
    let sphere = Sphere::from_point(&pt(vec![1, 1]));
    assert_eq!(sphere.radius_sq, 0);
}

#[test]
fn distance_test_distance() {
    let point1 = vec![1, 0, 0];
    let point2 = vec![2, 0, 0];
    assert_eq!(euclidean(&point1, &point2), Some(1));
}

#[test]
fn distance_test_dimension_mismatch() {
    let point1 = vec![1, 0, 0];
    let point2 = vec![2, 0];
    let metric = Euclidean::new();
    assert_eq!(metric.distance_squared(&point1, &point2), None);
    assert_eq!(euclidean(&point1, &point2), None);
}

#[test]
fn test_euclidean() {
    let point1 = vec![1, 0, 0];
    let point2 = vec![2, 0, 0];
    let metric = Euclidean::new();
    assert_eq!(metric.distance_squared(&point1, &point2), Some(1));
}

#[test]
fn squared_distance_is_exact() {
    let metric = Euclidean::new();
    assert_eq!(metric.distance_squared(&[0, 0], &[3, 4]), Some(25));
    assert_eq!(metric.distance_squared(&[-2_000_000_000, 7], &[2_000_000_000, 7]), Some(16_000_000_000_000_000_000));
    assert_eq!(euclidean(&[0, 0], &[3, 4]), Some(5));
    assert_eq!(euclidean(&[0, 0], &[1, 1]), Some(1));
    assert_eq!(euclidean(&[], &[]), Some(0));
}

#[test]
fn sphere_intersection_rounds_toward_meeting() {
    // centers 15 apart, radii 7 and 8: touching balls meet
    assert!(ball(vec![0, 0], 7).intersects(&ball(vec![15, 0], 8)));
    // centers 16 apart, radii 7 and 8: apart
    assert!(!ball(vec![0, 0], 7).intersects(&ball(vec![16, 0], 8)));
    // balls of different dimension never meet
    assert!(!ball(vec![0, 0], 7).intersects(&ball(vec![0, 0, 0], 8)));
}

#[test]
fn manhattan_metric() {
    let metric = srtree::Manhattan::new();
    assert_eq!(metric.distance(&[4, 4], &[8, 8]), Some(8));
    assert_eq!(metric.distance(&[3, 3], &[8, 8]), Some(10));
    assert_eq!(metric.distance(&[2, 2], &[8, 8]), Some(12));
    assert_eq!(metric.distance_squared(&[2, 2], &[8, 8]), Some(144));
    assert_eq!(metric.distance(&[-5, 7], &[5, -7]), Some(24));
    assert_eq!(metric.distance(&[1, 2], &[1]), None);
    let euclid = Euclidean::new();
    assert_eq!(euclid.distance(&[0, 0], &[3, 4]), Some(5));
}
