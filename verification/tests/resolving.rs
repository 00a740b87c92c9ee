use radial_nav::error::ResolveError;
use radial_nav::location::DistanceGraph;
use radial_nav::identity::{contains_id, find_position};
use radial_nav::matrix::check_square;
use radial_nav::polar::{PolarCoordinates, Radial};
use radial_nav::resolver::{calibrate, collect_skipped, find_second_axis, flag_skips};
use radial_nav::arithmetic::{Arithmetic, Op};
use radial_nav::scalar::Scalar;
use std::f64::consts::PI;

fn s(x: f64) -> Scalar {
    Scalar::from_bits(x.to_bits())
}

fn f(x: Scalar) -> f64 {
    f64::from_bits(x.to_bits())
}

fn fpu(op: Op) -> Scalar {
    s(match op {
        Op::Add(a, b) => f(a) + f(b),
        Op::Sub(a, b) => f(a) - f(b),
        Op::Mul(a, b) => f(a) * f(b),
        Op::Div(a, b) => f(a) / f(b),
        Op::Sqrt(a) => f(a).sqrt(),
        Op::Sin(a) => f(a).sin(),
        Op::Cos(a) => f(a).cos(),
        Op::Asin(a) => f(a).asin(),
        Op::Acos(a) => f(a).acos(),
        Op::FromInt(n) => n as f64,
    })
}

fn unit() -> Arithmetic<fn(Op) -> Scalar> {
    Arithmetic::new(fpu)
}

fn matrix_of(points: &[(f64, f64)]) -> Vec<Vec<Scalar>> {
    let mut rows = Vec::new();
    for a in points {
        let mut row = Vec::new();
        for b in points {
            row.push(s(((a.0 - b.0).powi(2) + (a.1 - b.1).powi(2)).sqrt()));
        }
        rows.push(row);
    }
    rows
}

fn matrix(values: &[&[f64]]) -> Vec<Vec<Scalar>> {
    values.iter().map(|row| row.iter().map(|x| s(*x)).collect()).collect()
}

fn at(angle_degrees: f64, radius: f64) -> (f64, f64) {
    let a = angle_degrees.to_radians();
    (radius * a.cos(), radius * a.sin())
}

fn resolve(ids: &[u64], points: &[(f64, f64)]) -> PolarCoordinates {
    let r = DistanceGraph::new().get_coordinates(ids.to_vec(), matrix_of(points), &unit()).unwrap();
    assert!(r.failures.is_empty());
    r.coordinates
}

fn angle_of(p: &PolarCoordinates, id: u64) -> f64 {
    f(p.get(&id).unwrap().angle)
}

fn radius_of(p: &PolarCoordinates, id: u64) -> f64 {
    f(p.get(&id).unwrap().radius)
}

#[test]
fn third_node_of_a_right_triangle_lies_at_ninety_degrees() {
    let p = resolve(&[1, 2, 3], &[(0.0, 0.0), (10.0, 0.0), (0.0, 10.0)]);
    assert_eq!(p.origin, 1);
    assert!(p.get(&1).is_none());
    assert_eq!(radius_of(&p, 2), 10.0);
    assert_eq!(angle_of(&p, 2), 0.0);
    assert_eq!(radius_of(&p, 3), 10.0);
    assert!((angle_of(&p, 3) - PI / 2.0).abs() < 1e-6);
    assert_eq!(p.radials.len(), 2);
}

#[test]
fn node_beyond_the_second_axis_keeps_its_angle() {
    let p = resolve(&[1, 2, 3, 4], &[(0.0, 0.0), (10.0, 0.0), at(45.0, 8.0), at(90.0, 5.0)]);
    assert!((angle_of(&p, 3) - 45.0f64.to_radians()).abs() < 1e-6);
    assert!((angle_of(&p, 4) - 90.0f64.to_radians()).abs() < 1e-6);
    assert!((radius_of(&p, 4) - 5.0).abs() < 1e-12);
}

#[test]
fn node_between_the_axes_keeps_its_angle() {
    let p = resolve(&[1, 2, 3, 4], &[(0.0, 0.0), (10.0, 0.0), at(45.0, 8.0), at(30.0, 5.0)]);
    assert!((angle_of(&p, 3) - 45.0f64.to_radians()).abs() < 1e-6);
    assert!((angle_of(&p, 4) - 30.0f64.to_radians()).abs() < 1e-6);
}

#[test]
fn mirrored_node_gets_the_negative_angle() {
    let above = resolve(&[1, 2, 3, 4], &[(0.0, 0.0), (10.0, 0.0), at(45.0, 8.0), at(30.0, 5.0)]);
    let below = resolve(&[1, 2, 3, 4], &[(0.0, 0.0), (10.0, 0.0), at(45.0, 8.0), at(-30.0, 5.0)]);
    assert!((angle_of(&above, 4) - 30.0f64.to_radians()).abs() < 1e-6);
    assert!((angle_of(&below, 4) + 30.0f64.to_radians()).abs() < 1e-6);
    assert!((radius_of(&above, 4) - radius_of(&below, 4)).abs() < 1e-12);
    assert!((angle_of(&below, 3) - 45.0f64.to_radians()).abs() < 1e-6);
}

#[test]
fn several_nodes_on_both_sides_of_the_axis() {
    let degrees = [0.0, 0.0, 60.0, 120.0, -45.0, 170.0, -100.0, 20.0];
    let mut points = vec![(0.0, 0.0), (7.0, 0.0)];
    for k in 2..degrees.len() {
        points.push(at(degrees[k], 3.0 + k as f64));
    }
    let ids: Vec<u64> = (10..18).collect();
    let p = resolve(&ids, &points);
    for k in 2..degrees.len() {
        let got = angle_of(&p, ids[k]);
        assert!((got - degrees[k].to_radians()).abs() < 1e-6, "node {k}: {got}");
        assert!((radius_of(&p, ids[k]) - (3.0 + k as f64)).abs() < 1e-9);
    }
}

#[test]
fn two_nodes_resolve_without_a_second_axis() {
    let p = resolve(&[1, 2], &[(0.0, 0.0), (4.0, 0.0)]);
    assert_eq!(p.radials.len(), 1);
    assert_eq!(radius_of(&p, 2), 4.0);
    assert_eq!(angle_of(&p, 2), 0.0);
}

#[test]
fn nodes_on_one_line_resolve_without_a_second_axis() {
    let p = resolve(&[1, 2, 3], &[(0.0, 0.0), (4.0, 0.0), (9.0, 0.0)]);
    assert_eq!(angle_of(&p, 2), 0.0);
    assert_eq!(angle_of(&p, 3), 0.0);
    assert_eq!(radius_of(&p, 3), 9.0);
}

#[test]
fn node_at_the_origin_gets_radius_and_angle_zero() {
    let p = resolve(&[1, 2, 3, 4], &[(0.0, 0.0), (10.0, 0.0), (0.0, 0.0), (0.0, 10.0)]);
    assert_eq!(radius_of(&p, 3), 0.0);
    assert_eq!(angle_of(&p, 3), 0.0);
    assert!((angle_of(&p, 4) - PI / 2.0).abs() < 1e-6);
}

#[test]
fn distances_that_break_the_triangle_inequality_give_no_nan() {
    let d = matrix(&[&[0.0, 1.0, 1.0], &[1.0, 0.0, 3.0], &[1.0, 3.0, 0.0]]);
    let p = DistanceGraph::new().get_coordinates(vec![1, 2, 3], d, &unit()).unwrap().coordinates;
    assert_eq!(angle_of(&p, 3), PI);
}

#[test]
fn fewer_than_two_nodes_are_insufficient() {
    let g = DistanceGraph::new();
    assert_eq!(
        g.get_coordinates(vec![], vec![], &unit()).err(),
        Some(ResolveError::InsufficientData)
    );
    assert_eq!(
        g.get_coordinates(vec![1], matrix(&[&[0.0]]), &unit()).err(),
        Some(ResolveError::InsufficientData)
    );
}

#[test]
fn matrix_of_the_wrong_shape_is_a_mismatch() {
    let g = DistanceGraph::new();
    assert_eq!(
        g.get_coordinates(vec![1, 2, 3], matrix(&[&[0.0, 1.0], &[1.0, 0.0]]), &unit()).err(),
        Some(ResolveError::DimensionMismatch)
    );
    assert_eq!(
        g.get_coordinates(vec![1, 2], matrix(&[&[0.0, 1.0], &[1.0]]), &unit()).err(),
        Some(ResolveError::DimensionMismatch)
    );
    assert_eq!(
        g.get_coordinates(vec![1], vec![], &unit()).err(),
        Some(ResolveError::DimensionMismatch)
    );
}

#[test]
fn origin_label_standing_twice_is_listed_as_a_failure() {
    let d = matrix(&[&[0.0, 1.0, 2.0], &[1.0, 0.0, 1.5], &[2.0, 1.5, 0.0]]);
    let r = DistanceGraph::new().get_coordinates(vec![1, 2, 1], d, &unit()).unwrap();
    assert_eq!(r.failures, vec![1]);
    assert_eq!(r.coordinates.origin, 1);
    assert_eq!(r.coordinates.radials.len(), 1);
    assert_eq!(radius_of(&r.coordinates, 2), 1.0);
    assert_eq!(angle_of(&r.coordinates, 2), 0.0);
}

#[test]
fn node_whose_label_is_also_skipped_loses_its_place() {
    // Label 3 stands once at the origin, where it is flagged, and once off
    // the axis: the second pass leaves the label out, so its place off the
    // axis cannot be reconciled. Node 4 is the second axis.
    let points = [(0.0, 0.0), (10.0, 0.0), (0.0, 0.0), at(60.0, 4.0), at(-30.0, 6.0), at(-45.0, 3.0)];
    let r = DistanceGraph::new()
        .get_coordinates(vec![1, 2, 3, 4, 3, 5], matrix_of(&points), &unit())
        .unwrap();
    assert_eq!(r.failures, vec![3]);
    assert!(r.coordinates.get(&3).is_none());
    assert_eq!(r.coordinates.radials.len(), 3);
    assert_eq!(angle_of(&r.coordinates, 2), 0.0);
    assert!((angle_of(&r.coordinates, 4) - 60.0f64.to_radians()).abs() < 1e-6);
    assert!((angle_of(&r.coordinates, 5) + 45.0f64.to_radians()).abs() < 1e-6);
}

#[test]
fn one_pass_places_every_node_that_is_not_skipped() {
    let d = matrix_of(&[(0.0, 0.0), (10.0, 0.0), (0.0, 10.0), at(-30.0, 5.0)]);
    let calibration: Vec<(u64, Scalar)> = vec![(1, d[0][0]), (2, d[0][1]), (3, d[0][2]), (4, d[0][3])];
    let p = PolarCoordinates::from_distances(1, 2, vec![1, 3], &calibration, &d, &unit()).unwrap();
    assert_eq!(p.origin, 1);
    assert_eq!(p.radials.len(), 2);
    assert_eq!(angle_of(&p, 2), 0.0);
    assert_eq!(radius_of(&p, 2), 10.0);
    assert!((angle_of(&p, 4) - 30.0f64.to_radians()).abs() < 1e-6);
    assert!((radius_of(&p, 4) - 5.0).abs() < 1e-12);
}

#[test]
fn one_pass_keeps_the_axis_though_it_is_skipped() {
    let d = matrix_of(&[(0.0, 0.0), (10.0, 0.0), (0.0, 10.0)]);
    let calibration: Vec<(u64, Scalar)> = vec![(1, d[0][0]), (2, s(77.0)), (3, d[0][2])];
    let p = PolarCoordinates::from_distances(1, 2, vec![1, 2], &calibration, &d, &unit()).unwrap();
    assert_eq!(radius_of(&p, 2), 77.0);
    assert_eq!(angle_of(&p, 2), 0.0);
    assert!((angle_of(&p, 3) - PI / 2.0).abs() < 1e-6);
}

#[test]
fn one_pass_fails_without_its_axis_or_on_a_wrong_shape() {
    let d = matrix_of(&[(0.0, 0.0), (10.0, 0.0)]);
    let calibration: Vec<(u64, Scalar)> = vec![(1, d[0][0]), (2, d[0][1])];
    assert_eq!(
        PolarCoordinates::from_distances(1, 9, vec![], &calibration, &d, &unit()).err(),
        Some(ResolveError::MissingNode)
    );
    let short: Vec<(u64, Scalar)> = vec![(1, d[0][0])];
    assert_eq!(
        PolarCoordinates::from_distances(1, 1, vec![], &short, &d, &unit()).err(),
        Some(ResolveError::DimensionMismatch)
    );
    let ragged = matrix(&[&[0.0, 1.0], &[1.0]]);
    assert_eq!(
        PolarCoordinates::from_distances(1, 2, vec![], &calibration, &ragged, &unit()).err(),
        Some(ResolveError::DimensionMismatch)
    );
}

#[test]
fn coordinates_hold_what_was_added() {
    let mut p = PolarCoordinates::new(1);
    assert_eq!(p.origin, 1);
    assert!(p.get(&2).is_none());
    p.add_radial(Radial { id: 2, radius: s(3.0), angle: s(0.5) });
    assert_eq!(p.get(&2), Some(&Radial { id: 2, radius: s(3.0), angle: s(0.5) }));
    p.add_radial(Radial { id: 2, radius: s(4.0), angle: s(0.25) });
    assert_eq!(radius_of(&p, 2), 4.0);
    p.add_b_edge(3, s(10.0), s(10.0), s(200.0f64.sqrt()), &unit());
    assert_eq!(radius_of(&p, 3), 10.0);
    assert!((angle_of(&p, 3) - PI / 2.0).abs() < 1e-6);
    assert_eq!(p.radials.len(), 2);
}

#[test]
fn reconciling_keeps_an_angle_that_matches_the_sum() {
    let mut p = PolarCoordinates::new(1);
    p.add_radial(Radial { id: 4, radius: s(5.0), angle: s(1.5) });
    let seen = Radial { id: 4, radius: s(5.0), angle: s(0.5) };
    assert_eq!(p.reconcile_radial(s(1.0), 4, &seen, &unit()), Ok(()));
    assert_eq!(angle_of(&p, 4), 1.5);
    assert_eq!(radius_of(&p, 4), 5.0);
}

#[test]
fn reconciling_keeps_an_angle_within_the_tolerance() {
    let mut p = PolarCoordinates::new(1);
    p.add_radial(Radial { id: 4, radius: s(5.0), angle: s(1.50000005) });
    let seen = Radial { id: 4, radius: s(5.0), angle: s(0.5) };
    assert_eq!(p.reconcile_radial(s(1.0), 4, &seen, &unit()), Ok(()));
    assert_eq!(angle_of(&p, 4), 1.50000005);
}

#[test]
fn reconciling_replaces_an_angle_that_does_not_match() {
    let mut p = PolarCoordinates::new(1);
    p.add_radial(Radial { id: 4, radius: s(5.0), angle: s(0.5) });
    let seen = Radial { id: 4, radius: s(5.0), angle: s(1.5) };
    assert_eq!(p.reconcile_radial(s(1.0), 4, &seen, &unit()), Ok(()));
    assert_eq!(angle_of(&p, 4), -0.5);
    assert_eq!(radius_of(&p, 4), 5.0);
}

#[test]
fn reconciling_replaces_an_angle_just_outside_the_tolerance() {
    let mut p = PolarCoordinates::new(1);
    p.add_radial(Radial { id: 4, radius: s(5.0), angle: s(1.5000002) });
    let seen = Radial { id: 4, radius: s(5.0), angle: s(0.5) };
    assert_eq!(p.reconcile_radial(s(1.0), 4, &seen, &unit()), Ok(()));
    assert_eq!(angle_of(&p, 4), 0.5);
}

#[test]
fn reconciling_a_node_that_has_no_place_fails() {
    let mut p = PolarCoordinates::new(1);
    p.add_radial(Radial { id: 4, radius: s(5.0), angle: s(0.5) });
    let seen = Radial { id: 5, radius: s(5.0), angle: s(1.5) };
    assert_eq!(p.reconcile_radial(s(1.0), 5, &seen, &unit()), Err(ResolveError::MissingNode));
    assert_eq!(p.radials.len(), 1);
    assert_eq!(angle_of(&p, 4), 0.5);
}

#[test]
fn a_place_can_be_changed_where_it_stands() {
    let mut p = PolarCoordinates::new(1);
    p.add_radial(Radial { id: 2, radius: s(3.0), angle: s(0.5) });
    p.add_radial(Radial { id: 3, radius: s(4.0), angle: s(0.75) });
    assert!(p.get_mut(&9).is_none());
    assert_eq!(p.radials.len(), 2);
    match p.get_mut(&2) {
        Some(place) => {
            assert_eq!(*place, Radial { id: 2, radius: s(3.0), angle: s(0.5) });
            place.angle = s(-0.5);
        },
        None => panic!("node 2 has a place"),
    }
    assert_eq!(angle_of(&p, 2), -0.5);
    assert_eq!(radius_of(&p, 2), 3.0);
    assert_eq!(angle_of(&p, 3), 0.75);
    assert_eq!(p.radials.len(), 2);
}

#[test]
fn calibration_pairs_nodes_with_their_distance_from_the_origin() {
    let d = matrix(&[&[0.0, 1.0, 2.0], &[1.0, 0.0, 1.5], &[2.0, 1.5, 0.0]]);
    let c = calibrate(&vec![7, 8, 9], &d);
    assert_eq!(c, vec![(7, s(0.0)), (8, s(1.0)), (9, s(2.0))]);
}

#[test]
fn flags_mark_nodes_at_the_origin_and_on_the_axis() {
    let points = [(0.0, 0.0), (10.0, 0.0), (0.0, 0.0), (0.0, 10.0), (5.0, 0.0), at(-30.0, 6.0)];
    let ids: Vec<u64> = vec![1, 2, 3, 4, 5, 6];
    let d = matrix_of(&points);
    let calibration = calibrate(&ids, &d);
    let first = PolarCoordinates::from_distances(1, 2, vec![1], &calibration, &d, &unit()).unwrap();
    let skip = flag_skips(&ids, &d, &first);
    assert_eq!(skip, vec![true, true, true, false, true, false]);
    assert_eq!(find_second_axis(&skip), Some(3));
    assert_eq!(collect_skipped(&ids, &skip), vec![1, 2, 3, 5]);
}

#[test]
fn flags_mark_a_label_on_the_axis_at_its_first_place_only() {
    let points = [(0.0, 0.0), (10.0, 0.0), (0.0, 10.0), (5.0, 0.0)];
    let ids: Vec<u64> = vec![1, 2, 4, 4];
    let d = matrix_of(&points);
    let calibration = calibrate(&ids, &d);
    let first = PolarCoordinates::from_distances(1, 2, vec![1], &calibration, &d, &unit()).unwrap();
    assert_eq!(angle_of(&first, 4), 0.0);
    assert_eq!(flag_skips(&ids, &d, &first), vec![true, true, true, false]);
}

#[test]
fn second_axis_is_the_first_node_that_is_not_flagged() {
    assert_eq!(find_second_axis(&vec![true, true, false, false]), Some(2));
    assert_eq!(find_second_axis(&vec![false, true]), Some(0));
    assert_eq!(find_second_axis(&vec![true, true]), None);
    assert_eq!(find_second_axis(&vec![]), None);
}

#[test]
fn skipped_labels_come_in_the_order_of_the_nodes() {
    assert_eq!(collect_skipped(&vec![5, 6, 7, 5], &vec![true, false, true, true]), vec![5, 7, 5]);
    assert_eq!(collect_skipped(&vec![5, 6], &vec![false, false]), Vec::<u64>::new());
}

#[test]
fn square_matrices_are_told_from_others() {
    assert!(check_square(&matrix(&[&[0.0, 1.0], &[1.0, 0.0]])));
    assert!(check_square(&matrix(&[])));
    assert!(!check_square(&matrix(&[&[0.0, 1.0], &[1.0]])));
    assert!(!check_square(&matrix(&[&[0.0, 1.0]])));
}

#[test]
fn finding_the_first_place_of_a_label() {
    let ids: Vec<u64> = vec![5, 6, 7, 6, 5];
    assert_eq!(find_position(&ids, 5), Some(0));
    assert_eq!(find_position(&ids, 6), Some(1));
    assert_eq!(find_position(&ids, 7), Some(2));
    assert_eq!(find_position(&ids, 8), None);
    assert!(contains_id(&ids, 7));
    assert!(!contains_id(&ids, 1));
    assert!(!contains_id(&vec![], 1));
}
