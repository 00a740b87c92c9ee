use radial_nav::agent::Agent;
use radial_nav::polar::Radial;
use radial_nav::arithmetic::{Arithmetic, Op};
use radial_nav::scalar::Scalar;
use std::f64::consts::PI;

fn s(x: f64) -> Scalar {
    Scalar::from_bits(x.to_bits())
}

fn f(x: Scalar) -> f64 {
    f64::from_bits(x.to_bits())
}

fn fpu(op: Op) -> Scalar {
    s(match op {
        Op::Add(a, b) => f(a) + f(b),
        Op::Sub(a, b) => f(a) - f(b),
        Op::Mul(a, b) => f(a) * f(b),
        Op::Div(a, b) => f(a) / f(b),
        Op::Sqrt(a) => f(a).sqrt(),
        Op::Sin(a) => f(a).sin(),
        Op::Cos(a) => f(a).cos(),
        Op::Asin(a) => f(a).asin(),
        Op::Acos(a) => f(a).acos(),
        Op::FromInt(n) => n as f64,
    })
}

fn unit() -> Arithmetic<fn(Op) -> Scalar> {
    Arithmetic::new(fpu)
}

fn radial(id: u64, radius: f64, angle: f64) -> Radial {
    Radial { id, radius: s(radius), angle: s(angle) }
}

fn cartesian(r: &Radial) -> (f64, f64) {
    let (x, y) = r.get_cartesian(&unit());
    (f(x), f(y))
}

fn is_idle(a: &Agent) -> bool {
    a.current_coord.is_none() && a.path.is_empty()
}

#[test]
fn new_agent_is_idle_where_it_was_put() {
    let a = Agent::new(3, radial(1, 2.0, 0.5), s(10.0), 777);
    assert_eq!(a.origin, 3);
    assert_eq!(a.position, radial(1, 2.0, 0.5));
    assert_eq!(f(a.velocity), 10.0);
    assert_eq!(a.last_update, 777);
    assert!(is_idle(&a));
}

#[test]
fn agent_covers_half_the_way_in_half_the_time() {
    let mut a = Agent::new(0, radial(1, 0.0, 0.0), s(10.0), 0);
    a.send_position(&radial(1, 100.0, 0.0), &unit());
    assert!(!is_idle(&a));
    let p = a.get_position(5_000, &unit());
    assert!((f(p.radius) - 50.0).abs() < 1e-6);
    assert!(f(p.angle).abs() < 1e-6);
    assert!(!is_idle(&a));
    assert!((f(a.current_coord.unwrap().radius) - 50.0).abs() < 1e-6);
    assert_eq!(a.last_update, 5_000);
}

#[test]
fn agent_arrives_and_rests_when_the_time_is_up() {
    let mut a = Agent::new(0, radial(1, 0.0, 0.0), s(10.0), 0);
    a.send_position(&radial(1, 100.0, 0.0), &unit());
    a.get_position(5_000, &unit());
    let p = a.get_position(10_000, &unit());
    assert_eq!(f(p.radius), 100.0);
    assert!(is_idle(&a));
    assert_eq!(a.position, p);
}

#[test]
fn agent_arrives_and_rests_when_more_than_the_time_is_up() {
    let mut a = Agent::new(0, radial(1, 0.0, 0.0), s(10.0), 0);
    a.send_position(&radial(1, 100.0, 0.0), &unit());
    let p = a.get_position(25_000, &unit());
    assert_eq!(f(p.radius), 100.0);
    assert_eq!(f(p.angle), 0.0);
    assert!(is_idle(&a));
    let q = a.get_position(99_000, &unit());
    assert_eq!(q, p);
}

#[test]
fn idle_agent_stays_and_its_clock_is_not_touched() {
    let mut a = Agent::new(0, radial(1, 3.0, 1.0), s(10.0), 40);
    let p = a.get_position(90_000, &unit());
    assert_eq!(p, radial(1, 3.0, 1.0));
    assert_eq!(a.last_update, 40);
    assert!(is_idle(&a));
}

#[test]
fn clock_that_ran_backwards_counts_as_no_time() {
    let mut a = Agent::new(0, radial(1, 0.0, 0.0), s(10.0), 50_000);
    a.send_position(&radial(1, 100.0, 0.0), &unit());
    let p = a.get_position(20_000, &unit());
    assert_eq!(f(p.radius), 0.0);
    assert_eq!(a.last_update, 20_000);
    assert_eq!(f(a.current_coord.unwrap().radius), 100.0);
    let p = a.get_position(21_000, &unit());
    assert!((f(p.radius) - 10.0).abs() < 1e-9);
}

#[test]
fn no_time_means_no_movement() {
    let mut a = Agent::new(0, radial(1, 0.0, 0.0), s(10.0), 7);
    a.send_position(&radial(1, 100.0, 0.0), &unit());
    let p = a.get_position(7, &unit());
    assert_eq!(f(p.radius), 0.0);
    assert!(!is_idle(&a));
}

#[test]
fn first_waypoint_starts_a_leg_and_later_ones_queue_up() {
    let mut a = Agent::new(0, radial(1, 0.0, 0.0), s(1.0), 0);
    a.send_position(&radial(1, 10.0, 0.0), &unit());
    assert!(a.path.is_empty());
    assert_eq!(f(a.current_coord.unwrap().radius), 10.0);
    assert_eq!(f(a.current_coord.unwrap().angle), 0.0);
    a.send_position(&radial(1, 20.0, 1.0), &unit());
    a.send_position(&radial(1, 30.0, 2.0), &unit());
    assert_eq!(a.path.len(), 2);
    assert_eq!(a.path[0], radial(1, 20.0, 1.0));
    assert_eq!(a.path[1], radial(1, 30.0, 2.0));
    assert_eq!(f(a.current_coord.unwrap().radius), 10.0);
    assert_eq!(a.last_update, 0);
    assert_eq!(a.position, radial(1, 0.0, 0.0));
}

#[test]
fn agent_passes_waypoints_in_the_order_given() {
    let mut a = Agent::new(0, radial(1, 0.0, 0.0), s(1.0), 0);
    a.send_position(&radial(1, 10.0, 0.0), &unit());
    a.send_position(&radial(1, 10.0, PI / 2.0), &unit());
    a.send_position(&radial(1, 0.0, 0.0), &unit());

    // 10 along the axis, then 5 of the way towards (0, 10).
    let p = a.get_position(15_000, &unit());
    let (x, y) = cartesian(&p);
    let step = 5.0 / 2.0f64.sqrt();
    assert!((x - (10.0 - step)).abs() < 1e-9, "x = {x}");
    assert!((y - step).abs() < 1e-9, "y = {y}");
    assert_eq!(a.path.len(), 1);
    assert!((f(a.current_coord.unwrap().radius) - (200.0f64.sqrt() - 5.0)).abs() < 1e-9);

    // The rest of that leg, and 3 of the way back to the origin.
    let p = a.get_position(15_000 + ((200.0f64.sqrt() - 5.0 + 3.0) * 1000.0) as u64, &unit());
    let (x, y) = cartesian(&p);
    assert!(x.abs() < 1e-3, "x = {x}");
    assert!((y - 7.0).abs() < 1e-3, "y = {y}");
    assert!(a.path.is_empty());
    assert!(!is_idle(&a));

    let p = a.get_position(1_000_000, &unit());
    assert!(f(p.radius) < 1e-9);
    assert!(is_idle(&a));
}

#[test]
fn waypoint_at_the_agents_place_is_passed_at_once() {
    let mut a = Agent::new(0, radial(1, 5.0, 0.0), s(1.0), 0);
    a.send_position(&radial(1, 5.0, 0.0), &unit());
    a.send_position(&radial(1, 8.0, 0.0), &unit());
    assert_eq!(f(a.current_coord.unwrap().radius), 0.0);
    let p = a.get_position(1_000, &unit());
    assert!((f(p.radius) - 6.0).abs() < 1e-9);
    assert!(!f(p.angle).is_nan());
    let p = a.get_position(10_000, &unit());
    assert!((f(p.radius) - 8.0).abs() < 1e-9);
    assert!(is_idle(&a));
}

#[test]
fn agent_ends_at_the_last_of_many_waypoints() {
    let mut a = Agent::new(0, radial(1, 25.0, 0.5), s(100.0), 1_000);
    let mut seed: u64 = 0x9E37_79B9_7F4A_7C15;
    let mut last = radial(1, 0.0, 0.0);
    let mut way = 0.0;
    let mut from = cartesian(&a.position);
    for _ in 0..10 {
        seed ^= seed << 13;
        seed ^= seed >> 7;
        seed ^= seed << 17;
        let radius = (seed % 10_000) as f64 / 100.0;
        let angle = ((seed >> 20) % 6_283) as f64 / 1000.0;
        last = radial(1, radius, angle);
        let to = cartesian(&last);
        way += ((to.0 - from.0).powi(2) + (to.1 - from.1).powi(2)).sqrt();
        from = to;
        a.send_position(&last, &unit());
    }
    assert_eq!(a.path.len(), 9);
    let mut now = 1_000;
    let mut polls = 0;
    while a.current_coord.is_some() {
        now += 250;
        a.get_position(now, &unit());
        polls += 1;
        assert!(polls < 100_000, "the agent arrives");
    }
    assert!(is_idle(&a));
    let (x, y) = cartesian(&a.position);
    let (tx, ty) = cartesian(&last);
    assert!((x - tx).abs() < 1e-6, "x = {x}, target {tx}");
    assert!((y - ty).abs() < 1e-6, "y = {y}, target {ty}");
    let needed = way / 100.0 * 1000.0;
    assert!(((now - 1_000) as f64 - needed).abs() <= 250.0 + 1e-6, "took {} for {needed}", now - 1_000);
}

#[test]
fn microseconds_count() {
    let mut a = Agent::new(0, radial(1, 0.0, 0.0), s(10.0), 0);
    a.send_position(&radial(1, 100.0, 0.0), &unit());
    let p = a.get_position(1_500, &unit());
    assert_eq!(f(p.radius), 15.0);
    let p = a.get_position(1_501, &unit());
    assert!((f(p.radius) - 15.01).abs() < 1e-9);
}
