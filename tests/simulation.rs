use pursuit_sim::events::{apply_events, BulletEvent};
use pursuit_sim::geometry::{isqrt_u128, Point, COORD_LIMIT};
use pursuit_sim::motion::{launch_direction, pursue, Direction, DIR_ONE, FINE_STEP, STEP};
use pursuit_sim::sim::{advance_bullet, is_visible, Bullet, Charge, FrameInput, Simulation, CHARGE_INTERVAL, SPEED};
use pursuit_sim::timer::TimerGate;
use pursuit_sim::viewport::Viewport;

fn fine(x: i64, y: i64) -> Point {
    Point::new(x * DIR_ONE, y * DIR_ONE)
}

fn quiet_frame(vp: Viewport) -> FrameInput {
    FrameInput { pointer: None, press_began: false, held: false, released: false, delta: 0, viewport: vp }
}

#[test]
fn isqrt_values() {
    assert_eq!(isqrt_u128(0), 0);
    assert_eq!(isqrt_u128(1), 1);
    assert_eq!(isqrt_u128(15), 3);
    assert_eq!(isqrt_u128(16), 4);
    assert_eq!(isqrt_u128(2_000_000), 1414);
    assert_eq!(isqrt_u128(u128::MAX), u64::MAX);
}

#[test]
fn pursuit_one_step_along_x() {
    assert_eq!(STEP, 10);
    let t = pursue(fine(0, 0), fine(100, 0));
    assert_eq!(t, fine(10, 0));
}

#[test]
fn pursuit_reaches_pointer_in_ten_steps() {
    let p = fine(100, 0);
    let mut t = fine(0, 0);
    for _ in 0..10 {
        t = pursue(t, p);
    }
    assert_eq!(t, p);
    assert_eq!(pursue(t, p), p);
}

#[test]
fn pursuit_diagonal_and_clamped() {
    assert_eq!(pursue(fine(0, 0), fine(30, 40)), fine(6, 8));
    assert_eq!(pursue(fine(0, 0), fine(3, 4)), fine(3, 4));
    assert_eq!(pursue(fine(5, 5), fine(-25, -35)), fine(-1, -3));
}

#[test]
fn pursuit_step_never_longer_than_step() {
    let t = pursue(fine(0, 0), fine(3, 10));
    assert_eq!(t, Point::new(2_873_478, 9_578_262));
    let len2 = (t.x as i128).pow(2) + (t.y as i128).pow(2);
    assert!(len2 <= (FINE_STEP as i128).pow(2));
    assert!(len2 > (FINE_STEP as i128 - 3).pow(2));
    assert_eq!(FINE_STEP, STEP * DIR_ONE);
}

#[test]
fn pursuit_diagonal_arrives_in_time() {
    let p = fine(10_000, 10_000);
    let mut t = fine(0, 0);
    let mut frames = 0;
    while t != p {
        t = pursue(t, p);
        frames += 1;
    }
    assert_eq!(frames, 1415);
    assert!(frames <= 1416);
}

#[test]
fn pursuit_distance_decreases_without_overshoot() {
    let p = fine(-7, 123);
    let mut t = Point::new(250_123_456, -40_000_001);
    let d2 = |a: Point| ((p.x - a.x) as i128).pow(2) + ((p.y - a.y) as i128).pow(2);
    let mut steps = 0;
    while t != p {
        let n = pursue(t, p);
        assert!(d2(n) < d2(t));
        assert!((p.x - n.x) * (p.x - t.x) >= 0);
        assert!((p.y - n.y) * (p.y - t.y) >= 0);
        t = n;
        steps += 1;
        assert!(steps < 1000);
    }
}

#[test]
fn launch_direction_axis() {
    let d = launch_direction(fine(50, 50), fine(50, 150));
    assert_eq!(d, Direction { x_scale: 0, y_scale: DIR_ONE });
    let d = launch_direction(fine(0, 0), fine(3, 4));
    assert_eq!(d, Direction { x_scale: 600_000, y_scale: 800_000 });
    let d = launch_direction(Point::new(0, 0), Point::new(-3, -4));
    assert_eq!(d, Direction { x_scale: -600_000, y_scale: -800_000 });
    let d = launch_direction(Point::new(0, 0), Point::new(2, 7));
    assert_eq!(d, Direction { x_scale: 274_721, y_scale: 961_524 });
}

#[test]
fn launch_direction_is_unit_length() {
    let d = launch_direction(Point::new(0, 0), Point::new(1, 1));
    assert_eq!(d, Direction { x_scale: 707_107, y_scale: 707_107 });
    for (x, y) in [(1, 0), (1, 1), (2, 7), (-13, 5), (1000, -999), (-123456, -7), (3_000_000, 1)] {
        let d = launch_direction(Point::new(0, 0), Point::new(x, y));
        let n = d.x_scale * d.x_scale + d.y_scale * d.y_scale;
        assert!(n < (DIR_ONE + 1) * (DIR_ONE + 1));
        assert!(n > DIR_ONE * DIR_ONE - 3 * DIR_ONE - 2);
        let err = (n as f64 / (DIR_ONE as f64 * DIR_ONE as f64) - 1.0).abs();
        assert!(err <= 1e-5);
    }
}

#[test]
fn launch_direction_degenerate() {
    let d = launch_direction(fine(12, -9), fine(12, -9));
    assert_eq!(d, Direction { x_scale: DIR_ONE, y_scale: DIR_ONE });
}

#[test]
fn timer_signals_once_per_crossing() {
    let mut t = TimerGate::new(100);
    assert!(!t.tick(50));
    assert_eq!(t.elapsed, 50);
    assert!(t.tick(50));
    assert_eq!(t.elapsed, 0);
    assert!(t.tick(250));
    assert_eq!(t.elapsed, 50);
    t.reset();
    assert_eq!(t.elapsed, 0);
    assert!(!t.tick(99));
}

#[test]
fn viewport_round_trip() {
    let vp = Viewport::centered(800, 600);
    assert_eq!((vp.left, vp.top), (-400, 300));
    let w = vp.screen_to_world(Point::new(450, 250));
    assert_eq!(w, Point::new(50, 50));
    assert_eq!(vp.world_to_screen(w), Point::new(450, 250));
    assert_eq!(vp.screen_to_world(Point::new(0, 0)), Point::new(-400, 300));
}

#[test]
fn visibility_edges_inclusive() {
    let vp = Viewport { left: 0, top: 600, width: 800, height: 600 };
    let at = |x: i64, y: i64| Bullet { x, y, speed: SPEED, dir: Direction { x_scale: 0, y_scale: 0 } };
    // screen (0, 0) is world (0, 600); screen (800, 600) is world (800, 0)
    assert!(is_visible(&vp, &at(0, 600 * DIR_ONE)));
    assert!(is_visible(&vp, &at(800 * DIR_ONE, 0)));
    assert!(!is_visible(&vp, &at(-DIR_ONE, 600 * DIR_ONE)));
    assert!(!is_visible(&vp, &at(0, 601 * DIR_ONE)));
    assert!(!is_visible(&vp, &at(801 * DIR_ONE, 0)));
    assert!(!is_visible(&vp, &at(800 * DIR_ONE, -DIR_ONE)));
}

#[test]
fn apply_events_in_order() {
    let evs = vec![BulletEvent::Add, BulletEvent::Add, BulletEvent::Delete];
    assert_eq!(apply_events(0, &evs), 1);
    assert_eq!(apply_events(3, &vec![BulletEvent::Delete, BulletEvent::Delete]), 1);
    assert_eq!(apply_events(7, &vec![]), 7);
}

#[test]
fn charge_grows_then_launches_at_target() {
    let vp = Viewport::centered(800, 600);
    let mut sim = Simulation::new(Point::new(50, 150));
    sim.update_charge(Some(Point::new(50, 50)), true, true, 0);
    assert_eq!(sim.charge, Some(Charge { pos: Point::new(50, 50), growth: 0 }));
    for _ in 0..3 {
        let mut f = quiet_frame(vp);
        f.held = true;
        f.delta = CHARGE_INTERVAL;
        sim.frame(&f);
    }
    let c = sim.charge.unwrap();
    assert_eq!(c.growth, 3);
    assert_eq!(c.scale(), 4);
    let mut f = quiet_frame(vp);
    f.released = true;
    sim.launch(true);
    assert_eq!(sim.events, vec![BulletEvent::Add]);
    assert_eq!(sim.bullets.len(), 1);
    let b = sim.bullets[0];
    assert_eq!(b.dir, Direction { x_scale: 0, y_scale: DIR_ONE });
    assert_eq!(b.speed, SPEED);
    assert_eq!((b.x, b.y), (50 * DIR_ONE, 50 * DIR_ONE));
    sim.move_bullets();
    assert_eq!((sim.bullets[0].x, sim.bullets[0].y), (50 * DIR_ONE, 55 * DIR_ONE));
    sim.cull(&vp);
    sim.count_events();
    assert_eq!(sim.count, 1);
    assert!(sim.events.is_empty());
    assert!(sim.charge.is_none());
    sim.frame(&f);
    assert_eq!(sim.count, 1);
}

#[test]
fn press_spawns_charge_at_pointer() {
    let vp = Viewport::centered(800, 600);
    let mut sim = Simulation::new(Point::new(50, 150));
    let mut f = quiet_frame(vp);
    f.pointer = Some(Point::new(450, 250));
    f.press_began = true;
    f.held = true;
    sim.frame(&f);
    assert_eq!(sim.charge, Some(Charge { pos: Point::new(50, 50), growth: 0 }));
    assert_eq!(sim.target, fine(50, 140));
    // a second press while charging is ignored
    f.pointer = Some(Point::new(0, 0));
    sim.frame(&f);
    assert_eq!(sim.charge.unwrap().pos, Point::new(50, 50));
    assert_eq!(sim.count, 0);
}

#[test]
fn no_pointer_no_spawn_no_motion() {
    let vp = Viewport::centered(800, 600);
    let mut sim = Simulation::new(Point::new(5, 5));
    let mut f = quiet_frame(vp);
    f.press_began = true;
    f.held = true;
    sim.frame(&f);
    assert!(sim.charge.is_none());
    assert_eq!(sim.target, fine(5, 5));
}

#[test]
fn bullet_leaving_right_edge_is_deleted_once() {
    let vp = Viewport { left: 0, top: 600, width: 800, height: 600 };
    let mut sim = Simulation::new(Point::new(1000, 300));
    sim.update_charge(Some(Point::new(790, 300)), true, true, 0);
    let mut f = quiet_frame(vp);
    f.released = true;
    sim.frame(&f);
    assert_eq!(sim.count, 1);
    assert_eq!(sim.bullets[0].x, 795 * DIR_ONE);
    let f = quiet_frame(vp);
    sim.frame(&f);
    assert_eq!(sim.bullets[0].x, 800 * DIR_ONE);
    assert_eq!(sim.count, 1);
    sim.move_bullets();
    assert_eq!(sim.bullets[0].x, 805 * DIR_ONE);
    sim.cull(&vp);
    assert_eq!(sim.events, vec![BulletEvent::Delete]);
    assert!(sim.bullets.is_empty());
    sim.count_events();
    assert_eq!(sim.count, 0);
    sim.frame(&f);
    assert_eq!(sim.count, 0);
}

#[test]
fn degenerate_launch_goes_diagonal() {
    let vp = Viewport::centered(800, 600);
    let mut sim = Simulation::new(Point::new(20, 20));
    sim.update_charge(Some(Point::new(20, 20)), true, true, 0);
    let mut f = quiet_frame(vp);
    f.released = true;
    sim.frame(&f);
    assert_eq!(sim.bullets[0].dir, Direction { x_scale: DIR_ONE, y_scale: DIR_ONE });
    assert_eq!((sim.bullets[0].x, sim.bullets[0].y), (25 * DIR_ONE, 25 * DIR_ONE));
}

#[test]
fn counter_follows_population_over_frames() {
    let vp = Viewport { left: 0, top: 100, width: 100, height: 100 };
    let mut sim = Simulation::new(Point::new(100, 50));
    for round in 0..5 {
        sim.update_charge(Some(Point::new(50, 50)), true, true, 0);
        let mut f = quiet_frame(vp);
        f.released = true;
        sim.frame(&f);
        assert_eq!(sim.count, sim.bullets.len());
        assert_eq!(sim.count, round + 1);
    }
    for _ in 0..20 {
        sim.frame(&quiet_frame(vp));
        assert_eq!(sim.count, sim.bullets.len());
    }
    assert_eq!(sim.count, 0);
}

#[test]
fn motion_at_coordinate_limits() {
    let lo = fine(-COORD_LIMIT, -COORD_LIMIT);
    let hi = fine(COORD_LIMIT, COORD_LIMIT);
    assert_eq!(pursue(lo, hi), Point::new(-999_992_928_933, -999_992_928_933));
    assert_eq!(launch_direction(lo, hi), Direction { x_scale: 707_106, y_scale: 707_106 });
    assert_eq!(launch_direction(hi, lo), Direction { x_scale: -707_106, y_scale: -707_106 });
    assert_eq!(launch_direction(fine(COORD_LIMIT, 0), fine(-COORD_LIMIT, 0)),
        Direction { x_scale: -DIR_ONE, y_scale: 0 });
}

#[test]
fn bullet_stops_at_integer_range() {
    let b = Bullet { x: i64::MAX - 1, y: i64::MIN + 2, speed: SPEED, dir: Direction { x_scale: DIR_ONE, y_scale: -DIR_ONE } };
    let n = advance_bullet(&b);
    assert_eq!((n.x, n.y), (i64::MAX, i64::MIN));
    let b = Bullet { x: 10, y: -10, speed: SPEED, dir: Direction { x_scale: -600_000, y_scale: 800_000 } };
    let n = advance_bullet(&b);
    assert_eq!((n.x, n.y), (-2_999_990, 3_999_990));
    assert_eq!((n.speed, n.dir), (b.speed, b.dir));
}

#[test]
fn timer_with_huge_delta() {
    let mut t = TimerGate::new(CHARGE_INTERVAL);
    assert!(!t.tick(CHARGE_INTERVAL - 1));
    assert!(t.tick(u64::MAX));
    assert_eq!(t.elapsed, ((CHARGE_INTERVAL as u128 - 1 + u64::MAX as u128) % CHARGE_INTERVAL as u128) as u64);
}

#[test]
fn growth_counts_completed_intervals_only() {
    let vp = Viewport::centered(800, 600);
    let mut sim = Simulation::new(Point::new(0, 0));
    sim.update_charge(Some(Point::new(50, 50)), true, true, 0);
    let step = CHARGE_INTERVAL / 10;
    for (delta, growth) in [(5 * step, 0), (6 * step, 1), (10 * step, 2), (step, 2), (2 * step, 2), (25 * step, 3)] {
        let mut f = quiet_frame(vp);
        f.held = true;
        f.delta = delta;
        sim.frame(&f);
        assert_eq!(sim.charge.unwrap().growth, growth);
    }
}
