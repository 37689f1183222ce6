use my_library::physics::{find_velocity, interpolate_coordinate, PHYSICS_TICK_TIME};
use my_library::{
    apply_gravity, apply_velocity, physics_clock, sum_impulses, Impulse, PhysicsPosition,
    PhysicsTick, PhysicsTimer, Vec2, Vec3, Velocity,
};

fn position(start: (i64, i64), end: (i64, i64)) -> PhysicsPosition {
    PhysicsPosition { start_frame: Vec2::new(start.0, start.1), end_frame: Vec2::new(end.0, end.1) }
}

fn impulse(target: u64, amount: (i64, i64, i64), absolute: bool) -> Impulse {
    Impulse { target, amount: Vec3::new(amount.0, amount.1, amount.2), absolute }
}

#[test]
fn default_clock_ticks_every_33_ms() {
    let clock = PhysicsTimer::default();
    assert_eq!(PHYSICS_TICK_TIME, 33);
    assert_eq!(clock.tick_ms(), 33);
    assert_eq!(clock.elapsed_ms(), 0);
}

#[test]
fn two_deltas_of_20_ms_fire_one_tick() {
    let mut clock = PhysicsTimer::new(33);
    let mut positions = vec![position((0, 0), (33, -66))];
    let (tick, drawn) = physics_clock(&mut clock, 20, &mut positions);
    assert_eq!(tick, None);
    assert_eq!(clock.elapsed_ms(), 20);
    assert_eq!(positions, vec![position((0, 0), (33, -66))]);
    assert_eq!(drawn, vec![Vec2::new(20, -40)]);
    let (tick, drawn) = physics_clock(&mut clock, 20, &mut positions);
    assert_eq!(tick, Some(PhysicsTick));
    assert_eq!(clock.elapsed_ms(), 0);
    assert_eq!(positions, vec![position((33, -66), (33, -66))]);
    assert_eq!(drawn, vec![Vec2::new(33, -66)]);
}

#[test]
fn clock_does_not_fire_at_exactly_one_tick() {
    let mut clock = PhysicsTimer::new(33);
    let mut positions = vec![position((0, 0), (10, 10))];
    let (tick, drawn) = physics_clock(&mut clock, 33, &mut positions);
    assert_eq!(tick, None);
    assert_eq!(clock.elapsed_ms(), 33);
    assert_eq!(drawn, vec![Vec2::new(10, 10)]);
    let (tick, _) = physics_clock(&mut clock, 1, &mut positions);
    assert_eq!(tick, Some(PhysicsTick));
}

#[test]
fn clock_fires_one_tick_however_long_the_stall() {
    let mut clock = PhysicsTimer::new(33);
    let mut positions: Vec<PhysicsPosition> = Vec::new();
    let (tick, drawn) = physics_clock(&mut clock, 1000, &mut positions);
    assert_eq!(tick, Some(PhysicsTick));
    assert_eq!(clock.elapsed_ms(), 0);
    assert!(drawn.is_empty());
    let (tick, _) = physics_clock(&mut clock, 0, &mut positions);
    assert_eq!(tick, None);
    let (tick, _) = physics_clock(&mut clock, u64::MAX, &mut positions);
    assert_eq!(tick, Some(PhysicsTick));
}

#[test]
fn interpolation_starts_at_start_and_ends_at_end() {
    assert_eq!(interpolate_coordinate(100, 200, 0, 33), 100);
    assert_eq!(interpolate_coordinate(100, 200, 33, 33), 200);
    assert_eq!(interpolate_coordinate(200, 100, 0, 33), 200);
    assert_eq!(interpolate_coordinate(200, 100, 33, 33), 100);
    assert_eq!(interpolate_coordinate(i64::MIN, i64::MAX, 33, 33), i64::MAX);
    assert_eq!(interpolate_coordinate(i64::MAX, i64::MIN, 33, 33), i64::MIN);
}

#[test]
fn interpolation_rounds_toward_start() {
    assert_eq!(interpolate_coordinate(0, 100, 11, 33), 33);
    assert_eq!(interpolate_coordinate(0, -100, 11, 33), -33);
    assert_eq!(interpolate_coordinate(0, 100, 32, 33), 96);
    assert_eq!(interpolate_coordinate(0, -100, 32, 33), -96);
    assert_eq!(interpolate_coordinate(10, 11, 32, 33), 10);
}

#[test]
fn interpolation_approaches_end() {
    let mut last = 0;
    for elapsed in 0..=33 {
        let at = interpolate_coordinate(0, 1000, elapsed, 33);
        assert!(at >= last);
        assert!(at <= 1000);
        last = at;
    }
    assert_eq!(last, 1000);
}

#[test]
fn render_interpolates_both_coordinates() {
    let p = position((0, 100), (100, 0));
    assert_eq!(p.render(0, 4), Vec2::new(0, 100));
    assert_eq!(p.render(1, 4), Vec2::new(25, 75));
    assert_eq!(p.render(4, 4), Vec2::new(100, 0));
}

#[test]
fn new_position_is_at_rest() {
    let p = PhysicsPosition::new(Vec2::new(3, 4));
    assert_eq!(p, position((3, 4), (3, 4)));
}

#[test]
fn velocity_defaults_to_rest() {
    assert_eq!(Velocity::default(), Velocity::new(0, 0, 0));
    assert_eq!(Velocity::new(1, 2, 3).get(), Vec3::new(1, 2, 3));
}

#[test]
fn additive_impulses_add_up() {
    let mut velocities = vec![(1, Velocity::new(0, 0, 0)), (2, Velocity::new(5, 5, 5))];
    let impulses = vec![
        impulse(1, (1, 2, 3), false),
        impulse(2, (-5, 0, 0), false),
        impulse(1, (10, 20, 30), false),
    ];
    sum_impulses(&impulses, &mut velocities);
    assert_eq!(velocities, vec![(1, Velocity::new(11, 22, 33)), (2, Velocity::new(0, 5, 5))]);
}

#[test]
fn absolute_impulse_replaces_and_ends_the_batch() {
    let mut velocities = vec![(1, Velocity::new(1, 1, 1)), (2, Velocity::new(5, 5, 5))];
    let impulses = vec![
        impulse(2, (1, 0, 0), false),
        impulse(1, (0, 40, 0), true),
        impulse(2, (100, 100, 100), false),
        impulse(1, (7, 7, 7), true),
    ];
    sum_impulses(&impulses, &mut velocities);
    assert_eq!(velocities, vec![(1, Velocity::new(0, 40, 0)), (2, Velocity::new(6, 5, 5))]);
}

#[test]
fn impulse_for_a_missing_entity_is_passed_over() {
    let mut velocities = vec![(1, Velocity::new(1, 1, 1))];
    let impulses = vec![impulse(9, (1, 0, 0), true), impulse(1, (1, 0, 0), false)];
    sum_impulses(&impulses, &mut velocities);
    assert_eq!(velocities, vec![(1, Velocity::new(2, 1, 1))]);
}

#[test]
fn impulses_saturate() {
    let mut velocities = vec![(1, Velocity::new(i64::MAX, i64::MIN, 0))];
    let impulses = vec![impulse(1, (1, -1, 1), false)];
    sum_impulses(&impulses, &mut velocities);
    assert_eq!(velocities, vec![(1, Velocity::new(i64::MAX, i64::MIN, 1))]);
}

#[test]
fn find_velocity_finds_the_first_entry() {
    let velocities =
        vec![(4, Velocity::new(0, 0, 0)), (5, Velocity::new(1, 0, 0)), (5, Velocity::new(2, 0, 0))];
    assert_eq!(find_velocity(&velocities, 5), Some(1));
    assert_eq!(find_velocity(&velocities, 4), Some(0));
    assert_eq!(find_velocity(&velocities, 6), None);
}

#[test]
fn velocity_moves_the_end_frame_once_per_tick() {
    let mut movement = vec![
        (Velocity::new(3, -2, 9), position((0, 0), (10, 10))),
        (Velocity::new(0, 0, 0), position((1, 1), (2, 2))),
    ];
    apply_velocity(&vec![PhysicsTick], &mut movement);
    assert_eq!(movement[0], (Velocity::new(3, -2, 9), position((0, 0), (13, 8))));
    assert_eq!(movement[1], (Velocity::new(0, 0, 0), position((1, 1), (2, 2))));
    apply_velocity(&vec![PhysicsTick, PhysicsTick], &mut movement);
    assert_eq!(movement[0], (Velocity::new(3, -2, 9), position((0, 0), (19, 4))));
    apply_velocity(&vec![], &mut movement);
    assert_eq!(movement[0], (Velocity::new(3, -2, 9), position((0, 0), (19, 4))));
}

#[test]
fn velocity_stops_at_the_limits() {
    let mut movement = vec![(Velocity::new(10, -10, 0), position((0, 0), (i64::MAX - 15, i64::MIN + 15)))];
    apply_velocity(&vec![PhysicsTick, PhysicsTick, PhysicsTick], &mut movement);
    assert_eq!(movement[0].1, position((0, 0), (i64::MAX, i64::MIN)));
}

#[test]
fn gravity_adds_up_tick_by_tick() {
    let gravity = 48;
    let mut velocities = vec![Velocity::new(0, 0, 0), Velocity::new(5, 100, -5)];
    for ticks in 1..=10i64 {
        apply_gravity(&vec![PhysicsTick], gravity, &mut velocities);
        assert_eq!(velocities[0], Velocity::new(0, -ticks * gravity, 0));
        assert_eq!(velocities[1], Velocity::new(5, 100 - ticks * gravity, -5));
    }
    apply_gravity(&vec![PhysicsTick; 5], gravity, &mut velocities);
    assert_eq!(velocities[0], Velocity::new(0, -15 * gravity, 0));
    apply_gravity(&vec![], gravity, &mut velocities);
    assert_eq!(velocities[0], Velocity::new(0, -15 * gravity, 0));
}

#[test]
fn gravity_stops_at_the_limit() {
    let mut velocities = vec![Velocity::new(0, i64::MIN + 10, 0)];
    apply_gravity(&vec![PhysicsTick, PhysicsTick], 8, &mut velocities);
    assert_eq!(velocities[0], Velocity::new(0, i64::MIN, 0));
}

#[test]
fn vectors_add_and_subtract_saturating() {
    assert_eq!(Vec2::new(1, 2).saturating_add(Vec2::new(10, 20)), Vec2::new(11, 22));
    assert_eq!(Vec2::new(1, 2).saturating_sub(Vec2::new(10, 20)), Vec2::new(-9, -18));
    assert_eq!(Vec2::new(i64::MAX, i64::MIN).saturating_add(Vec2::new(1, -1)), Vec2::new(i64::MAX, i64::MIN));
    assert_eq!(Vec2::new(i64::MIN, i64::MAX).saturating_sub(Vec2::new(1, -1)), Vec2::new(i64::MIN, i64::MAX));
    assert_eq!(Vec3::new(1, 2, 3).saturating_add(Vec3::new(1, 1, i64::MAX)), Vec3::new(2, 3, i64::MAX));
    assert_eq!(Vec3::new(1, 2, 3).truncate(), Vec2::new(1, 2));
    assert_eq!(Vec2::zero(), Vec2::new(0, 0));
    assert_eq!(Vec3::zero(), Vec3::new(0, 0, 0));
}

#[test]
fn midpoint_rounds_down() {
    assert_eq!(my_library::vector::mid(0, 10), 5);
    assert_eq!(my_library::vector::mid(0, 11), 5);
    assert_eq!(my_library::vector::mid(-11, 0), -6);
    assert_eq!(my_library::vector::mid(-3, 4), 0);
    assert_eq!(my_library::vector::mid(i64::MIN, i64::MAX), -1);
    assert_eq!(my_library::vector::mid(i64::MAX, i64::MAX), i64::MAX);
    assert_eq!(my_library::vector::mid(i64::MIN, i64::MIN), i64::MIN);
}
