//! A fixed-timestep physics clock with impulses, gravity and velocity
//! integration.
//!
//! Two choices are made here. The clock fires at most one tick per call,
//! however much time has passed: ticks that were missed are not made up for.
//! And an absolute impulse ends its batch: the impulses queued behind it are
//! dropped.
use vstd::prelude::*;
use crate::vector::{clamp_i64, saturating_add, saturating_sub, Vec2, Vec3};

verus! {

/// The length of a tick in milliseconds unless another is asked for.
pub const PHYSICS_TICK_TIME: u32 = 33;

/// The time that has passed since the last tick, and the length of a tick,
/// both in milliseconds.
#[derive(Debug)]
pub struct PhysicsTimer {
    elapsed: u32,
    tick_time: u32,
}

/// The signal that one fixed step of physics is due.
#[derive(Clone, Copy, Debug, PartialEq, Eq, Structural)]
pub struct PhysicsTick;

/// Where an entity was at the last tick and where it is at the current one.
#[derive(Clone, Copy, Debug, PartialEq, Eq, Structural)]
pub struct PhysicsPosition {
    pub start_frame: Vec2,
    pub end_frame: Vec2,
}

/// How far an entity moves per tick.
#[derive(Clone, Copy, Debug, PartialEq, Eq, Structural)]
pub struct Velocity(pub Vec3);

/// A request to change the velocity of `target`: to add `amount` to it or,
/// if `absolute` is set, to replace it by `amount`.
#[derive(Clone, Copy, Debug, PartialEq, Eq, Structural)]
pub struct Impulse {
    pub target: u64,
    pub amount: Vec3,
    pub absolute: bool,
}

/// The coordinate between `start` and `end` that is reached after `elapsed`
/// of `tick` milliseconds, rounded toward `start`.
pub open spec fn interpolate(start: int, end: int, elapsed: int, tick: int) -> int {
    if end >= start {
        start + ((end - start) * elapsed) / tick
    } else {
        start - ((start - end) * elapsed) / tick
    }
}

/// A part of a distance is no longer than the distance: for `0 <= elapsed
/// <= tick`, `distance * elapsed / tick` lies between 0 and `distance`, is 0
/// at `elapsed == 0` and `distance` at `elapsed == tick`, and grows with
/// `elapsed`.
pub proof fn lemma_part_of_distance(distance: int, elapsed: int, tick: int)
    requires
        distance >= 0,
        0 <= elapsed <= tick,
        tick > 0,
    ensures
        0 <= (distance * elapsed) / tick <= distance,
        elapsed == 0 ==> (distance * elapsed) / tick == 0,
        elapsed == tick ==> (distance * elapsed) / tick == distance,
{
    assert(0 <= distance * elapsed <= distance * tick) by (nonlinear_arith)
        requires
            distance >= 0,
            0 <= elapsed <= tick,
    ;
    vstd::arithmetic::div_mod::lemma_div_is_ordered(0, distance * elapsed, tick);
    vstd::arithmetic::div_mod::lemma_div_is_ordered(distance * elapsed, distance * tick, tick);
    vstd::arithmetic::div_mod::lemma_div_multiples_vanish(distance, tick);
    assert(distance * tick == tick * distance) by (nonlinear_arith);
    if elapsed == 0 {
        assert(distance * elapsed == 0) by (nonlinear_arith)
            requires
                elapsed == 0,
        ;
    }
}

/// A later moment within a tick gives a part of the distance that is no
/// shorter.
pub proof fn lemma_part_grows(distance: int, earlier: int, later: int, tick: int)
    requires
        distance >= 0,
        0 <= earlier <= later,
        tick > 0,
    ensures
        (distance * earlier) / tick <= (distance * later) / tick,
{
    assert(distance * earlier <= distance * later) by (nonlinear_arith)
        requires
            distance >= 0,
            0 <= earlier <= later,
    ;
    vstd::arithmetic::div_mod::lemma_div_is_ordered(distance * earlier, distance * later, tick);
}

/// Right after a tick the interpolated coordinate is `start`; when a whole
/// tick has passed it is `end`; in between it never leaves the stretch from
/// `start` to `end`.
pub proof fn lemma_interpolate_within(start: int, end: int, elapsed: int, tick: int)
    requires
        0 <= elapsed <= tick,
        tick > 0,
    ensures
        interpolate(start, end, 0, tick) == start,
        interpolate(start, end, tick, tick) == end,
        start <= end ==> start <= interpolate(start, end, elapsed, tick) <= end,
        end <= start ==> end <= interpolate(start, end, elapsed, tick) <= start,
{
    if end >= start {
        lemma_part_of_distance(end - start, elapsed, tick);
        lemma_part_of_distance(end - start, 0, tick);
        lemma_part_of_distance(end - start, tick, tick);
    } else {
        lemma_part_of_distance(start - end, elapsed, tick);
        lemma_part_of_distance(start - end, 0, tick);
        lemma_part_of_distance(start - end, tick, tick);
    }
}

/// As time passes within a tick, the interpolated coordinate only moves
/// toward `end`.
pub proof fn lemma_interpolate_approaches(start: int, end: int, earlier: int, later: int, tick: int)
    requires
        0 <= earlier <= later <= tick,
        tick > 0,
    ensures
        start <= end ==> interpolate(start, end, earlier, tick) <= interpolate(
            start,
            end,
            later,
            tick,
        ),
        end <= start ==> interpolate(start, end, later, tick) <= interpolate(
            start,
            end,
            earlier,
            tick,
        ),
{
    if end == start {
        lemma_part_of_distance(0, earlier, tick);
        lemma_part_of_distance(0, later, tick);
    } else if end > start {
        lemma_part_grows(end - start, earlier, later, tick);
    } else {
        lemma_part_grows(start - end, earlier, later, tick);
    }
}

/// Computes [`interpolate`].
pub fn interpolate_coordinate(start: i64, end: i64, elapsed: u32, tick: u32) -> (at: i64)
    requires
        0 <= elapsed <= tick,
        tick > 0,
    ensures
        at == interpolate(start as int, end as int, elapsed as int, tick as int),
{
    proof {
        lemma_interpolate_within(start as int, end as int, elapsed as int, tick as int);
    }
    if end >= start {
        let distance: i128 = end as i128 - start as i128;
        proof {
            lemma_part_of_distance(distance as int, elapsed as int, tick as int);
            assert(distance * elapsed <= distance * tick) by (nonlinear_arith)
                requires
                    distance >= 0,
                    0 <= elapsed <= tick,
            ;
            assert(distance * tick <= 0x1_0000_0000_0000_0000 * 0x1_0000_0000) by (nonlinear_arith)
                requires
                    0 <= distance < 0x1_0000_0000_0000_0000,
                    0 < tick < 0x1_0000_0000,
            ;
        }
        let part: i128 = (distance * (elapsed as i128)) / (tick as i128);
        (start as i128 + part) as i64
    } else {
        let distance: i128 = start as i128 - end as i128;
        proof {
            lemma_part_of_distance(distance as int, elapsed as int, tick as int);
            assert(distance * elapsed <= distance * tick) by (nonlinear_arith)
                requires
                    distance >= 0,
                    0 <= elapsed <= tick,
            ;
            assert(distance * tick <= 0x1_0000_0000_0000_0000 * 0x1_0000_0000) by (nonlinear_arith)
                requires
                    0 <= distance < 0x1_0000_0000_0000_0000,
                    0 < tick < 0x1_0000_0000,
            ;
        }
        let part: i128 = (distance * (elapsed as i128)) / (tick as i128);
        (start as i128 - part) as i64
    }
}

impl PhysicsPosition {
    /// An entity at rest at `start`.
    pub fn new(start: Vec2) -> (p: Self)
        ensures
            p.start_frame == start,
            p.end_frame == start,
    {
        Self { start_frame: start, end_frame: start }
    }

    /// The position to draw after `elapsed` of `tick` milliseconds.
    pub open spec fn rendered(self, elapsed: int, tick: int) -> Vec2 {
        Vec2 {
            x: interpolate(self.start_frame.x as int, self.end_frame.x as int, elapsed, tick) as i64,
            y: interpolate(self.start_frame.y as int, self.end_frame.y as int, elapsed, tick) as i64,
        }
    }

    /// The position to draw after `elapsed` of `tick` milliseconds.
    pub fn render(&self, elapsed: u32, tick: u32) -> (at: Vec2)
        requires
            0 <= elapsed <= tick,
            tick > 0,
        ensures
            at == self.rendered(elapsed as int, tick as int),
    {
        Vec2 {
            x: interpolate_coordinate(self.start_frame.x, self.end_frame.x, elapsed, tick),
            y: interpolate_coordinate(self.start_frame.y, self.end_frame.y, elapsed, tick),
        }
    }
}

impl PhysicsTimer {
    /// The milliseconds counted since the last tick.
    pub closed spec fn elapsed(&self) -> nat {
        self.elapsed as nat
    }

    /// The length of a tick in milliseconds.
    pub closed spec fn tick_time(&self) -> nat {
        self.tick_time as nat
    }

    /// A tick has a length, and the time counted does not go beyond it.
    pub open spec fn wf(&self) -> bool {
        0 < self.tick_time() <= u32::MAX && self.elapsed() <= self.tick_time()
    }

    /// Every clock is well-formed.
    #[verifier::type_invariant]
    pub open spec fn well_formed(&self) -> bool {
        self.wf()
    }

    /// A clock with ticks of `tick_time` milliseconds, with no time counted.
    pub fn new(tick_time: u32) -> (clock: Self)
        requires
            tick_time > 0,
        ensures
            clock.wf(),
            clock.elapsed() == 0,
            clock.tick_time() == tick_time,
    {
        Self { elapsed: 0, tick_time }
    }

    /// The milliseconds counted since the last tick.
    pub fn elapsed_ms(&self) -> (ms: u32)
        ensures
            ms == self.elapsed(),
            self.wf(),
    {
        proof {
            use_type_invariant(self);
        }
        self.elapsed
    }

    /// The length of a tick in milliseconds.
    pub fn tick_ms(&self) -> (ms: u32)
        ensures
            ms == self.tick_time(),
            self.wf(),
    {
        proof {
            use_type_invariant(self);
        }
        self.tick_time
    }
}

impl Default for PhysicsTimer {
    /// A clock with ticks of [`PHYSICS_TICK_TIME`] milliseconds.
    fn default() -> (clock: Self)
        ensures
            clock.wf(),
            clock.elapsed() == 0,
            clock.tick_time() == PHYSICS_TICK_TIME,
    {
        Self { elapsed: 0, tick_time: PHYSICS_TICK_TIME }
    }
}

/// Whether a clock that has counted `elapsed` milliseconds fires when another
/// `delta_ms` have passed.
pub open spec fn tick_is_due(elapsed: nat, delta_ms: nat, tick_time: nat) -> bool {
    elapsed + delta_ms > tick_time
}

/// Advances the clock by `delta_ms` milliseconds.
///
/// If more than a tick's time has then passed since the last tick, one tick
/// fires: the count starts again at 0, every position takes its `end_frame`
/// as the new `start_frame`, and is drawn at `end_frame`. Otherwise nothing
/// changes but the count, and every position is drawn between `start_frame`
/// and `end_frame` according to the time counted.
///
/// The result holds the tick, if one fired, and where to draw each position.
pub fn physics_clock(
    clock: &mut PhysicsTimer,
    delta_ms: u64,
    physics_position: &mut Vec<PhysicsPosition>,
) -> (out: (Option<PhysicsTick>, Vec<Vec2>))
    ensures
        final(clock).wf(),
        final(clock).tick_time() == old(clock).tick_time(),
        out.0 is Some <==> tick_is_due(old(clock).elapsed(), delta_ms as nat, old(clock).tick_time()),
        out.0 is Some ==> final(clock).elapsed() == 0,
        out.0 is None ==> final(clock).elapsed() == old(clock).elapsed() + delta_ms,
        final(physics_position)@.len() == old(physics_position)@.len(),
        out.1@.len() == old(physics_position)@.len(),
        out.0 is Some ==> forall|i: int|
            0 <= i < old(physics_position)@.len() ==> {
                &&& (#[trigger] final(physics_position)@[i]).start_frame == old(
                    physics_position,
                )@[i].end_frame
                &&& final(physics_position)@[i].end_frame == old(physics_position)@[i].end_frame
                &&& out.1@[i] == old(physics_position)@[i].end_frame
            },
        out.0 is None ==> final(physics_position)@ == old(physics_position)@,
        out.0 is None ==> forall|i: int|
            0 <= i < old(physics_position)@.len() ==> #[trigger] out.1@[i] == old(
                physics_position,
            )@[i].rendered(
                old(clock).elapsed() + delta_ms,
                old(clock).tick_time() as int,
            ),
{
    proof {
        use_type_invariant(&*clock);
    }
    let tick_time = clock.tick_time;
    let total: u128 = clock.elapsed as u128 + delta_ms as u128;
    let mut translation: Vec<Vec2> = Vec::new();
    if total > tick_time as u128 {
        clock.elapsed = 0;
        let mut i: usize = 0;
        while i < physics_position.len()
            invariant
                0 <= i <= physics_position.len(),
                physics_position@.len() == old(physics_position)@.len(),
                translation@.len() == i,
                forall|k: int|
                    0 <= k < i ==> {
                        &&& (#[trigger] physics_position@[k]).start_frame == old(
                            physics_position,
                        )@[k].end_frame
                        &&& physics_position@[k].end_frame == old(physics_position)@[k].end_frame
                        &&& translation@[k] == old(physics_position)@[k].end_frame
                    },
                forall|k: int|
                    i <= k < physics_position@.len() ==> #[trigger] physics_position@[k] == old(
                        physics_position,
                    )@[k],
            decreases physics_position.len() - i,
        {
            let pos = physics_position[i];
            translation.push(pos.end_frame);
            physics_position.set(i, PhysicsPosition { start_frame: pos.end_frame, end_frame: pos.end_frame });
            i += 1;
        }
        (Some(PhysicsTick), translation)
    } else {
        let elapsed = total as u32;
        clock.elapsed = elapsed;
        let mut i: usize = 0;
        while i < physics_position.len()
            invariant
                0 <= i <= physics_position.len(),
                0 <= elapsed <= tick_time,
                tick_time > 0,
                physics_position@ == old(physics_position)@,
                translation@.len() == i,
                forall|k: int|
                    0 <= k < i ==> #[trigger] translation@[k] == physics_position@[k].rendered(
                        elapsed as int,
                        tick_time as int,
                    ),
            decreases physics_position.len() - i,
        {
            translation.push(physics_position[i].render(elapsed, tick_time));
            i += 1;
        }
        (None, translation)
    }
}

impl Velocity {
    /// The velocity with the given components.
    pub fn new(x: i64, y: i64, z: i64) -> (v: Self)
        ensures
            v.vector() == (Vec3 { x, y, z }),
    {
        Self(Vec3 { x, y, z })
    }

    /// The displacement per tick.
    pub open spec fn vector(self) -> Vec3 {
        self.0
    }

    /// The displacement per tick.
    pub fn get(&self) -> (v: Vec3)
        ensures
            v == self.vector(),
    {
        self.0
    }
}

impl Default for Velocity {
    /// At rest.
    fn default() -> (v: Self)
        ensures
            v.vector() == (Vec3 { x: 0, y: 0, z: 0 }),
    {
        Self(Vec3 { x: 0, y: 0, z: 0 })
    }
}

/// An entity together with its velocity.
pub type Moving = (u64, Velocity);

/// The index of the first entry of `velocities` at or after `from` that
/// belongs to `target`.
pub open spec fn find_from(velocities: Seq<Moving>, target: u64, from: int) -> Option<int>
    decreases velocities.len() - from,
{
    if from < 0 || from >= velocities.len() {
        None
    } else if velocities[from].0 == target {
        Some(from)
    } else {
        find_from(velocities, target, from + 1)
    }
}

/// `velocities` with the velocity at index `k` replaced by `vector`.
pub open spec fn with_velocity(velocities: Seq<Moving>, k: int, vector: Vec3) -> Seq<Moving> {
    velocities.update(k, (velocities[k].0, Velocity(vector)))
}

/// The velocities after the impulses from index `from` on have been applied
/// in order. An impulse whose target has no velocity is passed over. An
/// additive impulse is added to the velocity of its target. An absolute
/// impulse replaces the velocity of its target and ends the batch.
pub open spec fn after_impulses(velocities: Seq<Moving>, impulses: Seq<Impulse>, from: int) -> Seq<
    Moving,
>
    decreases impulses.len() - from,
{
    if from < 0 || from >= impulses.len() {
        velocities
    } else {
        let impulse = impulses[from];
        match find_from(velocities, impulse.target, 0) {
            None => after_impulses(velocities, impulses, from + 1),
            Some(k) => if impulse.absolute {
                with_velocity(velocities, k, impulse.amount)
            } else {
                after_impulses(
                    with_velocity(velocities, k, velocities[k].1.vector().plus(impulse.amount)),
                    impulses,
                    from + 1,
                )
            },
        }
    }
}

/// A lookup finds an entry of the target, and the first such.
pub proof fn lemma_find_from(velocities: Seq<Moving>, target: u64, from: int)
    requires
        0 <= from,
    ensures
        match find_from(velocities, target, from) {
            Some(k) => from <= k < velocities.len() && velocities[k].0 == target && forall|j: int|
                from <= j < k ==> (#[trigger] velocities[j]).0 != target,
            None => forall|j: int| from <= j < velocities.len() ==> (#[trigger] velocities[j]).0 != target,
        },
    decreases velocities.len() - from,
{
    if from < velocities.len() && velocities[from].0 != target {
        lemma_find_from(velocities, target, from + 1);
    }
}

/// Impulses change velocities only: afterwards there are as many entries as
/// before, for the same entities in the same order.
pub proof fn lemma_impulses_keep_entities(velocities: Seq<Moving>, impulses: Seq<Impulse>, from: int)
    requires
        0 <= from,
    ensures
        after_impulses(velocities, impulses, from).len() == velocities.len(),
        forall|k: int|
            0 <= k < velocities.len() ==> (#[trigger] after_impulses(velocities, impulses, from)[k]).0
                == velocities[k].0,
    decreases impulses.len() - from,
{
    if from < impulses.len() {
        let impulse = impulses[from];
        lemma_find_from(velocities, impulse.target, 0);
        match find_from(velocities, impulse.target, 0) {
            None => {
                lemma_impulses_keep_entities(velocities, impulses, from + 1);
            },
            Some(k) => {
                if !impulse.absolute {
                    let next = with_velocity(velocities, k, velocities[k].1.vector().plus(impulse.amount));
                    lemma_impulses_keep_entities(next, impulses, from + 1);
                }
            },
        }
    }
}

/// The index of the first entry of `velocities` that belongs to `target`.
pub fn find_velocity(velocities: &Vec<Moving>, target: u64) -> (found: Option<usize>)
    ensures
        match found {
            Some(k) => find_from(velocities@, target, 0) == Some(k as int),
            None => find_from(velocities@, target, 0) is None,
        },
{
    let mut i: usize = 0;
    while i < velocities.len()
        invariant
            0 <= i <= velocities.len(),
            find_from(velocities@, target, 0) == find_from(velocities@, target, i as int),
        decreases velocities.len() - i,
    {
        if velocities[i].0 == target {
            return Some(i);
        }
        i += 1;
    }
    None
}

/// Applies a batch of impulses to the velocities of their targets.
///
/// The impulses are taken in order. One whose target has no velocity is
/// passed over. An additive impulse is added to the velocity of its target,
/// component by component and saturating. An absolute impulse replaces the
/// velocity of its target, and the impulses behind it in the batch are
/// dropped.
pub fn sum_impulses(impulses: &Vec<Impulse>, velocities: &mut Vec<Moving>)
    ensures
        final(velocities)@ == after_impulses(old(velocities)@, impulses@, 0),
        final(velocities)@.len() == old(velocities)@.len(),
        forall|k: int|
            0 <= k < old(velocities)@.len() ==> (#[trigger] final(velocities)@[k]).0 == old(
                velocities,
            )@[k].0,
{
    proof {
        lemma_impulses_keep_entities(velocities@, impulses@, 0);
    }
    let mut i: usize = 0;
    while i < impulses.len()
        invariant
            0 <= i <= impulses.len(),
            after_impulses(velocities@, impulses@, i as int) == after_impulses(
                old(velocities)@,
                impulses@,
                0,
            ),
            after_impulses(old(velocities)@, impulses@, 0).len() == old(velocities)@.len(),
            forall|k: int|
                0 <= k < old(velocities)@.len() ==> (#[trigger] after_impulses(
                    old(velocities)@,
                    impulses@,
                    0,
                )[k]).0 == old(velocities)@[k].0,
        decreases impulses.len() - i,
    {
        let impulse = impulses[i];
        proof {
            lemma_find_from(velocities@, impulse.target, 0);
        }
        match find_velocity(velocities, impulse.target) {
            Some(k) => {
                let (entity, velocity) = velocities[k];
                if impulse.absolute {
                    velocities.set(k, (entity, Velocity(impulse.amount)));
                    return ;
                } else {
                    velocities.set(k, (entity, Velocity(velocity.get().saturating_add(impulse.amount))));
                }
            },
            None => {},
        }
        i += 1;
    }
}

/// Where a coordinate that starts at `start` stands after `ticks` steps of
/// `step` each, every step saturating at the limits of `i64`.
pub open spec fn drift(start: int, step: int, ticks: nat) -> int {
    clamp_i64(start + ticks * step)
}

/// Steps that all go the same way add up: `first` steps and then `second`
/// steps come to the same as `first + second` steps, although each step
/// saturates.
pub proof fn lemma_drift_adds_up(start: int, step: int, first: nat, second: nat)
    requires
        i64::MIN <= start <= i64::MAX,
    ensures
        drift(drift(start, step, first), step, second) == drift(start, step, first + second),
        drift(start, step, 0) == start,
{
    assert((first + second) * step == first * step + second * step) by (nonlinear_arith);
    assert(0 * step == 0) by (nonlinear_arith);
    if step >= 0 {
        assert(first * step >= 0 && second * step >= 0) by (nonlinear_arith)
            requires
                step >= 0,
        ;
    } else {
        assert(first * step <= 0 && second * step <= 0) by (nonlinear_arith)
            requires
                step < 0,
        ;
    }
}

/// A position after `ticks` ticks at velocity `velocity`: `end_frame` has
/// moved by the planar part of the velocity once per tick.
pub open spec fn moved(position: PhysicsPosition, velocity: Velocity, ticks: nat) -> PhysicsPosition {
    PhysicsPosition {
        start_frame: position.start_frame,
        end_frame: Vec2 {
            x: drift(position.end_frame.x as int, velocity.vector().x as int, ticks) as i64,
            y: drift(position.end_frame.y as int, velocity.vector().y as int, ticks) as i64,
        },
    }
}

/// A velocity after `ticks` ticks of gravity: `gravity` has been taken from
/// its `y` once per tick.
pub open spec fn fallen(velocity: Velocity, gravity: int, ticks: nat) -> Velocity {
    Velocity(
        Vec3 {
            x: velocity.vector().x,
            y: drift(velocity.vector().y as int, -gravity, ticks) as i64,
            z: velocity.vector().z,
        },
    )
}

/// Ticks of gravity add up over calls: `first` ticks and then `second`
/// ticks leave the velocity that `first + second` ticks leave.
pub proof fn lemma_gravity_adds_up(velocity: Velocity, gravity: int, first: nat, second: nat)
    ensures
        fallen(fallen(velocity, gravity, first), gravity, second) == fallen(
            velocity,
            gravity,
            first + second,
        ),
        fallen(velocity, gravity, 0) == velocity,
{
    lemma_drift_adds_up(velocity.vector().y as int, -gravity, first, second);
}

/// An entity that starts with no vertical velocity has, after `ticks` ticks
/// of gravity, a downward velocity of `ticks` times `gravity`, as long as
/// that fits into an `i64`.
pub proof fn lemma_gravity_from_rest(velocity: Velocity, gravity: int, ticks: nat)
    requires
        velocity.vector().y == 0,
        i64::MIN <= -(ticks * gravity) <= i64::MAX,
    ensures
        fallen(velocity, gravity, ticks).vector().y == -(ticks * gravity),
{
    assert(ticks * (-gravity) == -(ticks * gravity)) by (nonlinear_arith);
}

/// Moves every position by its velocity, once for each tick in `tick`.
/// Only `end_frame` moves, by the planar part of the velocity.
pub fn apply_velocity(tick: &Vec<PhysicsTick>, movement: &mut Vec<(Velocity, PhysicsPosition)>)
    ensures
        final(movement)@.len() == old(movement)@.len(),
        forall|i: int|
            0 <= i < old(movement)@.len() ==> {
                &&& (#[trigger] final(movement)@[i]).0 == old(movement)@[i].0
                &&& final(movement)@[i].1 == moved(old(movement)@[i].1, old(movement)@[i].0, tick@.len())
            },
{
    let mut done: usize = 0;
    proof {
        assert forall|i: int| 0 <= i < movement@.len() implies (#[trigger] movement@[i]).1 == moved(
            movement@[i].1,
            movement@[i].0,
            0,
        ) by {
            lemma_drift_adds_up(movement@[i].1.end_frame.x as int, movement@[i].0.vector().x as int, 0, 0);
            lemma_drift_adds_up(movement@[i].1.end_frame.y as int, movement@[i].0.vector().y as int, 0, 0);
        }
    }
    while done < tick.len()
        invariant
            0 <= done <= tick.len(),
            movement@.len() == old(movement)@.len(),
            forall|i: int|
                0 <= i < movement@.len() ==> {
                    &&& (#[trigger] movement@[i]).0 == old(movement)@[i].0
                    &&& movement@[i].1 == moved(old(movement)@[i].1, old(movement)@[i].0, done as nat)
                },
        decreases tick.len() - done,
    {
        let mut i: usize = 0;
        while i < movement.len()
            invariant
                0 <= i <= movement.len(),
                done < tick.len(),
                movement@.len() == old(movement)@.len(),
                forall|k: int|
                    0 <= k < movement@.len() ==> (#[trigger] movement@[k]).0 == old(movement)@[k].0,
                forall|k: int|
                    0 <= k < i ==> (#[trigger] movement@[k]).1 == moved(
                        old(movement)@[k].1,
                        old(movement)@[k].0,
                        (done + 1) as nat,
                    ),
                forall|k: int|
                    i <= k < movement@.len() ==> (#[trigger] movement@[k]).1 == moved(
                        old(movement)@[k].1,
                        old(movement)@[k].0,
                        done as nat,
                    ),
            decreases movement.len() - i,
        {
            let (velocity, position) = movement[i];
            let step = velocity.get().truncate();
            proof {
                let start = old(movement)@[i as int].1;
                lemma_drift_adds_up(start.end_frame.x as int, step.x as int, done as nat, 1);
                lemma_drift_adds_up(start.end_frame.y as int, step.y as int, done as nat, 1);
                assert(1 * (step.x as int) == step.x) by (nonlinear_arith);
                assert(1 * (step.y as int) == step.y) by (nonlinear_arith);
            }
            movement.set(
                i,
                (
                    velocity,
                    PhysicsPosition {
                        start_frame: position.start_frame,
                        end_frame: position.end_frame.saturating_add(step),
                    },
                ),
            );
            i += 1;
        }
        done += 1;
    }
}

/// Lets gravity act on every velocity, once for each tick in `tick`: each
/// time `gravity` is taken from `y`.
pub fn apply_gravity(tick: &Vec<PhysicsTick>, gravity: i64, velocities: &mut Vec<Velocity>)
    ensures
        final(velocities)@.len() == old(velocities)@.len(),
        forall|i: int|
            0 <= i < old(velocities)@.len() ==> #[trigger] final(velocities)@[i] == fallen(
                old(velocities)@[i],
                gravity as int,
                tick@.len(),
            ),
{
    let mut done: usize = 0;
    proof {
        assert forall|i: int| 0 <= i < velocities@.len() implies #[trigger] velocities@[i] == fallen(
            velocities@[i],
            gravity as int,
            0,
        ) by {
            lemma_gravity_adds_up(velocities@[i], gravity as int, 0, 0);
        }
    }
    while done < tick.len()
        invariant
            0 <= done <= tick.len(),
            velocities@.len() == old(velocities)@.len(),
            forall|i: int|
                0 <= i < velocities@.len() ==> #[trigger] velocities@[i] == fallen(
                    old(velocities)@[i],
                    gravity as int,
                    done as nat,
                ),
        decreases tick.len() - done,
    {
        let mut i: usize = 0;
        while i < velocities.len()
            invariant
                0 <= i <= velocities.len(),
                done < tick.len(),
                velocities@.len() == old(velocities)@.len(),
                forall|k: int|
                    0 <= k < i ==> #[trigger] velocities@[k] == fallen(
                        old(velocities)@[k],
                        gravity as int,
                        (done + 1) as nat,
                    ),
                forall|k: int|
                    i <= k < velocities@.len() ==> #[trigger] velocities@[k] == fallen(
                        old(velocities)@[k],
                        gravity as int,
                        done as nat,
                    ),
            decreases velocities.len() - i,
        {
            let vector = velocities[i].get();
            proof {
                let start = old(velocities)@[i as int];
                lemma_drift_adds_up(start.vector().y as int, -(gravity as int), done as nat, 1);
                assert(1 * (-(gravity as int)) == -(gravity as int)) by (nonlinear_arith);
            }
            velocities.set(
                i,
                Velocity(Vec3 { x: vector.x, y: saturating_sub(vector.y, gravity), z: vector.z }),
            );
            i += 1;
        }
        done += 1;
    }
}

} // verus!
