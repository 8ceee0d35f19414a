use vstd::prelude::*;
use rand::Rng;
use crate::boid::Boid;
use crate::geometry::{rect_has, Span, Vec2};
use crate::resources::{BoidInfo, CurrentState};

verus! {

/// Agents numbered from this one on start in the eastern spawn area.
pub const EAST_SPAWN_FROM: usize = 50;

/// Length of the cycle of the run state, in milliseconds.
pub const CYCLE_MILLIS: u64 = 15_000;

/// Length of the running window at the start of each cycle, in
/// milliseconds.
pub const RUN_WINDOW_MILLIS: u64 = 10;

/// The area in which agent number `boid_num` starts.
pub open spec fn spawn_area_of(boid_num: usize) -> (Span, Span) {
    if boid_num >= EAST_SPAWN_FROM {
        (Span { start: 350, end: 450 }, Span { start: 0, end: 50 })
    } else {
        (Span { start: 50, end: 150 }, Span { start: 0, end: 50 })
    }
}

/// Relies on rand's `thread_rng().gen_range(low, high)`: an integer drawn
/// from `[low, high)`; it panics when `low >= high`, which `requires` rules
/// out.
#[verifier::external_body]
fn draw_between(low: i64, high: i64) -> (r: i64)
    requires
        low < high,
    ensures
        low <= r < high,
{
    rand::thread_rng().gen_range(low, high)
}

/// Setting up agents, and the cycle of the run state.
pub struct Simulator;

impl Simulator {
    /// The area in which agent number `boid_num` starts: the eastern one
    /// for agents numbered `EAST_SPAWN_FROM` or more, the western one for
    /// the others.
    pub fn spawn_area(boid_num: usize) -> (r: (Span, Span))
        ensures
            r == spawn_area_of(boid_num),
    {
        if boid_num >= EAST_SPAWN_FROM {
            (Span::new(350, 450), Span::new(0, 50))
        } else {
            (Span::new(50, 150), Span::new(0, 50))
        }
    }

    /// A resting agent with identity `id` at a random point of the spawn
    /// area of agent number `boid_num`.
    pub fn spawn_boid(boid_num: usize, id: usize) -> (r: Boid)
        ensures
            r.id == id,
            r.velocity == (Vec2 { x: 0, y: 0 }),
            rect_has(spawn_area_of(boid_num).0, spawn_area_of(boid_num).1, r.position),
    {
        let (xs, ys) = Self::spawn_area(boid_num);
        let x = draw_between(xs.start, xs.end);
        let y = draw_between(ys.start, ys.end);
        Boid::new(Vec2::new(x, y), id)
    }

    /// Spawns agent number `boid_num` with identity `id` and adds it to
    /// the live index; the agent is returned whether or not the index's
    /// bound holds it.
    pub fn init_boids(info: &mut BoidInfo, boid_num: usize, id: usize) -> (r: Boid)
        requires
            old(info).qt.wf(),
        ensures
            r.id == id,
            r.velocity == (Vec2 { x: 0, y: 0 }),
            rect_has(spawn_area_of(boid_num).0, spawn_area_of(boid_num).1, r.position),
            final(info).qt.wf(),
            final(info).qt.x_bound() == old(info).qt.x_bound(),
            final(info).qt.y_bound() == old(info).qt.y_bound(),
            rect_has(old(info).qt.x_bound(), old(info).qt.y_bound(), r.position)
                ==> final(info).qt.agents().to_multiset() == old(info).qt.agents().to_multiset().insert(r),
            !rect_has(old(info).qt.x_bound(), old(info).qt.y_bound(), r.position)
                ==> final(info).qt == old(info).qt,
    {
        let boid = Self::spawn_boid(boid_num, id);
        info.qt.insert(boid);
        boid
    }

    /// The run state at `absolute_millis` milliseconds from the start: running
    /// during the first `RUN_WINDOW_MILLIS` of each cycle of `CYCLE_MILLIS`,
    /// paused otherwise.
    pub fn update(absolute_millis: u64) -> (r: CurrentState)
        ensures
            r == (if absolute_millis % CYCLE_MILLIS < RUN_WINDOW_MILLIS {
                CurrentState::Running
            } else {
                CurrentState::Paused
            }),
    {
        if absolute_millis % CYCLE_MILLIS < RUN_WINDOW_MILLIS {
            CurrentState::Running
        } else {
            CurrentState::Paused
        }
    }
}

} // verus!
