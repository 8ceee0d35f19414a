use vstd::prelude::*;
use vstd::arithmetic::div_mod::{
    lemma_div_is_ordered_by_denominator, lemma_fundamental_div_mod, lemma_mod_bound,
};
use crate::boid::Boid;
use crate::quadtree::{inside, lemma_filter_push, shape_insert_all, QuadTree, Shape};
use crate::resources::WorldDimensions;
use crate::geometry::{
    div_toward_zero, norm_sq, quot, rect_has, vec_within_limit, within_limit, Span, Vec2,
    COORD_LIMIT,
};

verus! {

/// Divisor that scales the pull toward the flock's centre.
pub const COHESION_DIVISOR: i64 = 100;

/// Squared distance under which a neighbour pushes an agent away.
pub const SEPARATION_RANGE_SQ: i64 = 1000;

/// Divisor that scales the match of the flock's mean velocity.
pub const ALIGNMENT_DIVISOR: i64 = 8;

/// Distance from a world edge under which an agent is pushed inward.
pub const EDGE_MARGIN: i64 = 100;

/// Size of the inward push near a world edge.
pub const EDGE_PUSH: i64 = 10;

/// The point that agents are drawn toward.
pub const TARGET_X: i64 = 500;

pub const TARGET_Y: i64 = 500;

/// Divisor that scales the pull toward the target.
pub const TARGET_DIVISOR: i64 = 100;

/// Squared speed above which a velocity is scaled down.
pub const SPEED_LIMIT_SQ: i64 = 2500;

/// Largest flock, and largest index, that one step accepts.
pub const MAX_FLOCK: usize = 1_048_576;

/// Bound on the sum of the coordinates of a largest flock.
pub const SUM_LIMIT: i64 = 17_592_186_044_416;

/// Largest elapsed time of one step.
pub const MAX_ELAPSED: i64 = 1_000_000;

/// Sum of the `x` components of `s`.
pub open spec fn sum_x(s: Seq<Vec2>) -> int
    decreases s.len(),
{
    if s.len() == 0 {
        0
    } else {
        sum_x(s.drop_last()) + s.last().x
    }
}

/// Sum of the `y` components of `s`.
pub open spec fn sum_y(s: Seq<Vec2>) -> int
    decreases s.len(),
{
    if s.len() == 0 {
        0
    } else {
        sum_y(s.drop_last()) + s.last().y
    }
}

/// Whether every vector of `s` lies within the coordinate limit.
pub open spec fn all_within_limit(s: Seq<Vec2>) -> bool {
    forall|i: int| 0 <= i < s.len() ==> vec_within_limit(#[trigger] s[i])
}

/// Steering of `own` toward the mean of the other `s.len() - 1` vectors
/// of `s` (which holds `own` once), scaled down by `divisor`.
pub open spec fn toward_mean(total: int, own: int, n: int, divisor: int) -> int {
    quot(quot(total - own, n - 1) - own, divisor)
}

/// Squared distance between `a` and `b`.
pub open spec fn dist_sq(a: Vec2, b: Vec2) -> int {
    (a.x - b.x) * (a.x - b.x) + (a.y - b.y) * (a.y - b.y)
}

/// Whether the member at index `j` of `s`, not `skip`, is close enough to
/// `p` to push it away.
pub open spec fn crowds(s: Seq<Vec2>, p: Vec2, skip: int, j: int) -> bool {
    j != skip && dist_sq(s[j], p) < SEPARATION_RANGE_SQ
}

/// The `x` component of the push that the members of `s` close to `p`,
/// other than member `skip`, give `p`.
pub open spec fn repulsion_x(s: Seq<Vec2>, p: Vec2, skip: int) -> int
    decreases s.len(),
{
    if s.len() == 0 {
        0
    } else {
        repulsion_x(s.drop_last(), p, skip) + if crowds(s, p, skip, s.len() - 1) {
            p.x - s.last().x
        } else {
            0
        }
    }
}

/// The `y` component of the push described at `repulsion_x`.
pub open spec fn repulsion_y(s: Seq<Vec2>, p: Vec2, skip: int) -> int
    decreases s.len(),
{
    if s.len() == 0 {
        0
    } else {
        repulsion_y(s.drop_last(), p, skip) + if crowds(s, p, skip, s.len() - 1) {
            p.y - s.last().y
        } else {
            0
        }
    }
}

/// The inward push along one axis for a coordinate `v` of a world that
/// spans `lo` to `hi`.
pub open spec fn edge_push(v: int, lo: int, hi: int) -> int {
    if v < lo + EDGE_MARGIN {
        EDGE_PUSH as int
    } else if v > hi - EDGE_MARGIN {
        -EDGE_PUSH
    } else {
        0
    }
}

/// One component `c` of a velocity whose squared speed is `sq`, after the
/// speed limit: scaled by `SPEED_LIMIT_SQ / sq` when `sq` exceeds it.
pub open spec fn clamp_component(c: int, sq: int) -> int {
    if sq > SPEED_LIMIT_SQ {
        quot(c * SPEED_LIMIT_SQ, sq)
    } else {
        c
    }
}

/// Whether an agent's position and velocity lie within the coordinate limit.
pub open spec fn boid_within_limit(b: Boid) -> bool {
    vec_within_limit(b.position) && vec_within_limit(b.velocity)
}

/// The positions of the agents of `s`, in order.
pub open spec fn positions_of(s: Seq<Boid>) -> Seq<Vec2> {
    Seq::new(s.len(), |i: int| s[i].position)
}

/// The velocities of the agents of `s`, in order.
pub open spec fn velocities_of(s: Seq<Boid>) -> Seq<Vec2> {
    Seq::new(s.len(), |i: int| s[i].velocity)
}

/// The `x` component of the velocity that the rules ask of member `i` of
/// the flock `nb`, before the speed limit: its own velocity, the push away
/// from close members and from the world's edges, and, when the flock has
/// other members, the pulls toward their centre and their mean velocity.
pub open spec fn desired_x(nb: Seq<Boid>, i: int, world: WorldDimensions) -> int {
    let p = nb[i].position;
    let v = nb[i].velocity;
    let n = nb.len() as int;
    let base = v.x + repulsion_x(positions_of(nb), p, i) + edge_push(
        p.x as int,
        world.min_x as int,
        world.max_x as int,
    );
    if n == 1 {
        base
    } else {
        base + toward_mean(sum_x(positions_of(nb)), p.x as int, n, COHESION_DIVISOR as int)
            + toward_mean(sum_x(velocities_of(nb)), v.x as int, n, ALIGNMENT_DIVISOR as int)
    }
}

/// The `y` component of the velocity described at `desired_x`.
pub open spec fn desired_y(nb: Seq<Boid>, i: int, world: WorldDimensions) -> int {
    let p = nb[i].position;
    let v = nb[i].velocity;
    let n = nb.len() as int;
    let base = v.y + repulsion_y(positions_of(nb), p, i) + edge_push(
        p.y as int,
        world.min_y as int,
        world.max_y as int,
    );
    if n == 1 {
        base
    } else {
        base + toward_mean(sum_y(positions_of(nb)), p.y as int, n, COHESION_DIVISOR as int)
            + toward_mean(sum_y(velocities_of(nb)), v.y as int, n, ALIGNMENT_DIVISOR as int)
    }
}

/// Member `i` of the flock `nb` after one step of `elapsed`: its velocity
/// is the desired one after the speed limit, and its position moves by
/// that velocity times `elapsed`. Every member reads the flock as it was
/// before the step.
pub open spec fn advanced(nb: Seq<Boid>, i: int, world: WorldDimensions, elapsed: int) -> Boid {
    let dx = desired_x(nb, i, world);
    let dy = desired_y(nb, i, world);
    let sq = dx * dx + dy * dy;
    let vx = clamp_component(dx, sq);
    let vy = clamp_component(dy, sq);
    Boid {
        id: nb[i].id,
        position: Vec2 {
            x: (nb[i].position.x + vx * elapsed) as i64,
            y: (nb[i].position.y + vy * elapsed) as i64,
        },
        velocity: Vec2 { x: vx as i64, y: vy as i64 },
    }
}

/// Every member of the flock `nb` after one step, in order.
pub open spec fn advance_all(nb: Seq<Boid>, world: WorldDimensions, elapsed: int) -> Seq<Boid> {
    Seq::new(nb.len(), |i: int| advanced(nb, i, world, elapsed))
}

/// The agents after one step, region by region: the agents of `agents`
/// that lie in each region form its flock, and each flock is advanced in
/// the order of `regions`.
pub open spec fn tick_moves(
    regions: Seq<crate::resources::WorldRegion>,
    agents: Seq<Boid>,
    world: WorldDimensions,
    elapsed: int,
) -> Seq<Boid>
    decreases regions.len(),
{
    if regions.len() == 0 {
        Seq::empty()
    } else {
        tick_moves(regions.drop_last(), agents, world, elapsed) + advance_all(
            agents.filter(inside(regions.last().x_range, regions.last().y_range)),
            world,
            elapsed,
        )
    }
}

/// The test that an agent has left the rectangle `x` by `y`.
pub open spec fn outside(x: Span, y: Span) -> spec_fn(Boid) -> bool {
    |b: Boid| !rect_has(x, y, b.position)
}

proof fn lemma_filter_keeps_limit(s: Seq<Boid>, pred: spec_fn(Boid) -> bool)
    requires
        forall|i: int| 0 <= i < s.len() ==> boid_within_limit(#[trigger] s[i]),
    ensures
        forall|i: int|
            0 <= i < s.filter(pred).len() ==> boid_within_limit(#[trigger] s.filter(pred)[i]),
        s.filter(pred).len() <= s.len(),
    decreases s.len(),
{
    reveal(Seq::filter);
    if s.len() > 0 {
        lemma_filter_keeps_limit(s.drop_last(), pred);
    }
}

proof fn lemma_limit_after_insert(prev: Seq<Boid>, next: Seq<Boid>, b: Boid)
    requires
        next.to_multiset() == prev.to_multiset().insert(b),
        forall|j: int| 0 <= j < prev.len() ==> boid_within_limit(#[trigger] prev[j]),
        boid_within_limit(b),
    ensures
        forall|j: int| 0 <= j < next.len() ==> boid_within_limit(#[trigger] next[j]),
{
    broadcast use vstd::multiset::group_multiset_axioms;

    assert forall|j: int| 0 <= j < next.len() implies boid_within_limit(#[trigger] next[j]) by {
        let x = next[j];
        next.to_multiset_ensures();
        prev.to_multiset_ensures();
        assert(next.contains(x));
        assert(next.to_multiset().count(x) > 0);
        if x != b {
            assert(prev.to_multiset().insert(b).count(x) == prev.to_multiset().count(x));
            assert(prev.to_multiset().count(x) > 0);
            assert(prev.contains(x));
            let k = choose|k: int| 0 <= k < prev.len() && prev[k] == x;
            assert(boid_within_limit(prev[k]));
        }
    }
}

proof fn lemma_quot_shrinks(a: int, d: int)
    requires
        d >= 1,
    ensures
        a >= 0 ==> 0 <= quot(a, d) <= a,
        a < 0 ==> a <= quot(a, d) <= 0,
{
    if a >= 0 {
        lemma_div_is_ordered_by_denominator(a, 1, d);
    } else {
        lemma_div_is_ordered_by_denominator(-a, 1, d);
    }
}

/// Sums the components of `vs`.
fn total(vs: &Vec<Vec2>) -> (r: (i64, i64))
    requires
        vs.len() <= MAX_FLOCK,
        all_within_limit(vs@),
    ensures
        r.0 == sum_x(vs@),
        r.1 == sum_y(vs@),
        -SUM_LIMIT <= r.0 <= SUM_LIMIT,
        -SUM_LIMIT <= r.1 <= SUM_LIMIT,
{
    let mut sx: i64 = 0;
    let mut sy: i64 = 0;
    let mut i: usize = 0;
    while i < vs.len()
        invariant
            vs.len() <= MAX_FLOCK,
            all_within_limit(vs@),
            0 <= i <= vs.len(),
            sx == sum_x(vs@.subrange(0, i as int)),
            sy == sum_y(vs@.subrange(0, i as int)),
            -(i as int) * COORD_LIMIT <= sx <= (i as int) * COORD_LIMIT,
            -(i as int) * COORD_LIMIT <= sy <= (i as int) * COORD_LIMIT,
        decreases vs.len() - i,
    {
        let v = vs[i];
        proof {
            assert(vec_within_limit(vs@[i as int]));
            assert(vs@.subrange(0, i + 1).drop_last() =~= vs@.subrange(0, i as int));
        }
        sx = sx + v.x;
        sy = sy + v.y;
        i = i + 1;
    }
    proof {
        assert(vs@.subrange(0, vs.len() as int) =~= vs@);
    }
    (sx, sy)
}

/// Steering of one component toward the mean of the others, scaled down
/// by `divisor`, from the flock's total `sum`.
fn steer_toward_mean(sum: i64, own: i64, n: usize, divisor: i64) -> (r: i64)
    requires
        2 <= n <= MAX_FLOCK,
        -SUM_LIMIT <= sum <= SUM_LIMIT,
        within_limit(own as int),
        divisor >= 1,
    ensures
        r == toward_mean(sum as int, own as int, n as int, divisor as int),
        -2 * SUM_LIMIT <= r <= 2 * SUM_LIMIT,
{
    let others: i64 = (n - 1) as i64;
    let mean = div_toward_zero(sum - own, others);
    proof {
        lemma_quot_shrinks(sum - own, others as int);
    }
    let offset = mean - own;
    let r = div_toward_zero(offset, divisor);
    proof {
        lemma_quot_shrinks(offset as int, divisor as int);
    }
    r
}

proof fn lemma_square_bound(d: int)
    requires
        -2 * COORD_LIMIT <= d <= 2 * COORD_LIMIT,
    ensures
        0 <= d * d <= (2 * COORD_LIMIT) * (2 * COORD_LIMIT),
{
    assert(0 <= d * d <= (2 * COORD_LIMIT) * (2 * COORD_LIMIT)) by (nonlinear_arith)
        requires
            -2 * COORD_LIMIT <= d <= 2 * COORD_LIMIT,
    ;
}

proof fn lemma_close_is_small(dx: int, dy: int)
    requires
        dx * dx + dy * dy < SEPARATION_RANGE_SQ,
    ensures
        -31 <= dx <= 31,
        -31 <= dy <= 31,
{
    assert(dy * dy >= 0) by (nonlinear_arith);
    assert(dx * dx >= 0) by (nonlinear_arith);
    if dx > 31 {
        assert(dx * dx >= 32 * 32) by (nonlinear_arith)
            requires
                dx >= 32,
        ;
    }
    if dx < -31 {
        assert(dx * dx >= 32 * 32) by (nonlinear_arith)
            requires
                dx <= -32,
        ;
    }
    if dy > 31 {
        assert(dy * dy >= 32 * 32) by (nonlinear_arith)
            requires
                dy >= 32,
        ;
    }
    if dy < -31 {
        assert(dy * dy >= 32 * 32) by (nonlinear_arith)
            requires
                dy <= -32,
        ;
    }
}

/// The magnitude of `c`.
fn magnitude(c: i64) -> (r: u128)
    ensures
        r == (if c >= 0 {
            c as int
        } else {
            -c
        }),
        r * r == c * c,
        r <= 9_223_372_036_854_775_808,
{
    let r: u128 = if c >= 0 {
        c as u128
    } else {
        (-(c as i128)) as u128
    };
    assert(r * r == c * c) by (nonlinear_arith)
        requires
            r == c || r == -c,
    ;
    r
}

proof fn lemma_square_fits(a: int)
    requires
        0 <= a <= 9_223_372_036_854_775_808,
    ensures
        0 <= a * a <= 85_070_591_730_234_615_865_843_651_857_942_052_864,
{
    assert(0 <= a * a <= 9_223_372_036_854_775_808 * 9_223_372_036_854_775_808) by (nonlinear_arith)
        requires
            0 <= a <= 9_223_372_036_854_775_808,
    ;
}

/// A component of a velocity over the speed limit, scaled as the limit
/// asks, is at most 50 in magnitude.
proof fn lemma_scaled_component(a: int, sq: int)
    requires
        0 <= a,
        a * a <= sq,
        sq > SPEED_LIMIT_SQ,
    ensures
        0 <= (a * SPEED_LIMIT_SQ) / sq <= 50,
{
    if a <= 50 {
        assert(a * 50 <= 2500) by (nonlinear_arith)
            requires
                0 <= a <= 50,
        ;
    } else {
        assert(a * 50 < a * a) by (nonlinear_arith)
            requires
                a > 50,
        ;
    }
    let q = (a * SPEED_LIMIT_SQ) / sq;
    lemma_fundamental_div_mod(a * SPEED_LIMIT_SQ, sq);
    lemma_mod_bound(a * SPEED_LIMIT_SQ, sq);
    assert(0 <= q <= 50) by (nonlinear_arith)
        requires
            a * SPEED_LIMIT_SQ == sq * q + (a * SPEED_LIMIT_SQ) % sq,
            0 <= (a * SPEED_LIMIT_SQ) % sq < sq,
            a * 50 <= sq,
            a >= 0,
            sq > 0,
    ;
}

/// One component of a velocity after the speed limit, from its sign, its
/// magnitude `a` and the squared speed `sq`.
fn clamp_one(c: i64, a: u128, sq: u128) -> (r: i64)
    requires
        a == (if c >= 0 {
            c as int
        } else {
            -c
        }),
        a * a <= sq,
        sq > SPEED_LIMIT_SQ,
    ensures
        r == quot(c * SPEED_LIMIT_SQ, sq as int),
        -50 <= r <= 50,
{
    proof {
        lemma_scaled_component(a as int, sq as int);
    }
    let q: u128 = (a * (SPEED_LIMIT_SQ as u128)) / sq;
    if c >= 0 {
        q as i64
    } else {
        assert(-(c * SPEED_LIMIT_SQ) == a * SPEED_LIMIT_SQ);
        -(q as i64)
    }
}

/// The positions and the velocities of the agents of `flock`, in order.
fn kinematics(flock: &Vec<Boid>) -> (r: (Vec<Vec2>, Vec<Vec2>))
    ensures
        r.0@ == positions_of(flock@),
        r.1@ == velocities_of(flock@),
{
    let mut positions: Vec<Vec2> = Vec::new();
    let mut velocities: Vec<Vec2> = Vec::new();
    let mut i: usize = 0;
    while i < flock.len()
        invariant
            0 <= i <= flock.len(),
            positions@ == positions_of(flock@.subrange(0, i as int)),
            velocities@ == velocities_of(flock@.subrange(0, i as int)),
        decreases flock.len() - i,
    {
        positions.push(flock[i].position);
        velocities.push(flock[i].velocity);
        i = i + 1;
        assert(positions@ =~= positions_of(flock@.subrange(0, i as int)));
        assert(velocities@ =~= velocities_of(flock@.subrange(0, i as int)));
    }
    assert(flock@.subrange(0, i as int) =~= flock@);
    (positions, velocities)
}

/// The outcome of one step: the index for the next step, every agent as
/// the step left it, and those of them that left the world and so are not
/// in the new index.
pub struct TickOutcome {
    pub index: QuadTree,
    pub moved: Vec<Boid>,
    pub dropped: Vec<Boid>,
}

/// The rules that steer each agent of a flock, and the step that applies
/// them to every agent of the world.
pub struct BoidSystem;

impl BoidSystem {
    /// Pull toward the centre of the other members of the flock whose
    /// positions are `positions` (the agent's own among them), scaled down
    /// by `COHESION_DIVISOR`.
    pub fn cohesion(boid_pos: Vec2, positions: &Vec<Vec2>) -> (r: Vec2)
        requires
            2 <= positions.len() <= MAX_FLOCK,
            all_within_limit(positions@),
            vec_within_limit(boid_pos),
        ensures
            r.x == toward_mean(sum_x(positions@), boid_pos.x as int, positions.len() as int, COHESION_DIVISOR as int),
            r.y == toward_mean(sum_y(positions@), boid_pos.y as int, positions.len() as int, COHESION_DIVISOR as int),
            -2 * SUM_LIMIT <= r.x <= 2 * SUM_LIMIT,
            -2 * SUM_LIMIT <= r.y <= 2 * SUM_LIMIT,
    {
        let (sx, sy) = total(positions);
        let n = positions.len();
        Vec2 {
            x: steer_toward_mean(sx, boid_pos.x, n, COHESION_DIVISOR),
            y: steer_toward_mean(sy, boid_pos.y, n, COHESION_DIVISOR),
        }
    }

    /// Match of the mean velocity of the other members of the flock whose
    /// velocities are `velocities` (the agent's own among them), scaled down
    /// by `ALIGNMENT_DIVISOR`.
    pub fn alignment(boid_vel: Vec2, velocities: &Vec<Vec2>) -> (r: Vec2)
        requires
            2 <= velocities.len() <= MAX_FLOCK,
            all_within_limit(velocities@),
            vec_within_limit(boid_vel),
        ensures
            r.x == toward_mean(sum_x(velocities@), boid_vel.x as int, velocities.len() as int, ALIGNMENT_DIVISOR as int),
            r.y == toward_mean(sum_y(velocities@), boid_vel.y as int, velocities.len() as int, ALIGNMENT_DIVISOR as int),
            -2 * SUM_LIMIT <= r.x <= 2 * SUM_LIMIT,
            -2 * SUM_LIMIT <= r.y <= 2 * SUM_LIMIT,
    {
        let (sx, sy) = total(velocities);
        let n = velocities.len();
        Vec2 {
            x: steer_toward_mean(sx, boid_vel.x, n, ALIGNMENT_DIVISOR),
            y: steer_toward_mean(sy, boid_vel.y, n, ALIGNMENT_DIVISOR),
        }
    }

    /// Push away from every member of the flock, other than member
    /// `boid_num`, whose squared distance to `boid_pos` is under
    /// `SEPARATION_RANGE_SQ`: the sum of `boid_pos` minus their positions.
    pub fn separation(boid_pos: Vec2, positions: &Vec<Vec2>, boid_num: usize) -> (r: Vec2)
        requires
            positions.len() <= MAX_FLOCK,
            all_within_limit(positions@),
            vec_within_limit(boid_pos),
        ensures
            r.x == repulsion_x(positions@, boid_pos, boid_num as int),
            r.y == repulsion_y(positions@, boid_pos, boid_num as int),
            -31 * (MAX_FLOCK as int) <= r.x <= 31 * (MAX_FLOCK as int),
            -31 * (MAX_FLOCK as int) <= r.y <= 31 * (MAX_FLOCK as int),
    {
        let mut ox: i64 = 0;
        let mut oy: i64 = 0;
        let mut j: usize = 0;
        while j < positions.len()
            invariant
                positions.len() <= MAX_FLOCK,
                all_within_limit(positions@),
                vec_within_limit(boid_pos),
                0 <= j <= positions.len(),
                ox == repulsion_x(positions@.subrange(0, j as int), boid_pos, boid_num as int),
                oy == repulsion_y(positions@.subrange(0, j as int), boid_pos, boid_num as int),
                -31 * (j as int) <= ox <= 31 * (j as int),
                -31 * (j as int) <= oy <= 31 * (j as int),
            decreases positions.len() - j,
        {
            let q = positions[j];
            let ghost pre = positions@.subrange(0, j as int);
            let ghost cur = positions@.subrange(0, j + 1);
            proof {
                assert(vec_within_limit(positions@[j as int]));
                assert(cur.drop_last() =~= pre);
                assert(cur.last() == q);
            }
            let dx = q.x - boid_pos.x;
            let dy = q.y - boid_pos.y;
            proof {
                lemma_square_bound(dx as int);
                lemma_square_bound(dy as int);
            }
            let d2 = dx * dx + dy * dy;
            proof {
                assert(d2 == dist_sq(q, boid_pos));
                assert(crowds(cur, boid_pos, boid_num as int, j as int) == (j != boid_num && d2
                    < SEPARATION_RANGE_SQ));
            }
            if j != boid_num && d2 < SEPARATION_RANGE_SQ {
                proof {
                    lemma_close_is_small(dx as int, dy as int);
                }
                ox = ox - dx;
                oy = oy - dy;
            }
            j = j + 1;
        }
        proof {
            assert(positions@.subrange(0, positions.len() as int) =~= positions@);
        }
        Vec2 { x: ox, y: oy }
    }

    /// Pull toward the point (`TARGET_X`, `TARGET_Y`) for an agent moving
    /// at `boid_vel`: the difference scaled down by `TARGET_DIVISOR`.
    pub fn move_to_target(boid_vel: Vec2) -> (r: Vec2)
        requires
            vec_within_limit(boid_vel),
        ensures
            r.x == quot(TARGET_X - boid_vel.x, TARGET_DIVISOR as int),
            r.y == quot(TARGET_Y - boid_vel.y, TARGET_DIVISOR as int),
    {
        Vec2 {
            x: div_toward_zero(TARGET_X - boid_vel.x, TARGET_DIVISOR),
            y: div_toward_zero(TARGET_Y - boid_vel.y, TARGET_DIVISOR),
        }
    }

    /// Inward push of `EDGE_PUSH` along each axis on which `boid_pos` lies
    /// within `EDGE_MARGIN` of an edge of the world, the lower edge first;
    /// nothing along an axis where it does not.
    pub fn limit_area(boid_pos: Vec2, x_max: i64, y_max: i64, x_min: i64, y_min: i64) -> (r: Vec2)
        ensures
            r.x == edge_push(boid_pos.x as int, x_min as int, x_max as int),
            r.y == edge_push(boid_pos.y as int, y_min as int, y_max as int),
    {
        let mut v_offset = Vec2 { x: 0, y: 0 };
        if (boid_pos.x as i128) < (x_min as i128) + (EDGE_MARGIN as i128) {
            v_offset.x = EDGE_PUSH;
        } else if (boid_pos.x as i128) > (x_max as i128) - (EDGE_MARGIN as i128) {
            v_offset.x = -EDGE_PUSH;
        }
        if (boid_pos.y as i128) < (y_min as i128) + (EDGE_MARGIN as i128) {
            v_offset.y = EDGE_PUSH;
        } else if (boid_pos.y as i128) > (y_max as i128) - (EDGE_MARGIN as i128) {
            v_offset.y = -EDGE_PUSH;
        }
        v_offset
    }

    /// The velocity `boid_vel` after the speed limit: unchanged when its
    /// squared speed is at most `SPEED_LIMIT_SQ`, otherwise each component
    /// multiplied by `SPEED_LIMIT_SQ` and divided by the squared speed.
    pub fn limit_velocity(boid_vel: Vec2) -> (r: Vec2)
        ensures
            r.x == clamp_component(boid_vel.x as int, norm_sq(boid_vel)),
            r.y == clamp_component(boid_vel.y as int, norm_sq(boid_vel)),
            norm_sq(boid_vel) <= SPEED_LIMIT_SQ ==> r == boid_vel,
            -50 <= r.x <= 50,
            -50 <= r.y <= 50,
    {
        let ax = magnitude(boid_vel.x);
        let ay = magnitude(boid_vel.y);
        proof {
            lemma_square_fits(ax as int);
            lemma_square_fits(ay as int);
        }
        let sq: u128 = ax * ax + ay * ay;
        if sq > (SPEED_LIMIT_SQ as u128) {
            Vec2 { x: clamp_one(boid_vel.x, ax, sq), y: clamp_one(boid_vel.y, ay, sq) }
        } else {
            proof {
                assert(ax <= 50) by (nonlinear_arith)
                    requires
                        ax * ax <= 2500,
                        ax >= 0,
                ;
                assert(ay <= 50) by (nonlinear_arith)
                    requires
                        ay * ay <= 2500,
                        ay >= 0,
                ;
            }
            boid_vel
        }
    }

    /// Member `i` of `flock` after one step of `elapsed` in `world`.
    /// `positions` and `velocities` are those of the flock's members. The
    /// pull toward the target is worked out and, as the rules stand, not
    /// applied.
    pub fn advance(
        flock: &Vec<Boid>,
        positions: &Vec<Vec2>,
        velocities: &Vec<Vec2>,
        i: usize,
        world: &WorldDimensions,
        elapsed: i64,
    ) -> (r: Boid)
        requires
            i < flock.len() <= MAX_FLOCK,
            positions@ == positions_of(flock@),
            velocities@ == velocities_of(flock@),
            forall|j: int| 0 <= j < flock.len() ==> boid_within_limit(#[trigger] flock@[j]),
            0 <= elapsed <= MAX_ELAPSED,
        ensures
            r == advanced(flock@, i as int, *world, elapsed as int),
            -50 <= r.velocity.x <= 50,
            -50 <= r.velocity.y <= 50,
    {
        let b = flock[i];
        let p = b.position;
        let v = b.velocity;
        proof {
            assert(boid_within_limit(flock@[i as int]));
            assert forall|j: int| 0 <= j < positions.len() implies vec_within_limit(
                #[trigger] positions@[j],
            ) by {
                assert(boid_within_limit(flock@[j]));
            }
            assert forall|j: int| 0 <= j < velocities.len() implies vec_within_limit(
                #[trigger] velocities@[j],
            ) by {
                assert(boid_within_limit(flock@[j]));
            }
        }
        let sep = Self::separation(p, positions, i);
        let area = Self::limit_area(p, world.max_x, world.max_y, world.min_x, world.min_y);
        let _target = Self::move_to_target(v);
        let desired = if flock.len() == 1 {
            Vec2 { x: v.x + sep.x + area.x, y: v.y + sep.y + area.y }
        } else {
            let coh = Self::cohesion(p, positions);
            let ali = Self::alignment(v, velocities);
            Vec2 {
                x: v.x + coh.x + sep.x + ali.x + area.x,
                y: v.y + coh.y + sep.y + ali.y + area.y,
            }
        };
        let vel = Self::limit_velocity(desired);
        proof {
            assert(-50 * MAX_ELAPSED <= vel.x * elapsed <= 50 * MAX_ELAPSED) by (nonlinear_arith)
                requires
                    -50 <= vel.x <= 50,
                    0 <= elapsed <= MAX_ELAPSED,
            ;
            assert(-50 * MAX_ELAPSED <= vel.y * elapsed <= 50 * MAX_ELAPSED) by (nonlinear_arith)
                requires
                    -50 <= vel.y <= 50,
                    0 <= elapsed <= MAX_ELAPSED,
            ;
        }
        let pos = Vec2 { x: p.x + vel.x * elapsed, y: p.y + vel.y * elapsed };
        Boid { id: b.id, position: pos, velocity: vel }
    }

    /// One step of the simulation. For each region of `world`, in order,
    /// the agents of `index` in that region form a flock; every member is
    /// advanced from the flock as it was before the step and put into a new
    /// index over the world's bound. An agent whose new position lies
    /// outside the world is left out of the new index and reported as
    /// dropped.
    pub fn run(world: &WorldDimensions, index: &QuadTree, elapsed: i64) -> (r: TickOutcome)
        requires
            index.wf(),
            index.agents().len() <= MAX_FLOCK,
            forall|j: int|
                0 <= j < index.agents().len() ==> boid_within_limit(#[trigger] index.agents()[j]),
            0 <= elapsed <= MAX_ELAPSED,
        ensures
            r.moved@ == tick_moves(world.regions@, index.agents(), *world, elapsed as int),
            r.index.wf(),
            r.index.x_bound() == world.x_span(),
            r.index.y_bound() == world.y_span(),
            r.index.agents().to_multiset() == r.moved@.filter(
                inside(world.x_span(), world.y_span()),
            ).to_multiset(),
            r.dropped@ == r.moved@.filter(outside(world.x_span(), world.y_span())),
            r.index.shape() == shape_insert_all(
                Shape::Leaf { x: world.x_span(), y: world.y_span(), agents: Seq::<Boid>::empty() },
                r.moved@,
            ),
            forall|j: int| 0 <= j < r.moved.len() ==> -50 <= #[trigger] r.moved@[j].velocity.x <= 50
                && -50 <= r.moved@[j].velocity.y <= 50,
            world.within_limit() ==> forall|j: int|
                0 <= j < r.index.agents().len() ==> boid_within_limit(
                    #[trigger] r.index.agents()[j],
                ),
    {
        broadcast use vstd::seq_lib::group_to_multiset_ensures;

        let wx = Span::new(world.min_x, world.max_x);
        let wy = Span::new(world.min_y, world.max_y);
        let ghost agents = index.agents();
        let ghost keep = inside(wx, wy);
        let ghost lost = outside(wx, wy);
        let mut next = QuadTree::new(wx, wy);
        let ghost base = Shape::Leaf { x: wx, y: wy, agents: Seq::<Boid>::empty() };
        let mut moved: Vec<Boid> = Vec::new();
        let mut dropped: Vec<Boid> = Vec::new();
        let mut k: usize = 0;
        while k < world.regions.len()
            invariant
                index.wf(),
                agents == index.agents(),
                agents.len() <= MAX_FLOCK,
                forall|j: int| 0 <= j < agents.len() ==> boid_within_limit(#[trigger] agents[j]),
                0 <= elapsed <= MAX_ELAPSED,
                wx == world.x_span() && wy == world.y_span(),
                keep == inside(wx, wy) && lost == outside(wx, wy),
                0 <= k <= world.regions.len(),
                moved@ == tick_moves(world.regions@.subrange(0, k as int), agents, *world, elapsed as int),
                next.wf(),
                next.x_bound() == wx && next.y_bound() == wy,
                next.agents().to_multiset() == moved@.filter(keep).to_multiset(),
                dropped@ == moved@.filter(lost),
                base == (Shape::Leaf { x: wx, y: wy, agents: Seq::<Boid>::empty() }),
                next.shape() == shape_insert_all(base, moved@),
                forall|j: int| 0 <= j < moved.len() ==> -50 <= #[trigger] moved@[j].velocity.x <= 50
                    && -50 <= moved@[j].velocity.y <= 50,
                world.within_limit() ==> forall|j: int|
                    0 <= j < next.agents().len() ==> boid_within_limit(#[trigger] next.agents()[j]),
            decreases world.regions.len() - k,
        {
            let region = world.regions[k];
            let flock = index.search_range(region.x_range, region.y_range);
            proof {
                lemma_filter_keeps_limit(agents, inside(region.x_range, region.y_range));
            }
            let (positions, velocities) = kinematics(&flock);
            let ghost done = moved@;
            let ghost fresh = advance_all(flock@, *world, elapsed as int);
            let mut i: usize = 0;
            while i < flock.len()
                invariant
                    flock.len() <= MAX_FLOCK,
                    forall|j: int| 0 <= j < flock.len() ==> boid_within_limit(#[trigger] flock@[j]),
                    positions@ == positions_of(flock@),
                    velocities@ == velocities_of(flock@),
                    0 <= elapsed <= MAX_ELAPSED,
                    fresh == advance_all(flock@, *world, elapsed as int),
                    wx == world.x_span() && wy == world.y_span(),
                    keep == inside(wx, wy) && lost == outside(wx, wy),
                    0 <= i <= flock.len(),
                    moved@ == done + fresh.subrange(0, i as int),
                    next.wf(),
                    next.x_bound() == wx && next.y_bound() == wy,
                    next.agents().to_multiset() == moved@.filter(keep).to_multiset(),
                    dropped@ == moved@.filter(lost),
                    base == (Shape::Leaf { x: wx, y: wy, agents: Seq::<Boid>::empty() }),
                    next.shape() == shape_insert_all(base, moved@),
                    forall|j: int| 0 <= j < moved.len() ==> -50 <= #[trigger] moved@[j].velocity.x <= 50
                        && -50 <= moved@[j].velocity.y <= 50,
                    world.within_limit() ==> forall|j: int|
                        0 <= j < next.agents().len() ==> boid_within_limit(#[trigger] next.agents()[j]),
                decreases flock.len() - i,
            {
                let b = Self::advance(&flock, &positions, &velocities, i, world, elapsed);
                let ghost before = moved@;
                let ghost kept = before.filter(keep);
                moved.push(b);
                proof {
                    lemma_filter_push(before, b, keep);
                    lemma_filter_push(before, b, lost);
                    kept.to_multiset_ensures();
                    assert(moved@.drop_last() =~= before);
                    assert(moved@ =~= done + fresh.subrange(0, i + 1));
                }
                let ghost held = next.agents();
                if !next.insert(b) {
                    dropped.push(b);
                } else {
                    proof {
                        if world.within_limit() {
                            lemma_limit_after_insert(held, next.agents(), b);
                        }
                    }
                }
                i = i + 1;
            }
            proof {
                assert(fresh.subrange(0, flock.len() as int) =~= fresh);
                assert(world.regions@.subrange(0, k + 1).drop_last() =~= world.regions@.subrange(
                    0,
                    k as int,
                ));
            }
            k = k + 1;
        }
        proof {
            assert(world.regions@.subrange(0, k as int) =~= world.regions@);
        }
        TickOutcome { index: next, moved, dropped }
    }
}

} // verus!

verus! {

/// The velocity `v` after the speed limit, as `BoidSystem::limit_velocity`
/// returns it.
pub open spec fn clamped(v: Vec2) -> Vec2 {
    Vec2 {
        x: clamp_component(v.x as int, norm_sq(v)) as i64,
        y: clamp_component(v.y as int, norm_sq(v)) as i64,
    }
}

proof fn lemma_multiple_of_four(x: int, y: int)
    requires
        x * x + y * y == 10000,
        0 <= x,
        0 <= y,
    ensures
        x % 4 == 0,
{
    assert(x <= 100) by (nonlinear_arith)
        requires
            x * x + y * y == 10000,
            0 <= y,
            0 <= x,
    ;
    assert(y <= 100) by (nonlinear_arith)
        requires
            x * x + y * y == 10000,
            0 <= y,
            0 <= x,
    ;
    let a = x as u32;
    let b = y as u32;
    assert(a * b == x * y) by (nonlinear_arith)
        requires
            a == x,
            b == y,
    ;
    assert(a * a + b * b == 10000 && a <= 100 && b <= 100 ==> a % 4 == 0) by (bit_vector);
    assert(a * a == x * x) by (nonlinear_arith)
        requires
            a == x,
    ;
    assert(b * b == y * y) by (nonlinear_arith)
        requires
            b == y,
    ;
}

/// The speed limit is not strict: a velocity whose squared speed is exactly
/// `SPEED_LIMIT_SQ` is left as it is. A velocity whose squared speed is
/// 10000 comes out with squared speed 2500 * 2500 / 10000, as the scaling
/// by `SPEED_LIMIT_SQ` over the squared speed asks.
pub proof fn lemma_speed_limit_boundary(v: Vec2)
    ensures
        norm_sq(v) == SPEED_LIMIT_SQ ==> clamped(v) == v,
        norm_sq(v) == 10000 ==> norm_sq(clamped(v)) == 2500 * 2500 / 10000,
{
    if norm_sq(v) == 10000 {
        let x = v.x as int;
        let y = v.y as int;
        let ax = if x >= 0 { x } else { -x };
        let ay = if y >= 0 { y } else { -y };
        assert(ax * ax == x * x && ay * ay == y * y) by (nonlinear_arith)
            requires
                ax == x || ax == -x,
                ay == y || ay == -y,
        ;
        lemma_multiple_of_four(ax, ay);
        lemma_multiple_of_four(ay, ax);
        let qx = ax / 4;
        let qy = ay / 4;
        assert(quot(x * 2500, 10000) == if x >= 0 { qx } else { -qx });
        assert(quot(y * 2500, 10000) == if y >= 0 { qy } else { -qy });
        assert(qx * qx + qy * qy == 625) by (nonlinear_arith)
            requires
                ax == 4 * qx,
                ay == 4 * qy,
                ax * ax + ay * ay == 10000,
        ;
        assert(0 <= qx <= 25 && 0 <= qy <= 25) by (nonlinear_arith)
            requires
                qx * qx + qy * qy == 625,
                ax == 4 * qx,
                ay == 4 * qy,
                ax >= 0,
                ay >= 0,
        ;
        let c = clamped(v);
        assert(c.x as int == if x >= 0 { qx } else { -qx });
        assert(c.y as int == if y >= 0 { qy } else { -qy });
        assert(norm_sq(c) == qx * qx + qy * qy) by (nonlinear_arith)
            requires
                c.x == qx || c.x == -qx,
                c.y == qy || c.y == -qy,
                norm_sq(c) == c.x * c.x + c.y * c.y,
        ;
    }
}

/// A flock of one agent: the pulls toward the centre and the mean
/// velocity of the others take no part, and no neighbour pushes it away,
/// so its new velocity is its old one with the push from the world's edges,
/// after the speed limit.
pub proof fn lemma_lone_agent(nb: Seq<Boid>, world: WorldDimensions, elapsed: int)
    requires
        nb.len() == 1,
    ensures
        desired_x(nb, 0, world) == nb[0].velocity.x + edge_push(
            nb[0].position.x as int,
            world.min_x as int,
            world.max_x as int,
        ),
        desired_y(nb, 0, world) == nb[0].velocity.y + edge_push(
            nb[0].position.y as int,
            world.min_y as int,
            world.max_y as int,
        ),
        advanced(nb, 0, world, elapsed).velocity.x == clamp_component(
            desired_x(nb, 0, world),
            desired_x(nb, 0, world) * desired_x(nb, 0, world) + desired_y(nb, 0, world)
                * desired_y(nb, 0, world),
        ) as i64,
        advanced(nb, 0, world, elapsed).velocity.y == clamp_component(
            desired_y(nb, 0, world),
            desired_x(nb, 0, world) * desired_x(nb, 0, world) + desired_y(nb, 0, world)
                * desired_y(nb, 0, world),
        ) as i64,
{
    let ps = positions_of(nb);
    assert(ps.drop_last().len() == 0);
    assert(repulsion_x(ps.drop_last(), nb[0].position, 0) == 0);
    assert(repulsion_y(ps.drop_last(), nb[0].position, 0) == 0);
    assert(!crowds(ps, nb[0].position, 0, 0));
    assert(repulsion_x(ps, nb[0].position, 0) == 0);
    assert(repulsion_y(ps, nb[0].position, 0) == 0);
}

} // verus!
