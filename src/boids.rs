//! The agent set and the three flocking rules (separation, alignment, cohesion), with the
//! step that finds each agent's neighbours through the quadtree.
use vstd::prelude::*;
use crate::geometry::{AABB, COORD_LIMIT, Vec2};
use crate::sums::{
    lemma_filter_to_multiset, lemma_sum_of_map, lemma_sum_of_permutation, lemma_sum_of_push,
    sum_of,
};
use crate::quadtree::QuadTree;
use crate::vector::{
    div_toward_zero, length_sq, lemma_trunc_div_bound, limit_length, limited, set_length,
    trunc_div, with_length,
};

verus! {

broadcast use vstd::seq_lib::group_to_multiset_ensures;

/// Relies on rand::random: a value drawn from the thread-local generator. Nothing is
/// promised of it.
pub assume_specification<T>[ rand::random::<T> ]() -> (r: T)
    where
        rand::distributions::Standard: rand::distributions::Distribution<T>,
;

/// Fixed-point subunits in one world unit.
pub const UNIT: i64 = 1000;

/// Half extent, on each axis, of the box an agent searches for neighbours by default.
pub const NEIGHBOURHOOD_HALF_EXTENT: i64 = 30 * UNIT;

/// The tunable parameters of the flocking rules, in subunits.
#[derive(Debug, Clone, Copy, PartialEq, Eq, Structural)]
pub struct FlockConfig {
    /// Longest velocity an agent keeps, and the speed every rule steers toward.
    pub max_speed: i64,
    /// Longest steering vector a single rule yields.
    pub max_force: i64,
    /// Neighbours closer than this push the agent away.
    pub desired_separation: i64,
    /// Neighbours closer than this lend the agent their heading.
    pub align_distance: i64,
    /// Neighbours closer than this draw the agent toward their centroid.
    pub cohesion_distance: i64,
}

impl FlockConfig {
    pub open spec fn wf(&self) -> bool {
        &&& 0 <= self.max_speed <= COORD_LIMIT
        &&& 0 <= self.max_force <= COORD_LIMIT
        &&& 0 <= self.desired_separation <= COORD_LIMIT
        &&& 0 <= self.align_distance <= COORD_LIMIT
        &&& 0 <= self.cohesion_distance <= COORD_LIMIT
    }
}

impl Default for FlockConfig {
    /// Speed 8, force 1, separation 25, alignment 100 and cohesion 75 world units.
    fn default() -> (r: FlockConfig)
        ensures
            r.max_speed == 8 * UNIT,
            r.max_force == 1 * UNIT,
            r.desired_separation == 25 * UNIT,
            r.align_distance == 100 * UNIT,
            r.cohesion_distance == 75 * UNIT,
            r.wf(),
    {
        FlockConfig {
            max_speed: 8 * UNIT,
            max_force: 1 * UNIT,
            desired_separation: 25 * UNIT,
            align_distance: 100 * UNIT,
            cohesion_distance: 75 * UNIT,
        }
    }
}

/// Every vector of `s` lies within `COORD_LIMIT`.
pub open spec fn all_bounded(s: Seq<Vec2>) -> bool {
    forall|k: int| 0 <= k < s.len() ==> (#[trigger] s[k]).bounded()
}

/// The neighbour pool as (position, velocity) pairs.
pub open spec fn pool_of(positions: Seq<Vec2>, velocities: Seq<Vec2>) -> Seq<(Vec2, Vec2)> {
    Seq::new(positions.len(), |k: int| (positions[k], velocities[k]))
}

pub open spec fn dist_sq(a: Vec2, b: Vec2) -> int {
    length_sq(a.x - b.x, a.y - b.y)
}

/// `q` is strictly closer to `p` than `radius`, and not at `p` itself.
pub open spec fn within(p: Vec2, q: Vec2, radius: int) -> bool {
    0 < dist_sq(p, q) < radius * radius
}

/// The push of `q` on `p`: the unit vector from `q` to `p` divided by their distance,
/// that is `(p - q) / |p - q|^2`, in subunits.
pub open spec fn repulsion_x(p: Vec2, q: Vec2) -> int {
    trunc_div((p.x - q.x) * (UNIT * UNIT), dist_sq(p, q))
}

pub open spec fn repulsion_y(p: Vec2, q: Vec2) -> int {
    trunc_div((p.y - q.y) * (UNIT * UNIT), dist_sq(p, q))
}

/// Steering from velocity `v` toward the desired velocity `d`, limited to `max_force`.
pub open spec fn steer_from(cfg: FlockConfig, d: (int, int), v: Vec2) -> (int, int) {
    limited(d.0 - v.x, d.1 - v.y, cfg.max_force as int)
}

/// Steering of an agent at `p` with velocity `v` toward `target` at full speed.
pub open spec fn seek_of(cfg: FlockConfig, target: (int, int), p: Vec2, v: Vec2) -> (int, int) {
    steer_from(cfg, with_length(target.0 - p.x, target.1 - p.y, cfg.max_speed as int), v)
}

/// One for each pool member strictly within `r` of `p`.
pub open spec fn near_count(p: Vec2, r: int) -> spec_fn((Vec2, Vec2)) -> int {
    |a: (Vec2, Vec2)| if within(p, a.0, r) { 1int } else { 0int }
}

/// The push on `p` of each pool member strictly within `r` of it.
pub open spec fn near_push_x(p: Vec2, r: int) -> spec_fn((Vec2, Vec2)) -> int {
    |a: (Vec2, Vec2)| if within(p, a.0, r) { repulsion_x(p, a.0) } else { 0int }
}

pub open spec fn near_push_y(p: Vec2, r: int) -> spec_fn((Vec2, Vec2)) -> int {
    |a: (Vec2, Vec2)| if within(p, a.0, r) { repulsion_y(p, a.0) } else { 0int }
}

/// Separation: the mean push of the neighbours closer than `desired_separation`; when it
/// is not zero, steering toward it at full speed.
pub open spec fn separation_of(cfg: FlockConfig, p: Vec2, v: Vec2, pool: Seq<(Vec2, Vec2)>) -> (
    int,
    int,
) {
    let r = cfg.desired_separation as int;
    let n = sum_of(pool, near_count(p, r));
    let ax = trunc_div(sum_of(pool, near_push_x(p, r)), n);
    let ay = trunc_div(sum_of(pool, near_push_y(p, r)), n);
    if n == 0 || (ax == 0 && ay == 0) {
        (0, 0)
    } else {
        steer_from(cfg, with_length(ax, ay, cfg.max_speed as int), v)
    }
}

/// The velocity of each pool member strictly within `r` of `p`.
pub open spec fn near_vel_x(p: Vec2, r: int) -> spec_fn((Vec2, Vec2)) -> int {
    |a: (Vec2, Vec2)| if within(p, a.0, r) { a.1.x as int } else { 0int }
}

pub open spec fn near_vel_y(p: Vec2, r: int) -> spec_fn((Vec2, Vec2)) -> int {
    |a: (Vec2, Vec2)| if within(p, a.0, r) { a.1.y as int } else { 0int }
}

/// Alignment: steering toward the mean velocity of the neighbours closer than
/// `align_distance`, brought to full speed.
pub open spec fn alignment_of(cfg: FlockConfig, p: Vec2, v: Vec2, pool: Seq<(Vec2, Vec2)>) -> (
    int,
    int,
) {
    let r = cfg.align_distance as int;
    let n = sum_of(pool, near_count(p, r));
    if n == 0 {
        (0, 0)
    } else {
        let ax = trunc_div(sum_of(pool, near_vel_x(p, r)), n);
        let ay = trunc_div(sum_of(pool, near_vel_y(p, r)), n);
        steer_from(cfg, with_length(ax, ay, cfg.max_speed as int), v)
    }
}

/// The position of each pool member strictly within `r` of `p`.
pub open spec fn near_pos_x(p: Vec2, r: int) -> spec_fn((Vec2, Vec2)) -> int {
    |a: (Vec2, Vec2)| if within(p, a.0, r) { a.0.x as int } else { 0int }
}

pub open spec fn near_pos_y(p: Vec2, r: int) -> spec_fn((Vec2, Vec2)) -> int {
    |a: (Vec2, Vec2)| if within(p, a.0, r) { a.0.y as int } else { 0int }
}

/// Cohesion: seeking the centroid of the neighbours closer than `cohesion_distance`.
pub open spec fn cohesion_of(cfg: FlockConfig, p: Vec2, v: Vec2, pool: Seq<(Vec2, Vec2)>) -> (
    int,
    int,
) {
    let r = cfg.cohesion_distance as int;
    let n = sum_of(pool, near_count(p, r));
    if n == 0 {
        (0, 0)
    } else {
        let cx = trunc_div(sum_of(pool, near_pos_x(p, r)), n);
        let cy = trunc_div(sum_of(pool, near_pos_y(p, r)), n);
        seek_of(cfg, (cx, cy), p, v)
    }
}

/// The three rules combined, separation weighted by one and a half.
pub open spec fn flock_force(cfg: FlockConfig, p: Vec2, v: Vec2, pool: Seq<(Vec2, Vec2)>) -> (
    int,
    int,
) {
    let s = separation_of(cfg, p, v, pool);
    let a = alignment_of(cfg, p, v, pool);
    let c = cohesion_of(cfg, p, v, pool);
    (trunc_div(3 * s.0, 2) + a.0 + c.0, trunc_div(3 * s.1, 2) + a.1 + c.1)
}

/// Steering from `velocity` toward the desired velocity `desired`.
fn steer(cfg: &FlockConfig, desired: Vec2, velocity: Vec2) -> (r: Vec2)
    requires
        cfg.wf(),
        -COORD_LIMIT <= desired.x <= COORD_LIMIT,
        -COORD_LIMIT <= desired.y <= COORD_LIMIT,
        velocity.bounded(),
    ensures
        (r.x as int, r.y as int) == steer_from(*cfg, (desired.x as int, desired.y as int), velocity),
        -cfg.max_force <= r.x <= cfg.max_force,
        -cfg.max_force <= r.y <= cfg.max_force,
{
    limit_length(Vec2 { x: desired.x - velocity.x, y: desired.y - velocity.y }, cfg.max_force)
}

/// A sum of `count` terms of magnitude at most `bound` fits the division helper.
proof fn lemma_sum_fits(sum: int, count: int, bound: int)
    requires
        0 <= count <= 0x1_0000_0000_0000_0000,
        0 <= bound <= COORD_LIMIT,
        -(count * bound) <= sum <= count * bound,
    ensures
        -0x1_0000_0000_0000_0000_0000_0000 <= sum <= 0x1_0000_0000_0000_0000_0000_0000,
{
    assert(count * bound <= 0x1_0000_0000_0000_0000 * COORD_LIMIT) by (nonlinear_arith)
        requires
            0 <= count <= 0x1_0000_0000_0000_0000,
            0 <= bound <= COORD_LIMIT,
    ;
}

/// What the rules need from the neighbours of one agent within one radius.
struct NeighbourSums {
    count: i128,
    push_x: i128,
    push_y: i128,
    vel_x: i128,
    vel_y: i128,
    pos_x: i128,
    pos_y: i128,
}

/// The push of `q` on `p`, both components; `p` and `q` must differ.
fn repulsion(p: Vec2, q: Vec2) -> (r: (i128, i128))
    requires
        p.bounded(),
        q.bounded(),
        dist_sq(p, q) > 0,
    ensures
        r.0 == repulsion_x(p, q),
        r.1 == repulsion_y(p, q),
        -(UNIT * UNIT) <= r.0 <= UNIT * UNIT,
        -(UNIT * UNIT) <= r.1 <= UNIT * UNIT,
{
    let dx = (p.x as i128) - (q.x as i128);
    let dy = (p.y as i128) - (q.y as i128);
    assert(dx * dx <= 0x10_0000_0000_0000_0000 && dx * dx >= 0) by (nonlinear_arith)
        requires
            -0x8000_0000 <= dx <= 0x8000_0000,
    ;
    assert(dy * dy <= 0x10_0000_0000_0000_0000 && dy * dy >= 0) by (nonlinear_arith)
        requires
            -0x8000_0000 <= dy <= 0x8000_0000,
    ;
    let d2 = dx * dx + dy * dy;
    let u2: i128 = (UNIT as i128) * (UNIT as i128);
    proof {
        assert(-d2 <= dx <= d2) by (nonlinear_arith)
            requires
                d2 == dx * dx + dy * dy,
                d2 > 0,
        ;
        assert(-d2 <= dy <= d2) by (nonlinear_arith)
            requires
                d2 == dx * dx + dy * dy,
                d2 > 0,
        ;
        assert(-(d2 * u2) <= dx * u2 <= d2 * u2) by (nonlinear_arith)
            requires
                -d2 <= dx <= d2,
                u2 > 0,
        ;
        assert(-(d2 * u2) <= dy * u2 <= d2 * u2) by (nonlinear_arith)
            requires
                -d2 <= dy <= d2,
                u2 > 0,
        ;
        lemma_trunc_div_bound(dx * u2, d2 as int, u2 as int);
        lemma_trunc_div_bound(dy * u2, d2 as int, u2 as int);
    }
    (div_toward_zero(dx * u2, d2), div_toward_zero(dy * u2, d2))
}

/// Sums over the neighbours strictly within `radius` of `p`.
#[verifier::spinoff_prover]
fn neighbour_sums(p: Vec2, positions: &[Vec2], velocities: &[Vec2], radius: i64) -> (r:
    NeighbourSums)
    requires
        p.bounded(),
        0 <= radius <= COORD_LIMIT,
        positions@.len() == velocities@.len(),
        all_bounded(positions@),
        all_bounded(velocities@),
    ensures
        ({
            let pool = pool_of(positions@, velocities@);
            let rr = radius as int;
            &&& r.count == sum_of(pool, near_count(p, rr))
            &&& r.push_x == sum_of(pool, near_push_x(p, rr))
            &&& r.push_y == sum_of(pool, near_push_y(p, rr))
            &&& r.vel_x == sum_of(pool, near_vel_x(p, rr))
            &&& r.vel_y == sum_of(pool, near_vel_y(p, rr))
            &&& r.pos_x == sum_of(pool, near_pos_x(p, rr))
            &&& r.pos_y == sum_of(pool, near_pos_y(p, rr))
        }),
        0 <= r.count <= positions@.len(),
        r.count <= 0x1_0000_0000_0000_0000,
        -(r.count * (UNIT * UNIT)) <= r.push_x <= r.count * (UNIT * UNIT),
        -(r.count * (UNIT * UNIT)) <= r.push_y <= r.count * (UNIT * UNIT),
        -(r.count * COORD_LIMIT) <= r.vel_x <= r.count * COORD_LIMIT,
        -(r.count * COORD_LIMIT) <= r.vel_y <= r.count * COORD_LIMIT,
        -(r.count * COORD_LIMIT) <= r.pos_x <= r.count * COORD_LIMIT,
        -(r.count * COORD_LIMIT) <= r.pos_y <= r.count * COORD_LIMIT,
{
    let ghost pool = pool_of(positions@, velocities@);
    let ghost rr = radius as int;
    assert((radius as int) * (radius as int) <= COORD_LIMIT * COORD_LIMIT) by (nonlinear_arith)
        requires
            0 <= radius <= COORD_LIMIT,
    ;
    let r2 = (radius as i128) * (radius as i128);
    let mut acc = NeighbourSums {
        count: 0,
        push_x: 0,
        push_y: 0,
        vel_x: 0,
        vel_y: 0,
        pos_x: 0,
        pos_y: 0,
    };
    let mut k: usize = 0;
    while k < positions.len()
        invariant
            p.bounded(),
            0 <= radius <= COORD_LIMIT,
            r2 == rr * rr,
            rr == radius as int,
            positions@.len() == velocities@.len(),
            all_bounded(positions@),
            all_bounded(velocities@),
            pool == pool_of(positions@, velocities@),
            0 <= k <= positions@.len(),
            acc.count == sum_of(pool.take(k as int), near_count(p, rr)),
            acc.push_x == sum_of(pool.take(k as int), near_push_x(p, rr)),
            acc.push_y == sum_of(pool.take(k as int), near_push_y(p, rr)),
            acc.vel_x == sum_of(pool.take(k as int), near_vel_x(p, rr)),
            acc.vel_y == sum_of(pool.take(k as int), near_vel_y(p, rr)),
            acc.pos_x == sum_of(pool.take(k as int), near_pos_x(p, rr)),
            acc.pos_y == sum_of(pool.take(k as int), near_pos_y(p, rr)),
            0 <= acc.count <= k,
            -(acc.count * (UNIT * UNIT)) <= acc.push_x <= acc.count * (UNIT * UNIT),
            -(acc.count * (UNIT * UNIT)) <= acc.push_y <= acc.count * (UNIT * UNIT),
            -(acc.count * COORD_LIMIT) <= acc.vel_x <= acc.count * COORD_LIMIT,
            -(acc.count * COORD_LIMIT) <= acc.vel_y <= acc.count * COORD_LIMIT,
            -(acc.count * COORD_LIMIT) <= acc.pos_x <= acc.count * COORD_LIMIT,
            -(acc.count * COORD_LIMIT) <= acc.pos_y <= acc.count * COORD_LIMIT,
        decreases positions@.len() - k,
    {
        let q = positions[k];
        let w = velocities[k];
        proof {
            assert(q.bounded());
            assert(w.bounded());
            assert(pool.take(k + 1) =~= pool.take(k as int).push(pool[k as int]));
            assert(pool[k as int] == (q, w));
            lemma_sum_of_push(pool.take(k as int), (q, w), near_count(p, rr));
            lemma_sum_of_push(pool.take(k as int), (q, w), near_push_x(p, rr));
            lemma_sum_of_push(pool.take(k as int), (q, w), near_push_y(p, rr));
            lemma_sum_of_push(pool.take(k as int), (q, w), near_vel_x(p, rr));
            lemma_sum_of_push(pool.take(k as int), (q, w), near_vel_y(p, rr));
            lemma_sum_of_push(pool.take(k as int), (q, w), near_pos_x(p, rr));
            lemma_sum_of_push(pool.take(k as int), (q, w), near_pos_y(p, rr));
        }
        let dx = (p.x as i128) - (q.x as i128);
        let dy = (p.y as i128) - (q.y as i128);
        assert(dx * dx <= 0x10_0000_0000_0000_0000 && dx * dx >= 0) by (nonlinear_arith)
            requires
                -0x8000_0000 <= dx <= 0x8000_0000,
        ;
        assert(dy * dy <= 0x10_0000_0000_0000_0000 && dy * dy >= 0) by (nonlinear_arith)
            requires
                -0x8000_0000 <= dy <= 0x8000_0000,
        ;
        let d2 = dx * dx + dy * dy;
        if 0 < d2 && d2 < r2 {
            let (px, py) = repulsion(p, q);
            proof {
                let c = acc.count as int;
                assert((c + 1) * (UNIT * UNIT) == c * (UNIT * UNIT) + UNIT * UNIT) by (nonlinear_arith);
                assert((c + 1) * COORD_LIMIT == c * COORD_LIMIT + COORD_LIMIT) by (nonlinear_arith);
                assert(c * COORD_LIMIT <= 0x1_0000_0000_0000_0000 * COORD_LIMIT) by (nonlinear_arith)
                    requires
                        0 <= c <= 0x1_0000_0000_0000_0000,
                ;
            }
            acc.count = acc.count + 1;
            acc.push_x = acc.push_x + px;
            acc.push_y = acc.push_y + py;
            acc.vel_x = acc.vel_x + w.x as i128;
            acc.vel_y = acc.vel_y + w.y as i128;
            acc.pos_x = acc.pos_x + q.x as i128;
            acc.pos_y = acc.pos_y + q.y as i128;
        }
        k = k + 1;
    }
    proof {
        assert(pool.take(positions@.len() as int) =~= pool);
    }
    acc
}

/// The separation rule for the agent at `position` moving at `velocity`, over the pool
/// of neighbours given by `positions` and `velocities`.
pub fn separation_steer(
    cfg: &FlockConfig,
    position: Vec2,
    velocity: Vec2,
    positions: &[Vec2],
    velocities: &[Vec2],
) -> (r: Vec2)
    requires
        cfg.wf(),
        position.bounded(),
        velocity.bounded(),
        positions@.len() == velocities@.len(),
        all_bounded(positions@),
        all_bounded(velocities@),
    ensures
        (r.x as int, r.y as int) == separation_of(
            *cfg,
            position,
            velocity,
            pool_of(positions@, velocities@),
        ),
        -cfg.max_force <= r.x <= cfg.max_force,
        -cfg.max_force <= r.y <= cfg.max_force,
{
    let sums = neighbour_sums(position, positions, velocities, cfg.desired_separation);
    if sums.count == 0 {
        return Vec2 { x: 0, y: 0 };
    }
    proof {
        lemma_trunc_div_bound(sums.push_x as int, sums.count as int, UNIT * UNIT);
        lemma_sum_fits(sums.push_x as int, sums.count as int, UNIT * UNIT);
        lemma_trunc_div_bound(sums.push_y as int, sums.count as int, UNIT * UNIT);
        lemma_sum_fits(sums.push_y as int, sums.count as int, UNIT * UNIT);
    }
    let ax = div_toward_zero(sums.push_x, sums.count);
    let ay = div_toward_zero(sums.push_y, sums.count);
    if ax == 0 && ay == 0 {
        return Vec2 { x: 0, y: 0 };
    }
    let desired = set_length(Vec2 { x: ax as i64, y: ay as i64 }, cfg.max_speed);
    steer(cfg, desired, velocity)
}

/// The alignment rule for the agent at `position` moving at `velocity`, over the pool
/// of neighbours given by `positions` and `velocities`.
pub fn alignment_steer(
    cfg: &FlockConfig,
    position: Vec2,
    velocity: Vec2,
    positions: &[Vec2],
    velocities: &[Vec2],
) -> (r: Vec2)
    requires
        cfg.wf(),
        position.bounded(),
        velocity.bounded(),
        positions@.len() == velocities@.len(),
        all_bounded(positions@),
        all_bounded(velocities@),
    ensures
        (r.x as int, r.y as int) == alignment_of(
            *cfg,
            position,
            velocity,
            pool_of(positions@, velocities@),
        ),
        -cfg.max_force <= r.x <= cfg.max_force,
        -cfg.max_force <= r.y <= cfg.max_force,
{
    let sums = neighbour_sums(position, positions, velocities, cfg.align_distance);
    if sums.count == 0 {
        return Vec2 { x: 0, y: 0 };
    }
    proof {
        lemma_trunc_div_bound(sums.vel_x as int, sums.count as int, COORD_LIMIT as int);
        lemma_sum_fits(sums.vel_x as int, sums.count as int, COORD_LIMIT as int);
        lemma_trunc_div_bound(sums.vel_y as int, sums.count as int, COORD_LIMIT as int);
        lemma_sum_fits(sums.vel_y as int, sums.count as int, COORD_LIMIT as int);
    }
    let ax = div_toward_zero(sums.vel_x, sums.count);
    let ay = div_toward_zero(sums.vel_y, sums.count);
    let desired = set_length(Vec2 { x: ax as i64, y: ay as i64 }, cfg.max_speed);
    steer(cfg, desired, velocity)
}

/// The cohesion rule for the agent at `position` moving at `velocity`, over the pool
/// of neighbours given by `positions` and `velocities`.
pub fn cohesion_steer(
    cfg: &FlockConfig,
    position: Vec2,
    velocity: Vec2,
    positions: &[Vec2],
    velocities: &[Vec2],
) -> (r: Vec2)
    requires
        cfg.wf(),
        position.bounded(),
        velocity.bounded(),
        positions@.len() == velocities@.len(),
        all_bounded(positions@),
        all_bounded(velocities@),
    ensures
        (r.x as int, r.y as int) == cohesion_of(
            *cfg,
            position,
            velocity,
            pool_of(positions@, velocities@),
        ),
        -cfg.max_force <= r.x <= cfg.max_force,
        -cfg.max_force <= r.y <= cfg.max_force,
{
    let sums = neighbour_sums(position, positions, velocities, cfg.cohesion_distance);
    if sums.count == 0 {
        return Vec2 { x: 0, y: 0 };
    }
    proof {
        lemma_trunc_div_bound(sums.pos_x as int, sums.count as int, COORD_LIMIT as int);
        lemma_sum_fits(sums.pos_x as int, sums.count as int, COORD_LIMIT as int);
        lemma_trunc_div_bound(sums.pos_y as int, sums.count as int, COORD_LIMIT as int);
        lemma_sum_fits(sums.pos_y as int, sums.count as int, COORD_LIMIT as int);
    }
    let cx = div_toward_zero(sums.pos_x, sums.count);
    let cy = div_toward_zero(sums.pos_y, sums.count);
    Boids::seek(cfg, Vec2 { x: cx as i64, y: cy as i64 }, position, velocity)
}

/// The combined steering of the three rules for one agent.
pub fn flock_one(
    cfg: &FlockConfig,
    position: Vec2,
    velocity: Vec2,
    positions: &[Vec2],
    velocities: &[Vec2],
) -> (r: Vec2)
    requires
        cfg.wf(),
        position.bounded(),
        velocity.bounded(),
        positions@.len() == velocities@.len(),
        all_bounded(positions@),
        all_bounded(velocities@),
    ensures
        (r.x as int, r.y as int) == flock_force(
            *cfg,
            position,
            velocity,
            pool_of(positions@, velocities@),
        ),
        -4 * cfg.max_force <= r.x <= 4 * cfg.max_force,
        -4 * cfg.max_force <= r.y <= 4 * cfg.max_force,
{
    let s = separation_steer(cfg, position, velocity, positions, velocities);
    let a = alignment_steer(cfg, position, velocity, positions, velocities);
    let c = cohesion_steer(cfg, position, velocity, positions, velocities);
    let sx = div_toward_zero(3 * (s.x as i128), 2);
    let sy = div_toward_zero(3 * (s.y as i128), 2);
    proof {
        lemma_trunc_div_bound(3 * s.x, 2, 2 * cfg.max_force);
        lemma_trunc_div_bound(3 * s.y, 2, 2 * cfg.max_force);
    }
    Vec2 { x: (sx as i64) + a.x + c.x, y: (sy as i64) + a.y + c.y }
}

/// `x` moved to the opposite edge of `[lo, hi]` when it has left that interval.
pub open spec fn wrap(x: int, lo: int, hi: int) -> int {
    if x < lo {
        hi
    } else if x > hi {
        lo
    } else {
        x
    }
}

/// Velocity `v` plus acceleration `a`, limited to `max_speed`.
pub open spec fn next_velocity(cfg: FlockConfig, v: Vec2, a: (int, int)) -> (int, int) {
    limited(v.x + a.0, v.y + a.1, cfg.max_speed as int)
}

/// Position `p` moved by velocity `nv` and wrapped around the edges of `world`.
pub open spec fn next_position(world: AABB, p: Vec2, nv: (int, int)) -> (int, int) {
    (wrap(p.x + nv.0, world.min_x(), world.max_x()), wrap(p.y + nv.1, world.min_y(), world.max_y()))
}

pub open spec fn as_pair(v: Vec2) -> (int, int) {
    (v.x as int, v.y as int)
}

/// `np` and `nv` are where an agent at `p` moving at `v` ends up, and how fast it then
/// moves, after one integration step with acceleration `a`.
pub open spec fn moved(
    cfg: FlockConfig,
    world: AABB,
    wrap_edges: bool,
    p: Vec2,
    v: Vec2,
    a: (int, int),
    np: Vec2,
    nv: Vec2,
) -> bool {
    &&& as_pair(nv) == next_velocity(cfg, v, a)
    &&& as_pair(np) == if wrap_edges {
        next_position(world, p, next_velocity(cfg, v, a))
    } else {
        translated(p, next_velocity(cfg, v, a))
    }
}

/// Position `p` moved by velocity `nv`.
pub open spec fn translated(p: Vec2, nv: (int, int)) -> (int, int) {
    (p.x + nv.0, p.y + nv.1)
}

/// Every position lies at least `max_speed` inside `COORD_LIMIT`, so that one move at
/// most that fast keeps it within the limit.
pub open spec fn room_to_move(b: Boids) -> bool {
    forall|k: int|
        0 <= k < b.positions@.len() ==> {
            &&& -COORD_LIMIT + b.config.max_speed <= (#[trigger] b.positions@[k]).x
                <= COORD_LIMIT - b.config.max_speed
            &&& -COORD_LIMIT + b.config.max_speed <= b.positions@[k].y <= COORD_LIMIT
                - b.config.max_speed
        }
}

/// Each agent's record for the spatial index: its position and its id.
pub open spec fn agent_records(b: Boids) -> Seq<(Vec2, usize)> {
    Seq::new(b.positions@.len(), |j: int| (b.positions@[j], j as usize))
}

/// The box of half extent `half` around agent `i`.
pub open spec fn neighbourhood(b: Boids, i: int, half: Vec2) -> AABB {
    AABB { center: b.positions@[i], half_dimension: half }
}

/// The neighbour pool of agent `i`: position and velocity of each agent, in id order,
/// whose position lies inside the world and inside the box of half extent `half` around
/// agent `i`.
pub open spec fn neighbour_pool(b: Boids, i: int, half: Vec2) -> Seq<(Vec2, Vec2)> {
    agent_records(b).filter(
        |r: (Vec2, usize)| b.world.spec_contains(r.0) && neighbourhood(b, i, half).spec_contains(r.0),
    ).map_values(|r: (Vec2, usize)| (r.0, b.velocities@[r.1 as int]))
}

/// Pools with the same sums give the same steering.
proof fn lemma_same_sums_same_force(
    cfg: FlockConfig,
    p: Vec2,
    v: Vec2,
    pool1: Seq<(Vec2, Vec2)>,
    pool2: Seq<(Vec2, Vec2)>,
)
    requires
        forall|f: spec_fn((Vec2, Vec2)) -> int| #[trigger] sum_of(pool1, f) == sum_of(pool2, f),
    ensures
        flock_force(cfg, p, v, pool1) == flock_force(cfg, p, v, pool2),
{
    assert(sum_of(pool1, near_count(p, cfg.desired_separation as int)) == sum_of(pool2, near_count(p, cfg.desired_separation as int)));
    assert(sum_of(pool1, near_push_x(p, cfg.desired_separation as int)) == sum_of(pool2, near_push_x(p, cfg.desired_separation as int)));
    assert(sum_of(pool1, near_push_y(p, cfg.desired_separation as int)) == sum_of(pool2, near_push_y(p, cfg.desired_separation as int)));
    assert(sum_of(pool1, near_count(p, cfg.align_distance as int)) == sum_of(pool2, near_count(p, cfg.align_distance as int)));
    assert(sum_of(pool1, near_vel_x(p, cfg.align_distance as int)) == sum_of(pool2, near_vel_x(p, cfg.align_distance as int)));
    assert(sum_of(pool1, near_vel_y(p, cfg.align_distance as int)) == sum_of(pool2, near_vel_y(p, cfg.align_distance as int)));
    assert(sum_of(pool1, near_count(p, cfg.cohesion_distance as int)) == sum_of(pool2, near_count(p, cfg.cohesion_distance as int)));
    assert(sum_of(pool1, near_pos_x(p, cfg.cohesion_distance as int)) == sum_of(pool2, near_pos_x(p, cfg.cohesion_distance as int)));
    assert(sum_of(pool1, near_pos_y(p, cfg.cohesion_distance as int)) == sum_of(pool2, near_pos_y(p, cfg.cohesion_distance as int)));
}

/// Mapping two sequences with the same multiset gives sequences with the same sums.
proof fn lemma_mapped_sums_equal<A, B>(s: Seq<A>, t: Seq<A>, h: spec_fn(A) -> B)
    requires
        s.to_multiset() =~= t.to_multiset(),
    ensures
        forall|f: spec_fn(B) -> int|
            #[trigger] sum_of(s.map_values(h), f) == sum_of(t.map_values(h), f),
{
    assert forall|f: spec_fn(B) -> int|
        #[trigger] sum_of(s.map_values(h), f) == sum_of(t.map_values(h), f) by {
        lemma_sum_of_map(s, h, f);
        lemma_sum_of_map(t, h, f);
        lemma_sum_of_permutation(s, t, |x: A| f(h(x)));
    }
}

/// The velocity component that a uniform 64-bit draw gives: the draw modulo
/// `2 * UNIT + 1`, shifted so that the components run from `-UNIT` to `UNIT`.
pub open spec fn draw_component(draw: u64) -> int {
    (draw as int) % (2 * UNIT + 1) - UNIT
}

/// The velocity component for `draw`, as `draw_component` says.
pub fn component_from_draw(draw: u64) -> (r: i64)
    ensures
        r == draw_component(draw),
        -UNIT <= r <= UNIT,
{
    let span: u64 = (2 * UNIT + 1) as u64;
    (draw % span) as i64 - UNIT
}

/// Moves one agent, as `moved` says.
fn move_one(
    cfg: &FlockConfig,
    world: &AABB,
    wrap_edges: bool,
    p: Vec2,
    v: Vec2,
    a: Vec2,
) -> (r: (Vec2, Vec2))
    requires
        cfg.wf(),
        world.wf(),
        p.bounded(),
        v.bounded(),
        -0x10_0000_0000 <= a.x <= 0x10_0000_0000,
        -0x10_0000_0000 <= a.y <= 0x10_0000_0000,
        !wrap_edges ==> -COORD_LIMIT + cfg.max_speed <= p.x <= COORD_LIMIT - cfg.max_speed,
        !wrap_edges ==> -COORD_LIMIT + cfg.max_speed <= p.y <= COORD_LIMIT - cfg.max_speed,
    ensures
        moved(*cfg, *world, wrap_edges, p, v, as_pair(a), r.0, r.1),
        r.0.bounded(),
        r.1.bounded(),
{
    let nv = limit_length(Vec2 { x: v.x + a.x, y: v.y + a.y }, cfg.max_speed);
    let mut x = p.x + nv.x;
    let mut y = p.y + nv.y;
    if wrap_edges {
        let lo_x = world.center.x - world.half_dimension.x;
        let hi_x = world.center.x + world.half_dimension.x;
        let lo_y = world.center.y - world.half_dimension.y;
        let hi_y = world.center.y + world.half_dimension.y;
        if x < lo_x {
            x = hi_x;
        } else if x > hi_x {
            x = lo_x;
        }
        if y < lo_y {
            y = hi_y;
        } else if y > hi_y {
            y = lo_y;
        }
    }
    (Vec2 { x, y }, nv)
}

/// A set of agents stored as parallel sequences indexed by agent id, with the rules'
/// parameters and the toroidal world they move in.
pub struct Boids {
    pub positions: Vec<Vec2>,
    pub velocities: Vec<Vec2>,
    pub accelerations: Vec<Vec2>,
    pub config: FlockConfig,
    pub world: AABB,
}

impl Boids {
    /// The three sequences have one entry per agent, all within `COORD_LIMIT`.
    pub open spec fn wf(&self) -> bool {
        &&& self.velocities@.len() == self.positions@.len()
        &&& self.accelerations@.len() == self.positions@.len()
        &&& all_bounded(self.positions@)
        &&& all_bounded(self.velocities@)
        &&& all_bounded(self.accelerations@)
        &&& self.config.wf()
        &&& self.world.wf()
    }

    /// An empty agent set.
    pub fn new(world: AABB, config: FlockConfig) -> (r: Boids)
        requires
            world.wf(),
            config.wf(),
        ensures
            r.wf(),
            r.positions@.len() == 0,
            r.world == world,
            r.config == config,
    {
        Boids {
            positions: Vec::new(),
            velocities: Vec::new(),
            accelerations: Vec::new(),
            config,
            world,
        }
    }

    /// The number of agents.
    pub fn size(&self) -> (r: usize)
        ensures
            r == self.positions@.len(),
    {
        self.positions.len()
    }

    /// Appends an agent at `position` moving at `velocity`, at rest otherwise; returns its id.
    pub fn add_with_velocity(&mut self, position: Vec2, velocity: Vec2) -> (id: usize)
        requires
            old(self).wf(),
            position.bounded(),
            velocity.bounded(),
        ensures
            final(self).wf(),
            id == old(self).positions@.len(),
            final(self).positions@ == old(self).positions@.push(position),
            final(self).velocities@ == old(self).velocities@.push(velocity),
            final(self).accelerations@ == old(self).accelerations@.push(Vec2 { x: 0, y: 0 }),
            final(self).config == old(self).config,
            final(self).world == old(self).world,
    {
        let id = self.positions.len();
        self.positions.push(position);
        self.velocities.push(velocity);
        self.accelerations.push(Vec2 { x: 0, y: 0 });
        proof {
            assert(final(self).positions@.len() == id + 1);
        }
        id
    }

    /// Steering of an agent at `position` with `velocity` toward `target` at full speed.
    pub fn seek(cfg: &FlockConfig, target: Vec2, position: Vec2, velocity: Vec2) -> (r: Vec2)
        requires
            cfg.wf(),
            target.bounded(),
            position.bounded(),
            velocity.bounded(),
        ensures
            (r.x as int, r.y as int) == seek_of(
                *cfg,
                (target.x as int, target.y as int),
                position,
                velocity,
            ),
            -cfg.max_force <= r.x <= cfg.max_force,
            -cfg.max_force <= r.y <= cfg.max_force,
    {
        let desired = set_length(
            Vec2 { x: target.x - position.x, y: target.y - position.y },
            cfg.max_speed,
        );
        steer(cfg, desired, velocity)
    }

    /// The separation rule for every agent of the pool given by `velocities` and `positions`.
    pub fn separate(cfg: &FlockConfig, velocities: &[Vec2], positions: &[Vec2]) -> (r: Vec<Vec2>)
        requires
            cfg.wf(),
            velocities@.len() == positions@.len(),
            all_bounded(positions@),
            all_bounded(velocities@),
        ensures
            r@.len() == positions@.len(),
            forall|i: int|
                0 <= i < positions@.len() ==> as_pair(#[trigger] r@[i]) == separation_of(
                    *cfg,
                    positions@[i],
                    velocities@[i],
                    pool_of(positions@, velocities@),
                ),
    {
        let mut r: Vec<Vec2> = Vec::new();
        let mut i: usize = 0;
        while i < positions.len()
            invariant
                cfg.wf(),
                velocities@.len() == positions@.len(),
                all_bounded(positions@),
                all_bounded(velocities@),
                0 <= i <= positions@.len(),
                r@.len() == i,
                forall|k: int|
                    0 <= k < i ==> as_pair(#[trigger] r@[k]) == separation_of(
                        *cfg,
                        positions@[k],
                        velocities@[k],
                        pool_of(positions@, velocities@),
                    ),
            decreases positions@.len() - i,
        {
            proof {
                assert(positions@[i as int].bounded());
                assert(velocities@[i as int].bounded());
            }
            let s = separation_steer(cfg, positions[i], velocities[i], positions, velocities);
            r.push(s);
            i = i + 1;
        }
        r
    }

    /// The alignment rule for every agent of the pool given by `velocities` and `positions`.
    pub fn align(cfg: &FlockConfig, velocities: &[Vec2], positions: &[Vec2]) -> (r: Vec<Vec2>)
        requires
            cfg.wf(),
            velocities@.len() == positions@.len(),
            all_bounded(positions@),
            all_bounded(velocities@),
        ensures
            r@.len() == positions@.len(),
            forall|i: int|
                0 <= i < positions@.len() ==> as_pair(#[trigger] r@[i]) == alignment_of(
                    *cfg,
                    positions@[i],
                    velocities@[i],
                    pool_of(positions@, velocities@),
                ),
    {
        let mut r: Vec<Vec2> = Vec::new();
        let mut i: usize = 0;
        while i < positions.len()
            invariant
                cfg.wf(),
                velocities@.len() == positions@.len(),
                all_bounded(positions@),
                all_bounded(velocities@),
                0 <= i <= positions@.len(),
                r@.len() == i,
                forall|k: int|
                    0 <= k < i ==> as_pair(#[trigger] r@[k]) == alignment_of(
                        *cfg,
                        positions@[k],
                        velocities@[k],
                        pool_of(positions@, velocities@),
                    ),
            decreases positions@.len() - i,
        {
            proof {
                assert(positions@[i as int].bounded());
                assert(velocities@[i as int].bounded());
            }
            let s = alignment_steer(cfg, positions[i], velocities[i], positions, velocities);
            r.push(s);
            i = i + 1;
        }
        r
    }

    /// The cohesion rule for every agent of the pool given by `velocities` and `positions`.
    pub fn cohesion(cfg: &FlockConfig, velocities: &[Vec2], positions: &[Vec2]) -> (r: Vec<Vec2>)
        requires
            cfg.wf(),
            velocities@.len() == positions@.len(),
            all_bounded(positions@),
            all_bounded(velocities@),
        ensures
            r@.len() == positions@.len(),
            forall|i: int|
                0 <= i < positions@.len() ==> as_pair(#[trigger] r@[i]) == cohesion_of(
                    *cfg,
                    positions@[i],
                    velocities@[i],
                    pool_of(positions@, velocities@),
                ),
    {
        let mut r: Vec<Vec2> = Vec::new();
        let mut i: usize = 0;
        while i < positions.len()
            invariant
                cfg.wf(),
                velocities@.len() == positions@.len(),
                all_bounded(positions@),
                all_bounded(velocities@),
                0 <= i <= positions@.len(),
                r@.len() == i,
                forall|k: int|
                    0 <= k < i ==> as_pair(#[trigger] r@[k]) == cohesion_of(
                        *cfg,
                        positions@[k],
                        velocities@[k],
                        pool_of(positions@, velocities@),
                    ),
            decreases positions@.len() - i,
        {
            proof {
                assert(positions@[i as int].bounded());
                assert(velocities@[i as int].bounded());
            }
            let s = cohesion_steer(cfg, positions[i], velocities[i], positions, velocities);
            r.push(s);
            i = i + 1;
        }
        r
    }

    /// Adds the combined steering of the three rules to the acceleration of every agent of
    /// the pool given by `velocities` and `positions`.
    pub fn flock(
        cfg: &FlockConfig,
        accelerations: &mut Vec<Vec2>,
        velocities: &[Vec2],
        positions: &[Vec2],
    )
        requires
            cfg.wf(),
            velocities@.len() == positions@.len(),
            old(accelerations)@.len() == positions@.len(),
            all_bounded(positions@),
            all_bounded(velocities@),
            all_bounded(old(accelerations)@),
        ensures
            final(accelerations)@.len() == positions@.len(),
            forall|i: int|
                0 <= i < positions@.len() ==> {
                    let f = flock_force(
                        *cfg,
                        positions@[i],
                        velocities@[i],
                        pool_of(positions@, velocities@),
                    );
                    &&& (#[trigger] final(accelerations)@[i]).x == old(accelerations)@[i].x + f.0
                    &&& final(accelerations)@[i].y == old(accelerations)@[i].y + f.1
                },
    {
        let ghost start = accelerations@;
        let mut i: usize = 0;
        while i < positions.len()
            invariant
                cfg.wf(),
                velocities@.len() == positions@.len(),
                start.len() == positions@.len(),
                accelerations@.len() == positions@.len(),
                all_bounded(positions@),
                all_bounded(velocities@),
                all_bounded(start),
                0 <= i <= positions@.len(),
                forall|k: int| i <= k < positions@.len() ==> #[trigger] accelerations@[k] == start[k],
                forall|k: int|
                    0 <= k < i ==> {
                        let f = flock_force(
                            *cfg,
                            positions@[k],
                            velocities@[k],
                            pool_of(positions@, velocities@),
                        );
                        &&& (#[trigger] accelerations@[k]).x == start[k].x + f.0
                        &&& accelerations@[k].y == start[k].y + f.1
                    },
            decreases positions@.len() - i,
        {
            proof {
                assert(positions@[i as int].bounded());
                assert(velocities@[i as int].bounded());
                assert(start[i as int].bounded());
            }
            let f = flock_one(cfg, positions[i], velocities[i], positions, velocities);
            let a = accelerations[i];
            accelerations.set(i, Vec2 { x: a.x + f.x, y: a.y + f.y });
            i = i + 1;
        }
    }

    /// Appends an agent at `position` with a random velocity of at most one world unit on
    /// each axis, at rest otherwise; returns its id.
    pub fn add(&mut self, position: Vec2) -> (id: usize)
        requires
            old(self).wf(),
            position.bounded(),
        ensures
            final(self).wf(),
            id == old(self).positions@.len(),
            final(self).positions@ == old(self).positions@.push(position),
            final(self).velocities@.len() == old(self).velocities@.len() + 1,
            final(self).velocities@.drop_last() == old(self).velocities@,
            -UNIT <= final(self).velocities@.last().x <= UNIT,
            -UNIT <= final(self).velocities@.last().y <= UNIT,
            exists|dx: u64, dy: u64|
                final(self).velocities@.last().x == draw_component(dx)
                    && final(self).velocities@.last().y == draw_component(dy),
            final(self).accelerations@ == old(self).accelerations@.push(Vec2 { x: 0, y: 0 }),
            final(self).config == old(self).config,
            final(self).world == old(self).world,
    {
        let rx: u64 = rand::random::<u64>();
        let ry: u64 = rand::random::<u64>();
        let vx = component_from_draw(rx);
        let vy = component_from_draw(ry);
        let id = self.add_with_velocity(position, Vec2 { x: vx, y: vy });
        proof {
            assert(self.velocities@.drop_last() =~= old(self).velocities@);
            assert(self.velocities@.last().x == draw_component(rx));
            assert(self.velocities@.last().y == draw_component(ry));
        }
        id
    }

    /// Moves every agent by its velocity plus `accel`, limited to `max_speed`, and when
    /// `wrap_edges` holds wraps the new position around the world's edges; accelerations
    /// are reset to zero.
    #[verifier::spinoff_prover]
    fn integrate(&mut self, accel: &Vec<Vec2>, wrap_edges: bool)
        requires
            old(self).wf(),
            !wrap_edges ==> room_to_move(*old(self)),
            accel@.len() == old(self).positions@.len(),
            forall|k: int|
                0 <= k < accel@.len() ==> -0x10_0000_0000 <= (#[trigger] accel@[k]).x
                    <= 0x10_0000_0000 && -0x10_0000_0000 <= accel@[k].y <= 0x10_0000_0000,
        ensures
            final(self).wf(),
            final(self).positions@.len() == old(self).positions@.len(),
            final(self).config == old(self).config,
            final(self).world == old(self).world,
            forall|i: int|
                #![trigger final(self).velocities@[i]]
                #![trigger final(self).positions@[i]]
                0 <= i < old(self).positions@.len() ==> {
                    let nv = next_velocity(
                        old(self).config,
                        old(self).velocities@[i],
                        as_pair(accel@[i]),
                    );
                    &&& as_pair(final(self).velocities@[i]) == nv
                    &&& as_pair(final(self).positions@[i]) == if wrap_edges {
                        next_position(old(self).world, old(self).positions@[i], nv)
                    } else {
                        translated(old(self).positions@[i], nv)
                    }
                    &&& final(self).accelerations@[i] == Vec2 { x: 0, y: 0 }
                },
    {
        let n = self.positions.len();
        let world = self.world;
        let cfg = self.config;
        let mut positions: Vec<Vec2> = Vec::new();
        let mut velocities: Vec<Vec2> = Vec::new();
        let mut accelerations: Vec<Vec2> = Vec::new();
        let ghost start = *self;
        assert(start == *old(self));
        let mut i: usize = 0;
        while i < n
            invariant
                *self == start,
                self.wf(),
                n == self.positions@.len(),
                world == self.world,
                cfg == self.config,
                accel@.len() == n,
                !wrap_edges ==> room_to_move(*self),
                forall|k: int|
                    0 <= k < accel@.len() ==> -0x10_0000_0000 <= (#[trigger] accel@[k]).x
                        <= 0x10_0000_0000 && -0x10_0000_0000 <= accel@[k].y <= 0x10_0000_0000,
                0 <= i <= n,
                positions@.len() == i,
                velocities@.len() == i,
                accelerations@.len() == i,
                all_bounded(positions@),
                all_bounded(velocities@),
                all_bounded(accelerations@),
                forall|k: int|
                    0 <= k < i ==> moved(
                        cfg,
                        world,
                        wrap_edges,
                        self.positions@[k],
                        self.velocities@[k],
                        as_pair(accel@[k]),
                        positions@[k],
                        #[trigger] velocities@[k],
                    ),
                forall|k: int| 0 <= k < i ==> #[trigger] accelerations@[k] == (Vec2 { x: 0, y: 0 }),
            decreases n - i,
        {
            proof {
                assert(self.positions@[i as int].bounded());
                assert(self.velocities@[i as int].bounded());
            }
            let (np, nv) = move_one(
                &cfg,
                &world,
                wrap_edges,
                self.positions[i],
                self.velocities[i],
                accel[i],
            );
            positions.push(np);
            velocities.push(nv);
            accelerations.push(Vec2 { x: 0, y: 0 });
            i = i + 1;
        }
        self.positions = positions;
        self.velocities = velocities;
        self.accelerations = accelerations;
        proof {
            assert(*final(self) == *self);
            assert forall|i: int|
                #![trigger final(self).velocities@[i]]
                #![trigger final(self).positions@[i]]
                0 <= i < old(self).positions@.len() implies {
                    let nv = next_velocity(
                        old(self).config,
                        old(self).velocities@[i],
                        as_pair(accel@[i]),
                    );
                    &&& as_pair(final(self).velocities@[i]) == nv
                    &&& as_pair(final(self).positions@[i]) == if wrap_edges {
                        next_position(old(self).world, old(self).positions@[i], nv)
                    } else {
                        translated(old(self).positions@[i], nv)
                    }
                    &&& final(self).accelerations@[i] == Vec2 { x: 0, y: 0 }
                } by {
                assert(moved(
                    cfg,
                    world,
                    wrap_edges,
                    start.positions@[i],
                    start.velocities@[i],
                    as_pair(accel@[i]),
                    self.positions@[i],
                    self.velocities@[i],
                ));
            }
        }
    }


    /// One integration step: each velocity gains its acceleration and is limited to
    /// `max_speed`, each position moves by the new velocity, and every acceleration is
    /// reset to zero. Positions are not wrapped here; `step` wraps them.
    pub fn update(&mut self)
        requires
            old(self).wf(),
            room_to_move(*old(self)),
        ensures
            final(self).wf(),
            final(self).positions@.len() == old(self).positions@.len(),
            final(self).config == old(self).config,
            final(self).world == old(self).world,
            forall|i: int|
                #![trigger final(self).velocities@[i]]
                #![trigger final(self).positions@[i]]
                0 <= i < old(self).positions@.len() ==> {
                    let nv = next_velocity(
                        old(self).config,
                        old(self).velocities@[i],
                        as_pair(old(self).accelerations@[i]),
                    );
                    &&& as_pair(final(self).velocities@[i]) == nv
                    &&& as_pair(final(self).positions@[i]) == translated(
                        old(self).positions@[i],
                        nv,
                    )
                    &&& final(self).accelerations@[i] == Vec2 { x: 0, y: 0 }
                },
    {
        let accel = self.accelerations.clone();
        proof {
            assert(accel@ == self.accelerations@);
            assert forall|k: int| 0 <= k < accel@.len() implies (#[trigger] accel@[k]).bounded() by {
                assert(self.accelerations@[k].bounded());
            }
        }
        self.integrate(&accel, false);
    }

    /// One simulation step. The index is rebuilt over the world from the agents' current
    /// positions (an agent outside the world is left out of it); each agent's steering
    /// comes from the three rules over its neighbour pool, found by querying the index
    /// with the box of half extent `neighbor_half_extent` around it, and is added to its
    /// acceleration; then every agent is integrated as `update` does, and a position that
    /// left the world is wrapped to its opposite edge.
    #[verifier::spinoff_prover]
    pub fn step(&mut self, index: &mut QuadTree, neighbor_half_extent: Vec2)
        requires
            old(self).wf(),
        ensures
            final(self).wf(),
            final(self).positions@.len() == old(self).positions@.len(),
            final(self).config == old(self).config,
            final(self).world == old(self).world,
            final(index).wf(),
            final(index).boundary == old(self).world,
            final(index).records() =~= agent_records(*old(self)).filter(
                |r: (Vec2, usize)| old(self).world.spec_contains(r.0),
            ).to_multiset(),
            forall|i: int|
                #![trigger final(self).velocities@[i]]
                #![trigger final(self).positions@[i]]
                0 <= i < old(self).positions@.len() ==> {
                    let b = *old(self);
                    let f = flock_force(
                        b.config,
                        b.positions@[i],
                        b.velocities@[i],
                        neighbour_pool(b, i, neighbor_half_extent),
                    );
                    let a = (b.accelerations@[i].x + f.0, b.accelerations@[i].y + f.1);
                    let nv = next_velocity(b.config, b.velocities@[i], a);
                    &&& as_pair(final(self).velocities@[i]) == nv
                    &&& as_pair(final(self).positions@[i]) == next_position(
                        b.world,
                        b.positions@[i],
                        nv,
                    )
                    &&& final(self).accelerations@[i] == Vec2 { x: 0, y: 0 }
                },
    {
        let ghost b = *self;
        let ghost in_world = |r: (Vec2, usize)| b.world.spec_contains(r.0);
        let n = self.positions.len();
        *index = QuadTree::new(self.world);
        proof {
            reveal(Seq::filter);
            assert(agent_records(b).take(0).filter(in_world) =~= Seq::<(Vec2, usize)>::empty());
        }
        let mut j: usize = 0;
        while j < n
            invariant
                *self == b,
                b.wf(),
                n == b.positions@.len(),
                in_world == (|r: (Vec2, usize)| b.world.spec_contains(r.0)),
                0 <= j <= n,
                index.wf(),
                index.boundary == b.world,
                index.records() =~= agent_records(b).take(j as int).filter(in_world).to_multiset(),
            decreases n - j,
        {
            proof {
                reveal(Seq::filter);
                let recs = agent_records(b);
                assert(recs.take(j + 1) =~= recs.take(j as int).push(recs[j as int]));
                assert(recs.take(j + 1).drop_last() =~= recs.take(j as int));
                assert(recs[j as int] == (b.positions@[j as int], j));
            }
            let ghost before = index.records();
            let _ = index.insert(self.positions[j], j);
            proof {
                reveal(Seq::filter);
                let recs = agent_records(b);
                let rec = recs[j as int];
                if b.world.spec_contains(rec.0) {
                    assert(recs.take(j + 1).filter(in_world) == recs.take(j as int).filter(in_world).push(rec));
                    assert(index.records() =~= before.insert(rec));
                } else {
                    assert(recs.take(j + 1).filter(in_world) == recs.take(j as int).filter(in_world));
                }
            }
            j = j + 1;
        }
        proof {
            assert(agent_records(b).take(n as int) =~= agent_records(b));
        }
        let mut accel: Vec<Vec2> = Vec::new();
        let mut i: usize = 0;
        while i < n
            invariant
                *self == b,
                b.wf(),
                n == b.positions@.len(),
                in_world == (|r: (Vec2, usize)| b.world.spec_contains(r.0)),
                index.wf(),
                index.boundary == b.world,
                index.records() =~= agent_records(b).filter(in_world).to_multiset(),
                0 <= i <= n,
                accel@.len() == i,
                forall|k: int|
                    0 <= k < i ==> {
                        let f = flock_force(
                            b.config,
                            b.positions@[k],
                            b.velocities@[k],
                            neighbour_pool(b, k, neighbor_half_extent),
                        );
                        &&& (#[trigger] accel@[k]).x == b.accelerations@[k].x + f.0
                        &&& accel@[k].y == b.accelerations@[k].y + f.1
                        &&& -0x10_0000_0000 <= accel@[k].x <= 0x10_0000_0000
                        &&& -0x10_0000_0000 <= accel@[k].y <= 0x10_0000_0000
                    },
            decreases n - i,
        {
            let p = self.positions[i];
            let v = self.velocities[i];
            let range = AABB { center: p, half_dimension: neighbor_half_extent };
            let found = index.query_range(&range);
            proof {
                assert(range == neighbourhood(b, i as int, neighbor_half_extent));
                assert forall|k: int| 0 <= k < found@.len() implies {
                    &&& (#[trigger] found@[k]).1 < n
                    &&& found@[k].0 == b.positions@[found@[k].1 as int]
                } by {
                    let x = found@[k];
                    assert(found@.contains(x));
                    assert(found@.to_multiset().count(x) > 0);
                    assert(index.records().count(x) > 0);
                    lemma_filter_to_multiset(agent_records(b), in_world);
                    assert(agent_records(b).filter(in_world).to_multiset().count(x) > 0);
                    assert(agent_records(b).to_multiset().count(x) > 0);
                    assert(agent_records(b).contains(x));
                    let m = choose|m: int| 0 <= m < agent_records(b).len() && agent_records(b)[m] == x;
                    assert(agent_records(b)[m] == (b.positions@[m], m as usize));
                }
            }
            let mut pos: Vec<Vec2> = Vec::new();
            let mut vel: Vec<Vec2> = Vec::new();
            let mut k: usize = 0;
            while k < found.len()
                invariant
                    *self == b,
                    b.wf(),
                    n == b.positions@.len(),
                    0 <= k <= found@.len(),
                    forall|k2: int| 0 <= k2 < found@.len() ==> {
                        &&& (#[trigger] found@[k2]).1 < n
                        &&& found@[k2].0 == b.positions@[found@[k2].1 as int]
                    },
                    pos@.len() == k,
                    vel@.len() == k,
                    forall|k2: int| 0 <= k2 < k ==> #[trigger] pos@[k2] == found@[k2].0,
                    forall|k2: int| 0 <= k2 < k ==> #[trigger] vel@[k2] == b.velocities@[found@[k2].1 as int],
                decreases found@.len() - k,
            {
                let r = found[k];
                pos.push(r.0);
                vel.push(self.velocities[r.1]);
                k = k + 1;
            }
            proof {
                let h = |r: (Vec2, usize)| (r.0, b.velocities@[r.1 as int]);
                assert(pool_of(pos@, vel@) =~= found@.map_values(h));
                let sel = |r: (Vec2, usize)| b.world.spec_contains(r.0) && neighbourhood(b, i as int, neighbor_half_extent).spec_contains(r.0);
                lemma_filter_to_multiset(agent_records(b), in_world);
                lemma_filter_to_multiset(agent_records(b), sel);
                assert(found@.to_multiset() =~= agent_records(b).filter(sel).to_multiset());
                lemma_mapped_sums_equal(found@, agent_records(b).filter(sel), h);
                assert(neighbour_pool(b, i as int, neighbor_half_extent) == agent_records(b).filter(sel).map_values(h));
                lemma_same_sums_same_force(b.config, p, v, pool_of(pos@, vel@), neighbour_pool(b, i as int, neighbor_half_extent));
                assert forall|k2: int| 0 <= k2 < pos@.len() implies (#[trigger] pos@[k2]).bounded() by {
                    assert(b.positions@[found@[k2].1 as int].bounded());
                }
                assert forall|k2: int| 0 <= k2 < vel@.len() implies (#[trigger] vel@[k2]).bounded() by {
                    assert(b.velocities@[found@[k2].1 as int].bounded());
                }
                assert(p.bounded());
                assert(v.bounded());
                assert(b.accelerations@[i as int].bounded());
            }
            let f = flock_one(&self.config, p, v, pos.as_slice(), vel.as_slice());
            let a = self.accelerations[i];
            accel.push(Vec2 { x: a.x + f.x, y: a.y + f.y });
            i = i + 1;
        }
        self.integrate(&accel, true);
    }
}

/// A sum of a function that vanishes on every element is zero.
proof fn lemma_sum_of_zero<A>(s: Seq<A>, f: spec_fn(A) -> int)
    requires
        forall|k: int| 0 <= k < s.len() ==> f(#[trigger] s[k]) == 0,
    ensures
        sum_of(s, f) == 0,
    decreases s.len(),
{
    if s.len() > 0 {
        assert(f(s[s.len() - 1]) == 0);
        lemma_sum_of_zero(s.drop_last(), f);
    }
}

/// `p` has no neighbour in `pool` strictly within any of the three radii.
pub open spec fn isolated(cfg: FlockConfig, p: Vec2, pool: Seq<(Vec2, Vec2)>) -> bool {
    forall|k: int|
        0 <= k < pool.len() ==> !within(p, (#[trigger] pool[k]).0, cfg.desired_separation as int)
            && !within(p, pool[k].0, cfg.align_distance as int) && !within(
            p,
            pool[k].0,
            cfg.cohesion_distance as int,
        )
}

/// An isolated agent gets no steering from any rule, and an isolated agent with no
/// acceleration that is no faster than `max_speed` keeps its velocity: it moves in a
/// straight line at constant speed.
pub proof fn lemma_isolated_agent_drifts(
    cfg: FlockConfig,
    world: AABB,
    p: Vec2,
    v: Vec2,
    pool: Seq<(Vec2, Vec2)>,
)
    requires
        isolated(cfg, p, pool),
        length_sq(v.x as int, v.y as int) <= cfg.max_speed * cfg.max_speed,
    ensures
        separation_of(cfg, p, v, pool) == (0int, 0int),
        alignment_of(cfg, p, v, pool) == (0int, 0int),
        cohesion_of(cfg, p, v, pool) == (0int, 0int),
        flock_force(cfg, p, v, pool) == (0int, 0int),
        next_velocity(cfg, v, flock_force(cfg, p, v, pool)) == as_pair(v),
        next_position(world, p, next_velocity(cfg, v, flock_force(cfg, p, v, pool)))
            == next_position(world, p, as_pair(v)),
{
    lemma_sum_of_zero(pool, near_count(p, cfg.desired_separation as int));
    lemma_sum_of_zero(pool, near_count(p, cfg.align_distance as int));
    lemma_sum_of_zero(pool, near_count(p, cfg.cohesion_distance as int));
    assert(trunc_div(0, 2) == 0);
}

/// An agent that leaves the world across one edge re-enters at the opposite edge, and
/// one that stays inside keeps its place.
pub proof fn lemma_wrap_opposite_edge(world: AABB, p: Vec2, nv: (int, int))
    requires
        world.wf(),
    ensures
        p.x + nv.0 > world.max_x() ==> next_position(world, p, nv).0 == world.min_x(),
        p.x + nv.0 < world.min_x() ==> next_position(world, p, nv).0 == world.max_x(),
        p.y + nv.1 > world.max_y() ==> next_position(world, p, nv).1 == world.min_y(),
        p.y + nv.1 < world.min_y() ==> next_position(world, p, nv).1 == world.max_y(),
        world.min_x() <= p.x + nv.0 <= world.max_x() ==> next_position(world, p, nv).0 == p.x
            + nv.0,
        world.min_y() <= p.y + nv.1 <= world.max_y() ==> next_position(world, p, nv).1 == p.y
            + nv.1,
{
}

/// A lone agent, whose pool holds only itself, is isolated: every rule gives it no
/// steering.
pub proof fn lemma_lone_agent_isolated(cfg: FlockConfig, p: Vec2, v: Vec2)
    ensures
        isolated(cfg, p, seq![(p, v)]),
        pool_of(seq![p], seq![v]) == seq![(p, v)],
        separation_of(cfg, p, v, seq![(p, v)]) == (0int, 0int),
        alignment_of(cfg, p, v, seq![(p, v)]) == (0int, 0int),
        cohesion_of(cfg, p, v, seq![(p, v)]) == (0int, 0int),
        flock_force(cfg, p, v, seq![(p, v)]) == (0int, 0int),
{
    assert(dist_sq(p, p) == 0);
    assert(pool_of(seq![p], seq![v]) =~= seq![(p, v)]);
    let pool = seq![(p, v)];
    assert(isolated(cfg, p, pool));
    lemma_sum_of_zero(pool, near_count(p, cfg.desired_separation as int));
    lemma_sum_of_zero(pool, near_count(p, cfg.align_distance as int));
    lemma_sum_of_zero(pool, near_count(p, cfg.cohesion_distance as int));
    assert(trunc_div(0, 2) == 0);
}

} // verus!
