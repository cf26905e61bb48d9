use boids::boids::{component_from_draw, Boids, FlockConfig, UNIT};
use boids::geometry::{Vec2, AABB};
use boids::quadtree::{QuadTree, QuadTreeData};
use boids::vector::{isqrt, length, limit_length, set_length};

fn at(x: i64, y: i64) -> Vec2 {
    Vec2::new(x * UNIT, y * UNIT)
}

fn world(half: i64) -> AABB {
    AABB::new(at(0, 0), at(half, half))
}

fn still_pair() -> (Vec<Vec2>, Vec<Vec2>) {
    (vec![at(0, 0), at(10, 0)], vec![Vec2::zero(), Vec2::zero()])
}

#[test]
fn floor_square_root() {
    assert_eq!(isqrt(0), 0);
    assert_eq!(isqrt(1), 1);
    assert_eq!(isqrt(15), 3);
    assert_eq!(isqrt(16), 4);
    assert_eq!(isqrt(65_000_000), 8062);
    assert_eq!(isqrt(1u128 << 80), 1u128 << 40);
    assert_eq!(length(Vec2::new(3, 4)), 5);
    assert_eq!(length(Vec2::new(-3, 5)), 5);
}

#[test]
fn set_and_limit_length() {
    assert_eq!(set_length(Vec2::new(3, 4), 10), Vec2::new(6, 8));
    assert_eq!(set_length(Vec2::new(-3, -4), 10), Vec2::new(-6, -8));
    assert_eq!(set_length(Vec2::new(0, 0), 10), Vec2::new(0, 0));
    assert_eq!(set_length(Vec2::new(-1, 1), 10), Vec2::new(-10, 10));
    assert_eq!(limit_length(Vec2::new(30, 40), 10), Vec2::new(6, 8));
    assert_eq!(limit_length(Vec2::new(3, 4), 10), Vec2::new(3, 4));
    assert_eq!(limit_length(Vec2::new(6, 8), 10), Vec2::new(6, 8));
}

#[test]
fn default_config_values() {
    let cfg = FlockConfig::default();
    assert_eq!(cfg.max_speed, 8 * UNIT);
    assert_eq!(cfg.max_force, UNIT);
    assert_eq!(cfg.desired_separation, 25 * UNIT);
    assert_eq!(cfg.align_distance, 100 * UNIT);
    assert_eq!(cfg.cohesion_distance, 75 * UNIT);
}

#[test]
fn seek_steers_toward_target() {
    let cfg = FlockConfig::default();
    let s = Boids::seek(&cfg, at(10, 0), at(0, 0), Vec2::zero());
    assert_eq!(s, Vec2::new(UNIT, 0));
    let s = Boids::seek(&cfg, at(0, 0), at(0, 0), Vec2::new(300, -400));
    assert_eq!(s, Vec2::new(-300, 400));
}

#[test]
fn separation_pushes_close_pair_apart() {
    let cfg = FlockConfig::default();
    let (pos, vel) = still_pair();
    let sep = Boids::separate(&cfg, &vel, &pos);
    assert_eq!(sep, vec![Vec2::new(-UNIT, 0), Vec2::new(UNIT, 0)]);
    assert!(sep[0].x < 0 && sep[1].x > 0);
}

#[test]
fn separation_ignores_distant_pair() {
    let cfg = FlockConfig::default();
    let pos = vec![at(0, 0), at(25, 0)];
    let vel = vec![Vec2::zero(), Vec2::zero()];
    assert_eq!(Boids::separate(&cfg, &vel, &pos), vec![Vec2::zero(), Vec2::zero()]);
}

#[test]
fn alignment_turns_toward_neighbour_heading() {
    let cfg = FlockConfig::default();
    let pos = vec![at(0, 0), at(10, 0)];
    let vel = vec![Vec2::new(UNIT, 0), Vec2::new(0, UNIT)];
    let ali = Boids::align(&cfg, &vel, &pos);
    assert_eq!(ali[0], Vec2::new(-124, 992));
    assert_eq!(ali[1], Vec2::new(992, -124));
}

#[test]
fn cohesion_steers_toward_centroid() {
    let cfg = FlockConfig::default();
    let (pos, vel) = still_pair();
    let coh = Boids::cohesion(&cfg, &vel, &pos);
    assert_eq!(coh, vec![Vec2::new(UNIT, 0), Vec2::new(-UNIT, 0)]);
}

#[test]
fn flock_weights_separation_by_one_and_a_half() {
    let cfg = FlockConfig::default();
    let (pos, vel) = still_pair();
    let mut acc = vec![Vec2::new(7, -7), Vec2::zero()];
    Boids::flock(&cfg, &mut acc, &vel, &pos);
    assert_eq!(acc, vec![Vec2::new(7 - 500, -7), Vec2::new(500, 0)]);
}

#[test]
fn isolated_agent_rules_are_zero() {
    let cfg = FlockConfig::default();
    let pos = vec![at(0, 0)];
    let vel = vec![Vec2::new(3 * UNIT, 4 * UNIT)];
    assert_eq!(Boids::separate(&cfg, &vel, &pos), vec![Vec2::zero()]);
    assert_eq!(Boids::align(&cfg, &vel, &pos), vec![Vec2::zero()]);
    assert_eq!(Boids::cohesion(&cfg, &vel, &pos), vec![Vec2::zero()]);
}

#[test]
fn isolated_agent_moves_in_a_straight_line() {
    let mut agents = Boids::new(world(800), FlockConfig::default());
    agents.add_with_velocity(at(0, 0), Vec2::new(3 * UNIT, 4 * UNIT));
    agents.add_with_velocity(at(500, 500), Vec2::zero());
    let mut index = QuadTree::new(world(800));
    agents.step(&mut index, at(30, 30));
    assert_eq!(agents.velocities[0], Vec2::new(3 * UNIT, 4 * UNIT));
    assert_eq!(agents.positions[0], Vec2::new(3 * UNIT, 4 * UNIT));
    agents.step(&mut index, at(30, 30));
    assert_eq!(agents.positions[0], Vec2::new(6 * UNIT, 8 * UNIT));
    assert_eq!(agents.accelerations[0], Vec2::zero());
}

#[test]
fn step_separates_close_pair() {
    let mut agents = Boids::new(world(800), FlockConfig::default());
    assert_eq!(agents.add_with_velocity(at(0, 0), Vec2::zero()), 0);
    assert_eq!(agents.add_with_velocity(at(10, 0), Vec2::zero()), 1);
    let mut index = QuadTree::new(world(800));
    agents.step(&mut index, at(30, 30));
    assert_eq!(agents.velocities, vec![Vec2::new(-500, 0), Vec2::new(500, 0)]);
    assert_eq!(agents.positions, vec![Vec2::new(-500, 0), Vec2::new(10 * UNIT + 500, 0)]);
    assert_eq!(agents.accelerations, vec![Vec2::zero(), Vec2::zero()]);
    assert_eq!(index.query_range(&index.boundary).len(), 2);
    assert!(matches!(&index.root, QuadTreeData::Leaf(data) if data.len() == 2));
}

#[test]
fn step_leaves_neighbours_outside_the_box_alone() {
    let mut agents = Boids::new(world(800), FlockConfig::default());
    agents.add_with_velocity(at(0, 0), Vec2::zero());
    agents.add_with_velocity(at(10, 0), Vec2::zero());
    let mut index = QuadTree::new(world(800));
    agents.step(&mut index, at(5, 5));
    assert_eq!(agents.velocities, vec![Vec2::zero(), Vec2::zero()]);
    assert_eq!(agents.positions, vec![at(0, 0), at(10, 0)]);
}

#[test]
fn update_limits_speed() {
    let mut agents = Boids::new(world(800), FlockConfig::default());
    agents.add_with_velocity(at(0, 0), Vec2::new(6 * UNIT, 0));
    agents.accelerations[0] = Vec2::new(4 * UNIT, 0);
    agents.update();
    assert_eq!(agents.velocities[0], Vec2::new(8 * UNIT, 0));
    assert_eq!(agents.positions[0], Vec2::new(8 * UNIT, 0));
    assert_eq!(agents.accelerations[0], Vec2::zero());
}

#[test]
fn boundary_wrap_to_opposite_edge() {
    let half_width = 400;
    let mut agents = Boids::new(world(half_width), FlockConfig::default());
    agents.add_with_velocity(Vec2::new(half_width * UNIT + 1, 0), Vec2::zero());
    agents.add_with_velocity(Vec2::new(half_width * UNIT, 0), Vec2::new(1, 0));
    agents.add_with_velocity(Vec2::new(0, -half_width * UNIT), Vec2::new(0, -1));
    agents.add_with_velocity(Vec2::new(half_width * UNIT, half_width * UNIT), Vec2::zero());
    let mut index = QuadTree::new(world(half_width));
    agents.step(&mut index, at(30, 30));
    assert_eq!(agents.positions[0], Vec2::new(-half_width * UNIT, 0));
    assert_eq!(agents.positions[1], Vec2::new(-half_width * UNIT, 0));
    assert_eq!(agents.positions[2], Vec2::new(0, half_width * UNIT));
    assert_eq!(agents.positions[3], Vec2::new(half_width * UNIT, half_width * UNIT));
}

#[test]
fn update_does_not_wrap() {
    let half_width = 400;
    let mut agents = Boids::new(world(half_width), FlockConfig::default());
    agents.add_with_velocity(Vec2::new(half_width * UNIT, 0), Vec2::new(1, 0));
    agents.update();
    assert_eq!(agents.positions[0], Vec2::new(half_width * UNIT + 1, 0));
    assert_eq!(agents.velocities[0], Vec2::new(1, 0));
}

#[test]
fn draw_maps_to_velocity_component() {
    assert_eq!(component_from_draw(0), -UNIT);
    assert_eq!(component_from_draw(1000), 0);
    assert_eq!(component_from_draw(2000), UNIT);
    assert_eq!(component_from_draw(2001), -UNIT);
    assert_eq!(component_from_draw(u64::MAX), (u64::MAX % 2001) as i64 - UNIT);
}

#[test]
fn lone_agent_flock_leaves_acceleration() {
    let cfg = FlockConfig::default();
    let pos = vec![at(3, 4)];
    let vel = vec![Vec2::new(100, -200)];
    let mut acc = vec![Vec2::new(5, 6)];
    Boids::flock(&cfg, &mut acc, &vel, &pos);
    assert_eq!(acc, vec![Vec2::new(5, 6)]);
}

#[test]
fn add_appends_agent_with_small_random_velocity() {
    let mut agents = Boids::new(world(800), FlockConfig::default());
    assert_eq!(agents.size(), 0);
    for i in 0..50 {
        assert_eq!(agents.add(at(i, -i)), i as usize);
    }
    assert_eq!(agents.size(), 50);
    assert_eq!(agents.velocities.len(), 50);
    assert_eq!(agents.accelerations.len(), 50);
    for i in 0..50 {
        assert_eq!(agents.positions[i], at(i as i64, -(i as i64)));
        assert!(agents.velocities[i].x.abs() <= UNIT && agents.velocities[i].y.abs() <= UNIT);
        assert_eq!(agents.accelerations[i], Vec2::zero());
    }
}
