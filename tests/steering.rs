use boids::{Boid, BoidSystem, Vec2};

fn v(x: i64, y: i64) -> Vec2 {
    Vec2::new(x, y)
}

#[test]
fn speed_at_limit_is_unchanged() {
    assert_eq!(BoidSystem::limit_velocity(v(30, 40)), v(30, 40));
    assert_eq!(BoidSystem::limit_velocity(v(0, -50)), v(0, -50));
    assert_eq!(BoidSystem::limit_velocity(v(3, 4)), v(3, 4));
}

#[test]
fn speed_over_limit_is_scaled_by_limit_over_square() {
    let r = BoidSystem::limit_velocity(v(60, 80));
    assert_eq!(r, v(15, 20));
    assert_eq!(r.x * r.x + r.y * r.y, 2500 * 2500 / 10000);
    assert_eq!(BoidSystem::limit_velocity(v(100, 0)), v(25, 0));
    assert_eq!(BoidSystem::limit_velocity(v(-28, 96)), v(-7, 24));
}

#[test]
fn scaled_speed_rounds_toward_zero() {
    // 4900 + 6400 = 11300; -70 * 2500 / 11300 = -15.48..., -80 * 2500 / 11300 = -17.69...
    assert_eq!(BoidSystem::limit_velocity(v(-70, -80)), v(-15, -17));
    assert_eq!(BoidSystem::limit_velocity(v(70, 80)), v(15, 17));
    assert_eq!(BoidSystem::limit_velocity(v(51, 0)), v(49, 0));
}

#[test]
fn huge_speed_is_scaled_almost_to_rest() {
    let r = BoidSystem::limit_velocity(v(i64::MIN, i64::MAX));
    assert_eq!(r, v(0, 0));
    assert_eq!(BoidSystem::limit_velocity(v(5000, 0)), v(0, 0));
    assert_eq!(BoidSystem::limit_velocity(v(2500, 0)), v(1, 0));
}

#[test]
fn edge_push_near_each_edge() {
    assert_eq!(BoidSystem::limit_area(v(5, 500), 1000, 1000, 0, 0), v(10, 0));
    assert_eq!(BoidSystem::limit_area(v(995, 500), 1000, 1000, 0, 0), v(-10, 0));
    assert_eq!(BoidSystem::limit_area(v(500, 500), 1000, 1000, 0, 0), v(0, 0));
    assert_eq!(BoidSystem::limit_area(v(500, 5), 1000, 1000, 0, 0), v(0, 10));
    assert_eq!(BoidSystem::limit_area(v(500, 950), 1000, 1000, 0, 0), v(0, -10));
    assert_eq!(BoidSystem::limit_area(v(99, 901), 1000, 1000, 0, 0), v(10, -10));
    assert_eq!(BoidSystem::limit_area(v(100, 900), 1000, 1000, 0, 0), v(0, 0));
}

#[test]
fn cohesion_pulls_toward_centre_of_others() {
    let positions = vec![v(0, 0), v(100, 0), v(200, 0)];
    assert_eq!(BoidSystem::cohesion(v(0, 0), &positions), v(1, 0));
    // (300 - 200) / 2 - 200 = -150, divided by 100 toward zero
    assert_eq!(BoidSystem::cohesion(v(200, 0), &positions), v(-1, 0));
    let pair = vec![v(0, 0), v(0, 450)];
    assert_eq!(BoidSystem::cohesion(v(0, 0), &pair), v(0, 4));
}

#[test]
fn alignment_matches_mean_velocity_of_others() {
    let velocities = vec![v(8, 0), v(24, -16)];
    assert_eq!(BoidSystem::alignment(v(8, 0), &velocities), v(2, -2));
    assert_eq!(BoidSystem::alignment(v(24, -16), &velocities), v(-2, 2));
}

#[test]
fn separation_pushes_away_from_close_members_only() {
    let positions = vec![v(0, 0), v(10, 0), v(100, 0), v(0, -20)];
    assert_eq!(BoidSystem::separation(v(0, 0), &positions, 0), v(-10, 20));
    // 31 * 31 = 961 is close, 32 * 32 = 1024 is not
    let edge = vec![v(0, 0), v(31, 0), v(0, 32)];
    assert_eq!(BoidSystem::separation(v(0, 0), &edge, 0), v(-31, 0));
}

#[test]
fn separation_skips_only_the_agent_itself() {
    let positions = vec![v(5, 5), v(5, 5)];
    assert_eq!(BoidSystem::separation(v(5, 5), &positions, 0), v(0, 0));
    let three = vec![v(5, 5), v(5, 5), v(8, 9)];
    assert_eq!(BoidSystem::separation(v(5, 5), &three, 1), v(-3, -4));
}

#[test]
fn target_pull_is_scaled_difference() {
    assert_eq!(BoidSystem::move_to_target(v(0, 0)), v(5, 5));
    assert_eq!(BoidSystem::move_to_target(v(600, 700)), v(-1, -2));
    assert_eq!(BoidSystem::move_to_target(v(450, 550)), v(0, 0));
}

#[test]
fn advance_of_a_lone_agent_uses_edges_only() {
    let flock = vec![Boid { id: 4, position: v(50, 500), velocity: v(3, 4) }];
    let positions = vec![v(50, 500)];
    let velocities = vec![v(3, 4)];
    let world = boids::WorldDimensions::new(1000, 0, 1000, 0);
    let moved = BoidSystem::advance(&flock, &positions, &velocities, 0, &world, 2);
    assert_eq!(moved.id, 4);
    assert_eq!(moved.velocity, v(13, 4));
    assert_eq!(moved.position, v(76, 508));
}
