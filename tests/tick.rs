use boids::{
    Boid, BoidInfo, BoidSystem, CurrentState, QuadTree, Simulator, Span, Vec2, WorldDimensions,
    WorldRegion,
};

fn v(x: i64, y: i64) -> Vec2 {
    Vec2::new(x, y)
}

fn moving(id: usize, p: Vec2, vel: Vec2) -> Boid {
    let mut b = Boid::new(p, id);
    b.set_velocity(vel);
    b
}

#[test]
fn world_is_split_into_four_fixed_quadrants() {
    let world = WorldDimensions::new(1000, 0, 800, 0);
    assert_eq!((world.min_x, world.max_x, world.min_y, world.max_y), (0, 1000, 0, 800));
    assert_eq!(
        world.regions,
        vec![
            WorldRegion { x_range: Span::new(0, 500), y_range: Span::new(400, 800) },
            WorldRegion { x_range: Span::new(500, 1000), y_range: Span::new(400, 800) },
            WorldRegion { x_range: Span::new(0, 500), y_range: Span::new(0, 400) },
            WorldRegion { x_range: Span::new(500, 1000), y_range: Span::new(0, 400) },
        ]
    );
}

#[test]
fn odd_world_splits_at_the_lower_midpoint() {
    let world = WorldDimensions::new(5, -4, 3, 0);
    assert_eq!(world.regions[0].x_range, Span::new(-4, 0));
    assert_eq!(world.regions[1].x_range, Span::new(0, 5));
    assert_eq!(world.regions[0].y_range, Span::new(1, 3));
    assert_eq!(world.regions[2].y_range, Span::new(0, 1));
}

#[test]
fn lone_agent_in_quadrant_gets_edge_push_only() {
    let world = WorldDimensions::new(1000, 0, 1000, 0);
    let mut info = BoidInfo::new(1000, 0, 1000, 0);
    assert!(info.qt.insert(moving(9, v(500, 500), v(3, 4))));
    assert!(info.qt.insert(moving(2, v(50, 700), v(0, 0))));
    let out = BoidSystem::run(&world, &info.qt, 1);
    assert_eq!(out.moved.len(), 2);
    assert_eq!(out.moved[0], moving(2, v(60, 700), v(10, 0)));
    assert_eq!(out.moved[1], moving(9, v(503, 504), v(3, 4)));
    assert!(out.dropped.is_empty());
}

#[test]
fn close_pair_steers_apart() {
    let world = WorldDimensions::new(1000, 0, 1000, 0);
    let mut index = QuadTree::new(Span::new(0, 1000), Span::new(0, 1000));
    assert!(index.insert(moving(1, v(200, 200), v(0, 0))));
    assert!(index.insert(moving(2, v(210, 200), v(0, 0))));
    let out = BoidSystem::run(&world, &index, 1);
    assert_eq!(out.moved, vec![moving(1, v(190, 200), v(-10, 0)), moving(2, v(220, 200), v(10, 0))]);
    let next = out.index.search_range(Span::new(0, 1000), Span::new(0, 1000));
    assert_eq!(next, out.moved);
}

#[test]
fn flock_reads_the_state_before_the_step() {
    let world = WorldDimensions::new(1000, 0, 1000, 0);
    let mut index = QuadTree::new(Span::new(0, 1000), Span::new(0, 1000));
    assert!(index.insert(moving(1, v(300, 300), v(16, 0))));
    assert!(index.insert(moving(2, v(400, 300), v(0, 0))));
    let out = BoidSystem::run(&world, &index, 1);
    // first: cohesion (400 - 300) / 100 = 1, alignment (0 - 16) / 8 = -2
    assert_eq!(out.moved[0], moving(1, v(315, 300), v(15, 0)));
    // second: cohesion (300 - 400) / 100 = -1, alignment 16 / 8 = 2, from the old state of the first
    assert_eq!(out.moved[1], moving(2, v(401, 300), v(1, 0)));
}

#[test]
fn agent_leaving_the_world_is_dropped_and_reported() {
    let world = WorldDimensions::new(1000, 0, 1000, 0);
    let mut index = QuadTree::new(Span::new(0, 1000), Span::new(0, 1000));
    assert!(index.insert(moving(7, v(995, 500), v(50, 0))));
    assert!(index.insert(moving(8, v(300, 300), v(0, 0))));
    let out = BoidSystem::run(&world, &index, 1);
    assert_eq!(out.moved.len(), 2);
    assert_eq!(out.dropped, vec![moving(7, v(1035, 500), v(40, 0))]);
    let next = out.index.search_range(Span::new(0, 1000), Span::new(0, 1000));
    assert_eq!(next, vec![moving(8, v(300, 300), v(0, 0))]);
}

#[test]
fn empty_world_steps_to_empty_world() {
    let world = WorldDimensions::new(1000, 0, 1000, 0);
    let index = QuadTree::new(Span::new(0, 1000), Span::new(0, 1000));
    let out = BoidSystem::run(&world, &index, 5);
    assert!(out.moved.is_empty());
    assert!(out.dropped.is_empty());
    assert!(out.index.search_range(Span::new(0, 1000), Span::new(0, 1000)).is_empty());
}

#[test]
fn quadrants_are_visited_northwest_first() {
    let world = WorldDimensions::new(1000, 0, 1000, 0);
    let mut index = QuadTree::new(Span::new(0, 1000), Span::new(0, 1000));
    assert!(index.insert(moving(4, v(750, 250), v(0, 0))));
    assert!(index.insert(moving(3, v(250, 250), v(0, 0))));
    assert!(index.insert(moving(2, v(750, 750), v(0, 0))));
    assert!(index.insert(moving(1, v(250, 750), v(0, 0))));
    let out = BoidSystem::run(&world, &index, 0);
    let ids: Vec<usize> = out.moved.iter().map(|b| b.id).collect();
    assert_eq!(ids, vec![1, 2, 3, 4]);
}

#[test]
fn interior_scan_goes_northwest_northeast_southwest_southeast() {
    let mut index = QuadTree::new(Span::new(0, 1000), Span::new(0, 1000));
    assert!(index.insert(moving(4, v(750, 250), v(0, 0))));
    assert!(index.insert(moving(3, v(250, 250), v(0, 0))));
    assert!(index.insert(moving(2, v(750, 750), v(0, 0))));
    assert!(index.insert(moving(1, v(250, 750), v(0, 0))));
    assert!(index.insert(moving(5, v(260, 760), v(0, 0))));
    let found = index.search_range(Span::new(0, 1000), Span::new(0, 1000));
    let ids: Vec<usize> = found.iter().map(|b| b.id).collect();
    assert_eq!(ids, vec![1, 5, 2, 3, 4]);
}

#[test]
fn boid_accessors() {
    let mut b = Boid::new(v(1, 2), 3);
    assert_eq!(b.get_position(), v(1, 2));
    assert_eq!(b.get_velocity(), v(0, 0));
    b.set_id(8);
    b.set_position(v(5, 6));
    b.set_velocity(v(-1, 7));
    assert_eq!(b, Boid { id: 8, position: v(5, 6), velocity: v(-1, 7) });
}

#[test]
fn run_state_cycles_every_fifteen_seconds() {
    assert_eq!(CurrentState::default(), CurrentState::Paused);
    assert_eq!(Simulator::update(0), CurrentState::Running);
    assert_eq!(Simulator::update(9), CurrentState::Running);
    assert_eq!(Simulator::update(10), CurrentState::Paused);
    assert_eq!(Simulator::update(15_004), CurrentState::Running);
    assert_eq!(Simulator::update(7_500), CurrentState::Paused);
}

#[test]
fn spawned_agents_start_in_their_area() {
    for n in 0..100usize {
        let b = Simulator::spawn_boid(n, n + 1000);
        assert_eq!(b.id, n + 1000);
        assert_eq!(b.velocity, v(0, 0));
        let (xs, ys) = Simulator::spawn_area(n);
        assert!(xs.contains(b.position.x) && ys.contains(b.position.y));
        if n >= 50 {
            assert!(b.position.x >= 350 && b.position.x < 450);
        } else {
            assert!(b.position.x >= 50 && b.position.x < 150);
        }
        assert!(b.position.y >= 0 && b.position.y < 50);
    }
}

#[test]
fn spawned_agents_are_not_all_on_one_point() {
    let first = Simulator::spawn_boid(0, 0).position;
    let mut differs = false;
    for n in 1..50usize {
        if Simulator::spawn_boid(n, n).position != first {
            differs = true;
        }
    }
    assert!(differs);
}

#[test]
fn init_boids_adds_the_agent_to_the_index() {
    let mut info = BoidInfo::new(800, 0, 600, 0);
    let b = Simulator::init_boids(&mut info, 10, 42);
    let found = info.qt.search_range(Span::new(0, 800), Span::new(0, 600));
    assert_eq!(found, vec![b]);
}

#[test]
fn default_index_covers_the_unit_square() {
    let mut info = BoidInfo::default();
    assert!(info.qt.insert(Boid::new(v(0, 0), 1)));
    assert!(!info.qt.insert(Boid::new(v(1, 0), 2)));
}
