use boids::{Boid, QuadTree, Span, Vec2};

fn agent(id: usize, x: i64, y: i64) -> Boid {
    Boid::new(Vec2::new(x, y), id)
}

fn sorted_ids(found: &[Boid]) -> Vec<usize> {
    let mut ids: Vec<usize> = found.iter().map(|b| b.id).collect();
    ids.sort();
    ids
}

fn world_tree() -> QuadTree {
    QuadTree::new(Span::new(0, 1000), Span::new(0, 1000))
}

fn full_scan(tree: &QuadTree) -> Vec<Boid> {
    tree.search_range(Span::new(0, 1000), Span::new(0, 1000))
}

#[test]
fn full_scan_returns_every_inserted_agent() {
    let mut tree = world_tree();
    let mut expected = Vec::new();
    for i in 0..40usize {
        let x = (i as i64 * 97) % 998 + 1;
        let y = (i as i64 * 53) % 998 + 1;
        assert!(tree.insert(agent(i, x, y)));
        expected.push(i);
    }
    let found = full_scan(&tree);
    assert_eq!(found.len(), 40);
    assert_eq!(sorted_ids(&found), expected);
}

#[test]
fn subdivision_keeps_earlier_agents() {
    let mut tree = world_tree();
    for i in 0..4usize {
        assert!(tree.insert(agent(i, 100 + 200 * i as i64, 100 + 150 * i as i64)));
    }
    let before = sorted_ids(&full_scan(&tree));
    assert_eq!(before, vec![0, 1, 2, 3]);
    assert!(tree.insert(agent(4, 900, 50)));
    let after = sorted_ids(&full_scan(&tree));
    assert_eq!(after, vec![0, 1, 2, 3, 4]);
}

#[test]
fn insert_outside_bound_fails_and_is_not_found() {
    let mut tree = world_tree();
    assert!(tree.insert(agent(1, 10, 10)));
    assert!(!tree.insert(agent(2, 1001, 10)));
    let found = full_scan(&tree);
    assert_eq!(sorted_ids(&found), vec![1]);
}

#[test]
fn bound_is_half_open() {
    let mut tree = world_tree();
    assert!(tree.insert(agent(1, 0, 0)));
    assert!(!tree.insert(agent(2, 1000, 5)));
    assert!(!tree.insert(agent(3, 5, 1000)));
    assert!(!tree.insert(agent(4, -1, 5)));
    assert_eq!(full_scan(&tree).len(), 1);
}

#[test]
fn query_returns_only_agents_inside_it() {
    let mut tree = world_tree();
    let points = [(10, 10), (499, 499), (500, 500), (750, 250), (250, 750), (999, 999), (300, 300)];
    for (i, (x, y)) in points.iter().enumerate() {
        assert!(tree.insert(agent(i, *x, *y)));
    }
    let south_west = tree.search_range(Span::new(0, 500), Span::new(0, 500));
    assert_eq!(sorted_ids(&south_west), vec![0, 1, 6]);
    let north_east = tree.search_range(Span::new(500, 1000), Span::new(500, 1000));
    assert_eq!(sorted_ids(&north_east), vec![2, 5]);
    let none = tree.search_range(Span::new(2000, 3000), Span::new(0, 1000));
    assert!(none.is_empty());
}

#[test]
fn disjoint_queries_never_share_an_agent() {
    let mut tree = world_tree();
    for i in 0..30usize {
        let x = (i as i64 * 131) % 1000;
        let y = (i as i64 * 71) % 1000;
        assert!(tree.insert(agent(i, x, y)));
    }
    let mut all = Vec::new();
    for (xs, ys) in [((0, 500), (500, 1000)), ((500, 1000), (500, 1000)), ((0, 500), (0, 500)), ((500, 1000), (0, 500))] {
        all.extend(tree.search_range(Span::new(xs.0, xs.1), Span::new(ys.0, ys.1)));
    }
    assert_eq!(sorted_ids(&all), (0..30).collect::<Vec<usize>>());
}

#[test]
fn agents_on_one_point_are_all_kept() {
    let mut tree = world_tree();
    for i in 0..9usize {
        assert!(tree.insert(agent(i, 321, 123)));
    }
    let found = full_scan(&tree);
    assert_eq!(sorted_ids(&found), (0..9).collect::<Vec<usize>>());
    let point = tree.search_range(Span::new(321, 322), Span::new(123, 124));
    assert_eq!(point.len(), 9);
}

#[test]
fn leaf_results_keep_insertion_order() {
    let mut tree = world_tree();
    assert!(tree.insert(agent(7, 30, 30)));
    assert!(tree.insert(agent(3, 20, 20)));
    assert!(tree.insert(agent(5, 10, 10)));
    let found = full_scan(&tree);
    let ids: Vec<usize> = found.iter().map(|b| b.id).collect();
    assert_eq!(ids, vec![7, 3, 5]);
}

#[test]
fn empty_tree_finds_nothing() {
    let tree = world_tree();
    assert!(full_scan(&tree).is_empty());
}

#[test]
fn split_keeps_the_order_within_each_quadrant() {
    let mut tree = world_tree();
    assert!(tree.insert(agent(1, 10, 10)));
    assert!(tree.insert(agent(2, 20, 20)));
    assert!(tree.insert(agent(3, 900, 900)));
    assert!(tree.insert(agent(4, 30, 30)));
    assert!(tree.insert(agent(5, 600, 100)));
    let ids: Vec<usize> = full_scan(&tree).iter().map(|b| b.id).collect();
    assert_eq!(ids, vec![3, 1, 2, 4, 5]);
}
