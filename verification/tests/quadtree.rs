use spatial::quadtree::{Index, Quadtree, Volume};

#[derive(Clone, Debug, PartialEq)]
struct Spot {
    name: &'static str,
    x: i64,
    y: i64,
}

impl Index<i64> for Spot {
    fn quadtree_point(&self) -> [i64; 2] {
        [self.x, self.y]
    }

    fn quadtree_index(&self) -> [i64; 2] {
        [self.x, self.y]
    }
}

fn spot(name: &'static str, x: i64, y: i64) -> Spot {
    Spot { name, x, y }
}

fn region() -> Volume<i64> {
    Volume::new([0, 0], [100, 100])
}

const SPREAD: [[i64; 2]; 10] = [
    [10, 10],
    [90, 10],
    [10, 90],
    [90, 90],
    [50, 50],
    [56, 58],
    [57, 58],
    [44, 42],
    [60, 60],
    [50, 61],
];

fn spread_tree() -> Quadtree<i64, [i64; 2]> {
    let mut tree = Quadtree::with_capacity(region(), 4);
    for point in SPREAD {
        assert!(tree.insert(point));
    }
    tree
}

fn sorted(found: Vec<&[i64; 2]>) -> Vec<[i64; 2]> {
    let mut points: Vec<[i64; 2]> = found.into_iter().copied().collect();
    points.sort();
    points
}

#[test]
fn new_tree_is_empty() {
    let tree: Quadtree<i64, Spot> = Quadtree::new(region());
    assert_eq!(tree.len(), 0);
    assert!(tree.get_in_volume(&region()).is_empty());
    assert!(tree.get_in_radius([50, 50], 1000).is_empty());
}

#[test]
fn tree_with_capacity_is_empty() {
    let tree: Quadtree<i64, Spot> = Quadtree::with_capacity(region(), 3);
    assert_eq!(tree.len(), 0);
    assert!(tree.get_in_volume(&region()).is_empty());
}

#[test]
fn default_capacity_keeps_eight_items_in_arrival_order() {
    let mut tree: Quadtree<i64, [i64; 2]> = Quadtree::new(region());
    let points = [[90, 90], [10, 10], [90, 10], [10, 90], [60, 60], [40, 40], [60, 40], [40, 60]];
    for point in points {
        assert!(tree.insert(point));
    }
    let found: Vec<[i64; 2]> = tree.get_in_volume(&region()).into_iter().copied().collect();
    assert_eq!(found, points.to_vec());
    assert!(tree.insert([50, 50]));
    assert_eq!(tree.len(), 9);
    let found: Vec<[i64; 2]> = tree.get_in_volume(&region()).into_iter().copied().collect();
    assert_eq!(
        found,
        vec![[10, 10], [40, 40], [50, 50], [90, 10], [60, 40], [10, 90], [40, 60], [90, 90], [60, 60]]
    );
}

#[test]
fn insert_accepts_what_lies_in_the_volume() {
    let mut tree: Quadtree<i64, Spot> = Quadtree::with_capacity(region(), 2);
    assert!(tree.insert(spot("inner", 30, 70)));
    assert!(tree.insert(spot("corner", 0, 0)));
    assert!(tree.insert(spot("far corner", 100, 100)));
    assert!(tree.insert(spot("edge", 100, 40)));
    assert_eq!(tree.len(), 4);
}

#[test]
fn insert_rejects_what_lies_outside_and_keeps_the_tree() {
    let mut tree: Quadtree<i64, Spot> = Quadtree::with_capacity(region(), 2);
    assert!(tree.insert(spot("inner", 30, 70)));
    assert!(!tree.insert(spot("left", -1, 50)));
    assert!(!tree.insert(spot("right", 101, 50)));
    assert!(!tree.insert(spot("below", 50, -1)));
    assert!(!tree.insert(spot("above", 50, 101)));
    assert_eq!(tree.len(), 1);
    let found = tree.get_in_volume(&Volume::new([-1000, -1000], [1000, 1000]));
    assert_eq!(found, vec![&spot("inner", 30, 70)]);
}

#[test]
fn len_counts_the_accepted_items() {
    let mut tree: Quadtree<i64, [i64; 2]> = Quadtree::with_capacity(region(), 1);
    let offered = [[5, 5], [500, 5], [95, 5], [5, -5], [5, 95], [50, 50], [-50, -50], [95, 95]];
    let mut accepted = 0;
    for point in offered {
        if tree.insert(point) {
            accepted += 1;
        }
        assert_eq!(tree.len(), accepted);
    }
    assert_eq!(accepted, 5);
}

#[test]
fn ten_spread_points_are_all_kept() {
    let tree = spread_tree();
    assert_eq!(tree.len(), 10);
    let mut expected = SPREAD.to_vec();
    expected.sort();
    assert_eq!(sorted(tree.get_in_volume(&region())), expected);
}

#[test]
fn radius_query_returns_the_points_within_the_distance() {
    let tree = spread_tree();
    let mut expected: Vec<[i64; 2]> = SPREAD
        .iter()
        .copied()
        .filter(|p| {
            let dx = (p[0] - 50) as f64;
            let dy = (p[1] - 50) as f64;
            (dx * dx + dy * dy).sqrt() <= 10.0
        })
        .collect();
    expected.sort();
    assert_eq!(expected, vec![[44, 42], [50, 50], [56, 58]]);
    assert_eq!(sorted(tree.get_in_radius([50, 50], 10)), expected);
}

#[test]
fn radius_query_includes_the_distance_itself() {
    let mut tree: Quadtree<i64, [i64; 2]> = Quadtree::new(region());
    for point in [[50, 60], [50, 61], [40, 50], [39, 50], [53, 54], [58, 56]] {
        assert!(tree.insert(point));
    }
    assert_eq!(sorted(tree.get_in_radius([50, 50], 10)), vec![[40, 50], [50, 60], [53, 54], [58, 56]]);
    assert_eq!(sorted(tree.get_in_radius([50, 50], 5)), vec![[53, 54]]);
    assert_eq!(sorted(tree.get_in_radius([50, 60], 0)), vec![[50, 60]]);
}

#[test]
fn radius_query_with_a_negative_radius_is_empty() {
    let tree = spread_tree();
    assert!(tree.get_in_radius([50, 50], -1).is_empty());
}

#[test]
fn radius_query_is_part_of_the_query_for_its_bounding_box() {
    let tree = spread_tree();
    for (center, radius) in [([50, 50], 10), ([50, 50], 15), ([10, 10], 3), ([0, 0], 200), ([70, 70], 20)] {
        let min = [center[0] - radius, center[1] - radius];
        let max = [center[0] + radius, center[1] + radius];
        let in_box = sorted(tree.get_in_volume(&Volume::new(min, max)));
        let in_circle = sorted(tree.get_in_radius(center, radius));
        for point in &in_circle {
            assert!(in_box.contains(point));
            let dx = point[0] - center[0];
            let dy = point[1] - center[1];
            assert!(dx * dx + dy * dy <= radius * radius);
        }
        for point in &in_box {
            let dx = point[0] - center[0];
            let dy = point[1] - center[1];
            assert_eq!(in_circle.contains(point), dx * dx + dy * dy <= radius * radius);
        }
    }
}

#[test]
fn box_query_returns_what_lies_in_the_box() {
    let tree = spread_tree();
    let found = sorted(tree.get_in_volume(&Volume::new([44, 42], [57, 58])));
    assert_eq!(found, vec![[44, 42], [50, 50], [56, 58], [57, 58]]);
    let found = sorted(tree.get_in_volume(&Volume::new([0, 0], [50, 50])));
    assert_eq!(found, vec![[10, 10], [44, 42], [50, 50]]);
    assert!(tree.get_in_volume(&Volume::new([20, 20], [30, 30])).is_empty());
}

#[test]
fn box_query_apart_from_the_tree_is_empty() {
    let tree = spread_tree();
    assert!(tree.get_in_volume(&Volume::new([101, 0], [200, 100])).is_empty());
    assert!(tree.get_in_volume(&Volume::new([-50, -50], [-1, -1])).is_empty());
}

#[test]
fn box_queries_that_are_apart_share_no_item() {
    let tree = spread_tree();
    let left = sorted(tree.get_in_volume(&Volume::new([0, 0], [49, 100])));
    let right = sorted(tree.get_in_volume(&Volume::new([50, 0], [100, 100])));
    assert_eq!(left.len() + right.len(), 10);
    for point in &left {
        assert!(!right.contains(point));
    }
}

#[test]
fn box_query_lists_the_quadrants_in_order() {
    let mut tree: Quadtree<i64, Spot> = Quadtree::with_capacity(region(), 2);
    assert!(tree.insert(spot("a", 80, 80)));
    assert!(tree.insert(spot("b", 10, 10)));
    assert!(tree.insert(spot("c", 80, 10)));
    assert!(tree.insert(spot("d", 10, 80)));
    assert!(tree.insert(spot("e", 20, 20)));
    let names: Vec<&str> = tree.get_in_volume(&region()).iter().map(|s| s.name).collect();
    assert_eq!(names, vec!["b", "e", "c", "d", "a"]);
}

#[test]
fn point_on_the_border_of_two_quadrants_is_found_once() {
    let mut tree: Quadtree<i64, Spot> = Quadtree::with_capacity(region(), 1);
    assert!(tree.insert(spot("low", 10, 10)));
    assert!(tree.insert(spot("high", 90, 90)));
    assert!(tree.insert(spot("border", 50, 20)));
    assert!(tree.insert(spot("center", 50, 50)));
    assert_eq!(tree.len(), 4);
    let found = tree.get_in_volume(&region());
    assert_eq!(found.len(), 4);
    assert_eq!(found.iter().filter(|s| s.name == "border").count(), 1);
    assert_eq!(found.iter().filter(|s| s.name == "center").count(), 1);
    let found = tree.get_in_volume(&Volume::new([50, 0], [50, 100]));
    let names: Vec<&str> = found.iter().map(|s| s.name).collect();
    assert_eq!(names, vec!["border", "center"]);
}

#[test]
fn points_at_one_place_are_all_kept() {
    let mut tree: Quadtree<i64, Spot> = Quadtree::with_capacity(region(), 1);
    let names = ["one", "two", "three", "four", "five"];
    for name in names {
        assert!(tree.insert(spot(name, 7, 7)));
    }
    assert!(tree.insert(spot("other", 70, 70)));
    assert_eq!(tree.len(), 6);
    let found = tree.get_in_volume(&Volume::new([7, 7], [7, 7]));
    assert_eq!(found.len(), 5);
    for name in names {
        assert_eq!(found.iter().filter(|s| s.name == name).count(), 1);
    }
    assert_eq!(tree.get_in_radius([7, 7], 0).len(), 5);
}

#[test]
fn tree_without_capacity_keeps_its_items() {
    let mut tree: Quadtree<i64, [i64; 2]> = Quadtree::with_capacity(region(), 0);
    assert!(tree.insert([30, 30]));
    assert!(tree.insert([60, 30]));
    assert!(!tree.insert([160, 30]));
    assert_eq!(tree.len(), 2);
    assert_eq!(sorted(tree.get_in_volume(&region())), vec![[30, 30], [60, 30]]);
}

#[test]
fn tree_of_a_single_point_keeps_its_items() {
    let mut tree: Quadtree<i64, [i64; 2]> = Quadtree::with_capacity(Volume::new([3, 3], [3, 3]), 2);
    for _ in 0..5 {
        assert!(tree.insert([3, 3]));
    }
    assert!(!tree.insert([3, 4]));
    assert_eq!(tree.len(), 5);
    assert_eq!(tree.get_in_volume(&Volume::new([0, 0], [10, 10])).len(), 5);
}

#[test]
fn tree_with_corners_out_of_order_accepts_nothing() {
    let mut tree: Quadtree<i64, [i64; 2]> = Quadtree::new(Volume::new([10, 10], [0, 0]));
    assert!(!tree.insert([5, 5]));
    assert!(!tree.insert([10, 10]));
    assert_eq!(tree.len(), 0);
}

#[test]
fn many_points_are_all_found() {
    let mut tree: Quadtree<i64, [i64; 2]> = Quadtree::with_capacity(Volume::new([-64, -64], [64, 64]), 3);
    let mut expected = Vec::new();
    for x in -20..20 {
        for y in -20..20 {
            let point = [3 * x + 1, 2 * y - 5];
            assert!(tree.insert(point));
            expected.push(point);
        }
    }
    assert_eq!(tree.len(), 1600);
    expected.sort();
    assert_eq!(sorted(tree.get_in_volume(&Volume::new([-64, -64], [64, 64]))), expected);
    let window = Volume::new([-10, -10], [10, 10]);
    let inside: Vec<[i64; 2]> = expected.iter().copied().filter(|p| window.contains(p)).collect();
    assert_eq!(sorted(tree.get_in_volume(&window)), inside);
}
