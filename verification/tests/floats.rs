use num::traits::Float;
use num::NumCast;
use spatial::quadtree::{Index, Quadtree, Volume};
use spatial::SpatialKey;

#[derive(Clone, Copy, Debug, PartialEq, PartialOrd)]
struct Real(f64);

fn two() -> f64 {
    NumCast::from(2).unwrap()
}

impl SpatialKey for Real {
    fn leq_spec(self, other: Self) -> bool {
        self.0 <= other.0
    }

    fn plus_spec(self, rhs: Self) -> Self {
        Real(self.0 + rhs.0)
    }

    fn minus_spec(self, rhs: Self) -> Self {
        Real(self.0 - rhs.0)
    }

    fn midpoint_spec(self, other: Self) -> Self {
        Real((self.0 + other.0) / two())
    }

    fn square_spec(self) -> Self {
        Real(Float::powf(self.0, two()))
    }

    fn has_root(self) -> bool {
        self.0 >= 0.0
    }

    fn sqrt_spec(self) -> Self {
        Real(Float::sqrt(self.0))
    }

    fn leq(&self, other: &Self) -> bool {
        self.0 <= other.0
    }

    fn plus(self, rhs: Self) -> Self {
        Real(self.0 + rhs.0)
    }

    fn minus(self, rhs: Self) -> Self {
        Real(self.0 - rhs.0)
    }

    fn midpoint(self, other: Self) -> Self {
        Real((self.0 + other.0) / two())
    }

    fn square(self) -> Self {
        Real(Float::powf(self.0, two()))
    }

    fn sqrt(self) -> Self {
        Real(Float::sqrt(self.0))
    }

    fn lemma_leq_total(_a: Self, _b: Self) {}

    fn lemma_leq_transitive(_a: Self, _b: Self, _c: Self) {}

    fn lemma_midpoint_between(_a: Self, _b: Self) {}

    fn lemma_square_has_root(_a: Self) {}

    fn lemma_plus_has_root(_a: Self, _b: Self) {}
}

#[derive(Clone, Debug, PartialEq)]
struct Monster {
    x: f64,
    y: f64,
}

impl Index<Real> for Monster {
    fn quadtree_point(&self) -> [Real; 2] {
        [Real(self.x), Real(self.y)]
    }

    fn quadtree_index(&self) -> [Real; 2] {
        [Real(self.x), Real(self.y)]
    }
}

fn field() -> Volume<Real> {
    Volume::new([Real(0.0), Real(0.0)], [Real(100.0), Real(100.0)])
}

const PLACES: [(f64, f64); 10] = [
    (12.5, 7.25),
    (88.0, 15.5),
    (9.75, 91.0),
    (93.5, 86.25),
    (50.0, 50.0),
    (56.0, 58.0),
    (56.5, 58.5),
    (43.0, 43.0),
    (60.0, 60.0),
    (50.0, 60.0),
];

fn herd() -> Quadtree<Real, Monster> {
    let mut tree = Quadtree::with_capacity(field(), 4);
    for (x, y) in PLACES {
        assert!(tree.insert(Monster { x, y }));
    }
    tree
}

#[test]
fn float_tree_keeps_ten_points() {
    let tree = herd();
    assert_eq!(tree.len(), 10);
    let found = tree.get_in_volume(&field());
    assert_eq!(found.len(), 10);
    for (x, y) in PLACES {
        assert_eq!(found.iter().filter(|m| m.x == x && m.y == y).count(), 1);
    }
}

#[test]
fn float_tree_rejects_what_lies_outside() {
    let mut tree = herd();
    assert!(!tree.insert(Monster { x: 100.5, y: 50.0 }));
    assert!(!tree.insert(Monster { x: 50.0, y: -0.25 }));
    assert!(tree.insert(Monster { x: 100.0, y: 0.0 }));
    assert_eq!(tree.len(), 11);
}

#[test]
fn float_radius_query_returns_the_points_within_the_distance() {
    let tree = herd();
    let found = tree.get_in_radius([Real(50.0), Real(50.0)], Real(10.0));
    let mut places: Vec<(f64, f64)> = found.iter().map(|m| (m.x, m.y)).collect();
    places.sort_by(|a, b| a.partial_cmp(b).unwrap());
    assert_eq!(places, vec![(43.0, 43.0), (50.0, 50.0), (50.0, 60.0), (56.0, 58.0)]);
    for (x, y) in PLACES {
        let distance = ((x - 50.0) * (x - 50.0) + (y - 50.0) * (y - 50.0)).sqrt();
        assert_eq!(places.contains(&(x, y)), distance <= 10.0);
    }
}

#[test]
fn float_quadrants_meet_at_the_center() {
    let v = Volume::new([Real(-3.0), Real(1.0)], [Real(4.0), Real(2.5)]);
    assert_eq!(v.center(), [Real(0.5), Real(1.75)]);
    let q = v.quadrant(2);
    assert_eq!(q.min, [Real(-3.0), Real(1.75)]);
    assert_eq!(q.max, [Real(0.5), Real(2.5)]);
}
