use spatial::octree;
use spatial::quadtree;

#[test]
fn new_keeps_the_corners() {
    let flat: quadtree::Volume<i64> = quadtree::Volume::new([1, 2], [3, 4]);
    assert_eq!(flat.min, [1, 2]);
    assert_eq!(flat.max, [3, 4]);
    let solid: octree::Volume<i64> = octree::Volume::new([1, 2, 3], [4, 5, 6]);
    assert_eq!(solid.min, [1, 2, 3]);
    assert_eq!(solid.max, [4, 5, 6]);
}

#[test]
fn contains_includes_both_ends() {
    let v: quadtree::Volume<i64> = quadtree::Volume::new([0, 10], [100, 20]);
    assert!(v.contains(&[0, 10]));
    assert!(v.contains(&[100, 20]));
    assert!(v.contains(&[0, 20]));
    assert!(v.contains(&[50, 15]));
    assert!(!v.contains(&[-1, 15]));
    assert!(!v.contains(&[101, 15]));
    assert!(!v.contains(&[50, 9]));
    assert!(!v.contains(&[50, 21]));
}

#[test]
fn contains_in_three_dimensions() {
    let v: octree::Volume<i64> = octree::Volume::new([0, 0, 0], [8, 8, 8]);
    assert!(v.contains(&[0, 0, 0]));
    assert!(v.contains(&[8, 8, 8]));
    assert!(v.contains(&[3, 8, 0]));
    assert!(!v.contains(&[3, 3, 9]));
    assert!(!v.contains(&[3, -1, 3]));
    assert!(!v.contains(&[9, 3, 3]));
}

#[test]
fn a_box_with_corners_out_of_order_contains_nothing() {
    let v: quadtree::Volume<i64> = quadtree::Volume::new([10, 0], [0, 10]);
    assert!(!v.contains(&[5, 5]));
    assert!(!v.contains(&[10, 5]));
    assert!(!v.contains(&[0, 5]));
}

#[test]
fn intersects_when_overlapping_or_touching() {
    let v: quadtree::Volume<i64> = quadtree::Volume::new([0, 0], [10, 10]);
    assert!(v.intersects(&quadtree::Volume::new([5, 5], [15, 15])));
    assert!(v.intersects(&quadtree::Volume::new([10, 10], [20, 20])));
    assert!(v.intersects(&quadtree::Volume::new([10, 0], [20, 10])));
    assert!(v.intersects(&quadtree::Volume::new([2, 2], [3, 3])));
    assert!(v.intersects(&quadtree::Volume::new([-5, -5], [50, 50])));
    assert!(v.intersects(&v));
}

#[test]
fn does_not_intersect_when_apart_on_one_axis() {
    let v: quadtree::Volume<i64> = quadtree::Volume::new([0, 0], [10, 10]);
    assert!(!v.intersects(&quadtree::Volume::new([11, 0], [20, 10])));
    assert!(!v.intersects(&quadtree::Volume::new([0, 11], [10, 20])));
    assert!(!v.intersects(&quadtree::Volume::new([-20, 0], [-1, 10])));
    assert!(!v.intersects(&quadtree::Volume::new([0, -20], [10, -1])));
}

#[test]
fn intersects_in_three_dimensions() {
    let v: octree::Volume<i64> = octree::Volume::new([0, 0, 0], [8, 8, 8]);
    assert!(v.intersects(&octree::Volume::new([8, 8, 8], [9, 9, 9])));
    assert!(v.intersects(&octree::Volume::new([1, 1, 1], [2, 2, 2])));
    assert!(!v.intersects(&octree::Volume::new([0, 0, 9], [8, 8, 10])));
    assert!(!v.intersects(&octree::Volume::new([0, -3, 0], [8, -1, 8])));
    assert!(!v.intersects(&octree::Volume::new([9, 0, 0], [10, 8, 8])));
}

#[test]
fn intersects_is_symmetric() {
    let boxes: [quadtree::Volume<i64>; 4] = [
        quadtree::Volume::new([0, 0], [10, 10]),
        quadtree::Volume::new([10, 3], [12, 4]),
        quadtree::Volume::new([11, 0], [20, 10]),
        quadtree::Volume::new([-3, -3], [-1, 30]),
    ];
    for a in &boxes {
        for b in &boxes {
            assert_eq!(a.intersects(b), b.intersects(a));
        }
    }
}

#[test]
fn center_is_halfway() {
    let v: quadtree::Volume<i64> = quadtree::Volume::new([0, 10], [100, 21]);
    assert_eq!(v.center(), [50, 15]);
    let w: octree::Volume<i64> = octree::Volume::new([-8, 0, 2], [8, 8, 4]);
    assert_eq!(w.center(), [0, 4, 3]);
}

#[test]
fn quadrants_from_the_origin() {
    let v: quadtree::Volume<i64> = quadtree::Volume::new([0, 0], [100, 100]);
    let expected = [
        ([0, 0], [50, 50]),
        ([50, 0], [100, 50]),
        ([0, 50], [50, 100]),
        ([50, 50], [100, 100]),
    ];
    for k in 0..4 {
        let q = v.quadrant(k);
        assert_eq!((q.min, q.max), expected[k]);
    }
}

#[test]
fn quadrants_away_from_the_origin() {
    let v: quadtree::Volume<i64> = quadtree::Volume::new([10, 20], [30, 60]);
    let expected = [
        ([10, 20], [20, 40]),
        ([20, 20], [30, 40]),
        ([10, 40], [20, 60]),
        ([20, 40], [30, 60]),
    ];
    for k in 0..4 {
        let q = v.quadrant(k);
        assert_eq!((q.min, q.max), expected[k]);
    }
}

#[test]
fn octants_from_the_origin() {
    let v: octree::Volume<i64> = octree::Volume::new([0, 0, 0], [8, 8, 8]);
    let expected = [
        ([0, 0, 0], [4, 4, 4]),
        ([4, 0, 0], [8, 4, 4]),
        ([0, 4, 0], [4, 8, 4]),
        ([4, 4, 0], [8, 8, 4]),
        ([0, 0, 4], [4, 4, 8]),
        ([4, 0, 4], [8, 4, 8]),
        ([0, 4, 4], [4, 8, 8]),
        ([4, 4, 4], [8, 8, 8]),
    ];
    for k in 0..8 {
        let o = v.octant(k);
        assert_eq!((o.min, o.max), expected[k]);
    }
}

#[test]
fn octants_away_from_the_origin() {
    let v: octree::Volume<i64> = octree::Volume::new([-4, 10, 100], [4, 20, 300]);
    let expected = [
        ([-4, 10, 100], [0, 15, 200]),
        ([0, 10, 100], [4, 15, 200]),
        ([-4, 15, 100], [0, 20, 200]),
        ([0, 15, 100], [4, 20, 200]),
        ([-4, 10, 200], [0, 15, 300]),
        ([0, 10, 200], [4, 15, 300]),
        ([-4, 15, 200], [0, 20, 300]),
        ([0, 15, 200], [4, 20, 300]),
    ];
    for k in 0..8 {
        let o = v.octant(k);
        assert_eq!((o.min, o.max), expected[k]);
    }
}

fn quadrants_tile(v: &quadtree::Volume<i64>) {
    let mid = v.center();
    for x in (v.min[0] - 2)..=(v.max[0] + 2) {
        for y in (v.min[1] - 2)..=(v.max[1] + 2) {
            let point = [x, y];
            let holders: Vec<usize> =
                (0..4).filter(|k| v.quadrant(*k).contains(&point)).collect();
            assert_eq!(v.contains(&point), !holders.is_empty());
            if holders.len() > 1 {
                assert!(x == mid[0] || y == mid[1]);
            }
        }
    }
}

#[test]
fn quadrants_tile_a_box_at_the_origin() {
    quadrants_tile(&quadtree::Volume::new([0, 0], [16, 16]));
    quadrants_tile(&quadtree::Volume::new([0, 0], [7, 5]));
}

#[test]
fn quadrants_tile_a_box_away_from_the_origin() {
    quadrants_tile(&quadtree::Volume::new([10, 20], [30, 60]));
    quadrants_tile(&quadtree::Volume::new([-9, -3], [-2, 8]));
    quadrants_tile(&quadtree::Volume::new([5, 5], [5, 5]));
    quadrants_tile(&quadtree::Volume::new([5, 5], [6, 6]));
}

fn octants_tile(v: &octree::Volume<i64>) {
    let mid = v.center();
    for x in (v.min[0] - 1)..=(v.max[0] + 1) {
        for y in (v.min[1] - 1)..=(v.max[1] + 1) {
            for z in (v.min[2] - 1)..=(v.max[2] + 1) {
                let point = [x, y, z];
                let holders: Vec<usize> =
                    (0..8).filter(|k| v.octant(*k).contains(&point)).collect();
                assert_eq!(v.contains(&point), !holders.is_empty());
                if holders.len() > 1 {
                    assert!(x == mid[0] || y == mid[1] || z == mid[2]);
                }
            }
        }
    }
}

#[test]
fn octants_tile_a_box_at_the_origin() {
    octants_tile(&octree::Volume::new([0, 0, 0], [8, 8, 8]));
    octants_tile(&octree::Volume::new([0, 0, 0], [5, 3, 7]));
}

#[test]
fn octants_tile_a_box_away_from_the_origin() {
    octants_tile(&octree::Volume::new([3, -6, 10], [9, 1, 14]));
    octants_tile(&octree::Volume::new([2, 2, 2], [3, 3, 3]));
}
