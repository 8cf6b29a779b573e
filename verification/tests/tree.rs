use kdtree::points::{Point2D, Point3D};
use kdtree::{KDPoint, KDTree};

fn p(x: i64, y: i64) -> Point2D {
    Point2D { x, y }
}

fn brute_force_nearest(points: &[Point2D], search: &Point2D) -> Option<Point2D> {
    points
        .iter()
        .copied()
        .min_by_key(|q| KDPoint::distance(search, q))
}

#[test]
fn seven_points_scenario() {
    let points = vec![p(0, 0), p(2, 3), p(5, 4), p(9, 6), p(4, 7), p(8, 1), p(7, 2)];
    let tree = KDTree::make(points);
    let found = tree.find_nearest(&p(9, 2));
    assert_eq!(found, Some(&p(8, 1)));
}

#[test]
fn empty_collection_scenario() {
    let tree = KDTree::<Point2D>::make(Vec::new());
    assert_eq!(tree.find_nearest(&p(0, 0)), None);
    assert_eq!(tree.find_nearest(&p(100, 100)), None);
    assert_eq!(tree.find_nearest(&p(-3, 7)), None);
}

#[test]
fn single_point_scenario() {
    let tree = KDTree::make(vec![p(1, 1)]);
    assert_eq!(tree.find_nearest(&p(100, 100)), Some(&p(1, 1)));
}

#[test]
fn insert_then_query_exact() {
    let mut tree = KDTree::make(vec![p(0, 0), p(10, 10), p(-5, 3)]);
    tree.insert(p(3, 4));
    let found = tree.find_nearest(&p(3, 4));
    assert_eq!(found, Some(&p(3, 4)));
    assert_eq!(KDPoint::distance(&p(3, 4), found.unwrap()), 0);
}

#[test]
fn insert_into_empty_tree() {
    let mut tree = KDTree::<Point2D>::make(Vec::new());
    tree.insert(p(2, -2));
    assert_eq!(tree.find_nearest(&p(50, 50)), Some(&p(2, -2)));
}

#[test]
fn repeated_skewed_inserts_stay_correct() {
    let mut tree = KDTree::<Point2D>::make(Vec::new());
    for i in 0..20 {
        tree.insert(p(i, i));
    }
    assert_eq!(tree.find_nearest(&p(7, 7)), Some(&p(7, 7)));
    assert_eq!(tree.find_nearest(&p(-100, -100)), Some(&p(0, 0)));
    assert_eq!(tree.find_nearest(&p(100, 100)), Some(&p(19, 19)));
}

#[test]
fn matches_brute_force() {
    // a fixed, irregular point cloud
    let mut points = Vec::new();
    let mut v: i64 = 11;
    for _ in 0..60 {
        v = (v * 31 + 17) % 199;
        let x = v - 99;
        v = (v * 31 + 17) % 199;
        let y = v - 99;
        points.push(p(x, y));
    }
    let tree = KDTree::make(points.clone());
    for i in 0..40 {
        let search = p((i * 13) % 120 - 60, (i * 29) % 120 - 60);
        let found = tree.find_nearest(&search).copied().unwrap();
        let best = brute_force_nearest(&points, &search).unwrap();
        assert_eq!(
            KDPoint::distance(&search, &found),
            KDPoint::distance(&search, &best)
        );
    }
}

#[test]
fn duplicate_points_are_kept() {
    let points = vec![p(1, 1), p(1, 1), p(1, 1), p(2, 2)];
    let tree = KDTree::make(points);
    assert_eq!(tree.find_nearest(&p(1, 1)), Some(&p(1, 1)));
    assert_eq!(tree.find_nearest(&p(3, 3)), Some(&p(2, 2)));
}

#[test]
fn squared_distance_values() {
    assert_eq!(KDPoint::distance(&p(0, 0), &p(3, 4)), 25);
    assert_eq!(KDPoint::distance(&p(9, 2), &p(8, 1)), 2);
    assert_eq!(KDPoint::distance(&p(-2, 5), &p(1, 1)), 25);
    assert_eq!(Point2D::key_distance(&7, &3), 16);
    assert_eq!(Point2D::key_distance(&-2, &2), 16);
}

#[test]
fn three_dimensional_points() {
    let q = |x: i64, y: i64, z: i64| Point3D { x, y, z };
    let points = vec![
        q(0, 0, 0),
        q(1, 2, 3),
        q(-4, 2, 0),
        q(5, 5, 5),
        q(2, -1, 7),
        q(3, 3, 3),
    ];
    let tree = KDTree::make(points);
    assert_eq!(
        KDPoint::distance(&q(0, 0, 0), &q(1, 2, 3)),
        1 + 4 + 9
    );
    assert_eq!(tree.find_nearest(&q(1, 2, 3)), Some(&q(1, 2, 3)));
    assert_eq!(tree.find_nearest(&q(4, 4, 4)), Some(&q(3, 3, 3)));
    assert_eq!(tree.find_nearest(&q(-10, 0, 0)), Some(&q(-4, 2, 0)));
}

#[test]
fn one_dimensional_keys() {
    let tree = KDTree::make(vec![4i64, 8, 15, 16, 23, 42]);
    assert_eq!(tree.find_nearest(&20), Some(&23));
    assert_eq!(tree.find_nearest(&4), Some(&4));
    assert_eq!(tree.find_nearest(&1000), Some(&42));
}
