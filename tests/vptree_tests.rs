use std::collections::HashSet;

use vptree::metric::Metric;
use vptree::sample::{bf_knn, generate_data, Point, UNIT};
use vptree::vptree::VPTree;

fn pt(id: i32, x: i32, y: i32) -> Point {
    Point { id, x, y }
}

#[test]
fn validate_correct() {
    let k = 5;
    let data = generate_data(100);
    let tree = VPTree::new(&data);
    assert_eq!(tree.items.len(), data.len());

    for p in &data {
        let test = tree.search(p, k);
        let validation = bf_knn(&data, p, k);
        if test.len() != k {
            println!("{} {:#?} {:#?}", p.id, test, validation);
        }
        assert_eq!(test.len(), validation.len());

        let s1 = test.iter().map(|a| a.0.id).collect::<HashSet<_>>();
        let s2 = validation.iter().map(|a| a.0.id).collect::<HashSet<_>>();
        let d = s1.symmetric_difference(&s2).collect::<HashSet<_>>();
        if d.len() != 0 {
            println!("{} {:#?} {:#?}", p.id, test, validation);
        }
        assert_eq!(d.len(), 0);
    }
}

#[test]
fn four_points_two_nearest() {
    let a = pt(0, 0, 0);
    let b = pt(1, 0, 1);
    let c = pt(2, 10, 10);
    let d = pt(3, 0, 2);
    let tree = VPTree::new(&vec![a, b, c, d]);
    let r = tree.search(&a, 2);
    assert_eq!(r.len(), 2);
    assert_eq!(r[0].0.id, 1);
    assert_eq!(r[0].1, UNIT);
    assert_eq!(r[1].0.id, 3);
    assert_eq!(r[1].1, 2 * UNIT);
}

#[test]
fn four_points_all_neighbours() {
    let a = pt(0, 0, 0);
    let tree = VPTree::new(&vec![a, pt(1, 0, 1), pt(2, 10, 10), pt(3, 0, 2)]);
    let r = tree.search(&a, 10);
    let ids: Vec<i32> = r.iter().map(|e| e.0.id).collect();
    assert_eq!(ids, vec![1, 3, 2]);
    // ceil(65536 * sqrt(200))
    assert_eq!(r[2].1, 926820);
}

#[test]
fn empty_tree_gives_nothing() {
    let tree: VPTree<Point> = VPTree::new(&Vec::new());
    assert!(tree.root.is_none());
    assert_eq!(tree.search(&pt(0, 3, 4), 0).len(), 0);
    assert_eq!(tree.search(&pt(0, 3, 4), 1).len(), 0);
    assert_eq!(tree.search(&pt(7, -5, 9), 100).len(), 0);
}

#[test]
fn single_item_tree() {
    let x = pt(0, 5, 5);
    let tree = VPTree::new(&vec![x]);
    assert_eq!(tree.search(&x, 5).len(), 0);
    let r = tree.search(&pt(1, 8, 9), 5);
    assert_eq!(r.len(), 1);
    assert_eq!(r[0].0.id, 0);
    assert_eq!(r[0].1, 5 * UNIT);
}

#[test]
fn zero_k_gives_nothing() {
    let data = generate_data(50);
    let tree = VPTree::new(&data);
    for p in &data {
        assert_eq!(tree.search(p, 0).len(), 0);
    }
    assert_eq!(bf_knn(&data, &data[0], 0).len(), 0);
}

#[test]
fn build_keeps_every_item() {
    let data = generate_data(200);
    let tree = VPTree::new(&data);
    assert_eq!(tree.items.len(), data.len());
    let mut ids: Vec<i32> = tree.items.iter().map(|p| p.id).collect();
    ids.sort();
    let expected: Vec<i32> = (0..200).collect();
    assert_eq!(ids, expected);
}

#[test]
fn search_leaves_target_out() {
    let data = generate_data(80);
    let tree = VPTree::new(&data);
    for p in &data {
        let r = tree.search(p, 79);
        assert_eq!(r.len(), 79);
        assert!(r.iter().all(|e| e.0.id != p.id));
    }
}

#[test]
fn search_distances_ascend() {
    let data = generate_data(120);
    let tree = VPTree::new(&data);
    for p in data.iter().take(30) {
        let r = tree.search(p, 15);
        assert_eq!(r.len(), 15);
        for w in r.windows(2) {
            assert!(w[0].1 <= w[1].1);
        }
        for e in &r {
            assert_eq!(e.1, Point::distance(&e.0, p));
        }
    }
}

#[test]
fn search_agrees_with_scan_on_distances() {
    let data = generate_data(150);
    let tree = VPTree::new(&data);
    for k in [1usize, 3, 10, 149, 500] {
        for p in data.iter().take(20) {
            let t: Vec<u64> = tree.search(p, k).iter().map(|e| e.1).collect();
            let b: Vec<u64> = bf_knn(&data, p, k).iter().map(|e| e.1).collect();
            assert_eq!(t, b);
        }
    }
}

#[test]
fn target_outside_the_set() {
    let data = vec![pt(0, 0, 0), pt(1, 10, 0), pt(2, 0, 10), pt(3, 10, 10), pt(4, 5, 5)];
    let tree = VPTree::new(&data);
    let r = tree.search(&pt(9, 6, 6), 1);
    assert_eq!(r.len(), 1);
    assert_eq!(r[0].0.id, 4);
    // ceil(65536 * sqrt(2))
    assert_eq!(r[0].1, 92682);
}

#[test]
fn equal_points_at_zero_distance() {
    let data = vec![pt(0, 1, 1), pt(1, 1, 1), pt(2, 4, 5)];
    let tree = VPTree::new(&data);
    let r = tree.search(&pt(0, 1, 1), 2);
    assert_eq!(r.len(), 2);
    assert_eq!(r[0].0.id, 1);
    assert_eq!(r[0].1, 0);
    assert_eq!(r[1].0.id, 2);
    assert_eq!(r[1].1, 5 * UNIT);
}

#[test]
fn point_distance_values() {
    assert_eq!(Point::distance(&pt(0, 0, 0), &pt(1, 3, 4)), 5 * UNIT);
    assert_eq!(Point::distance(&pt(0, 3, 4), &pt(1, 0, 0)), 5 * UNIT);
    assert_eq!(Point::distance(&pt(0, 2, 2), &pt(1, 2, 2)), 0);
    assert_eq!(Point::distance(&pt(0, 0, 0), &pt(1, 1, 1)), 92682);
    // the farthest two points can be: both coordinates differ by 2^32 - 1
    let far = Point::distance(&pt(0, i32::MIN, i32::MIN), &pt(1, i32::MAX, i32::MAX));
    // ceil(65536 * (2^32 - 1) * sqrt(2))
    assert_eq!(far, 398065729440179);
}

#[test]
fn points_equal_by_id() {
    assert!(pt(1, 0, 0) == pt(1, 5, 5));
    assert!(pt(1, 0, 0) != pt(2, 0, 0));
    assert!(Point::same(&pt(3, 1, 2), &pt(3, 9, 9)));
    assert!(!Point::same(&pt(3, 1, 2), &pt(4, 1, 2)));
}

#[test]
fn generated_points() {
    let data = generate_data(300);
    assert_eq!(data.len(), 300);
    for (i, p) in data.iter().enumerate() {
        assert_eq!(p.id, i as i32);
        assert!(0 <= p.x && p.x < 1000);
        assert!(0 <= p.y && p.y < 1000);
    }
    assert_eq!(generate_data(0).len(), 0);
    assert_eq!(generate_data(-4).len(), 0);
}

#[test]
fn scan_nearest_values() {
    let data = vec![pt(0, 0, 0), pt(1, 0, 1), pt(2, 10, 10), pt(3, 0, 2)];
    let r = bf_knn(&data, &data[0], 2);
    assert_eq!(r.len(), 2);
    assert_eq!((r[0].0.id, r[0].1), (1, UNIT));
    assert_eq!((r[1].0.id, r[1].1), (3, 2 * UNIT));
    assert_eq!(bf_knn(&data, &pt(9, 0, 0), 1)[0].0.id, 0);
}
