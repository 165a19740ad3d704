use treegen::geometry::{BoundingBox, Point};
use treegen::quadtree::Quadtree;

fn area() -> BoundingBox {
    BoundingBox::new(0, 0, 100, 100)
}

#[test]
fn insert_reports_containment() {
    let mut q: Quadtree<usize> = Quadtree::new(area(), 2);
    assert!(q.insert(Point { x: 10, y: 10 }, 1));
    assert!(!q.insert(Point { x: 101, y: 10 }, 2));
    assert!(!q.insert(Point { x: -1, y: 50 }, 3));
    let mut out = Vec::new();
    q.query_point(&area(), &mut out);
    assert_eq!(out, vec![(Point { x: 10, y: 10 }, 1)]);
}

#[test]
fn full_query_returns_every_point_for_any_capacity() {
    for capacity in 1..6usize {
        let mut q: Quadtree<usize> = Quadtree::new(area(), capacity);
        let mut n = 0usize;
        for x in 1..10i64 {
            for y in 1..10i64 {
                assert!(q.insert(Point { x: x * 10 + 3, y: y * 10 - 4 }, n));
                n += 1;
            }
        }
        let mut out = Vec::new();
        q.query_point(&area(), &mut out);
        assert_eq!(out.len(), n);
        let mut ids: Vec<usize> = out.iter().map(|e| e.1).collect();
        ids.sort();
        assert_eq!(ids, (0..n).collect::<Vec<usize>>());
    }
}

#[test]
fn repeated_point_is_kept_each_time() {
    let mut q: Quadtree<usize> = Quadtree::new(area(), 1);
    for i in 0..20usize {
        assert!(q.insert(Point { x: 50, y: 50 }, i));
    }
    let mut out = Vec::new();
    q.query_point(&area(), &mut out);
    assert_eq!(out.len(), 20);
}

#[test]
fn edge_points_are_stored_but_not_strictly_inside() {
    let mut q: Quadtree<usize> = Quadtree::new(area(), 1);
    assert!(q.insert(Point { x: 0, y: 0 }, 0));
    assert!(q.insert(Point { x: 100, y: 100 }, 1));
    assert!(q.insert(Point { x: 50, y: 50 }, 2));
    assert!(q.insert(Point { x: 100, y: 30 }, 3));
    let mut out = Vec::new();
    q.query_point(&area(), &mut out);
    assert_eq!(out, vec![(Point { x: 50, y: 50 }, 2)]);
    let mut wide = Vec::new();
    q.query_point(&BoundingBox::new(-1, -1, 102, 102), &mut wide);
    assert_eq!(wide.len(), 4);
}

#[test]
fn grid_sampling_routes_every_point_into_a_quadrant() {
    let b = BoundingBox::new(0, 0, 7, 5);
    for x in -2..10i64 {
        for y in -2..8i64 {
            let p = Point { x, y };
            let mut q: Quadtree<u8> = Quadtree::new(b, 1);
            q.insert(Point { x: 3, y: 2 }, 0);
            assert_eq!(q.insert(p, 1), b.contains(p));
            if b.contains(p) {
                let i = b.get_quadrant(p);
                assert!(b.quadrant(i).contains(p));
            }
        }
    }
}

#[test]
fn query_skips_far_regions() {
    let mut q: Quadtree<usize> = Quadtree::new(area(), 1);
    q.insert(Point { x: 10, y: 10 }, 0);
    q.insert(Point { x: 90, y: 90 }, 1);
    q.insert(Point { x: 20, y: 20 }, 2);
    let mut out = Vec::new();
    q.query_point(&BoundingBox::new(80, 80, 15, 15), &mut out);
    assert_eq!(out, vec![(Point { x: 90, y: 90 }, 1)]);
}
