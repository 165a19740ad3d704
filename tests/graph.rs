use treegen::geometry::Point;
use treegen::node::{NodeGraph, Rgb};
use treegen::quadtree::HasPoint;
use treegen::tree::Tree;

#[test]
fn root_starts_at_bottom_middle_and_child_at_its_end() {
    let mut g = NodeGraph::new();
    let root = g.add_node(None, 30_000, 0, 5);
    assert_eq!(root, 0);
    assert_eq!(g.nodes[0].point, Point { x: 200_000, y: 800_000 });
    let child = g.add_node(Some(root), 10_000, 1571, 5);
    assert_eq!(child, 1);
    assert_eq!(g.nodes[1].point, Point { x: 200_000, y: 770_000 });
    assert_eq!(g.nodes[1].next_point(), Point { x: 210_000, y: 770_000 });
    assert_eq!(g.nodes[0].children_indices, vec![1]);
}

#[test]
fn children_lists_match_parents() {
    let mut t = Tree::new();
    let r = t.add_node(None, 1000, 0, 1);
    let a = t.add_node(Some(r), 1000, 100, 1);
    let b = t.add_node(Some(r), 1000, -100, 1);
    let c = t.add_node(Some(a), 1000, 0, 1);
    let n = &t.nodes.nodes;
    assert_eq!(n[r].children_indices, vec![a, b]);
    assert_eq!(n[a].children_indices, vec![c]);
    assert!(n[b].children_indices.is_empty());
    for (i, node) in n.iter().enumerate() {
        let listed: Vec<usize> =
            (0..n.len()).filter(|&j| n[j].parent_index == Some(i)).collect();
        assert_eq!(node.children_indices, listed);
    }
    let roots = n.iter().filter(|x| x.parent_index.is_none()).count();
    assert_eq!(roots, 1);
}

#[test]
fn anchors_are_indexed() {
    let mut g = NodeGraph::new();
    g.add_node(None, 30_000, 0, 5);
    g.add_node(Some(0), 30_000, 0, 5);
    let mut out = Vec::new();
    g.quadtree.query_point(&treegen::geometry::BoundingBox::new(190_000, 760_000, 20_000, 20_000), &mut out);
    assert_eq!(out, vec![(Point { x: 200_000, y: 770_000 }, 1)]);
}

#[test]
fn walk_visits_siblings_in_reverse_order() {
    let mut g = NodeGraph::new();
    let r = g.add_node(None, 1000, 0, 1);
    let a = g.add_node(Some(r), 1000, 0, 1);
    let b = g.add_node(Some(r), 1000, 0, 1);
    let c = g.add_node(Some(a), 1000, 0, 1);
    let mut it = g.iter(r);
    let mut order = Vec::new();
    while let Some(id) = it.next() {
        order.push(id);
    }
    assert_eq!(order, vec![r, b, a, c]);
}

#[test]
fn tips_are_nodes_with_non_negative_thickness() {
    let mut t = Tree::new();
    t.add_node(None, 1000, 0, 3);
    t.add_node(Some(0), 1000, 0, -1);
    t.add_node(Some(0), 1000, 0, 0);
    assert_eq!(t.get_tip_nodes(), vec![0, 2]);
}

#[test]
fn set_color_touches_only_the_colour() {
    let mut g = NodeGraph::new();
    g.add_node(None, 1000, 0, 3);
    let c = Rgb { red: 1, green: 2, blue: 3 };
    g.set_color(0, c);
    assert_eq!(g.nodes[0].color, Some(c));
    assert_eq!(g.nodes[0].thickness, 3);
}

#[test]
fn traverse_lists_subtree_in_creation_order() {
    let mut g = NodeGraph::default();
    let r = g.add_node(None, 1000, 0, 1);
    let a = g.add_node(Some(r), 1000, 0, 1);
    let b = g.add_node(Some(r), 1000, 0, 1);
    let c = g.add_node(Some(a), 1000, 0, 1);
    let mut out = vec![99];
    g.traverse(r, &mut out);
    assert_eq!(out, vec![99, r, a, c, b]);
    let mut sub = Vec::new();
    g.traverse(a, &mut sub);
    assert_eq!(sub, vec![a, c]);
}

#[test]
fn node_position_is_its_anchor() {
    let mut g = NodeGraph::new();
    g.add_node(None, 1000, 0, 1);
    assert_eq!(HasPoint::point(&g.nodes[0]), Point { x: 200_000, y: 800_000 });
}

#[test]
fn point_distances_round_down() {
    let o = Point::new(0, 0);
    let p = Point::new(3, 4);
    assert_eq!(o.distance(p), 5);
    assert_eq!(p.magnitude(), 5);
    assert_eq!(Point::new(1, 1).magnitude(), 1);
    assert_eq!(Point::new(0, 1000).normalize(), Point::new(0, 1000));
    assert_eq!(Point::new(3000, -4000).normalize(), Point::new(600, -800));
    assert_eq!(Point::new(0, 0).normalize(), Point::new(0, 0));
}

#[test]
fn point_to_segment_distances() {
    let v = (Point::new(0, 0), Point::new(0, 10));
    // beyond the far end: the distance to that end
    assert_eq!(Point::new(0, 20).point_line_distance(v), 10);
    // before the near end
    assert_eq!(Point::new(3, -4).point_line_distance(v), 5);
    // beside the segment: the perpendicular distance
    assert_eq!(Point::new(3, 4).point_line_distance((Point::new(0, 0), Point::new(10, 0))), 4);
    assert_eq!(Point::new(0, 10).point_line_distance((Point::new(0, 0), Point::new(6, 8))), 6);
    // the segment from (0, 0) to (2, 2) and the point (0, 2): sqrt(2) rounds down
    assert_eq!(Point::new(0, 2).point_line_distance((Point::new(0, 0), Point::new(2, 2))), 1);
    // a segment of one point
    assert_eq!(Point::new(6, 8).point_line_distance((Point::new(0, 0), Point::new(0, 0))), 10);
}

#[test]
fn integer_square_roots() {
    assert_eq!(treegen::geometry::isqrt(0), 0);
    assert_eq!(treegen::geometry::isqrt(15), 3);
    assert_eq!(treegen::geometry::isqrt(16), 4);
    assert_eq!(treegen::geometry::isqrt(u128::MAX), u64::MAX);
}
