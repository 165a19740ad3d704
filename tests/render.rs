use treegen::geometry::Point;
use treegen::node::{NodeGraph, Rgb};
use treegen::render::{PolygonRenderer, Renderer};
use treegen::tree::Tree;

#[test]
fn node_colour_falls_back_to_heading() {
    let mut g = NodeGraph::new();
    g.add_node(None, 1000, 0, 4);
    g.add_node(Some(0), 1000, -500, 4);
    g.add_node(Some(0), 1000, 2000, 4);
    assert_eq!(PolygonRenderer::get_color_for_node(&g.nodes[0]), Rgb { red: 10, green: 0, blue: 10 });
    assert_eq!(PolygonRenderer::get_color_for_node(&g.nodes[1]), Rgb { red: 127, green: 0, blue: 127 });
    assert_eq!(PolygonRenderer::get_color_for_node(&g.nodes[2]), Rgb { red: 255, green: 0, blue: 255 });
    let c = Rgb { red: 1, green: 2, blue: 3 };
    g.set_color(1, c);
    assert_eq!(PolygonRenderer::get_color_for_node(&g.nodes[1]), c);
}

#[test]
fn upright_node_is_a_vertical_rectangle() {
    let mut t = Tree::new();
    t.add_node(None, 30_000, 0, 4_000);
    let shapes = PolygonRenderer.render_tree(&t);
    assert_eq!(shapes.len(), 1);
    let (a, b, c, d) = shapes[0].corners;
    assert_eq!(a, Point { x: 202_000, y: 800_000 });
    assert_eq!(b, Point { x: 198_000, y: 800_000 });
    assert_eq!(c, Point { x: 198_000, y: 770_000 });
    assert_eq!(d, Point { x: 202_000, y: 770_000 });
}

#[test]
fn shapes_follow_a_depth_first_walk() {
    let mut t = Tree::new();
    let r = t.add_node(None, 1000, 0, 2);
    let a = t.add_node(Some(r), 1000, 0, 2);
    let b = t.add_node(Some(r), 1000, 0, 2);
    let c = t.add_node(Some(a), 1000, 0, 2);
    let c_color = Rgb { red: 9, green: 9, blue: 9 };
    t.nodes.set_color(c, c_color);
    let b_color = Rgb { red: 7, green: 7, blue: 7 };
    t.nodes.set_color(b, b_color);
    let shapes = PolygonRenderer.render_tree(&t);
    assert_eq!(shapes.len(), 4);
    // order r, a, c, b
    assert_eq!(shapes[2].color, c_color);
    assert_eq!(shapes[3].color, b_color);
}
