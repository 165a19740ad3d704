//! What a renderer draws for a tree: one filled quadrilateral per node.
use vstd::prelude::*;
use crate::fixed::{cos, cos_ppm, sin, sin_ppm, PPM, VALUE_MAX, div_floor};
use crate::geometry::Point;
use crate::node::{Node, Rgb, lemma_preorder_in_range, preorder};
use crate::tree::Tree;

verus! {

/// Draws each node as a rectangle along its segment, as wide as its thickness.
#[derive(Debug)]
pub struct PolygonRenderer;

/// A filled quadrilateral with its colour; corners in drawing order.
#[derive(Debug, Clone, Copy)]
pub struct Shape {
    pub corners: (Point, Point, Point, Point),
    pub color: Rgb,
}

/// `p` moved by `k` times the unit vector `(ux, uy)` given in parts per million.
pub open spec fn offset(p: Point, ux: int, uy: int, k: int) -> Point {
    Point { x: (p.x + (ux * k) / (PPM as int)) as i64, y: (p.y + (uy * k) / (PPM as int)) as i64 }
}

/// The rectangle of a node: its start and end point pushed sideways, along
/// `(cos(angle), sin(angle))`, by half the thickness each way.
pub open spec fn node_corners(n: Node) -> (Point, Point, Point, Point) {
    let ux = cos_ppm(n.angle as int);
    let uy = sin_ppm(n.angle as int);
    let h = n.thickness / 2;
    let e = n.spec_next_point();
    (offset(n.point, ux, uy, h), offset(n.point, ux, uy, -h), offset(e, ux, uy, -h), offset(e, ux, uy, h))
}

/// A node's own colour, or else a purple whose level grows with the size of
/// the heading: `|angle| * 255` (angle in radians), kept within `[10, 255]`.
pub open spec fn node_color(n: Node) -> Rgb {
    match n.color {
        Some(c) => c,
        None => {
            let a = if n.angle < 0 { -n.angle } else { n.angle as int };
            let v = (a * 255) / 1000;
            let level = if v < 10 { 10 } else if v > 255 { 255 } else { v };
            Rgb { red: level as u8, green: 0, blue: level as u8 }
        },
    }
}

/// A node a renderer can draw: well formed, with a bounded thickness.
pub open spec fn drawable(n: Node) -> bool {
    &&& n.wf()
    &&& -VALUE_MAX <= n.thickness <= VALUE_MAX
}

fn shift(p: Point, ux: i64, uy: i64, k: i64) -> (r: Point)
    requires
        -PPM <= ux <= PPM,
        -PPM <= uy <= PPM,
        -VALUE_MAX <= k <= VALUE_MAX,
        -2_000_000_000_000_000 <= p.x <= 2_000_000_000_000_000,
        -2_000_000_000_000_000 <= p.y <= 2_000_000_000_000_000,
    ensures
        r == offset(p, ux as int, uy as int, k as int),
{
    assert(-PPM * VALUE_MAX <= ux * k <= PPM * VALUE_MAX) by (nonlinear_arith)
        requires
            -PPM <= ux <= PPM,
            -VALUE_MAX <= k <= VALUE_MAX,
    ;
    assert(-PPM * VALUE_MAX <= uy * k <= PPM * VALUE_MAX) by (nonlinear_arith)
        requires
            -PPM <= uy <= PPM,
            -VALUE_MAX <= k <= VALUE_MAX,
    ;
    let dx = div_floor(ux * k, PPM);
    let dy = div_floor(uy * k, PPM);
    proof {
        vstd::arithmetic::div_mod::lemma_div_is_ordered((ux * k) as int, PPM * VALUE_MAX, PPM as int);
        vstd::arithmetic::div_mod::lemma_div_is_ordered(-PPM * VALUE_MAX, (ux * k) as int, PPM as int);
        vstd::arithmetic::div_mod::lemma_div_is_ordered((uy * k) as int, PPM * VALUE_MAX, PPM as int);
        vstd::arithmetic::div_mod::lemma_div_is_ordered(-PPM * VALUE_MAX, (uy * k) as int, PPM as int);
        vstd::arithmetic::div_mod::lemma_div_multiples_vanish(VALUE_MAX as int, PPM as int);
        vstd::arithmetic::div_mod::lemma_div_multiples_vanish(-VALUE_MAX, PPM as int);
    }
    Point { x: p.x + dx, y: p.y + dy }
}

/// Turns the nodes of a tree into shapes to draw.
pub trait Renderer {
    /// The colour a node is drawn in.
    fn get_color_for_node(node: &Node) -> Rgb;

    /// The shape a node is drawn as.
    fn render_node(&self, node: &Node) -> Shape
        requires
            drawable(*node),
    ;

    /// One shape per node reached by a depth-first walk from the root.
    fn render_tree(&self, tree: &Tree) -> (r: Vec<Shape>)
        requires
            tree.wf(),
            forall|i: int| 0 <= i < tree.size() ==> drawable(#[trigger] tree.nodes.nodes@[i]),
        ensures
            r@.len() == preorder(tree.nodes.nodes@, 0).len(),
    ;
}

impl Renderer for PolygonRenderer {
    fn get_color_for_node(node: &Node) -> (r: Rgb)
        ensures
            r == node_color(*node),
    {
        match node.color {
            Some(c) => c,
            None => {
                let a: i64 = if node.angle < 0 {
                    if node.angle < -1_000_000_000 { 1_000_000_000 } else { -node.angle }
                } else {
                    if node.angle > 1_000_000_000 { 1_000_000_000 } else { node.angle }
                };
                proof {
                    let full = if node.angle < 0 { -node.angle } else { node.angle as int };
                    if full > 1_000_000_000 {
                        vstd::arithmetic::div_mod::lemma_div_is_ordered(255_000_000_000, full * 255, 1000);
                    }
                }
                let v = a * 255 / 1000;
                let level: u8 = if v < 10 { 10 } else if v > 255 { 255 } else { v as u8 };
                Rgb { red: level, green: 0, blue: level }
            },
        }
    }

    /// The rectangle a node is drawn as.
    fn render_node(&self, node: &Node) -> (r: Shape)
        ensures
            r.corners == node_corners(*node),
            r.color == node_color(*node),
    {
        let ux = cos(node.angle);
        let uy = sin(node.angle);
        let h = div_floor(node.thickness, 2);
        let e = node.next_point();
        Shape {
            corners: (
                shift(node.point, ux, uy, h),
                shift(node.point, ux, uy, -h),
                shift(e, ux, uy, -h),
                shift(e, ux, uy, h),
            ),
            color: Self::get_color_for_node(node),
        }
    }

    /// The shapes of the nodes in pre-order from the root (node 0): every
    /// node is drawn after its parent, each child's subtree in turn.
    fn render_tree(&self, tree: &Tree) -> (r: Vec<Shape>)
        ensures
            forall|k: int|
                0 <= k < r@.len() ==> (#[trigger] r@[k]).corners == node_corners(
                    tree.nodes.nodes@[preorder(tree.nodes.nodes@, 0)[k] as int],
                ) && r@[k].color == node_color(
                    tree.nodes.nodes@[preorder(tree.nodes.nodes@, 0)[k] as int],
                ),
    {
        let mut r: Vec<Shape> = Vec::new();
        let ghost nodes = tree.nodes.nodes@;
        let mut ids: Vec<usize> = Vec::new();
        if tree.nodes.nodes.len() == 0 {
            assert(preorder(nodes, 0) == Seq::<usize>::empty());
            return r;
        }
        proof {
            reveal(Tree::wf);
            assert(nodes.len() == tree.nodes.nodes.len());
        }
        tree.nodes.traverse(0, &mut ids);
        proof {
            assert(ids@ =~= preorder(nodes, 0));
            lemma_preorder_in_range(nodes, 0);
        }
        let mut k: usize = 0;
        while k < ids.len()
            invariant
                ids@ == preorder(nodes, 0),
                nodes == tree.nodes.nodes@,
                k <= ids@.len(),
                r@.len() == k,
                forall|m: int| 0 <= m < ids@.len() ==> #[trigger] ids@[m] < nodes.len(),
                forall|i: int| 0 <= i < nodes.len() ==> drawable(#[trigger] nodes[i]),
                forall|m: int|
                    0 <= m < k ==> (#[trigger] r@[m]).corners == node_corners(nodes[ids@[m] as int])
                        && r@[m].color == node_color(nodes[ids@[m] as int]),
            decreases ids@.len() - k,
        {
            let id = ids[k];
            assert(id < nodes.len());
            let s = self.render_node(&tree.nodes.nodes[id]);
            r.push(s);
            k += 1;
        }
        r
    }
}

} // verus!
