//! Growth segments and the arena graph that holds them.
use vstd::prelude::*;
use vstd::multiset::Multiset;
use crate::fixed::{
    clamp, cos, cos_ppm, sin, sin_ppm, COORD_MAX, LENGTH_MAX, PPM, SCALE, div_floor,
};
use crate::geometry::{BoundingBox, Point};
use crate::quadtree::Quadtree;

verus! {

broadcast use vstd::seq_lib::group_to_multiset_ensures;

/// Canvas width in pixels.
pub const WIDTH: i64 = 400;

/// Canvas height in pixels.
pub const HEIGHT: i64 = 800;

/// Capacity of each region of a graph's spatial index.
pub const INDEX_CAPACITY: usize = 4;

/// A colour with 8-bit channels.
#[derive(Debug, Clone, Copy, PartialEq, Eq, Structural)]
pub struct Rgb {
    pub red: u8,
    pub green: u8,
    pub blue: u8,
}

/// One growth segment. It starts at `point`, runs `length` long in the
/// direction `angle` (milliradians clockwise from straight up) and is
/// `thickness` wide.
#[derive(Debug, Clone)]
pub struct Node {
    pub parent_index: Option<usize>,
    pub children_indices: Vec<usize>,
    pub point: Point,
    pub length: i64,
    pub angle: i64,
    pub thickness: i64,
    pub color: Option<Rgb>,
}

/// The end of a segment from `anchor`, `length` long in direction `angle`:
/// `anchor + length * (sin(angle), -cos(angle))`, clamped to the coordinate range.
pub open spec fn end_of(anchor: Point, length: int, angle: int) -> Point {
    Point {
        x: clamp(anchor.x + (length * sin_ppm(angle)) / (PPM as int), -COORD_MAX, COORD_MAX as int) as i64,
        y: clamp(anchor.y - (length * cos_ppm(angle)) / (PPM as int), -COORD_MAX, COORD_MAX as int) as i64,
    }
}

/// Where a parentless node starts: the middle of the canvas's bottom edge.
pub open spec fn root_anchor() -> Point {
    Point { x: (WIDTH * SCALE / 2) as i64, y: (HEIGHT * SCALE) as i64 }
}

/// The region a graph indexes: the canvas.
pub open spec fn canvas() -> BoundingBox {
    BoundingBox { x: 0, y: 0, width: (WIDTH * SCALE) as i64, height: (HEIGHT * SCALE) as i64 }
}

impl Node {
    pub open spec fn wf(self) -> bool {
        &&& -COORD_MAX <= self.point.x <= COORD_MAX
        &&& -COORD_MAX <= self.point.y <= COORD_MAX
        &&& -LENGTH_MAX <= self.length <= LENGTH_MAX
    }

    pub open spec fn spec_next_point(self) -> Point {
        end_of(self.point, self.length as int, self.angle as int)
    }

    /// The segment's end point.
    pub fn next_point(&self) -> (r: Point)
        requires
            self.wf(),
        ensures
            r == self.spec_next_point(),
    {
        let s = sin(self.angle);
        let c = cos(self.angle);
        assert(-LENGTH_MAX * PPM <= self.length * s <= LENGTH_MAX * PPM) by (nonlinear_arith)
            requires
                -LENGTH_MAX <= self.length <= LENGTH_MAX,
                -PPM <= s <= PPM,
        ;
        assert(-LENGTH_MAX * PPM <= self.length * c <= LENGTH_MAX * PPM) by (nonlinear_arith)
            requires
                -LENGTH_MAX <= self.length <= LENGTH_MAX,
                -PPM <= c <= PPM,
        ;
        let dx = div_floor(self.length * s, PPM);
        let dy = div_floor(self.length * c, PPM);
        proof {
            vstd::arithmetic::div_mod::lemma_div_is_ordered(
                (self.length * s) as int,
                LENGTH_MAX * PPM,
                PPM as int,
            );
            vstd::arithmetic::div_mod::lemma_div_is_ordered(
                -LENGTH_MAX * PPM,
                (self.length * s) as int,
                PPM as int,
            );
            vstd::arithmetic::div_mod::lemma_div_is_ordered(
                (self.length * c) as int,
                LENGTH_MAX * PPM,
                PPM as int,
            );
            vstd::arithmetic::div_mod::lemma_div_is_ordered(
                -LENGTH_MAX * PPM,
                (self.length * c) as int,
                PPM as int,
            );
            vstd::arithmetic::div_mod::lemma_div_multiples_vanish(LENGTH_MAX as int, PPM as int);
            vstd::arithmetic::div_mod::lemma_div_multiples_vanish(-LENGTH_MAX, PPM as int);
        }
        Point { x: clamp_coord(self.point.x + dx), y: clamp_coord(self.point.y - dy) }
    }

    /// Sets the colour that overrides the angle-derived one.
    pub fn set_color(&mut self, color: Rgb)
        ensures
            final(self).color == Some(color),
            final(self).parent_index == old(self).parent_index,
            final(self).children_indices@ == old(self).children_indices@,
            final(self).point == old(self).point,
            final(self).length == old(self).length,
            final(self).angle == old(self).angle,
            final(self).thickness == old(self).thickness,
    {
        self.color = Some(color);
    }
}

fn clamp_coord(v: i64) -> (r: i64)
    ensures
        r == clamp(v as int, -COORD_MAX, COORD_MAX as int),
{
    if v < -COORD_MAX {
        -COORD_MAX
    } else if v > COORD_MAX {
        COORD_MAX
    } else {
        v
    }
}

/// The arena of nodes, in creation order (a node's id is its position), with
/// a spatial index from anchor points to ids.
#[derive(Debug)]
pub struct NodeGraph {
    pub nodes: Vec<Node>,
    pub quadtree: Quadtree<usize>,
}

/// The `(anchor, id)` entries that the index holds for `nodes`: one for
/// each node whose anchor lies on the canvas.
pub open spec fn indexed(nodes: Seq<Node>) -> Multiset<(Point, usize)>
    decreases nodes.len(),
{
    if nodes.len() == 0 {
        Multiset::empty()
    } else {
        let last = (nodes.len() - 1) as int;
        let rest = indexed(nodes.drop_last());
        if canvas().spec_contains(nodes[last].point) {
            rest.insert((nodes[last].point, last as usize))
        } else {
            rest
        }
    }
}

/// The index depends on the anchors alone.
proof fn lemma_indexed_points(a: Seq<Node>, b: Seq<Node>)
    requires
        a.len() == b.len(),
        forall|i: int| 0 <= i < a.len() ==> (#[trigger] a[i]).point == b[i].point,
    ensures
        indexed(a) == indexed(b),
    decreases a.len(),
{
    if a.len() > 0 {
        lemma_indexed_points(a.drop_last(), b.drop_last());
    }
}

/// Node `c` is the child of node `p`.
pub open spec fn is_child(nodes: Seq<Node>, p: int, c: int) -> bool {
    nodes[c].parent_index == Some(p as usize)
}

/// Every node is well formed.
pub open spec fn nodes_bounded(nodes: Seq<Node>) -> bool {
    forall|i: int| 0 <= i < nodes.len() ==> (#[trigger] nodes[i]).wf()
}

/// Each parent was created before its child, and a child starts at its
/// parent's end point.
pub open spec fn parents_before(nodes: Seq<Node>) -> bool {
    forall|i: int|
        0 <= i < nodes.len() && (#[trigger] nodes[i]).parent_index is Some ==> {
            let p = nodes[i].parent_index.unwrap() as int;
            &&& p < i
            &&& nodes[i].point == nodes[p].spec_next_point()
        }
}

/// A parentless node starts at the root anchor.
pub open spec fn roots_anchored(nodes: Seq<Node>) -> bool {
    forall|i: int|
        0 <= i < nodes.len() && (#[trigger] nodes[i]).parent_index is None ==> nodes[i].point
            == root_anchor()
}

/// Each listed child exists and names the node as its parent.
pub open spec fn children_point_back(nodes: Seq<Node>) -> bool {
    forall|i: int, k: int|
        0 <= i < nodes.len() && 0 <= k < nodes[i].children_indices@.len() ==> {
            let c = #[trigger] nodes[i].children_indices@[k] as int;
            &&& c < nodes.len()
            &&& is_child(nodes, i, c)
        }
}

/// Each children list is in increasing order.
pub open spec fn children_sorted(nodes: Seq<Node>) -> bool {
    forall|i: int, a: int, b: int|
        0 <= i < nodes.len() && 0 <= a < b < nodes[i].children_indices@.len()
            ==> #[trigger] nodes[i].children_indices@[a] < #[trigger] nodes[i].children_indices@[b]
}

/// Each node is listed among its parent's children.
pub open spec fn parents_list_children(nodes: Seq<Node>) -> bool {
    forall|c: int|
        0 <= c < nodes.len() && (#[trigger] nodes[c].parent_index) is Some ==> nodes[nodes[c].parent_index.unwrap() as int].children_indices@.contains(
            c as usize,
        )
}

/// The graph invariant over the node sequence: every node is well formed;
/// each parent was created before its child, and a child starts at its
/// parent's end point; a parentless node starts at the root anchor; and each
/// node's children list holds, in increasing order, exactly the ids of the
/// nodes whose parent it is.
pub open spec fn nodes_wf(nodes: Seq<Node>) -> bool {
    &&& nodes_bounded(nodes)
    &&& parents_before(nodes)
    &&& roots_anchored(nodes)
    &&& children_point_back(nodes)
    &&& children_sorted(nodes)
    &&& parents_list_children(nodes)
}

/// `b` is `a` with the fields of every node kept, except that children may
/// have been appended to each children list, and nodes may have been added.
pub open spec fn extends(a: Seq<Node>, b: Seq<Node>) -> bool {
    &&& a.len() <= b.len()
    &&& forall|i: int|
        0 <= i < a.len() ==> {
            &&& (#[trigger] b[i]).parent_index == a[i].parent_index
            &&& b[i].point == a[i].point
            &&& b[i].length == a[i].length
            &&& b[i].angle == a[i].angle
            &&& b[i].thickness == a[i].thickness
            &&& b[i].color == a[i].color
            &&& a[i].children_indices@.is_prefix_of(b[i].children_indices@)
        }
}

/// Extension is transitive.
pub proof fn lemma_extends_trans(a: Seq<Node>, b: Seq<Node>, c: Seq<Node>)
    requires
        extends(a, b),
        extends(b, c),
    ensures
        extends(a, c),
{
    assert forall|i: int| 0 <= i < a.len() implies a[i].children_indices@.is_prefix_of(
        (#[trigger] c[i]).children_indices@,
    ) by {
        assert(a[i].children_indices@.is_prefix_of(b[i].children_indices@));
        assert(b[i].children_indices@.is_prefix_of(c[i].children_indices@));
        assert forall|k: int| 0 <= k < a[i].children_indices@.len() implies a[i].children_indices@[k]
            == c[i].children_indices@[k] by {
            assert(a[i].children_indices@[k] == b[i].children_indices@[k]);
        }
    }
}

/// Exactly one node, the first, has no parent.
pub open spec fn single_root(nodes: Seq<Node>) -> bool {
    &&& nodes.len() > 0
    &&& nodes[0].parent_index is None
    &&& forall|i: int| 0 < i < nodes.len() ==> (#[trigger] nodes[i]).parent_index is Some
}

/// `parent` is the id `i`.
pub open spec fn names(parent: Option<usize>, i: int) -> bool {
    parent matches Some(p) && p as int == i
}

/// `b` is `a` with one node appended, whose anchor follows from its parent,
/// and with its id appended to that parent's children.
pub open spec fn appended(a: Seq<Node>, b: Seq<Node>, parent: Option<usize>) -> bool {
    &&& b.len() == a.len() + 1
    &&& b.len() <= usize::MAX
    &&& parent matches Some(p) ==> p < a.len()
    &&& b[a.len() as int].wf()
    &&& b[a.len() as int].parent_index == parent
    &&& b[a.len() as int].children_indices@ == Seq::<usize>::empty()
    &&& b[a.len() as int].point == (match parent {
        Some(p) => a[p as int].spec_next_point(),
        None => root_anchor(),
    })
    &&& forall|i: int|
        0 <= i < a.len() ==> {
            &&& (#[trigger] b[i]).parent_index == a[i].parent_index
            &&& b[i].point == a[i].point
            &&& b[i].length == a[i].length
            &&& b[i].angle == a[i].angle
            &&& b[i].thickness == a[i].thickness
            &&& b[i].color == a[i].color
        }
    &&& forall|i: int|
        0 <= i < a.len() && !names(parent, i) ==> (#[trigger] b[i]).children_indices@
            == a[i].children_indices@
    &&& parent matches Some(p) ==> b[p as int].children_indices@
        == a[p as int].children_indices@.push(a.len() as usize)
}

/// The children list of an earlier node after the append.
proof fn lemma_appended_list(a: Seq<Node>, b: Seq<Node>, parent: Option<usize>, i: int)
    requires
        appended(a, b, parent),
        0 <= i < b.len(),
    ensures
        i < a.len() && names(parent, i) ==> b[i].children_indices@
            == a[i].children_indices@.push(a.len() as usize),
        i < a.len() && !names(parent, i) ==> b[i].children_indices@
            == a[i].children_indices@,
        i == a.len() ==> b[i].children_indices@ == Seq::<usize>::empty(),
{
}

proof fn lemma_appended_bounded(a: Seq<Node>, b: Seq<Node>, parent: Option<usize>)
    requires
        nodes_bounded(a),
        appended(a, b, parent),
    ensures
        nodes_bounded(b),
{
    assert forall|i: int| 0 <= i < b.len() implies (#[trigger] b[i]).wf() by {
        if i < a.len() {
            assert(a[i].wf());
        }
    }
}

proof fn lemma_appended_parents(a: Seq<Node>, b: Seq<Node>, parent: Option<usize>)
    requires
        parents_before(a),
        roots_anchored(a),
        appended(a, b, parent),
    ensures
        parents_before(b),
        roots_anchored(b),
{
    let n = a.len() as int;
    assert forall|i: int|
        0 <= i < b.len() && (#[trigger] b[i]).parent_index is Some implies {
            let p = b[i].parent_index.unwrap() as int;
            &&& p < i
            &&& b[i].point == b[p].spec_next_point()
        } by {
        if i < n {
            assert(a[i].parent_index is Some);
        }
    }
    assert forall|i: int|
        0 <= i < b.len() && (#[trigger] b[i]).parent_index is None implies b[i].point
            == root_anchor() by {
        if i < n {
            assert(a[i].parent_index is None);
        }
    }
}

proof fn lemma_appended_children(a: Seq<Node>, b: Seq<Node>, parent: Option<usize>)
    requires
        children_point_back(a),
        children_sorted(a),
        appended(a, b, parent),
    ensures
        children_point_back(b),
        children_sorted(b),
{
    let n = a.len() as int;
    assert forall|i: int, k: int|
        0 <= i < b.len() && 0 <= k < b[i].children_indices@.len() implies {
            let c = #[trigger] b[i].children_indices@[k] as int;
            &&& c < b.len()
            &&& is_child(b, i, c)
        } by {
        if i < n {
            lemma_appended_list(a, b, parent, i);
            if k < a[i].children_indices@.len() {
                assert(a[i].children_indices@[k] == b[i].children_indices@[k]);
            }
        }
    }
    assert forall|i: int, x: int, y: int|
        0 <= i < b.len() && 0 <= x < y < b[i].children_indices@.len() implies #[trigger] b[i].children_indices@[x]
            < #[trigger] b[i].children_indices@[y] by {
        if i < n {
            lemma_appended_list(a, b, parent, i);
            assert(a[i].children_indices@[x] == b[i].children_indices@[x]);
            if y < a[i].children_indices@.len() {
                assert(a[i].children_indices@[y] == b[i].children_indices@[y]);
            } else {
                let c = a[i].children_indices@[x] as int;
                assert(c < a.len());
            }
        }
    }
}

proof fn lemma_appended_listed(a: Seq<Node>, b: Seq<Node>, parent: Option<usize>)
    requires
        parents_list_children(a),
        parents_before(a),
        appended(a, b, parent),
    ensures
        parents_list_children(b),
{
    let n = a.len() as int;
    assert forall|c: int|
        0 <= c < b.len() && (#[trigger] b[c].parent_index) is Some implies b[b[c].parent_index.unwrap() as int].children_indices@.contains(
        c as usize,
    ) by {
        let q = b[c].parent_index.unwrap() as int;
        if c < n {
            assert(a[c].parent_index is Some);
            lemma_appended_list(a, b, parent, q);
            assert(a[q].children_indices@.contains(c as usize));
            let k = choose|k: int|
                0 <= k < a[q].children_indices@.len() && a[q].children_indices@[k] == c;
            assert(b[q].children_indices@[k] == c);
        } else {
            lemma_appended_list(a, b, parent, q);
            assert(b[q].children_indices@.last() == c);
        }
    }
}

proof fn lemma_appended_extends(a: Seq<Node>, b: Seq<Node>, parent: Option<usize>)
    requires
        appended(a, b, parent),
    ensures
        extends(a, b),
{
    assert forall|i: int| 0 <= i < a.len() implies a[i].children_indices@.is_prefix_of(
        (#[trigger] b[i]).children_indices@,
    ) by {
        lemma_appended_list(a, b, parent, i);
        assert(a[i].children_indices@ == b[i].children_indices@.subrange(
            0,
            a[i].children_indices@.len() as int,
        ));
    }
}

/// Appending a node whose anchor follows from its parent, and appending its
/// id to that parent's children, keeps the graph invariant.
proof fn lemma_add_node(a: Seq<Node>, b: Seq<Node>, parent: Option<usize>)
    requires
        nodes_wf(a),
        b.len() == a.len() + 1,
        b.len() <= usize::MAX,
        parent matches Some(p) ==> p < a.len(),
        b[a.len() as int].wf(),
        b[a.len() as int].parent_index == parent,
        b[a.len() as int].children_indices@ == Seq::<usize>::empty(),
        b[a.len() as int].point == (match parent {
            Some(p) => a[p as int].spec_next_point(),
            None => root_anchor(),
        }),
        forall|i: int|
            0 <= i < a.len() ==> {
                &&& (#[trigger] b[i]).parent_index == a[i].parent_index
                &&& b[i].point == a[i].point
                &&& b[i].length == a[i].length
                &&& b[i].angle == a[i].angle
                &&& b[i].thickness == a[i].thickness
                &&& b[i].color == a[i].color
            },
        forall|i: int|
            0 <= i < a.len() && !names(parent, i) ==> (#[trigger] b[i]).children_indices@
                == a[i].children_indices@,
        parent matches Some(p) ==> b[p as int].children_indices@ == a[p as int].children_indices@.push(
            a.len() as usize,
        ),
    ensures
        nodes_wf(b),
        extends(a, b),
{
    assert(appended(a, b, parent));
    lemma_appended_bounded(a, b, parent);
    lemma_appended_parents(a, b, parent);
    lemma_appended_children(a, b, parent);
    lemma_appended_listed(a, b, parent);
    lemma_appended_extends(a, b, parent);
}

impl NodeGraph {
    pub open spec fn wf(self) -> bool {
        &&& nodes_wf(self.nodes@)
        &&& self.quadtree.wf()
        &&& self.quadtree.boundary == canvas()
        &&& self.quadtree.entries().to_multiset() == indexed(self.nodes@)
    }

    /// An empty graph whose index covers the canvas.
    pub fn new() -> (r: NodeGraph)
        ensures
            r.wf(),
            r.nodes@.len() == 0,
            r.quadtree.capacity == INDEX_CAPACITY,
            r.quadtree.children is None,
            r.quadtree.points@.len() == 0,
    {
        let boundary = BoundingBox { x: 0, y: 0, width: WIDTH * SCALE, height: HEIGHT * SCALE };
        let g = NodeGraph { nodes: Vec::new(), quadtree: Quadtree::new(boundary, INDEX_CAPACITY) };
        assert(indexed(g.nodes@) == Multiset::<(Point, usize)>::empty());
        assert(g.quadtree.entries().to_multiset() == Multiset::<(Point, usize)>::empty());
        assert(nodes_wf(g.nodes@));
        g
    }

    /// Appends a node and returns its id. It starts at the end point of
    /// `parent_index`, or at the root anchor when there is none; it is
    /// indexed by its anchor when that lies on the canvas, and it is
    /// appended to its parent's children.
    pub fn add_node(
        &mut self,
        parent_index: Option<usize>,
        length: i64,
        angle: i64,
        thickness: i64,
    ) -> (r: usize)
        requires
            old(self).wf(),
            parent_index matches Some(p) ==> p < old(self).nodes@.len(),
            -LENGTH_MAX <= length <= LENGTH_MAX,
        ensures
            final(self).wf(),
            r == old(self).nodes@.len(),
            final(self).nodes@.len() == r + 1,
            extends(old(self).nodes@, final(self).nodes@),
            final(self).nodes@[r as int].parent_index == parent_index,
            final(self).nodes@[r as int].children_indices@ == Seq::<usize>::empty(),
            final(self).nodes@[r as int].point == (match parent_index {
                Some(p) => old(self).nodes@[p as int].spec_next_point(),
                None => root_anchor(),
            }),
            final(self).nodes@[r as int].length == length,
            final(self).nodes@[r as int].angle == angle,
            final(self).nodes@[r as int].thickness == thickness,
            final(self).nodes@[r as int].color is None,
            forall|i: int|
                0 <= i < r && !names(parent_index, i)
                    ==> (#[trigger] final(self).nodes@[i]).children_indices@
                    == old(self).nodes@[i].children_indices@,
            parent_index matches Some(p) ==> final(self).nodes@[p as int].children_indices@
                == old(self).nodes@[p as int].children_indices@.push(r),
    {
        let point = match parent_index {
            Some(p) => self.nodes[p].next_point(),
            None => Point { x: WIDTH * SCALE / 2, y: HEIGHT * SCALE },
        };
        let node = Node {
            parent_index,
            children_indices: Vec::new(),
            point,
            length,
            angle,
            thickness,
            color: None,
        };
        let id = self.nodes.len();
        let ghost old_nodes = self.nodes@;
        self.quadtree.insert(point, id);
        self.nodes.push(node);
        proof {
            assert(self.nodes@.drop_last() == old_nodes);
        }
        match parent_index {
            Some(p) => {
                let ghost mid = self.nodes@;
                self.nodes[p].children_indices.push(id);
                proof {
                    lemma_indexed_points(mid, self.nodes@);
                }
            },
            None => {},
        }
        proof {
            assert(self.nodes@.len() == self.nodes.len());
            lemma_add_node(old_nodes, self.nodes@, parent_index);
        }
        id
    }

    /// Sets the colour of node `id`; nothing else changes.
    pub fn set_color(&mut self, id: usize, color: Rgb)
        requires
            old(self).wf(),
            id < old(self).nodes@.len(),
        ensures
            final(self).wf(),
            final(self).nodes@.len() == old(self).nodes@.len(),
            same_but_color(old(self).nodes@, final(self).nodes@),
            forall|i: int|
                0 <= i < old(self).nodes@.len() && i != id ==> (#[trigger] final(self).nodes@[i]).color
                    == old(self).nodes@[i].color,
            final(self).nodes@[id as int].color == Some(color),
    {
        let ghost a = self.nodes@;
        self.nodes[id].set_color(color);
        proof {
            lemma_same_but_color(a, self.nodes@);
            lemma_indexed_points(a, self.nodes@);
        }
    }

    /// Appends to `visited` the ids of the subtree under `start_index` in
    /// pre-order: the node itself, then each child's subtree in creation
    /// order.
    #[verifier::loop_isolation(false)]
    pub fn traverse(&self, start_index: usize, visited: &mut Vec<usize>)
        requires
            self.wf(),
            start_index < self.nodes@.len(),
        ensures
            final(visited)@ == old(visited)@ + preorder(self.nodes@, start_index as int),
        decreases self.nodes@.len() - start_index,
    {
        let ghost base = visited@;
        let ghost nodes = self.nodes@;
        visited.push(start_index);
        let children = &self.nodes[start_index].children_indices;
        proof {
            assert forall|k: int| 0 <= k < children@.len() implies start_index < #[trigger] children@[k]
                < self.nodes@.len() by {
                assert(children_point_back(self.nodes@));
                let c = children@[k] as int;
                assert(is_child(self.nodes@, start_index as int, c));
                assert(parents_before(self.nodes@));
                assert(self.nodes@[c].parent_index is Some);
            }
            assert(preorder_children(nodes, start_index as int, 0) == Seq::<usize>::empty());
            assert(visited@ =~= base + seq![start_index] + preorder_children(nodes, start_index as int, 0));
        }
        let mut i: usize = 0;
        while i < children.len()
            invariant
                i <= children@.len(),
                visited@ == base + seq![start_index] + preorder_children(nodes, start_index as int, i as int),
            decreases children@.len() - i,
        {
            let ghost before = visited@;
            let c = children[i];
            self.traverse(c, visited);
            proof {
                assert(preorder_children(nodes, start_index as int, i + 1) == preorder_children(
                    nodes,
                    start_index as int,
                    i as int,
                ) + preorder(nodes, c as int));
                assert(visited@ =~= base + seq![start_index] + preorder_children(nodes, start_index as int, i + 1));
            }
            i += 1;
        }
        proof {
            assert(preorder(nodes, start_index as int) == seq![start_index] + preorder_children(
                nodes,
                start_index as int,
                children@.len() as int,
            ));
            assert(visited@ =~= base + preorder(nodes, start_index as int));
        }
    }

    /// A depth-first walk from `start_index`.
    pub fn iter(&self, start_index: usize) -> (r: NodeGraphIterator)
        requires
            self.wf(),
            start_index < self.nodes@.len(),
        ensures
            r.wf(),
            r.graph == self,
            r.stack@ == seq![start_index],
    {
        NodeGraphIterator::new(self, start_index)
    }
}

impl Default for NodeGraph {
    fn default() -> (r: NodeGraph)
        ensures
            r.wf(),
            r.nodes@.len() == 0,
    {
        NodeGraph::new()
    }
}

/// The ids of the subtree under node `i` in pre-order: `i`, then the
/// pre-order of each child in the order of its children list.
pub open spec fn preorder(nodes: Seq<Node>, i: int) -> Seq<usize>
    decreases nodes.len() - i, nodes[i].children_indices@.len() + 1,
{
    if 0 <= i < nodes.len() {
        seq![i as usize] + preorder_children(nodes, i, nodes[i].children_indices@.len() as int)
    } else {
        Seq::empty()
    }
}

/// The pre-orders of the first `k` children of node `i`, one after another
/// (children that do not come after `i` contribute nothing).
pub open spec fn preorder_children(nodes: Seq<Node>, i: int, k: int) -> Seq<usize>
    decreases nodes.len() - i, k,
{
    if 0 <= i < nodes.len() && 0 < k <= nodes[i].children_indices@.len() {
        let c = nodes[i].children_indices@[k - 1] as int;
        preorder_children(nodes, i, k - 1) + if i < c < nodes.len() {
            preorder(nodes, c)
        } else {
            Seq::empty()
        }
    } else {
        Seq::empty()
    }
}

/// Every id of a pre-order is a node.
pub proof fn lemma_preorder_in_range(nodes: Seq<Node>, i: int)
    requires
        nodes.len() <= usize::MAX,
    ensures
        forall|k: int| 0 <= k < preorder(nodes, i).len() ==> #[trigger] preorder(nodes, i)[k] < nodes.len(),
    decreases nodes.len() - i, nodes[i].children_indices@.len() + 1,
{
    if 0 <= i < nodes.len() {
        let lc = nodes[i].children_indices@.len() as int;
        lemma_preorder_children_in_range(nodes, i, lc);
        let s = preorder_children(nodes, i, lc);
        assert forall|k: int| 0 <= k < preorder(nodes, i).len() implies #[trigger] preorder(nodes, i)[k]
            < nodes.len() by {
            if k > 0 {
                assert(preorder(nodes, i)[k] == s[k - 1]);
            }
        }
    }
}

proof fn lemma_preorder_children_in_range(nodes: Seq<Node>, i: int, k: int)
    requires
        nodes.len() <= usize::MAX,
    ensures
        forall|m: int|
            0 <= m < preorder_children(nodes, i, k).len() ==> #[trigger] preorder_children(nodes, i, k)[m]
                < nodes.len(),
    decreases nodes.len() - i, k,
{
    if 0 <= i < nodes.len() && 0 < k <= nodes[i].children_indices@.len() {
        let c = nodes[i].children_indices@[k - 1] as int;
        lemma_preorder_children_in_range(nodes, i, k - 1);
        let a = preorder_children(nodes, i, k - 1);
        if i < c < nodes.len() {
            lemma_preorder_in_range(nodes, c);
            let b = preorder(nodes, c);
            assert forall|m: int| 0 <= m < (a + b).len() implies #[trigger] (a + b)[m] < nodes.len() by {
                if m >= a.len() {
                    assert((a + b)[m] == b[m - a.len()]);
                }
            }
        } else {
            assert(a + Seq::<usize>::empty() =~= a);
        }
    }
}

/// `b` holds the nodes of `a` with possibly other colours.
pub open spec fn same_but_color(a: Seq<Node>, b: Seq<Node>) -> bool {
    &&& a.len() == b.len()
    &&& forall|i: int|
        0 <= i < a.len() ==> {
            &&& (#[trigger] b[i]).parent_index == a[i].parent_index
            &&& b[i].children_indices@ == a[i].children_indices@
            &&& b[i].point == a[i].point
            &&& b[i].length == a[i].length
            &&& b[i].angle == a[i].angle
            &&& b[i].thickness == a[i].thickness
        }
}

/// Colours take no part in the graph invariant.
proof fn lemma_same_but_color(a: Seq<Node>, b: Seq<Node>)
    requires
        nodes_wf(a),
        same_but_color(a, b),
    ensures
        nodes_wf(b),
{
    assert forall|i: int| 0 <= i < b.len() implies (#[trigger] b[i]).wf() by {
        assert(a[i].wf());
    }
    assert forall|i: int|
        0 <= i < b.len() && (#[trigger] b[i]).parent_index is Some implies {
            let p = b[i].parent_index.unwrap() as int;
            &&& p < i
            &&& b[i].point == b[p].spec_next_point()
        } by {
        assert(a[i].parent_index is Some);
    }
    assert forall|i: int|
        0 <= i < b.len() && (#[trigger] b[i]).parent_index is None implies b[i].point
            == root_anchor() by {
        assert(a[i].parent_index is None);
    }
    assert forall|i: int, k: int|
        0 <= i < b.len() && 0 <= k < b[i].children_indices@.len() implies {
            let c = #[trigger] b[i].children_indices@[k] as int;
            &&& c < b.len()
            &&& is_child(b, i, c)
        } by {
        assert(a[i].children_indices@[k] == b[i].children_indices@[k]);
    }
    assert forall|i: int, x: int, y: int|
        0 <= i < b.len() && 0 <= x < y < b[i].children_indices@.len() implies #[trigger] b[i].children_indices@[x]
            < #[trigger] b[i].children_indices@[y] by {
        assert(a[i].children_indices@[x] == b[i].children_indices@[x]);
        assert(a[i].children_indices@[y] == b[i].children_indices@[y]);
    }
    assert forall|c: int|
        0 <= c < b.len() && (#[trigger] b[c].parent_index) is Some implies b[b[c].parent_index.unwrap() as int].children_indices@.contains(
        c as usize,
    ) by {
        assert(a[c].parent_index is Some);
        let q = b[c].parent_index.unwrap() as int;
        assert(a[q].children_indices@ == b[q].children_indices@);
    }
}

/// A pre-order walk over a graph that keeps the ids still to visit on a
/// stack: siblings come out in the reverse of their creation order.
pub struct NodeGraphIterator<'a> {
    pub graph: &'a NodeGraph,
    pub stack: Vec<usize>,
}

impl<'a> NodeGraphIterator<'a> {
    pub open spec fn wf(self) -> bool {
        &&& self.graph.wf()
        &&& forall|k: int| 0 <= k < self.stack@.len() ==> #[trigger] self.stack@[k] < self.graph.nodes@.len()
    }

    pub fn new(graph: &'a NodeGraph, start_index: usize) -> (r: NodeGraphIterator<'a>)
        requires
            graph.wf(),
            start_index < graph.nodes@.len(),
        ensures
            r.wf(),
            r.graph == graph,
            r.stack@ == seq![start_index],
    {
        NodeGraphIterator { graph, stack: vec![start_index] }
    }

    /// Pops the next id, and pushes its children in creation order.
    #[verifier::loop_isolation(false)]
    pub fn next(&mut self) -> (r: Option<usize>)
        requires
            old(self).wf(),
        ensures
            final(self).wf(),
            final(self).graph == old(self).graph,
            old(self).stack@.len() == 0 ==> r is None && final(self).stack@ == old(self).stack@,
            old(self).stack@.len() > 0 ==> {
                let id = old(self).stack@.last();
                &&& r == Some(id)
                &&& final(self).stack@ == old(self).stack@.drop_last()
                    + old(self).graph.nodes@[id as int].children_indices@
            },
    {
        match self.stack.pop() {
            None => None,
            Some(id) => {
                let ghost base = self.stack@;
                let g = self.graph;
                let children = &g.nodes[id].children_indices;
                proof {
                    assert forall|k: int| 0 <= k < children@.len() implies #[trigger] children@[k] < g.nodes@.len() by {
                        assert(children_point_back(g.nodes@));
                    }
                }
                let mut i: usize = 0;
                while i < children.len()
                    invariant
                        i <= children@.len(),
                        self.graph == g,
                        self.stack@ == base + children@.subrange(0, i as int),
                    decreases children@.len() - i,
                {
                    self.stack.push(children[i]);
                    proof {
                        assert(base + children@.subrange(0, i + 1) == (base + children@.subrange(0, i as int)).push(children@[i as int]));
                    }
                    i += 1;
                }
                proof {
                    assert(children@.subrange(0, i as int) == children@);
                    assert forall|k: int| 0 <= k < self.stack@.len() implies #[trigger] self.stack@[k] < g.nodes@.len() by {
                        if k >= base.len() {
                            let j = k - base.len();
                            assert(self.stack@[k] == children@[j]);
                        } else {
                            assert(self.stack@[k] == base[k]);
                        }
                    }
                }
                Some(id)
            },
        }
    }
}

/// Every child starts at the end point of its parent. Growth only appends,
/// so this is also the parent's end point when the child was added.
pub proof fn lemma_child_starts_at_parent_end(g: NodeGraph, i: int)
    requires
        g.wf(),
        0 <= i < g.nodes@.len(),
        g.nodes@[i].parent_index is Some,
    ensures
        g.nodes@[i].point == g.nodes@[g.nodes@[i].parent_index.unwrap() as int].spec_next_point(),
{
}

/// In a well-formed graph (`NodeGraph::wf` holds `nodes_wf` of its nodes),
/// a node's children list holds exactly the nodes that name it as parent.
pub proof fn lemma_children_match_parents(nodes: Seq<Node>, i: int, c: int)
    requires
        nodes_wf(nodes),
        nodes.len() <= usize::MAX,
        0 <= i < nodes.len(),
        0 <= c < nodes.len(),
    ensures
        nodes[i].children_indices@.contains(c as usize) <==> nodes[c].parent_index == Some(
            i as usize,
        ),
{
    lemma_listed_iff_parent(nodes, i, c);
}

proof fn lemma_listed_iff_parent(nodes: Seq<Node>, i: int, c: int)
    requires
        children_point_back(nodes),
        parents_list_children(nodes),
        nodes.len() <= usize::MAX,
        0 <= i < nodes.len(),
        0 <= c < nodes.len(),
    ensures
        nodes[i].children_indices@.contains(c as usize) <==> nodes[c].parent_index == Some(
            i as usize,
        ),
{
    if nodes[i].children_indices@.contains(c as usize) {
        let k = choose|k: int|
            0 <= k < nodes[i].children_indices@.len() && nodes[i].children_indices@[k]
                == c as usize;
        assert(is_child(nodes, i, nodes[i].children_indices@[k] as int));
    }
    if nodes[c].parent_index == Some(i as usize) {
        assert(nodes[c].parent_index is Some);
    }
}

/// With a single root, the root is the only node without a parent.
pub proof fn lemma_root_is_unique(nodes: Seq<Node>, i: int)
    requires
        single_root(nodes),
        0 <= i < nodes.len(),
    ensures
        nodes[i].parent_index is None <==> i == 0,
{
}

} // verus!
