//! The tree that the growth layers extend.
use vstd::prelude::*;
use crate::fixed::LENGTH_MAX;
use crate::node::{Node, NodeGraph, extends, root_anchor};

verus! {

/// The owner of one node graph.
#[derive(Debug)]
pub struct Tree {
    pub nodes: NodeGraph,
}

/// Node `i` may grow further: its thickness is not negative.
pub open spec fn is_tip(nodes: Seq<Node>, i: int) -> bool {
    nodes[i].thickness >= 0
}

/// `r` lists, in increasing order, exactly the tips of `nodes`.
pub open spec fn lists_tips(r: Seq<usize>, nodes: Seq<Node>) -> bool {
    &&& forall|a: int, b: int| 0 <= a < b < r.len() ==> #[trigger] r[a] < #[trigger] r[b]
    &&& forall|k: int| 0 <= k < r.len() ==> #[trigger] r[k] < nodes.len() && is_tip(nodes, r[k] as int)
    &&& forall|i: int| 0 <= i < nodes.len() && #[trigger] is_tip(nodes, i) ==> r.contains(i as usize)
}

impl Tree {
    /// The graph invariant of `NodeGraph::wf`.
    #[verifier::opaque]
    pub open spec fn wf(self) -> bool {
        self.nodes.wf()
    }

    /// Number of nodes.
    pub open spec fn size(self) -> nat {
        self.nodes.nodes@.len()
    }

    /// An empty tree.
    pub fn new() -> (r: Tree)
        ensures
            r.wf(),
            r.size() == 0,
    {
        let t = Tree { nodes: NodeGraph::new() };
        proof {
            reveal(Tree::wf);
        }
        t
    }

    /// Adds a node; see `NodeGraph::add_node`.
    pub fn add_node(&mut self, parent: Option<usize>, length: i64, angle: i64, thickness: i64) -> (r:
        usize)
        requires
            old(self).wf(),
            parent matches Some(p) ==> p < old(self).size(),
            -LENGTH_MAX <= length <= LENGTH_MAX,
        ensures
            final(self).wf(),
            r == old(self).size(),
            final(self).size() == r + 1,
            extends(old(self).nodes.nodes@, final(self).nodes.nodes@),
            final(self).nodes.nodes@[r as int].parent_index == parent,
            final(self).nodes.nodes@[r as int].children_indices@ == Seq::<usize>::empty(),
            final(self).nodes.nodes@[r as int].point == (match parent {
                Some(p) => old(self).nodes.nodes@[p as int].spec_next_point(),
                None => root_anchor(),
            }),
            final(self).nodes.nodes@[r as int].length == length,
            final(self).nodes.nodes@[r as int].angle == angle,
            final(self).nodes.nodes@[r as int].thickness == thickness,
            final(self).nodes.nodes@[r as int].color is None,
            forall|i: int|
                0 <= i < r && Some(i as usize) != parent
                    ==> (#[trigger] final(self).nodes.nodes@[i]).children_indices@
                    == old(self).nodes.nodes@[i].children_indices@,
            parent matches Some(p) ==> final(self).nodes.nodes@[p as int].children_indices@
                == old(self).nodes.nodes@[p as int].children_indices@.push(r),
    {
        proof {
            reveal(Tree::wf);
        }
        self.nodes.add_node(parent, length, angle, thickness)
    }

    /// The ids of the nodes that may grow further: those with a
    /// non-negative thickness, in increasing order.
    pub fn get_tip_nodes(&self) -> (r: Vec<usize>)
        requires
            self.wf(),
        ensures
            lists_tips(r@, self.nodes.nodes@),
    {
        let mut r: Vec<usize> = Vec::new();
        let mut i: usize = 0;
        let n = self.nodes.nodes.len();
        while i < n
            invariant
                n == self.size(),
                i <= n,
                forall|a: int, b: int| 0 <= a < b < r@.len() ==> #[trigger] r@[a] < #[trigger] r@[b],
                forall|k: int|
                    0 <= k < r@.len() ==> #[trigger] r@[k] < i && self.nodes.nodes@[r@[k] as int].thickness
                        >= 0,
                forall|j: int|
                    0 <= j < i && self.nodes.nodes@[j].thickness >= 0 ==> r@.contains(j as usize),
            decreases n - i,
        {
            if self.nodes.nodes[i].thickness >= 0 {
                let ghost before = r@;
                r.push(i);
                proof {
                    assert forall|j: int|
                        0 <= j < i && self.nodes.nodes@[j].thickness >= 0 implies r@.contains(
                        j as usize,
                    ) by {
                        let k = choose|k: int| 0 <= k < before.len() && before[k] == j as usize;
                        assert(r@[k] == j as usize);
                    }
                    assert(r@[r@.len() - 1] == i);
                }
            }
            i += 1;
        }
        r
    }
}

} // verus!
