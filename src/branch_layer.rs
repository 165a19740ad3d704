//! The secondary growth phase: chains of shrinking twigs from each tip.
use vstd::prelude::*;
use crate::fixed::{
    deg_to_rad, degrees_to_radians, norm_angle, normalize_angle, rem_floor, LENGTH_MAX, PI_MRAD,
    TURN_MDEG, VALUE_MAX,
};
use crate::layer::Layer;
use crate::node::{Node, Rgb, extends, lemma_extends_trans, single_root};
use crate::sampler::RandomSource;
use crate::tree::{Tree, is_tip};
use crate::trunk_layer::{add_colored, child_added};

verus! {

/// The branch phase.
#[derive(Debug)]
pub struct BranchLayer;

/// Parameters of the branch phase. Ratios (`spread`, `branch`,
/// `variability`) are in thousandths, as are sizes and lengths; angles are in
/// millidegrees; `color` is the red, green and blue of every twig.
#[derive(Debug, Copy, Clone)]
pub struct BranchParams {
    pub spread: i64,
    pub branch: i64,
    pub variability: i64,
    pub base_size_reduction: i64,
    pub minimum_size: i64,
    pub initial_branch_size: i64,
    pub initial_length: i64,
    pub base_angle_mean_deg: i64,
    pub base_angle_std_dev_deg: i64,
    pub color: [u8; 3],
}

impl BranchParams {
    /// Ratios between zero and a thousand times, a positive size reduction,
    /// a non-negative angle deviation, and every value within `VALUE_MAX`.
    pub open spec fn valid(&self) -> bool {
        &&& 0 <= self.spread <= 1_000_000
        &&& 0 <= self.branch <= 1_000_000
        &&& 0 <= self.variability <= 1_000_000
        &&& 0 < self.base_size_reduction <= VALUE_MAX
        &&& -VALUE_MAX <= self.minimum_size <= VALUE_MAX
        &&& -VALUE_MAX <= self.initial_branch_size <= VALUE_MAX
        &&& -LENGTH_MAX <= self.initial_length <= LENGTH_MAX
        &&& -VALUE_MAX <= self.base_angle_mean_deg <= VALUE_MAX
        &&& 0 <= self.base_angle_std_dev_deg <= VALUE_MAX
    }

    /// Whether the branch phase accepts these parameters.
    pub fn is_valid(&self) -> (r: bool)
        ensures
            r == self.valid(),
    {
        0 <= self.spread && self.spread <= 1_000_000 && 0 <= self.branch && self.branch <= 1_000_000
            && 0 <= self.variability && self.variability <= 1_000_000 && 0 < self.base_size_reduction
            && self.base_size_reduction <= VALUE_MAX && -VALUE_MAX <= self.minimum_size
            && self.minimum_size <= VALUE_MAX && -VALUE_MAX <= self.initial_branch_size
            && self.initial_branch_size <= VALUE_MAX && -LENGTH_MAX <= self.initial_length
            && self.initial_length <= LENGTH_MAX && -VALUE_MAX <= self.base_angle_mean_deg
            && self.base_angle_mean_deg <= VALUE_MAX && 0 <= self.base_angle_std_dev_deg
            && self.base_angle_std_dev_deg <= VALUE_MAX
    }

    /// Parameters with the given ratios and the default for the rest.
    pub fn new(spread: i64, branch: i64, variability: i64) -> (r: BranchParams)
        ensures
            r.spread == spread,
            r.branch == branch,
            r.variability == variability,
            r.base_size_reduction == 100,
            r.minimum_size == 600,
            r.initial_branch_size == 900,
            r.initial_length == 10_000,
            r.base_angle_mean_deg == 20_000,
            r.base_angle_std_dev_deg == 5_000,
            r.color@ == seq![0u8, 255u8, 0u8],
    {
        let r = BranchParams {
            spread,
            branch,
            variability,
            base_size_reduction: 100,
            minimum_size: 600,
            initial_branch_size: 900,
            initial_length: 10_000,
            base_angle_mean_deg: 20_000,
            base_angle_std_dev_deg: 5_000,
            color: [0, 255, 0],
        };
        assert(r.color@ == seq![0u8, 255u8, 0u8]);
        r
    }
}

/// The colour of every twig.
pub open spec fn accent(p: BranchParams) -> Rgb {
    Rgb { red: p.color@[0], green: p.color@[1], blue: p.color@[2] }
}

/// A twig heading for an angle drawn in millidegrees: the angle within a
/// turn, in milliradians, brought into `[-π, π)`.
pub open spec fn twig_heading(mdeg: int) -> int {
    norm_angle(deg_to_rad(mdeg % (TURN_MDEG as int)))
}

/// Node `i`, added by the branch phase that started from `start`, is a
/// twig: it has the twig length, colour and a heading in `[-π, π)`; its
/// thickness is above `minimum_size`; and it either hangs from a tip of
/// `start` with `initial_branch_size`, or from an earlier twig, thinner than
/// it by `base_size_reduction`.
pub open spec fn twig(p: BranchParams, start: Seq<Node>, nodes: Seq<Node>, i: int) -> bool {
    let q = nodes[i].parent_index.unwrap() as int;
    &&& nodes[i].parent_index is Some
    &&& q < i
    &&& nodes[i].length == p.initial_length
    &&& nodes[i].color == Some(accent(p))
    &&& -PI_MRAD <= nodes[i].angle < PI_MRAD
    &&& nodes[i].thickness > p.minimum_size
    &&& if q < start.len() {
        &&& is_tip(start, q)
        &&& nodes[i].thickness == p.initial_branch_size
    } else {
        nodes[i].thickness == nodes[q].thickness - p.base_size_reduction
    }
}

/// Whether a node is a twig depends on the starting nodes only through
/// their number and thicknesses.
pub proof fn lemma_twig_start(p: BranchParams, s1: Seq<Node>, s2: Seq<Node>, nodes: Seq<Node>, i: int)
    requires
        s1.len() == s2.len(),
        forall|q: int| 0 <= q < s1.len() ==> (#[trigger] s1[q]).thickness == s2[q].thickness,
        twig(p, s1, nodes, i),
    ensures
        twig(p, s2, nodes, i),
{
    let q = nodes[i].parent_index.unwrap() as int;
    if q < s1.len() {
        assert(s1[q].thickness == s2[q].thickness);
    }
}

/// What holds throughout a branch run from `start`: nodes are only
/// appended; every new node is a twig; an earlier node gains at most one
/// child, only if it is a tip and has been visited; a twig has at most one
/// child, none until visited.
#[verifier::opaque]
pub open spec fn branch_state(p: BranchParams, start: Seq<Node>, nodes: Seq<Node>, visited: Seq<bool>) -> bool {
    let base = start.len() as int;
    &&& extends(start, nodes)
    &&& visited.len() == nodes.len()
    &&& forall|i: int| base <= i < nodes.len() ==> twig(p, start, nodes, i)
    &&& forall|i: int|
        0 <= i < base ==> {
            &&& (#[trigger] nodes[i]).children_indices@.len() <= start[i].children_indices@.len() + 1
            &&& !visited[i] ==> nodes[i].children_indices@ == start[i].children_indices@
            &&& nodes[i].children_indices@.len() > start[i].children_indices@.len() ==> is_tip(start, i)
        }
    &&& forall|i: int|
        base <= i < nodes.len() ==> {
            &&& (#[trigger] nodes[i]).children_indices@.len() <= 1
            &&& !visited[i] ==> nodes[i].children_indices@.len() == 0
            &&& nodes[i].thickness - p.base_size_reduction <= p.minimum_size
                ==> nodes[i].children_indices@.len() == 0
        }
}

/// Visiting `node` and hanging a twig of thickness `size` from it keeps the
/// run's state, with the twig not yet visited.
proof fn lemma_twig_step(
    p: BranchParams,
    start: Seq<Node>,
    a: Seq<Node>,
    b: Seq<Node>,
    visited: Seq<bool>,
    node: int,
    angle: int,
    size: int,
)
    requires
        branch_state(p, start, a, visited),
        b.len() <= usize::MAX,
        0 <= node < a.len(),
        !visited[node],
        size > p.minimum_size,
        -PI_MRAD <= angle < PI_MRAD,
        node < start.len() ==> is_tip(start, node) && size == p.initial_branch_size,
        node >= start.len() ==> size == a[node].thickness - p.base_size_reduction,
        child_added(a, b, node, p.initial_length as int, angle, size, accent(p)),
    ensures
        branch_state(p, start, b, visited.update(node, true).push(false)),
{
    reveal(branch_state);
    let base = start.len() as int;
    let r = a.len() as int;
    let v = visited.update(node, true).push(false);
    assert forall|i: int| base <= i < b.len() implies twig(p, start, b, i) by {
        if i < r {
            assert(twig(p, start, a, i));
            let q = a[i].parent_index.unwrap() as int;
            assert(b[q].thickness == a[q].thickness);
        }
    }
    assert forall|i: int| 0 <= i < base implies {
        &&& (#[trigger] b[i]).children_indices@.len() <= start[i].children_indices@.len() + 1
        &&& !v[i] ==> b[i].children_indices@ == start[i].children_indices@
        &&& b[i].children_indices@.len() > start[i].children_indices@.len() ==> is_tip(start, i)
    } by {
        assert(v[i] == (i == node || visited[i]));
    }
    assert forall|i: int| base <= i < b.len() implies {
        &&& (#[trigger] b[i]).children_indices@.len() <= 1
        &&& !v[i] ==> b[i].children_indices@.len() == 0
        &&& b[i].thickness - p.base_size_reduction <= p.minimum_size
            ==> b[i].children_indices@.len() == 0
    } by {
        if i < r {
            assert(v[i] == (i == node || visited[i]));
        }
    }
    assert(extends(start, b)) by {
        assert forall|i: int| 0 <= i < start.len() implies start[i].children_indices@.is_prefix_of(
            (#[trigger] b[i]).children_indices@,
        ) by {
            assert(start[i].children_indices@.is_prefix_of(a[i].children_indices@));
            assert(a[i].children_indices@.is_prefix_of(b[i].children_indices@));
            assert forall|k: int| 0 <= k < start[i].children_indices@.len() implies start[i].children_indices@[k]
                == b[i].children_indices@[k] by {
                assert(start[i].children_indices@[k] == a[i].children_indices@[k]);
            }
        }
    }
}

/// Marking a node visited keeps the run's state.
proof fn lemma_mark_visited(p: BranchParams, start: Seq<Node>, nodes: Seq<Node>, visited: Seq<bool>, node: int)
    requires
        branch_state(p, start, nodes, visited),
        0 <= node < nodes.len(),
    ensures
        branch_state(p, start, nodes, visited.update(node, true)),
{
    reveal(branch_state);
    let v = visited.update(node, true);
    assert forall|i: int| 0 <= i < start.len() implies {
        &&& (#[trigger] nodes[i]).children_indices@.len() <= start[i].children_indices@.len() + 1
        &&& !v[i] ==> nodes[i].children_indices@ == start[i].children_indices@
        &&& nodes[i].children_indices@.len() > start[i].children_indices@.len() ==> is_tip(start, i)
    } by {
        assert(v[i] == (i == node || visited[i]));
    }
    assert forall|i: int| start.len() <= i < nodes.len() implies {
        &&& (#[trigger] nodes[i]).children_indices@.len() <= 1
        &&& !v[i] ==> nodes[i].children_indices@.len() == 0
        &&& nodes[i].thickness - p.base_size_reduction <= p.minimum_size
            ==> nodes[i].children_indices@.len() == 0
    } by {
        assert(v[i] == (i == node || visited[i]));
    }
}

/// Heading of a twig drawn as `mdeg` millidegrees.
pub fn compute_twig_heading(mdeg: i64) -> (r: i64)
    ensures
        r == twig_heading(mdeg as int),
        -PI_MRAD <= r < PI_MRAD,
{
    let within = rem_floor(mdeg, TURN_MDEG);
    normalize_angle(degrees_to_radians(within))
}

/// Hangs a twig of thickness `size` from the visited node `node`.
fn hang_twig(
    tree: &mut Tree,
    p: &BranchParams,
    visited: &mut Vec<bool>,
    node: usize,
    angle: i64,
    size: i64,
    color: Rgb,
    Ghost(start): Ghost<Seq<Node>>,
    Ghost(before): Ghost<Seq<bool>>,
) -> (r: usize)
    requires
        old(tree).wf(),
        p.valid(),
        branch_state(*p, start, old(tree).nodes.nodes@, before),
        old(visited)@ == before.update(node as int, true),
        node < old(tree).size(),
        !before[node as int],
        size > p.minimum_size,
        -PI_MRAD <= angle < PI_MRAD,
        color == accent(*p),
        node < start.len() ==> is_tip(start, node as int) && size == p.initial_branch_size,
        node >= start.len() ==> size == old(tree).nodes.nodes@[node as int].thickness
            - p.base_size_reduction,
    ensures
        final(tree).wf(),
        branch_state(*p, start, final(tree).nodes.nodes@, final(visited)@),
        final(visited)@.len() == final(tree).size(),
        r == old(tree).size(),
        final(tree).size() == r + 1,
        final(tree).nodes.nodes@[r as int].thickness == size,
        final(visited)@ == before.update(node as int, true).push(false),
        forall|i: int|
            0 <= i < old(tree).size() && i != node ==> (#[trigger] final(tree).nodes.nodes@[i]).children_indices@
                == old(tree).nodes.nodes@[i].children_indices@,
        final(tree).nodes.nodes@[node as int].children_indices@
            == old(tree).nodes.nodes@[node as int].children_indices@.push(r),
        final(tree).nodes.nodes@[r as int].children_indices@.len() == 0,
        extends(old(tree).nodes.nodes@, final(tree).nodes.nodes@),
{
    let ghost a = tree.nodes.nodes@;
    let c = add_colored(tree, node, p.initial_length, angle, size, color);
    proof {
        assert(tree.nodes.nodes@.len() == tree.nodes.nodes.len());
        lemma_twig_step(*p, start, a, tree.nodes.nodes@, before, node as int, angle as int, size as int);
    }
    visited.push(false);
    proof {
        lemma_state_len(*p, start, tree.nodes.nodes@, visited@);
    }
    c
}

/// The visited flags cover the nodes.
proof fn lemma_state_len(p: BranchParams, start: Seq<Node>, nodes: Seq<Node>, visited: Seq<bool>)
    requires
        branch_state(p, start, nodes, visited),
    ensures
        visited.len() == nodes.len(),
        nodes.len() >= start.len(),
{
    reveal(branch_state);
}

/// Every trial succeeds and a tip's chain has room for a first twig.
pub open spec fn certain(p: BranchParams) -> bool {
    p.branch >= 1000 && p.initial_branch_size > p.minimum_size
}

/// Every twig thick enough for a successor has one.
pub open spec fn chains_full(p: BranchParams, start: Seq<Node>, nodes: Seq<Node>) -> bool {
    forall|i: int|
        start.len() <= i < nodes.len() && nodes[i].thickness - p.base_size_reduction > p.minimum_size
            ==> (#[trigger] nodes[i]).children_indices@.len() == 1
}

/// Twigs too thin for a successor have no children; a twig has at most one.
proof fn lemma_thin_twigs(p: BranchParams, start: Seq<Node>, nodes: Seq<Node>, visited: Seq<bool>)
    requires
        branch_state(p, start, nodes, visited),
    ensures
        forall|i: int|
            start.len() <= i < nodes.len() && nodes[i].thickness - p.base_size_reduction
                <= p.minimum_size ==> (#[trigger] nodes[i]).children_indices@.len() == 0,
        forall|i: int|
            start.len() <= i < nodes.len() ==> (#[trigger] nodes[i]).children_indices@.len() <= 1,
        forall|i: int|
            start.len() <= i < nodes.len() ==> twig(p, start, nodes, i),
{
    reveal(branch_state);
}

/// A node not visited yet has kept the children it had at the start.
proof fn lemma_unvisited_unchanged(
    p: BranchParams,
    start: Seq<Node>,
    nodes: Seq<Node>,
    visited: Seq<bool>,
    i: int,
)
    requires
        branch_state(p, start, nodes, visited),
        0 <= i < start.len(),
        !visited[i],
    ensures
        nodes[i].children_indices@ == start[i].children_indices@,
{
    reveal(branch_state);
}

/// Grows the chain of twigs that starts at the tip `tip`.
fn grow_chain<R: RandomSource>(
    tree: &mut Tree,
    p: &BranchParams,
    rng: &mut R,
    visited: &mut Vec<bool>,
    tip: usize,
    color: Rgb,
    ppm: u64,
    Ghost(start): Ghost<Seq<Node>>,
)
    requires
        old(tree).wf(),
        p.valid(),
        branch_state(*p, start, old(tree).nodes.nodes@, old(visited)@),
        tip < start.len(),
        is_tip(start, tip as int),
        color == accent(*p),
        ppm == p.branch * 1000,
        certain(*p) ==> chains_full(*p, start, old(tree).nodes.nodes@),
    ensures
        final(tree).wf(),
        branch_state(*p, start, final(tree).nodes.nodes@, final(visited)@),
        certain(*p) ==> chains_full(*p, start, final(tree).nodes.nodes@),
        p.branch == 0 ==> final(tree).size() == old(tree).size(),
        p.initial_branch_size <= p.minimum_size ==> final(tree).size() == old(tree).size(),
        forall|i: int|
            0 <= i < old(tree).size() && i != tip ==> (#[trigger] final(tree).nodes.nodes@[i]).children_indices@
                == old(tree).nodes.nodes@[i].children_indices@,
        forall|i: int|
            0 <= i < old(tree).size() && i != tip ==> #[trigger] final(visited)@[i] == old(visited)@[i],
        certain(*p) && !old(visited)@[tip as int] ==> final(tree).nodes.nodes@[tip as int].children_indices@.len()
            == old(tree).nodes.nodes@[tip as int].children_indices@.len() + 1,
{
    let mut node = tip;
    let mut size = p.initial_branch_size;
    let ghost size0 = tree.size();
    let ghost n0 = tree.nodes.nodes@;
    let ghost vis0 = visited@;
    proof {
        lemma_state_len(*p, start, tree.nodes.nodes@, visited@);
        assert(extends(n0, n0)) by {
            assert forall|i: int| 0 <= i < n0.len() implies n0[i].children_indices@.is_prefix_of(
                (#[trigger] n0[i]).children_indices@) by {
                assert(n0[i].children_indices@ == n0[i].children_indices@.subrange(0, n0[i].children_indices@.len() as int));
            }
        }
    }
    while size > p.minimum_size && !visited[node]
        invariant
            tree.wf(),
            p.valid(),
            branch_state(*p, start, tree.nodes.nodes@, visited@),
            visited@.len() == tree.size(),
            tree.size() >= size0,
            size0 >= start.len(),
            color == accent(*p),
            ppm == p.branch * 1000,
            node < tree.size(),
            node >= start.len() ==> node >= size0,
            node < start.len() ==> is_tip(start, node as int) && size == p.initial_branch_size,
            node >= start.len() ==> size == tree.nodes.nodes@[node as int].thickness
                - p.base_size_reduction,
            size <= VALUE_MAX,
            p.branch == 0 ==> tree.size() == size0,
            p.initial_branch_size <= p.minimum_size ==> tree.size() == size0,
            node == tip || node >= size0,
            tip < size0,
            vis0.len() == size0,
            n0.len() == size0,
            node == tip ==> tree.nodes.nodes@[tip as int].children_indices@ == n0[tip as int].children_indices@,
            node != tip ==> tree.nodes.nodes@[tip as int].children_indices@.len() == n0[tip as int].children_indices@.len() + 1,
            node == tip && visited@[tip as int] && !vis0[tip as int] ==> !certain(*p),
            forall|i: int|
                0 <= i < size0 && i != tip ==> (#[trigger] tree.nodes.nodes@[i]).children_indices@
                    == n0[i].children_indices@,
            forall|i: int| 0 <= i < size0 && i != tip ==> #[trigger] visited@[i] == vis0[i],
            extends(n0, tree.nodes.nodes@),
            node >= size0 ==> tree.nodes.nodes@[node as int].children_indices@.len() == 0,
            node >= size0 && visited@[node as int] ==> !certain(*p),
            certain(*p) ==> forall|i: int|
                start.len() <= i < tree.size() && i != node && tree.nodes.nodes@[i].thickness
                    - p.base_size_reduction > p.minimum_size
                    ==> (#[trigger] tree.nodes.nodes@[i]).children_indices@.len() == 1,
        ensures
            certain(*p) && !vis0[tip as int] ==> node != tip,
            certain(*p) && node >= start.len() ==> size <= p.minimum_size,
        decreases (if size > p.minimum_size { size - p.minimum_size } else { 0 }),
    {
        let ghost v0 = visited@;
        visited.set(node, true);
        proof {
            lemma_mark_visited(*p, start, tree.nodes.nodes@, v0, node as int);
        }
        if !rng.chance(ppm) {
            proof {
                if certain(*p) {
                    assert(ppm >= 1_000_000);
                }
            }
            break;
        }
        let s = rng.normal(p.base_angle_mean_deg, p.base_angle_std_dev_deg);
        let angle = compute_twig_heading(s);
        let ghost na = tree.nodes.nodes@;
        let c = hang_twig(tree, p, visited, node, angle, size, color, Ghost(start), Ghost(v0));
        proof {
            let nb = tree.nodes.nodes@;
            lemma_extends_trans(n0, na, nb);
            if certain(*p) {
                assert forall|i: int|
                    start.len() <= i < nb.len() && i != c && nb[i].thickness - p.base_size_reduction
                        > p.minimum_size implies (#[trigger] nb[i]).children_indices@.len() == 1 by {
                    if i != node {
                        assert(na[i].children_indices@.len() == 1);
                    }
                }
            }
        }
        node = c;
        size = size - p.base_size_reduction;
    }
}

impl Layer<BranchParams> for BranchLayer {
    open spec fn accepts(params: &BranchParams) -> bool {
        params.valid()
    }

    /// From each tip of the tree, in increasing order, grows a chain: while
    /// the size is above `minimum_size` and the current node was not visited
    /// yet, it is marked visited and, if a trial with probability `branch`
    /// succeeds, a twig of the current size is hung from it and becomes the
    /// current node, with the size lowered by `base_size_reduction`. The
    /// size starts at `initial_branch_size`; it strictly decreases, so every
    /// chain ends.
    fn generate<R: RandomSource>(tree: Tree, params: &BranchParams, rng: &mut R) -> (r: Tree)
        ensures
            forall|i: int| tree.size() <= i < r.size() ==> twig(*params, tree.nodes.nodes@, r.nodes.nodes@, i),
            forall|i: int|
                0 <= i < tree.size() ==> {
                    &&& (#[trigger] r.nodes.nodes@[i]).children_indices@.len()
                        <= tree.nodes.nodes@[i].children_indices@.len() + 1
                    &&& r.nodes.nodes@[i].children_indices@.len()
                        > tree.nodes.nodes@[i].children_indices@.len() ==> is_tip(tree.nodes.nodes@, i)
                },
            forall|i: int|
                tree.size() <= i < r.size() ==> (#[trigger] r.nodes.nodes@[i]).children_indices@.len() <= 1,
            single_root(tree.nodes.nodes@) ==> single_root(r.nodes.nodes@),
            params.branch == 0 ==> r.size() == tree.size(),
            params.initial_branch_size <= params.minimum_size ==> r.size() == tree.size(),
            certain(*params) ==> forall|i: int|
                0 <= i < tree.size() && is_tip(tree.nodes.nodes@, i)
                    ==> (#[trigger] r.nodes.nodes@[i]).children_indices@.len()
                    == tree.nodes.nodes@[i].children_indices@.len() + 1,
            forall|i: int|
                tree.size() <= i < r.size() && r.nodes.nodes@[i].thickness - params.base_size_reduction
                    <= params.minimum_size ==> (#[trigger] r.nodes.nodes@[i]).children_indices@.len() == 0,
            certain(*params) ==> chains_full(*params, tree.nodes.nodes@, r.nodes.nodes@),
    {
        let p = params;
        let mut tree = tree;
        let ghost start = tree.nodes.nodes@;
        let tips = tree.get_tip_nodes();
        let mut visited: Vec<bool> = Vec::new();
        let n = tree.nodes.nodes.len();
        while visited.len() < n
            invariant
                visited@.len() <= n,
                forall|i: int| 0 <= i < visited@.len() ==> !#[trigger] visited@[i],
            decreases n - visited@.len(),
        {
            visited.push(false);
        }
        let color = Rgb { red: p.color[0], green: p.color[1], blue: p.color[2] };
        let ppm = (p.branch as u64) * 1000;
        proof {
            reveal(branch_state);
            assert(extends(start, start)) by {
                assert forall|i: int| 0 <= i < start.len() implies start[i].children_indices@.is_prefix_of(
                    (#[trigger] start[i]).children_indices@) by {
                    assert(start[i].children_indices@ == start[i].children_indices@.subrange(0, start[i].children_indices@.len() as int));
                }
            }
        }
        let mut k: usize = 0;
        while k < tips.len()
            invariant
                tree.wf(),
                p.valid(),
                branch_state(*p, start, tree.nodes.nodes@, visited@),
                crate::tree::lists_tips(tips@, start),
                color == accent(*p),
                ppm == p.branch * 1000,
                p.branch == 0 ==> tree.size() == start.len(),
                p.initial_branch_size <= p.minimum_size ==> tree.size() == start.len(),
                k <= tips@.len(),
                forall|j: int| k <= j < tips@.len() ==> !visited@[#[trigger] tips@[j] as int],
                certain(*p) ==> forall|j: int|
                    0 <= j < k ==> (#[trigger] tree.nodes.nodes@[tips@[j] as int]).children_indices@.len()
                        == start[tips@[j] as int].children_indices@.len() + 1,
                certain(*p) ==> chains_full(*p, start, tree.nodes.nodes@),
            decreases tips.len() - k,
        {
            let ghost n1 = tree.nodes.nodes@;
            let ghost v1 = visited@;
            proof {
                lemma_state_len(*p, start, n1, v1);
                lemma_unvisited_unchanged(*p, start, n1, v1, tips@[k as int] as int);
            }
            grow_chain(&mut tree, p, rng, &mut visited, tips[k], color, ppm, Ghost(start));
            proof {
                let t = tips@[k as int] as int;
                assert forall|j: int| k < j < tips@.len() implies !visited@[#[trigger] tips@[j] as int] by {
                    assert(tips@[k as int] < tips@[j]);
                    assert(tips@[j] < start.len());
                    assert(!v1[tips@[j] as int]);
                    assert(visited@[tips@[j] as int] == v1[tips@[j] as int]);
                }
                if certain(*p) {
                    assert forall|j: int| 0 <= j < k + 1 implies (#[trigger] tree.nodes.nodes@[tips@[j] as int]).children_indices@.len()
                        == start[tips@[j] as int].children_indices@.len() + 1 by {
                        if j < k {
                            assert(tips@[j] < tips@[k as int]);
                            assert(n1[tips@[j] as int].children_indices@.len() == start[tips@[j] as int].children_indices@.len() + 1);
                        }
                    }
                }
            }
            k += 1;
        }
        proof {
            lemma_thin_twigs(*p, start, tree.nodes.nodes@, visited@);
            reveal(branch_state);
            let b = tree.nodes.nodes@;
            if certain(*p) {
                assert forall|i: int|
                    0 <= i < start.len() && is_tip(start, i) implies (#[trigger] b[i]).children_indices@.len()
                        == start[i].children_indices@.len() + 1 by {
                    assert(tips@.contains(i as usize));
                    let j = choose|j: int| 0 <= j < tips@.len() && tips@[j] == i as usize;
                    assert(b[tips@[j] as int].children_indices@.len() == start[tips@[j] as int].children_indices@.len() + 1);
                }
            }
            if single_root(start) {
                assert forall|i: int| 0 < i < b.len() implies (#[trigger] b[i]).parent_index is Some by {
                    if i >= start.len() {
                        assert(twig(*p, start, b, i));
                    }
                }
            }
        }
        tree
    }
}

} // verus!
