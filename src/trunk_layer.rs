//! The primary growth phase: a branching trunk grown level by level.
use vstd::prelude::*;
use crate::fixed::{
    clamp, deg_to_rad, degrees_to_radians, div_floor, exp_neg, exp_neg_ppm, norm_angle,
    normalize_angle, LENGTH_MAX, PI_MRAD, PPM, SCALE, TAU_MRAD, VALUE_MAX,
};
use crate::layer::Layer;
use crate::node::{Node, Rgb, extends, lemma_extends_trans, same_but_color, single_root};
use crate::sampler::RandomSource;
use crate::tree::Tree;

verus! {

/// The trunk phase. Each iteration `i` draws one trial with probability
/// `split_rate(i)` and, if it succeeds, picks one tip position to split.
/// Then every tip, in order, either has `max_children` children already and
/// grows nothing, or is the split tip and grows two children whose headings
/// are drawn around `±angle_spread` and added to its own heading, or else
/// grows, with probability `branch_rate(i)`, one child whose heading is drawn
/// around `lean_bias` and taken as is. Children have the default length and
/// the size and colour of the iteration, and join the tips.
#[derive(Debug)]
pub struct TrunkLayer;

/// Parameters of the trunk phase. Ratios (`spread`, `split`, `branch`,
/// `variability`, `variability_modifier`) are in thousandths, as are lengths,
/// sizes and iteration counts; angles are in millidegrees.
#[derive(Debug, Copy, Clone)]
pub struct TrunkParams {
    pub spread: i64,
    pub split: i64,
    pub branch: i64,
    pub variability: i64,
    pub default_branch_length: i64,
    pub default_branch_size: i64,
    pub branch_size_falloff: i64,
    pub default_height_mean: i64,
    pub split_falloff_peak: i64,
    pub lean_bias: i64,
    pub variability_modifier: i64,
    pub angle_spread_positive: i64,
    pub angle_spread_negative: i64,
    pub max_children: usize,
}

impl TrunkParams {
    /// Ratios between zero and a thousand times, sizes non-negative, the
    /// size falloff positive, and every value within `VALUE_MAX`.
    pub open spec fn valid(&self) -> bool {
        &&& 0 <= self.spread <= 1_000_000
        &&& 0 <= self.split <= 1_000_000
        &&& 0 <= self.branch <= 1_000_000
        &&& 0 <= self.variability <= 1_000_000
        &&& 0 <= self.variability_modifier <= 1_000_000
        &&& -LENGTH_MAX <= self.default_branch_length <= LENGTH_MAX
        &&& 0 <= self.default_branch_size <= VALUE_MAX
        &&& 0 < self.branch_size_falloff <= VALUE_MAX
        &&& 0 <= self.default_height_mean <= VALUE_MAX
        &&& -VALUE_MAX <= self.split_falloff_peak <= VALUE_MAX
        &&& -VALUE_MAX <= self.lean_bias <= VALUE_MAX
        &&& -VALUE_MAX <= self.angle_spread_positive <= VALUE_MAX
        &&& -VALUE_MAX <= self.angle_spread_negative <= VALUE_MAX
    }

    /// Whether the trunk phase accepts these parameters.
    pub fn is_valid(&self) -> (r: bool)
        ensures
            r == self.valid(),
    {
        0 <= self.spread && self.spread <= 1_000_000 && 0 <= self.split && self.split <= 1_000_000
            && 0 <= self.branch && self.branch <= 1_000_000 && 0 <= self.variability
            && self.variability <= 1_000_000 && 0 <= self.variability_modifier
            && self.variability_modifier <= 1_000_000 && -LENGTH_MAX <= self.default_branch_length
            && self.default_branch_length <= LENGTH_MAX && 0 <= self.default_branch_size
            && self.default_branch_size <= VALUE_MAX && 0 < self.branch_size_falloff
            && self.branch_size_falloff <= VALUE_MAX && 0 <= self.default_height_mean
            && self.default_height_mean <= VALUE_MAX && -VALUE_MAX <= self.split_falloff_peak
            && self.split_falloff_peak <= VALUE_MAX && -VALUE_MAX <= self.lean_bias
            && self.lean_bias <= VALUE_MAX && -VALUE_MAX <= self.angle_spread_positive
            && self.angle_spread_positive <= VALUE_MAX && -VALUE_MAX <= self.angle_spread_negative
            && self.angle_spread_negative <= VALUE_MAX
    }

    /// Parameters with the given ratios and the default for the rest.
    pub fn new(spread: i64, split: i64, branch: i64, variability: i64) -> (r: TrunkParams)
        ensures
            r.spread == spread,
            r.split == split,
            r.branch == branch,
            r.variability == variability,
            r.default_branch_length == 30_000,
            r.default_branch_size == 50_000,
            r.branch_size_falloff == 2_000,
            r.default_height_mean == 10_000,
            r.split_falloff_peak == 5_000,
            r.lean_bias == 0,
            r.variability_modifier == 400,
            r.angle_spread_positive == 10_000,
            r.angle_spread_negative == -10_000,
            r.max_children == 5,
    {
        TrunkParams {
            spread,
            split,
            branch,
            variability,
            default_branch_length: 30_000,
            default_branch_size: 50_000,
            branch_size_falloff: 2_000,
            default_height_mean: 10_000,
            split_falloff_peak: 5_000,
            lean_bias: 0,
            variability_modifier: 400,
            angle_spread_positive: 10_000,
            angle_spread_negative: -10_000,
            max_children: 5,
        }
    }
}

/// Probability (ppm) that iteration `i` splits: `split * e^-(i - peak)^2`.
pub open spec fn split_rate(p: TrunkParams, i: int) -> int {
    let d = i * SCALE - p.split_falloff_peak;
    (p.split * exp_neg_ppm((d * d) / 1000)) / 1000
}

/// Probability (ppm) that a tip branches in iteration `i`: `3 * branch * e^-(i^2 / 100)`.
pub open spec fn branch_rate(p: TrunkParams, i: int) -> int {
    (3 * p.branch * exp_neg_ppm(10 * i * i)) / 1000
}

/// Thickness of the nodes grown in iteration `i`:
/// `default_branch_size / (i + branch_size_falloff)`.
pub open spec fn branch_size(p: TrunkParams, i: int) -> int {
    (p.default_branch_size * SCALE) / (i * SCALE + p.branch_size_falloff)
}

/// Thickness of the root: the size of iteration zero.
pub open spec fn max_size(p: TrunkParams) -> int {
    branch_size(p, 0)
}

/// The size at the mean height: `default_branch_size / (default_height_mean + branch_size_falloff)`.
pub open spec fn min_size(p: TrunkParams) -> int {
    (p.default_branch_size * SCALE) / (p.default_height_mean + p.branch_size_falloff)
}

/// Red level of the nodes grown in iteration `i`: the size mapped from
/// `[min_size, max_size]` onto `[30, 255]`, saturated at both ends.
pub open spec fn red_level(p: TrunkParams, i: int) -> int {
    let num = 225 * (branch_size(p, i) - min_size(p));
    let den = max_size(p) - min_size(p);
    if den > 0 {
        clamp(num / den + 30, 0, 255)
    } else if num > 0 {
        255
    } else {
        0
    }
}

/// Mean of the first angle of a split, in milliradians.
pub open spec fn split_mean_positive(p: TrunkParams) -> int {
    (p.spread * deg_to_rad(p.angle_spread_positive as int)) / 1000 + deg_to_rad(p.lean_bias as int)
}

/// Mean of the second angle of a split, in milliradians.
pub open spec fn split_mean_negative(p: TrunkParams) -> int {
    (p.spread * deg_to_rad(p.angle_spread_negative as int)) / 1000 + deg_to_rad(p.lean_bias as int)
}

/// Standard deviation of split angles: `variability * variability_modifier`.
pub open spec fn split_deviation(p: TrunkParams) -> int {
    (p.variability * p.variability_modifier) / 1000
}

/// Standard deviation of branch angles: `spread * variability * variability_modifier`.
pub open spec fn branch_deviation(p: TrunkParams) -> int {
    (p.spread * p.variability * p.variability_modifier) / 1_000_000
}

/// Heading of a split child: the drawn angle added to the parent's heading.
pub fn split_heading(parent_angle: i64, sample: i64) -> (r: i64)
    requires
        -PI_MRAD <= parent_angle < PI_MRAD,
    ensures
        r == norm_angle(parent_angle + sample),
        -PI_MRAD <= r < PI_MRAD,
{
    let s = normalize_angle(sample);
    proof {
        let m = TAU_MRAD as int;
        vstd::arithmetic::div_mod::lemma_add_mod_noop_right(parent_angle as int, sample + PI_MRAD, m);
        assert(parent_angle + s + PI_MRAD == parent_angle + (sample + PI_MRAD) % m);
    }
    normalize_angle(parent_angle + s)
}

/// Heading of a branch child: the drawn angle itself, not relative to the
/// parent.
pub fn branch_heading(sample: i64) -> (r: i64)
    ensures
        r == norm_angle(sample as int),
        -PI_MRAD <= r < PI_MRAD,
{
    normalize_angle(sample)
}

/// Probability (ppm) that iteration `i` splits.
pub fn compute_split_rate(p: &TrunkParams, i: u64) -> (r: u64)
    requires
        p.valid(),
    ensures
        r == split_rate(*p, i as int),
{
    let d: i128 = (i as i128) * 1000 - (p.split_falloff_peak as i128);
    if d > 4000 || d < -4000 {
        assert(d * d >= 16_000_000) by (nonlinear_arith)
            requires
                d > 4000 || d < -4000,
        ;
        assert((d * d) / 1000 >= 16000) by {
            vstd::arithmetic::div_mod::lemma_div_is_ordered(16_000_000, d * d, 1000);
        }
        assert(exp_neg_ppm((d * d) / 1000) == 0);
        0
    } else {
        assert(0 <= d * d <= 16_000_000) by (nonlinear_arith)
            requires
                -4000 <= d <= 4000,
        ;
        let x = ((d * d) / 1000) as u64;
        let e = exp_neg(x);
        assert((p.split as int) * (e as int) <= 1_000_000 * 1_000_000) by (nonlinear_arith)
            requires
                0 <= p.split <= 1_000_000,
                e <= 1_000_000,
        ;
        (p.split as u64) * e / 1000
    }
}

/// Probability (ppm) that a tip branches in iteration `i`.
pub fn compute_branch_rate(p: &TrunkParams, i: u64) -> (r: u64)
    requires
        p.valid(),
    ensures
        r == branch_rate(*p, i as int),
{
    if i > 40 {
        assert(10 * (i as int) * (i as int) >= 16810) by (nonlinear_arith)
            requires
                i > 40,
        ;
        assert(exp_neg_ppm(10 * i * i) == 0);
        0
    } else {
        assert(10 * (i as int) * (i as int) <= 16000) by (nonlinear_arith)
            requires
                i <= 40,
        ;
        let e = exp_neg(10 * i * i);
        assert(3 * (p.branch as int) * (e as int) <= 3 * 1_000_000 * 1_000_000) by (nonlinear_arith)
            requires
                0 <= p.branch <= 1_000_000,
                e <= 1_000_000,
        ;
        3 * (p.branch as u64) * e / 1000
    }
}

/// Thickness of the nodes grown in iteration `i`.
pub fn compute_branch_size(p: &TrunkParams, i: u64) -> (r: i64)
    requires
        p.valid(),
    ensures
        r == branch_size(*p, i as int),
        0 <= r <= max_size(*p),
        max_size(*p) <= VALUE_MAX * SCALE,
{
    let num: u128 = (p.default_branch_size as u128) * 1000;
    let den: u128 = (i as u128) * 1000 + (p.branch_size_falloff as u128);
    proof {
        vstd::arithmetic::div_mod::lemma_div_is_ordered_by_denominator(
            num as int,
            p.branch_size_falloff as int,
            den as int,
        );
        vstd::arithmetic::div_mod::lemma_div_is_ordered_by_denominator(
            num as int,
            1,
            p.branch_size_falloff as int,
        );
    }
    (num / den) as i64
}

/// Red level of the nodes grown in iteration `i`.
pub fn compute_red_level(p: &TrunkParams, i: u64) -> (r: u8)
    requires
        p.valid(),
    ensures
        r == red_level(*p, i as int),
{
    let size = compute_branch_size(p, i);
    let max = compute_branch_size(p, 0);
    let min_num: u128 = (p.default_branch_size as u128) * 1000;
    let min_den: u128 = (p.default_height_mean as u128) + (p.branch_size_falloff as u128);
    proof {
        vstd::arithmetic::div_mod::lemma_div_is_ordered_by_denominator(
            min_num as int,
            p.branch_size_falloff as int,
            min_den as int,
        );
    }
    let min = (min_num / min_den) as i64;
    let num = 225 * (size - min);
    let den = max - min;
    if den > 0 {
        let q = div_floor(num, den);
        if q > 1000 {
            return 255;
        }
        if q < -1000 {
            return 0;
        }
        let v = q + 30;
        if v < 0 {
            0
        } else if v > 255 {
            255
        } else {
            v as u8
        }
    } else if num > 0 {
        255
    } else {
        0
    }
}

/// The colour of the nodes grown in iteration `i`.
pub open spec fn trunk_color(p: TrunkParams, i: int) -> Rgb {
    Rgb { red: red_level(p, i) as u8, green: 0, blue: 0 }
}

/// How many parent steps lead from node `i` back to node `base`, the root
/// of a trunk run (zero for the root and for nodes outside the run).
pub open spec fn depth(nodes: Seq<Node>, base: int, i: int) -> nat
    decreases i,
{
    let q = nodes[i].parent_index.unwrap() as int;
    if 0 <= base < i < nodes.len() && nodes[i].parent_index is Some && base <= q < i {
        depth(nodes, base, q) + 1
    } else {
        0
    }
}

/// Node `i` was grown by the trunk run whose root is node `base`: its
/// parent is a run node created before it; it has the default length, a
/// heading in `[-π, π)`, and the size and colour of the iteration that
/// created it, which is its depth less one.
pub open spec fn trunk_grown(p: TrunkParams, nodes: Seq<Node>, base: int, i: int) -> bool {
    let d = depth(nodes, base, i) - 1;
    &&& nodes[i].parent_index is Some
    &&& base <= nodes[i].parent_index.unwrap() < i
    &&& nodes[i].length == p.default_branch_length
    &&& -PI_MRAD <= nodes[i].angle < PI_MRAD
    &&& depth(nodes, base, i) >= 1
    &&& nodes[i].thickness == branch_size(p, d)
    &&& nodes[i].color == Some(trunk_color(p, d))
}

/// With no angle deviation every draw is its mean, so a run node heads
/// either along its parent's heading turned by one of the two split means,
/// or, as a branch child, absolutely along `lean_bias`.
pub open spec fn mean_heading(p: TrunkParams, nodes: Seq<Node>, i: int) -> bool {
    let q = nodes[i].parent_index.unwrap() as int;
    ||| nodes[i].angle == norm_angle(nodes[q].angle + split_mean_positive(p))
    ||| nodes[i].angle == norm_angle(nodes[q].angle + split_mean_negative(p))
    ||| nodes[i].angle == norm_angle(deg_to_rad(p.lean_bias as int))
}

/// What holds of a trunk run from `start` at any point: the nodes before
/// `start` keep their children; the run's root sits at `start.len()`;
/// every later node was grown by the run; and no run node has more than
/// `max_children` children.
pub open spec fn run_state(p: TrunkParams, start: Seq<Node>, nodes: Seq<Node>) -> bool {
    let base = start.len() as int;
    &&& extends(start, nodes)
    &&& nodes.len() > base
    &&& forall|i: int| 0 <= i < base ==> (#[trigger] nodes[i]).children_indices@ == start[i].children_indices@
    &&& nodes[base].parent_index is None
    &&& -PI_MRAD <= nodes[base].angle < PI_MRAD
    &&& forall|i: int| base < i < nodes.len() ==> trunk_grown(p, nodes, base, i)
    &&& forall|i: int| base <= i < nodes.len() ==> (#[trigger] nodes[i]).children_indices@.len() <= p.max_children
    &&& split_deviation(p) == 0 && branch_deviation(p) == 0 ==> forall|i: int|
        base < i < nodes.len() ==> #[trigger] mean_heading(p, nodes, i)
}

/// Growth that no draw can stop for `height` iterations: nothing splits,
/// a tip may have a child, and branching is certain at every level below
/// `height`.
pub open spec fn steady_growth(p: TrunkParams, height: int) -> bool {
    &&& p.split == 0
    &&& p.max_children >= 1
    &&& forall|i: int| 0 <= i < height ==> #[trigger] branch_rate(p, i) >= PPM
}

/// Depths of existing nodes survive appending.
pub proof fn lemma_depth_kept(a: Seq<Node>, b: Seq<Node>, base: int, i: int)
    requires
        0 <= base,
        a.len() <= b.len(),
        forall|k: int| 0 <= k < a.len() ==> (#[trigger] b[k]).parent_index == a[k].parent_index,
        0 <= i < a.len(),
    ensures
        depth(b, base, i) == depth(a, base, i),
    decreases i,
{
    let q = a[i].parent_index.unwrap() as int;
    if base < i && a[i].parent_index is Some && base <= q < i {
        lemma_depth_kept(a, b, base, q);
    }
}

/// `b` is `a` with a child of `parent` appended, with the given fields.
pub open spec fn child_added(
    a: Seq<Node>,
    b: Seq<Node>,
    parent: int,
    length: int,
    angle: int,
    size: int,
    color: Rgb,
) -> bool {
    let r = a.len() as int;
    &&& b.len() == r + 1
    &&& extends(a, b)
    &&& b[r].parent_index == Some(parent as usize)
    &&& b[r].children_indices@.len() == 0
    &&& b[r].length == length
    &&& b[r].angle == angle
    &&& b[r].thickness == size
    &&& b[r].color == Some(color)
    &&& forall|i: int|
        0 <= i < r && i != parent ==> (#[trigger] b[i]).children_indices@ == a[i].children_indices@
    &&& b[parent].children_indices@ == a[parent].children_indices@.push(r as usize)
}

/// Appends a coloured child of `parent`.
pub(crate) fn add_colored(tree: &mut Tree, parent: usize, length: i64, angle: i64, size: i64, color: Rgb) -> (r: usize)
    requires
        old(tree).wf(),
        parent < old(tree).size(),
        -LENGTH_MAX <= length <= LENGTH_MAX,
    ensures
        final(tree).wf(),
        r == old(tree).size(),
        child_added(
            old(tree).nodes.nodes@,
            final(tree).nodes.nodes@,
            parent as int,
            length as int,
            angle as int,
            size as int,
            color,
        ),
{
    let ghost a = tree.nodes.nodes@;
    let id = tree.add_node(Some(parent), length, angle, size);
    let ghost m = tree.nodes.nodes@;
    proof {
        reveal(Tree::wf);
    }
    tree.nodes.set_color(id, color);
    proof {
        let b = tree.nodes.nodes@;
        lemma_recolor_new(a, m, b, id as int);
    }
    id
}

/// Recolouring a node that `a` does not have keeps `b` an extension of `a`.
proof fn lemma_recolor_new(a: Seq<Node>, m: Seq<Node>, b: Seq<Node>, id: int)
    requires
        extends(a, m),
        same_but_color(m, b),
        a.len() <= id < m.len(),
        forall|i: int| 0 <= i < m.len() && i != id ==> (#[trigger] b[i]).color == m[i].color,
    ensures
        extends(a, b),
        forall|i: int| 0 <= i < m.len() ==> (#[trigger] b[i]).children_indices@ == m[i].children_indices@,
        forall|i: int|
            0 <= i < m.len() ==> {
                &&& (#[trigger] b[i]).parent_index == m[i].parent_index
                &&& b[i].point == m[i].point
                &&& b[i].length == m[i].length
                &&& b[i].angle == m[i].angle
                &&& b[i].thickness == m[i].thickness
            },
{
    assert forall|i: int| 0 <= i < a.len() implies a[i].children_indices@.is_prefix_of(
        (#[trigger] b[i]).children_indices@,
    ) by {
        assert(a[i].children_indices@.is_prefix_of(m[i].children_indices@));
    }
}

/// Hanging a child of depth `level + 1` from a run node of depth `level`
/// that has room for it keeps the run's state.
proof fn lemma_run_child(
    p: TrunkParams,
    start: Seq<Node>,
    a: Seq<Node>,
    b: Seq<Node>,
    j: int,
    angle: int,
    level: nat,
)
    requires
        run_state(p, start, a),
        b.len() <= usize::MAX,
        start.len() <= j < a.len(),
        depth(a, start.len() as int, j) == level,
        a[j].children_indices@.len() + 1 <= p.max_children,
        -PI_MRAD <= angle < PI_MRAD,
        split_deviation(p) == 0 && branch_deviation(p) == 0 ==> {
            ||| angle == norm_angle(a[j].angle + split_mean_positive(p))
            ||| angle == norm_angle(a[j].angle + split_mean_negative(p))
            ||| angle == norm_angle(deg_to_rad(p.lean_bias as int))
        },
        child_added(
            a,
            b,
            j,
            p.default_branch_length as int,
            angle,
            branch_size(p, level as int),
            trunk_color(p, level as int),
        ),
    ensures
        run_state(p, start, b),
        depth(b, start.len() as int, a.len() as int) == level + 1,
        forall|i: int| 0 <= i < a.len() ==> #[trigger] depth(b, start.len() as int, i) == depth(a, start.len() as int, i),
{
    let base = start.len() as int;
    let r = a.len() as int;
    assert forall|i: int| 0 <= i < a.len() implies #[trigger] depth(b, base, i) == depth(a, base, i) by {
        lemma_depth_kept(a, b, base, i);
    }
    assert(depth(b, base, r) == depth(b, base, j) + 1);
    assert forall|i: int| base < i < b.len() implies trunk_grown(p, b, base, i) by {
        if i < r {
            assert(trunk_grown(p, a, base, i));
        }
    }
    if split_deviation(p) == 0 && branch_deviation(p) == 0 {
        assert forall|i: int| base < i < b.len() implies #[trigger] mean_heading(p, b, i) by {
            if i < r {
                assert(mean_heading(p, a, i));
                assert(trunk_grown(p, a, base, i));
            }
        }
    }
    assert forall|i: int| base <= i < b.len() implies (#[trigger] b[i]).children_indices@.len()
        <= p.max_children by {
        if i < r && i != j {
            assert(a[i].children_indices@.len() <= p.max_children);
        }
    }
    assert forall|i: int| 0 <= i < base implies (#[trigger] b[i]).children_indices@
        == start[i].children_indices@ by {
        assert(a[i].children_indices@ == start[i].children_indices@);
    }
    assert(extends(start, b)) by {
        assert forall|i: int| 0 <= i < start.len() implies start[i].children_indices@.is_prefix_of(
            (#[trigger] b[i]).children_indices@,
        ) by {
            assert(b[i].children_indices@ == start[i].children_indices@);
            assert(a[i].children_indices@ == start[i].children_indices@);
        }
    }
}

/// The headings of the children that a tip with `count` children grows in
/// one iteration, given the draws: none once it has `max_children`; two
/// when it is the split tip and two more children fit under the cap, the
/// drawn angles `a` and `b` added to its own heading; otherwise one when
/// the branch trial `branched` succeeded, the drawn angle `a` taken as is.
pub fn tip_headings(
    p: &TrunkParams,
    count: usize,
    parent_angle: i64,
    split_here: bool,
    branched: bool,
    a: i64,
    b: i64,
) -> (r: Vec<i64>)
    requires
        -PI_MRAD <= parent_angle < PI_MRAD,
    ensures
        count >= p.max_children ==> r@ == Seq::<i64>::empty(),
        count < p.max_children && split_here && count + 2 <= p.max_children ==> r@ == seq![
            norm_angle(parent_angle + a) as i64,
            norm_angle(parent_angle + b) as i64,
        ],
        count < p.max_children && !(split_here && count + 2 <= p.max_children) && branched ==> r@
            == seq![norm_angle(a as int) as i64],
        count < p.max_children && !(split_here && count + 2 <= p.max_children) && !branched ==> r@
            == Seq::<i64>::empty(),
        forall|k: int| 0 <= k < r@.len() ==> -PI_MRAD <= #[trigger] r@[k] < PI_MRAD,
{
    let mut r: Vec<i64> = Vec::new();
    if count >= p.max_children {
        return r;
    }
    if split_here && count + 1 < p.max_children {
        r.push(split_heading(parent_angle, a));
        r.push(split_heading(parent_angle, b));
    } else if branched {
        r.push(branch_heading(a));
    }
    r
}

/// The values that one iteration shares between its tips.
struct Iteration {
    level: u64,
    size: i64,
    color: Rgb,
    split_at: Option<usize>,
    branch_ppm: u64,
}

/// Grows tip `j`, the tip at position `j - lo` of the iteration's tips, by
/// the rules of `tip_headings`, drawing only what those rules need.
fn grow_tip<R: RandomSource>(
    tree: &mut Tree,
    p: &TrunkParams,
    rng: &mut R,
    j: usize,
    it: &Iteration,
    Ghost(start): Ghost<Seq<Node>>,
    lo: usize,
)
    requires
        old(tree).wf(),
        p.valid(),
        run_state(*p, start, old(tree).nodes.nodes@),
        start.len() <= lo <= j < old(tree).size(),
        depth(old(tree).nodes.nodes@, start.len() as int, j as int) == it.level,
        it.size == branch_size(*p, it.level as int),
        it.color == trunk_color(*p, it.level as int),
        it.split_at is Some ==> p.split > 0,
        it.branch_ppm == branch_rate(*p, it.level as int),
    ensures
        final(tree).wf(),
        run_state(*p, start, final(tree).nodes.nodes@),
        extends(old(tree).nodes.nodes@, final(tree).nodes.nodes@),
        old(tree).size() <= final(tree).size() <= old(tree).size() + 2,
        it.split_at != Some((j - lo) as usize) ==> final(tree).size() <= old(tree).size() + 1,
        p.branch == 0 && it.split_at != Some((j - lo) as usize) ==> final(tree).size() == old(tree).size(),
        forall|i: int|
            0 <= i < old(tree).size() && i != j ==> (#[trigger] final(tree).nodes.nodes@[i]).children_indices@
                == old(tree).nodes.nodes@[i].children_indices@,
        forall|i: int|
            0 <= i < old(tree).size() ==> #[trigger] depth(final(tree).nodes.nodes@, start.len() as int, i)
                == depth(old(tree).nodes.nodes@, start.len() as int, i),
        forall|i: int|
            old(tree).size() <= i < final(tree).size() ==> {
                &&& depth(final(tree).nodes.nodes@, start.len() as int, i) == it.level + 1
                &&& (#[trigger] final(tree).nodes.nodes@[i]).children_indices@.len() == 0
                &&& final(tree).nodes.nodes@[i].parent_index == Some(j)
            },
        p.split == 0 && it.branch_ppm >= PPM && p.max_children >= 1
            && old(tree).nodes.nodes@[j as int].children_indices@.len() == 0
            ==> final(tree).size() == old(tree).size() + 1,
{
    let ghost n0 = tree.nodes.nodes@;
    let ghost base = start.len() as int;
    let count = tree.nodes.nodes[j].children_indices.len();
    let parent_angle = tree.nodes.nodes[j].angle;
    proof {
        assert(-PI_MRAD <= parent_angle < PI_MRAD) by {
            if j as int != base {
                assert(trunk_grown(*p, n0, base, j as int));
            }
        }
        if p.branch == 0 {
            let e = exp_neg_ppm(10 * it.level * it.level);
            assert(3 * p.branch * e == 0) by (nonlinear_arith)
                requires
                    p.branch == 0,
            ;
            assert(branch_rate(*p, it.level as int) == 0);
        }
    }
    let split_here = it.split_at == Some(j - lo);
    let splits = count < p.max_children && split_here && count + 1 < p.max_children;
    let branched = if count < p.max_children && !splits {
        rng.chance(it.branch_ppm)
    } else {
        false
    };
    let mut a: i64 = 0;
    let mut b: i64 = 0;
    if splits {
        let dev = split_deviation_exec(p);
        a = rng.normal(split_mean_exec(p, p.angle_spread_positive), dev);
        b = rng.normal(split_mean_exec(p, p.angle_spread_negative), dev);
        proof {
            if dev == 0 {
                assert(a == split_mean_positive(*p));
                assert(b == split_mean_negative(*p));
            }
        }
    } else if branched {
        a = rng.normal(degrees_to_radians(p.lean_bias), branch_deviation_exec(p));
    }
    let headings = tip_headings(p, count, parent_angle, split_here, branched, a, b);
    let len = p.default_branch_length;
    if headings.len() >= 1 {
        let h0 = headings[0];
        let c = add_colored(tree, j, len, h0, it.size, it.color);
        proof {
            assert(tree.nodes.nodes@.len() == tree.nodes.nodes.len());
            lemma_run_child(*p, start, n0, tree.nodes.nodes@, j as int, h0 as int, it.level as nat);
        }
        if headings.len() >= 2 {
            let ghost n1 = tree.nodes.nodes@;
            let h1 = headings[1];
            let c2 = add_colored(tree, j, len, h1, it.size, it.color);
            proof {
                assert(tree.nodes.nodes@.len() == tree.nodes.nodes.len());
                lemma_run_child(*p, start, n1, tree.nodes.nodes@, j as int, h1 as int, it.level as nat);
                lemma_extends_trans(n0, n1, tree.nodes.nodes@);
                let n2 = tree.nodes.nodes@;
                assert forall|i: int| 0 <= i < n0.len() && i != j implies (#[trigger] n2[i]).children_indices@
                    == n0[i].children_indices@ by {
                    assert(n1[i].children_indices@ == n0[i].children_indices@);
                }
                assert forall|i: int| 0 <= i < n0.len() implies #[trigger] depth(n2, base, i) == depth(n0, base, i) by {
                    assert(depth(n1, base, i) == depth(n0, base, i));
                }
                assert(depth(n2, base, c as int) == depth(n1, base, c as int));
                assert(n2[c as int].children_indices@ == n1[c as int].children_indices@);
            }
        }
    }
}

fn split_deviation_exec(p: &TrunkParams) -> (r: i64)
    requires
        p.valid(),
    ensures
        r == split_deviation(*p),
        r >= 0,
{
    assert(0 <= p.variability * p.variability_modifier <= 1_000_000_000_000) by (nonlinear_arith)
        requires
            0 <= p.variability <= 1_000_000,
            0 <= p.variability_modifier <= 1_000_000,
    ;
    p.variability * p.variability_modifier / 1000
}

fn split_mean_exec(p: &TrunkParams, spread_angle: i64) -> (r: i64)
    requires
        p.valid(),
        -VALUE_MAX <= spread_angle <= VALUE_MAX,
    ensures
        r == (p.spread * deg_to_rad(spread_angle as int)) / 1000 + deg_to_rad(p.lean_bias as int),
{
    let a = degrees_to_radians(spread_angle);
    let l = degrees_to_radians(p.lean_bias);
    assert(-20_000_000_000 <= a <= 20_000_000_000) by {
        vstd::arithmetic::div_mod::lemma_div_is_ordered((spread_angle * PI_MRAD) as int, VALUE_MAX * PI_MRAD, 180_000);
        vstd::arithmetic::div_mod::lemma_div_is_ordered(-VALUE_MAX * PI_MRAD, (spread_angle * PI_MRAD) as int, 180_000);
    }
    assert(-20_000_000_000 <= l <= 20_000_000_000) by {
        vstd::arithmetic::div_mod::lemma_div_is_ordered((p.lean_bias * PI_MRAD) as int, VALUE_MAX * PI_MRAD, 180_000);
        vstd::arithmetic::div_mod::lemma_div_is_ordered(-VALUE_MAX * PI_MRAD, (p.lean_bias * PI_MRAD) as int, 180_000);
    }
    assert(-20_000_000_000_000_000 <= p.spread * a <= 20_000_000_000_000_000) by (nonlinear_arith)
        requires
            0 <= p.spread <= 1_000_000,
            -20_000_000_000 <= a <= 20_000_000_000,
    ;
    let q = div_floor(p.spread * a, 1000);
    assert(-20_000_000_000_000_000 <= q <= 20_000_000_000_000_000) by {
        vstd::arithmetic::div_mod::lemma_div_is_ordered((p.spread * a) as int, 20_000_000_000_000_000, 1000);
        vstd::arithmetic::div_mod::lemma_div_is_ordered(-20_000_000_000_000_000, (p.spread * a) as int, 1000);
    }
    q + l
}

fn branch_deviation_exec(p: &TrunkParams) -> (r: i64)
    requires
        p.valid(),
    ensures
        r == branch_deviation(*p),
        r >= 0,
{
    assert(0 <= p.spread * p.variability <= 1_000_000_000_000) by (nonlinear_arith)
        requires
            0 <= p.spread <= 1_000_000,
            0 <= p.variability <= 1_000_000,
    ;
    let sv = p.spread * p.variability;
    assert(0 <= sv * p.variability_modifier <= 1_000_000_000_000_000_000) by (nonlinear_arith)
        requires
            0 <= sv <= 1_000_000_000_000,
            0 <= p.variability_modifier <= 1_000_000,
    ;
    assert(sv * p.variability_modifier == p.spread * p.variability * p.variability_modifier) by (nonlinear_arith)
        requires
            sv == p.spread * p.variability,
    ;
    sv * p.variability_modifier / 1_000_000
}

/// Grows a trunk of `height` iterations from a new root of length
/// `root_length`, by the rules on `TrunkLayer`. The tips of iteration `i`
/// are exactly the nodes that iteration `i - 1` created (the root for the
/// first); they are consecutive ids, and have no children yet.
pub fn grow_trunk<R: RandomSource>(
    tree: Tree,
    params: &TrunkParams,
    height: u64,
    root_length: i64,
    rng: &mut R,
) -> (r: Tree)
    requires
        tree.wf(),
        params.valid(),
        -LENGTH_MAX <= root_length <= LENGTH_MAX,
    ensures
        r.wf(),
        run_state(*params, tree.nodes.nodes@, r.nodes.nodes@),
        r.nodes.nodes@[tree.size() as int].angle == 0,
        r.nodes.nodes@[tree.size() as int].length == root_length,
        r.nodes.nodes@[tree.size() as int].thickness == max_size(*params),
        forall|i: int|
            tree.size() <= i < r.size() ==> #[trigger] depth(r.nodes.nodes@, tree.size() as int, i)
                <= height,
        2 * (r.size() - tree.size()) <= (height + 1) * (height + 2),
        tree.size() == 0 ==> single_root(r.nodes.nodes@),
        params.split == 0 && params.branch == 0 ==> r.size() == tree.size() + 1,
        steady_growth(*params, height as int) ==> r.size() == tree.size() + 1 + height,
        steady_growth(*params, height as int) ==> forall|i: int|
            tree.size() < i < r.size() ==> (#[trigger] r.nodes.nodes@[i]).parent_index == Some(
                (i - 1) as usize,
            ),
{
    let p = params;
    let mut tree = tree;
    let ghost start = tree.nodes.nodes@;
    let base = tree.nodes.nodes.len();
    let root_size = compute_branch_size(p, 0);
    let root = tree.add_node(None, root_length, 0, root_size);
    proof {
        let n = tree.nodes.nodes@;
        assert forall|i: int| 0 <= i < start.len() implies (#[trigger] n[i]).children_indices@
            == start[i].children_indices@ by {}
        assert(depth(n, base as int, base as int) == 0);
    }
    let mut lo: usize = root;
    let mut hi: usize = tree.nodes.nodes.len();
    let mut level: u64 = 0;
    while level < height
        invariant
            tree.wf(),
            p.valid(),
            base == start.len(),
            run_state(*p, start, tree.nodes.nodes@),
            hi == tree.size(),
            base <= lo <= hi,
            level <= height,
            tree.nodes.nodes@[base as int].angle == 0,
            tree.nodes.nodes@[base as int].length == root_length,
            tree.nodes.nodes@[base as int].thickness == max_size(*p),
            forall|i: int|
                lo <= i < hi ==> #[trigger] depth(tree.nodes.nodes@, base as int, i) == level
                    && tree.nodes.nodes@[i].children_indices@.len() == 0,
            forall|i: int| base <= i < hi ==> #[trigger] depth(tree.nodes.nodes@, base as int, i) <= level,
            hi - lo <= level + 1,
            2 * (hi - base) <= (level + 1) * (level + 2),
            p.split == 0 && p.branch == 0 ==> hi == base + 1,
            steady_growth(*p, height as int) ==> hi - lo == 1 && hi == base + 1 + level,
            steady_growth(*p, height as int) ==> forall|i: int|
                base < i < hi ==> (#[trigger] tree.nodes.nodes@[i]).parent_index == Some((i - 1) as usize),
        decreases height - level,
    {
        let rate = compute_split_rate(p, level);
        proof {
            if p.split == 0 {
                let d = level * SCALE - p.split_falloff_peak;
                let e = exp_neg_ppm((d * d) / 1000);
                assert(p.split * e == 0) by (nonlinear_arith)
                    requires
                        p.split == 0,
                ;
            }
        }
        let split_at = if hi > lo && rng.chance(rate) {
            Some(rng.pick(hi - lo))
        } else {
            None
        };
        let it = Iteration {
            level,
            size: compute_branch_size(p, level),
            color: Rgb { red: compute_red_level(p, level), green: 0, blue: 0 },
            split_at,
            branch_ppm: compute_branch_rate(p, level),
        };
        proof {
            if steady_growth(*p, height as int) {
                assert(branch_rate(*p, level as int) >= PPM);
            }
        }
        let mut j: usize = lo;
        while j < hi
            invariant
                tree.wf(),
                p.valid(),
                base == start.len(),
                run_state(*p, start, tree.nodes.nodes@),
                base <= lo <= j <= hi <= tree.size(),
                level < height,
                tree.nodes.nodes@[base as int].angle == 0,
                tree.nodes.nodes@[base as int].length == root_length,
                tree.nodes.nodes@[base as int].thickness == max_size(*p),
                forall|i: int|
                    j <= i < hi ==> #[trigger] depth(tree.nodes.nodes@, base as int, i) == level
                        && tree.nodes.nodes@[i].children_indices@.len() == 0,
                forall|i: int|
                    hi <= i < tree.size() ==> #[trigger] depth(tree.nodes.nodes@, base as int, i) == level + 1
                        && tree.nodes.nodes@[i].children_indices@.len() == 0,
                forall|i: int| base <= i < hi ==> #[trigger] depth(tree.nodes.nodes@, base as int, i) <= level,
                tree.size() - hi <= (j - lo) + (if split_at matches Some(s) && lo + s < j { 1int } else { 0 }),
                split_at matches Some(s) ==> s < hi - lo,
                p.split == 0 && p.branch == 0 ==> tree.size() == hi,
                p.split == 0 ==> split_at is None,
                it.level == level,
                it.size == branch_size(*p, level as int),
                it.color == trunk_color(*p, level as int),
                it.split_at == split_at,
                split_at is Some ==> p.split > 0,
                it.branch_ppm == branch_rate(*p, level as int),
                steady_growth(*p, height as int) ==> it.branch_ppm >= PPM,
                steady_growth(*p, height as int) ==> hi - lo == 1 && tree.size() - hi == j - lo,
                steady_growth(*p, height as int) ==> forall|i: int|
                    base < i < tree.size() ==> (#[trigger] tree.nodes.nodes@[i]).parent_index == Some(
                        (i - 1) as usize,
                    ),
            decreases hi - j,
        {
            let ghost before = tree.nodes.nodes@;
            proof {
                assert(depth(before, base as int, j as int) == level);
                assert(before[j as int].children_indices@.len() == 0);
            }
            grow_tip(&mut tree, p, rng, j, &it, Ghost(start), lo);
            proof {
                let after = tree.nodes.nodes@;
                assert(after[base as int].angle == before[base as int].angle);
                assert(after[base as int].length == before[base as int].length);
                assert(after[base as int].thickness == before[base as int].thickness);
                assert forall|i: int| j < i < hi implies #[trigger] depth(after, base as int, i) == level
                    && after[i].children_indices@.len() == 0 by {
                    assert(depth(before, base as int, i) == level);
                }
                assert forall|i: int| hi <= i < after.len() implies #[trigger] depth(after, base as int, i) == level + 1
                    && after[i].children_indices@.len() == 0 by {
                    if i < before.len() {
                        assert(depth(before, base as int, i) == level + 1);
                    }
                }
                assert forall|i: int| base <= i < hi implies #[trigger] depth(after, base as int, i) <= level by {
                    assert(depth(before, base as int, i) <= level);
                }
                if steady_growth(*p, height as int) {
                    assert forall|i: int| base < i < after.len() implies (#[trigger] after[i]).parent_index
                        == Some((i - 1) as usize) by {
                        if i < before.len() {
                            assert(before[i].parent_index == Some((i - 1) as usize));
                        }
                    }
                }
            }
            j += 1;
        }
        proof {
            let n = tree.nodes.nodes@;
            assert forall|i: int| hi <= i < n.len() implies #[trigger] depth(n, base as int, i) == level + 1
                && n[i].children_indices@.len() == 0 by {}
            assert forall|i: int| base <= i < n.len() implies #[trigger] depth(n, base as int, i) <= level + 1 by {
                if i >= hi {
                    assert(depth(n, base as int, i) == level + 1);
                }
            }
            assert((hi - lo) as int + 1 <= level + 2);
            assert(2 * (n.len() - base) <= (level + 2) * (level + 3)) by (nonlinear_arith)
                requires
                    2 * (hi - base) <= (level + 1) * (level + 2),
                    n.len() - hi <= level + 2,
            ;
        }
        lo = hi;
        hi = tree.nodes.nodes.len();
        level += 1;
    }
    proof {
        let n = tree.nodes.nodes@;
        if start.len() == 0 {
            assert forall|i: int| 0 < i < n.len() implies (#[trigger] n[i]).parent_index is Some by {
                assert(trunk_grown(*p, n, 0, i));
            }
        }
    }
    tree
}

impl Layer<TrunkParams> for TrunkLayer {
    open spec fn accepts(params: &TrunkParams) -> bool {
        params.valid()
    }

    /// Draws the number of iterations from a normal distribution around
    /// `default_height_mean` with deviation `2 * variability`, cut to a whole
    /// non-negative count, and grows a trunk that high with `grow_trunk`;
    /// the root is twice as long as the drawn height. With no variability
    /// the count is exactly the mean.
    fn generate<R: RandomSource>(tree: Tree, params: &TrunkParams, rng: &mut R) -> (r: Tree)
        ensures
            run_state(*params, tree.nodes.nodes@, r.nodes.nodes@),
            r.nodes.nodes@[tree.size() as int].angle == 0,
            r.nodes.nodes@[tree.size() as int].thickness == max_size(*params),
            tree.size() == 0 ==> single_root(r.nodes.nodes@),
            params.split == 0 && params.branch == 0 ==> r.size() == tree.size() + 1,
            params.variability == 0 ==> forall|i: int|
                tree.size() <= i < r.size() ==> #[trigger] depth(r.nodes.nodes@, tree.size() as int, i)
                    <= params.default_height_mean / 1000,
            params.variability == 0 ==> 2 * (r.size() - tree.size()) <= (params.default_height_mean
                / 1000 + 1) * (params.default_height_mean / 1000 + 2),
            params.variability == 0 && steady_growth(*params, params.default_height_mean / 1000)
                ==> r.size() == tree.size() + 1 + params.default_height_mean / 1000,
            params.variability == 0 && steady_growth(*params, params.default_height_mean / 1000)
                ==> forall|i: int|
                tree.size() < i < r.size() ==> (#[trigger] r.nodes.nodes@[i]).parent_index == Some(
                    (i - 1) as usize,
                ),
    {
        let p = params;
        let height_milli = rng.normal(p.default_height_mean, 2 * p.variability);
        let height: u64 = if height_milli <= 0 {
            0
        } else {
            (height_milli as u64) / 1000
        };
        let half = LENGTH_MAX / 2;
        let root_length = if height_milli > half {
            2 * half
        } else if height_milli < -half {
            -2 * half
        } else {
            2 * height_milli
        };
        grow_trunk(tree, p, height, root_length, rng)
    }
}

/// Appending nodes keeps every node of a trunk run a trunk node.
pub proof fn lemma_trunk_grown_kept(p: TrunkParams, a: Seq<Node>, b: Seq<Node>, base: int, i: int)
    requires
        extends(a, b),
        0 <= base < i < a.len(),
        trunk_grown(p, a, base, i),
    ensures
        trunk_grown(p, b, base, i),
{
    lemma_depth_kept(a, b, base, i);
}

/// No node of a trunk run ends with more than `max_children` children,
/// whatever the draws: `grow_trunk` and `TrunkLayer::generate` keep
/// `run_state`, which bounds every run node.
pub proof fn lemma_children_within_max(p: TrunkParams, start: Seq<Node>, nodes: Seq<Node>, i: int)
    requires
        run_state(p, start, nodes),
        start.len() <= i < nodes.len(),
    ensures
        nodes[i].children_indices@.len() <= p.max_children,
{
}

} // verus!
