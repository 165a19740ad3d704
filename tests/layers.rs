use treegen::branch_layer::{BranchLayer, BranchParams};
use treegen::layer::{Generator, Layer};
use treegen::node::Rgb;
use treegen::sampler::{RandomSource, SeededSource, Sampler, UniformSampler};
use treegen::tree::Tree;
use treegen::trunk_layer::{
    compute_branch_rate, compute_branch_size, compute_red_level, compute_split_rate, tip_headings,
    TrunkLayer,
    TrunkParams,
};

fn at_most_one_child(t: &Tree) -> bool {
    t.nodes.nodes.iter().all(|n| n.children_indices.len() <= 1)
}

#[test]
fn degenerate_trunk_is_a_single_root() {
    for seed in 1..20u64 {
        let mut rng = SeededSource::new(seed);
        let t = TrunkLayer::generate(Tree::new(), &TrunkParams::new(0, 0, 0, 0), &mut rng);
        assert_eq!(t.nodes.nodes.len(), 1);
        assert!(t.nodes.nodes[0].parent_index.is_none());
        assert_eq!(t.nodes.nodes[0].thickness, 25_000);
    }
}

#[test]
fn certain_branching_with_one_child_grows_a_path() {
    let mut p = TrunkParams::new(0, 0, 1000, 0);
    p.max_children = 1;
    let mut rng = SeededSource::new(7);
    let t = TrunkLayer::generate(Tree::new(), &p, &mut rng);
    // the height is exactly the mean of ten iterations, each adding one node
    assert_eq!(t.nodes.nodes.len(), 11);
    assert!(at_most_one_child(&t));
    for i in 1..t.nodes.nodes.len() {
        assert_eq!(t.nodes.nodes[i].parent_index, Some(i - 1));
    }
}

#[test]
fn zero_max_children_leaves_the_root_alone() {
    let mut p = TrunkParams::new(1000, 1000, 1000, 500);
    p.max_children = 0;
    for seed in 1..10u64 {
        let mut rng = SeededSource::new(seed);
        let t = TrunkLayer::generate(Tree::new(), &p, &mut rng);
        assert_eq!(t.nodes.nodes.len(), 1);
        assert!(t.nodes.nodes[0].children_indices.is_empty());
    }
}

#[test]
fn trunk_without_splits_respects_max_children() {
    let mut p = TrunkParams::new(1000, 0, 1000, 500);
    p.max_children = 2;
    for seed in 1..10u64 {
        let mut rng = SeededSource::new(seed);
        let t = TrunkLayer::generate(Tree::new(), &p, &mut rng);
        assert!(t.nodes.nodes.iter().all(|n| n.children_indices.len() <= 2));
    }
}

#[test]
fn generated_trees_keep_the_graph_invariants() {
    let tp = TrunkParams::new(1000, 1000, 1000, 500);
    let bp = BranchParams::new(1000, 1000, 500);
    for seed in 1..10u64 {
        let mut rng = SeededSource::new(seed);
        let t = TrunkLayer::generate(Tree::new(), &tp, &mut rng);
        let t = BranchLayer::generate(t, &bp, &mut rng);
        let n = &t.nodes.nodes;
        assert!(n[0].parent_index.is_none());
        for i in 1..n.len() {
            let p = n[i].parent_index.unwrap();
            assert!(p < i);
            assert_eq!(n[i].point, n[p].next_point());
            assert!(n[p].children_indices.contains(&i));
        }
        assert!(n.iter().all(|x| x.children_indices.len() <= 6));
    }
}

#[test]
fn seeded_runs_replay() {
    let tp = TrunkParams::new(1000, 1000, 1000, 500);
    let mut a = SeededSource::new(42);
    let mut b = SeededSource::new(42);
    let ta = TrunkLayer::generate(Tree::new(), &tp, &mut a);
    let tb = TrunkLayer::generate(Tree::new(), &tp, &mut b);
    assert_eq!(ta.nodes.nodes.len(), tb.nodes.nodes.len());
    for i in 0..ta.nodes.nodes.len() {
        assert_eq!(ta.nodes.nodes[i].angle, tb.nodes.nodes[i].angle);
    }
}

#[test]
fn branch_chain_shrinks_until_minimum() {
    let mut t = Tree::new();
    t.add_node(None, 1000, 0, 5);
    let p = BranchParams::new(1000, 1000, 500);
    let mut rng = SeededSource::new(3);
    let t = BranchLayer::generate(t, &p, &mut rng);
    let n = &t.nodes.nodes;
    assert_eq!(n.len(), 4);
    assert_eq!(n[1].thickness, 900);
    assert_eq!(n[2].thickness, 800);
    assert_eq!(n[3].thickness, 700);
    for i in 1..4 {
        assert_eq!(n[i].parent_index, Some(i - 1));
        assert_eq!(n[i].length, 10_000);
        assert_eq!(n[i].color, Some(Rgb { red: 0, green: 255, blue: 0 }));
    }
}

#[test]
fn branch_chain_with_non_positive_minimum_ends() {
    let mut t = Tree::new();
    t.add_node(None, 1000, 0, 5);
    let mut p = BranchParams::new(1000, 1000, 500);
    p.minimum_size = -100;
    let mut rng = SeededSource::new(3);
    let t = BranchLayer::generate(t, &p, &mut rng);
    assert_eq!(t.nodes.nodes.len(), 11);
    assert_eq!(t.nodes.nodes[10].thickness, 0);
}

#[test]
fn branch_skips_thin_tips_and_zero_probability() {
    let mut t = Tree::new();
    t.add_node(None, 1000, 0, -1);
    let p = BranchParams::new(1000, 1000, 500);
    let mut rng = SeededSource::new(3);
    let t = BranchLayer::generate(t, &p, &mut rng);
    assert_eq!(t.nodes.nodes.len(), 1);
    let mut t2 = Tree::new();
    t2.add_node(None, 1000, 0, 5);
    let t2 = BranchLayer::generate(t2, &BranchParams::new(1000, 0, 500), &mut rng);
    assert_eq!(t2.nodes.nodes.len(), 1);
}

#[test]
fn trunk_rates_and_sizes() {
    let p = TrunkParams::new(1000, 1000, 1000, 500);
    assert_eq!(compute_split_rate(&p, 5), 1_000_000);
    assert_eq!(compute_split_rate(&p, 4), 367_879);
    assert_eq!(compute_split_rate(&p, 0), 0);
    assert_eq!(compute_branch_rate(&p, 0), 3_000_000);
    assert_eq!(compute_branch_rate(&p, 10), 1_103_637);
    assert_eq!(compute_branch_rate(&p, 41), 0);
    assert_eq!(compute_branch_size(&p, 0), 25_000);
    assert_eq!(compute_branch_size(&p, 3), 10_000);
    assert_eq!(compute_red_level(&p, 0), 255);
    assert_eq!(compute_red_level(&p, 10), 30);
    assert_eq!(compute_red_level(&p, 30), 1);
    assert_eq!(compute_red_level(&p, 40), 0);
}

#[test]
fn constant_sampler_returns_its_value() {
    let s = UniformSampler::new(17u32);
    assert_eq!(s.sample(), 17);
}

#[test]
fn seeded_source_draws_in_range() {
    let mut r = SeededSource::new(0);
    for n in 1..50usize {
        assert!(r.pick(n) < n);
    }
    assert!(!r.chance(0));
    assert!(r.chance(1_000_000));
    assert_eq!(r.normal(123, 0), 123);
}

#[test]
fn split_heading_is_relative_and_branch_heading_absolute() {
    assert_eq!(treegen::trunk_layer::split_heading(1000, 500), 1500);
    assert_eq!(treegen::trunk_layer::split_heading(3000, 500), 3500 - 6284);
    assert_eq!(treegen::trunk_layer::split_heading(-3000, -500), 6284 - 3500);
    assert_eq!(treegen::trunk_layer::branch_heading(500), 500);
    assert_eq!(treegen::trunk_layer::branch_heading(6284 + 500), 500);
}

#[test]
fn parameter_checks() {
    assert!(TrunkParams::new(1000, 1000, 1000, 500).is_valid());
    let mut p = TrunkParams::new(1000, 1000, 1000, 500);
    p.branch_size_falloff = 0;
    assert!(!p.is_valid());
    let mut q = TrunkParams::new(1000, 1000, 1000, 500);
    q.variability = -1;
    assert!(!q.is_valid());
    assert!(BranchParams::new(1000, 1000, 500).is_valid());
    let mut b = BranchParams::new(1000, 1000, 500);
    b.base_size_reduction = 0;
    assert!(!b.is_valid());
    b.base_size_reduction = 100;
    b.base_angle_std_dev_deg = -1;
    assert!(!b.is_valid());
}

#[test]
fn pipeline_grows_one_rooted_tree() {
    let p = treegen::pipeline::Pipeline::new(
        TrunkParams::new(1000, 1000, 1000, 500),
        BranchParams::new(1000, 1000, 500),
        11,
    )
    .unwrap();
    let t = p.generate();
    let roots = t.nodes.nodes.iter().filter(|n| n.parent_index.is_none()).count();
    assert_eq!(roots, 1);
    assert!(t.nodes.nodes[0].parent_index.is_none());
    let mut bad = BranchParams::new(1000, 1000, 500);
    bad.base_size_reduction = -5;
    assert!(treegen::pipeline::Pipeline::new(TrunkParams::new(0, 0, 0, 0), bad, 1).is_none());
}

#[test]
fn splits_never_exceed_max_children() {
    for k in 0..4usize {
        let mut p = TrunkParams::new(1000, 1000, 1000, 500);
        p.max_children = k;
        for seed in 1..15u64 {
            let mut rng = SeededSource::new(seed);
            let t = TrunkLayer::generate(Tree::new(), &p, &mut rng);
            assert!(t.nodes.nodes.iter().all(|n| n.children_indices.len() <= k));
        }
    }
}

#[test]
fn explicit_height_path_has_height_plus_one_nodes() {
    let mut p = TrunkParams::new(0, 0, 1000, 500);
    p.max_children = 1;
    for h in 0..11u64 {
        let mut rng = SeededSource::new(h + 1);
        let t = treegen::trunk_layer::grow_trunk(Tree::new(), &p, h, 1000, &mut rng);
        assert_eq!(t.nodes.nodes.len() as u64, h + 1);
        for i in 1..t.nodes.nodes.len() {
            assert_eq!(t.nodes.nodes[i].parent_index, Some(i - 1));
        }
    }
}

#[test]
fn sizes_and_colours_follow_depth() {
    let p = TrunkParams::new(1000, 1000, 1000, 500);
    for seed in 1..10u64 {
        let mut rng = SeededSource::new(seed);
        let t = treegen::trunk_layer::grow_trunk(Tree::new(), &p, 8, 1000, &mut rng);
        let n = &t.nodes.nodes;
        let mut depth = vec![0u64; n.len()];
        for i in 1..n.len() {
            let q = n[i].parent_index.unwrap();
            depth[i] = depth[q] + 1;
            assert!(depth[i] <= 8);
            assert_eq!(n[i].thickness, compute_branch_size(&p, depth[i] - 1));
            assert_eq!(
                n[i].color,
                Some(Rgb { red: compute_red_level(&p, depth[i] - 1), green: 0, blue: 0 })
            );
        }
        assert!(2 * n.len() <= 9 * 10);
    }
}

#[test]
fn tip_headings_follow_the_rules() {
    let mut p = TrunkParams::new(1000, 1000, 1000, 500);
    p.max_children = 2;
    // a split: both draws relative to the parent
    assert_eq!(tip_headings(&p, 0, 1000, true, false, 500, -300), vec![1500, 700]);
    // a split that would overshoot the cap falls back to the branch trial
    assert_eq!(tip_headings(&p, 1, 1000, true, true, 500, -300), vec![500]);
    // a branch: absolute heading
    assert_eq!(tip_headings(&p, 0, 1000, false, true, 500, 0), vec![500]);
    assert_eq!(tip_headings(&p, 0, 1000, false, false, 500, 0), Vec::<i64>::new());
    assert_eq!(tip_headings(&p, 2, 1000, true, true, 500, 0), Vec::<i64>::new());
}

#[test]
fn certain_branching_gives_every_tip_a_full_chain() {
    let mut t = Tree::new();
    t.add_node(None, 1000, 0, 5);
    t.add_node(Some(0), 1000, 0, 5);
    t.add_node(Some(0), 1000, 0, 5);
    let mut p = BranchParams::new(1000, 1000, 500);
    p.base_size_reduction = 150;
    let mut rng = SeededSource::new(9);
    let t = BranchLayer::generate(t, &p, &mut rng);
    // sizes 900, 750 are above 600; 600 is not: two twigs per tip
    let n = &t.nodes.nodes;
    assert_eq!(n.len(), 3 + 3 * 2);
    for i in 3..n.len() {
        let expect = if n[i].thickness - 150 > 600 { 1 } else { 0 };
        assert_eq!(n[i].children_indices.len(), expect);
    }
}

#[test]
fn zero_deviation_headings_are_the_means() {
    let mut p = TrunkParams::new(1000, 1000, 1000, 0);
    p.lean_bias = 5_000;
    let pos = 174 + 87; // spread * rad(10 deg) + rad(5 deg), in milliradians, rounded down
    let neg = -175 + 87;
    let lean = 87;
    for seed in 1..10u64 {
        let mut rng = SeededSource::new(seed);
        let t = TrunkLayer::generate(Tree::new(), &p, &mut rng);
        let n = &t.nodes.nodes;
        for i in 1..n.len() {
            let q = n[i].parent_index.unwrap();
            let a = n[i].angle;
            let rel = |d: i64| treegen::fixed::normalize_angle(n[q].angle + d);
            assert!(a == rel(pos) || a == rel(neg) || a == lean, "node {} heading {}", i, a);
        }
    }
}
