//! The whole growth: a trunk from an empty tree, then twigs on it.
use vstd::prelude::*;
use crate::branch_layer::{BranchLayer, BranchParams, lemma_twig_start, twig};
use crate::layer::{Generator, Layer};
use crate::node::{Node, extends, single_root};
use crate::sampler::SeededSource;
use crate::tree::Tree;
use crate::trunk_layer::{TrunkLayer, TrunkParams, lemma_trunk_grown_kept, max_size, trunk_grown};

verus! {

/// The first `k` nodes are a trunk grown from node 0 and the rest are
/// twigs hung from them.
pub open spec fn trunk_then_twigs(tp: TrunkParams, bp: BranchParams, nodes: Seq<Node>, k: int) -> bool {
    &&& 1 <= k <= nodes.len()
    &&& forall|i: int| 0 < i < k ==> trunk_grown(tp, nodes, 0, i)
    &&& forall|i: int| k <= i < nodes.len() ==> twig(bp, nodes.subrange(0, k), nodes, i)
}

/// Runs the trunk phase on an empty tree and the branch phase on the
/// result, with draws from a source seeded with `seed`.
pub struct Pipeline {
    trunk: TrunkParams,
    branch: BranchParams,
    seed: u64,
}

impl Pipeline {
    /// The trunk parameters.
    pub closed spec fn spec_trunk(&self) -> TrunkParams {
        self.trunk
    }

    /// The branch parameters.
    pub closed spec fn spec_branch(&self) -> BranchParams {
        self.branch
    }

    #[verifier::type_invariant]
    spec fn inv(&self) -> bool {
        self.trunk.valid() && self.branch.valid()
    }

    /// A pipeline with the given parameters, if both phases accept them.
    pub fn new(trunk: TrunkParams, branch: BranchParams, seed: u64) -> (r: Option<Pipeline>)
        ensures
            r is Some <==> trunk.valid() && branch.valid(),
            r matches Some(q) ==> q.spec_trunk() == trunk && q.spec_branch() == branch,
    {
        if trunk.is_valid() && branch.is_valid() {
            Some(Pipeline { trunk, branch, seed })
        } else {
            None
        }
    }
}

impl Generator for Pipeline {
    /// The grown tree has exactly one root, the first node, as thick as
    /// the trunk's `max_size`; the nodes up to some `k` are the trunk, and
    /// the rest are twigs hung from it. With zero split and branch rates
    /// the tree is the root alone.
    fn generate(&self) -> (r: Tree)
        ensures
            single_root(r.nodes.nodes@),
            r.nodes.nodes@[0].thickness == max_size(self.spec_trunk()),
            exists|k: int| #[trigger] trunk_then_twigs(self.spec_trunk(), self.spec_branch(), r.nodes.nodes@, k),
            self.spec_trunk().split == 0 && self.spec_trunk().branch == 0
                && self.spec_branch().branch == 0 ==> r.size() == 1,
    {
        proof {
            use_type_invariant(self);
        }
        let mut rng = SeededSource::new(self.seed);
        let trunk = TrunkLayer::generate(Tree::new(), &self.trunk, &mut rng);
        let ghost t = trunk.nodes.nodes@;
        let r = BranchLayer::generate(trunk, &self.branch, &mut rng);
        proof {
            let b = r.nodes.nodes@;
            let k = t.len() as int;
            assert(extends(t, b));
            assert forall|i: int| 0 < i < k implies trunk_grown(self.trunk, b, 0, i) by {
                assert(trunk_grown(self.trunk, t, 0, i));
                lemma_trunk_grown_kept(self.trunk, t, b, 0, i);
            }
            assert forall|i: int| k <= i < b.len() implies twig(self.branch, b.subrange(0, k), b, i) by {
                assert(twig(self.branch, t, b, i));
                lemma_twig_start(self.branch, t, b.subrange(0, k), b, i);
            }
            assert(b[0].thickness == t[0].thickness);
            assert(trunk_then_twigs(self.trunk, self.branch, b, k));
            assert(self.spec_trunk() == self.trunk && self.spec_branch() == self.branch);
            assert(trunk_then_twigs(self.spec_trunk(), self.spec_branch(), b, k));
        }
        r
    }
}

} // verus!
