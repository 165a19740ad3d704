//! The common shape of the growth phases.
use vstd::prelude::*;
use crate::node::extends;
use crate::sampler::RandomSource;
use crate::tree::Tree;

verus! {

/// A growth phase: it takes a tree and its parameters and returns the tree
/// extended. Nodes are only appended; an existing node only gains children.
pub trait Layer<Params> where Params: Copy {
    /// The parameters the phase accepts.
    spec fn accepts(params: &Params) -> bool;

    fn generate<R: RandomSource>(tree: Tree, params: &Params, rng: &mut R) -> (r: Tree)
        requires
            tree.wf(),
            Self::accepts(params),
        ensures
            r.wf(),
            extends(tree.nodes.nodes@, r.nodes.nodes@),
    ;
}

/// Something that grows a whole tree.
pub trait Generator {
    fn generate(&self) -> (r: Tree)
        ensures
            r.wf(),
    ;
}

} // verus!
