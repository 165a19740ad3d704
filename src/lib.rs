//! Procedural growth of branching tree skeletons.
//!
//! A [`tree::Tree`] owns a [`node::NodeGraph`]: an append-only arena of
//! segments with parent and child links, and a [`quadtree::Quadtree`] that
//! indexes their anchor points. Growth phases ([`layer::Layer`]) extend a
//! tree: [`trunk_layer::TrunkLayer`] grows a branching trunk level by level,
//! [`branch_layer::BranchLayer`] hangs chains of shrinking twigs from its
//! tips. Random draws come from a [`sampler::RandomSource`] that the caller
//! passes in. All quantities are fixed-point integers, see [`fixed`].
pub mod branch_layer;
pub mod fixed;
pub mod geometry;
pub mod layer;
pub mod node;
pub mod pipeline;
pub mod quadtree;
pub mod render;
pub mod sampler;
pub mod tree;
pub mod trunk_layer;
