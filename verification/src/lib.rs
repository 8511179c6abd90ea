//! A normalized relative-path representation and a hierarchical directory-tree
//! model: component-wise path ordering and common-ancestor computation, a
//! tree of directories with aggregated per-subtree change and conflict
//! states and depth-limited pruning, a stack-based builder that folds a
//! sorted flat walk into a tree in one pass, and a resolver that answers
//! subtree queries against an in-memory tree.

pub mod builder;
pub mod common;
pub mod model;
pub mod resolver;
