//! UFL search kernels with machine-checked contracts: the exact flip-graph
//! over integer matrix-multiplication schemes, the blind genetic proposer and
//! the discovery engine over ternary genomes (graded by the rank-decomposition
//! predicate), the deterministic SplitMix64 stream they draw from, the EML
//! expression tree, the G(3,0,0) blade product table, and the geometric AST
//! with its decidable grade-type system, its renderer and its tree-GA.

pub mod prng;
pub mod flipgraph;
pub mod proposer;
pub mod predicate;
pub mod engine;
pub mod blade;
pub mod eml;
pub mod geo;
pub mod grade;
pub mod typing;
pub mod render;
pub mod memetic;
