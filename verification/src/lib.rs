//! An incremental e-graph engine.
//!
//! E-nodes — operator applications whose operand slots name e-classes — arrive
//! as a stream of signed insertions and retractions.  The engine derives, by an
//! equality-saturation fixpoint, a canonical e-class id for every live e-node
//! (the minimum id reachable through the discovered merge edges) and a
//! hash-consed table holding one representative per canonical shape.
//!
//! Modules, leaves first:
//! - [`ids`]: the two identifier spaces and their free reinterpretation.
//! - [`enode`]: e-node shapes (`Constant`, `Add`, `Sub`).
//! - [`relation`]: spec-level views of the executable relations.
//! - [`connectivity`]: undirected reachability over a merge-edge set, and the
//!   minimum-label specification the union-find is proved against.
//! - [`union_find`]: label propagation deriving canonical e-class ids.
//! - [`canonicalizer`]: operand rewriting and hash-consing.
//! - [`rewrite`]: the merge-producing rewrite rules.
//! - [`egraph`]: the saturation loop tying the pieces together, and the
//!   engine's public face.
//! - [`store`]: signed-multiset input batches and their consolidation.
//! - [`laws`]: the engine-wide invariants, stated and proved once.
//! - [`heuristics`]: inlining heuristics harvested from program relations.
//! - [`constant`]: constant values of the surrounding IR.
//! - [`render`]: edge classification for graph rendering.

pub mod canonicalizer;
pub mod connectivity;
pub mod constant;
pub mod egraph;
pub mod enode;
pub mod heuristics;
pub mod ids;
pub mod laws;
pub mod relation;
pub mod render;
pub mod rewrite;
pub mod store;
pub mod union_find;

