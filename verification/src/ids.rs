//! Identifier algebra: disjoint identifier spaces for e-nodes and e-classes
//! over one shared 64-bit carrier, with a free, total reinterpretation in each
//! direction.  Canonical e-class ids are chosen as the minimum e-node id in an
//! equivalence component, so keeping the carriers compatible lets the
//! union-find work over e-node ids without a translation table.

use vstd::prelude::*;

verus! {

/// Identifier of an equivalence class of e-nodes.
#[derive(Debug, Clone, Copy, PartialEq, Eq, Structural, PartialOrd, Ord, Hash)]
pub struct EClassId(pub u64);

impl EClassId {
    pub fn new(id: u64) -> (r: Self)
        ensures
            r.0 == id,
    {
        EClassId(id)
    }

    /// Reinterpret the carrier as an e-node id.
    pub fn as_enode(self) -> (r: ENodeId)
        ensures
            r.0 == self.0,
    {
        ENodeId(self.0)
    }
}

/// Identifier of a single e-node, unique over a run.
#[derive(Debug, Clone, Copy, PartialEq, Eq, Structural, PartialOrd, Ord, Hash)]
pub struct ENodeId(pub u64);

impl ENodeId {
    pub fn new(id: u64) -> (r: Self)
        ensures
            r.0 == id,
    {
        ENodeId(id)
    }

    /// Reinterpret the carrier as an e-class id.
    pub fn as_eclass(self) -> (r: EClassId)
        ensures
            r.0 == self.0,
    {
        EClassId(self.0)
    }
}

/// The two reinterpretations are mutually inverse: going around the loop in
/// either direction returns the identifier one started from.
pub proof fn lemma_reinterpretation_bijective(n: ENodeId, c: EClassId)
    ensures
        EClassId(n.0).0 == n.0,
        ENodeId(c.0).0 == c.0,
{
}

} // verus!
