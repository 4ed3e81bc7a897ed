//! Signed-multiset input batches and their consolidation.
//!
//! The engine ingests e-node insertions and retractions as tuples with a
//! signed multiplicity, so retractions are first-class: any change to an
//! e-node is a retraction of the old pair and an insertion of the new one.
//! Batches concatenate; what the engine works on is the positive projection
//! of the accumulated weights, clamped to set semantics.

use vstd::prelude::*;
use crate::enode::ENode;
use crate::ids::{EClassId, ENodeId};

verus! {

/// Net multiplicity of the pair `(id, shape)` in a batch of signed e-node
/// updates.
pub open spec fn enode_weight(b: Seq<(ENodeId, ENode, i64)>, id: ENodeId, shape: ENode) -> int
    decreases b.len(),
{
    if b.len() == 0 {
        0
    } else {
        enode_weight(b.drop_last(), id, shape) + if b.last().0 == id && b.last().1 == shape {
            b.last().2 as int
        } else {
            0
        }
    }
}

/// Net multiplicity of the merge edge `(a, b)` in a batch of signed merger
/// updates.
pub open spec fn merge_weight(b: Seq<(EClassId, EClassId, i64)>, a: EClassId, c: EClassId) -> int
    decreases b.len(),
{
    if b.len() == 0 {
        0
    } else {
        merge_weight(b.drop_last(), a, c) + if b.last().0 == a && b.last().1 == c {
            b.last().2 as int
        } else {
            0
        }
    }
}

/// The positive projection is functional: each e-node id carries at most one
/// shape at a time.
pub open spec fn functional_updates(b: Seq<(ENodeId, ENode, i64)>) -> bool {
    forall|id: ENodeId, s1: ENode, s2: ENode|
        #[trigger] enode_weight(b, id, s1) > 0 && #[trigger] enode_weight(b, id, s2) > 0
            ==> s1 == s2
}

/// `ns` is the positive projection of the batch: exactly the pairs with
/// positive net multiplicity, each once, in some order.
pub open spec fn denotes_store(
    b: Seq<(ENodeId, ENode, i64)>,
    ns: Seq<(ENodeId, ENode)>,
) -> bool {
    &&& crate::relation::distinct_ids(ns)
    &&& forall|i: int| 0 <= i < ns.len()
            ==> enode_weight(b, (#[trigger] ns[i]).0, ns[i].1) > 0
    &&& forall|id: ENodeId, s: ENode| #[trigger] enode_weight(b, id, s) > 0
            ==> exists|i: int| 0 <= i < ns.len() && #[trigger] ns[i] == (id, s)
}

/// The merge edges with positive net multiplicity.
pub open spec fn live_merge_set(b: Seq<(EClassId, EClassId, i64)>) -> Set<(u64, u64)> {
    Set::new(|e: (u64, u64)| merge_weight(b, EClassId(e.0), EClassId(e.1)) > 0)
}

/// Weights add across concatenated batches.
pub proof fn lemma_enode_weight_concat(
    b1: Seq<(ENodeId, ENode, i64)>,
    b2: Seq<(ENodeId, ENode, i64)>,
    id: ENodeId,
    shape: ENode,
)
    ensures
        enode_weight(b1 + b2, id, shape) == enode_weight(b1, id, shape)
            + enode_weight(b2, id, shape),
    decreases b2.len(),
{
    if b2.len() == 0 {
        assert((b1 + b2) =~= b1);
    } else {
        lemma_enode_weight_concat(b1, b2.drop_last(), id, shape);
        assert((b1 + b2).drop_last() =~= b1 + b2.drop_last());
        assert((b1 + b2).last() == b2.last());
    }
}

/// A batch followed by its exact negation contributes nothing.
pub open spec fn negated(
    u: Seq<(ENodeId, ENode, i64)>,
    nu: Seq<(ENodeId, ENode, i64)>,
) -> bool {
    &&& nu.len() == u.len()
    &&& forall|i: int| 0 <= i < u.len()
            ==> (#[trigger] nu[i]).0 == u[i].0 && nu[i].1 == u[i].1
                && nu[i].2 as int == -(u[i].2 as int)
}

pub proof fn lemma_negated_weight(
    u: Seq<(ENodeId, ENode, i64)>,
    nu: Seq<(ENodeId, ENode, i64)>,
    id: ENodeId,
    shape: ENode,
)
    requires
        negated(u, nu),
    ensures
        enode_weight(nu, id, shape) == -enode_weight(u, id, shape),
    decreases u.len(),
{
    if u.len() > 0 {
        lemma_negated_weight(u.drop_last(), nu.drop_last(), id, shape);
        assert(nu.last() == nu[u.len() - 1]);
        assert(u.last() == u[u.len() - 1]);
    }
}

fn batch_contains(seen: &Vec<(ENodeId, ENode)>, id: ENodeId, shape: ENode) -> (r: bool)
    ensures
        r == exists|i: int| 0 <= i < seen@.len() && #[trigger] seen@[i] == (id, shape),
{
    let mut i: usize = 0;
    while i < seen.len()
        invariant
            i <= seen@.len(),
            forall|k: int| 0 <= k < i ==> #[trigger] seen@[k] != (id, shape),
        decreases seen@.len() - i,
    {
        if seen[i].0 == id && seen[i].1 == shape {
            proof {
                assert(seen@[i as int] == (id, shape));
            }
            return true;
        }
        i += 1;
    }
    proof {
        if exists|i: int| 0 <= i < seen@.len() && #[trigger] seen@[i] == (id, shape) {
            let w = choose|i: int| 0 <= i < seen@.len() && #[trigger] seen@[i] == (id, shape);
            assert(false);
        }
    }
    false
}

/// Net weight of `(id, shape)` over the whole batch.
fn net_enode_weight(b: &Vec<(ENodeId, ENode, i64)>, id: ENodeId, shape: ENode) -> (w: i128)
    ensures
        w as int == enode_weight(b@, id, shape),
{
    let mut w: i128 = 0;
    let mut i: usize = 0;
    while i < b.len()
        invariant
            i <= b@.len(),
            w as int == enode_weight(b@.take(i as int), id, shape),
            -0x8000_0000_0000_0000i128 * (i as i128) <= w
                <= 0x7fff_ffff_ffff_ffffi128 * (i as i128),
        decreases b@.len() - i,
    {
        let (eid, eshape, dw) = b[i];
        proof {
            assert(b@[i as int] == (eid, eshape, dw));
            assert(b@.take(i as int + 1).drop_last() =~= b@.take(i as int));
            assert(b@.take(i as int + 1).last() == b@[i as int]);
        }
        if eid == id && eshape == shape {
            w = w + dw as i128;
        }
        i += 1;
    }
    proof {
        assert(b@.take(b@.len() as int) =~= b@);
    }
    w
}

/// Consolidate a batch of signed e-node updates into its positive
/// projection, clamped to set semantics: one copy of each pair with positive
/// net multiplicity, in order of first appearance.
pub fn consolidate_enodes(b: &Vec<(ENodeId, ENode, i64)>) -> (ns: Vec<(ENodeId, ENode)>)
    requires
        functional_updates(b@),
    ensures
        denotes_store(b@, ns@),
{
    let mut ns: Vec<(ENodeId, ENode)> = Vec::new();
    let mut i: usize = 0;
    while i < b.len()
        invariant
            i <= b@.len(),
            functional_updates(b@),
            forall|k1: int, k2: int| 0 <= k1 < k2 < ns@.len()
                ==> #[trigger] ns@[k1] != #[trigger] ns@[k2],
            forall|k: int| 0 <= k < ns@.len()
                ==> enode_weight(b@, (#[trigger] ns@[k]).0, ns@[k].1) > 0,
            forall|id: ENodeId, s: ENode| #[trigger] enode_weight(b@, id, s) > 0
                && (exists|j: int| 0 <= j < i && #[trigger] b@[j] == (id, s, b@[j].2))
                ==> exists|k: int| 0 <= k < ns@.len() && #[trigger] ns@[k] == (id, s),
        decreases b@.len() - i,
    {
        let (id, shape, _) = b[i];
        proof {
            assert(b@[i as int].0 == id && b@[i as int].1 == shape);
        }
        let ghost ns_pre = ns@;
        if !batch_contains(&ns, id, shape) {
            let w = net_enode_weight(b, id, shape);
            if w > 0 {
                ns.push((id, shape));
                proof {
                    let n = ns_pre.len() as int;
                    assert(ns@ == ns_pre.push((id, shape)));
                    assert(ns@[n] == (id, shape));
                    assert forall|k: int| 0 <= k < n implies ns@[k] == ns_pre[k] by {}
                }
            }
        }
        proof {
            assert forall|xid: ENodeId, s: ENode| #[trigger] enode_weight(b@, xid, s) > 0
                && (exists|j: int| 0 <= j < i + 1 && #[trigger] b@[j] == (xid, s, b@[j].2))
                implies exists|k: int| 0 <= k < ns@.len() && #[trigger] ns@[k] == (xid, s) by {
                let j = choose|j: int| 0 <= j < i + 1 && #[trigger] b@[j] == (xid, s, b@[j].2);
                if j < i {
                    let k = choose|k: int| 0 <= k < ns_pre.len() && #[trigger] ns_pre[k] == (xid, s);
                    assert(ns@[k] == (xid, s));
                } else {
                    assert(xid == id && s == shape);
                    if exists|k: int| 0 <= k < ns_pre.len() && #[trigger] ns_pre[k] == (id, shape) {
                        let k = choose|k: int|
                            0 <= k < ns_pre.len() && #[trigger] ns_pre[k] == (id, shape);
                        assert(ns@[k] == (id, shape));
                    } else {
                        assert(ns@[ns@.len() - 1] == (id, shape));
                    }
                }
            }
        }
        i += 1;
    }
    proof {
        assert forall|id: ENodeId, s: ENode| #[trigger] enode_weight(b@, id, s) > 0
            implies exists|i: int| 0 <= i < ns@.len() && #[trigger] ns@[i] == (id, s) by {
            lemma_positive_weight_has_entry(b@, id, s);
            let j = choose|j: int| 0 <= j < b@.len() && (#[trigger] b@[j]).0 == id && b@[j].1 == s;
            assert(b@[j] == (id, s, b@[j].2));
        }
        assert forall|i1: int, i2: int| 0 <= i1 < i2 < ns@.len()
            implies (#[trigger] ns@[i1]).0 != (#[trigger] ns@[i2]).0 by {
            if ns@[i1].0 == ns@[i2].0 {
                assert(enode_weight(b@, ns@[i1].0, ns@[i1].1) > 0);
                assert(enode_weight(b@, ns@[i2].0, ns@[i2].1) > 0);
                assert(ns@[i1].1 == ns@[i2].1);
            }
        }
    }
    ns
}

/// A pair with positive net weight occurs in the batch.
proof fn lemma_positive_weight_has_entry(b: Seq<(ENodeId, ENode, i64)>, id: ENodeId, s: ENode)
    requires
        enode_weight(b, id, s) > 0,
    ensures
        exists|j: int| 0 <= j < b.len() && (#[trigger] b[j]).0 == id && b[j].1 == s,
    decreases b.len(),
{
    if b.last().0 == id && b.last().1 == s {
        assert(b[b.len() - 1].0 == id && b[b.len() - 1].1 == s);
    } else {
        lemma_positive_weight_has_entry(b.drop_last(), id, s);
        let j = choose|j: int|
            0 <= j < b.drop_last().len() && (#[trigger] b.drop_last()[j]).0 == id
                && b.drop_last()[j].1 == s;
        assert(b[j] == b.drop_last()[j]);
    }
}

fn merge_batch_contains(seen: &Vec<(EClassId, EClassId)>, a: EClassId, c: EClassId) -> (r: bool)
    ensures
        r == exists|i: int| 0 <= i < seen@.len() && #[trigger] seen@[i] == (a, c),
{
    let mut i: usize = 0;
    while i < seen.len()
        invariant
            i <= seen@.len(),
            forall|k: int| 0 <= k < i ==> #[trigger] seen@[k] != (a, c),
        decreases seen@.len() - i,
    {
        if seen[i].0 == a && seen[i].1 == c {
            proof {
                assert(seen@[i as int] == (a, c));
            }
            return true;
        }
        i += 1;
    }
    proof {
        if exists|i: int| 0 <= i < seen@.len() && #[trigger] seen@[i] == (a, c) {
            let w = choose|i: int| 0 <= i < seen@.len() && #[trigger] seen@[i] == (a, c);
            assert(false);
        }
    }
    false
}

/// Net weight of the merge edge `(a, c)` over the whole batch.
fn net_merge_weight(b: &Vec<(EClassId, EClassId, i64)>, a: EClassId, c: EClassId) -> (w: i128)
    ensures
        w as int == merge_weight(b@, a, c),
{
    let mut w: i128 = 0;
    let mut i: usize = 0;
    while i < b.len()
        invariant
            i <= b@.len(),
            w as int == merge_weight(b@.take(i as int), a, c),
            -0x8000_0000_0000_0000i128 * (i as i128) <= w
                <= 0x7fff_ffff_ffff_ffffi128 * (i as i128),
        decreases b@.len() - i,
    {
        let (x, y, dw) = b[i];
        proof {
            assert(b@[i as int] == (x, y, dw));
            assert(b@.take(i as int + 1).drop_last() =~= b@.take(i as int));
            assert(b@.take(i as int + 1).last() == b@[i as int]);
        }
        if x == a && y == c {
            w = w + dw as i128;
        }
        i += 1;
    }
    proof {
        assert(b@.take(b@.len() as int) =~= b@);
    }
    w
}

/// Consolidate a batch of signed merger updates into its positive
/// projection, clamped to set semantics.
pub fn consolidate_mergers(b: &Vec<(EClassId, EClassId, i64)>) -> (ms: Vec<(EClassId, EClassId)>)
    ensures
        crate::relation::merge_edge_set(ms@) == live_merge_set(b@),
{
    let mut ms: Vec<(EClassId, EClassId)> = Vec::new();
    let mut i: usize = 0;
    while i < b.len()
        invariant
            i <= b@.len(),
            forall|k: int| 0 <= k < ms@.len()
                ==> merge_weight(b@, (#[trigger] ms@[k]).0, ms@[k].1) > 0,
            forall|a: EClassId, c: EClassId| #[trigger] merge_weight(b@, a, c) > 0
                && (exists|j: int| 0 <= j < i && (#[trigger] b@[j]).0 == a && b@[j].1 == c)
                ==> exists|k: int| 0 <= k < ms@.len() && #[trigger] ms@[k] == (a, c),
        decreases b@.len() - i,
    {
        let (a, c, _) = b[i];
        proof {
            assert(b@[i as int].0 == a && b@[i as int].1 == c);
        }
        let ghost ms_pre = ms@;
        if !merge_batch_contains(&ms, a, c) {
            let w = net_merge_weight(b, a, c);
            if w > 0 {
                ms.push((a, c));
                proof {
                    assert(ms@ == ms_pre.push((a, c)));
                    assert(ms@[ms@.len() - 1] == (a, c));
                    assert forall|k: int| 0 <= k < ms_pre.len() implies ms@[k] == ms_pre[k] by {}
                }
            }
        }
        proof {
            assert forall|xa: EClassId, xc: EClassId| #[trigger] merge_weight(b@, xa, xc) > 0
                && (exists|j: int| 0 <= j < i + 1 && (#[trigger] b@[j]).0 == xa && b@[j].1 == xc)
                implies exists|k: int| 0 <= k < ms@.len() && #[trigger] ms@[k] == (xa, xc) by {
                let j = choose|j: int|
                    0 <= j < i + 1 && (#[trigger] b@[j]).0 == xa && b@[j].1 == xc;
                if j < i {
                    let k = choose|k: int|
                        0 <= k < ms_pre.len() && #[trigger] ms_pre[k] == (xa, xc);
                    assert(ms@[k] == (xa, xc));
                } else {
                    if exists|k: int| 0 <= k < ms_pre.len() && #[trigger] ms_pre[k] == (a, c) {
                        let k = choose|k: int|
                            0 <= k < ms_pre.len() && #[trigger] ms_pre[k] == (a, c);
                        assert(ms@[k] == (a, c));
                    } else {
                        assert(ms@[ms@.len() - 1] == (a, c));
                    }
                }
            }
        }
        i += 1;
    }
    proof {
        assert forall|e: (u64, u64)| #[trigger] crate::relation::merge_edge_set(ms@).contains(e)
            implies live_merge_set(b@).contains(e) by {
            let k = choose|k: int|
                0 <= k < ms@.len() && (#[trigger] ms@[k]).0.0 == e.0 && ms@[k].1.0 == e.1;
            assert(ms@[k].0 == EClassId(e.0) && ms@[k].1 == EClassId(e.1));
        }
        assert forall|e: (u64, u64)| live_merge_set(b@).contains(e)
            implies #[trigger] crate::relation::merge_edge_set(ms@).contains(e) by {
            lemma_positive_merge_has_entry(b@, EClassId(e.0), EClassId(e.1));
            let j = choose|j: int|
                0 <= j < b@.len() && (#[trigger] b@[j]).0 == EClassId(e.0)
                    && b@[j].1 == EClassId(e.1);
            let k = choose|k: int|
                0 <= k < ms@.len() && #[trigger] ms@[k] == (EClassId(e.0), EClassId(e.1));
            assert(ms@[k].0.0 == e.0 && ms@[k].1.0 == e.1);
        }
        assert(crate::relation::merge_edge_set(ms@) =~= live_merge_set(b@));
    }
    ms
}

/// A merge edge with positive net weight occurs in the batch.
proof fn lemma_positive_merge_has_entry(b: Seq<(EClassId, EClassId, i64)>, a: EClassId, c: EClassId)
    requires
        merge_weight(b, a, c) > 0,
    ensures
        exists|j: int| 0 <= j < b.len() && (#[trigger] b[j]).0 == a && b[j].1 == c,
    decreases b.len(),
{
    if b.last().0 == a && b.last().1 == c {
        assert(b[b.len() - 1].0 == a && b[b.len() - 1].1 == c);
    } else {
        lemma_positive_merge_has_entry(b.drop_last(), a, c);
        let j = choose|j: int|
            0 <= j < b.drop_last().len() && (#[trigger] b.drop_last()[j]).0 == a
                && b.drop_last()[j].1 == c;
        assert(b[j] == b.drop_last()[j]);
    }
}

} // verus!
