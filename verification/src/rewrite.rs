//! Merge-producing rewrite rules.
//!
//! A rewrite is a pure function from the current relations — the e-node store
//! and the canonical lookup — to a multiset of proposed merge edges; rewrites
//! never synthesize fresh e-nodes, they only merge existing classes.  The
//! rule corpus is a closed set of variants so that each rule's output is
//! pinned exactly by its contract:
//!
//! - [`Rewrite::SubToLhs`] deletes subtractions: the class of every `Sub`
//!   e-node is merged with the class of its left operand.
//! - [`Rewrite::AddSubCancel`] implements `(add ?x (sub ?y ?x)) => ?y`: when
//!   an `Add`'s right operand is the class of a `Sub` whose right operand is
//!   the `Add`'s left operand, the `Add`'s class is merged with the class of
//!   the `Sub`'s left operand.
//!
//! A rule premise whose canonical lookup fails — an operand id the `canon`
//! relation does not cover — produces no edge for that match.

use vstd::prelude::*;
use crate::enode::ENode;
use crate::ids::{EClassId, ENodeId};
use crate::relation::{canon_map_of, distinct_canon_keys, maps_to, lemma_canon_val,
    merge_edge_set};

verus! {

/// A merge-producing rewrite rule.
#[derive(Debug, Clone, Copy, PartialEq, Eq, Structural)]
pub enum Rewrite {
    /// Merge every `Sub` e-node's class with the class of its left operand.
    SubToLhs,
    /// `(add ?x (sub ?y ?x)) => ?y`.
    AddSubCancel,
}

/// The merge edge the sub-deletion rule emits for store entry `i`, if its
/// premises canonicalize.
pub open spec fn sub_lhs_result(
    ns: Seq<(ENodeId, ENode)>,
    cm: Map<u64, u64>,
    i: int,
) -> Option<(u64, u64)> {
    match ns[i].1 {
        ENode::Sub(s) => if cm.dom().contains(ns[i].0.0) && cm.dom().contains(s.lhs.0) {
            Some((cm[ns[i].0.0], cm[s.lhs.0]))
        } else {
            None
        },
        _ => None,
    }
}

/// The merge edge the add-sub cancellation rule emits for the store pair
/// `(i, j)` — `i` the `Add`, `j` the `Sub` — if its premises canonicalize
/// and its class equations hold.
pub open spec fn add_sub_result(
    ns: Seq<(ENodeId, ENode)>,
    cm: Map<u64, u64>,
    i: int,
    j: int,
) -> Option<(u64, u64)> {
    match (ns[i].1, ns[j].1) {
        (ENode::Add(ad), ENode::Sub(sb)) => if cm.dom().contains(ns[i].0.0)
            && cm.dom().contains(ns[j].0.0) && cm.dom().contains(ad.lhs.0)
            && cm.dom().contains(ad.rhs.0) && cm.dom().contains(sb.lhs.0)
            && cm.dom().contains(sb.rhs.0) && cm[ad.rhs.0] == cm[ns[j].0.0]
            && cm[sb.rhs.0] == cm[ad.lhs.0] {
            Some((cm[ns[i].0.0], cm[sb.lhs.0]))
        } else {
            None
        },
        _ => None,
    }
}

/// The set of merge edges a rule proposes over the current relations.
pub open spec fn rule_edge(
    r: Rewrite,
    ns: Seq<(ENodeId, ENode)>,
    cm: Map<u64, u64>,
    a: u64,
    b: u64,
) -> bool {
    match r {
        Rewrite::SubToLhs => exists|i: int|
            0 <= i < ns.len() && #[trigger] sub_lhs_result(ns, cm, i) == Some((a, b)),
        Rewrite::AddSubCancel => exists|i: int, j: int|
            0 <= i < ns.len() && 0 <= j < ns.len()
                && #[trigger] add_sub_result(ns, cm, i, j) == Some((a, b)),
    }
}

/// Look `x` up in the two-column `canon` relation.
fn lookup(canon: &Vec<(ENodeId, EClassId)>, x: u64) -> (r: Option<u64>)
    requires
        distinct_canon_keys(canon@),
    ensures
        match r {
            Some(v) => canon_map_of(canon@).dom().contains(x) && canon_map_of(canon@)[x] == v,
            None => !canon_map_of(canon@).dom().contains(x),
        },
{
    let mut i: usize = 0;
    while i < canon.len()
        invariant
            i <= canon@.len(),
            distinct_canon_keys(canon@),
            forall|k: int| 0 <= k < i ==> (#[trigger] canon@[k]).0.0 != x,
        decreases canon@.len() - i,
    {
        if canon[i].0.0 == x {
            proof {
                assert(canon@[i as int].0.0 == x);
                assert(maps_to(canon@, x, canon@[i as int].1.0));
                lemma_canon_val(canon@, x, canon@[i as int].1.0);
            }
            return Some(canon[i].1.0);
        }
        i += 1;
    }
    proof {
        if canon_map_of(canon@).dom().contains(x) {
            let k = choose|k: int| 0 <= k < canon@.len() && (#[trigger] canon@[k]).0.0 == x;
            assert(false);
        }
    }
    None
}

fn apply_sub_to_lhs(
    enodes: &Vec<(ENodeId, ENode)>,
    canon: &Vec<(ENodeId, EClassId)>,
) -> (out: Vec<(EClassId, EClassId)>)
    requires
        distinct_canon_keys(canon@),
    ensures
        forall|e: (u64, u64)| #[trigger] merge_edge_set(out@).contains(e)
            <==> rule_edge(Rewrite::SubToLhs, enodes@, canon_map_of(canon@), e.0, e.1),
{
    let ghost cm = canon_map_of(canon@);
    let mut out: Vec<(EClassId, EClassId)> = Vec::new();
    let mut i: usize = 0;
    while i < enodes.len()
        invariant
            i <= enodes@.len(),
            distinct_canon_keys(canon@),
            cm == canon_map_of(canon@),
            forall|t: int| 0 <= t < out@.len()
                ==> exists|ii: int|
                    0 <= ii < i && #[trigger] sub_lhs_result(enodes@, cm, ii)
                        == Some(((#[trigger] out@[t]).0.0, out@[t].1.0)),
            forall|ii: int|
                0 <= ii < i && (#[trigger] sub_lhs_result(enodes@, cm, ii)).is_some()
                    ==> exists|t: int|
                        0 <= t < out@.len() && ((#[trigger] out@[t]).0.0, out@[t].1.0)
                            == sub_lhs_result(enodes@, cm, ii).unwrap(),
        decreases enodes@.len() - i,
    {
        let (owner, shape) = enodes[i];
        let ghost out_pre = out@;
        proof {
            assert(enodes@[i as int].0 == owner && enodes@[i as int].1 == shape);
        }
        let mut pushed = false;
        if let ENode::Sub(s) = shape {
            if let (Some(a), Some(b)) = (lookup(canon, owner.0), lookup(canon, s.lhs.0)) {
                out.push((EClassId::new(a), EClassId::new(b)));
                pushed = true;
                proof {
                    let n = out_pre.len() as int;
                    assert(out@ == out_pre.push((EClassId(a), EClassId(b))));
                    assert(out@[n].0.0 == a && out@[n].1.0 == b);
                    assert forall|t: int| 0 <= t < n implies out@[t] == out_pre[t] by {}
                    assert(sub_lhs_result(enodes@, cm, i as int) == Some((a, b)));
                }
            }
        }
        proof {
            if !pushed {
                assert(sub_lhs_result(enodes@, cm, i as int).is_none());
            }
        }
        i += 1;
    }
    proof {
        assert forall|e: (u64, u64)| #[trigger] merge_edge_set(out@).contains(e)
            implies rule_edge(Rewrite::SubToLhs, enodes@, cm, e.0, e.1) by {
            let t = choose|t: int|
                0 <= t < out@.len() && (#[trigger] out@[t]).0.0 == e.0 && out@[t].1.0 == e.1;
        }
        assert forall|e: (u64, u64)| rule_edge(Rewrite::SubToLhs, enodes@, cm, e.0, e.1)
            implies #[trigger] merge_edge_set(out@).contains(e) by {
            let ii = choose|ii: int|
                0 <= ii < enodes@.len() && #[trigger] sub_lhs_result(enodes@, cm, ii)
                    == Some((e.0, e.1));
            let t = choose|t: int|
                0 <= t < out@.len() && ((#[trigger] out@[t]).0.0, out@[t].1.0)
                    == sub_lhs_result(enodes@, cm, ii).unwrap();
            assert(out@[t].0.0 == e.0 && out@[t].1.0 == e.1);
        }
    }
    out
}

/// Output entry `t` descends from some matching store pair.
pub open spec fn add_sub_sound_at(
    ns: Seq<(ENodeId, ENode)>,
    cm: Map<u64, u64>,
    out: Seq<(EClassId, EClassId)>,
    t: int,
) -> bool {
    exists|ii: int, jj: int|
        0 <= ii < ns.len() && 0 <= jj < ns.len()
            && #[trigger] add_sub_result(ns, cm, ii, jj) == Some((out[t].0.0, out[t].1.0))
}

/// The edge of the matching store pair `(ii, jj)`, if any, is in the output.
pub open spec fn add_sub_present(
    ns: Seq<(ENodeId, ENode)>,
    cm: Map<u64, u64>,
    out: Seq<(EClassId, EClassId)>,
    ii: int,
    jj: int,
) -> bool {
    add_sub_result(ns, cm, ii, jj).is_some() ==> exists|t: int|
        0 <= t < out.len() && ((#[trigger] out[t]).0.0, out[t].1.0)
            == add_sub_result(ns, cm, ii, jj).unwrap()
}

#[verifier::rlimit(80)]
fn apply_add_sub_cancel(
    enodes: &Vec<(ENodeId, ENode)>,
    canon: &Vec<(ENodeId, EClassId)>,
) -> (out: Vec<(EClassId, EClassId)>)
    requires
        distinct_canon_keys(canon@),
    ensures
        forall|e: (u64, u64)| #[trigger] merge_edge_set(out@).contains(e)
            <==> rule_edge(Rewrite::AddSubCancel, enodes@, canon_map_of(canon@), e.0, e.1),
{
    let ghost cm = canon_map_of(canon@);
    let mut out: Vec<(EClassId, EClassId)> = Vec::new();
    let mut i: usize = 0;
    while i < enodes.len()
        invariant
            i <= enodes@.len(),
            distinct_canon_keys(canon@),
            cm == canon_map_of(canon@),
            forall|t: int| 0 <= t < out@.len() ==> #[trigger] add_sub_sound_at(enodes@, cm, out@, t),
            forall|ii: int, jj: int|
                0 <= ii < i && 0 <= jj < enodes@.len()
                    ==> #[trigger] add_sub_present(enodes@, cm, out@, ii, jj),
        decreases enodes@.len() - i,
    {
        let (a_owner, a_shape) = enodes[i];
        proof {
            assert(enodes@[i as int].0 == a_owner && enodes@[i as int].1 == a_shape);
        }
        let mut j: usize = 0;
        while j < enodes.len()
            invariant
                i < enodes@.len(),
                j <= enodes@.len(),
                distinct_canon_keys(canon@),
                cm == canon_map_of(canon@),
                enodes@[i as int].0 == a_owner,
                enodes@[i as int].1 == a_shape,
                forall|t: int| 0 <= t < out@.len()
                    ==> #[trigger] add_sub_sound_at(enodes@, cm, out@, t),
                forall|ii: int, jj: int|
                    0 <= ii < i && 0 <= jj < enodes@.len()
                        ==> #[trigger] add_sub_present(enodes@, cm, out@, ii, jj),
                forall|jj: int| 0 <= jj < j
                    ==> #[trigger] add_sub_present(enodes@, cm, out@, i as int, jj),
            decreases enodes@.len() - j,
        {
            let (d_owner, d_shape) = enodes[j];
            let ghost out_pre = out@;
            proof {
                assert(enodes@[j as int].0 == d_owner && enodes@[j as int].1 == d_shape);
            }
            let mut pushed = false;
            if let (ENode::Add(ad), ENode::Sub(sb)) = (a_shape, d_shape) {
                let premises = (
                    lookup(canon, a_owner.0),
                    lookup(canon, d_owner.0),
                    lookup(canon, ad.lhs.0),
                    lookup(canon, ad.rhs.0),
                    lookup(canon, sb.lhs.0),
                    lookup(canon, sb.rhs.0),
                );
                if let (Some(ca), Some(cd), Some(cal), Some(car), Some(csl), Some(csr)) =
                    premises {
                    if car == cd && csr == cal {
                        out.push((EClassId::new(ca), EClassId::new(csl)));
                        pushed = true;
                        proof {
                            let n = out_pre.len() as int;
                            assert(out@ == out_pre.push((EClassId(ca), EClassId(csl))));
                            assert(out@[n].0.0 == ca && out@[n].1.0 == csl);
                            assert forall|t: int| 0 <= t < n implies out@[t] == out_pre[t] by {}
                            assert(add_sub_result(enodes@, cm, i as int, j as int)
                                == Some((ca, csl)));
                            assert forall|t: int| 0 <= t < out@.len()
                                implies #[trigger] add_sub_sound_at(enodes@, cm, out@, t) by {
                                if t < n {
                                    assert(add_sub_sound_at(enodes@, cm, out_pre, t));
                                    let (ii, jj) = choose|ii: int, jj: int|
                                        0 <= ii < enodes@.len() && 0 <= jj < enodes@.len()
                                            && #[trigger] add_sub_result(enodes@, cm, ii, jj)
                                                == Some((out_pre[t].0.0, out_pre[t].1.0));
                                    assert(add_sub_result(enodes@, cm, ii, jj)
                                        == Some((out@[t].0.0, out@[t].1.0)));
                                } else {
                                    assert(add_sub_result(enodes@, cm, i as int, j as int)
                                        == Some((out@[t].0.0, out@[t].1.0)));
                                }
                            }
                            assert forall|ii: int, jj: int|
                                0 <= ii < enodes@.len() && 0 <= jj < enodes@.len()
                                    && add_sub_present(enodes@, cm, out_pre, ii, jj)
                                implies #[trigger] add_sub_present(enodes@, cm, out@, ii, jj) by {
                                if add_sub_result(enodes@, cm, ii, jj).is_some() {
                                    let t = choose|t: int|
                                        0 <= t < out_pre.len()
                                            && ((#[trigger] out_pre[t]).0.0, out_pre[t].1.0)
                                                == add_sub_result(enodes@, cm, ii, jj).unwrap();
                                    assert((out@[t].0.0, out@[t].1.0)
                                        == add_sub_result(enodes@, cm, ii, jj).unwrap());
                                }
                            }
                            assert(add_sub_present(enodes@, cm, out@, i as int, j as int)) by {
                                assert((out@[n].0.0, out@[n].1.0)
                                    == add_sub_result(enodes@, cm, i as int, j as int).unwrap());
                            }
                        }
                    }
                }
            }
            proof {
                if !pushed {
                    assert(add_sub_result(enodes@, cm, i as int, j as int).is_none());
                    assert(add_sub_present(enodes@, cm, out@, i as int, j as int));
                }
            }
            j += 1;
        }
        i += 1;
    }
    proof {
        assert forall|e: (u64, u64)| #[trigger] merge_edge_set(out@).contains(e)
            implies rule_edge(Rewrite::AddSubCancel, enodes@, cm, e.0, e.1) by {
            let t = choose|t: int|
                0 <= t < out@.len() && (#[trigger] out@[t]).0.0 == e.0 && out@[t].1.0 == e.1;
            assert(add_sub_sound_at(enodes@, cm, out@, t));
            let (ii, jj) = choose|ii: int, jj: int|
                0 <= ii < enodes@.len() && 0 <= jj < enodes@.len()
                    && #[trigger] add_sub_result(enodes@, cm, ii, jj)
                        == Some((out@[t].0.0, out@[t].1.0));
        }
        assert forall|e: (u64, u64)| rule_edge(Rewrite::AddSubCancel, enodes@, cm, e.0, e.1)
            implies #[trigger] merge_edge_set(out@).contains(e) by {
            let (ii, jj) = choose|ii: int, jj: int|
                0 <= ii < enodes@.len() && 0 <= jj < enodes@.len()
                    && #[trigger] add_sub_result(enodes@, cm, ii, jj) == Some((e.0, e.1));
            assert(add_sub_present(enodes@, cm, out@, ii, jj));
            let t = choose|t: int|
                0 <= t < out@.len() && ((#[trigger] out@[t]).0.0, out@[t].1.0)
                    == add_sub_result(enodes@, cm, ii, jj).unwrap();
            assert(out@[t].0.0 == e.0 && out@[t].1.0 == e.1);
        }
    }
    out
}

/// Evaluate one rewrite rule over the store and the canonical lookup,
/// producing exactly the rule's proposed merge edges.
pub fn apply_rewrite(
    rewrite: &Rewrite,
    enodes: &Vec<(ENodeId, ENode)>,
    canon: &Vec<(ENodeId, EClassId)>,
) -> (out: Vec<(EClassId, EClassId)>)
    requires
        distinct_canon_keys(canon@),
    ensures
        forall|e: (u64, u64)| #[trigger] merge_edge_set(out@).contains(e)
            <==> rule_edge(*rewrite, enodes@, canon_map_of(canon@), e.0, e.1),
{
    match rewrite {
        Rewrite::SubToLhs => apply_sub_to_lhs(enodes, canon),
        Rewrite::AddSubCancel => apply_add_sub_cancel(enodes, canon),
    }
}

} // verus!
