//! Canonicalizer: hash-cons over canonical operands.
//!
//! Each structural e-node's operand slots are rewritten through `canon`;
//! e-nodes are then grouped by their canonicalized shape.  Every inhabited
//! shape elects the e-node with the minimum id as its representative and
//! emits one entry into the canonical table; every other member of the group
//! yields a merge edge back to the representative, witnessing that all
//! e-nodes sharing a canonical shape are equivalent.  A group of size one
//! emits a representative but no merge edges; self-loops are suppressed.
//!
//! An e-node whose operand references an id the `canon` relation does not
//! cover produces no output: the reference is latent until an e-node with
//! that id arrives.  `Constant` leaves contribute no operand slots and are
//! not hash-consed.

use vstd::prelude::*;
use crate::enode::{Add, ENode, Sub};
use crate::ids::{EClassId, ENodeId};
use crate::relation::{canon_map_of, distinct_canon_keys, distinct_ids, is_min_of,
    lemma_canon_val, maps_to, merge_edge_set};

verus! {

/// The canonicalized shape of one e-node: operand slots rewritten through the
/// canonical map, or nothing if a slot is not covered or the e-node is a
/// leaf.
pub open spec fn slot_canon(cm: Map<u64, u64>, n: ENode) -> Option<ENode> {
    match n {
        ENode::Add(a) => if cm.dom().contains(a.lhs.0) && cm.dom().contains(a.rhs.0) {
            Some(ENode::Add(Add { lhs: EClassId(cm[a.lhs.0]), rhs: EClassId(cm[a.rhs.0]) }))
        } else {
            None
        },
        ENode::Sub(s) => if cm.dom().contains(s.lhs.0) && cm.dom().contains(s.rhs.0) {
            Some(ENode::Sub(Sub { lhs: EClassId(cm[s.lhs.0]), rhs: EClassId(cm[s.rhs.0]) }))
        } else {
            None
        },
        ENode::Constant => None,
    }
}

/// `id` owns an e-node in the store whose canonicalized shape is `s`.
pub open spec fn in_group(
    ns: Seq<(ENodeId, ENode)>,
    cm: Map<u64, u64>,
    s: ENode,
    id: u64,
) -> bool {
    exists|i: int|
        0 <= i < ns.len() && (#[trigger] ns[i]).0.0 == id && slot_canon(cm, ns[i].1) == Some(s)
}

/// The shape-equivalence group of the canonical shape `s`.
pub open spec fn group_of(ns: Seq<(ENodeId, ENode)>, cm: Map<u64, u64>, s: ENode) -> Set<u64> {
    Set::new(|id: u64| in_group(ns, cm, s, id))
}

/// The canonicalizer emits the merge edge `(a, b)`: `a` is the elected
/// representative of some inhabited canonical shape and `b` another member of
/// the same group.
pub open spec fn cons_edge(ns: Seq<(ENodeId, ENode)>, cm: Map<u64, u64>, a: u64, b: u64) -> bool {
    exists|s: ENode|
        is_min_of(group_of(ns, cm, s), a) && #[trigger] in_group(ns, cm, s, b) && a != b
}

/// Entry `k` of the canonicalized-node list descends from a store e-node with
/// index below `bound`.
pub open spec fn cnode_sound_at(
    ns: Seq<(ENodeId, ENode)>,
    cm: Map<u64, u64>,
    cs: Seq<(u64, ENode)>,
    k: int,
    bound: int,
) -> bool {
    exists|i: int|
        0 <= i < bound && (#[trigger] ns[i]).0.0 == cs[k].0
            && slot_canon(cm, ns[i].1) == Some(cs[k].1)
}

/// Store e-node `i`, if canonicalizable, appears in the canonicalized-node
/// list.
pub open spec fn cnode_complete_at(
    ns: Seq<(ENodeId, ENode)>,
    cm: Map<u64, u64>,
    cs: Seq<(u64, ENode)>,
    i: int,
) -> bool {
    slot_canon(cm, ns[i].1).is_some() ==> exists|k: int|
        0 <= k < cs.len() && (#[trigger] cs[k]).0 == ns[i].0.0
            && Some(cs[k].1) == slot_canon(cm, ns[i].1)
}

/// Owner ids never repeat in the canonicalized-node list.
pub open spec fn cnodes_distinct(cs: Seq<(u64, ENode)>) -> bool {
    forall|k1: int, k2: int| 0 <= k1 < k2 < cs.len()
        ==> (#[trigger] cs[k1]).0 != (#[trigger] cs[k2]).0
}

/// Group membership read off the canonicalized-node list.
pub open spec fn cgroup(cs: Seq<(u64, ENode)>, s: ENode) -> Set<u64> {
    Set::new(|id: u64| exists|k: int|
        0 <= k < cs.len() && (#[trigger] cs[k]).0 == id && cs[k].1 == s)
}

/// Merge edge over the canonicalized-node list.
pub open spec fn ccons_edge(cs: Seq<(u64, ENode)>, a: u64, b: u64) -> bool {
    exists|s: ENode| is_min_of(cgroup(cs, s), a) && #[trigger] cgroup(cs, s).contains(b) && a != b
}

/// Every inhabited canonical shape has a member with the least owner id.
proof fn lemma_cgroup_argmin(cs: Seq<(u64, ENode)>, s: ENode, j: int, best: int) -> (kk: int)
    requires
        0 <= best < cs.len(),
        cs[best].1 == s,
        0 <= j <= cs.len(),
        forall|i: int| 0 <= i < j && (#[trigger] cs[i]).1 == s ==> cs[best].0 <= cs[i].0,
    ensures
        0 <= kk < cs.len(),
        cs[kk].1 == s,
        is_min_of(cgroup(cs, s), cs[kk].0),
    decreases cs.len() - j,
{
    if j == cs.len() {
        assert(cgroup(cs, s).contains(cs[best].0)) by {
            assert(cs[best].0 == cs[best].0 && cs[best].1 == s);
        }
        assert forall|y: u64| cgroup(cs, s).contains(y) implies cs[best].0 <= y by {
            let i = choose|i: int|
                0 <= i < cs.len() && (#[trigger] cs[i]).0 == y && cs[i].1 == s;
        }
        best
    } else if cs[j].1 == s && cs[j].0 < cs[best].0 {
        lemma_cgroup_argmin(cs, s, j + 1, j)
    } else {
        lemma_cgroup_argmin(cs, s, j + 1, best)
    }
}

/// Look `x` up in the two-column `canon` relation.
fn lookup(canon: &Vec<(ENodeId, EClassId)>, x: u64) -> (r: Option<u64>)
    requires
        distinct_canon_keys(canon@),
    ensures
        match r {
            Some(v) => canon_map_of(canon@).dom().contains(x) && canon_map_of(canon@)[x] == v,
            None => !canon_map_of(canon@).dom().contains(x),
        },
{
    let mut i: usize = 0;
    while i < canon.len()
        invariant
            i <= canon@.len(),
            distinct_canon_keys(canon@),
            forall|k: int| 0 <= k < i ==> (#[trigger] canon@[k]).0.0 != x,
        decreases canon@.len() - i,
    {
        if canon[i].0.0 == x {
            proof {
                assert(canon@[i as int].0.0 == x);
                assert(maps_to(canon@, x, canon@[i as int].1.0));
                lemma_canon_val(canon@, x, canon@[i as int].1.0);
            }
            return Some(canon[i].1.0);
        }
        i += 1;
    }
    proof {
        if canon_map_of(canon@).dom().contains(x) {
            let k = choose|k: int| 0 <= k < canon@.len() && (#[trigger] canon@[k]).0.0 == x;
            assert(false);
        }
    }
    None
}

/// Split operand slots and rewrite them through `canon`: produce, for every
/// structural e-node whose slots are all covered, its owner id paired with
/// its canonicalized shape.
fn canonicalize_slots(
    enodes: &Vec<(ENodeId, ENode)>,
    canon: &Vec<(ENodeId, EClassId)>,
) -> (cnodes: Vec<(u64, ENode)>)
    requires
        distinct_ids(enodes@),
        distinct_canon_keys(canon@),
    ensures
        forall|k: int| 0 <= k < cnodes@.len()
            ==> cnode_sound_at(enodes@, canon_map_of(canon@), cnodes@, k, enodes@.len() as int),
        forall|i: int| 0 <= i < enodes@.len()
            ==> cnode_complete_at(enodes@, canon_map_of(canon@), cnodes@, i),
        cnodes_distinct(cnodes@),
{
    let ghost cm = canon_map_of(canon@);
    let mut cnodes: Vec<(u64, ENode)> = Vec::new();
    let mut i: usize = 0;
    while i < enodes.len()
        invariant
            i <= enodes@.len(),
            distinct_ids(enodes@),
            distinct_canon_keys(canon@),
            cm == canon_map_of(canon@),
            forall|k: int| 0 <= k < cnodes@.len()
                ==> cnode_sound_at(enodes@, cm, cnodes@, k, i as int),
            forall|ii: int| 0 <= ii < i ==> cnode_complete_at(enodes@, cm, cnodes@, ii),
            cnodes_distinct(cnodes@),
        decreases enodes@.len() - i,
    {
        let (owner, shape) = enodes[i];
        let ghost cnodes_pre = cnodes@;
        let canonical: Option<ENode> = match shape {
            ENode::Add(a) => {
                match (lookup(canon, a.lhs.0), lookup(canon, a.rhs.0)) {
                    (Some(l), Some(r)) => Some(
                        ENode::Add(Add::new(EClassId::new(l), EClassId::new(r))),
                    ),
                    _ => None,
                }
            },
            ENode::Sub(s) => {
                match (lookup(canon, s.lhs.0), lookup(canon, s.rhs.0)) {
                    (Some(l), Some(r)) => Some(
                        ENode::Sub(Sub::new(EClassId::new(l), EClassId::new(r))),
                    ),
                    _ => None,
                }
            },
            ENode::Constant => None,
        };
        proof {
            assert(enodes@[i as int].0 == owner && enodes@[i as int].1 == shape);
            assert(canonical == slot_canon(cm, shape));
        }
        if let Some(c) = canonical {
            cnodes.push((owner.0, c));
            proof {
                let n = cnodes_pre.len() as int;
                assert(cnodes@ == cnodes_pre.push((owner.0, c)));
                assert(cnodes@[n].0 == owner.0 && cnodes@[n].1 == c);
                assert forall|k: int| 0 <= k < n implies cnodes@[k] == cnodes_pre[k] by {}
                assert(cnodes_distinct(cnodes@)) by {
                    assert forall|k1: int, k2: int| 0 <= k1 < k2 < cnodes@.len()
                        implies (#[trigger] cnodes@[k1]).0 != (#[trigger] cnodes@[k2]).0 by {
                        if k2 == n {
                            assert(cnode_sound_at(enodes@, cm, cnodes_pre, k1, i as int));
                            let ii = choose|ii: int|
                                0 <= ii < i && (#[trigger] enodes@[ii]).0.0 == cnodes_pre[k1].0
                                    && slot_canon(cm, enodes@[ii].1) == Some(cnodes_pre[k1].1);
                            assert(enodes@[ii].0 != enodes@[i as int].0);
                        }
                    }
                }
                assert forall|k: int| 0 <= k < cnodes@.len()
                    implies #[trigger] cnode_sound_at(enodes@, cm, cnodes@, k, i as int + 1) by {
                    if k < n {
                        assert(cnode_sound_at(enodes@, cm, cnodes_pre, k, i as int));
                        let ii = choose|ii: int|
                            0 <= ii < i && (#[trigger] enodes@[ii]).0.0 == cnodes_pre[k].0
                                && slot_canon(cm, enodes@[ii].1) == Some(cnodes_pre[k].1);
                        assert((#[trigger] enodes@[ii]).0.0 == cnodes@[k].0);
                    } else {
                        assert((#[trigger] enodes@[i as int]).0.0 == cnodes@[k].0);
                    }
                }
                assert forall|ii: int| 0 <= ii < i + 1
                    implies #[trigger] cnode_complete_at(enodes@, cm, cnodes@, ii) by {
                    if ii < i {
                        assert(cnode_complete_at(enodes@, cm, cnodes_pre, ii));
                        if slot_canon(cm, enodes@[ii].1).is_some() {
                            let k = choose|k: int|
                                0 <= k < cnodes_pre.len() && (#[trigger] cnodes_pre[k]).0 == enodes@[ii].0.0
                                    && Some(cnodes_pre[k].1) == slot_canon(cm, enodes@[ii].1);
                            assert((#[trigger] cnodes@[k]).0 == enodes@[ii].0.0);
                        }
                    } else {
                        assert((#[trigger] cnodes@[n]).0 == enodes@[ii].0.0);
                    }
                }
            }
        } else {
            proof {
                assert forall|ii: int| 0 <= ii < i + 1
                    implies #[trigger] cnode_complete_at(enodes@, cm, cnodes@, ii) by {
                    if ii == i as int {
                        assert(slot_canon(cm, enodes@[ii].1).is_none());
                    }
                }
                assert forall|k: int| 0 <= k < cnodes@.len()
                    implies #[trigger] cnode_sound_at(enodes@, cm, cnodes@, k, i as int + 1) by {
                    assert(cnode_sound_at(enodes@, cm, cnodes@, k, i as int));
                    let ii = choose|ii: int|
                        0 <= ii < i && (#[trigger] enodes@[ii]).0.0 == cnodes@[k].0
                            && slot_canon(cm, enodes@[ii].1) == Some(cnodes@[k].1);
                }
            }
        }
        i += 1;
    }
    cnodes
}

/// The least owner id among the canonicalized nodes sharing the shape of
/// entry `k`.
fn group_min(cnodes: &Vec<(u64, ENode)>, k: usize) -> (m: u64)
    requires
        k < cnodes@.len(),
    ensures
        is_min_of(cgroup(cnodes@, cnodes@[k as int].1), m),
{
    let (_, s) = cnodes[k];
    let mut m = cnodes[k].0;
    proof {
        assert(cnodes@[k as int].1 == s);
        assert(cgroup(cnodes@, s).contains(m)) by {
            assert(cnodes@[k as int].0 == m && cnodes@[k as int].1 == s);
        }
    }
    let mut k2: usize = 0;
    while k2 < cnodes.len()
        invariant
            k2 <= cnodes@.len(),
            k < cnodes@.len(),
            cnodes@[k as int].1 == s,
            cgroup(cnodes@, s).contains(m),
            forall|j: int| 0 <= j < k2 && (#[trigger] cnodes@[j]).1 == s ==> m <= cnodes@[j].0,
        decreases cnodes@.len() - k2,
    {
        if cnodes[k2].1 == s && cnodes[k2].0 < m {
            m = cnodes[k2].0;
            proof {
                assert(cgroup(cnodes@, s).contains(m)) by {
                    assert(cnodes@[k2 as int].0 == m && cnodes@[k2 as int].1 == s);
                }
            }
        }
        k2 += 1;
    }
    proof {
        assert forall|y: u64| cgroup(cnodes@, s).contains(y) implies m <= y by {
            let j = choose|j: int|
                0 <= j < cnodes@.len() && (#[trigger] cnodes@[j]).0 == y && cnodes@[j].1 == s;
        }
    }
    m
}

/// Representative entry `t` of the canonical table descends from the
/// canonicalized-node list.
pub open spec fn rep_from(cs: Seq<(u64, ENode)>, ctab: Seq<(ENodeId, ENode)>, t: int, bound: int) -> bool {
    exists|kk: int|
        0 <= kk < bound && (#[trigger] cs[kk]).0 == ctab[t].0.0 && cs[kk].1 == ctab[t].1
}

/// A minimal member of the canonicalized-node list has its representative
/// entry in the canonical table.
pub open spec fn rep_present(cs: Seq<(u64, ENode)>, ctab: Seq<(ENodeId, ENode)>, kk: int) -> bool {
    is_min_of(cgroup(cs, cs[kk].1), cs[kk].0) ==> exists|t: int|
        0 <= t < ctab.len() && (#[trigger] ctab[t]).0.0 == cs[kk].0 && ctab[t].1 == cs[kk].1
}

/// A non-minimal member of the canonicalized-node list has its merge edge to
/// the representative.
pub open spec fn edge_present(cs: Seq<(u64, ENode)>, edges: Seq<(EClassId, EClassId)>, kk: int) -> bool {
    !is_min_of(cgroup(cs, cs[kk].1), cs[kk].0) ==> exists|t: int|
        0 <= t < edges.len() && (#[trigger] edges[t]).1.0 == cs[kk].0
            && is_min_of(cgroup(cs, cs[kk].1), edges[t].0.0)
}

/// Some entry of the canonical table carries the shape of entry `k` of the
/// canonicalized-node list.
pub open spec fn shape_rep_present(cs: Seq<(u64, ENode)>, ctab: Seq<(ENodeId, ENode)>, k: int) -> bool {
    exists|t: int| 0 <= t < ctab.len() && (#[trigger] ctab[t]).1 == cs[k].1
}

/// Group by canonical shape: elect the minimum owner id of each group as its
/// representative and emit a merge edge from the representative to every
/// other member.
#[verifier::rlimit(50)]
fn hash_cons(cnodes: &Vec<(u64, ENode)>) -> (r: (Vec<(ENodeId, ENode)>, Vec<(EClassId, EClassId)>))
    requires
        cnodes_distinct(cnodes@),
    ensures
        forall|t: int| 0 <= t < r.0@.len()
            ==> is_min_of(cgroup(cnodes@, (#[trigger] r.0@[t]).1), r.0@[t].0.0),
        forall|t1: int, t2: int| 0 <= t1 < t2 < r.0@.len()
            ==> (#[trigger] r.0@[t1]).1 != (#[trigger] r.0@[t2]).1,
        forall|k: int| 0 <= k < cnodes@.len() ==> shape_rep_present(cnodes@, r.0@, k),
        forall|t: int| 0 <= t < r.1@.len()
            ==> ccons_edge(cnodes@, (#[trigger] r.1@[t]).0.0, r.1@[t].1.0),
        forall|kk: int| 0 <= kk < cnodes@.len() ==> edge_present(cnodes@, r.1@, kk),
{
    let mut ctab: Vec<(ENodeId, ENode)> = Vec::new();
    let mut edges: Vec<(EClassId, EClassId)> = Vec::new();
    let mut k: usize = 0;
    while k < cnodes.len()
        invariant
            k <= cnodes@.len(),
            cnodes_distinct(cnodes@),
            forall|t: int| 0 <= t < ctab@.len()
                ==> is_min_of(cgroup(cnodes@, (#[trigger] ctab@[t]).1), ctab@[t].0.0),
            forall|t: int| 0 <= t < ctab@.len() ==> rep_from(cnodes@, ctab@, t, k as int),
            forall|t1: int, t2: int| 0 <= t1 < t2 < ctab@.len()
                ==> (#[trigger] ctab@[t1]).1 != (#[trigger] ctab@[t2]).1,
            forall|kk: int| 0 <= kk < k ==> rep_present(cnodes@, ctab@, kk),
            forall|t: int| 0 <= t < edges@.len()
                ==> ccons_edge(cnodes@, (#[trigger] edges@[t]).0.0, edges@[t].1.0),
            forall|kk: int| 0 <= kk < k ==> edge_present(cnodes@, edges@, kk),
        decreases cnodes@.len() - k,
    {
        let (id, s) = cnodes[k];
        let m = group_min(cnodes, k);
        proof {
            assert(cnodes@[k as int].0 == id && cnodes@[k as int].1 == s);
            assert(is_min_of(cgroup(cnodes@, s), m));
            assert(cgroup(cnodes@, s).contains(id)) by {
                assert(cnodes@[k as int].0 == id && cnodes@[k as int].1 == s);
            }
        }
        if id == m {
            let ghost ctab_pre = ctab@;
            ctab.push((ENodeId::new(id), s));
            proof {
                let n = ctab_pre.len() as int;
                assert(ctab@ == ctab_pre.push((ENodeId(id), s)));
                assert(ctab@[n].0.0 == id && ctab@[n].1 == s);
                assert forall|t: int| 0 <= t < n implies ctab@[t] == ctab_pre[t] by {}
                assert forall|t1: int, t2: int| 0 <= t1 < t2 < ctab@.len()
                    implies (#[trigger] ctab@[t1]).1 != (#[trigger] ctab@[t2]).1 by {
                    if t2 == n && ctab@[t1].1 == s {
                        assert(rep_from(cnodes@, ctab_pre, t1, k as int));
                        let kk = choose|kk: int|
                            0 <= kk < k && (#[trigger] cnodes@[kk]).0 == ctab_pre[t1].0.0
                                && cnodes@[kk].1 == ctab_pre[t1].1;
                        assert(is_min_of(cgroup(cnodes@, s), ctab@[t1].0.0));
                        assert(ctab@[t1].0.0 <= m && m <= ctab@[t1].0.0);
                        assert(cnodes@[kk].0 != cnodes@[k as int].0);
                        assert(false);
                    }
                }
                assert forall|t: int| 0 <= t < ctab@.len()
                    implies #[trigger] rep_from(cnodes@, ctab@, t, k as int + 1) by {
                    if t < n {
                        assert(rep_from(cnodes@, ctab_pre, t, k as int));
                        let kk = choose|kk: int|
                            0 <= kk < k && (#[trigger] cnodes@[kk]).0 == ctab_pre[t].0.0
                                && cnodes@[kk].1 == ctab_pre[t].1;
                    } else {
                        assert((#[trigger] cnodes@[k as int]).0 == ctab@[t].0.0);
                    }
                }
                assert forall|kk: int| 0 <= kk < k + 1 implies #[trigger] rep_present(cnodes@, ctab@, kk) by {
                    if kk < k as int {
                        assert(rep_present(cnodes@, ctab_pre, kk));
                        if is_min_of(cgroup(cnodes@, cnodes@[kk].1), cnodes@[kk].0) {
                            let t = choose|t: int|
                                0 <= t < ctab_pre.len() && (#[trigger] ctab_pre[t]).0.0 == cnodes@[kk].0
                                    && ctab_pre[t].1 == cnodes@[kk].1;
                            assert((#[trigger] ctab@[t]).0.0 == cnodes@[kk].0);
                        }
                    } else {
                        assert((#[trigger] ctab@[n]).0.0 == cnodes@[kk].0);
                    }
                }
                assert forall|kk: int| 0 <= kk < k + 1 implies #[trigger] edge_present(cnodes@, edges@, kk) by {
                    if kk == k as int {
                        assert(is_min_of(cgroup(cnodes@, cnodes@[kk].1), cnodes@[kk].0));
                    }
                }
            }
        } else {
            let ghost edges_pre = edges@;
            edges.push((EClassId::new(m), EClassId::new(id)));
            proof {
                let n = edges_pre.len() as int;
                assert(edges@ == edges_pre.push((EClassId(m), EClassId(id))));
                assert(edges@[n].0.0 == m && edges@[n].1.0 == id);
                assert forall|t: int| 0 <= t < n implies edges@[t] == edges_pre[t] by {}
                assert(ccons_edge(cnodes@, m, id)) by {
                    assert(is_min_of(cgroup(cnodes@, s), m) && cgroup(cnodes@, s).contains(id)
                        && m != id);
                }
                assert(!is_min_of(cgroup(cnodes@, s), id)) by {
                    if is_min_of(cgroup(cnodes@, s), id) {
                        assert(m <= id);
                        assert(id <= m);
                    }
                }
                assert forall|kk: int| 0 <= kk < k + 1 implies #[trigger] edge_present(cnodes@, edges@, kk) by {
                    if kk < k as int {
                        assert(edge_present(cnodes@, edges_pre, kk));
                        if !is_min_of(cgroup(cnodes@, cnodes@[kk].1), cnodes@[kk].0) {
                            let t = choose|t: int|
                                0 <= t < edges_pre.len() && (#[trigger] edges_pre[t]).1.0 == cnodes@[kk].0
                                    && is_min_of(cgroup(cnodes@, cnodes@[kk].1), edges_pre[t].0.0);
                            assert((#[trigger] edges@[t]).1.0 == cnodes@[kk].0);
                        }
                    } else {
                        assert((#[trigger] edges@[n]).1.0 == cnodes@[kk].0);
                        assert(is_min_of(cgroup(cnodes@, cnodes@[kk].1), edges@[n].0.0));
                    }
                }
                assert forall|kk: int| 0 <= kk < k + 1 implies #[trigger] rep_present(cnodes@, ctab@, kk) by {
                    if kk == k as int {
                        assert(!is_min_of(cgroup(cnodes@, cnodes@[kk].1), cnodes@[kk].0));
                    }
                }
                assert forall|t: int| 0 <= t < ctab@.len()
                    implies #[trigger] rep_from(cnodes@, ctab@, t, k as int + 1) by {
                    assert(rep_from(cnodes@, ctab@, t, k as int));
                    let kk = choose|kk: int|
                        0 <= kk < k && (#[trigger] cnodes@[kk]).0 == ctab@[t].0.0
                            && cnodes@[kk].1 == ctab@[t].1;
                }
            }
        }
        k += 1;
    }
    proof {
        assert forall|kx: int| 0 <= kx < cnodes@.len()
            implies #[trigger] shape_rep_present(cnodes@, ctab@, kx) by {
            let s = cnodes@[kx].1;
            let kk = lemma_cgroup_argmin(cnodes@, s, 0, kx);
            assert(rep_present(cnodes@, ctab@, kk));
            let t = choose|t: int|
                0 <= t < ctab@.len() && (#[trigger] ctab@[t]).0.0 == cnodes@[kk].0
                    && ctab@[t].1 == cnodes@[kk].1;
            assert(ctab@[t].1 == s);
        }
    }
    (ctab, edges)
}

/// Groups read off the canonicalized-node list coincide with the
/// shape-equivalence groups of the store under the canonical map.
proof fn lemma_groups_agree(
    ns: Seq<(ENodeId, ENode)>,
    cm: Map<u64, u64>,
    cs: Seq<(u64, ENode)>,
)
    requires
        forall|k: int| 0 <= k < cs.len() ==> cnode_sound_at(ns, cm, cs, k, ns.len() as int),
        forall|i: int| 0 <= i < ns.len() ==> cnode_complete_at(ns, cm, cs, i),
    ensures
        forall|s: ENode| #[trigger] cgroup(cs, s) == group_of(ns, cm, s),
{
    assert forall|s: ENode| #[trigger] cgroup(cs, s) == group_of(ns, cm, s) by {
        assert forall|id: u64| cgroup(cs, s).contains(id)
            implies group_of(ns, cm, s).contains(id) by {
            let k = choose|k: int|
                0 <= k < cs.len() && (#[trigger] cs[k]).0 == id && cs[k].1 == s;
            assert(cnode_sound_at(ns, cm, cs, k, ns.len() as int));
            let i = choose|i: int|
                0 <= i < ns.len() && (#[trigger] ns[i]).0.0 == cs[k].0
                    && slot_canon(cm, ns[i].1) == Some(cs[k].1);
            assert(in_group(ns, cm, s, id));
        }
        assert forall|id: u64| group_of(ns, cm, s).contains(id)
            implies cgroup(cs, s).contains(id) by {
            let i = choose|i: int|
                0 <= i < ns.len() && (#[trigger] ns[i]).0.0 == id
                    && slot_canon(cm, ns[i].1) == Some(s);
            assert(cnode_complete_at(ns, cm, cs, i));
            let k = choose|k: int|
                0 <= k < cs.len() && (#[trigger] cs[k]).0 == ns[i].0.0
                    && Some(cs[k].1) == slot_canon(cm, ns[i].1);
            assert(cs[k].0 == id && cs[k].1 == s);
        }
        assert(cgroup(cs, s) =~= group_of(ns, cm, s));
    }
}

/// The canonical table covers store e-node `i`: if its slots canonicalize,
/// some table entry carries the resulting shape.
pub open spec fn table_covers(
    ns: Seq<(ENodeId, ENode)>,
    cm: Map<u64, u64>,
    ctab: Seq<(ENodeId, ENode)>,
    i: int,
) -> bool {
    slot_canon(cm, ns[i].1).is_some() ==> exists|t: int|
        0 <= t < ctab.len() && Some((#[trigger] ctab[t]).1) == slot_canon(cm, ns[i].1)
}

/// Canonicalize the store through `canon` and hash-cons the result.
///
/// The first component is the canonical e-node table: exactly one entry per
/// inhabited canonical shape, holding the group's minimum e-node id as its
/// representative and the canonicalized shape.  The second component is the
/// set of new merge edges: one edge from each group's representative to each
/// of the group's other members, and nothing else.
#[verifier::rlimit(50)]
pub fn canonicalize(
    enodes: &Vec<(ENodeId, ENode)>,
    canon: &Vec<(ENodeId, EClassId)>,
) -> (r: (Vec<(ENodeId, ENode)>, Vec<(EClassId, EClassId)>))
    requires
        distinct_ids(enodes@),
        distinct_canon_keys(canon@),
    ensures
        forall|t: int| 0 <= t < r.0@.len()
            ==> is_min_of(
                group_of(enodes@, canon_map_of(canon@), (#[trigger] r.0@[t]).1),
                r.0@[t].0.0,
            ),
        forall|t1: int, t2: int| 0 <= t1 < t2 < r.0@.len()
            ==> (#[trigger] r.0@[t1]).1 != (#[trigger] r.0@[t2]).1,
        forall|i: int| 0 <= i < enodes@.len()
            ==> table_covers(enodes@, canon_map_of(canon@), r.0@, i),
        forall|e: (u64, u64)| #[trigger] merge_edge_set(r.1@).contains(e)
            <==> cons_edge(enodes@, canon_map_of(canon@), e.0, e.1),
{
    let ghost cm = canon_map_of(canon@);
    let cnodes = canonicalize_slots(enodes, canon);
    let (ctab, edges) = hash_cons(&cnodes);
    proof {
        lemma_groups_agree(enodes@, cm, cnodes@);
        assert forall|i: int| 0 <= i < enodes@.len()
            implies #[trigger] table_covers(enodes@, cm, ctab@, i) by {
            assert(cnode_complete_at(enodes@, cm, cnodes@, i));
            if slot_canon(cm, enodes@[i].1).is_some() {
                let k = choose|k: int|
                    0 <= k < cnodes@.len() && (#[trigger] cnodes@[k]).0 == enodes@[i].0.0
                        && Some(cnodes@[k].1) == slot_canon(cm, enodes@[i].1);
                assert(shape_rep_present(cnodes@, ctab@, k));
                let t = choose|t: int|
                    0 <= t < ctab@.len() && (#[trigger] ctab@[t]).1 == cnodes@[k].1;
            }
        }
        assert forall|e: (u64, u64)| #[trigger] merge_edge_set(edges@).contains(e)
            implies cons_edge(enodes@, cm, e.0, e.1) by {
            let t = choose|t: int|
                0 <= t < edges@.len() && (#[trigger] edges@[t]).0.0 == e.0
                    && edges@[t].1.0 == e.1;
            assert(ccons_edge(cnodes@, e.0, e.1));
            let s = choose|s: ENode|
                is_min_of(cgroup(cnodes@, s), e.0) && #[trigger] cgroup(cnodes@, s).contains(e.1)
                    && e.0 != e.1;
            assert(cgroup(cnodes@, s) == group_of(enodes@, cm, s));
            assert(in_group(enodes@, cm, s, e.1));
        }
        assert forall|e: (u64, u64)| cons_edge(enodes@, cm, e.0, e.1)
            implies #[trigger] merge_edge_set(edges@).contains(e) by {
            let s = choose|s: ENode|
                is_min_of(group_of(enodes@, cm, s), e.0) && #[trigger] in_group(enodes@, cm, s, e.1)
                    && e.0 != e.1;
            assert(cgroup(cnodes@, s) == group_of(enodes@, cm, s));
            assert(cgroup(cnodes@, s).contains(e.1));
            let k = choose|k: int|
                0 <= k < cnodes@.len() && (#[trigger] cnodes@[k]).0 == e.1 && cnodes@[k].1 == s;
            assert(edge_present(cnodes@, edges@, k));
            assert(!is_min_of(cgroup(cnodes@, cnodes@[k].1), cnodes@[k].0)) by {
                if is_min_of(cgroup(cnodes@, s), e.1) {
                    assert(e.0 <= e.1 && e.1 <= e.0);
                }
            }
            let t = choose|t: int|
                0 <= t < edges@.len() && (#[trigger] edges@[t]).1.0 == cnodes@[k].0
                    && is_min_of(cgroup(cnodes@, cnodes@[k].1), edges@[t].0.0);
            assert(edges@[t].0.0 <= e.0 && e.0 <= edges@[t].0.0);
            assert(edges@[t].0.0 == e.0 && edges@[t].1.0 == e.1);
        }
    }
    (ctab, edges)
}

} // verus!
