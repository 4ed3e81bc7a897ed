//! The engine-wide invariants, stated and proved once against the engine's
//! contracts.
//!
//! Each law quantifies over any outputs the engine's contract admits
//! ([`valid_outputs`]); by [`lemma_saturated_unique`] those outputs are
//! essentially unique, so the laws hold of every run.

use vstd::prelude::*;
use crate::canonicalizer::{cons_edge, group_of, in_group, slot_canon, table_covers};
use crate::connectivity::{connected, is_canon_of, lemma_canon_unique,
    lemma_connected_same_canon, lemma_connected_step, lemma_connected_sym};
use crate::egraph::{ideal_canon, saturated, sat_edges, step_proposals, canon_valid,
    valid_outputs, EGraphOutput};
use crate::enode::ENode;
use crate::ids::{EClassId, ENodeId};
use crate::relation::{distinct_ids, id_set, is_min_of};
use crate::rewrite::{rule_edge, Rewrite};
use crate::store::{denotes_store, enode_weight, lemma_enode_weight_concat,
    lemma_negated_weight, negated};

verus! {

/// Everything the canonicalizer or a rewrite proposes at the saturated canon
/// is already a saturated merge edge: the feedback loop has closed.
pub proof fn lemma_saturated_absorbs_proposals(
    ns: Seq<(ENodeId, ENode)>,
    rws: Seq<Rewrite>,
    ext: Set<(u64, u64)>,
    es: Set<(u64, u64)>,
)
    requires
        saturated(ns, rws, ext, es),
    ensures
        ext.subset_of(es),
        step_proposals(ns, rws, es).subset_of(es),
{
    let k = choose|k: nat| es == sat_edges(ns, rws, ext, k);
    lemma_sat_contains_ext(ns, rws, ext, k);
}

proof fn lemma_sat_contains_ext(
    ns: Seq<(ENodeId, ENode)>,
    rws: Seq<Rewrite>,
    ext: Set<(u64, u64)>,
    k: nat,
)
    ensures
        ext.subset_of(sat_edges(ns, rws, ext, k)),
    decreases k,
{
    if k > 0 {
        lemma_sat_contains_ext(ns, rws, ext, (k - 1) as nat);
    }
}

/// Totality of canon: every e-node in the store has exactly one canonical
/// e-class id in the output relation.
pub proof fn lemma_canon_total(
    ns: Seq<(ENodeId, ENode)>,
    es: Set<(u64, u64)>,
    c: Seq<(ENodeId, EClassId)>,
)
    requires
        distinct_ids(ns),
        canon_valid(ns, es, c),
    ensures
        forall|id: u64| id_set(ns).contains(id)
            ==> exists|i: int| 0 <= i < c.len() && (#[trigger] c[i]).0.0 == id,
        forall|i: int, j: int| 0 <= i < j < c.len()
            ==> (#[trigger] c[i]).0 != (#[trigger] c[j]).0,
{
    assert forall|id: u64| id_set(ns).contains(id)
        implies exists|i: int| 0 <= i < c.len() && (#[trigger] c[i]).0.0 == id by {
        let i = choose|i: int| 0 <= i < ns.len() && (#[trigger] ns[i]).0.0 == id;
        assert(c[i].0.0 == id);
    }
    assert forall|i: int, j: int| 0 <= i < j < c.len()
        implies (#[trigger] c[i]).0 != (#[trigger] c[j]).0 by {
        assert(ns[i].0 != ns[j].0);
    }
}

/// Idempotence: canonicalizing a canonical id yields itself.  If the output
/// relation maps `x` to `c` and the id `c` itself lives in the store, then
/// the relation maps `c` to `c`.
pub proof fn lemma_canon_idempotent(
    ns: Seq<(ENodeId, ENode)>,
    es: Set<(u64, u64)>,
    c: Seq<(ENodeId, EClassId)>,
    i: int,
    j: int,
)
    requires
        canon_valid(ns, es, c),
        0 <= i < c.len(),
        0 <= j < c.len(),
        c[j].0.0 == c[i].1.0,
    ensures
        c[j].1 == EClassId(c[j].0.0),
{
    let dom = id_set(ns);
    let x = c[i].0.0;
    let m = c[i].1.0;
    assert(is_canon_of(es, dom, x, m));
    crate::connectivity::lemma_canon_idempotent(es, dom, x, m);
    assert(is_canon_of(es, dom, m, c[j].1.0));
    lemma_canon_unique(es, dom, m, m, c[j].1.0);
}

/// Soundness of the canonical hash-cons: two store e-nodes whose operand
/// slots canonicalize to the same tuple under the final canon share one
/// canonical e-class id.
pub proof fn lemma_hash_cons_sound(
    ns: Seq<(ENodeId, ENode)>,
    rws: Seq<Rewrite>,
    ext: Set<(u64, u64)>,
    es: Set<(u64, u64)>,
    out: EGraphOutput,
    i1: int,
    i2: int,
)
    requires
        valid_outputs(ns, rws, ext, es, out),
        0 <= i1 < ns.len(),
        0 <= i2 < ns.len(),
        slot_canon(ideal_canon(es, id_set(ns)), ns[i1].1).is_some(),
        slot_canon(ideal_canon(es, id_set(ns)), ns[i1].1)
            == slot_canon(ideal_canon(es, id_set(ns)), ns[i2].1),
    ensures
        out.enode_to_eclass@[i1].1 == out.enode_to_eclass@[i2].1,
{
    let dom = id_set(ns);
    let cm = ideal_canon(es, dom);
    let s = slot_canon(cm, ns[i1].1).unwrap();
    let id1 = ns[i1].0.0;
    let id2 = ns[i2].0.0;
    assert(in_group(ns, cm, s, id1)) by {
        assert(ns[i1].0.0 == id1 && slot_canon(cm, ns[i1].1) == Some(s));
    }
    assert(in_group(ns, cm, s, id2)) by {
        assert(ns[i2].0.0 == id2 && slot_canon(cm, ns[i2].1) == Some(s));
    }
    // Every group member is reachable from the group's representative.
    assert(table_covers(ns, cm, out.canonical_enodes@, i1));
    let t = choose|t: int|
        0 <= t < out.canonical_enodes@.len()
            && Some((#[trigger] out.canonical_enodes@[t]).1) == slot_canon(cm, ns[i1].1);
    let rep = out.canonical_enodes@[t].0.0;
    assert(is_min_of(group_of(ns, cm, s), rep));
    lemma_saturated_absorbs_proposals(ns, rws, ext, es);
    assert(connected(es, rep, id1)) by {
        lemma_member_connected_to_rep(ns, rws, cm, es, s, rep, id1);
    }
    assert(connected(es, rep, id2)) by {
        lemma_member_connected_to_rep(ns, rws, cm, es, s, rep, id2);
    }
    lemma_connected_sym(es, rep, id1);
    crate::connectivity::lemma_connected_trans(es, id1, rep, id2);
    let c = out.enode_to_eclass@;
    assert(is_canon_of(es, dom, id1, c[i1].1.0));
    assert(is_canon_of(es, dom, id2, c[i2].1.0));
    lemma_connected_same_canon(es, dom, id1, id2, c[i1].1.0, c[i2].1.0);
}

/// At saturation, a group member is reachable from its group's elected
/// representative.
proof fn lemma_member_connected_to_rep(
    ns: Seq<(ENodeId, ENode)>,
    rws: Seq<Rewrite>,
    cm: Map<u64, u64>,
    es: Set<(u64, u64)>,
    s: ENode,
    rep: u64,
    id: u64,
)
    requires
        cm == ideal_canon(es, id_set(ns)),
        step_proposals(ns, rws, es).subset_of(es),
        is_min_of(group_of(ns, cm, s), rep),
        in_group(ns, cm, s, id),
    ensures
        connected(es, rep, id),
{
    if rep == id {
        crate::connectivity::lemma_connected_refl(es, rep);
    } else {
        assert(cons_edge(ns, cm, rep, id)) by {
            assert(is_min_of(group_of(ns, cm, s), rep) && in_group(ns, cm, s, id) && rep != id);
        }
        assert(step_proposals(ns, rws, es).contains((rep, id)));
        assert(es.contains((rep, id)));
        lemma_connected_step(es, rep, id);
    }
}

/// Completeness under merges: whenever the merge closure — reachability over
/// the saturated edge relation, which absorbs the rewrites' outputs and the
/// canonicalizer's — joins two store ids, the output assigns them one
/// canonical e-class id.
pub proof fn lemma_merge_completeness(
    ns: Seq<(ENodeId, ENode)>,
    rws: Seq<Rewrite>,
    ext: Set<(u64, u64)>,
    es: Set<(u64, u64)>,
    out: EGraphOutput,
    i1: int,
    i2: int,
)
    requires
        valid_outputs(ns, rws, ext, es, out),
        0 <= i1 < ns.len(),
        0 <= i2 < ns.len(),
        connected(es, ns[i1].0.0, ns[i2].0.0),
    ensures
        out.enode_to_eclass@[i1].1 == out.enode_to_eclass@[i2].1,
{
    let dom = id_set(ns);
    let c = out.enode_to_eclass@;
    lemma_connected_same_canon(es, dom, ns[i1].0.0, ns[i2].0.0, c[i1].1.0, c[i2].1.0);
}

/// Round trip under the null rewrite set: with zero rewrites the canonical
/// e-node table is exactly the shape-deduplicated input — every structural
/// e-node whose operands are live is represented, one entry stands per
/// canonical shape, and each entry's representative is the least member of
/// its shape's group.
pub proof fn lemma_null_rewrite_round_trip(
    ns: Seq<(ENodeId, ENode)>,
    ext: Set<(u64, u64)>,
    es: Set<(u64, u64)>,
    out: EGraphOutput,
)
    requires
        valid_outputs(ns, Seq::<Rewrite>::empty(), ext, es, out),
    ensures
        forall|i: int| 0 <= i < ns.len()
            ==> table_covers(ns, ideal_canon(es, id_set(ns)), out.canonical_enodes@, i),
        forall|t: int| 0 <= t < out.canonical_enodes@.len()
            ==> group_of(ns, ideal_canon(es, id_set(ns)), (#[trigger] out.canonical_enodes@[t]).1)
                .contains(out.canonical_enodes@[t].0.0),
        forall|t1: int, t2: int| 0 <= t1 < t2 < out.canonical_enodes@.len()
            ==> (#[trigger] out.canonical_enodes@[t1]).1 != (#[trigger] out.canonical_enodes@[t2]).1,
{
    let cm = ideal_canon(es, id_set(ns));
    assert forall|t: int| 0 <= t < out.canonical_enodes@.len()
        implies group_of(ns, cm, (#[trigger] out.canonical_enodes@[t]).1)
            .contains(out.canonical_enodes@[t].0.0) by {
        assert(is_min_of(group_of(ns, cm, out.canonical_enodes@[t].1),
            out.canonical_enodes@[t].0.0));
    }
}

/// Retraction soundness, first half: a batch followed by its exact negation
/// leaves every net multiplicity — and with it the live store that the
/// engine's contract ranges over — exactly as it was.
pub proof fn lemma_retraction_preserves_store(
    b: Seq<(ENodeId, ENode, i64)>,
    u: Seq<(ENodeId, ENode, i64)>,
    nu: Seq<(ENodeId, ENode, i64)>,
)
    requires
        negated(u, nu),
    ensures
        forall|id: ENodeId, s: ENode|
            #[trigger] enode_weight(b + u + nu, id, s) == enode_weight(b, id, s),
        forall|ns: Seq<(ENodeId, ENode)>|
            #[trigger] denotes_store(b + u + nu, ns) <==> denotes_store(b, ns),
{
    assert forall|id: ENodeId, s: ENode|
        #[trigger] enode_weight(b + u + nu, id, s) == enode_weight(b, id, s) by {
        lemma_enode_weight_concat(b + u, nu, id, s);
        lemma_enode_weight_concat(b, u, id, s);
        lemma_negated_weight(u, nu, id, s);
    }
    assert forall|ns: Seq<(ENodeId, ENode)>|
        #[trigger] denotes_store(b + u + nu, ns) <==> denotes_store(b, ns) by {
        if denotes_store(b + u + nu, ns) {
            assert forall|i: int| 0 <= i < ns.len()
                implies enode_weight(b, (#[trigger] ns[i]).0, ns[i].1) > 0 by {
                assert(enode_weight(b + u + nu, ns[i].0, ns[i].1) > 0);
            }
            assert forall|id: ENodeId, s: ENode| #[trigger] enode_weight(b, id, s) > 0
                implies exists|i: int| 0 <= i < ns.len() && #[trigger] ns[i] == (id, s) by {
                assert(enode_weight(b + u + nu, id, s) > 0);
            }
            assert(denotes_store(b, ns));
        }
        if denotes_store(b, ns) {
            assert forall|i: int| 0 <= i < ns.len()
                implies enode_weight(b + u + nu, (#[trigger] ns[i]).0, ns[i].1) > 0 by {
                assert(enode_weight(b, ns[i].0, ns[i].1) > 0);
            }
            assert forall|id: ENodeId, s: ENode| #[trigger] enode_weight(b + u + nu, id, s) > 0
                implies exists|i: int| 0 <= i < ns.len() && #[trigger] ns[i] == (id, s) by {
                assert(enode_weight(b, id, s) > 0);
            }
            assert(denotes_store(b + u + nu, ns));
        }
    }
}

/// The canonical table holds this exact entry.
pub open spec fn table_entry_present(ctab: Seq<(ENodeId, ENode)>, entry: (ENodeId, ENode)) -> bool {
    exists|t: int| 0 <= t < ctab.len() && #[trigger] ctab[t] == entry
}

/// Retraction soundness, second half: the engine's contract pins its outputs
/// up to the order of the relations, so equal live stores admit equal
/// outputs — nothing derived from a retracted update survives.
pub proof fn lemma_outputs_deterministic(
    ns: Seq<(ENodeId, ENode)>,
    rws: Seq<Rewrite>,
    ext: Set<(u64, u64)>,
    es1: Set<(u64, u64)>,
    es2: Set<(u64, u64)>,
    o1: EGraphOutput,
    o2: EGraphOutput,
)
    requires
        valid_outputs(ns, rws, ext, es1, o1),
        valid_outputs(ns, rws, ext, es2, o2),
    ensures
        es1 == es2,
        o1.enode_to_eclass@ == o2.enode_to_eclass@,
        forall|t1: int| 0 <= t1 < o1.canonical_enodes@.len()
            ==> table_entry_present(o2.canonical_enodes@, (#[trigger] o1.canonical_enodes@[t1])),
{
    crate::egraph::lemma_saturated_unique(ns, rws, ext, es1, es2);
    let dom = id_set(ns);
    let c1 = o1.enode_to_eclass@;
    let c2 = o2.enode_to_eclass@;
    assert forall|i: int| 0 <= i < c1.len() implies c1[i] == c2[i] by {
        assert(is_canon_of(es1, dom, c1[i].0.0, c1[i].1.0));
        assert(is_canon_of(es1, dom, c2[i].0.0, c2[i].1.0));
        assert(c1[i].0 == ns[i].0 && c2[i].0 == ns[i].0);
        lemma_canon_unique(es1, dom, c1[i].0.0, c1[i].1.0, c2[i].1.0);
        assert(c1[i].1 == EClassId(c1[i].1.0) && c2[i].1 == EClassId(c2[i].1.0));
    }
    assert(c1 =~= c2);
    let cm = ideal_canon(es1, dom);
    assert forall|t1: int| 0 <= t1 < o1.canonical_enodes@.len()
        implies table_entry_present(o2.canonical_enodes@, (#[trigger] o1.canonical_enodes@[t1])) by {
        let entry = o1.canonical_enodes@[t1];
        let s = entry.1;
        assert(is_min_of(group_of(ns, cm, s), entry.0.0));
        assert(in_group(ns, cm, s, entry.0.0));
        let i = choose|i: int|
            0 <= i < ns.len() && (#[trigger] ns[i]).0.0 == entry.0.0
                && slot_canon(cm, ns[i].1) == Some(s);
        assert(table_covers(ns, cm, o2.canonical_enodes@, i));
        let t2 = choose|t2: int|
            0 <= t2 < o2.canonical_enodes@.len()
                && Some((#[trigger] o2.canonical_enodes@[t2]).1) == slot_canon(cm, ns[i].1);
        assert(o2.canonical_enodes@[t2].1 == s);
        assert(is_min_of(group_of(ns, cm, s), o2.canonical_enodes@[t2].0.0));
        crate::relation::lemma_min_unique(
            group_of(ns, cm, s),
            entry.0.0,
            o2.canonical_enodes@[t2].0.0,
        );
        assert(o1.canonical_enodes@[t1]
            == (ENodeId(o2.canonical_enodes@[t2].0.0), o2.canonical_enodes@[t2].1));
        assert(o2.canonical_enodes@[t2]
            == (ENodeId(o2.canonical_enodes@[t2].0.0), o2.canonical_enodes@[t2].1));
    }
}

/// The two store sequences hold the same pairs, in whatever order.
pub open spec fn same_entries(ns1: Seq<(ENodeId, ENode)>, ns2: Seq<(ENodeId, ENode)>) -> bool {
    forall|p: (ENodeId, ENode)|
        #![trigger ns1.contains(p)]
        #![trigger ns2.contains(p)]
        ns1.contains(p) <==> ns2.contains(p)
}

/// Every relation the engine derives reads the store only through
/// membership, so stores holding the same pairs induce the same groups and
/// the same rule matches.
proof fn lemma_same_entries_relations(
    ns1: Seq<(ENodeId, ENode)>,
    ns2: Seq<(ENodeId, ENode)>,
    cm: Map<u64, u64>,
)
    requires
        same_entries(ns1, ns2),
    ensures
        id_set(ns1) == id_set(ns2),
        forall|s: ENode, id: u64| #[trigger] in_group(ns1, cm, s, id) <==> in_group(ns2, cm, s, id),
        forall|s: ENode| #[trigger] group_of(ns1, cm, s) == group_of(ns2, cm, s),
        forall|a: u64, b: u64| #[trigger] cons_edge(ns1, cm, a, b) <==> cons_edge(ns2, cm, a, b),
        forall|r: Rewrite, a: u64, b: u64|
            #[trigger] rule_edge(r, ns1, cm, a, b) <==> rule_edge(r, ns2, cm, a, b),
{
    assert forall|x: u64| id_set(ns1).contains(x) implies id_set(ns2).contains(x) by {
        let i = choose|i: int| 0 <= i < ns1.len() && (#[trigger] ns1[i]).0.0 == x;
        assert(ns1.contains(ns1[i]));
        let j = choose|j: int| 0 <= j < ns2.len() && ns2[j] == ns1[i];
        assert(ns2[j].0.0 == x);
    }
    assert forall|x: u64| id_set(ns2).contains(x) implies id_set(ns1).contains(x) by {
        let i = choose|i: int| 0 <= i < ns2.len() && (#[trigger] ns2[i]).0.0 == x;
        assert(ns2.contains(ns2[i]));
        let j = choose|j: int| 0 <= j < ns1.len() && ns1[j] == ns2[i];
        assert(ns1[j].0.0 == x);
    }
    assert(id_set(ns1) =~= id_set(ns2));
    assert forall|s: ENode, id: u64| #[trigger] in_group(ns1, cm, s, id)
        implies in_group(ns2, cm, s, id) by {
        lemma_in_group_carries(ns1, ns2, cm, s, id);
    }
    assert forall|s: ENode, id: u64| #[trigger] in_group(ns2, cm, s, id)
        implies in_group(ns1, cm, s, id) by {
        lemma_in_group_carries(ns2, ns1, cm, s, id);
    }
    assert forall|s: ENode| #[trigger] group_of(ns1, cm, s) == group_of(ns2, cm, s) by {
        assert(group_of(ns1, cm, s) =~= group_of(ns2, cm, s));
    }
    assert forall|r: Rewrite, a: u64, b: u64|
        #[trigger] rule_edge(r, ns1, cm, a, b) <==> rule_edge(r, ns2, cm, a, b) by {
        if rule_edge(r, ns1, cm, a, b) {
            lemma_rule_edge_carries(ns1, ns2, cm, r, a, b);
        }
        if rule_edge(r, ns2, cm, a, b) {
            lemma_rule_edge_carries(ns2, ns1, cm, r, a, b);
        }
    }
}

proof fn lemma_in_group_carries(
    ns1: Seq<(ENodeId, ENode)>,
    ns2: Seq<(ENodeId, ENode)>,
    cm: Map<u64, u64>,
    s: ENode,
    id: u64,
)
    requires
        same_entries(ns1, ns2),
        in_group(ns1, cm, s, id),
    ensures
        in_group(ns2, cm, s, id),
{
    let i = choose|i: int|
        0 <= i < ns1.len() && (#[trigger] ns1[i]).0.0 == id && slot_canon(cm, ns1[i].1) == Some(s);
    assert(ns1.contains(ns1[i]));
    let j = choose|j: int| 0 <= j < ns2.len() && ns2[j] == ns1[i];
    assert(ns2[j].0.0 == id && slot_canon(cm, ns2[j].1) == Some(s));
}

proof fn lemma_rule_edge_carries(
    ns1: Seq<(ENodeId, ENode)>,
    ns2: Seq<(ENodeId, ENode)>,
    cm: Map<u64, u64>,
    r: Rewrite,
    a: u64,
    b: u64,
)
    requires
        same_entries(ns1, ns2),
        rule_edge(r, ns1, cm, a, b),
    ensures
        rule_edge(r, ns2, cm, a, b),
{
    match r {
        Rewrite::SubToLhs => {
            let i = choose|i: int|
                0 <= i < ns1.len()
                    && #[trigger] crate::rewrite::sub_lhs_result(ns1, cm, i) == Some((a, b));
            assert(ns1.contains(ns1[i]));
            let j = choose|j: int| 0 <= j < ns2.len() && ns2[j] == ns1[i];
            assert(crate::rewrite::sub_lhs_result(ns2, cm, j) == Some((a, b)));
        },
        Rewrite::AddSubCancel => {
            let (i1, i2) = choose|i1: int, i2: int|
                0 <= i1 < ns1.len() && 0 <= i2 < ns1.len()
                    && #[trigger] crate::rewrite::add_sub_result(ns1, cm, i1, i2) == Some((a, b));
            assert(ns1.contains(ns1[i1]));
            assert(ns1.contains(ns1[i2]));
            let j1 = choose|j: int| 0 <= j < ns2.len() && ns2[j] == ns1[i1];
            let j2 = choose|j: int| 0 <= j < ns2.len() && ns2[j] == ns1[i2];
            assert(crate::rewrite::add_sub_result(ns2, cm, j1, j2) == Some((a, b)));
        },
    }
}

/// The saturation iterates agree on stores holding the same pairs.
proof fn lemma_same_entries_sat(
    ns1: Seq<(ENodeId, ENode)>,
    ns2: Seq<(ENodeId, ENode)>,
    rws: Seq<Rewrite>,
    ext: Set<(u64, u64)>,
    k: nat,
)
    requires
        same_entries(ns1, ns2),
    ensures
        sat_edges(ns1, rws, ext, k) == sat_edges(ns2, rws, ext, k),
        forall|es: Set<(u64, u64)>|
            #[trigger] crate::egraph::step_edges(ns1, rws, es)
                == crate::egraph::step_edges(ns2, rws, es),
    decreases k,
{
    assert forall|es: Set<(u64, u64)>|
        #[trigger] crate::egraph::step_edges(ns1, rws, es)
            == crate::egraph::step_edges(ns2, rws, es) by {
        let cm = ideal_canon(es, id_set(ns1));
        lemma_same_entries_relations(ns1, ns2, cm);
        assert(ideal_canon(es, id_set(ns2)) == cm);
        assert(step_proposals(ns1, rws, es) =~= step_proposals(ns2, rws, es));
        assert(crate::egraph::step_edges(ns1, rws, es)
            =~= crate::egraph::step_edges(ns2, rws, es));
    }
    if k > 0 {
        lemma_same_entries_sat(ns1, ns2, rws, ext, (k - 1) as nat);
    }
}

/// A store relation holds this exact canon pair.
pub open spec fn canon_entry_present(c: Seq<(ENodeId, EClassId)>, entry: (ENodeId, EClassId)) -> bool {
    exists|i: int| 0 <= i < c.len() && #[trigger] c[i] == entry
}

/// Retraction soundness: an input batch followed by its exact negation
/// yields the very outputs of the base input — the saturated edge relation
/// is the same and both output relations hold the same rows, with no
/// spurious survivors.  The store sequences and edge sets are the ones the
/// engine's contract names for the two runs.
pub proof fn lemma_retraction_soundness(
    b: Seq<(ENodeId, ENode, i64)>,
    u: Seq<(ENodeId, ENode, i64)>,
    nu: Seq<(ENodeId, ENode, i64)>,
    rws: Seq<Rewrite>,
    ext: Set<(u64, u64)>,
    ns1: Seq<(ENodeId, ENode)>,
    ns2: Seq<(ENodeId, ENode)>,
    es1: Set<(u64, u64)>,
    es2: Set<(u64, u64)>,
    o1: EGraphOutput,
    o2: EGraphOutput,
)
    requires
        negated(u, nu),
        denotes_store(b, ns1),
        valid_outputs(ns1, rws, ext, es1, o1),
        denotes_store(b + u + nu, ns2),
        valid_outputs(ns2, rws, ext, es2, o2),
    ensures
        es1 == es2,
        forall|i: int| 0 <= i < o1.enode_to_eclass@.len()
            ==> canon_entry_present(o2.enode_to_eclass@, (#[trigger] o1.enode_to_eclass@[i])),
        forall|i: int| 0 <= i < o2.enode_to_eclass@.len()
            ==> canon_entry_present(o1.enode_to_eclass@, (#[trigger] o2.enode_to_eclass@[i])),
        forall|t: int| 0 <= t < o1.canonical_enodes@.len()
            ==> table_entry_present(o2.canonical_enodes@, (#[trigger] o1.canonical_enodes@[t])),
        forall|t: int| 0 <= t < o2.canonical_enodes@.len()
            ==> table_entry_present(o1.canonical_enodes@, (#[trigger] o2.canonical_enodes@[t])),
{
    lemma_retraction_preserves_store(b, u, nu);
    assert(denotes_store(b, ns2));
    assert(same_entries(ns1, ns2)) by {
        assert forall|p: (ENodeId, ENode)| #[trigger] ns1.contains(p)
            implies ns2.contains(p) by {
            let i = choose|i: int| 0 <= i < ns1.len() && ns1[i] == p;
            assert(enode_weight(b, ns1[i].0, ns1[i].1) > 0);
            let j = choose|j: int| 0 <= j < ns2.len() && #[trigger] ns2[j] == (p.0, p.1);
            assert(ns2[j] == p);
        }
        assert forall|p: (ENodeId, ENode)| #[trigger] ns2.contains(p)
            implies ns1.contains(p) by {
            let i = choose|i: int| 0 <= i < ns2.len() && ns2[i] == p;
            assert(enode_weight(b, ns2[i].0, ns2[i].1) > 0);
            let j = choose|j: int| 0 <= j < ns1.len() && #[trigger] ns1[j] == (p.0, p.1);
            assert(ns1[j] == p);
        }
    }
    // One saturated edge relation underlies both runs.
    let k2 = choose|k: nat| es2 == sat_edges(ns2, rws, ext, k);
    lemma_same_entries_sat(ns1, ns2, rws, ext, k2);
    assert(saturated(ns1, rws, ext, es2)) by {
        assert(es2 == sat_edges(ns1, rws, ext, k2));
        assert(crate::egraph::step_edges(ns1, rws, es2) == es2);
    }
    crate::egraph::lemma_saturated_unique(ns1, rws, ext, es1, es2);
    let dom = id_set(ns1);
    let cm = ideal_canon(es1, dom);
    lemma_same_entries_relations(ns1, ns2, cm);
    // The canon rows coincide: both assign each live id its unique minimum
    // label.
    let c1 = o1.enode_to_eclass@;
    let c2 = o2.enode_to_eclass@;
    assert forall|i: int| 0 <= i < c1.len()
        implies canon_entry_present(c2, (#[trigger] c1[i])) by {
        assert(ns1.contains(ns1[i]));
        let j = choose|j: int| 0 <= j < ns2.len() && ns2[j] == ns1[i];
        assert(c2[j].0 == ns2[j].0);
        assert(is_canon_of(es1, id_set(ns2), c2[j].0.0, c2[j].1.0));
        assert(is_canon_of(es1, dom, c1[i].0.0, c1[i].1.0));
        lemma_canon_unique(es1, dom, c1[i].0.0, c1[i].1.0, c2[j].1.0);
        assert(c2[j] == c1[i]);
    }
    assert forall|i: int| 0 <= i < c2.len()
        implies canon_entry_present(c1, (#[trigger] c2[i])) by {
        assert(ns2.contains(ns2[i]));
        let j = choose|j: int| 0 <= j < ns1.len() && ns1[j] == ns2[i];
        assert(c1[j].0 == ns1[j].0);
        assert(is_canon_of(es1, dom, c1[j].0.0, c1[j].1.0));
        assert(is_canon_of(es1, id_set(ns2), c2[i].0.0, c2[i].1.0));
        lemma_canon_unique(es1, dom, c2[i].0.0, c2[i].1.0, c1[j].1.0);
        assert(c1[j] == c2[i]);
    }
    // The canonical tables coincide: one row per inhabited shape, keyed by
    // the unique minimum of the shape's group.
    lemma_tables_agree(ns1, ns2, es1, cm, o1, o2);
    lemma_tables_agree_rev(ns1, ns2, es1, cm, o1, o2);
}

proof fn lemma_tables_agree(
    ns1: Seq<(ENodeId, ENode)>,
    ns2: Seq<(ENodeId, ENode)>,
    es: Set<(u64, u64)>,
    cm: Map<u64, u64>,
    o1: EGraphOutput,
    o2: EGraphOutput,
)
    requires
        same_entries(ns1, ns2),
        cm == ideal_canon(es, id_set(ns1)),
        id_set(ns1) == id_set(ns2),
        forall|s: ENode| #[trigger] group_of(ns1, cm, s) == group_of(ns2, cm, s),
        crate::egraph::table_valid(ns1, es, o1.canonical_enodes@),
        crate::egraph::table_valid(ns2, es, o2.canonical_enodes@),
    ensures
        forall|t: int| 0 <= t < o1.canonical_enodes@.len()
            ==> table_entry_present(o2.canonical_enodes@, (#[trigger] o1.canonical_enodes@[t])),
{
    let t1 = o1.canonical_enodes@;
    let t2 = o2.canonical_enodes@;
    assert forall|t: int| 0 <= t < t1.len()
        implies table_entry_present(t2, (#[trigger] t1[t])) by {
        let s = t1[t].1;
        assert(is_min_of(group_of(ns1, cm, s), t1[t].0.0));
        assert(in_group(ns1, cm, s, t1[t].0.0)) by {
            assert(group_of(ns1, cm, s).contains(t1[t].0.0));
        }
        lemma_in_group_carries(ns1, ns2, cm, s, t1[t].0.0);
        let i2 = choose|i: int|
            0 <= i < ns2.len() && (#[trigger] ns2[i]).0.0 == t1[t].0.0
                && slot_canon(cm, ns2[i].1) == Some(s);
        assert(ideal_canon(es, id_set(ns2)) == cm);
        assert(table_covers(ns2, cm, t2, i2));
        let tt = choose|tt: int|
            0 <= tt < t2.len() && Some((#[trigger] t2[tt]).1) == slot_canon(cm, ns2[i2].1);
        assert(t2[tt].1 == s);
        assert(is_min_of(group_of(ns2, cm, s), t2[tt].0.0));
        crate::relation::lemma_min_unique(group_of(ns1, cm, s), t1[t].0.0, t2[tt].0.0);
        assert(t2[tt] == (ENodeId(t1[t].0.0), s));
        assert(t1[t] == (ENodeId(t1[t].0.0), s));
    }
}

proof fn lemma_tables_agree_rev(
    ns1: Seq<(ENodeId, ENode)>,
    ns2: Seq<(ENodeId, ENode)>,
    es: Set<(u64, u64)>,
    cm: Map<u64, u64>,
    o1: EGraphOutput,
    o2: EGraphOutput,
)
    requires
        same_entries(ns1, ns2),
        cm == ideal_canon(es, id_set(ns1)),
        id_set(ns1) == id_set(ns2),
        forall|s: ENode| #[trigger] group_of(ns1, cm, s) == group_of(ns2, cm, s),
        crate::egraph::table_valid(ns1, es, o1.canonical_enodes@),
        crate::egraph::table_valid(ns2, es, o2.canonical_enodes@),
    ensures
        forall|t: int| 0 <= t < o2.canonical_enodes@.len()
            ==> table_entry_present(o1.canonical_enodes@, (#[trigger] o2.canonical_enodes@[t])),
{
    assert(same_entries(ns2, ns1));
    assert(cm == ideal_canon(es, id_set(ns2)));
    assert forall|s: ENode| #[trigger] group_of(ns2, cm, s) == group_of(ns1, cm, s) by {}
    lemma_tables_agree(ns2, ns1, es, cm, o2, o1);
}

} // verus!
