//! The equality-saturation fixpoint loop, and the engine's public face.
//!
//! The loop couples three derivations: the union-find over the current merge
//! edges, the canonicalizer whose hash-consing discovers new merges, and the
//! rewrite rules whose outputs propose more.  Rewrite-produced and
//! canonicalization-produced merge edges are concatenated into the
//! union-find's input, and the loop reaches its fixpoint when no new merge
//! edge appears.  The merge relation is deduplicated before propagation so
//! multiplicities never grow, and the accumulated edges stay inside the
//! finite universe spanned by the store's ids and the external mergers'
//! endpoints — which is what bounds the iteration.

use vstd::prelude::*;
use vstd::set_lib::lemma_len_subset;
use crate::canonicalizer::{canonicalize, cons_edge, group_of, table_covers};
use crate::connectivity::is_canon_of;
use crate::enode::ENode;
use crate::ids::{EClassId, ENodeId};
use crate::relation::{canon_map_of, canon_keys, canon_val, distinct_canon_keys, distinct_ids,
    edge_pairs_distinct, id_set, is_min_of, lemma_canon_val, lemma_id_set_finite,
    lemma_merge_edge_set_push, maps_to, merge_edge_set};
use crate::rewrite::{apply_rewrite, rule_edge, Rewrite};
use crate::union_find::derive_canonical_eclass_ids;

verus! {

/// The canonical label the ideal union-find assigns to `x` under the edge
/// set `es`.
pub open spec fn canon_label(es: Set<(u64, u64)>, dom: Set<u64>, x: u64) -> u64 {
    choose|m: u64| is_canon_of(es, dom, x, m)
}

/// The ideal canonical map over the store's ids for the edge set `es`.
pub open spec fn ideal_canon(es: Set<(u64, u64)>, dom: Set<u64>) -> Map<u64, u64> {
    Map::new(|x: u64| dom.contains(x), |x: u64| canon_label(es, dom, x))
}

/// The merge edges the canonicalizer and the rewrite corpus propose at the
/// canon induced by `es`.
pub open spec fn step_proposals(
    ns: Seq<(ENodeId, ENode)>,
    rws: Seq<Rewrite>,
    es: Set<(u64, u64)>,
) -> Set<(u64, u64)> {
    Set::new(|e: (u64, u64)|
        cons_edge(ns, ideal_canon(es, id_set(ns)), e.0, e.1)
            || exists|k: int|
                0 <= k < rws.len()
                    && rule_edge(#[trigger] rws[k], ns, ideal_canon(es, id_set(ns)), e.0, e.1))
}

/// One saturation step: the current edges plus everything proposed at their
/// induced canon.
pub open spec fn step_edges(
    ns: Seq<(ENodeId, ENode)>,
    rws: Seq<Rewrite>,
    es: Set<(u64, u64)>,
) -> Set<(u64, u64)> {
    es.union(step_proposals(ns, rws, es))
}

/// The merge-edge relation after `k` saturation steps from the external
/// mergers.
pub open spec fn sat_edges(
    ns: Seq<(ENodeId, ENode)>,
    rws: Seq<Rewrite>,
    ext: Set<(u64, u64)>,
    k: nat,
) -> Set<(u64, u64)>
    decreases k,
{
    if k == 0 {
        ext
    } else {
        step_edges(ns, rws, sat_edges(ns, rws, ext, (k - 1) as nat))
    }
}

/// `es` is the saturated merge-edge relation: an iterate of the step
/// function that the step function no longer grows.
pub open spec fn saturated(
    ns: Seq<(ENodeId, ENode)>,
    rws: Seq<Rewrite>,
    ext: Set<(u64, u64)>,
    es: Set<(u64, u64)>,
) -> bool {
    &&& exists|k: nat| es == sat_edges(ns, rws, ext, k)
    &&& step_edges(ns, rws, es) == es
}

/// Once an iterate is stable, every later iterate equals it.
proof fn lemma_sat_stable_after(
    ns: Seq<(ENodeId, ENode)>,
    rws: Seq<Rewrite>,
    ext: Set<(u64, u64)>,
    k: nat,
    j: nat,
)
    requires
        step_edges(ns, rws, sat_edges(ns, rws, ext, k)) == sat_edges(ns, rws, ext, k),
        j >= k,
    ensures
        sat_edges(ns, rws, ext, j) == sat_edges(ns, rws, ext, k),
    decreases j,
{
    if j > k {
        lemma_sat_stable_after(ns, rws, ext, k, (j - 1) as nat);
    }
}

/// The saturated merge-edge relation is unique.
pub proof fn lemma_saturated_unique(
    ns: Seq<(ENodeId, ENode)>,
    rws: Seq<Rewrite>,
    ext: Set<(u64, u64)>,
    es1: Set<(u64, u64)>,
    es2: Set<(u64, u64)>,
)
    requires
        saturated(ns, rws, ext, es1),
        saturated(ns, rws, ext, es2),
    ensures
        es1 == es2,
{
    let k1 = choose|k: nat| es1 == sat_edges(ns, rws, ext, k);
    let k2 = choose|k: nat| es2 == sat_edges(ns, rws, ext, k);
    if k1 <= k2 {
        lemma_sat_stable_after(ns, rws, ext, k1, k2);
    } else {
        lemma_sat_stable_after(ns, rws, ext, k2, k1);
    }
}

/// The ids an external merger relation touches.
pub open spec fn merger_endpoints(s: Seq<(EClassId, EClassId)>) -> Set<u64> {
    Set::new(|x: u64| exists|i: int|
        0 <= i < s.len() && ((#[trigger] s[i]).0.0 == x || s[i].1.0 == x))
}

pub proof fn lemma_merger_endpoints_finite(s: Seq<(EClassId, EClassId)>)
    ensures
        merger_endpoints(s).finite(),
    decreases s.len(),
{
    if s.len() == 0 {
        assert(merger_endpoints(s) =~= Set::<u64>::empty());
    } else {
        let head = s.drop_last();
        lemma_merger_endpoints_finite(head);
        let with_both = merger_endpoints(head).insert(s.last().0.0).insert(s.last().1.0);
        assert(merger_endpoints(s) =~= with_both) by {
            assert forall|x: u64| merger_endpoints(s).contains(x)
                implies with_both.contains(x) by {
                let i = choose|i: int|
                    0 <= i < s.len() && ((#[trigger] s[i]).0.0 == x || s[i].1.0 == x);
                if i < s.len() - 1 {
                    assert(head[i] == s[i]);
                    assert(merger_endpoints(head).contains(x));
                }
            }
            assert forall|x: u64| with_both.contains(x)
                implies merger_endpoints(s).contains(x) by {
                if merger_endpoints(head).contains(x) {
                    let i = choose|i: int|
                        0 <= i < head.len() && ((#[trigger] head[i]).0.0 == x || head[i].1.0 == x);
                    assert(s[i] == head[i]);
                } else {
                    assert(s[s.len() - 1].0.0 == x || s[s.len() - 1].1.0 == x);
                }
            }
        }
    }
}

/// All pairs over a carrier set of ids.
pub open spec fn pair_universe(carrier: Set<u64>) -> Set<(u64, u64)> {
    Set::new(|e: (u64, u64)| carrier.contains(e.0) && carrier.contains(e.1))
}

pub proof fn lemma_pair_universe_finite(carrier: Set<u64>)
    requires
        carrier.finite(),
    ensures
        pair_universe(carrier).finite(),
    decreases carrier.len(),
{
    if carrier.len() == 0 {
        assert(carrier =~= Set::<u64>::empty());
        assert(pair_universe(carrier) =~= Set::<(u64, u64)>::empty());
    } else {
        let x = carrier.choose();
        assert(carrier.contains(x));
        let rest = carrier.remove(x);
        lemma_pair_universe_finite(rest);
        let x_first = carrier.map(|y: u64| (x, y));
        let x_second = carrier.map(|y: u64| (y, x));
        carrier.lemma_map_finite(|y: u64| (x, y));
        carrier.lemma_map_finite(|y: u64| (y, x));
        assert(pair_universe(carrier)
            =~= pair_universe(rest).union(x_first).union(x_second)) by {
            assert forall|e: (u64, u64)| pair_universe(carrier).contains(e)
                implies pair_universe(rest).union(x_first).union(x_second).contains(e) by {
                if e.0 == x {
                    assert(x_first.contains(e)) by {
                        assert(carrier.contains(e.1));
                        assert(e == (x, e.1));
                    }
                } else if e.1 == x {
                    assert(x_second.contains(e)) by {
                        assert(carrier.contains(e.0));
                        assert(e == (e.0, x));
                    }
                } else {
                    assert(rest.contains(e.0) && rest.contains(e.1));
                }
            }
            assert forall|e: (u64, u64)| pair_universe(rest).union(x_first).union(x_second).contains(e)
                implies pair_universe(carrier).contains(e) by {
                if x_first.contains(e) {
                    let y = choose|y: u64| carrier.contains(y) && e == (x, y);
                } else if x_second.contains(e) {
                    let y = choose|y: u64| carrier.contains(y) && e == (y, x);
                }
            }
        }
    }
}

/// The relation the union-find derives denotes exactly the ideal canonical
/// map of the current edge set.
proof fn lemma_exec_canon_is_ideal(
    ns: Seq<(ENodeId, ENode)>,
    es: Set<(u64, u64)>,
    c: Seq<(ENodeId, EClassId)>,
)
    requires
        distinct_ids(ns),
        c.len() == ns.len(),
        forall|i: int| 0 <= i < c.len() ==> (#[trigger] c[i]).0 == ns[i].0,
        forall|i: int| 0 <= i < c.len()
            ==> is_canon_of(es, id_set(ns), (#[trigger] c[i]).0.0, c[i].1.0),
    ensures
        distinct_canon_keys(c),
        canon_map_of(c) == ideal_canon(es, id_set(ns)),
{
    assert forall|i: int, j: int| 0 <= i < j < c.len()
        implies (#[trigger] c[i]).0 != (#[trigger] c[j]).0 by {
        assert(ns[i].0 != ns[j].0);
    }
    assert(canon_keys(c) =~= id_set(ns)) by {
        assert forall|x: u64| canon_keys(c).contains(x) implies id_set(ns).contains(x) by {
            let i = choose|i: int| 0 <= i < c.len() && (#[trigger] c[i]).0.0 == x;
            assert(ns[i].0.0 == x);
        }
        assert forall|x: u64| id_set(ns).contains(x) implies canon_keys(c).contains(x) by {
            let i = choose|i: int| 0 <= i < ns.len() && (#[trigger] ns[i]).0.0 == x;
            assert(c[i].0.0 == x);
        }
    }
    assert(canon_map_of(c) =~= ideal_canon(es, id_set(ns))) by {
        assert forall|x: u64| canon_map_of(c).dom().contains(x)
            implies #[trigger] canon_map_of(c)[x] == ideal_canon(es, id_set(ns))[x] by {
            let i = choose|i: int| 0 <= i < c.len() && (#[trigger] c[i]).0.0 == x;
            assert(maps_to(c, x, c[i].1.0));
            lemma_canon_val(c, x, c[i].1.0);
            assert(canon_map_of(c)[x] == c[i].1.0);
            assert(is_canon_of(es, id_set(ns), x, c[i].1.0));
            let m = canon_label(es, id_set(ns), x);
            assert(is_canon_of(es, id_set(ns), x, m));
            crate::connectivity::lemma_canon_unique(es, id_set(ns), x, m, c[i].1.0);
        }
    }
}

/// Does the accumulated merge relation already hold the edge `(a, b)`?
fn contains_edge(acc: &Vec<(EClassId, EClassId)>, a: u64, b: u64) -> (r: bool)
    ensures
        r == merge_edge_set(acc@).contains((a, b)),
{
    let mut i: usize = 0;
    while i < acc.len()
        invariant
            i <= acc@.len(),
            forall|k: int| 0 <= k < i
                ==> !((#[trigger] acc@[k]).0.0 == a && acc@[k].1.0 == b),
        decreases acc@.len() - i,
    {
        if acc[i].0.0 == a && acc[i].1.0 == b {
            proof {
                assert(acc@[i as int].0.0 == a && acc@[i as int].1.0 == b);
            }
            return true;
        }
        i += 1;
    }
    proof {
        if merge_edge_set(acc@).contains((a, b)) {
            let k = choose|k: int|
                0 <= k < acc@.len() && (#[trigger] acc@[k]).0.0 == a && acc@[k].1.0 == b;
            assert(false);
        }
    }
    false
}

/// Concatenate a batch of proposed merge edges onto the accumulated
/// relation, deduplicated; report whether anything new arrived.
fn push_missing(
    acc: &mut Vec<(EClassId, EClassId)>,
    extra: &Vec<(EClassId, EClassId)>,
) -> (changed: bool)
    requires
        edge_pairs_distinct(old(acc)@),
    ensures
        edge_pairs_distinct(final(acc)@),
        merge_edge_set(final(acc)@)
            == merge_edge_set(old(acc)@).union(merge_edge_set(extra@)),
        !changed ==> final(acc)@ == old(acc)@,
        changed ==> exists|e: (u64, u64)|
            #[trigger] merge_edge_set(final(acc)@).contains(e)
                && !merge_edge_set(old(acc)@).contains(e),
{
    let ghost acc0 = acc@;
    let mut changed = false;
    let mut j: usize = 0;
    while j < extra.len()
        invariant
            j <= extra@.len(),
            edge_pairs_distinct(acc@),
            merge_edge_set(acc@)
                == merge_edge_set(acc0).union(merge_edge_set(extra@.take(j as int))),
            !changed ==> acc@ == acc0,
            changed ==> exists|e: (u64, u64)|
                #[trigger] merge_edge_set(acc@).contains(e)
                    && !merge_edge_set(acc0).contains(e),
        decreases extra@.len() - j,
    {
        let ghost acc_pre = acc@;
        let ghost jj = j as int;
        let (p, q) = extra[j];
        proof {
            assert(extra@[jj].0 == p && extra@[jj].1 == q);
            assert(extra@.take(jj + 1) =~= extra@.take(jj).push(extra@[jj]));
            lemma_merge_edge_set_push(extra@.take(jj), extra@[jj]);
        }
        if !contains_edge(acc, p.0, q.0) {
            proof {
                lemma_merge_edge_set_push(acc_pre, (p, q));
            }
            acc.push((p, q));
            changed = true;
            proof {
                assert(acc@ == acc_pre.push((p, q)));
                assert(edge_pairs_distinct(acc@)) by {
                    let n = acc_pre.len() as int;
                    assert forall|i1: int, i2: int| 0 <= i1 < i2 < acc@.len()
                        implies ((#[trigger] acc@[i1]).0.0, acc@[i1].1.0)
                            != ((#[trigger] acc@[i2]).0.0, acc@[i2].1.0) by {
                        if i2 == n {
                            if (acc@[i1].0.0, acc@[i1].1.0) == (p.0, q.0) {
                                assert(acc_pre[i1].0.0 == p.0 && acc_pre[i1].1.0 == q.0);
                                assert(merge_edge_set(acc_pre).contains((p.0, q.0)));
                            }
                        }
                    }
                }
                assert(merge_edge_set(acc@)
                    =~= merge_edge_set(acc0).union(merge_edge_set(extra@.take(jj + 1))));
                assert(merge_edge_set(acc@).contains((p.0, q.0))
                    && !merge_edge_set(acc0).contains((p.0, q.0)));
            }
        } else {
            proof {
                assert(merge_edge_set(acc@).contains((p.0, q.0)));
                assert(merge_edge_set(acc@)
                    =~= merge_edge_set(acc0).union(merge_edge_set(extra@.take(jj + 1))));
            }
        }
        j += 1;
    }
    proof {
        assert(extra@.take(extra@.len() as int) =~= extra@);
    }
    changed
}

/// The union of the first `r` rules' proposed edges at the canon `cm`.
pub open spec fn rules_union(
    ns: Seq<(ENodeId, ENode)>,
    rws: Seq<Rewrite>,
    cm: Map<u64, u64>,
    r: int,
) -> Set<(u64, u64)> {
    Set::new(|e: (u64, u64)| exists|k: int|
        0 <= k < r && rule_edge(#[trigger] rws[k], ns, cm, e.0, e.1))
}

/// The ideal canonical map is total over a finite domain, and its values are
/// themselves domain members.
proof fn lemma_ideal_canon_values(es: Set<(u64, u64)>, dom: Set<u64>)
    requires
        dom.finite(),
    ensures
        forall|x: u64| dom.contains(x)
            ==> is_canon_of(es, dom, x, #[trigger] ideal_canon(es, dom)[x])
                && dom.contains(ideal_canon(es, dom)[x]),
{
    assert forall|x: u64| dom.contains(x)
        implies is_canon_of(es, dom, x, #[trigger] ideal_canon(es, dom)[x])
            && dom.contains(ideal_canon(es, dom)[x]) by {
        let w = crate::connectivity::lemma_canon_exists(es, dom, x);
        assert(is_canon_of(es, dom, x, canon_label(es, dom, x)));
    }
}

/// Every edge one saturation step can add joins two ids of the store.
proof fn lemma_step_in_universe(
    ns: Seq<(ENodeId, ENode)>,
    rws: Seq<Rewrite>,
    raw: Seq<(EClassId, EClassId)>,
    es: Set<(u64, u64)>,
)
    requires
        es.subset_of(pair_universe(id_set(ns).union(merger_endpoints(raw)))),
    ensures
        step_edges(ns, rws, es)
            .subset_of(pair_universe(id_set(ns).union(merger_endpoints(raw)))),
{
    let dom = id_set(ns);
    let carrier = dom.union(merger_endpoints(raw));
    let cm = ideal_canon(es, dom);
    lemma_id_set_finite(ns);
    lemma_ideal_canon_values(es, dom);
    assert forall|e: (u64, u64)| #[trigger] step_edges(ns, rws, es).contains(e)
        implies pair_universe(carrier).contains(e) by {
        if !es.contains(e) {
            if cons_edge(ns, cm, e.0, e.1) {
                let s = choose|s: ENode|
                    is_min_of(group_of(ns, cm, s), e.0)
                        && #[trigger] crate::canonicalizer::in_group(ns, cm, s, e.1) && e.0 != e.1;
                assert(crate::canonicalizer::in_group(ns, cm, s, e.0));
                let i0 = choose|i: int|
                    0 <= i < ns.len() && (#[trigger] ns[i]).0.0 == e.0
                        && crate::canonicalizer::slot_canon(cm, ns[i].1) == Some(s);
                let i1 = choose|i: int|
                    0 <= i < ns.len() && (#[trigger] ns[i]).0.0 == e.1
                        && crate::canonicalizer::slot_canon(cm, ns[i].1) == Some(s);
                assert(dom.contains(e.0) && dom.contains(e.1));
            } else {
                let k = choose|k: int|
                    0 <= k < rws.len() && rule_edge(#[trigger] rws[k], ns, cm, e.0, e.1);
                match rws[k] {
                    Rewrite::SubToLhs => {
                        let i = choose|i: int|
                            0 <= i < ns.len()
                                && #[trigger] crate::rewrite::sub_lhs_result(ns, cm, i)
                                    == Some((e.0, e.1));
                        assert(dom.contains(ns[i].0.0));
                        assert(dom.contains(e.0) && dom.contains(e.1));
                    },
                    Rewrite::AddSubCancel => {
                        let (i, j) = choose|i: int, j: int|
                            0 <= i < ns.len() && 0 <= j < ns.len()
                                && #[trigger] crate::rewrite::add_sub_result(ns, cm, i, j)
                                    == Some((e.0, e.1));
                        assert(dom.contains(ns[i].0.0));
                        assert(dom.contains(e.0) && dom.contains(e.1));
                    },
                }
            }
        }
    }
}

/// The engine's output relations.
pub struct EGraphOutput {
    /// The hash-consed e-node table: one entry per inhabited canonical shape,
    /// keyed by the representative of the shape-equivalence class, with the
    /// operand slots holding canonical e-class ids.
    pub canonical_enodes: Vec<(ENodeId, ENode)>,
    /// The final `canon` function: each live e-node with its canonical
    /// e-class id.
    pub enode_to_eclass: Vec<(ENodeId, EClassId)>,
}

/// The output `canon` relation: aligned with the store, and assigning every
/// e-node the minimum id reachable through the saturated edges.
pub open spec fn canon_valid(
    ns: Seq<(ENodeId, ENode)>,
    es: Set<(u64, u64)>,
    c: Seq<(ENodeId, EClassId)>,
) -> bool {
    &&& c.len() == ns.len()
    &&& forall|i: int| 0 <= i < c.len() ==> (#[trigger] c[i]).0 == ns[i].0
    &&& forall|i: int| 0 <= i < c.len()
            ==> is_canon_of(es, id_set(ns), (#[trigger] c[i]).0.0, c[i].1.0)
}

/// The output canonical table: exactly one representative per inhabited
/// canonical shape under the saturated canon.
pub open spec fn table_valid(
    ns: Seq<(ENodeId, ENode)>,
    es: Set<(u64, u64)>,
    ctab: Seq<(ENodeId, ENode)>,
) -> bool {
    let cm = ideal_canon(es, id_set(ns));
    &&& forall|t: int| 0 <= t < ctab.len()
            ==> is_min_of(group_of(ns, cm, (#[trigger] ctab[t]).1), ctab[t].0.0)
    &&& forall|t1: int, t2: int| 0 <= t1 < t2 < ctab.len()
            ==> (#[trigger] ctab[t1]).1 != (#[trigger] ctab[t2]).1
    &&& forall|i: int| 0 <= i < ns.len() ==> table_covers(ns, cm, ctab, i)
}

/// The engine's full contract: the outputs are derived from the unique
/// saturated merge-edge relation.
pub open spec fn valid_outputs(
    ns: Seq<(ENodeId, ENode)>,
    rws: Seq<Rewrite>,
    ext: Set<(u64, u64)>,
    es: Set<(u64, u64)>,
    out: EGraphOutput,
) -> bool {
    &&& saturated(ns, rws, ext, es)
    &&& canon_valid(ns, es, out.enode_to_eclass@)
    &&& table_valid(ns, es, out.canonical_enodes@)
}

/// Some saturated edge relation underlies the outputs (by
/// [`lemma_saturated_unique`], exactly one does).
pub open spec fn saturated_outputs(
    ns: Seq<(ENodeId, ENode)>,
    rws: Seq<Rewrite>,
    ext: Set<(u64, u64)>,
    out: EGraphOutput,
) -> bool {
    exists|es: Set<(u64, u64)>| #[trigger] valid_outputs(ns, rws, ext, es, out)
}

/// Run the equality-saturation fixpoint: derive canonical e-class ids,
/// canonicalize and hash-cons, evaluate the rewrites, feed every proposed
/// merge edge back, and stop when the merge relation stops changing.
#[verifier::rlimit(80)]
pub fn saturate(
    enodes: &Vec<(ENodeId, ENode)>,
    raw_eclass_mergers: &Vec<(EClassId, EClassId)>,
    rewrites: &Vec<Rewrite>,
) -> (out: EGraphOutput)
    requires
        distinct_ids(enodes@),
    ensures
        saturated_outputs(enodes@, rewrites@, merge_edge_set(raw_eclass_mergers@), out),
{
    let ghost ns = enodes@;
    let ghost rws = rewrites@;
    let ghost ext = merge_edge_set(raw_eclass_mergers@);
    let ghost dom = id_set(ns);
    let ghost carrier = dom.union(merger_endpoints(raw_eclass_mergers@));
    let ghost uu = pair_universe(carrier);
    proof {
        lemma_id_set_finite(ns);
        lemma_merger_endpoints_finite(raw_eclass_mergers@);
        vstd::set_lib::lemma_set_union_finite_implies_sets_finite(
            dom,
            merger_endpoints(raw_eclass_mergers@),
        );
        lemma_pair_universe_finite(carrier);
        assert forall|e: (u64, u64)| #[trigger] ext.contains(e) implies uu.contains(e) by {
            let i = choose|i: int|
                0 <= i < raw_eclass_mergers@.len()
                    && (#[trigger] raw_eclass_mergers@[i]).0.0 == e.0
                    && raw_eclass_mergers@[i].1.0 == e.1;
            assert(merger_endpoints(raw_eclass_mergers@).contains(e.0));
            assert(merger_endpoints(raw_eclass_mergers@).contains(e.1));
        }
    }

    // Deduplicate the external mergers into the accumulated merge relation.
    let mut acc: Vec<(EClassId, EClassId)> = Vec::new();
    proof {
        assert(merge_edge_set(acc@) =~= Set::<(u64, u64)>::empty());
    }
    push_missing(&mut acc, raw_eclass_mergers);
    proof {
        assert(merge_edge_set(acc@) =~= ext);
        assert(merge_edge_set(acc@) == sat_edges(ns, rws, ext, 0));
    }

    let ghost mut iter: nat = 0;
    loop
        invariant
            distinct_ids(ns),
            ns == enodes@,
            rws == rewrites@,
            ext == merge_edge_set(raw_eclass_mergers@),
            dom == id_set(ns),
            carrier == dom.union(merger_endpoints(raw_eclass_mergers@)),
            uu == pair_universe(carrier),
            uu.finite(),
            edge_pairs_distinct(acc@),
            merge_edge_set(acc@) == sat_edges(ns, rws, ext, iter),
            merge_edge_set(acc@).subset_of(uu),
        decreases uu.difference(merge_edge_set(acc@)).len(),
    {
        let ghost es = merge_edge_set(acc@);
        let ghost acc_start = acc@;
        let ghost cm = ideal_canon(es, dom);

        let canon = derive_canonical_eclass_ids(&acc, enodes);
        proof {
            lemma_exec_canon_is_ideal(ns, es, canon@);
        }
        let (ctab, cons_proposals) = canonicalize(enodes, &canon);
        let mut changed = push_missing(&mut acc, &cons_proposals);
        proof {
            assert(rules_union(ns, rws, cm, 0) =~= Set::<(u64, u64)>::empty());
            assert(merge_edge_set(acc@)
                =~= es.union(merge_edge_set(cons_proposals@)).union(rules_union(ns, rws, cm, 0)));
        }
        let mut r: usize = 0;
        while r < rewrites.len()
            invariant
                r <= rewrites@.len(),
                distinct_ids(ns),
                ns == enodes@,
                rws == rewrites@,
                dom == id_set(ns),
                cm == ideal_canon(es, dom),
                canon_map_of(canon@) == cm,
                distinct_canon_keys(canon@),
                edge_pairs_distinct(acc@),
                merge_edge_set(acc@)
                    == es.union(merge_edge_set(cons_proposals@))
                        .union(rules_union(ns, rws, cm, r as int)),
                !changed ==> acc@ == acc_start && merge_edge_set(acc_start) == es,
                changed ==> exists|e: (u64, u64)|
                    #[trigger] merge_edge_set(acc@).contains(e) && !es.contains(e),
            decreases rewrites@.len() - r,
        {
            let ghost acc_pre = acc@;
            let proposals = apply_rewrite(&rewrites[r], enodes, &canon);
            let ch = push_missing(&mut acc, &proposals);
            proof {
                assert(rules_union(ns, rws, cm, r as int + 1)
                    =~= rules_union(ns, rws, cm, r as int).union(merge_edge_set(proposals@))) by {
                    assert forall|e: (u64, u64)|
                        rules_union(ns, rws, cm, r as int + 1).contains(e)
                        implies rules_union(ns, rws, cm, r as int)
                            .union(merge_edge_set(proposals@)).contains(e) by {
                        let k = choose|k: int|
                            0 <= k < r + 1 && rule_edge(#[trigger] rws[k], ns, cm, e.0, e.1);
                        if k == r as int {
                            assert(merge_edge_set(proposals@).contains(e));
                        }
                    }
                    assert forall|e: (u64, u64)|
                        rules_union(ns, rws, cm, r as int).union(merge_edge_set(proposals@))
                            .contains(e)
                        implies rules_union(ns, rws, cm, r as int + 1).contains(e) by {
                        if rules_union(ns, rws, cm, r as int).contains(e) {
                            let k = choose|k: int|
                                0 <= k < r && rule_edge(#[trigger] rws[k], ns, cm, e.0, e.1);
                        } else {
                            assert(rule_edge(rws[r as int], ns, cm, e.0, e.1));
                        }
                    }
                }
                assert(merge_edge_set(acc@)
                    =~= es.union(merge_edge_set(cons_proposals@))
                        .union(rules_union(ns, rws, cm, r as int + 1)));
                if ch {
                    let e0 = choose|e: (u64, u64)|
                        #[trigger] merge_edge_set(acc@).contains(e)
                            && !merge_edge_set(acc_pre).contains(e);
                    assert(!es.contains(e0));
                }
                if changed && !ch {
                    let e0 = choose|e: (u64, u64)|
                        #[trigger] merge_edge_set(acc_pre).contains(e) && !es.contains(e);
                    assert(merge_edge_set(acc@).contains(e0));
                }
            }
            if ch {
                changed = true;
            }
            r += 1;
        }
        proof {
            assert(merge_edge_set(acc@) == step_edges(ns, rws, es)) by {
                assert(step_proposals(ns, rws, es)
                    =~= merge_edge_set(cons_proposals@)
                        .union(rules_union(ns, rws, cm, rws.len() as int))) by {
                    assert forall|e: (u64, u64)| step_proposals(ns, rws, es).contains(e)
                        implies merge_edge_set(cons_proposals@)
                            .union(rules_union(ns, rws, cm, rws.len() as int)).contains(e) by {
                        if cons_edge(ns, cm, e.0, e.1) {
                            assert(merge_edge_set(cons_proposals@).contains(e));
                        }
                    }
                    assert forall|e: (u64, u64)|
                        merge_edge_set(cons_proposals@)
                            .union(rules_union(ns, rws, cm, rws.len() as int)).contains(e)
                        implies step_proposals(ns, rws, es).contains(e) by {
                        if merge_edge_set(cons_proposals@).contains(e) {
                            assert(cons_edge(ns, cm, e.0, e.1));
                        }
                    }
                }
                assert(merge_edge_set(acc@) =~= step_edges(ns, rws, es));
            }
        }
        if !changed {
            proof {
                assert(step_edges(ns, rws, es) == es);
                assert(es == sat_edges(ns, rws, ext, iter));
                assert(saturated(ns, rws, ext, es));
            }
            let out = EGraphOutput { canonical_enodes: ctab, enode_to_eclass: canon };
            proof {
                assert(valid_outputs(ns, rws, ext, es, out));
            }
            return out;
        }
        proof {
            iter = iter + 1;
            assert(merge_edge_set(acc@) == sat_edges(ns, rws, ext, iter));
            lemma_step_in_universe(ns, rws, raw_eclass_mergers@, es);
            let e0 = choose|e: (u64, u64)|
                #[trigger] merge_edge_set(acc@).contains(e) && !es.contains(e);
            let d_old = uu.difference(es);
            let d_new = uu.difference(merge_edge_set(acc@));
            assert(d_old.finite()) by {
                lemma_len_subset(d_old, uu);
            }
            assert(d_new.subset_of(d_old.remove(e0))) by {
                assert forall|e: (u64, u64)| d_new.contains(e)
                    implies d_old.remove(e0).contains(e) by {
                    assert(!merge_edge_set(acc@).contains(e));
                    assert(es.subset_of(merge_edge_set(acc@)));
                }
            }
            lemma_len_subset(d_new, d_old.remove(e0));
            assert(d_old.contains(e0));
            assert(d_old.remove(e0).len() < d_old.len());
        }
    }
}

/// An incremental e-graph: accumulated signed input batches, external merge
/// assertions, and the rewrite corpus.
///
/// The caller exclusively owns e-node insertions and retractions; the engine
/// exclusively owns every derived relation.
pub struct EGraph {
    enodes: Vec<(ENodeId, ENode, i64)>,
    eclass_mergers: Vec<(EClassId, EClassId, i64)>,
    rewrites: Vec<Rewrite>,
}

impl EGraph {
    /// The accumulated signed e-node updates.
    pub closed spec fn enode_updates(self) -> Seq<(ENodeId, ENode, i64)> {
        self.enodes@
    }

    /// The accumulated signed merger updates.
    pub closed spec fn merger_updates(self) -> Seq<(EClassId, EClassId, i64)> {
        self.eclass_mergers@
    }

    /// The rewrite corpus.
    pub closed spec fn rewrite_rules(self) -> Seq<Rewrite> {
        self.rewrites@
    }

    pub fn new() -> (r: Self)
        ensures
            r.enode_updates() == Seq::<(ENodeId, ENode, i64)>::empty(),
            r.merger_updates() == Seq::<(EClassId, EClassId, i64)>::empty(),
            r.rewrite_rules() == Seq::<Rewrite>::empty(),
    {
        EGraph { enodes: Vec::new(), eclass_mergers: Vec::new(), rewrites: Vec::new() }
    }

    /// Concatenate one more stream of signed e-node updates.
    pub fn add_enodes(&mut self, enodes: Vec<(ENodeId, ENode, i64)>)
        ensures
            final(self).enode_updates() == old(self).enode_updates() + enodes@,
            final(self).merger_updates() == old(self).merger_updates(),
            final(self).rewrite_rules() == old(self).rewrite_rules(),
    {
        let mut i: usize = 0;
        while i < enodes.len()
            invariant
                i <= enodes@.len(),
                self.enodes@ == old(self).enodes@ + enodes@.take(i as int),
                self.eclass_mergers@ == old(self).eclass_mergers@,
                self.rewrites@ == old(self).rewrites@,
            decreases enodes@.len() - i,
        {
            let ghost pre = self.enodes@;
            self.enodes.push(enodes[i]);
            proof {
                assert(self.enodes@ == pre.push(enodes@[i as int]));
                assert(self.enodes@ =~= old(self).enodes@ + enodes@.take(i as int + 1));
            }
            i += 1;
        }
        proof {
            assert(enodes@.take(enodes@.len() as int) =~= enodes@);
        }
    }

    /// Assert external merges: one more stream of signed merger updates.
    pub fn add_eclass_mergers(&mut self, mergers: Vec<(EClassId, EClassId, i64)>)
        ensures
            final(self).merger_updates() == old(self).merger_updates() + mergers@,
            final(self).enode_updates() == old(self).enode_updates(),
            final(self).rewrite_rules() == old(self).rewrite_rules(),
    {
        let mut i: usize = 0;
        while i < mergers.len()
            invariant
                i <= mergers@.len(),
                self.eclass_mergers@ == old(self).eclass_mergers@ + mergers@.take(i as int),
                self.enodes@ == old(self).enodes@,
                self.rewrites@ == old(self).rewrites@,
            decreases mergers@.len() - i,
        {
            let ghost pre = self.eclass_mergers@;
            self.eclass_mergers.push(mergers[i]);
            proof {
                assert(self.eclass_mergers@ == pre.push(mergers@[i as int]));
                assert(self.eclass_mergers@ =~= old(self).eclass_mergers@ + mergers@.take(i as int + 1));
            }
            i += 1;
        }
        proof {
            assert(mergers@.take(mergers@.len() as int) =~= mergers@);
        }
    }

    /// Register one more rewrite rule.
    pub fn add_rewrite(&mut self, rewrite: Rewrite)
        ensures
            final(self).rewrite_rules() == old(self).rewrite_rules().push(rewrite),
            final(self).enode_updates() == old(self).enode_updates(),
            final(self).merger_updates() == old(self).merger_updates(),
    {
        self.rewrites.push(rewrite);
    }

    /// Close the feedback loop: consolidate the accumulated updates and run
    /// the saturation fixpoint over them.
    pub fn feedback(&self) -> (out: EGraphOutput)
        requires
            crate::store::functional_updates(self.enode_updates()),
        ensures
            exists|ns: Seq<(ENodeId, ENode)>|
                #[trigger] crate::store::denotes_store(self.enode_updates(), ns)
                    && saturated_outputs(
                    ns,
                    self.rewrite_rules(),
                    crate::store::live_merge_set(self.merger_updates()),
                    out,
                ),
    {
        let ns = crate::store::consolidate_enodes(&self.enodes);
        let mergers = crate::store::consolidate_mergers(&self.eclass_mergers);
        let out = saturate(&ns, &mergers, &self.rewrites);
        proof {
            assert(crate::store::denotes_store(self.enode_updates(), ns@)
                && saturated_outputs(
                ns@,
                self.rewrite_rules(),
                crate::store::live_merge_set(self.merger_updates()),
                out,
            ));
        }
        out
    }
}

} // verus!
