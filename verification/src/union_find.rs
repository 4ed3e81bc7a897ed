//! Union-find by iterative label propagation.
//!
//! Given the current multiset of merge edges and the e-node store, derive a
//! relation `canon: ENodeId -> EClassId` assigning every e-node in the store
//! the minimum id reachable from it through the undirected reading of the
//! edges.  Labels start as the seed assignment `x -> x` over the store's ids
//! and are repeatedly replaced by the minimum of a vertex's own label and its
//! neighbors' labels until nothing changes.  Propagation, unlike pointer
//! chasing, recomputes cleanly when an equivalence edge is retracted, which is
//! what keeps the engine incremental.

use vstd::prelude::*;
use crate::connectivity::{adjacent, connected, is_canon_of, is_path, lemma_connected_step,
    lemma_connected_trans};
use crate::enode::ENode;
use crate::ids::{EClassId, ENodeId};
use crate::relation::{distinct_ids, distinct_seq, id_set, merge_edge_set};

verus! {

/// Index of `x` in a duplicate-free vertex sequence.
pub open spec fn vidx(verts: Seq<u64>, x: u64) -> int {
    choose|i: int| 0 <= i < verts.len() && verts[i] == x
}

pub proof fn lemma_vidx(verts: Seq<u64>, x: u64)
    requires
        distinct_seq(verts),
        verts.contains(x),
    ensures
        0 <= vidx(verts, x) < verts.len(),
        verts[vidx(verts, x)] == x,
        forall|i: int| 0 <= i < verts.len() && verts[i] == x ==> i == vidx(verts, x),
{
    let i0 = choose|i: int| 0 <= i < verts.len() && verts[i] == x;
    assert(verts[vidx(verts, x)] == x);
    assert forall|i: int| 0 <= i < verts.len() && verts[i] == x implies i == vidx(verts, x) by {
        let j = vidx(verts, x);
        if i < j {
            assert(verts[i] != verts[j]);
        } else if j < i {
            assert(verts[j] != verts[i]);
        }
    }
}

/// Ordering weight of one label slot; an unlabeled slot weighs more than any
/// label, so every propagation step strictly shrinks the total weight.
pub open spec fn label_weight(l: Option<u64>) -> int {
    match l {
        None => 0x1_0000_0000_0000_0000,
        Some(v) => v as int,
    }
}

/// Total weight of the label assignment: the propagation loop's termination
/// measure.
pub open spec fn labels_measure(labels: Seq<Option<u64>>) -> int
    decreases labels.len(),
{
    if labels.len() == 0 {
        0
    } else {
        labels_measure(labels.drop_last()) + label_weight(labels.last())
    }
}

pub proof fn lemma_labels_measure_nonneg(labels: Seq<Option<u64>>)
    ensures
        labels_measure(labels) >= 0,
    decreases labels.len(),
{
    if labels.len() > 0 {
        lemma_labels_measure_nonneg(labels.drop_last());
    }
}

pub proof fn lemma_labels_measure_update(labels: Seq<Option<u64>>, i: int, v: Option<u64>)
    requires
        0 <= i < labels.len(),
    ensures
        labels_measure(labels.update(i, v))
            == labels_measure(labels) - label_weight(labels[i]) + label_weight(v),
    decreases labels.len(),
{
    let updated = labels.update(i, v);
    if i == labels.len() - 1 {
        assert(updated.drop_last() =~= labels.drop_last());
    } else {
        lemma_labels_measure_update(labels.drop_last(), i, v);
        assert(updated.drop_last() =~= labels.drop_last().update(i, v));
        assert(updated.last() == labels.last());
    }
}

/// Every store id is a vertex and keeps a label no larger than itself.
pub open spec fn seeds_ok(dom: Set<u64>, verts: Seq<u64>, labels: Seq<Option<u64>>) -> bool {
    forall|i: int| 0 <= i < verts.len() && dom.contains(#[trigger] verts[i])
        ==> labels[i].is_some() && labels[i].unwrap() <= verts[i]
}

/// Any label is a store id reachable from the vertex that holds it.
pub open spec fn sound_ok(
    es: Set<(u64, u64)>,
    dom: Set<u64>,
    verts: Seq<u64>,
    labels: Seq<Option<u64>>,
) -> bool {
    forall|i: int| 0 <= i < verts.len() && (#[trigger] labels[i]).is_some()
        ==> dom.contains(labels[i].unwrap()) && connected(es, verts[i], labels[i].unwrap())
}

/// The standing facts of the propagation state.
pub open spec fn prop_inv(
    es: Set<(u64, u64)>,
    dom: Set<u64>,
    verts: Seq<u64>,
    labels: Seq<Option<u64>>,
) -> bool {
    &&& labels.len() == verts.len()
    &&& distinct_seq(verts)
    &&& forall|x: u64| dom.contains(x) ==> verts.contains(x)
    &&& forall|e: (u64, u64)| #[trigger] es.contains(e) ==> verts.contains(e.0) && verts.contains(e.1)
    &&& seeds_ok(dom, verts, labels)
    &&& sound_ok(es, dom, verts, labels)
}

/// One directed relaxation can no longer improve: a label on the source side
/// forces a label at most as large on the target side.
pub open spec fn relax_ok(labels: Seq<Option<u64>>, ia: int, ib: int) -> bool {
    labels[ia].is_some() ==> labels[ib].is_some() && labels[ib].unwrap() <= labels[ia].unwrap()
}

/// No single propagation step can improve any label.
pub open spec fn at_fixpoint(
    es: Set<(u64, u64)>,
    verts: Seq<u64>,
    labels: Seq<Option<u64>>,
) -> bool {
    forall|ia: int, ib: int|
        0 <= ia < verts.len() && 0 <= ib < verts.len()
            && adjacent(es, verts[ia], verts[ib]) && (#[trigger] labels[ia]).is_some()
            ==> (#[trigger] labels[ib]).is_some() && labels[ib].unwrap() <= labels[ia].unwrap()
}

/// A sweep that relaxed every edge in both orientations without moving a
/// label has reached the propagation fixpoint.
proof fn lemma_relaxed_sweep_fixpoint(
    es: Set<(u64, u64)>,
    verts: Seq<u64>,
    labels: Seq<Option<u64>>,
    eclass_parents: Seq<(EClassId, EClassId)>,
)
    requires
        es == merge_edge_set(eclass_parents),
        distinct_seq(verts),
        labels.len() == verts.len(),
        forall|e: (u64, u64)| #[trigger] es.contains(e)
            ==> verts.contains(e.0) && verts.contains(e.1),
        forall|k: int| 0 <= k < eclass_parents.len()
            ==> relax_ok(
                labels,
                vidx(verts, (#[trigger] eclass_parents[k]).0.0),
                vidx(verts, eclass_parents[k].1.0),
            ) && relax_ok(
                labels,
                vidx(verts, eclass_parents[k].1.0),
                vidx(verts, eclass_parents[k].0.0),
            ),
    ensures
        at_fixpoint(es, verts, labels),
{
    assert forall|ia: int, ib: int|
        0 <= ia < verts.len() && 0 <= ib < verts.len()
            && adjacent(es, verts[ia], verts[ib]) && (#[trigger] labels[ia]).is_some()
        implies (#[trigger] labels[ib]).is_some()
            && labels[ib].unwrap() <= labels[ia].unwrap() by {
        let a = verts[ia];
        let b = verts[ib];
        lemma_vidx(verts, a);
        lemma_vidx(verts, b);
        assert(ia == vidx(verts, a));
        assert(ib == vidx(verts, b));
        if es.contains((a, b)) {
            let k = choose|k: int|
                0 <= k < eclass_parents.len() && (#[trigger] eclass_parents[k]).0.0 == a
                    && eclass_parents[k].1.0 == b;
            assert(relax_ok(labels, vidx(verts, a), vidx(verts, b)));
        } else {
            assert(es.contains((b, a)));
            let k = choose|k: int|
                0 <= k < eclass_parents.len() && (#[trigger] eclass_parents[k]).0.0 == b
                    && eclass_parents[k].1.0 == a;
            assert(relax_ok(labels, vidx(verts, a), vidx(verts, b)));
        }
    }
}

/// At a fixpoint, walking any path from `v` to a store id `y` only ever meets
/// labels at most `y`: the seed `y` has flowed down the whole path.
proof fn lemma_fixpoint_path(
    es: Set<(u64, u64)>,
    dom: Set<u64>,
    verts: Seq<u64>,
    labels: Seq<Option<u64>>,
    p: Seq<u64>,
    v: u64,
    y: u64,
)
    requires
        prop_inv(es, dom, verts, labels),
        at_fixpoint(es, verts, labels),
        is_path(es, p, v, y),
        dom.contains(y),
        verts.contains(v),
    ensures
        labels[vidx(verts, v)].is_some(),
        labels[vidx(verts, v)].unwrap() <= y,
    decreases p.len(),
{
    lemma_vidx(verts, v);
    if p.len() == 1 {
        assert(v == y);
    } else {
        let v1 = p[1];
        assert(adjacent(es, p[0], p[1]));
        assert(verts.contains(v1)) by {
            if es.contains((v, v1)) {
            } else {
                assert(es.contains((v1, v)));
            }
        }
        lemma_vidx(verts, v1);
        let tail = p.subrange(1, p.len() as int);
        assert(is_path(es, tail, v1, y)) by {
            assert(tail[0] == v1);
            assert(tail[tail.len() - 1] == y);
            assert forall|i: int| 0 <= i < tail.len() - 1
                implies adjacent(es, #[trigger] tail[i], tail[i + 1]) by {
                assert(tail[i] == p[i + 1] && tail[i + 1] == p[i + 2]);
                assert(adjacent(es, p[i + 1], p[i + 2]));
            }
        }
        lemma_fixpoint_path(es, dom, verts, labels, tail, v1, y);
        let iv = vidx(verts, v);
        let iv1 = vidx(verts, v1);
        assert(adjacent(es, verts[iv1], verts[iv]));
    }
}

fn vec_contains(v: &Vec<u64>, x: u64) -> (r: bool)
    ensures
        r == v@.contains(x),
{
    let mut i: usize = 0;
    while i < v.len()
        invariant
            i <= v@.len(),
            forall|k: int| 0 <= k < i ==> v@[k] != x,
        decreases v@.len() - i,
    {
        if v[i] == x {
            assert(v@[i as int] == x);
            return true;
        }
        i += 1;
    }
    false
}

fn index_of(v: &Vec<u64>, x: u64) -> (r: usize)
    requires
        v@.contains(x),
    ensures
        r < v@.len(),
        v@[r as int] == x,
{
    let mut i: usize = 0;
    while i < v.len()
        invariant
            i <= v@.len(),
            v@.contains(x),
            forall|k: int| 0 <= k < i ==> v@[k] != x,
        decreases v@.len() - i,
    {
        if v[i] == x {
            return i;
        }
        i += 1;
    }
    proof {
        let w = choose|k: int| 0 <= k < v@.len() && v@[k] == x;
        assert(false);
    }
    0
}

/// Admit `x` as a vertex; an endpoint seen for the first time starts
/// unlabeled.
fn ensure_vertex(
    verts: &mut Vec<u64>,
    labels: &mut Vec<Option<u64>>,
    x: u64,
    Ghost(es): Ghost<Set<(u64, u64)>>,
    Ghost(dom): Ghost<Set<u64>>,
)
    requires
        old(verts)@.len() == old(labels)@.len(),
        distinct_seq(old(verts)@),
        forall|y: u64| dom.contains(y) ==> old(verts)@.contains(y),
        seeds_ok(dom, old(verts)@, old(labels)@),
        sound_ok(es, dom, old(verts)@, old(labels)@),
    ensures
        final(verts)@.len() == final(labels)@.len(),
        distinct_seq(final(verts)@),
        forall|y: u64| dom.contains(y) ==> final(verts)@.contains(y),
        seeds_ok(dom, final(verts)@, final(labels)@),
        sound_ok(es, dom, final(verts)@, final(labels)@),
        final(verts)@.contains(x),
        forall|y: u64| old(verts)@.contains(y) ==> final(verts)@.contains(y),
{
    let ghost verts0 = verts@;
    let ghost labels0 = labels@;
    if !vec_contains(verts, x) {
        verts.push(x);
        labels.push(None);
        proof {
            let n = verts0.len() as int;
            assert(verts@ == verts0.push(x));
            assert(labels@ == labels0.push(None));
            assert(verts@[n] == x);
            assert(forall|k: int| 0 <= k < n ==> verts@[k] == verts0[k]);
            assert(forall|k: int| 0 <= k < n ==> labels@[k] == labels0[k]);
            assert forall|y: u64| verts0.contains(y) implies verts@.contains(y) by {
                let k = choose|k: int| 0 <= k < verts0.len() && verts0[k] == y;
                assert(verts@[k] == y);
            }
            assert(distinct_seq(verts@)) by {
                assert forall|i: int, j: int| 0 <= i < j < verts@.len()
                    implies #[trigger] verts@[i] != #[trigger] verts@[j] by {
                    if j == n {
                        assert(verts@[i] == verts0[i]);
                        if verts0[i] == x {
                            assert(verts0.contains(x));
                        }
                    }
                }
            }
            assert(seeds_ok(dom, verts@, labels@)) by {
                assert forall|i: int|
                    0 <= i < verts@.len() && dom.contains(#[trigger] verts@[i])
                    implies labels@[i].is_some() && labels@[i].unwrap() <= verts@[i] by {
                    if i == n {
                        assert(verts0.contains(x));
                        assert(false);
                    }
                }
            }
            assert(sound_ok(es, dom, verts@, labels@)) by {
                assert forall|i: int|
                    0 <= i < verts@.len() && (#[trigger] labels@[i]).is_some()
                    implies dom.contains(labels@[i].unwrap())
                        && connected(es, verts@[i], labels@[i].unwrap()) by {
                    assert(i < n);
                }
            }
        }
    }
}

/// One directed relaxation: pull the source's label onto the target when it
/// improves the target's label.
fn relax(
    labels: &mut Vec<Option<u64>>,
    verts: &Vec<u64>,
    ia: usize,
    ib: usize,
    Ghost(es): Ghost<Set<(u64, u64)>>,
    Ghost(dom): Ghost<Set<u64>>,
) -> (changed: bool)
    requires
        prop_inv(es, dom, verts@, old(labels)@),
        ia < verts@.len(),
        ib < verts@.len(),
        adjacent(es, verts@[ia as int], verts@[ib as int]),
    ensures
        prop_inv(es, dom, verts@, final(labels)@),
        final(labels)@.len() == old(labels)@.len(),
        changed ==> labels_measure(final(labels)@) < labels_measure(old(labels)@),
        !changed ==> final(labels)@ == old(labels)@,
        !changed ==> relax_ok(final(labels)@, ia as int, ib as int),
{
    let ghost labels0 = labels@;
    if let Some(la) = labels[ia] {
        let improve = match labels[ib] {
            None => true,
            Some(lb) => la < lb,
        };
        if improve {
            proof {
                lemma_labels_measure_update(labels0, ib as int, Some(la));
                lemma_connected_step(es, verts@[ib as int], verts@[ia as int]);
                lemma_connected_trans(es, verts@[ib as int], verts@[ia as int], la);
            }
            labels.set(ib, Some(la));
            proof {
                assert(labels@ == labels0.update(ib as int, Some(la)));
                assert(seeds_ok(dom, verts@, labels@)) by {
                    assert forall|i: int|
                        0 <= i < verts@.len() && dom.contains(#[trigger] verts@[i])
                        implies labels@[i].is_some() && labels@[i].unwrap() <= verts@[i] by {
                        if i == ib as int {
                            assert(labels0[i].is_some() && labels0[i].unwrap() <= verts@[i]);
                        }
                    }
                }
                assert(sound_ok(es, dom, verts@, labels@)) by {
                    assert forall|i: int|
                        0 <= i < verts@.len() && (#[trigger] labels@[i]).is_some()
                        implies dom.contains(labels@[i].unwrap())
                            && connected(es, verts@[i], labels@[i].unwrap()) by {
                        if i != ib as int {
                            assert(labels@[i] == labels0[i]);
                        }
                    }
                }
            }
            return true;
        }
    }
    false
}

/// One relaxation sweep over every edge, in both orientations.
fn sweep(
    eclass_parents: &Vec<(EClassId, EClassId)>,
    verts: &Vec<u64>,
    labels: &mut Vec<Option<u64>>,
    Ghost(es): Ghost<Set<(u64, u64)>>,
    Ghost(dom): Ghost<Set<u64>>,
) -> (changed: bool)
    requires
        es == merge_edge_set(eclass_parents@),
        prop_inv(es, dom, verts@, old(labels)@),
    ensures
        prop_inv(es, dom, verts@, final(labels)@),
        changed ==> labels_measure(final(labels)@) < labels_measure(old(labels)@),
        !changed ==> final(labels)@ == old(labels)@,
        !changed ==> at_fixpoint(es, verts@, final(labels)@),
{
    let ghost labels_start = labels@;
    let mut changed = false;
    let mut j: usize = 0;
    while j < eclass_parents.len()
        invariant
            j <= eclass_parents@.len(),
            es == merge_edge_set(eclass_parents@),
            prop_inv(es, dom, verts@, labels@),
            labels_measure(labels@) <= labels_measure(labels_start),
            changed ==> labels_measure(labels@) < labels_measure(labels_start),
            !changed ==> labels@ == labels_start,
            !changed ==> forall|k: int| 0 <= k < j
                ==> relax_ok(
                    labels@,
                    vidx(verts@, (#[trigger] eclass_parents@[k]).0.0),
                    vidx(verts@, eclass_parents@[k].1.0),
                ) && relax_ok(
                    labels@,
                    vidx(verts@, eclass_parents@[k].1.0),
                    vidx(verts@, eclass_parents@[k].0.0),
                ),
        decreases eclass_parents@.len() - j,
    {
        let a = eclass_parents[j].0.0;
        let b = eclass_parents[j].1.0;
        proof {
            assert(eclass_parents@[j as int].0.0 == a && eclass_parents@[j as int].1.0 == b);
            assert(es.contains((a, b)));
        }
        let ia = index_of(verts, a);
        let ib = index_of(verts, b);
        proof {
            lemma_vidx(verts@, a);
            lemma_vidx(verts@, b);
            assert(ia as int == vidx(verts@, a));
            assert(ib as int == vidx(verts@, b));
            assert(adjacent(es, verts@[ia as int], verts@[ib as int]));
        }
        let c1 = relax(labels, verts, ia, ib, Ghost(es), Ghost(dom));
        let c2 = relax(labels, verts, ib, ia, Ghost(es), Ghost(dom));
        if c1 || c2 {
            changed = true;
        }
        j += 1;
    }
    proof {
        if !changed {
            lemma_relaxed_sweep_fixpoint(es, verts@, labels@, eclass_parents@);
        }
    }
    changed
}

/// Run label-propagation sweeps until no label moves.
#[verifier::rlimit(60)]
fn propagate(
    eclass_parents: &Vec<(EClassId, EClassId)>,
    verts: &Vec<u64>,
    labels: &mut Vec<Option<u64>>,
    Ghost(es): Ghost<Set<(u64, u64)>>,
    Ghost(dom): Ghost<Set<u64>>,
)
    requires
        es == merge_edge_set(eclass_parents@),
        prop_inv(es, dom, verts@, old(labels)@),
    ensures
        prop_inv(es, dom, verts@, final(labels)@),
        at_fixpoint(es, verts@, final(labels)@),
{
    loop
        invariant
            es == merge_edge_set(eclass_parents@),
            prop_inv(es, dom, verts@, labels@),
        ensures
            prop_inv(es, dom, verts@, labels@),
            at_fixpoint(es, verts@, labels@),
        decreases labels_measure(labels@),
    {
        proof {
            lemma_labels_measure_nonneg(labels@);
        }
        let changed = sweep(eclass_parents, verts, labels, Ghost(es), Ghost(dom));
        proof {
            lemma_labels_measure_nonneg(labels@);
        }
        if !changed {
            break;
        }
    }
}

/// Derive the canonical e-class id of every e-node in the store: the minimum
/// id reachable from it through the undirected reading of the merge edges.
///
/// The result is aligned with the store — entry `i` labels the store's `i`-th
/// e-node — so it is total and functional over the store by construction.
#[verifier::rlimit(60)]
pub fn derive_canonical_eclass_ids(
    eclass_parents: &Vec<(EClassId, EClassId)>,
    enodes: &Vec<(ENodeId, ENode)>,
) -> (canon: Vec<(ENodeId, EClassId)>)
    requires
        distinct_ids(enodes@),
    ensures
        canon@.len() == enodes@.len(),
        forall|i: int| 0 <= i < canon@.len() ==> (#[trigger] canon@[i]).0 == enodes@[i].0,
        forall|i: int| 0 <= i < canon@.len()
            ==> is_canon_of(
                merge_edge_set(eclass_parents@),
                id_set(enodes@),
                (#[trigger] canon@[i]).0.0,
                canon@[i].1.0,
            ),
{
    let ghost es = merge_edge_set(eclass_parents@);
    let ghost dom = id_set(enodes@);

    // Seed assignment: every store id labels itself.
    let mut verts: Vec<u64> = Vec::new();
    let mut labels: Vec<Option<u64>> = Vec::new();
    let mut i: usize = 0;
    while i < enodes.len()
        invariant
            i <= enodes@.len(),
            distinct_ids(enodes@),
            verts@.len() == i,
            labels@.len() == i,
            forall|k: int| 0 <= k < i ==> verts@[k] == (#[trigger] enodes@[k]).0.0,
            forall|k: int| 0 <= k < i ==> labels@[k] == Some((#[trigger] enodes@[k]).0.0),
        decreases enodes@.len() - i,
    {
        verts.push(enodes[i].0.0);
        labels.push(Some(enodes[i].0.0));
        i += 1;
    }
    proof {
        assert forall|a: int, b: int| 0 <= a < b < verts@.len()
            implies #[trigger] verts@[a] != #[trigger] verts@[b] by {
            assert(enodes@[a].0 != enodes@[b].0);
        }
        assert forall|x: u64| dom.contains(x) implies verts@.contains(x) by {
            let k = choose|k: int| 0 <= k < enodes@.len() && (#[trigger] enodes@[k]).0.0 == x;
            assert(verts@[k] == x);
        }
        assert(seeds_ok(dom, verts@, labels@)) by {
            assert forall|k: int|
                0 <= k < verts@.len() && dom.contains(#[trigger] verts@[k])
                implies labels@[k].is_some() && labels@[k].unwrap() <= verts@[k] by {
                assert(labels@[k] == Some(enodes@[k].0.0));
            }
        }
        assert(sound_ok(es, dom, verts@, labels@)) by {
            assert forall|k: int|
                0 <= k < verts@.len() && (#[trigger] labels@[k]).is_some()
                implies dom.contains(labels@[k].unwrap())
                    && connected(es, verts@[k], labels@[k].unwrap()) by {
                assert(verts@[k] == enodes@[k].0.0);
                assert(dom.contains(verts@[k]));
                crate::connectivity::lemma_connected_refl(es, verts@[k]);
            }
        }
    }

    // Make sure every edge endpoint is a vertex; fresh endpoints start
    // unlabeled.
    let mut j: usize = 0;
    while j < eclass_parents.len()
        invariant
            j <= eclass_parents@.len(),
            verts@.len() == labels@.len(),
            distinct_seq(verts@),
            forall|x: u64| dom.contains(x) ==> verts@.contains(x),
            forall|k: int| 0 <= k < j
                ==> verts@.contains((#[trigger] eclass_parents@[k]).0.0)
                    && verts@.contains(eclass_parents@[k].1.0),
            seeds_ok(dom, verts@, labels@),
            sound_ok(es, dom, verts@, labels@),
        decreases eclass_parents@.len() - j,
    {
        let a = eclass_parents[j].0.0;
        let b = eclass_parents[j].1.0;
        ensure_vertex(&mut verts, &mut labels, a, Ghost(es), Ghost(dom));
        ensure_vertex(&mut verts, &mut labels, b, Ghost(es), Ghost(dom));
        j += 1;
    }
    proof {
        assert forall|e: (u64, u64)| #[trigger] es.contains(e)
            implies verts@.contains(e.0) && verts@.contains(e.1) by {
            let k = choose|k: int|
                0 <= k < eclass_parents@.len() && (#[trigger] eclass_parents@[k]).0.0 == e.0
                    && eclass_parents@[k].1.0 == e.1;
        }
        assert(prop_inv(es, dom, verts@, labels@));
    }

    // Propagate until no label moves.
    propagate(eclass_parents, &verts, &mut labels, Ghost(es), Ghost(dom));

    // Read the final labels back off the store, in store order.
    let mut canon: Vec<(ENodeId, EClassId)> = Vec::new();
    let mut i: usize = 0;
    while i < enodes.len()
        invariant
            i <= enodes@.len(),
            distinct_ids(enodes@),
            prop_inv(es, dom, verts@, labels@),
            at_fixpoint(es, verts@, labels@),
            es == merge_edge_set(eclass_parents@),
            dom == id_set(enodes@),
            canon@.len() == i,
            forall|k: int| 0 <= k < i ==> (#[trigger] canon@[k]).0 == enodes@[k].0,
            forall|k: int| 0 <= k < i
                ==> is_canon_of(es, dom, (#[trigger] canon@[k]).0.0, canon@[k].1.0),
        decreases enodes@.len() - i,
    {
        let x = enodes[i].0.0;
        proof {
            assert(dom.contains(x)) by {
                assert(enodes@[i as int].0.0 == x);
            }
            lemma_vidx(verts@, x);
        }
        let ix = index_of(&verts, x);
        proof {
            assert(ix as int == vidx(verts@, x));
            assert(dom.contains(verts@[ix as int]));
        }
        let l = match labels[ix] {
            Some(l) => l,
            None => {
                proof {
                    assert(false);
                }
                0
            },
        };
        proof {
            assert(dom.contains(l) && connected(es, verts@[ix as int], l));
            assert forall|y: u64| dom.contains(y) && connected(es, x, y) implies l <= y by {
                let p = crate::connectivity::lemma_connected_path(es, x, y);
                lemma_fixpoint_path(es, dom, verts@, labels@, p, x, y);
            }
            assert(is_canon_of(es, dom, x, l));
        }
        canon.push((enodes[i].0, EClassId::new(l)));
        i += 1;
    }
    canon
}

} // verus!
