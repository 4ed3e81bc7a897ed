//! Spec-level views of the executable relations.
//!
//! Relations are carried at run time as vectors of pairs; the contracts speak
//! of them through the set of merge edges they denote, the set of live e-node
//! ids, and a functional lookup for the two-column `canon` relation.

use vstd::prelude::*;
use crate::enode::ENode;
use crate::ids::{EClassId, ENodeId};

verus! {

/// The set of merge edges denoted by a two-column relation over e-class ids.
pub open spec fn merge_edge_set(s: Seq<(EClassId, EClassId)>) -> Set<(u64, u64)> {
    Set::new(|e: (u64, u64)| exists|i: int|
        0 <= i < s.len() && (#[trigger] s[i]).0.0 == e.0 && s[i].1.0 == e.1)
}

/// The set of e-node ids living in an e-node relation.
pub open spec fn id_set(s: Seq<(ENodeId, ENode)>) -> Set<u64> {
    Set::new(|x: u64| exists|i: int| 0 <= i < s.len() && (#[trigger] s[i]).0.0 == x)
}

/// Each e-node id names at most one shape: the relation is functional.
pub open spec fn distinct_ids(s: Seq<(ENodeId, ENode)>) -> bool {
    forall|i: int, j: int| 0 <= i < j < s.len() ==> (#[trigger] s[i]).0 != (#[trigger] s[j]).0
}

/// No id repeats in a plain id sequence.
pub open spec fn distinct_seq(s: Seq<u64>) -> bool {
    forall|i: int, j: int| 0 <= i < j < s.len() ==> #[trigger] s[i] != #[trigger] s[j]
}

pub proof fn lemma_merge_edge_set_finite(s: Seq<(EClassId, EClassId)>)
    ensures
        merge_edge_set(s).finite(),
    decreases s.len(),
{
    if s.len() == 0 {
        assert(merge_edge_set(s) =~= Set::<(u64, u64)>::empty());
    } else {
        let head = s.drop_last();
        lemma_merge_edge_set_finite(head);
        let last = (s.last().0.0, s.last().1.0);
        assert(merge_edge_set(s) =~= merge_edge_set(head).insert(last)) by {
            assert forall|e: (u64, u64)| merge_edge_set(s).contains(e)
                implies merge_edge_set(head).insert(last).contains(e) by {
                let i = choose|i: int|
                    0 <= i < s.len() && (#[trigger] s[i]).0.0 == e.0 && s[i].1.0 == e.1;
                if i < s.len() - 1 {
                    assert(head[i] == s[i]);
                    assert(merge_edge_set(head).contains(e));
                }
            }
            assert forall|e: (u64, u64)| merge_edge_set(head).insert(last).contains(e)
                implies merge_edge_set(s).contains(e) by {
                if merge_edge_set(head).contains(e) {
                    let i = choose|i: int|
                        0 <= i < head.len() && (#[trigger] head[i]).0.0 == e.0 && head[i].1.0 == e.1;
                    assert(s[i] == head[i]);
                } else {
                    assert(s[s.len() - 1].0.0 == e.0 && s[s.len() - 1].1.0 == e.1);
                }
            }
        }
    }
}

pub proof fn lemma_id_set_finite(s: Seq<(ENodeId, ENode)>)
    ensures
        id_set(s).finite(),
    decreases s.len(),
{
    if s.len() == 0 {
        assert(id_set(s) =~= Set::<u64>::empty());
    } else {
        let head = s.drop_last();
        lemma_id_set_finite(head);
        assert(id_set(s) =~= id_set(head).insert(s.last().0.0)) by {
            assert forall|x: u64| id_set(s).contains(x)
                implies id_set(head).insert(s.last().0.0).contains(x) by {
                let i = choose|i: int| 0 <= i < s.len() && (#[trigger] s[i]).0.0 == x;
                if i < s.len() - 1 {
                    assert(head[i] == s[i]);
                    assert(id_set(head).contains(x));
                }
            }
            assert forall|x: u64| id_set(head).insert(s.last().0.0).contains(x)
                implies id_set(s).contains(x) by {
                if id_set(head).contains(x) {
                    let i = choose|i: int| 0 <= i < head.len() && (#[trigger] head[i]).0.0 == x;
                    assert(s[i] == head[i]);
                } else {
                    assert(s[s.len() - 1].0.0 == x);
                }
            }
        }
    }
}

/// No two entries denote the same merge edge.
pub open spec fn edge_pairs_distinct(s: Seq<(EClassId, EClassId)>) -> bool {
    forall|i: int, j: int| 0 <= i < j < s.len()
        ==> ((#[trigger] s[i]).0.0, s[i].1.0) != ((#[trigger] s[j]).0.0, s[j].1.0)
}

pub proof fn lemma_merge_edge_set_push(s: Seq<(EClassId, EClassId)>, p: (EClassId, EClassId))
    ensures
        merge_edge_set(s.push(p)) == merge_edge_set(s).insert((p.0.0, p.1.0)),
{
    let grown = s.push(p);
    assert forall|e: (u64, u64)| merge_edge_set(grown).contains(e)
        implies merge_edge_set(s).insert((p.0.0, p.1.0)).contains(e) by {
        let i = choose|i: int|
            0 <= i < grown.len() && (#[trigger] grown[i]).0.0 == e.0 && grown[i].1.0 == e.1;
        if i < s.len() {
            assert(s[i] == grown[i]);
            assert(merge_edge_set(s).contains(e));
        } else {
            assert(grown[i] == p);
        }
    }
    assert forall|e: (u64, u64)| merge_edge_set(s).insert((p.0.0, p.1.0)).contains(e)
        implies merge_edge_set(grown).contains(e) by {
        if merge_edge_set(s).contains(e) {
            let i = choose|i: int|
                0 <= i < s.len() && (#[trigger] s[i]).0.0 == e.0 && s[i].1.0 == e.1;
            assert(grown[i] == s[i]);
        } else {
            assert(grown[s.len() as int] == p);
        }
    }
    assert(merge_edge_set(grown) =~= merge_edge_set(s).insert((p.0.0, p.1.0)));
}

/// The `canon` relation holds the pair `(x, v)`.
pub open spec fn maps_to(c: Seq<(ENodeId, EClassId)>, x: u64, v: u64) -> bool {
    exists|i: int| 0 <= i < c.len() && (#[trigger] c[i]).0.0 == x && c[i].1.0 == v
}

/// The key column of the `canon` relation.
pub open spec fn canon_keys(c: Seq<(ENodeId, EClassId)>) -> Set<u64> {
    Set::new(|x: u64| exists|i: int| 0 <= i < c.len() && (#[trigger] c[i]).0.0 == x)
}

/// Each key appears at most once: the `canon` relation is functional.
pub open spec fn distinct_canon_keys(c: Seq<(ENodeId, EClassId)>) -> bool {
    forall|i: int, j: int| 0 <= i < j < c.len() ==> (#[trigger] c[i]).0 != (#[trigger] c[j]).0
}

/// The value a functional `canon` relation assigns to `x`.
pub open spec fn canon_val(c: Seq<(ENodeId, EClassId)>, x: u64) -> u64 {
    choose|v: u64| maps_to(c, x, v)
}

pub proof fn lemma_canon_val(c: Seq<(ENodeId, EClassId)>, x: u64, v: u64)
    requires
        distinct_canon_keys(c),
        maps_to(c, x, v),
    ensures
        canon_val(c, x) == v,
{
    let v0 = canon_val(c, x);
    assert(maps_to(c, x, v0));
    let i = choose|i: int| 0 <= i < c.len() && (#[trigger] c[i]).0.0 == x && c[i].1.0 == v0;
    let j = choose|j: int| 0 <= j < c.len() && (#[trigger] c[j]).0.0 == x && c[j].1.0 == v;
    if i != j {
        assert(c[i].0.0 == c[j].0.0);
        assert(c[i].0 == c[j].0);
    }
}

/// The finite map a functional `canon` relation denotes.
pub open spec fn canon_map_of(c: Seq<(ENodeId, EClassId)>) -> Map<u64, u64> {
    Map::new(|x: u64| canon_keys(c).contains(x), |x: u64| canon_val(c, x))
}

/// `m` is the least member of `s`.
pub open spec fn is_min_of(s: Set<u64>, m: u64) -> bool {
    &&& s.contains(m)
    &&& forall|y: u64| s.contains(y) ==> m <= y
}

pub proof fn lemma_min_unique(s: Set<u64>, m1: u64, m2: u64)
    requires
        is_min_of(s, m1),
        is_min_of(s, m2),
    ensures
        m1 == m2,
{
}

} // verus!
