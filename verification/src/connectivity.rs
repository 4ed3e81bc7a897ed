//! Undirected reachability over a merge-edge set, and the minimum-label
//! specification that the union-find is proved against.
//!
//! Merge edges live over the shared 64-bit identifier carrier.  An edge set is
//! read as undirected: two ids are adjacent when the set holds the pair in
//! either orientation, so no explicit symmetric closure is ever needed in the
//! specifications.  The canonical label of an id `x` with respect to a domain
//! of live ids is the minimum member of the domain reachable from `x`.

use vstd::prelude::*;
use vstd::set_lib::lemma_len_subset;

verus! {

/// `a` and `b` are joined by one merge edge, in either orientation.
pub open spec fn adjacent(es: Set<(u64, u64)>, a: u64, b: u64) -> bool {
    es.contains((a, b)) || es.contains((b, a))
}

/// `p` is a walk from `a` to `b` whose consecutive entries are adjacent.
pub open spec fn is_path(es: Set<(u64, u64)>, p: Seq<u64>, a: u64, b: u64) -> bool {
    &&& p.len() >= 1
    &&& p[0] == a
    &&& p[p.len() - 1] == b
    &&& forall|i: int| 0 <= i < p.len() - 1 ==> adjacent(es, #[trigger] p[i], p[i + 1])
}

/// `b` is reachable from `a` through the undirected reading of `es`.
///
/// Kept opaque: the path quantifier underneath would otherwise flood every
/// caller's proof context.  All reasoning goes through the lemmas below.
#[verifier::opaque]
pub open spec fn connected(es: Set<(u64, u64)>, a: u64, b: u64) -> bool {
    exists|p: Seq<u64>| is_path(es, p, a, b)
}

/// Package a walk up as a reachability fact.
pub proof fn lemma_path_connected(es: Set<(u64, u64)>, p: Seq<u64>, a: u64, b: u64)
    requires
        is_path(es, p, a, b),
    ensures
        connected(es, a, b),
{
    reveal(connected);
}

/// Unpack a reachability fact into a witnessing walk.
pub proof fn lemma_connected_path(es: Set<(u64, u64)>, a: u64, b: u64) -> (p: Seq<u64>)
    requires
        connected(es, a, b),
    ensures
        is_path(es, p, a, b),
{
    reveal(connected);
    choose|p: Seq<u64>| is_path(es, p, a, b)
}

pub proof fn lemma_connected_refl(es: Set<(u64, u64)>, a: u64)
    ensures
        connected(es, a, a),
{
    reveal(connected);
    let p = seq![a];
    assert(is_path(es, p, a, a));
}

pub proof fn lemma_connected_step(es: Set<(u64, u64)>, a: u64, b: u64)
    requires
        adjacent(es, a, b),
    ensures
        connected(es, a, b),
{
    reveal(connected);
    let p = seq![a, b];
    assert(p[0] == a && p[1] == b);
    assert(is_path(es, p, a, b));
}

pub proof fn lemma_connected_sym(es: Set<(u64, u64)>, a: u64, b: u64)
    requires
        connected(es, a, b),
    ensures
        connected(es, b, a),
{
    reveal(connected);
    let p = choose|p: Seq<u64>| is_path(es, p, a, b);
    let q = Seq::new(p.len(), |i: int| p[p.len() - 1 - i]);
    assert forall|i: int| 0 <= i < q.len() - 1 implies adjacent(es, #[trigger] q[i], q[i + 1]) by {
        assert(adjacent(es, p[p.len() - 2 - i], p[p.len() - 1 - i]));
    }
    assert(is_path(es, q, b, a));
}

pub proof fn lemma_connected_trans(es: Set<(u64, u64)>, a: u64, b: u64, c: u64)
    requires
        connected(es, a, b),
        connected(es, b, c),
    ensures
        connected(es, a, c),
{
    reveal(connected);
    let p = choose|p: Seq<u64>| is_path(es, p, a, b);
    let q = choose|q: Seq<u64>| is_path(es, q, b, c);
    let r = p + q.subrange(1, q.len() as int);
    assert(r[0] == a);
    assert(r[r.len() - 1] == c);
    assert forall|i: int| 0 <= i < r.len() - 1 implies adjacent(es, #[trigger] r[i], r[i + 1]) by {
        if i < p.len() - 1 {
            assert(adjacent(es, p[i], p[i + 1]));
        } else if i == p.len() - 1 {
            if q.len() >= 2 {
                assert(r[i] == b && r[i + 1] == q[1]);
                assert(adjacent(es, q[0], q[1]));
            }
        } else {
            let j = i - p.len() + 1;
            assert(r[i] == q[j] && r[i + 1] == q[j + 1]);
            assert(adjacent(es, q[j], q[j + 1]));
        }
    }
    assert(is_path(es, r, a, c));
}

/// `m` is the canonical label of `x`: the least member of `dom` reachable
/// from `x` through the undirected reading of `es`.
pub open spec fn is_canon_of(es: Set<(u64, u64)>, dom: Set<u64>, x: u64, m: u64) -> bool {
    &&& dom.contains(m)
    &&& connected(es, x, m)
    &&& forall|y: u64| dom.contains(y) && connected(es, x, y) ==> m <= y
}

pub proof fn lemma_canon_unique(es: Set<(u64, u64)>, dom: Set<u64>, x: u64, m1: u64, m2: u64)
    requires
        is_canon_of(es, dom, x, m1),
        is_canon_of(es, dom, x, m2),
    ensures
        m1 == m2,
{
}

/// Reachable ids share one canonical label.
pub proof fn lemma_connected_same_canon(
    es: Set<(u64, u64)>,
    dom: Set<u64>,
    x: u64,
    y: u64,
    mx: u64,
    my: u64,
)
    requires
        is_canon_of(es, dom, x, mx),
        is_canon_of(es, dom, y, my),
        connected(es, x, y),
    ensures
        mx == my,
{
    lemma_connected_sym(es, x, y);
    lemma_connected_trans(es, y, x, mx);
    lemma_connected_trans(es, x, y, my);
}

/// The canonical label is its own canonical label: canonicalization is
/// idempotent.
pub proof fn lemma_canon_idempotent(es: Set<(u64, u64)>, dom: Set<u64>, x: u64, m: u64)
    requires
        is_canon_of(es, dom, x, m),
    ensures
        is_canon_of(es, dom, m, m),
{
    lemma_connected_refl(es, m);
    assert forall|y: u64| dom.contains(y) && connected(es, m, y) implies m <= y by {
        lemma_connected_trans(es, x, m, y);
    }
}

/// Every finite, nonempty set of 64-bit ids has a least member.
pub proof fn lemma_finite_set_min(s: Set<u64>) -> (m: u64)
    requires
        s.finite(),
        s.len() > 0,
    ensures
        s.contains(m),
        forall|y: u64| s.contains(y) ==> m <= y,
    decreases s.len(),
{
    let x = s.choose();
    assert(s.contains(x));
    let rest = s.remove(x);
    if rest.len() == 0 {
        assert forall|y: u64| s.contains(y) implies x <= y by {
            if y != x {
                assert(rest.contains(y));
                assert(rest.len() > 0) by {
                    lemma_len_subset(set![y], rest);
                    assert(set![y].len() == 1);
                }
            }
        }
        x
    } else {
        let m0 = lemma_finite_set_min(rest);
        let m = if m0 <= x {
            m0
        } else {
            x
        };
        assert forall|y: u64| s.contains(y) implies m <= y by {
            if y != x {
                assert(rest.contains(y));
            }
        }
        m
    }
}

/// Every live id has a canonical label once the domain is finite.
pub proof fn lemma_canon_exists(es: Set<(u64, u64)>, dom: Set<u64>, x: u64) -> (m: u64)
    requires
        dom.finite(),
        dom.contains(x),
    ensures
        is_canon_of(es, dom, x, m),
{
    let reachable = dom.intersect(Set::new(|y: u64| connected(es, x, y)));
    lemma_connected_refl(es, x);
    assert(reachable.contains(x));
    assert(reachable.finite()) by {
        lemma_len_subset(reachable, dom);
    }
    assert(reachable.len() > 0) by {
        lemma_len_subset(set![x], reachable);
        assert(set![x].len() == 1);
    }
    let m = lemma_finite_set_min(reachable);
    assert(dom.contains(m) && connected(es, x, m));
    assert forall|y: u64| dom.contains(y) && connected(es, x, y) implies m <= y by {
        assert(reachable.contains(y));
    }
    m
}

} // verus!
