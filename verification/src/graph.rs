use vstd::prelude::*;

use crate::TID;

verus! {

/// Whether `p` is a walk along `edges`: it is nonempty and each
/// consecutive pair of entries is an edge.
pub open spec fn is_path(edges: Set<(TID, TID)>, p: Seq<TID>) -> bool {
    p.len() >= 1 && forall|i: int|
        0 <= i < p.len() - 1 ==> #[trigger] edges.contains((p[i], p[i + 1]))
}

/// Whether some walk along `edges` leads from `a` to `b`.  Every vertex
/// reaches itself by the one-entry walk.
pub open spec fn reaches(edges: Set<(TID, TID)>, a: TID, b: TID) -> bool {
    exists|p: Seq<TID>| #[trigger] is_path(edges, p) && p.first() == a && p.last() == b
}

/// Whether the graph has no directed cycle: no edge closes a walk back to
/// its own source.
pub open spec fn acyclic(edges: Set<(TID, TID)>) -> bool {
    forall|e: (TID, TID)| #[trigger] edges.contains(e) ==> !reaches(edges, e.1, e.0)
}

/// Each consecutive pair of entries of a walk is an edge.
pub proof fn lemma_path_edge(edges: Set<(TID, TID)>, p: Seq<TID>, i: int)
    requires
        is_path(edges, p),
        0 <= i < p.len() - 1,
    ensures
        edges.contains((p[i], p[i + 1])),
{
}

/// Every vertex reaches itself.
pub proof fn lemma_reaches_refl(edges: Set<(TID, TID)>, a: TID)
    ensures
        reaches(edges, a, a),
{
    let p: Seq<TID> = seq![a];
    assert(is_path(edges, p));
    assert(p.first() == a && p.last() == a);
}

/// An edge is a walk of length one.
pub proof fn lemma_reaches_step(edges: Set<(TID, TID)>, a: TID, b: TID)
    requires
        edges.contains((a, b)),
    ensures
        reaches(edges, a, b),
{
    let p: Seq<TID> = seq![a, b];
    assert forall|i: int| 0 <= i < p.len() - 1 implies #[trigger] edges.contains(
        (p[i], p[i + 1]),
    ) by {
        assert(p[0] == a && p[1] == b);
    }
    assert(is_path(edges, p));
    assert(p.first() == a && p.last() == b);
}

/// Walks compose.
pub proof fn lemma_reaches_trans(edges: Set<(TID, TID)>, a: TID, b: TID, c: TID)
    requires
        reaches(edges, a, b),
        reaches(edges, b, c),
    ensures
        reaches(edges, a, c),
{
    let p1 = choose|p: Seq<TID>| #[trigger] is_path(edges, p) && p.first() == a && p.last() == b;
    let p2 = choose|p: Seq<TID>| #[trigger] is_path(edges, p) && p.first() == b && p.last() == c;
    let q = p1 + p2.drop_first();
    assert forall|i: int| 0 <= i < q.len() - 1 implies #[trigger] edges.contains(
        (q[i], q[i + 1]),
    ) by {
        if i < p1.len() - 1 {
            lemma_path_edge(edges, p1, i);
            assert(q[i] == p1[i]);
            assert(q[i + 1] == p1[i + 1]);
        } else if i == p1.len() - 1 {
            lemma_path_edge(edges, p2, 0);
            assert(q[i] == p1[i]);
            assert(p1[i] == p1.last());
            assert(q[i + 1] == p2.drop_first()[i + 1 - p1.len()]);
            assert(q[i + 1] == p2[0int + 1]);
            assert(p2[0] == b);
        } else {
            let j = i - p1.len() + 1;
            lemma_path_edge(edges, p2, j);
            assert(q[i] == p2.drop_first()[i - p1.len()]);
            assert(q[i] == p2[j]);
            assert(q[i + 1] == p2.drop_first()[i + 1 - p1.len()]);
            assert(q[i + 1] == p2[j + 1]);
        }
    }
    assert(is_path(edges, q));
    assert(q.first() == a);
    if p2.len() == 1 {
        assert(q.last() == p1[p1.len() - 1]);
        assert(q.last() == c);
    } else {
        assert(q.last() == p2.drop_first()[p2.len() - 2]);
        assert(q.last() == p2[p2.len() - 1]);
    }
}

/// A walk in a graph is a walk in any larger graph.
pub proof fn lemma_reaches_mono(small: Set<(TID, TID)>, big: Set<(TID, TID)>, a: TID, b: TID)
    requires
        small.subset_of(big),
        reaches(small, a, b),
    ensures
        reaches(big, a, b),
{
    let p = choose|p: Seq<TID>| #[trigger] is_path(small, p) && p.first() == a && p.last() == b;
    assert forall|i: int| 0 <= i < p.len() - 1 implies #[trigger] big.contains((p[i], p[i + 1])) by {
        lemma_path_edge(small, p, i);
    }
    assert(is_path(big, p));
}

/// Dropping edges cannot create a cycle.
pub proof fn lemma_acyclic_subset(big: Set<(TID, TID)>, small: Set<(TID, TID)>)
    requires
        acyclic(big),
        small.subset_of(big),
    ensures
        acyclic(small),
{
    assert forall|e: (TID, TID)| #[trigger] small.contains(e) implies !reaches(small, e.1, e.0) by {
        if reaches(small, e.1, e.0) {
            lemma_reaches_mono(small, big, e.1, e.0);
            assert(big.contains(e));
        }
    }
}

/// A set that holds the start of a walk and is closed under following
/// edges holds the walk's end.
pub proof fn lemma_path_in_closed(edges: Set<(TID, TID)>, s: Set<TID>, p: Seq<TID>)
    requires
        is_path(edges, p),
        s.contains(p.first()),
        forall|x: TID, y: TID| s.contains(x) && #[trigger] edges.contains((x, y)) ==> s.contains(y),
    ensures
        s.contains(p.last()),
    decreases p.len(),
{
    if p.len() > 1 {
        let q = p.drop_first();
        lemma_path_edge(edges, p, 0);
        assert(s.contains(p[1]));
        assert forall|i: int| 0 <= i < q.len() - 1 implies #[trigger] edges.contains(
            (q[i], q[i + 1]),
        ) by {
            lemma_path_edge(edges, p, i + 1);
            assert(q[i] == p[i + 1]);
            assert(q[i + 1] == p[i + 1 + 1]);
        }
        assert(is_path(edges, q));
        assert(q.first() == p[1]);
        lemma_path_in_closed(edges, s, q);
        assert(q.last() == p.last());
    }
}

/// A set that holds `a` and is closed under following edges holds
/// everything `a` reaches.
pub proof fn lemma_reached_in_closed(edges: Set<(TID, TID)>, s: Set<TID>, a: TID, b: TID)
    requires
        s.contains(a),
        forall|x: TID, y: TID| s.contains(x) && #[trigger] edges.contains((x, y)) ==> s.contains(y),
        reaches(edges, a, b),
    ensures
        s.contains(b),
{
    let p = choose|p: Seq<TID>| #[trigger] is_path(edges, p) && p.first() == a && p.last() == b;
    lemma_path_in_closed(edges, s, p);
}

/// A walk that may use one extra edge `a -> b` either avoids it, or
/// splits into a walk to `a` and a walk from `b` — provided `b` does not
/// already reach `a`.
proof fn lemma_new_path_decompose(edges: Set<(TID, TID)>, a: TID, b: TID, p: Seq<TID>)
    requires
        is_path(edges.insert((a, b)), p),
        !reaches(edges, b, a),
    ensures
        reaches(edges, p.first(), p.last()) || (reaches(edges, p.first(), a) && reaches(
            edges,
            b,
            p.last(),
        )),
    decreases p.len(),
{
    if p.len() == 1 {
        lemma_reaches_refl(edges, p.first());
    } else {
        let q = p.drop_first();
        assert forall|i: int| 0 <= i < q.len() - 1 implies #[trigger] edges.insert(
            (a, b),
        ).contains((q[i], q[i + 1])) by {
            lemma_path_edge(edges.insert((a, b)), p, i + 1);
            assert(q[i] == p[i + 1]);
            assert(q[i + 1] == p[i + 1 + 1]);
        }
        assert(is_path(edges.insert((a, b)), q));
        lemma_new_path_decompose(edges, a, b, q);
        let x = p[0];
        let y = p[1];
        lemma_path_edge(edges.insert((a, b)), p, 0);
        assert(edges.insert((a, b)).contains((x, y)));
        assert(q.first() == y && q.last() == p.last());
        if x == a && y == b {
            lemma_reaches_refl(edges, a);
            if reaches(edges, y, p.last()) {
            } else {
                assert(reaches(edges, b, a));
            }
        } else {
            assert(edges.contains((x, y)));
            lemma_reaches_step(edges, x, y);
            if reaches(edges, y, p.last()) {
                lemma_reaches_trans(edges, x, y, p.last());
            } else {
                lemma_reaches_trans(edges, x, y, a);
            }
        }
    }
}

/// Adding the edge `a -> b` keeps the graph acyclic as long as `b` does
/// not already reach `a`.
pub proof fn lemma_acyclic_insert(edges: Set<(TID, TID)>, a: TID, b: TID)
    requires
        acyclic(edges),
        !reaches(edges, b, a),
    ensures
        acyclic(edges.insert((a, b))),
{
    let e2 = edges.insert((a, b));
    assert forall|c: (TID, TID)| #[trigger] e2.contains(c) implies !reaches(e2, c.1, c.0) by {
        if reaches(e2, c.1, c.0) {
            let p = choose|p: Seq<TID>|
                #[trigger] is_path(e2, p) && p.first() == c.1 && p.last() == c.0;
            lemma_new_path_decompose(edges, a, b, p);
            if c == (a, b) {
                assert(false);
            } else {
                assert(edges.contains(c));
                if reaches(edges, c.1, c.0) {
                    assert(false);
                } else {
                    lemma_reaches_step(edges, c.0, c.1);
                    lemma_reaches_trans(edges, b, c.0, c.1);
                    lemma_reaches_trans(edges, b, c.1, a);
                    assert(false);
                }
            }
        }
    }
}

} // verus!
