//! Reachability in a graph given as successor sets, used by the breadth-first
//! searches over parent and child links.

use vstd::prelude::*;

verus! {

/// `b` is a successor of `a`.
pub open spec fn edge<A>(g: Map<A, Set<A>>, a: A, b: A) -> bool {
    g.contains_key(a) && g[a].contains(b)
}

/// Step `i` of `p` follows an edge.
pub open spec fn step_ok<A>(g: Map<A, Set<A>>, p: Seq<A>, i: int) -> bool {
    edge(g, p[i], p[i + 1])
}

/// `p` is a non-empty walk along edges.
pub open spec fn is_walk<A>(g: Map<A, Set<A>>, p: Seq<A>) -> bool {
    p.len() >= 1 && forall|i: int| 0 <= i < p.len() - 1 ==> #[trigger] step_ok(g, p, i)
}

/// `p` is a walk from `a` to `b`.
pub open spec fn walk_from_to<A>(g: Map<A, Set<A>>, p: Seq<A>, a: A, b: A) -> bool {
    is_walk(g, p) && p[0] == a && p[p.len() - 1] == b
}

/// `b` can be reached from `a` (in zero or more steps).
pub open spec fn reachable<A>(g: Map<A, Set<A>>, a: A, b: A) -> bool {
    exists|p: Seq<A>| #[trigger] walk_from_to(g, p, a, b)
}

/// Everything reachable from `a` in one or more steps, other than `a` itself.
pub open spec fn strict_descendants<A>(g: Map<A, Set<A>>, a: A) -> Set<A> {
    Set::new(|x: A| x != a && reachable(g, a, x))
}

/// Every successor of a member of `s` is in `s`.
pub open spec fn closed_under<A>(g: Map<A, Set<A>>, s: Set<A>) -> bool {
    forall|y: A, z: A| s.contains(y) && #[trigger] edge(g, y, z) ==> s.contains(z)
}

/// Every target of an edge.
pub open spec fn edge_targets<A>(g: Map<A, Set<A>>) -> Set<A> {
    Set::new(|z: A| exists|y: A| #[trigger] edge(g, y, z))
}

pub proof fn lemma_reach_zero<A>(g: Map<A, Set<A>>, a: A)
    ensures
        reachable(g, a, a),
{
    assert(walk_from_to(g, seq![a], a, a));
}

pub proof fn lemma_reach_step<A>(g: Map<A, Set<A>>, a: A, y: A, b: A)
    requires
        reachable(g, a, y),
        edge(g, y, b),
    ensures
        reachable(g, a, b),
{
    let p = choose|p: Seq<A>| #[trigger] walk_from_to(g, p, a, y);
    let q = p.push(b);
    assert forall|i: int| 0 <= i < q.len() - 1 implies #[trigger] step_ok(g, q, i) by {
        if i < p.len() - 1 {
            assert(step_ok(g, p, i));
        }
    }
    assert(walk_from_to(g, q, a, b));
}

/// A set that holds `a` and is closed under the edges holds all that `a` reaches.
pub proof fn lemma_closed_holds_reachable<A>(g: Map<A, Set<A>>, s: Set<A>, a: A, b: A)
    requires
        s.contains(a),
        closed_under(g, s),
        reachable(g, a, b),
    ensures
        s.contains(b),
{
    let p = choose|p: Seq<A>| #[trigger] walk_from_to(g, p, a, b);
    lemma_walk_stays(g, s, p, p.len() - 1);
}

proof fn lemma_walk_stays<A>(g: Map<A, Set<A>>, s: Set<A>, p: Seq<A>, k: int)
    requires
        is_walk(g, p),
        s.contains(p[0]),
        closed_under(g, s),
        0 <= k < p.len(),
    ensures
        s.contains(p[k]),
    decreases k,
{
    if k > 0 {
        lemma_walk_stays(g, s, p, k - 1);
        assert(step_ok(g, p, k - 1));
    }
}

/// What `a` reaches, `a` included, is closed under the edges.
pub proof fn lemma_descendants_closed<A>(g: Map<A, Set<A>>, a: A, t: A, c: A)
    requires
        t == a || strict_descendants(g, a).contains(t),
        edge(g, t, c),
    ensures
        c == a || strict_descendants(g, a).contains(c),
{
    if t == a {
        lemma_reach_zero(g, a);
    }
    lemma_reach_step(g, a, t, c);
}

/// A vertex without successors has no strict descendants.
pub proof fn lemma_no_successors<A>(g: Map<A, Set<A>>, a: A)
    requires
        forall|b: A| !#[trigger] edge(g, a, b),
    ensures
        strict_descendants(g, a) == Set::<A>::empty(),
{
    assert forall|x: A| !strict_descendants(g, a).contains(x) by {
        if strict_descendants(g, a).contains(x) {
            let p = choose|p: Seq<A>| #[trigger] walk_from_to(g, p, a, x);
            assert(p.len() >= 2);
            assert(step_ok(g, p, 0));
        }
    }
    assert(strict_descendants(g, a) =~= Set::<A>::empty());
}

/// A finite graph with finite successor sets has finitely many edge targets.
pub proof fn lemma_edge_targets_finite<A>(g: Map<A, Set<A>>)
    requires
        g.dom().finite(),
        forall|y: A| #[trigger] g.contains_key(y) ==> g[y].finite(),
    ensures
        edge_targets(g).finite(),
    decreases g.dom().len(),
{
    if g.dom().len() == 0 {
        assert(edge_targets(g) =~= Set::<A>::empty()) by {
            assert forall|z: A| !edge_targets(g).contains(z) by {
                if edge_targets(g).contains(z) {
                    let y = choose|y: A| #[trigger] edge(g, y, z);
                    assert(g.dom().contains(y));
                }
            }
        }
    } else {
        let y0 = g.dom().choose();
        let g2 = g.remove(y0);
        lemma_edge_targets_finite(g2);
        assert(edge_targets(g) =~= edge_targets(g2).union(g[y0])) by {
            assert forall|z: A| edge_targets(g).contains(z) implies edge_targets(g2).union(g[y0]).contains(z) by {
                let y = choose|y: A| #[trigger] edge(g, y, z);
                if y != y0 {
                    assert(edge(g2, y, z));
                }
            }
            assert forall|z: A| edge_targets(g2).union(g[y0]).contains(z) implies edge_targets(g).contains(z) by {
                if g[y0].contains(z) {
                    assert(edge(g, y0, z));
                } else {
                    let y = choose|y: A| #[trigger] edge(g2, y, z);
                    assert(edge(g, y, z));
                }
            }
        }
    }
}

} // verus!
