//! How the strongly connected components of the subgraphs induced by the
//! nodes from a given node on relate to each other.
use vstd::prelude::*;
use crate::johnson_find_cycles::graph::{adj_wf, at_least, edges_within, has_edge, induced, is_path, subgraph_from};
use crate::johnson_find_cycles::tarjan::{lemma_reaches_edge, lemma_reaches_refl, lemma_reaches_step, lemma_reaches_trans, reaches, same_scc, scc_nontrivial, scc_set};

verus! {

/// `s` is the least node from `node` on whose component, in the subgraph
/// induced by the nodes from `s` on, holds another node.
pub open spec fn first_nontrivial(g: Seq<Seq<usize>>, node: usize, s: usize) -> bool {
    &&& node <= s < g.len()
    &&& scc_nontrivial(subgraph_from(g, s), s)
    &&& forall|t: usize| node <= t < s ==> !#[trigger] scc_nontrivial(subgraph_from(g, t), t)
}

/// No node from `node` on has a component holding another node in the
/// subgraph induced by the nodes from it on.
pub open spec fn none_nontrivial(g: Seq<Seq<usize>>, node: usize) -> bool {
    forall|t: usize| node <= t < g.len() ==> !#[trigger] scc_nontrivial(subgraph_from(g, t), t)
}

/// The edges of the subgraph from `s` are the edges between nodes from `s` on.
pub proof fn lemma_sub_edge(g: Seq<Seq<usize>>, s: usize, x: usize, z: usize)
    ensures
        has_edge(subgraph_from(g, s), x, z) <==> (x < g.len() && x >= s && z >= s && g[x as int].contains(z)),
{
    if x < g.len() && x >= s {
        let row = g[x as int];
        assert(subgraph_from(g, s)[x as int] == row.filter(at_least(s)));
        if row.filter(at_least(s)).contains(z) {
            row.lemma_filter_contains_rev(at_least(s), z);
        }
        if row.contains(z) && z >= s {
            let i = choose|i: int| 0 <= i < row.len() && row[i] == z;
            row.lemma_filter_contains(at_least(s), i);
        }
    }
}

/// A walk in the subgraph from `t` is a walk in the subgraph from any `s <= t`.
pub proof fn lemma_reaches_sub_mono(g: Seq<Seq<usize>>, s: usize, t: usize, u: usize, v: usize)
    requires
        s <= t,
        reaches(subgraph_from(g, t), u, v),
    ensures
        reaches(subgraph_from(g, s), u, v),
{
    let p = choose|p: Seq<usize>| #[trigger] is_path(subgraph_from(g, t), p) && p[0] == u && p.last() == v;
    assert forall|i: int| 0 <= i < p.len() - 1 implies #[trigger] has_edge(subgraph_from(g, s), p[i], p[i + 1]) by {
        assert(has_edge(subgraph_from(g, t), p[i], p[i + 1]));
        lemma_sub_edge(g, t, p[i], p[i + 1]);
        lemma_sub_edge(g, s, p[i], p[i + 1]);
    }
    assert(is_path(subgraph_from(g, s), p));
}

/// A node with another node in its component in the subgraph from `t` has
/// one in the subgraph from any `s <= t`.
pub proof fn lemma_nontrivial_mono(g: Seq<Seq<usize>>, s: usize, t: usize, x: usize)
    requires
        s <= t,
        scc_nontrivial(subgraph_from(g, t), x),
    ensures
        scc_nontrivial(subgraph_from(g, s), x),
{
    let y = choose|y: usize| y != x && #[trigger] same_scc(subgraph_from(g, t), x, y);
    lemma_reaches_sub_mono(g, s, t, x, y);
    lemma_reaches_sub_mono(g, s, t, y, x);
    assert(same_scc(subgraph_from(g, s), x, y));
}

/// A node reached from another one in the subgraph from `s` is at least `s`.
pub proof fn lemma_reached_at_least(g: Seq<Seq<usize>>, s: usize, u: usize, v: usize)
    requires
        reaches(subgraph_from(g, s), u, v),
        u != v,
    ensures
        v >= s,
{
    let p = choose|p: Seq<usize>| #[trigger] is_path(subgraph_from(g, s), p) && p[0] == u && p.last() == v;
    let i = p.len() - 2;
    assert(has_edge(subgraph_from(g, s), p[i], p[i + 1]));
    lemma_sub_edge(g, s, p[i], p[i + 1]);
}

/// A walk in the subgraph from `s` that starts above `s` either stays in the
/// subgraph from `s + 1` or passes through `s`.
proof fn lemma_walk_shift(g: Seq<Seq<usize>>, s: usize, p: Seq<usize>, k: int)
    requires
        s < g.len() <= usize::MAX,
        is_path(subgraph_from(g, s), p),
        p[0] > s,
        0 <= k < p.len(),
    ensures
        reaches(subgraph_from(g, (s + 1) as usize), p[0], p[k])
            || (reaches(subgraph_from(g, s), p[0], s) && reaches(subgraph_from(g, s), s, p[k])),
    decreases k,
{
    let s1 = (s + 1) as usize;
    if k == 0 {
        lemma_reaches_refl(subgraph_from(g, s1), p[0]);
    } else {
        lemma_walk_shift(g, s, p, k - 1);
        let a = p[k - 1];
        let b = p[k];
        assert(has_edge(subgraph_from(g, s), p[k - 1], p[(k - 1) + 1]));
        lemma_sub_edge(g, s, a, b);
        if reaches(subgraph_from(g, s), p[0], s) && reaches(subgraph_from(g, s), s, a) {
            lemma_reaches_step(subgraph_from(g, s), s, a, b);
        } else {
            lemma_reaches_sub_mono(g, s, s1, p[0], a);
            if b == s {
                lemma_reaches_step(subgraph_from(g, s), p[0], a, b);
                lemma_reaches_refl(subgraph_from(g, s), s);
            } else if a == s {
                lemma_reaches_edge(subgraph_from(g, s), a, b);
            } else {
                lemma_sub_edge(g, s1, a, b);
                lemma_reaches_step(subgraph_from(g, s1), p[0], a, b);
            }
        }
    }
}

/// When the component of `s` in the subgraph from `s` is `s` alone, two nodes
/// above `s` share a component in the subgraph from `s + 1` exactly when they
/// share one in the subgraph from `s`.
pub proof fn lemma_scc_shift(g: Seq<Seq<usize>>, s: usize, x: usize, y: usize)
    requires
        s < g.len() <= usize::MAX,
        !scc_nontrivial(subgraph_from(g, s), s),
        x > s,
        y > s,
    ensures
        same_scc(subgraph_from(g, (s + 1) as usize), x, y) <==> same_scc(subgraph_from(g, s), x, y),
{
    let s1 = (s + 1) as usize;
    let h = subgraph_from(g, s);
    if same_scc(subgraph_from(g, s1), x, y) {
        lemma_reaches_sub_mono(g, s, s1, x, y);
        lemma_reaches_sub_mono(g, s, s1, y, x);
    }
    if same_scc(h, x, y) {
        let p = choose|p: Seq<usize>| #[trigger] is_path(h, p) && p[0] == x && p.last() == y;
        let q = choose|q: Seq<usize>| #[trigger] is_path(h, q) && q[0] == y && q.last() == x;
        lemma_walk_shift(g, s, p, p.len() - 1);
        lemma_walk_shift(g, s, q, q.len() - 1);
        if !reaches(subgraph_from(g, s1), x, y) {
            lemma_reaches_trans(h, s, y, x);
            assert(same_scc(h, s, x));
        }
        if !reaches(subgraph_from(g, s1), y, x) {
            lemma_reaches_trans(h, s, x, y);
            assert(same_scc(h, s, y));
        }
    }
}

/// A node whose component holds another node has a successor in its component.
pub proof fn lemma_nontrivial_succ(g: Seq<Seq<usize>>, x: usize)
    requires
        scc_nontrivial(g, x),
    ensures
        exists|z: usize| has_edge(g, x, z) && #[trigger] same_scc(g, x, z),
{
    let y = choose|y: usize| y != x && #[trigger] same_scc(g, x, y);
    let p = choose|p: Seq<usize>| #[trigger] is_path(g, p) && p[0] == x && p.last() == y;
    let z = p[1];
    assert(has_edge(g, p[0], p[0int + 1]));
    let q = p.drop_first();
    assert(is_path(g, q)) by {
        assert forall|i: int| 0 <= i < q.len() - 1 implies #[trigger] has_edge(g, q[i], q[i + 1]) by {
            assert(has_edge(g, p[i + 1], p[(i + 1) + 1]));
        }
    }
    assert(reaches(g, z, y)) by { assert(q[0] == z && q.last() == y); }
    lemma_reaches_trans(g, z, y, x);
    lemma_reaches_edge(g, x, z);
    assert(same_scc(g, x, z));
}

/// The component of `s` in the subgraph from `s`, when it holds another node,
/// gives `s` a successor in the induced graph and leaves every lower node
/// without one.
pub proof fn lemma_induced_lowest(g: Seq<Seq<usize>>, s: usize)
    requires
        adj_wf(g),
        s < g.len(),
        scc_nontrivial(subgraph_from(g, s), s),
    ensures
        induced(g, scc_set(subgraph_from(g, s), s))[s as int].len() > 0,
        forall|t: int| 0 <= t < s ==> (#[trigger] induced(g, scc_set(subgraph_from(g, s), s))[t]).len() == 0,
        forall|y: usize| #[trigger] scc_set(subgraph_from(g, s), s).contains(y) ==> s <= y < g.len(),
{
    let h = subgraph_from(g, s);
    let k = scc_set(h, s);
    lemma_nontrivial_succ(h, s);
    let z = choose|z: usize| has_edge(h, s, z) && #[trigger] same_scc(h, s, z);
    lemma_sub_edge(g, s, s, z);
    assert(k.contains(z));
    let row = g[s as int];
    let i = choose|i: int| 0 <= i < row.len() && row[i] == z;
    row.lemma_filter_contains(|w: usize| k.contains(w), i);
    lemma_reaches_refl(h, s);
    assert(k.contains(s));
    assert forall|y: usize| #[trigger] k.contains(y) implies s <= y < g.len() by {
        if y != s {
            lemma_reached_at_least(g, s, s, y);
            let p = choose|p: Seq<usize>| #[trigger] is_path(h, p) && p[0] == s && p.last() == y;
            let j = p.len() - 2;
            assert(has_edge(h, p[j], p[j + 1]));
            assert(adj_wf(h)) by {
                assert forall|v: int, q: int| 0 <= v < h.len() && 0 <= q < h[v].len() implies (#[trigger] h[v][q]) < h.len() by {
                    g[v].lemma_filter_pred(at_least(s), q);
                    let row2 = g[v];
                    assert(row2.filter(at_least(s)).contains(h[v][q]));
                    row2.lemma_filter_contains_rev(at_least(s), h[v][q]);
                }
            }
            let j2 = choose|j2: int| 0 <= j2 < h[p[j] as int].len() && h[p[j] as int][j2] == y;
        }
    }
    assert forall|t: int| 0 <= t < s implies (#[trigger] induced(g, k)[t]).len() == 0 by {
        assert(!k.contains(t as usize));
    }
}

} // verus!

verus! {

/// When the component of `node` in the subgraph from `node` is `node` alone,
/// searching from `node` and from `node + 1` has the same answer.
pub proof fn lemma_first_shift(g: Seq<Seq<usize>>, node: usize)
    requires
        node < g.len() <= usize::MAX,
        !scc_nontrivial(subgraph_from(g, node), node),
    ensures
        forall|s: usize| first_nontrivial(g, (node + 1) as usize, s) <==> #[trigger] first_nontrivial(g, node, s),
        none_nontrivial(g, (node + 1) as usize) <==> none_nontrivial(g, node),
{
    let n1 = (node + 1) as usize;
    assert forall|s: usize| first_nontrivial(g, n1, s) <==> #[trigger] first_nontrivial(g, node, s) by {
        if first_nontrivial(g, n1, s) {
            assert forall|t: usize| node <= t < s implies !#[trigger] scc_nontrivial(subgraph_from(g, t), t) by {
                if t != node {
                    assert(n1 <= t < s);
                }
            }
        }
        if first_nontrivial(g, node, s) {
            assert(s != node);
            assert forall|t: usize| n1 <= t < s implies !#[trigger] scc_nontrivial(subgraph_from(g, t), t) by {
                assert(node <= t < s);
            }
        }
    }
    if none_nontrivial(g, n1) {
        assert forall|t: usize| node <= t < g.len() implies !#[trigger] scc_nontrivial(subgraph_from(g, t), t) by {
            if t != node {
                assert(n1 <= t < g.len());
            }
        }
    }
}

/// The graph induced by the component of `s` in the subgraph from `s`, when it
/// holds another node: its edges are edges of `g` between its nodes, `s` is
/// the first node with a successor in it.
pub proof fn lemma_induced_result(g: Seq<Seq<usize>>, s: usize)
    requires
        adj_wf(g),
        s < g.len(),
        scc_nontrivial(subgraph_from(g, s), s),
    ensures
        edges_within(induced(g, scc_set(subgraph_from(g, s), s)), g),
        adj_wf(induced(g, scc_set(subgraph_from(g, s), s))),
        induced(g, scc_set(subgraph_from(g, s), s))[s as int].len() > 0,
        forall|t: int| 0 <= t < s ==> (#[trigger] induced(g, scc_set(subgraph_from(g, s), s))[t]).len() == 0,
{
    let k = scc_set(subgraph_from(g, s), s);
    let h = induced(g, k);
    lemma_induced_lowest(g, s);
    assert forall|v: int, q: int| 0 <= v < h.len() && 0 <= q < h[v].len() implies g[v].contains(#[trigger] h[v][q]) && h[v][q] < h.len() by {
        if k.contains(v as usize) {
            let f = |w: usize| k.contains(w);
            assert(h[v] == g[v].filter(f));
            assert(g[v].filter(f).contains(h[v][q]));
            g[v].lemma_filter_contains_rev(f, h[v][q]);
            let j = choose|j: int| 0 <= j < g[v].len() && g[v][j] == h[v][q];
        }
    }
}

/// A node whose component in the subgraph from `s` holds another node
/// leads to a node `t` from `s` on whose component in the subgraph from `t`
/// holds another node.
pub proof fn lemma_nontrivial_somewhere(g: Seq<Seq<usize>>, s: usize, x: usize)
    requires
        s <= x < g.len() <= usize::MAX,
        scc_nontrivial(subgraph_from(g, s), x),
    ensures
        !none_nontrivial(g, s),
    decreases x - s,
{
    if !scc_nontrivial(subgraph_from(g, s), s) {
        let y = choose|y: usize| y != x && #[trigger] same_scc(subgraph_from(g, s), x, y);
        lemma_reached_at_least(g, s, x, y);
        if x == s {
            assert(false);
        }
        if y == s {
            assert(same_scc(subgraph_from(g, s), s, x));
            assert(false);
        }
        lemma_scc_shift(g, s, x, y);
        let s1 = (s + 1) as usize;
        assert(same_scc(subgraph_from(g, s1), x, y));
        lemma_nontrivial_somewhere(g, s1, x);
        let t = choose|t: usize| s1 <= t < g.len() && #[trigger] scc_nontrivial(subgraph_from(g, t), t);
        assert(s <= t < g.len());
    } else {
        assert(s < g.len());
    }
}

} // verus!
