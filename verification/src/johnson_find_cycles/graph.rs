//! Mathematical model of directed graphs given by adjacency lists.
use vstd::prelude::*;

verus! {

/// The adjacency lists of `a`, each as a sequence.
pub open spec fn adj_view(a: Seq<Vec<usize>>) -> Seq<Seq<usize>> {
    Seq::new(a.len(), |i: int| a[i]@)
}

/// A graph over the nodes `0..g.len()`: every successor names a node of the graph.
pub open spec fn adj_wf(g: Seq<Seq<usize>>) -> bool {
    forall|v: int, k: int| 0 <= v < g.len() && 0 <= k < g[v].len() ==> (#[trigger] g[v][k]) < g.len()
}

/// There is an edge `u -> v`.
pub open spec fn has_edge(g: Seq<Seq<usize>>, u: usize, v: usize) -> bool {
    &&& u < g.len()
    &&& g[u as int].contains(v)
}

/// `p` is a non-empty walk along the edges of `g`.
pub open spec fn is_path(g: Seq<Seq<usize>>, p: Seq<usize>) -> bool {
    &&& p.len() > 0
    &&& forall|i: int| 0 <= i < p.len() - 1 ==> #[trigger] has_edge(g, p[i], p[i + 1])
}

/// `c` lists the nodes of an elementary cycle of `g`: a walk without repeated
/// nodes whose last node has an edge back to the first.
pub open spec fn is_elementary_cycle(g: Seq<Seq<usize>>, c: Seq<usize>) -> bool {
    &&& is_path(g, c)
    &&& has_edge(g, c.last(), c[0])
    &&& c.no_duplicates()
}

/// The subgraph induced by the nodes `node..`: lower nodes lose all their edges,
/// and edges into lower nodes are dropped.
pub open spec fn subgraph_from(g: Seq<Seq<usize>>, node: usize) -> Seq<Seq<usize>> {
    Seq::new(
        g.len(),
        |i: int| if i >= node { g[i].filter(at_least(node)) } else { Seq::<usize>::empty() },
    )
}

/// The subgraph induced by the set of nodes `s`.
pub open spec fn induced(g: Seq<Seq<usize>>, s: Set<usize>) -> Seq<Seq<usize>> {
    Seq::new(
        g.len(),
        |i: int| if s.contains(i as usize) { g[i].filter(|w: usize| s.contains(w)) } else { Seq::<usize>::empty() },
    )
}

} // verus!

verus! {

/// The number of `true` entries.
pub open spec fn count_true(s: Seq<bool>) -> nat
    decreases s.len(),
{
    if s.len() == 0 {
        0
    } else {
        count_true(s.drop_last()) + if s.last() { 1nat } else { 0nat }
    }
}

/// Counting `true` entries is bounded by the length, strictly when one entry is false.
pub proof fn lemma_count_true_bound(s: Seq<bool>, i: int)
    ensures
        count_true(s) <= s.len(),
        0 <= i < s.len() && !s[i] ==> count_true(s) < s.len(),
    decreases s.len(),
{
    if s.len() > 0 {
        lemma_count_true_bound(s.drop_last(), i);
    }
}

/// Setting one false entry to true adds one to the count.
pub proof fn lemma_count_true_set(s: Seq<bool>, i: int)
    requires
        0 <= i < s.len(),
        !s[i],
    ensures
        count_true(s.update(i, true)) == count_true(s) + 1,
    decreases s.len(),
{
    let t = s.update(i, true);
    if i == s.len() - 1 {
        assert(t.drop_last() =~= s.drop_last());
    } else {
        assert(t.drop_last() =~= s.drop_last().update(i, true));
        lemma_count_true_set(s.drop_last(), i);
    }
}

/// A sequence of only false entries counts zero.
pub proof fn lemma_count_true_none(s: Seq<bool>)
    requires
        forall|i: int| 0 <= i < s.len() ==> !s[i],
    ensures
        count_true(s) == 0,
    decreases s.len(),
{
    if s.len() > 0 {
        lemma_count_true_none(s.drop_last());
    }
}

} // verus!

verus! {

/// Keeps the node ids that are at least `node`.
pub open spec fn at_least(node: usize) -> spec_fn(usize) -> bool {
    |w: usize| w >= node
}

/// Keeps the node ids that occur in `nodes`.
pub open spec fn member_of(nodes: Seq<usize>) -> spec_fn(usize) -> bool {
    |w: usize| nodes.contains(w)
}

/// Filtering one more element of a prefix.
pub proof fn lemma_filter_take_step(s: Seq<usize>, j: int, f: spec_fn(usize) -> bool)
    requires
        0 <= j < s.len(),
    ensures
        s.take(j + 1).filter(f) == if f(s[j]) { s.take(j).filter(f).push(s[j]) } else { s.take(j).filter(f) },
{
    reveal(Seq::filter);
    assert(s.take(j + 1).drop_last() =~= s.take(j));
}

} // verus!

verus! {

/// Every edge of `h` is an edge of `g`, and both have the same nodes.
pub open spec fn edges_within(h: Seq<Seq<usize>>, g: Seq<Seq<usize>>) -> bool {
    &&& h.len() == g.len()
    &&& forall|v: int, k: int| 0 <= v < h.len() && 0 <= k < h[v].len() ==> g[v].contains(#[trigger] h[v][k])
}

/// Filtering keeps only elements of the filtered sequence.
pub proof fn lemma_filter_within(s: Seq<usize>, f: spec_fn(usize) -> bool)
    ensures
        forall|k: int| 0 <= k < s.filter(f).len() ==> s.contains(#[trigger] s.filter(f)[k]) && f(s.filter(f)[k]),
{
    assert forall|k: int| 0 <= k < s.filter(f).len() implies s.contains(#[trigger] s.filter(f)[k]) && f(s.filter(f)[k]) by {
        s.lemma_filter_contains_rev(f, s.filter(f)[k]);
    }
}

/// The subgraph from a node keeps a subset of the edges.
pub proof fn lemma_subgraph_from_within(g: Seq<Seq<usize>>, node: usize)
    requires
        adj_wf(g),
    ensures
        edges_within(subgraph_from(g, node), g),
        adj_wf(subgraph_from(g, node)),
        forall|v: int, k: int| 0 <= v < g.len() && 0 <= k < subgraph_from(g, node)[v].len()
            ==> #[trigger] subgraph_from(g, node)[v][k] >= node,
{
    let h = subgraph_from(g, node);
    assert forall|v: int, k: int| 0 <= v < h.len() && 0 <= k < h[v].len() implies g[v].contains(#[trigger] h[v][k]) && h[v][k] >= node by {
        lemma_filter_within(g[v], at_least(node));
    }
    assert forall|v: int, k: int| 0 <= v < h.len() && 0 <= k < h[v].len() implies (#[trigger] h[v][k]) < h.len() by {
        lemma_filter_within(g[v], at_least(node));
        let j = choose|j: int| 0 <= j < g[v].len() && g[v][j] == h[v][k];
    }
}

} // verus!

verus! {

/// Fewer `true` entries, pointwise, count no more; strictly fewer where one entry differs.
pub proof fn lemma_count_true_mono(s: Seq<bool>, t: Seq<bool>, i: int)
    requires
        s.len() == t.len(),
        forall|k: int| 0 <= k < s.len() && #[trigger] s[k] ==> t[k],
    ensures
        count_true(s) <= count_true(t),
        0 <= i < s.len() && !s[i] && t[i] ==> count_true(s) < count_true(t),
    decreases s.len(),
{
    if s.len() > 0 {
        lemma_count_true_mono(s.drop_last(), t.drop_last(), i);
        assert(s.last() ==> t.last());
    }
}

/// The node ids below `n`.
pub open spec fn ids_below(n: nat) -> Set<usize> {
    Set::new(|x: usize| x < n)
}

/// There are `n` node ids below `n`, for `n` within `usize`.
pub proof fn lemma_ids_below(n: nat)
    requires
        n <= usize::MAX + 1,
    ensures
        ids_below(n).finite(),
        ids_below(n).len() == n,
    decreases n,
{
    if n == 0 {
        assert(ids_below(n) =~= Set::empty());
    } else {
        lemma_ids_below((n - 1) as nat);
        assert(ids_below((n - 1) as nat).insert((n - 1) as usize) =~= ids_below(n));
    }
}

/// A sequence of distinct node ids below `n` has at most `n` elements.
pub proof fn lemma_distinct_ids_bound(s: Seq<usize>, n: nat)
    requires
        s.no_duplicates(),
        forall|k: int| 0 <= k < s.len() ==> #[trigger] s[k] < n,
        n <= usize::MAX + 1,
    ensures
        s.len() <= n,
{
    lemma_ids_below(n);
    s.unique_seq_to_set();
    assert(s.to_set().subset_of(ids_below(n))) by {
        assert forall|x: usize| s.to_set().contains(x) implies ids_below(n).contains(x) by {
            let k = choose|k: int| 0 <= k < s.len() && s[k] == x;
        }
    }
    vstd::set_lib::lemma_len_subset(s.to_set(), ids_below(n));
}

/// A walk in a subgraph is a walk in the graph; so is an elementary cycle.
pub proof fn lemma_cycle_within(h: Seq<Seq<usize>>, g: Seq<Seq<usize>>, c: Seq<usize>)
    requires
        edges_within(h, g),
        is_elementary_cycle(h, c),
    ensures
        is_elementary_cycle(g, c),
{
    assert forall|u: usize, v: usize| #[trigger] has_edge(h, u, v) implies has_edge(g, u, v) by {
        let k = choose|k: int| 0 <= k < h[u as int].len() && h[u as int][k] == v;
    }
    assert forall|i: int| 0 <= i < c.len() - 1 implies #[trigger] has_edge(g, c[i], c[i + 1]) by {
        assert(has_edge(h, c[i], c[i + 1]));
    }
    assert(has_edge(h, c.last(), c[0]));
}

} // verus!

verus! {

/// Filtering by a weaker condition first changes nothing.
pub proof fn lemma_filter_filter(s: Seq<usize>, f: spec_fn(usize) -> bool, h: spec_fn(usize) -> bool)
    requires
        forall|w: usize| #[trigger] h(w) ==> f(w),
    ensures
        s.filter(f).filter(h) == s.filter(h),
    decreases s.len(),
{
    reveal(Seq::filter);
    if s.len() > 0 {
        lemma_filter_filter(s.drop_last(), f, h);
        let a = s.drop_last().filter(f);
        if f(s.last()) {
            assert(a.push(s.last()).drop_last() =~= a);
            assert(a.push(s.last()).last() == s.last());
        }
    }
}

/// The nodes of an elementary cycle are nodes of the graph.
pub proof fn lemma_cycle_nodes_in_graph(g: Seq<Seq<usize>>, c: Seq<usize>)
    requires
        is_elementary_cycle(g, c),
    ensures
        forall|k: int| 0 <= k < c.len() ==> #[trigger] c[k] < g.len(),
{
    assert forall|k: int| 0 <= k < c.len() implies #[trigger] c[k] < g.len() by {
        if k < c.len() - 1 {
            assert(has_edge(g, c[k], c[k + 1]));
        } else {
            assert(has_edge(g, c.last(), c[0]));
        }
    }
}

} // verus!
