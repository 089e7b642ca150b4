//! Reachability, strongly connected components, and the invariant of
//! Tarjan's depth-first search that makes the components it pops exact.
use vstd::prelude::*;
use crate::johnson_find_cycles::graph::{adj_wf, has_edge, is_path};

verus! {

/// There is a walk from `u` to `v`.
pub open spec fn reaches(g: Seq<Seq<usize>>, u: usize, v: usize) -> bool {
    exists|p: Seq<usize>| #[trigger] is_path(g, p) && p[0] == u && p.last() == v
}

/// `u` and `v` reach each other.
pub open spec fn same_scc(g: Seq<Seq<usize>>, u: usize, v: usize) -> bool {
    reaches(g, u, v) && reaches(g, v, u)
}

/// The strongly connected component of `u`.
pub open spec fn scc_set(g: Seq<Seq<usize>>, u: usize) -> Set<usize> {
    Set::new(|y: usize| same_scc(g, u, y))
}

/// The component of `u` holds another node.
pub open spec fn scc_nontrivial(g: Seq<Seq<usize>>, u: usize) -> bool {
    exists|y: usize| y != u && #[trigger] same_scc(g, u, y)
}

/// Every node reaches itself.
pub proof fn lemma_reaches_refl(g: Seq<Seq<usize>>, u: usize)
    ensures
        reaches(g, u, u),
{
    let p = seq![u];
    assert(is_path(g, p));
}

/// An edge is a walk.
pub proof fn lemma_reaches_edge(g: Seq<Seq<usize>>, u: usize, v: usize)
    requires
        has_edge(g, u, v),
    ensures
        reaches(g, u, v),
{
    let p = seq![u, v];
    assert(is_path(g, p)) by {
        assert(has_edge(g, p[0], p[1]));
    }
}

/// Walks compose.
pub proof fn lemma_reaches_trans(g: Seq<Seq<usize>>, u: usize, v: usize, w: usize)
    requires
        reaches(g, u, v),
        reaches(g, v, w),
    ensures
        reaches(g, u, w),
{
    let p1 = choose|p: Seq<usize>| #[trigger] is_path(g, p) && p[0] == u && p.last() == v;
    let p2 = choose|p: Seq<usize>| #[trigger] is_path(g, p) && p[0] == v && p.last() == w;
    let p = p1 + p2.drop_first();
    assert(is_path(g, p)) by {
        assert forall|i: int| 0 <= i < p.len() - 1 implies #[trigger] has_edge(g, p[i], p[i + 1]) by {
            if i < p1.len() - 1 {
                assert(p[i] == p1[i] && p[i + 1] == p1[i + 1]);
                assert(has_edge(g, p1[i], p1[i + 1]));
            } else {
                let j = i - (p1.len() - 1);
                assert(p[i] == p2[j]);
                assert(p[i + 1] == p2[j + 1]);
                assert(has_edge(g, p2[j], p2[j + 1]));
            }
        }
    }
    if p2.len() == 1 {
        assert(p.last() == p1.last());
    } else {
        assert(p.last() == p2.last());
    }
}

/// A walk extends by an edge.
pub proof fn lemma_reaches_step(g: Seq<Seq<usize>>, u: usize, v: usize, w: usize)
    requires
        reaches(g, u, v),
        has_edge(g, v, w),
    ensures
        reaches(g, u, w),
{
    lemma_reaches_edge(g, v, w);
    lemma_reaches_trans(g, u, v, w);
}

/// A set closed under the edges of the graph holds everything its members reach.
pub proof fn lemma_closed_reach(g: Seq<Seq<usize>>, a: spec_fn(usize) -> bool, u: usize, v: usize)
    requires
        forall|x: usize, z: usize| a(x) && #[trigger] has_edge(g, x, z) ==> a(z),
        a(u),
        reaches(g, u, v),
    ensures
        a(v),
{
    let p = choose|p: Seq<usize>| #[trigger] is_path(g, p) && p[0] == u && p.last() == v;
    assert forall|i: int| 0 <= i < p.len() implies a(#[trigger] p[i]) by {
        lemma_closed_path_prefix(g, a, p, i);
    }
}

/// Each node of a walk from a member of a closed set is a member.
proof fn lemma_closed_path_prefix(g: Seq<Seq<usize>>, a: spec_fn(usize) -> bool, p: Seq<usize>, i: int)
    requires
        forall|x: usize, z: usize| a(x) && #[trigger] has_edge(g, x, z) ==> a(z),
        is_path(g, p),
        a(p[0]),
        0 <= i < p.len(),
    ensures
        a(p[i]),
    decreases i,
{
    if i > 0 {
        lemma_closed_path_prefix(g, a, p, i - 1);
        let j = i - 1;
        assert(has_edge(g, p[j], p[j + 1]));
        assert(p[j + 1] == p[i]);
    }
}

} // verus!

verus! {

/// The shape of a depth-first search state over `g`: the stack holds visited
/// nodes in the order of their numbers, visited nodes have distinct numbers up
/// to `counter`, and the nodes whose visit is in progress (`gray`, outermost
/// first) are on the stack in order.
pub open spec fn dfs_shape(
    g: Seq<Seq<usize>>,
    vis: Seq<bool>,
    st: Seq<usize>,
    num: Seq<usize>,
    low: Seq<usize>,
    gray: Seq<usize>,
    counter: int,
) -> bool {
    let n = g.len();
    &&& adj_wf(g)
    &&& n <= usize::MAX
    &&& counter >= 0
    &&& vis.len() == n
    &&& num.len() == n
    &&& low.len() == n
    &&& forall|x: int| 0 <= x < n && #[trigger] vis[x] ==> 1 <= num[x] <= counter
    &&& forall|u: int, v: int| 0 <= u < n && 0 <= v < n && u != v && vis[u] && vis[v]
        ==> #[trigger] num[u] != #[trigger] num[v]
    &&& forall|k: int| 0 <= k < st.len() ==> (#[trigger] st[k]) < n && vis[st[k] as int]
    &&& forall|i: int, j: int| 0 <= i < j < st.len() ==> num[#[trigger] st[i] as int] < num[#[trigger] st[j] as int]
    &&& forall|i: int| 0 <= i < gray.len() ==> st.contains(#[trigger] gray[i])
    &&& forall|i: int, j: int| 0 <= i < j < gray.len() ==> num[#[trigger] gray[i] as int] < num[#[trigger] gray[j] as int]
}

/// A node in progress reaches every stack node numbered after it.
pub open spec fn gray_reaches(g: Seq<Seq<usize>>, st: Seq<usize>, num: Seq<usize>, gray: Seq<usize>) -> bool {
    forall|i: int, k: int| #![trigger gray[i], st[k]]
        0 <= i < gray.len() && 0 <= k < st.len() && num[gray[i] as int] <= num[st[k] as int]
        ==> reaches(g, gray[i], st[k])
}

/// The low link of a stack node is the number of a stack node it reaches.
pub open spec fn low_witnessed(g: Seq<Seq<usize>>, st: Seq<usize>, num: Seq<usize>, low: Seq<usize>) -> bool {
    forall|k: int| 0 <= k < st.len() ==> {
        &&& #[trigger] low[st[k] as int] <= num[st[k] as int]
        &&& exists|k2: int| 0 <= k2 < st.len() && num[st[k2] as int] == low[st[k] as int] && reaches(g, st[k], #[trigger] st[k2])
    }
}

/// A node in progress has a low link no greater than that of the finished
/// stack nodes visited below it and before the next node in progress (before
/// number `cut` for the innermost one).
pub open spec fn low_dominates(st: Seq<usize>, num: Seq<usize>, low: Seq<usize>, gray: Seq<usize>, cut: int) -> bool {
    forall|i: int, k: int| #![trigger gray[i], st[k]]
        0 <= i < gray.len() && 0 <= k < st.len() && !gray.contains(st[k])
        && num[gray[i] as int] < num[st[k] as int]
        && (i + 1 < gray.len() ==> num[st[k] as int] < num[gray[i + 1] as int])
        && (i + 1 == gray.len() ==> num[st[k] as int] < cut)
        ==> low[gray[i] as int] <= low[st[k] as int]
}

/// A finished node has visited all its successors and its low link is no
/// greater than the number of any successor still on the stack numbered
/// before it.
pub open spec fn finished_edges(
    g: Seq<Seq<usize>>,
    vis: Seq<bool>,
    st: Seq<usize>,
    num: Seq<usize>,
    low: Seq<usize>,
    gray: Seq<usize>,
) -> bool {
    forall|x: int, j: int| 0 <= x < g.len() && 0 <= j < g[x].len() && vis[x] && !gray.contains(x as usize) ==> {
        &&& vis[#[trigger] g[x][j] as int]
        &&& st.contains(g[x][j]) && num[g[x][j] as int] < num[x] ==> low[x] <= num[g[x][j] as int]
    }
}

/// A node off the stack after its visit has only successors off the stack.
pub open spec fn done_closed(g: Seq<Seq<usize>>, vis: Seq<bool>, st: Seq<usize>) -> bool {
    forall|x: int, j: int| 0 <= x < g.len() && 0 <= j < g[x].len() && vis[x] && !st.contains(x as usize)
        ==> !st.contains(#[trigger] g[x][j])
}

/// A finished node left on the stack reaches a node below it.
pub open spec fn finished_low(st: Seq<usize>, num: Seq<usize>, low: Seq<usize>, gray: Seq<usize>) -> bool {
    forall|k: int| 0 <= k < st.len() && !gray.contains(#[trigger] st[k]) ==> low[st[k] as int] < num[st[k] as int]
}

/// Each recorded component is the whole component of each of its members,
/// has more than one node, and has left the stack.
pub open spec fn comps_exact(g: Seq<Seq<usize>>, vis: Seq<bool>, st: Seq<usize>, comps: Seq<Seq<usize>>) -> bool {
    forall|c: int| 0 <= c < comps.len() ==> {
        &&& (#[trigger] comps[c]).len() > 1
        &&& comps[c].no_duplicates()
        &&& forall|m: int| 0 <= m < comps[c].len() ==> {
            &&& (#[trigger] comps[c][m]) < g.len()
            &&& vis[comps[c][m] as int]
            &&& !st.contains(comps[c][m])
            &&& forall|y: usize| #[trigger] same_scc(g, comps[c][m], y) <==> comps[c].contains(y)
        }
    }
}

/// Every node off the stack whose component holds another node is in a
/// recorded component.
pub open spec fn comps_complete(g: Seq<Seq<usize>>, vis: Seq<bool>, st: Seq<usize>, comps: Seq<Seq<usize>>) -> bool {
    forall|x: usize| x < g.len() && vis[x as int] && !st.contains(x) && #[trigger] scc_nontrivial(g, x)
        ==> exists|c: int| 0 <= c < comps.len() && #[trigger] comps[c].contains(x)
}

/// Each recorded component lists its nodes from the last numbered to the
/// first, and no edge leads from a node of a component to a node of one
/// recorded after it.
#[verifier::opaque]
pub open spec fn comps_ordered(g: Seq<Seq<usize>>, num: Seq<usize>, comps: Seq<Seq<usize>>) -> bool {
    &&& forall|c: int, t: int, u: int| 0 <= c < comps.len() && 0 <= t < u < comps[c].len()
        ==> num[#[trigger] comps[c][t] as int] > num[#[trigger] comps[c][u] as int]
    &&& forall|c: int, d: int, m: int, j: int| #![trigger comps[d], g[comps[c][m] as int][j]]
        0 <= c < d < comps.len() && 0 <= m < comps[c].len() && 0 <= j < g[comps[c][m] as int].len()
        ==> !comps[d].contains(g[comps[c][m] as int][j])
}

/// The invariant of Tarjan's search.
pub closed spec fn tarjan_inv(
    g: Seq<Seq<usize>>,
    vis: Seq<bool>,
    st: Seq<usize>,
    num: Seq<usize>,
    low: Seq<usize>,
    gray: Seq<usize>,
    comps: Seq<Seq<usize>>,
    counter: int,
    cut: int,
) -> bool {
    &&& dfs_shape(g, vis, st, num, low, gray, counter)
    &&& gray_reaches(g, st, num, gray)
    &&& low_witnessed(g, st, num, low)
    &&& low_dominates(st, num, low, gray, cut)
    &&& finished_edges(g, vis, st, num, low, gray)
    &&& done_closed(g, vis, st)
    &&& finished_low(st, num, low, gray)
    &&& comps_exact(g, vis, st, comps)
    &&& comps_complete(g, vis, st, comps)
    &&& comps_ordered(g, num, comps)
}

/// The state at the start of a search: nothing visited, whatever the count
/// of numbers given out before.
pub proof fn lemma_tarjan_start(g: Seq<Seq<usize>>, vis: Seq<bool>, num: Seq<usize>, low: Seq<usize>, counter: int)
    requires
        adj_wf(g),
        g.len() <= usize::MAX,
        vis.len() == g.len(),
        num.len() == g.len(),
        low.len() == g.len(),
        counter >= 0,
        forall|x: int| 0 <= x < g.len() ==> !#[trigger] vis[x],
    ensures
        tarjan_inv(g, vis, Seq::empty(), num, low, Seq::empty(), Seq::empty(), counter, counter + 1),
{
    reveal(comps_ordered);
}

/// The recorded components of a search state are exact.
pub proof fn lemma_tarjan_comps(
    g: Seq<Seq<usize>>,
    vis: Seq<bool>,
    st: Seq<usize>,
    num: Seq<usize>,
    low: Seq<usize>,
    gray: Seq<usize>,
    comps: Seq<Seq<usize>>,
    counter: int,
    cut: int,
)
    requires
        tarjan_inv(g, vis, st, num, low, gray, comps, counter, cut),
    ensures
        comps_exact(g, vis, st, comps),
        comps_ordered(g, num, comps),
{
}

} // verus!

verus! {

/// Facts about a push used by each part of the invariant.
proof fn lemma_push_basics(g: Seq<Seq<usize>>, vis: Seq<bool>, st: Seq<usize>, num: Seq<usize>, low: Seq<usize>, gray: Seq<usize>, counter: int, v: usize)
    requires
        v < g.len(),
        !vis[v as int],
        gray.len() > 0 ==> has_edge(g, gray.last(), v),
        counter + 1 <= usize::MAX,
        dfs_shape(g, vis, st, num, low, gray, counter),
    ensures
        !st.contains(v),
        !gray.contains(v),
        forall|k: int| 0 <= k < st.len() ==> #[trigger] st[k] != v,
        forall|x: usize| #[trigger] st.push(v).contains(x) <==> st.contains(x) || x == v,
        forall|x: usize| #[trigger] gray.push(v).contains(x) <==> gray.contains(x) || x == v,
        forall|x: usize| gray.contains(x) ==> #[trigger] st.contains(x),
{
    assert forall|k: int| 0 <= k < st.len() implies #[trigger] st[k] != v by { assert(vis[st[k] as int]); }
    assert forall|x: usize| gray.contains(x) implies #[trigger] st.contains(x) by {
        let t = choose|t: int| 0 <= t < gray.len() && gray[t] == x;
        assert(st.contains(gray[t]));
    }
    assert forall|x: usize| #[trigger] st.push(v).contains(x) <==> st.contains(x) || x == v by {
        if st.push(v).contains(x) {
            let k = choose|k: int| 0 <= k < st.len() + 1 && st.push(v)[k] == x;
            if k < st.len() { assert(st[k] == x); }
        }
        if st.contains(x) {
            let k = choose|k: int| 0 <= k < st.len() && st[k] == x;
            assert(st.push(v)[k] == x);
        }
        if x == v { assert(st.push(v)[st.len() as int] == x); }
    }
    assert forall|x: usize| #[trigger] gray.push(v).contains(x) <==> gray.contains(x) || x == v by {
        if gray.push(v).contains(x) {
            let k = choose|k: int| 0 <= k < gray.len() + 1 && gray.push(v)[k] == x;
            if k < gray.len() { assert(gray[k] == x); }
        }
        if gray.contains(x) {
            let k = choose|k: int| 0 <= k < gray.len() && gray[k] == x;
            assert(gray.push(v)[k] == x);
        }
        if x == v { assert(gray.push(v)[gray.len() as int] == x); }
    }
}

/// A push keeps the shape of the search state.
proof fn lemma_push_shape(g: Seq<Seq<usize>>, vis: Seq<bool>, st: Seq<usize>, num: Seq<usize>, low: Seq<usize>, gray: Seq<usize>, counter: int, v: usize)
    requires
        v < g.len(),
        !vis[v as int],
        gray.len() > 0 ==> has_edge(g, gray.last(), v),
        counter + 1 <= usize::MAX,
        dfs_shape(g, vis, st, num, low, gray, counter),
    ensures
        dfs_shape(g, vis.update(v as int, true), st.push(v), num.update(v as int, (counter + 1) as usize), low.update(v as int, (counter + 1) as usize), gray.push(v), counter + 1),
{
    let n = g.len();
    let c = (counter + 1) as usize;
    let vis2 = vis.update(v as int, true);
    let st2 = st.push(v);
    let num2 = num.update(v as int, c);
    let low2 = low.update(v as int, c);
    let gray2 = gray.push(v);
    lemma_push_basics(g, vis, st, num, low, gray, counter, v);
    assert forall|i: int| 0 <= i < gray2.len() implies st2.contains(#[trigger] gray2[i]) by {
        if i < gray.len() {
            assert(gray2[i] == gray[i]);
            assert(st.contains(gray[i]));
        }
    }
    assert forall|i: int, j: int| 0 <= i < j < gray2.len() implies num2[#[trigger] gray2[i] as int] < num2[#[trigger] gray2[j] as int] by {
        assert(gray2[i] == gray[i]);
        assert(st.contains(gray[i]));
        let k = choose|k: int| 0 <= k < st.len() && st[k] == gray[i];
        assert(vis[gray[i] as int]);
        if j < gray.len() {
            assert(gray2[j] == gray[j]);
            assert(num[gray[i] as int] < num[gray[j] as int]);
        }
    }
    assert forall|i: int, j: int| 0 <= i < j < st2.len() implies num2[#[trigger] st2[i] as int] < num2[#[trigger] st2[j] as int] by {
        assert(st2[i] == st[i]);
        assert(vis[st[i] as int]);
        if j < st.len() {
            assert(st2[j] == st[j]);
            assert(num[st[i] as int] < num[st[j] as int]);
        }
    }
    assert forall|k: int| 0 <= k < st2.len() implies (#[trigger] st2[k]) < n && vis2[st2[k] as int] by {
        if k < st.len() { assert(st2[k] == st[k]); }
    }
    assert forall|x: int| 0 <= x < n && #[trigger] vis2[x] implies 1 <= num2[x] <= counter + 1 by {
        if x != v as int { assert(vis[x]); }
    }
    assert forall|u: int, w: int| 0 <= u < n && 0 <= w < n && u != w && vis2[u] && vis2[w]
        implies #[trigger] num2[u] != #[trigger] num2[w] by {
        if u != v as int && w != v as int {
            assert(num[u] != num[w]);
        } else if u == v as int {
            assert(vis[w]);
        } else {
            assert(vis[u]);
        }
    }
}

/// A push keeps the nodes in progress reaching the stack above them.
proof fn lemma_push_reaches(g: Seq<Seq<usize>>, vis: Seq<bool>, st: Seq<usize>, num: Seq<usize>, low: Seq<usize>, gray: Seq<usize>, counter: int, v: usize)
    requires
        v < g.len(),
        !vis[v as int],
        gray.len() > 0 ==> has_edge(g, gray.last(), v),
        counter + 1 <= usize::MAX,
        dfs_shape(g, vis, st, num, low, gray, counter),
        gray_reaches(g, st, num, gray),
    ensures
        gray_reaches(g, st.push(v), num.update(v as int, (counter + 1) as usize), gray.push(v)),
{
    let n = g.len();
    let c = (counter + 1) as usize;
    let vis2 = vis.update(v as int, true);
    let st2 = st.push(v);
    let num2 = num.update(v as int, c);
    let low2 = low.update(v as int, c);
    let gray2 = gray.push(v);
    lemma_push_basics(g, vis, st, num, low, gray, counter, v);
    assert forall|i: int, k: int| #![trigger gray2[i], st2[k]]
        0 <= i < gray2.len() && 0 <= k < st2.len() && num2[gray2[i] as int] <= num2[st2[k] as int]
        implies reaches(g, gray2[i], st2[k]) by {
        if i == gray2.len() - 1 {
            assert(gray2[i] == v);
            if k < st.len() {
                assert(st2[k] == st[k]);
                assert(vis[st[k] as int]);
            }
            lemma_reaches_refl(g, v);
        } else {
            assert(gray2[i] == gray[i]);
            assert(st.contains(gray[i]));
            let ki = choose|ki: int| 0 <= ki < st.len() && st[ki] == gray[i];
            assert(vis[gray[i] as int]);
            if k == st2.len() - 1 {
                let last = gray.len() - 1;
                assert(st.contains(gray[last]));
                let k0 = choose|k0: int| 0 <= k0 < st.len() && st[k0] == gray[last];
                if i < last {
                    assert(num[gray[i] as int] < num[gray[last] as int]);
                }
                assert(reaches(g, gray[i], st[k0]));
                lemma_reaches_step(g, gray[i], gray[last], v);
            } else {
                assert(st2[k] == st[k]);
                assert(vis[st[k] as int]);
                assert(reaches(g, gray[i], st[k]));
            }
        }
    }
}

/// A push keeps the low links witnessed.
proof fn lemma_push_witness(g: Seq<Seq<usize>>, vis: Seq<bool>, st: Seq<usize>, num: Seq<usize>, low: Seq<usize>, gray: Seq<usize>, counter: int, v: usize)
    requires
        v < g.len(),
        !vis[v as int],
        gray.len() > 0 ==> has_edge(g, gray.last(), v),
        counter + 1 <= usize::MAX,
        dfs_shape(g, vis, st, num, low, gray, counter),
        low_witnessed(g, st, num, low),
    ensures
        low_witnessed(g, st.push(v), num.update(v as int, (counter + 1) as usize), low.update(v as int, (counter + 1) as usize)),
{
    let n = g.len();
    let c = (counter + 1) as usize;
    let vis2 = vis.update(v as int, true);
    let st2 = st.push(v);
    let num2 = num.update(v as int, c);
    let low2 = low.update(v as int, c);
    let gray2 = gray.push(v);
    lemma_push_basics(g, vis, st, num, low, gray, counter, v);
    assert forall|k: int| 0 <= k < st2.len() implies {
        &&& #[trigger] low2[st2[k] as int] <= num2[st2[k] as int]
        &&& exists|k2: int| 0 <= k2 < st2.len() && num2[st2[k2] as int] == low2[st2[k] as int] && reaches(g, st2[k], #[trigger] st2[k2])
    } by {
        if k == st2.len() - 1 {
            lemma_reaches_refl(g, v);
            assert(num2[st2[k] as int] == low2[st2[k] as int] && reaches(g, st2[k], st2[k]));
        } else {
            assert(st2[k] == st[k]);
            let k2 = choose|k2: int| 0 <= k2 < st.len() && num[st[k2] as int] == low[st[k] as int] && reaches(g, st[k], #[trigger] st[k2]);
            assert(st2[k2] == st[k2]);
            assert(num2[st2[k2] as int] == low2[st2[k] as int] && reaches(g, st2[k], st2[k2]));
        }
    }
}

/// A push keeps the nodes in progress dominating the finished nodes after them.
proof fn lemma_push_dominates(g: Seq<Seq<usize>>, vis: Seq<bool>, st: Seq<usize>, num: Seq<usize>, low: Seq<usize>, gray: Seq<usize>, counter: int, v: usize)
    requires
        v < g.len(),
        !vis[v as int],
        gray.len() > 0 ==> has_edge(g, gray.last(), v),
        counter + 1 <= usize::MAX,
        dfs_shape(g, vis, st, num, low, gray, counter),
        low_dominates(st, num, low, gray, counter + 1),
    ensures
        low_dominates(st.push(v), num.update(v as int, (counter + 1) as usize), low.update(v as int, (counter + 1) as usize), gray.push(v), counter + 2),
{
    let n = g.len();
    let c = (counter + 1) as usize;
    let vis2 = vis.update(v as int, true);
    let st2 = st.push(v);
    let num2 = num.update(v as int, c);
    let low2 = low.update(v as int, c);
    let gray2 = gray.push(v);
    lemma_push_basics(g, vis, st, num, low, gray, counter, v);
    assert forall|i: int, k: int| #![trigger gray2[i], st2[k]]
        0 <= i < gray2.len() && 0 <= k < st2.len() && !gray2.contains(st2[k])
        && num2[gray2[i] as int] < num2[st2[k] as int]
        && (i + 1 < gray2.len() ==> num2[st2[k] as int] < num2[gray2[i + 1] as int])
        && (i + 1 == gray2.len() ==> num2[st2[k] as int] < counter + 2)
        implies low2[gray2[i] as int] <= low2[st2[k] as int] by {
        if k == st2.len() - 1 {
            assert(st2[k] == v);
        } else {
            assert(st2[k] == st[k]);
            assert(vis[st[k] as int]);
            assert(st[k] != v);
            if i == gray2.len() - 1 {
                assert(gray2[i] == v);
            } else {
                assert(gray2[i] == gray[i]);
                assert(!gray.contains(st[k]));
                assert(st.contains(gray[i]));
                let ki = choose|ki: int| 0 <= ki < st.len() && st[ki] == gray[i];
                assert(vis[gray[i] as int]);
                assert(gray[i] != v);
                if i + 1 < gray.len() {
                    assert(gray2[i + 1] == gray[i + 1]);
                } else {
                    assert(gray2[i + 1] == v);
                }
                assert(low[gray[i] as int] <= low[st[k] as int]);
            }
        }
    }
}

/// A push keeps the finished nodes accounted for.
proof fn lemma_push_edges(g: Seq<Seq<usize>>, vis: Seq<bool>, st: Seq<usize>, num: Seq<usize>, low: Seq<usize>, gray: Seq<usize>, counter: int, v: usize)
    requires
        v < g.len(),
        !vis[v as int],
        gray.len() > 0 ==> has_edge(g, gray.last(), v),
        counter + 1 <= usize::MAX,
        dfs_shape(g, vis, st, num, low, gray, counter),
        finished_edges(g, vis, st, num, low, gray),
    ensures
        finished_edges(g, vis.update(v as int, true), st.push(v), num.update(v as int, (counter + 1) as usize), low.update(v as int, (counter + 1) as usize), gray.push(v)),
{
    let n = g.len();
    let c = (counter + 1) as usize;
    let vis2 = vis.update(v as int, true);
    let st2 = st.push(v);
    let num2 = num.update(v as int, c);
    let low2 = low.update(v as int, c);
    let gray2 = gray.push(v);
    lemma_push_basics(g, vis, st, num, low, gray, counter, v);
    assert forall|x: int, j: int| 0 <= x < n && 0 <= j < g[x].len() && vis2[x] && !gray2.contains(x as usize) implies {
        &&& vis2[#[trigger] g[x][j] as int]
        &&& st2.contains(g[x][j]) && num2[g[x][j] as int] < num2[x] ==> low2[x] <= num2[g[x][j] as int]
    } by {
        assert(x != v as int);
        assert(vis[g[x][j] as int]);
        assert(g[x][j] != v);
    }
}

/// A push keeps the nodes off the stack closed.
proof fn lemma_push_closed(g: Seq<Seq<usize>>, vis: Seq<bool>, st: Seq<usize>, num: Seq<usize>, low: Seq<usize>, gray: Seq<usize>, counter: int, v: usize)
    requires
        v < g.len(),
        !vis[v as int],
        gray.len() > 0 ==> has_edge(g, gray.last(), v),
        counter + 1 <= usize::MAX,
        dfs_shape(g, vis, st, num, low, gray, counter),
        done_closed(g, vis, st),
        finished_edges(g, vis, st, num, low, gray),
    ensures
        done_closed(g, vis.update(v as int, true), st.push(v)),
{
    let n = g.len();
    let c = (counter + 1) as usize;
    let vis2 = vis.update(v as int, true);
    let st2 = st.push(v);
    let num2 = num.update(v as int, c);
    let low2 = low.update(v as int, c);
    let gray2 = gray.push(v);
    lemma_push_basics(g, vis, st, num, low, gray, counter, v);
    assert forall|x: int, j: int| 0 <= x < n && 0 <= j < g[x].len() && vis2[x] && !st2.contains(x as usize)
        implies !st2.contains(#[trigger] g[x][j]) by {
        assert(x != v as int);
        assert(!gray.contains(x as usize));
        assert(vis[g[x][j] as int]);
        assert(g[x][j] != v);
    }
}

/// A push keeps the finished stack nodes below their numbers.
proof fn lemma_push_low(g: Seq<Seq<usize>>, vis: Seq<bool>, st: Seq<usize>, num: Seq<usize>, low: Seq<usize>, gray: Seq<usize>, counter: int, v: usize)
    requires
        v < g.len(),
        !vis[v as int],
        gray.len() > 0 ==> has_edge(g, gray.last(), v),
        counter + 1 <= usize::MAX,
        dfs_shape(g, vis, st, num, low, gray, counter),
        finished_low(st, num, low, gray),
    ensures
        finished_low(st.push(v), num.update(v as int, (counter + 1) as usize), low.update(v as int, (counter + 1) as usize), gray.push(v)),
{
    let n = g.len();
    let c = (counter + 1) as usize;
    let vis2 = vis.update(v as int, true);
    let st2 = st.push(v);
    let num2 = num.update(v as int, c);
    let low2 = low.update(v as int, c);
    let gray2 = gray.push(v);
    lemma_push_basics(g, vis, st, num, low, gray, counter, v);
    assert forall|k: int| 0 <= k < st2.len() && !gray2.contains(#[trigger] st2[k]) implies low2[st2[k] as int] < num2[st2[k] as int] by {
        if k < st.len() {
            assert(st2[k] == st[k]);
            assert(st[k] != v);
        }
    }
}

/// A push keeps the recorded components exact and complete.
proof fn lemma_push_comps(g: Seq<Seq<usize>>, vis: Seq<bool>, st: Seq<usize>, num: Seq<usize>, low: Seq<usize>, gray: Seq<usize>, counter: int, v: usize, comps: Seq<Seq<usize>>)
    requires
        v < g.len(),
        !vis[v as int],
        gray.len() > 0 ==> has_edge(g, gray.last(), v),
        counter + 1 <= usize::MAX,
        dfs_shape(g, vis, st, num, low, gray, counter),
        comps_exact(g, vis, st, comps),
        comps_complete(g, vis, st, comps),
    ensures
        comps_exact(g, vis.update(v as int, true), st.push(v), comps),
        comps_complete(g, vis.update(v as int, true), st.push(v), comps),
{
    let n = g.len();
    let c = (counter + 1) as usize;
    let vis2 = vis.update(v as int, true);
    let st2 = st.push(v);
    let num2 = num.update(v as int, c);
    let low2 = low.update(v as int, c);
    let gray2 = gray.push(v);
    lemma_push_basics(g, vis, st, num, low, gray, counter, v);
    assert forall|c: int, m: int| 0 <= c < comps.len() && 0 <= m < comps[c].len() implies
        vis2[#[trigger] comps[c][m] as int] && !st2.contains(comps[c][m]) by {
        assert(vis[comps[c][m] as int]);
    }
    assert forall|x: usize| x < g.len() && vis2[x as int] && !st2.contains(x) && #[trigger] scc_nontrivial(g, x)
        implies exists|c: int| 0 <= c < comps.len() && #[trigger] comps[c].contains(x) by {
        assert(x != v);
    }
}

/// Starting the visit of an unvisited node, a successor of the innermost node
/// in progress (or a new root when none is).
pub proof fn lemma_tarjan_push(
    g: Seq<Seq<usize>>,
    vis: Seq<bool>,
    st: Seq<usize>,
    num: Seq<usize>,
    low: Seq<usize>,
    gray: Seq<usize>,
    comps: Seq<Seq<usize>>,
    counter: int,
    v: usize,
)
    requires
        tarjan_inv(g, vis, st, num, low, gray, comps, counter, counter + 1),
        v < g.len(),
        !vis[v as int],
        gray.len() > 0 ==> has_edge(g, gray.last(), v),
        counter + 1 <= usize::MAX,
    ensures
        tarjan_inv(g, vis.update(v as int, true), st.push(v), num.update(v as int, (counter + 1) as usize), low.update(v as int, (counter + 1) as usize), gray.push(v), comps, counter + 1, counter + 2),
{
    lemma_push_basics(g, vis, st, num, low, gray, counter, v);
    lemma_push_shape(g, vis, st, num, low, gray, counter, v);
    lemma_push_reaches(g, vis, st, num, low, gray, counter, v);
    lemma_push_witness(g, vis, st, num, low, gray, counter, v);
    lemma_push_dominates(g, vis, st, num, low, gray, counter, v);
    lemma_push_edges(g, vis, st, num, low, gray, counter, v);
    lemma_push_closed(g, vis, st, num, low, gray, counter, v);
    lemma_push_low(g, vis, st, num, low, gray, counter, v);
    lemma_push_comps(g, vis, st, num, low, gray, counter, v, comps);
    lemma_push_order(g, vis, st, num, low, gray, comps, counter, v);
}

/// A push numbers an unvisited node, which is in no recorded component, so
/// the order of the components stays.
proof fn lemma_push_order(
    g: Seq<Seq<usize>>,
    vis: Seq<bool>,
    st: Seq<usize>,
    num: Seq<usize>,
    low: Seq<usize>,
    gray: Seq<usize>,
    comps: Seq<Seq<usize>>,
    counter: int,
    v: usize,
)
    requires
        tarjan_inv(g, vis, st, num, low, gray, comps, counter, counter + 1),
        v < g.len(),
        !vis[v as int],
    ensures
        comps_ordered(g, num.update(v as int, (counter + 1) as usize), comps),
{
    reveal(comps_ordered);
    let num2 = num.update(v as int, (counter + 1) as usize);
    assert forall|c: int, t: int, u: int| 0 <= c < comps.len() && 0 <= t < u < comps[c].len()
        implies num2[#[trigger] comps[c][t] as int] > num2[#[trigger] comps[c][u] as int] by {
        assert(vis[comps[c][t] as int] && vis[comps[c][u] as int]);
    }
}

} // verus!

verus! {

/// The innermost node in progress stands on the stack and is visited.
proof fn lemma_lower_basics(g: Seq<Seq<usize>>, vis: Seq<bool>, st: Seq<usize>, num: Seq<usize>, low: Seq<usize>, gray: Seq<usize>, counter: int, m: usize)
    requires
        dfs_shape(g, vis, st, num, low, gray, counter),
        gray.len() > 0,
        m <= low[gray.last() as int],
    ensures
        st.contains(gray.last()),
        vis[gray.last() as int],
        gray.contains(gray.last()),
{
    assert(st.contains(gray[gray.len() - 1]));
    assert(gray[gray.len() - 1] == gray.last());
    let kr = choose|kr: int| 0 <= kr < st.len() && st[kr] == gray.last();
}

/// Lowering a low link to the number of a stack node reached keeps it witnessed.
proof fn lemma_lower_witness(g: Seq<Seq<usize>>, vis: Seq<bool>, st: Seq<usize>, num: Seq<usize>, low: Seq<usize>, gray: Seq<usize>, counter: int, m: usize)
    requires
        dfs_shape(g, vis, st, num, low, gray, counter),
        gray.len() > 0,
        m <= low[gray.last() as int],
        low_witnessed(g, st, num, low),
        m < low[gray.last() as int] ==> exists|k: int| 0 <= k < st.len() && num[st[k] as int] == m && reaches(g, gray.last(), #[trigger] st[k]),
    ensures
        low_witnessed(g, st, num, low.update(gray.last() as int, m)),
{
    let r = gray.last();
    let low2 = low.update(r as int, m);
    assert forall|k: int| 0 <= k < st.len() implies {
        &&& #[trigger] low2[st[k] as int] <= num[st[k] as int]
        &&& exists|k2: int| 0 <= k2 < st.len() && num[st[k2] as int] == low2[st[k] as int] && reaches(g, st[k], #[trigger] st[k2])
    } by {
        if st[k] == r && m < low[r as int] {
            let k2 = choose|k: int| 0 <= k < st.len() && num[st[k] as int] == m && reaches(g, gray.last(), #[trigger] st[k]);
            assert(num[st[k2] as int] == low2[st[k] as int] && reaches(g, st[k], st[k2]));
        } else {
            let k2 = choose|k2: int| 0 <= k2 < st.len() && num[st[k2] as int] == low[st[k] as int] && reaches(g, st[k], #[trigger] st[k2]);
            assert(num[st[k2] as int] == low2[st[k] as int] && reaches(g, st[k], st[k2]));
        }
    }
}

/// Lowering the low link of the innermost node in progress keeps the other parts.
proof fn lemma_lower_rest(g: Seq<Seq<usize>>, vis: Seq<bool>, st: Seq<usize>, num: Seq<usize>, low: Seq<usize>, gray: Seq<usize>, counter: int, m: usize, cut: int)
    requires
        dfs_shape(g, vis, st, num, low, gray, counter),
        gray.len() > 0,
        m <= low[gray.last() as int],
        low_dominates(st, num, low, gray, cut),
        finished_edges(g, vis, st, num, low, gray),
        finished_low(st, num, low, gray),
    ensures
        low_dominates(st, num, low.update(gray.last() as int, m), gray, cut),
        finished_edges(g, vis, st, num, low.update(gray.last() as int, m), gray),
        finished_low(st, num, low.update(gray.last() as int, m), gray),
{
    let r = gray.last();
    let low2 = low.update(r as int, m);
    lemma_lower_basics(g, vis, st, num, low, gray, counter, m);
    assert forall|i: int, k: int| #![trigger gray[i], st[k]]
        0 <= i < gray.len() && 0 <= k < st.len() && !gray.contains(st[k])
        && num[gray[i] as int] < num[st[k] as int]
        && (i + 1 < gray.len() ==> num[st[k] as int] < num[gray[i + 1] as int])
        && (i + 1 == gray.len() ==> num[st[k] as int] < cut)
        implies low2[gray[i] as int] <= low2[st[k] as int] by {
        assert(st[k] != r);
        assert(low[gray[i] as int] <= low[st[k] as int]);
    }
    assert forall|x: int, j: int| 0 <= x < g.len() && 0 <= j < g[x].len() && vis[x] && !gray.contains(x as usize) implies {
        &&& vis[#[trigger] g[x][j] as int]
        &&& st.contains(g[x][j]) && num[g[x][j] as int] < num[x] ==> low2[x] <= num[g[x][j] as int]
    } by {
        assert(x != r as int);
    }
    assert forall|k: int| 0 <= k < st.len() && !gray.contains(#[trigger] st[k]) implies low2[st[k] as int] < num[st[k] as int] by {
        assert(st[k] != r);
    }
}

/// Lowering the low link of the innermost node in progress to the number of
/// a stack node it reaches.
pub proof fn lemma_tarjan_lower(
    g: Seq<Seq<usize>>,
    vis: Seq<bool>,
    st: Seq<usize>,
    num: Seq<usize>,
    low: Seq<usize>,
    gray: Seq<usize>,
    comps: Seq<Seq<usize>>,
    counter: int,
    cut: int,
    m: usize,
)
    requires
        tarjan_inv(g, vis, st, num, low, gray, comps, counter, cut),
        gray.len() > 0,
        m <= low[gray.last() as int],
        m < low[gray.last() as int] ==> exists|k: int| 0 <= k < st.len() && num[st[k] as int] == m && reaches(g, gray.last(), #[trigger] st[k]),
    ensures
        tarjan_inv(g, vis, st, num, low.update(gray.last() as int, m), gray, comps, counter, cut),
{
    lemma_lower_witness(g, vis, st, num, low, gray, counter, m);
    lemma_lower_rest(g, vis, st, num, low, gray, counter, m, cut);
}

/// Widening the part of the stack that the innermost node in progress
/// dominates, given that it dominates the added part.
pub proof fn lemma_tarjan_extend_cut(
    g: Seq<Seq<usize>>,
    vis: Seq<bool>,
    st: Seq<usize>,
    num: Seq<usize>,
    low: Seq<usize>,
    gray: Seq<usize>,
    comps: Seq<Seq<usize>>,
    counter: int,
    c1: int,
    c2: int,
)
    requires
        tarjan_inv(g, vis, st, num, low, gray, comps, counter, c1),
        c1 <= c2,
        gray.len() > 0 ==> forall|k: int| 0 <= k < st.len() && !gray.contains(#[trigger] st[k])
            && num[gray.last() as int] < num[st[k] as int] && c1 <= num[st[k] as int] < c2
            ==> low[gray.last() as int] <= low[st[k] as int],
    ensures
        tarjan_inv(g, vis, st, num, low, gray, comps, counter, c2),
{
    assert forall|i: int, k: int| #![trigger gray[i], st[k]]
        0 <= i < gray.len() && 0 <= k < st.len() && !gray.contains(st[k])
        && num[gray[i] as int] < num[st[k] as int]
        && (i + 1 < gray.len() ==> num[st[k] as int] < num[gray[i + 1] as int])
        && (i + 1 == gray.len() ==> num[st[k] as int] < c2)
        implies low[gray[i] as int] <= low[st[k] as int] by {
        if i + 1 == gray.len() && num[st[k] as int] >= c1 {
            assert(gray[i] == gray.last());
        }
    }
}

} // verus!

verus! {

/// The node in progress has visited all its successors, and its low link is
/// no greater than the number of any successor on the stack numbered before it.
pub open spec fn succs_done(g: Seq<Seq<usize>>, vis: Seq<bool>, st: Seq<usize>, num: Seq<usize>, low: Seq<usize>, r: usize) -> bool {
    forall|j: int| 0 <= j < g[r as int].len() ==> {
        &&& vis[#[trigger] g[r as int][j] as int]
        &&& st.contains(g[r as int][j]) && num[g[r as int][j] as int] < num[r as int] ==> low[r as int] <= num[g[r as int][j] as int]
    }
}

/// Facts about dropping the innermost node in progress.
proof fn lemma_drop_basics(g: Seq<Seq<usize>>, vis: Seq<bool>, st: Seq<usize>, num: Seq<usize>, low: Seq<usize>, gray: Seq<usize>, counter: int)
    requires
        dfs_shape(g, vis, st, num, low, gray, counter),
        gray.len() > 0,
    ensures
        forall|x: usize| #[trigger] gray.drop_last().contains(x) <==> gray.contains(x) && x != gray.last(),
        st.contains(gray.last()),
        vis[gray.last() as int],
        gray.last() < g.len(),
        dfs_shape(g, vis, st, num, low, gray.drop_last(), counter),
        forall|i: int| 0 <= i < gray.len() - 1 ==> num[#[trigger] gray[i] as int] < num[gray.last() as int],
{
    let r = gray.last();
    let gray2 = gray.drop_last();
    lemma_lower_basics(g, vis, st, num, low, gray, counter, 0);
    let kr = choose|kr: int| 0 <= kr < st.len() && st[kr] == r;
    assert(st[kr] < g.len());
    assert forall|i: int| 0 <= i < gray.len() - 1 implies num[#[trigger] gray[i] as int] < num[gray.last() as int] by {
        assert(num[gray[i] as int] < num[gray[gray.len() - 1] as int]);
    }
    assert forall|x: usize| #[trigger] gray2.contains(x) <==> gray.contains(x) && x != r by {
        if gray2.contains(x) {
            let t = choose|t: int| 0 <= t < gray2.len() && gray2[t] == x;
            assert(gray[t] == x);
            assert(num[gray[t] as int] < num[r as int]);
        }
        if gray.contains(x) && x != r {
            let t = choose|t: int| 0 <= t < gray.len() && gray[t] == x;
            assert(t != gray.len() - 1);
            assert(gray2[t] == x);
        }
    }
    assert forall|i: int| 0 <= i < gray2.len() implies st.contains(#[trigger] gray2[i]) by {
        assert(gray2[i] == gray[i]);
    }
    assert forall|i: int, j: int| 0 <= i < j < gray2.len() implies num[#[trigger] gray2[i] as int] < num[#[trigger] gray2[j] as int] by {
        assert(gray2[i] == gray[i] && gray2[j] == gray[j]);
    }
}

/// A finished node that stays on the stack dominates the stack from it on.
proof fn lemma_stay_dominates(g: Seq<Seq<usize>>, vis: Seq<bool>, st: Seq<usize>, num: Seq<usize>, low: Seq<usize>, gray: Seq<usize>, counter: int)
    requires
        dfs_shape(g, vis, st, num, low, gray, counter),
        gray.len() > 0,
        low_dominates(st, num, low, gray, counter + 1),
        finished_low(st, num, low, gray),
        low[gray.last() as int] < num[gray.last() as int],
    ensures
        low_dominates(st, num, low, gray.drop_last(), num[gray.last() as int] as int),
        finished_low(st, num, low, gray.drop_last()),
        forall|k: int| 0 <= k < st.len() && !gray.drop_last().contains(#[trigger] st[k]) && num[st[k] as int] >= num[gray.last() as int]
            ==> low[gray.last() as int] <= low[st[k] as int],
{
    let r = gray.last();
    let gray2 = gray.drop_last();
    lemma_drop_basics(g, vis, st, num, low, gray, counter);
    assert forall|i: int, k: int| #![trigger gray2[i], st[k]]
        0 <= i < gray2.len() && 0 <= k < st.len() && !gray2.contains(st[k])
        && num[gray2[i] as int] < num[st[k] as int]
        && (i + 1 < gray2.len() ==> num[st[k] as int] < num[gray2[i + 1] as int])
        && (i + 1 == gray2.len() ==> num[st[k] as int] < num[r as int])
        implies low[gray2[i] as int] <= low[st[k] as int] by {
        assert(gray2[i] == gray[i]);
        if i + 1 < gray2.len() {
            assert(gray2[i + 1] == gray[i + 1]);
            assert(num[gray[i + 1] as int] < num[r as int]);
        } else {
            assert(gray[i + 1] == r);
        }
        assert(st[k] != r);
        assert(!gray.contains(st[k]));
    }
    assert forall|k: int| 0 <= k < st.len() && !gray2.contains(#[trigger] st[k]) implies low[st[k] as int] < num[st[k] as int] by {
        if st[k] != r {
            assert(!gray.contains(st[k]));
        }
    }
    assert forall|k: int| 0 <= k < st.len() && !gray2.contains(#[trigger] st[k]) && num[st[k] as int] >= num[r as int]
        implies low[r as int] <= low[st[k] as int] by {
        if st[k] != r {
            assert(!gray.contains(st[k]));
            assert(vis[st[k] as int]);
            let i = gray.len() - 1;
            assert(gray[i] == r);
            assert(num[st[k] as int] != num[r as int]);
            assert(low[gray[i] as int] <= low[st[k] as int]);
        }
    }
}

/// Finishing the innermost node in progress accounts for its successors.
proof fn lemma_drop_edges(g: Seq<Seq<usize>>, vis: Seq<bool>, st: Seq<usize>, num: Seq<usize>, low: Seq<usize>, gray: Seq<usize>, counter: int)
    requires
        dfs_shape(g, vis, st, num, low, gray, counter),
        gray.len() > 0,
        finished_edges(g, vis, st, num, low, gray),
        succs_done(g, vis, st, num, low, gray.last()),
    ensures
        finished_edges(g, vis, st, num, low, gray.drop_last()),
{
    let r = gray.last();
    let gray2 = gray.drop_last();
    lemma_drop_basics(g, vis, st, num, low, gray, counter);
    assert forall|x: int, j: int| 0 <= x < g.len() && 0 <= j < g[x].len() && vis[x] && !gray2.contains(x as usize) implies {
        &&& vis[#[trigger] g[x][j] as int]
        &&& st.contains(g[x][j]) && num[g[x][j] as int] < num[x] ==> low[x] <= num[g[x][j] as int]
    } by {
        if x == r as int {
            assert(g[r as int][j] == g[x][j]);
        } else {
            assert(x as usize != r);
            assert(!gray.contains(x as usize));
        }
    }
}

/// Finishing the innermost node in progress when its low link is below its
/// number: it stays on the stack, and it dominates the stack from it on.
pub proof fn lemma_tarjan_finish_stay(
    g: Seq<Seq<usize>>,
    vis: Seq<bool>,
    st: Seq<usize>,
    num: Seq<usize>,
    low: Seq<usize>,
    gray: Seq<usize>,
    comps: Seq<Seq<usize>>,
    counter: int,
)
    requires
        tarjan_inv(g, vis, st, num, low, gray, comps, counter, counter + 1),
        gray.len() > 0,
        low[gray.last() as int] < num[gray.last() as int],
        succs_done(g, vis, st, num, low, gray.last()),
    ensures
        tarjan_inv(g, vis, st, num, low, gray.drop_last(), comps, counter, num[gray.last() as int] as int),
        forall|k: int| 0 <= k < st.len() && !gray.drop_last().contains(#[trigger] st[k]) && num[st[k] as int] >= num[gray.last() as int]
            ==> low[gray.last() as int] <= low[st[k] as int],
{
    let gray2 = gray.drop_last();
    lemma_drop_basics(g, vis, st, num, low, gray, counter);
    lemma_stay_dominates(g, vis, st, num, low, gray, counter);
    lemma_drop_edges(g, vis, st, num, low, gray, counter);
    assert(gray_reaches(g, st, num, gray2)) by {
        assert forall|i: int, k: int| #![trigger gray2[i], st[k]]
            0 <= i < gray2.len() && 0 <= k < st.len() && num[gray2[i] as int] <= num[st[k] as int]
            implies reaches(g, gray2[i], st[k]) by {
            assert(gray2[i] == gray[i]);
        }
    }
}

} // verus!

verus! {

/// `x` stands on the stack at `idx` or above.
pub open spec fn on_top(st: Seq<usize>, idx: int, x: usize) -> bool {
    exists|k: int| idx <= k < st.len() && #[trigger] st[k] == x
}

/// The facts about the top of the stack, from the root of a finished search on.
proof fn lemma_top_order(g: Seq<Seq<usize>>, vis: Seq<bool>, st: Seq<usize>, num: Seq<usize>, low: Seq<usize>, gray: Seq<usize>, counter: int, idx: int)
    requires
        dfs_shape(g, vis, st, num, low, gray, counter),
        gray.len() > 0,
        0 <= idx < st.len(),
        st[idx] == gray.last(),
    ensures
        forall|k: int| idx <= k < st.len() ==> num[#[trigger] st[k] as int] >= num[gray.last() as int],
        forall|k: int| 0 <= k < idx ==> num[#[trigger] st[k] as int] < num[gray.last() as int],
        forall|i: int, j: int| 0 <= i < st.len() && 0 <= j < st.len() && i != j ==> #[trigger] st[i] != #[trigger] st[j],
        forall|k: int| idx < k < st.len() ==> !gray.contains(#[trigger] st[k]),
        forall|k: int| 0 <= k < st.len() ==> 1 <= num[#[trigger] st[k] as int] <= counter,
{
    let r = gray.last();
    assert forall|k: int| idx <= k < st.len() implies num[#[trigger] st[k] as int] >= num[r as int] by {
        if k > idx { assert(num[st[idx] as int] < num[st[k] as int]); }
    }
    assert forall|k: int| 0 <= k < idx implies num[#[trigger] st[k] as int] < num[r as int] by {
        assert(num[st[k] as int] < num[st[idx] as int]);
    }
    assert forall|i: int, j: int| 0 <= i < st.len() && 0 <= j < st.len() && i != j implies #[trigger] st[i] != #[trigger] st[j] by {
        if i < j { assert(num[st[i] as int] < num[st[j] as int]); } else { assert(num[st[j] as int] < num[st[i] as int]); }
    }
    assert forall|k: int| idx < k < st.len() implies !gray.contains(#[trigger] st[k]) by {
        if gray.contains(st[k]) {
            let t = choose|t: int| 0 <= t < gray.len() && gray[t] == st[k];
            if t < gray.len() - 1 {
                assert(num[gray[t] as int] < num[gray[gray.len() - 1] as int]);
            }
            assert(num[st[idx] as int] < num[st[k] as int]);
        }
    }
    assert forall|k: int| 0 <= k < st.len() implies 1 <= num[#[trigger] st[k] as int] <= counter by {
        assert(vis[st[k] as int]);
    }
}

/// Each node on the top of the stack reaches the root.
proof fn lemma_top_reaches_root(g: Seq<Seq<usize>>, vis: Seq<bool>, st: Seq<usize>, num: Seq<usize>, low: Seq<usize>, gray: Seq<usize>, counter: int, idx: int, k: int)
    requires
        dfs_shape(g, vis, st, num, low, gray, counter),
        low_witnessed(g, st, num, low),
        low_dominates(st, num, low, gray, counter + 1),
        finished_low(st, num, low, gray),
        gray.len() > 0,
        0 <= idx < st.len(),
        st[idx] == gray.last(),
        low[gray.last() as int] == num[gray.last() as int],
        idx <= k < st.len(),
    ensures
        reaches(g, st[k], gray.last()),
    decreases k,
{
    let r = gray.last();
    lemma_top_order(g, vis, st, num, low, gray, counter, idx);
    if k == idx {
        lemma_reaches_refl(g, r);
    } else {
        let y = st[k];
        assert(!gray.contains(y));
        let i = gray.len() - 1;
        assert(gray[i] == r);
        assert(num[r as int] < num[y as int]) by {
            assert(num[st[idx] as int] < num[st[k] as int]);
        }
        assert(low[gray[i] as int] <= low[st[k] as int]);
        assert(low[st[k] as int] < num[st[k] as int]);
        let k2 = choose|k2: int| 0 <= k2 < st.len() && num[st[k2] as int] == low[st[k] as int] && reaches(g, st[k], #[trigger] st[k2]);
        if k2 < idx {
            assert(num[st[k2] as int] < num[r as int]);
        }
        if k2 >= k {
            if k2 > k { assert(num[st[k] as int] < num[st[k2] as int]); }
        }
        lemma_top_reaches_root(g, vis, st, num, low, gray, counter, idx, k2);
        lemma_reaches_trans(g, y, st[k2], r);
    }
}

/// Nodes visited and either on the top of the stack or off it: closed under edges.
proof fn lemma_top_closed(g: Seq<Seq<usize>>, vis: Seq<bool>, st: Seq<usize>, num: Seq<usize>, low: Seq<usize>, gray: Seq<usize>, counter: int, idx: int)
    requires
        dfs_shape(g, vis, st, num, low, gray, counter),
        low_dominates(st, num, low, gray, counter + 1),
        finished_edges(g, vis, st, num, low, gray),
        done_closed(g, vis, st),
        gray.len() > 0,
        0 <= idx < st.len(),
        st[idx] == gray.last(),
        low[gray.last() as int] == num[gray.last() as int],
        succs_done(g, vis, st, num, low, gray.last()),
    ensures
        forall|x: usize, z: usize| x < g.len() && vis[x as int] && (on_top(st, idx, x) || !st.contains(x)) && #[trigger] has_edge(g, x, z)
            ==> z < g.len() && vis[z as int] && (on_top(st, idx, z) || !st.contains(z)),
        forall|x: usize, z: usize| x < g.len() && vis[x as int] && !st.contains(x) && #[trigger] has_edge(g, x, z)
            ==> z < g.len() && vis[z as int] && !st.contains(z),
{
    let r = gray.last();
    lemma_top_order(g, vis, st, num, low, gray, counter, idx);
    assert forall|x: usize, z: usize| x < g.len() && vis[x as int] && !st.contains(x) && #[trigger] has_edge(g, x, z)
        implies z < g.len() && vis[z as int] && !st.contains(z) by {
        let j = choose|j: int| 0 <= j < g[x as int].len() && g[x as int][j] == z;
        if gray.contains(x) {
            let t = choose|t: int| 0 <= t < gray.len() && gray[t] == x;
            assert(st.contains(gray[t]));
        }
        assert(vis[g[x as int][j] as int]);
        assert(!st.contains(g[x as int][j]));
    }
    assert forall|x: usize, z: usize| x < g.len() && vis[x as int] && (on_top(st, idx, x) || !st.contains(x)) && #[trigger] has_edge(g, x, z)
        implies z < g.len() && vis[z as int] && (on_top(st, idx, z) || !st.contains(z)) by {
        let j = choose|j: int| 0 <= j < g[x as int].len() && g[x as int][j] == z;
        assert(g[x as int][j] < g.len());
        if on_top(st, idx, x) {
            let kx = choose|k: int| idx <= k < st.len() && #[trigger] st[k] == x;
            if st.contains(z) && !on_top(st, idx, z) {
                let kz = choose|k: int| 0 <= k < st.len() && st[k] == z;
                if kz >= idx { assert(on_top(st, idx, z)); }
                assert(num[z as int] < num[r as int]);
                if x == r {
                    assert(g[r as int][j] == z);
                    assert(low[r as int] <= num[z as int]);
                } else {
                    assert(kx > idx);
                    assert(!gray.contains(x));
                    assert(vis[g[x as int][j] as int]);
                    assert(low[x as int] <= num[z as int]);
                    let i = gray.len() - 1;
                    assert(gray[i] == r);
                    assert(low[gray[i] as int] <= low[st[kx] as int]);
                }
            }
            if x == r {
                assert(vis[g[r as int][j] as int]);
            } else {
                assert(kx > idx);
                assert(!gray.contains(x));
                assert(vis[g[x as int][j] as int]);
            }
        }
    }
}

} // verus!

verus! {

/// The top of the stack from the root of a finished search is exactly the
/// component of each node on it.
proof fn lemma_top_scc(g: Seq<Seq<usize>>, vis: Seq<bool>, st: Seq<usize>, num: Seq<usize>, low: Seq<usize>, gray: Seq<usize>, comps: Seq<Seq<usize>>, counter: int, idx: int)
    requires
        tarjan_inv(g, vis, st, num, low, gray, comps, counter, counter + 1),
        gray.len() > 0,
        0 <= idx < st.len(),
        st[idx] == gray.last(),
        low[gray.last() as int] == num[gray.last() as int],
        succs_done(g, vis, st, num, low, gray.last()),
    ensures
        forall|m: usize, y: usize| on_top(st, idx, m) ==> (#[trigger] same_scc(g, m, y) <==> on_top(st, idx, y)),
{
    let r = gray.last();
    lemma_top_order(g, vis, st, num, low, gray, counter, idx);
    lemma_top_closed(g, vis, st, num, low, gray, counter, idx);
    assert forall|k: int| idx <= k < st.len() implies reaches(g, r, #[trigger] st[k]) && reaches(g, st[k], r) by {
        lemma_top_reaches_root(g, vis, st, num, low, gray, counter, idx, k);
        let i = gray.len() - 1;
        assert(gray[i] == r);
        assert(num[gray[i] as int] <= num[st[k] as int]);
    }
    let a = |x: usize| x < g.len() && vis[x as int] && (on_top(st, idx, x) || !st.contains(x));
    let b = |x: usize| x < g.len() && vis[x as int] && !st.contains(x);
    assert forall|y: usize| #[trigger] same_scc(g, r, y) implies on_top(st, idx, y) by {
        assert(on_top(st, idx, r)) by { assert(st[idx] == r); }
        assert(vis[r as int]) by { assert(vis[st[idx] as int]); }
        lemma_closed_reach(g, a, r, y);
        if !on_top(st, idx, y) {
            assert(b(y));
            lemma_closed_reach(g, b, y, r);
            assert(st.contains(r)) by { assert(st[idx] == r); }
        }
    }
    assert forall|m: usize, y: usize| on_top(st, idx, m) implies (#[trigger] same_scc(g, m, y) <==> on_top(st, idx, y)) by {
        let km = choose|k: int| idx <= k < st.len() && #[trigger] st[k] == m;
        assert(reaches(g, r, st[km]) && reaches(g, st[km], r));
        if same_scc(g, m, y) {
            lemma_reaches_trans(g, r, m, y);
            lemma_reaches_trans(g, y, m, r);
            assert(same_scc(g, r, y));
        }
        if on_top(st, idx, y) {
            let ky = choose|k: int| idx <= k < st.len() && #[trigger] st[k] == y;
            assert(reaches(g, r, st[ky]) && reaches(g, st[ky], r));
            lemma_reaches_trans(g, m, r, y);
            lemma_reaches_trans(g, y, r, m);
        }
    }
}

} // verus!

verus! {

/// How the stack splits at `idx`.
proof fn lemma_split_facts(g: Seq<Seq<usize>>, vis: Seq<bool>, st: Seq<usize>, num: Seq<usize>, low: Seq<usize>, gray: Seq<usize>, counter: int, idx: int)
    requires
        dfs_shape(g, vis, st, num, low, gray, counter),
        gray.len() > 0,
        0 <= idx < st.len(),
        st[idx] == gray.last(),
    ensures
        forall|x: usize| #[trigger] st.take(idx).contains(x) ==> st.contains(x) && !on_top(st, idx, x) && num[x as int] < num[gray.last() as int],
        forall|x: usize| #[trigger] st.contains(x) ==> st.take(idx).contains(x) || on_top(st, idx, x),
        forall|x: usize| #[trigger] gray.drop_last().contains(x) <==> gray.contains(x) && x != gray.last(),
        forall|x: usize| gray.contains(x) ==> #[trigger] st.contains(x),
        forall|x: usize| gray.contains(x) && x != gray.last() ==> #[trigger] st.take(idx).contains(x),
{
    let st2 = st.take(idx);
    lemma_top_order(g, vis, st, num, low, gray, counter, idx);
    lemma_drop_basics(g, vis, st, num, low, gray, counter);
    assert forall|x: usize| #[trigger] st2.contains(x) implies st.contains(x) && !on_top(st, idx, x) && num[x as int] < num[gray.last() as int] by {
        let k = choose|k: int| 0 <= k < st2.len() && st2[k] == x;
        assert(st[k] == x);
        if on_top(st, idx, x) {
            let k2 = choose|k2: int| idx <= k2 < st.len() && #[trigger] st[k2] == x;
        }
    }
    assert forall|x: usize| #[trigger] st.contains(x) implies st2.contains(x) || on_top(st, idx, x) by {
        let k = choose|k: int| 0 <= k < st.len() && st[k] == x;
        if k < idx { assert(st2[k] == x); } else { assert(st[k] == x); }
    }
    assert forall|x: usize| gray.contains(x) implies #[trigger] st.contains(x) by {
        let t = choose|t: int| 0 <= t < gray.len() && gray[t] == x;
        assert(st.contains(gray[t]));
    }
    assert forall|x: usize| gray.contains(x) && x != gray.last() implies #[trigger] st2.contains(x) by {
        let t = choose|t: int| 0 <= t < gray.len() && gray[t] == x;
        assert(st.contains(gray[t]));
        assert(t < gray.len() - 1);
        assert(num[gray[t] as int] < num[gray.last() as int]);
        let k = choose|k: int| 0 <= k < st.len() && st[k] == x;
        if k >= idx {
            assert(num[st[k] as int] >= num[gray.last() as int]);
        }
        assert(st2[k] == x);
    }
}

/// Popping the component of a finished root keeps the shape, the walks and the low links.
#[verifier::spinoff_prover]
#[verifier::rlimit(40)]
proof fn lemma_pop_stack(g: Seq<Seq<usize>>, vis: Seq<bool>, st: Seq<usize>, num: Seq<usize>, low: Seq<usize>, gray: Seq<usize>, comps: Seq<Seq<usize>>, counter: int, idx: int)
    requires
        tarjan_inv(g, vis, st, num, low, gray, comps, counter, counter + 1),
        gray.len() > 0,
        0 <= idx < st.len(),
        st[idx] == gray.last(),
        low[gray.last() as int] == num[gray.last() as int],
        succs_done(g, vis, st, num, low, gray.last()),
    ensures
        dfs_shape(g, vis, st.take(idx), num, low, gray.drop_last(), counter),
        gray_reaches(g, st.take(idx), num, gray.drop_last()),
        low_witnessed(g, st.take(idx), num, low),
        low_dominates(st.take(idx), num, low, gray.drop_last(), counter + 1),
        finished_low(st.take(idx), num, low, gray.drop_last()),
{
    let r = gray.last();
    let st2 = st.take(idx);
    let gray2 = gray.drop_last();
    lemma_top_order(g, vis, st, num, low, gray, counter, idx);
    lemma_split_facts(g, vis, st, num, low, gray, counter, idx);
    assert forall|k: int| 0 <= k < st2.len() implies (#[trigger] st2[k]) < g.len() && vis[st2[k] as int] by {
        assert(st2[k] == st[k]);
    }
    assert forall|i: int, j: int| 0 <= i < j < st2.len() implies num[#[trigger] st2[i] as int] < num[#[trigger] st2[j] as int] by {
        assert(st2[i] == st[i] && st2[j] == st[j]);
    }
    assert forall|i: int| 0 <= i < gray2.len() implies st2.contains(#[trigger] gray2[i]) by {
        assert(gray2[i] == gray[i]);
        assert(gray.contains(gray[i]));
        assert(num[gray[i] as int] < num[gray[gray.len() - 1] as int]);
    }
    assert forall|i: int, j: int| 0 <= i < j < gray2.len() implies num[#[trigger] gray2[i] as int] < num[#[trigger] gray2[j] as int] by {
        assert(gray2[i] == gray[i] && gray2[j] == gray[j]);
    }
    assert forall|i: int, k: int| #![trigger gray2[i], st2[k]]
        0 <= i < gray2.len() && 0 <= k < st2.len() && num[gray2[i] as int] <= num[st2[k] as int]
        implies reaches(g, gray2[i], st2[k]) by {
        assert(gray2[i] == gray[i] && st2[k] == st[k]);
    }
    assert forall|k: int| 0 <= k < st2.len() implies {
        &&& #[trigger] low[st2[k] as int] <= num[st2[k] as int]
        &&& exists|k2: int| 0 <= k2 < st2.len() && num[st2[k2] as int] == low[st2[k] as int] && reaches(g, st2[k], #[trigger] st2[k2])
    } by {
        assert(st2[k] == st[k]);
        let k2 = choose|k2: int| 0 <= k2 < st.len() && num[st[k2] as int] == low[st[k] as int] && reaches(g, st[k], #[trigger] st[k2]);
        assert(num[st[k] as int] < num[r as int]);
        if k2 >= idx {
            assert(num[st[k2] as int] >= num[r as int]);
        }
        assert(st2[k2] == st[k2]);
    }
    assert forall|i: int, k: int| #![trigger gray2[i], st2[k]]
        0 <= i < gray2.len() && 0 <= k < st2.len() && !gray2.contains(st2[k])
        && num[gray2[i] as int] < num[st2[k] as int]
        && (i + 1 < gray2.len() ==> num[st2[k] as int] < num[gray2[i + 1] as int])
        && (i + 1 == gray2.len() ==> num[st2[k] as int] < counter + 1)
        implies low[gray2[i] as int] <= low[st2[k] as int] by {
        assert(gray2[i] == gray[i] && st2[k] == st[k]);
        assert(st[k] != r) by { assert(st[idx] == r); }
        assert(!gray.contains(st[k]));
        if i + 1 < gray2.len() {
            assert(gray2[i + 1] == gray[i + 1]);
        } else {
            assert(gray[i + 1] == r);
            assert(num[st[k] as int] < num[r as int]);
        }
    }
    assert forall|k: int| 0 <= k < st2.len() && !gray2.contains(#[trigger] st2[k]) implies low[st2[k] as int] < num[st2[k] as int] by {
        assert(st2[k] == st[k]);
        assert(st[k] != r) by { assert(st[idx] == r); }
        assert(!gray.contains(st[k]));
    }
}

/// Popping the component of a finished root keeps the finished nodes accounted for and the nodes off the stack closed.
proof fn lemma_pop_edges(g: Seq<Seq<usize>>, vis: Seq<bool>, st: Seq<usize>, num: Seq<usize>, low: Seq<usize>, gray: Seq<usize>, comps: Seq<Seq<usize>>, counter: int, idx: int)
    requires
        tarjan_inv(g, vis, st, num, low, gray, comps, counter, counter + 1),
        gray.len() > 0,
        0 <= idx < st.len(),
        st[idx] == gray.last(),
        low[gray.last() as int] == num[gray.last() as int],
        succs_done(g, vis, st, num, low, gray.last()),
    ensures
        finished_edges(g, vis, st.take(idx), num, low, gray.drop_last()),
        done_closed(g, vis, st.take(idx)),
{
    let r = gray.last();
    let st2 = st.take(idx);
    let gray2 = gray.drop_last();
    lemma_split_facts(g, vis, st, num, low, gray, counter, idx);
    lemma_top_closed(g, vis, st, num, low, gray, counter, idx);
    lemma_drop_basics(g, vis, st, num, low, gray, counter);
    assert forall|x: int, j: int| 0 <= x < g.len() && 0 <= j < g[x].len() && vis[x] && !gray2.contains(x as usize) implies {
        &&& vis[#[trigger] g[x][j] as int]
        &&& st2.contains(g[x][j]) && num[g[x][j] as int] < num[x] ==> low[x] <= num[g[x][j] as int]
    } by {
        if x == r as int {
            assert(g[r as int][j] == g[x][j]);
        } else {
            assert(x as usize != r);
            assert(!gray.contains(x as usize));
        }
    }
    assert forall|x: int, j: int| 0 <= x < g.len() && 0 <= j < g[x].len() && vis[x] && !st2.contains(x as usize)
        implies !st2.contains(#[trigger] g[x][j]) by {
        let z = g[x][j];
        let xu = x as usize;
        assert(has_edge(g, xu, z)) by { assert(g[xu as int][j] == z); }
        if st.contains(xu) {
            assert(on_top(st, idx, xu));
        }
    }
}

/// Popping the component of a finished root records it exactly, when it holds more than one node.
proof fn lemma_pop_comps(g: Seq<Seq<usize>>, vis: Seq<bool>, st: Seq<usize>, num: Seq<usize>, low: Seq<usize>, gray: Seq<usize>, comps: Seq<Seq<usize>>, counter: int, idx: int, cseq: Seq<usize>)
    requires
        tarjan_inv(g, vis, st, num, low, gray, comps, counter, counter + 1),
        gray.len() > 0,
        0 <= idx < st.len(),
        st[idx] == gray.last(),
        low[gray.last() as int] == num[gray.last() as int],
        succs_done(g, vis, st, num, low, gray.last()),
        cseq.len() == st.len() - idx,
        forall|t: int| 0 <= t < cseq.len() ==> #[trigger] cseq[t] == st[st.len() - 1 - t],
    ensures
        comps_exact(g, vis, st.take(idx), if cseq.len() > 1 { comps.push(cseq) } else { comps }),
        comps_complete(g, vis, st.take(idx), if cseq.len() > 1 { comps.push(cseq) } else { comps }),
{
    let st2 = st.take(idx);
    let comps2 = if cseq.len() > 1 { comps.push(cseq) } else { comps };
    lemma_split_facts(g, vis, st, num, low, gray, counter, idx);
    lemma_top_order(g, vis, st, num, low, gray, counter, idx);
    lemma_top_scc(g, vis, st, num, low, gray, comps, counter, idx);
    assert forall|y: usize| #[trigger] cseq.contains(y) <==> on_top(st, idx, y) by {
        if cseq.contains(y) {
            let t = choose|t: int| 0 <= t < cseq.len() && cseq[t] == y;
            assert(st[st.len() - 1 - t] == y);
        }
        if on_top(st, idx, y) {
            let k = choose|k: int| idx <= k < st.len() && #[trigger] st[k] == y;
            let t = st.len() - 1 - k;
            assert(cseq[t] == y);
        }
    }
    assert(cseq.no_duplicates()) by {
        assert forall|a: int, b: int| 0 <= a < cseq.len() && 0 <= b < cseq.len() && a != b implies cseq[a] != cseq[b] by {
            assert(cseq[a] == st[st.len() - 1 - a] && cseq[b] == st[st.len() - 1 - b]);
        }
    }
    assert forall|m: int| 0 <= m < cseq.len() implies {
        &&& (#[trigger] cseq[m]) < g.len()
        &&& vis[cseq[m] as int]
        &&& !st2.contains(cseq[m])
        &&& forall|y: usize| #[trigger] same_scc(g, cseq[m], y) <==> cseq.contains(y)
    } by {
        let k = st.len() - 1 - m;
        assert(cseq[m] == st[k]);
        assert(on_top(st, idx, st[k]));
        assert(cseq.contains(cseq[m]));
    }
    assert forall|c: int| 0 <= c < comps2.len() implies {
        &&& (#[trigger] comps2[c]).len() > 1
        &&& comps2[c].no_duplicates()
        &&& forall|m: int| 0 <= m < comps2[c].len() ==> {
            &&& (#[trigger] comps2[c][m]) < g.len()
            &&& vis[comps2[c][m] as int]
            &&& !st2.contains(comps2[c][m])
            &&& forall|y: usize| #[trigger] same_scc(g, comps2[c][m], y) <==> comps2[c].contains(y)
        }
    } by {
        if c < comps.len() {
            assert(comps2[c] == comps[c]);
        } else {
            assert(comps2[c] == cseq);
        }
    }
    assert forall|x: usize| x < g.len() && vis[x as int] && !st2.contains(x) && #[trigger] scc_nontrivial(g, x)
        implies exists|c: int| 0 <= c < comps2.len() && #[trigger] comps2[c].contains(x) by {
        if st.contains(x) {
            assert(on_top(st, idx, x));
            let y = choose|y: usize| y != x && #[trigger] same_scc(g, x, y);
            assert(cseq.contains(x) && cseq.contains(y));
            if cseq.len() <= 1 {
                let a = choose|a: int| 0 <= a < cseq.len() && cseq[a] == x;
                let b = choose|b: int| 0 <= b < cseq.len() && cseq[b] == y;
            }
            assert(comps2[comps.len() as int] == cseq);
        } else {
            let c = choose|c: int| 0 <= c < comps.len() && #[trigger] comps[c].contains(x);
            assert(comps2[c] == comps[c]);
        }
    }
}

/// Finishing the innermost node in progress when its low link equals its
/// number: the stack from it on is popped and is its whole component,
/// recorded when it holds more than one node.
pub proof fn lemma_tarjan_finish_pop(
    g: Seq<Seq<usize>>,
    vis: Seq<bool>,
    st: Seq<usize>,
    num: Seq<usize>,
    low: Seq<usize>,
    gray: Seq<usize>,
    comps: Seq<Seq<usize>>,
    counter: int,
    idx: int,
    cseq: Seq<usize>,
)
    requires
        tarjan_inv(g, vis, st, num, low, gray, comps, counter, counter + 1),
        gray.len() > 0,
        0 <= idx < st.len(),
        st[idx] == gray.last(),
        low[gray.last() as int] == num[gray.last() as int],
        succs_done(g, vis, st, num, low, gray.last()),
        cseq.len() == st.len() - idx,
        forall|t: int| 0 <= t < cseq.len() ==> #[trigger] cseq[t] == st[st.len() - 1 - t],
    ensures
        tarjan_inv(g, vis, st.take(idx), num, low, gray.drop_last(), if cseq.len() > 1 { comps.push(cseq) } else { comps }, counter, counter + 1),
{
    lemma_pop_stack(g, vis, st, num, low, gray, comps, counter, idx);
    lemma_pop_edges(g, vis, st, num, low, gray, comps, counter, idx);
    lemma_pop_comps(g, vis, st, num, low, gray, comps, counter, idx, cseq);
    lemma_pop_order(g, vis, st, num, low, gray, comps, counter, idx, cseq);
}

/// The component popped lists the stack from its top down to the root, in
/// decreasing numbers, and no edge leads into it from a component recorded
/// before, whose nodes had left the stack.
proof fn lemma_pop_order(
    g: Seq<Seq<usize>>,
    vis: Seq<bool>,
    st: Seq<usize>,
    num: Seq<usize>,
    low: Seq<usize>,
    gray: Seq<usize>,
    comps: Seq<Seq<usize>>,
    counter: int,
    idx: int,
    cseq: Seq<usize>,
)
    requires
        tarjan_inv(g, vis, st, num, low, gray, comps, counter, counter + 1),
        0 <= idx < st.len(),
        cseq.len() == st.len() - idx,
        forall|t: int| 0 <= t < cseq.len() ==> #[trigger] cseq[t] == st[st.len() - 1 - t],
    ensures
        comps_ordered(g, num, comps.push(cseq)),
{
    reveal(comps_ordered);
    let cs = comps.push(cseq);
    assert forall|c: int, t: int, u: int| 0 <= c < cs.len() && 0 <= t < u < cs[c].len()
        implies num[#[trigger] cs[c][t] as int] > num[#[trigger] cs[c][u] as int] by {
        if c < comps.len() {
            assert(cs[c] == comps[c]);
        } else {
            assert(cs[c] == cseq);
            assert(cseq[t] == st[st.len() - 1 - t] && cseq[u] == st[st.len() - 1 - u]);
        }
    }
    assert forall|c: int, d: int, m: int, j: int| #![trigger cs[d], g[cs[c][m] as int][j]]
        0 <= c < d < cs.len() && 0 <= m < cs[c].len() && 0 <= j < g[cs[c][m] as int].len()
        implies !cs[d].contains(g[cs[c][m] as int][j]) by {
        assert(cs[c] == comps[c]);
        if d < comps.len() {
            assert(cs[d] == comps[d]);
        } else {
            let x = comps[c][m];
            assert(vis[x as int] && !st.contains(x));
            let y = g[x as int][j];
            assert(!st.contains(y));
            assert(cs[d] == cseq);
            if cseq.contains(y) {
                let t = choose|t: int| 0 <= t < cseq.len() && cseq[t] == y;
                assert(st[st.len() - 1 - t] == y);
            }
        }
    }
}

} // verus!

verus! {

/// The low link of a stack node is no greater than its number and is the
/// number of a stack node it reaches.
pub proof fn lemma_tarjan_low_link(
    g: Seq<Seq<usize>>,
    vis: Seq<bool>,
    st: Seq<usize>,
    num: Seq<usize>,
    low: Seq<usize>,
    gray: Seq<usize>,
    comps: Seq<Seq<usize>>,
    counter: int,
    cut: int,
    k: int,
)
    requires
        tarjan_inv(g, vis, st, num, low, gray, comps, counter, cut),
        0 <= k < st.len(),
    ensures
        low[st[k] as int] <= num[st[k] as int],
        exists|k2: int| 0 <= k2 < st.len() && num[st[k2] as int] == low[st[k] as int] && reaches(g, st[k], #[trigger] st[k2]),
{
    assert(low_witnessed(g, st, num, low));
    assert(low[st[k] as int] <= num[st[k] as int]);
}

} // verus!

verus! {

/// Between searches, with the stack empty and no node in progress: the
/// recorded components are exact, every visited node whose component holds
/// another node is in one of them, and the visited nodes are closed under
/// edges.
pub proof fn lemma_tarjan_idle(
    g: Seq<Seq<usize>>,
    vis: Seq<bool>,
    st: Seq<usize>,
    num: Seq<usize>,
    low: Seq<usize>,
    gray: Seq<usize>,
    comps: Seq<Seq<usize>>,
    counter: int,
    cut: int,
)
    requires
        tarjan_inv(g, vis, st, num, low, gray, comps, counter, cut),
        st.len() == 0,
        gray.len() == 0,
    ensures
        comps_exact(g, vis, st, comps),
        comps_complete(g, vis, st, comps),
        forall|x: usize, z: usize| x < g.len() && vis[x as int] && #[trigger] has_edge(g, x, z) ==> vis[z as int],
        adj_wf(g),
        g.len() <= usize::MAX,
{
    assert forall|x: usize, z: usize| x < g.len() && vis[x as int] && #[trigger] has_edge(g, x, z) implies vis[z as int] by {
        let j = choose|j: int| 0 <= j < g[x as int].len() && g[x as int][j] == z;
        assert(vis[g[x as int][j] as int]);
    }
}

} // verus!
