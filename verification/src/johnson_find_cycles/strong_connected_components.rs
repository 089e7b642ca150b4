//! Tarjan's search for the strongly connected components of the subgraph
//! induced by the nodes from a given node on.
use vstd::prelude::*;
use crate::johnson_find_cycles::graph::{adj_view, adj_wf, has_edge, induced, is_path, lemma_filter_filter, at_least, edges_within, lemma_subgraph_from_within, count_true, lemma_count_true_bound, lemma_count_true_none, lemma_count_true_set, lemma_filter_take_step, member_of, subgraph_from};
use crate::johnson_find_cycles::scc_result::{copy_adj, SCCResult};
use crate::johnson_find_cycles::tarjan::{comps_complete, comps_exact, comps_ordered, lemma_tarjan_comps, lemma_reaches_edge, lemma_reaches_refl, lemma_tarjan_idle, lemma_tarjan_low_link, lemma_reaches_trans, reaches, same_scc, scc_nontrivial, scc_set, lemma_tarjan_extend_cut, lemma_tarjan_finish_pop, lemma_tarjan_finish_stay, lemma_tarjan_lower, lemma_tarjan_push, lemma_tarjan_start, succs_done, tarjan_inv};
use crate::johnson_find_cycles::subgraph_components::{first_nontrivial, lemma_first_shift, lemma_induced_result, lemma_nontrivial_mono, lemma_nontrivial_somewhere, lemma_reaches_sub_mono, lemma_reached_at_least, lemma_scc_shift, none_nontrivial};
use crate::johnson_find_cycles::vec_util::{copy_vec, empty_lists, falses, vec_contains, zeros};

verus! {

/// The lists a component's adjacency structure gets when the nodes of `walk`
/// are taken in order and each one taken is given its successors in `g` that
/// occur in `members`, appended to what it already has.
pub open spec fn component_lists(g: Seq<Seq<usize>>, walk: Seq<usize>, members: Seq<usize>) -> Seq<Seq<usize>>
    decreases walk.len(),
{
    if walk.len() == 0 {
        Seq::new(g.len(), |i: int| Seq::<usize>::empty())
    } else {
        let prev = component_lists(g, walk.drop_last(), members);
        let v = walk.last();
        prev.update(v as int, prev[v as int] + g[v as int].filter(member_of(members)))
    }
}

/// `comps` lists each component of `g` of more than one node among the
/// nodes marked in `vis` exactly once, as the list of its nodes.
pub open spec fn comps_listed(g: Seq<Seq<usize>>, vis: Seq<bool>, comps: Seq<Seq<usize>>) -> bool {
    &&& comps_exact(g, vis, Seq::empty(), comps)
    &&& comps_complete(g, vis, Seq::empty(), comps)
    &&& comps_disjoint(comps)
}

/// `x` is reached in `g` from a node from `from` to `to`.
pub open spec fn reached_from_range(g: Seq<Seq<usize>>, from: usize, to: usize, x: usize) -> bool {
    exists|t: usize| from <= t <= to && #[trigger] reaches(g, t, x)
}

/// No node belongs to two of the lists.
pub open spec fn comps_disjoint(comps: Seq<Seq<usize>>) -> bool {
    forall|a: int, b: int, i: int, j: int| 0 <= a < b < comps.len() && 0 <= i < comps[a].len() && 0 <= j < comps[b].len()
        ==> #[trigger] comps[a][i] != #[trigger] comps[b][j]
}

/// `v` is the target of some edge of `g`.
pub open spec fn is_edge_target(g: Seq<Seq<usize>>, v: usize) -> bool {
    exists|u: int, k: int| 0 <= u < g.len() && 0 <= k < g[u].len() && g[u][k] == v
}

/// `r` is the first component (in order) that holds the least node id below
/// `bound` found in any component, or `None` when no component holds one.
pub open spec fn is_lowest_component(sccs: Seq<Seq<usize>>, bound: int, r: Option<Seq<usize>>) -> bool {
    match r {
        None => forall|k: int, j: int| 0 <= k < sccs.len() && 0 <= j < sccs[k].len() ==> #[trigger] sccs[k][j] >= bound,
        Some(c) => exists|k: int, j: int| {
            &&& 0 <= k < sccs.len()
            &&& 0 <= j < sccs[k].len()
            &&& c == sccs[k]
            &&& sccs[k][j] < bound
            &&& forall|k2: int, j2: int| 0 <= k2 < sccs.len() && 0 <= j2 < sccs[k2].len()
                ==> #[trigger] sccs[k2][j2] >= sccs[k][j]
            &&& forall|k2: int, j2: int| 0 <= k2 < k && 0 <= j2 < sccs[k2].len()
                ==> #[trigger] sccs[k2][j2] != sccs[k][j]
        },
    }
}

pub struct StrongConnectedComponents {
    adj_list_original: Vec<Vec<usize>>,
    adj_list: Vec<Vec<usize>>,
    visited: Vec<bool>,
    stack: Vec<usize>,
    low_link: Vec<usize>,
    number: Vec<usize>,
    scc_counter: usize,
    current_sccs: Vec<Vec<usize>>,
    /// The nodes whose visit is in progress, outermost first.
    in_progress: Ghost<Seq<usize>>,
    /// The count of numbers given out before the current search began.
    counter_base: Ghost<int>,
    /// How many of the components listed were there before the current search began.
    comps_base: Ghost<int>,
}

impl StrongConnectedComponents {
    /// The graph searched.
    pub closed spec fn original(&self) -> Seq<Seq<usize>> {
        adj_view(self.adj_list_original@)
    }

    /// The subgraph built by the last `make_adj_list_subgraph`.
    pub closed spec fn subgraph(&self) -> Seq<Seq<usize>> {
        adj_view(self.adj_list@)
    }

    /// The components of more than one node listed so far.
    pub closed spec fn components(&self) -> Seq<Seq<usize>> {
        adj_view(self.current_sccs@)
    }

    /// The components found by the current search.
    pub closed spec fn search_components(&self) -> Seq<Seq<usize>> {
        self.components().subrange(self.comps_base@, self.components().len() as int)
    }

    pub closed spec fn visited_nodes(&self) -> Seq<bool> {
        self.visited@
    }

    /// How many nodes are not visited yet.
    pub closed spec fn unvisited(&self) -> nat {
        (self.visited@.len() - count_true(self.visited@)) as nat
    }

    pub closed spec fn counter(&self) -> usize {
        self.scc_counter
    }

    pub closed spec fn low_links(&self) -> Seq<usize> {
        self.low_link@
    }

    pub closed spec fn tarjan_stack(&self) -> Seq<usize> {
        self.stack@
    }

    pub closed spec fn numbers(&self) -> Seq<usize> {
        self.number@
    }

    /// The invariant of Tarjan's search holds of the current search, with the
    /// innermost node in progress dominating the finished stack nodes numbered
    /// below `cut`.
    pub closed spec fn tarjan_at(&self, cut: int) -> bool {
        tarjan_inv(self.subgraph(), self.visited@, self.stack@, self.number@, self.low_link@,
            self.in_progress@, self.search_components(), self.scc_counter as int, cut)
    }

    pub closed spec fn in_progress(&self) -> Seq<usize> {
        self.in_progress@
    }

    /// Everything but the subgraph is the same.
    pub closed spec fn same_search(&self, other: &Self) -> bool {
        &&& self.adj_list_original == other.adj_list_original
        &&& self.visited == other.visited
        &&& self.stack == other.stack
        &&& self.low_link == other.low_link
        &&& self.number == other.number
        &&& self.scc_counter == other.scc_counter
        &&& self.current_sccs == other.current_sccs
        &&& self.in_progress == other.in_progress
    }

    /// The state of a search over the current subgraph is consistent.
    pub closed spec fn search_wf(&self) -> bool {
        let n = self.adj_list@.len();
        &&& adj_wf(self.subgraph())
        &&& self.visited@.len() == n
        &&& self.low_link@.len() == n
        &&& self.number@.len() == n
        &&& self.counter_base@ >= 0
        &&& self.counter_base@ + n <= usize::MAX
        &&& self.scc_counter == self.counter_base@ + count_true(self.visited@)
        &&& forall|v: int| 0 <= v < n && #[trigger] self.visited@[v] ==> 1 <= self.number@[v] <= self.scc_counter
        &&& forall|u: int, v: int| 0 <= u < n && 0 <= v < n && u != v && self.visited@[u] && self.visited@[v]
            ==> #[trigger] self.number@[u] != #[trigger] self.number@[v]
        &&& forall|k: int| 0 <= k < self.stack@.len() ==> {
            &&& (#[trigger] self.stack@[k]) < n
            &&& self.visited@[self.stack@[k] as int]
        }
        &&& forall|i: int, j: int| 0 <= i < j < self.stack@.len()
            ==> self.number@[#[trigger] self.stack@[i] as int] < self.number@[#[trigger] self.stack@[j] as int]
        &&& 0 <= self.comps_base@ <= self.current_sccs@.len()
        &&& forall|k: int, j: int| self.comps_base@ <= k < self.current_sccs@.len() && 0 <= j < self.current_sccs@[k]@.len()
            ==> (#[trigger] self.current_sccs@[k]@[j]) < n
    }

    pub fn new(adj_list: &Vec<Vec<usize>>) -> (r: Self)
        ensures
            r.original() == adj_view(adj_list@),
            r.components().len() == 0,
            r.subgraph().len() == 0,
            r.visited_nodes().len() == 0,
            r.numbers().len() == 0,
            r.low_links().len() == 0,
            r.tarjan_stack().len() == 0,
            r.counter() == 0,
    {
        Self {
            adj_list_original: copy_adj(adj_list),
            adj_list: Vec::new(),
            visited: Vec::new(),
            stack: Vec::new(),
            low_link: Vec::new(),
            number: Vec::new(),
            scc_counter: 0,
            current_sccs: Vec::new(),
            in_progress: Ghost(Seq::empty()),
            counter_base: Ghost(0),
            comps_base: Ghost(0),
        }
    }

    /// Builds the subgraph induced by the nodes `node..`.
    pub fn make_adj_list_subgraph(&mut self, node: usize)
        ensures
            final(self).subgraph() == subgraph_from(old(self).original(), node),
            final(self).original() == old(self).original(),
            final(self).same_search(old(self)),
            final(self).visited_nodes() == old(self).visited_nodes(),
            final(self).numbers() == old(self).numbers(),
            final(self).low_links() == old(self).low_links(),
            final(self).tarjan_stack() == old(self).tarjan_stack(),
            final(self).counter() == old(self).counter(),
            final(self).components() == old(self).components(),
    {
        let n = self.adj_list_original.len();
        self.adj_list = empty_lists(n);
        let ghost g = self.original();
        let mut i = node;
        while i < n
            invariant
                n == self.adj_list_original@.len(),
                g == self.original(),
                node <= i,
                self.adj_list_original == old(self).adj_list_original,
                self.visited == old(self).visited,
                self.stack == old(self).stack,
                self.low_link == old(self).low_link,
                self.number == old(self).number,
                self.scc_counter == old(self).scc_counter,
                self.current_sccs == old(self).current_sccs,
                self.in_progress == old(self).in_progress,
                self.adj_list@.len() == n,
                forall|k: int| 0 <= k < n ==> (#[trigger] self.adj_list@[k])@ == (
                    if node <= k < i { g[k].filter(at_least(node)) } else { Seq::<usize>::empty() }),
            decreases n - i,
        {
            let mut successors: Vec<usize> = Vec::new();
            let mut j: usize = 0;
            while j < self.adj_list_original[i].len()
                invariant
                    i < n,
                    n == self.adj_list_original@.len(),
                    g == self.original(),
                    j <= g[i as int].len(),
                    successors@ == g[i as int].take(j as int).filter(at_least(node)),
                decreases g[i as int].len() - j,
            {
                let w = self.adj_list_original[i][j];
                proof { lemma_filter_take_step(g[i as int], j as int, at_least(node)); }
                if w >= node {
                    successors.push(w);
                }
                j += 1;
            }
            proof { assert(g[i as int].take(j as int) =~= g[i as int]); }
            let ghost prev = self.adj_list@;
            if successors.len() > 0 {
                self.adj_list[i] = successors;
            }
            proof {
                assert(successors@ == g[i as int].filter(at_least(node)));
                assert(self.adj_list@[i as int]@ == g[i as int].filter(at_least(node)));
                assert forall|k: int| 0 <= k < n && k != i implies self.adj_list@[k] == prev[k] by {}
            }
            i += 1;
        }
        proof {
            assert(self.subgraph() =~= subgraph_from(g, node));
        }
    }

    /// The component holding the least node id among those found so far.
    pub fn get_lowest_id_component(&mut self) -> (r: Option<Vec<usize>>)
        ensures
            *final(self) == *old(self),
            is_lowest_component(old(self).components(), old(self).subgraph().len() as int,
                match r { Some(c) => Some(c@), None => None }),
    {
        let ghost sccs = self.components();
        let mut min = self.adj_list.len();
        let ghost n = min as int;
        let mut curr_scc: Option<Vec<usize>> = None;
        let ghost mut wk: int = 0;
        let ghost mut wj: int = 0;
        let mut i: usize = 0;
        while i < self.current_sccs.len()
            invariant
                sccs == self.components(),
                n == self.adj_list@.len(),
                min <= n,
                i <= sccs.len(),
                curr_scc is None ==> min == n,
                forall|k2: int, j2: int| 0 <= k2 < i && 0 <= j2 < sccs[k2].len() ==> #[trigger] sccs[k2][j2] >= min,
                curr_scc matches Some(c) ==> {
                    &&& 0 <= wk < i
                    &&& 0 <= wj < sccs[wk].len()
                    &&& c@ == sccs[wk]
                    &&& sccs[wk][wj] == min
                    &&& min < n
                    &&& forall|k2: int, j2: int| 0 <= k2 < wk && 0 <= j2 < sccs[k2].len() ==> #[trigger] sccs[k2][j2] != min
                },
            decreases sccs.len() - i,
        {
            let scc = &self.current_sccs[i];
            let mut j: usize = 0;
            while j < scc.len()
                invariant
                    sccs == self.components(),
                    n == self.adj_list@.len(),
                    i < sccs.len(),
                    scc@ == sccs[i as int],
                    min <= n,
                    j <= scc@.len(),
                    curr_scc is None ==> min == n,
                    forall|k2: int, j2: int| 0 <= k2 < i && 0 <= j2 < sccs[k2].len() ==> #[trigger] sccs[k2][j2] >= min,
                    forall|j2: int| 0 <= j2 < j ==> #[trigger] sccs[i as int][j2] >= min,
                    curr_scc matches Some(c) ==> {
                        &&& 0 <= wk <= i
                        &&& 0 <= wj < sccs[wk].len()
                        &&& c@ == sccs[wk]
                        &&& sccs[wk][wj] == min
                        &&& min < n
                        &&& forall|k2: int, j2: int| 0 <= k2 < wk && 0 <= j2 < sccs[k2].len() ==> #[trigger] sccs[k2][j2] != min
                    },
                decreases scc@.len() - j,
            {
                let node = scc[j];
                if node < min {
                    curr_scc = Some(copy_vec(scc));
                    min = node;
                    proof {
                        wk = i as int;
                        wj = j as int;
                    }
                }
                j += 1;
            }
            i += 1;
        }
        curr_scc
    }

    /// The adjacency lists of the subgraph restricted to `nodes`.
    pub fn get_adj_list(&mut self, nodes: &Option<Vec<usize>>) -> (r: Option<Vec<Vec<usize>>>)
        requires
            nodes matches Some(v) ==> forall|k: int| 0 <= k < v@.len() ==> #[trigger] v@[k] < old(self).subgraph().len(),
        ensures
            *final(self) == *old(self),
            match (nodes, r) {
                (None, None) => true,
                (Some(v), Some(l)) => adj_view(l@) == component_lists(old(self).subgraph(), v@, v@),
                _ => false,
            },
    {
        let ghost g = self.subgraph();
        let mut lowest_id_adjacency_list: Option<Vec<Vec<usize>>> = None;
        if let Some(nodes) = nodes {
            let mut l = empty_lists(self.adj_list.len());
            proof {
                assert(nodes@.take(0).len() == 0);
                assert(adj_view(l@) =~~= component_lists(g, nodes@.take(0), nodes@));
            }
            let mut i: usize = 0;
            while i < nodes.len()
                invariant
                    g == self.subgraph(),
                    i <= nodes@.len(),
                    forall|k: int| 0 <= k < nodes@.len() ==> #[trigger] nodes@[k] < g.len(),
                    adj_view(l@) == component_lists(g, nodes@.take(i as int), nodes@),
                decreases nodes@.len() - i,
            {
                let node = nodes[i];
                let ghost base = adj_view(l@);
                proof {
                    assert(nodes@.take(i as int + 1).drop_last() =~= nodes@.take(i as int));
                    lemma_component_lists_len(g, nodes@.take(i as int), nodes@);
                }
                let mut j: usize = 0;
                while j < self.adj_list[node].len()
                    invariant
                        g == self.subgraph(),
                        node < g.len(),
                        base.len() == g.len(),
                        l@.len() == g.len(),
                        j <= g[node as int].len(),
                        adj_view(l@) == base.update(node as int, base[node as int] + g[node as int].take(j as int).filter(member_of(nodes@))),
                    decreases g[node as int].len() - j,
                {
                    let succ = self.adj_list[node][j];
                    let ghost row = g[node as int].take(j as int).filter(member_of(nodes@));
                    let ghost next_row = g[node as int].take(j as int + 1).filter(member_of(nodes@));
                    proof {
                        lemma_filter_take_step(g[node as int], j as int, member_of(nodes@));
                        assert(g[node as int][j as int] == succ);
                    }
                    let ghost prev_l = l@;
                    proof {
                        assert(adj_view(prev_l)[node as int] == prev_l[node as int]@);
                        assert(prev_l[node as int]@ == base[node as int] + row);
                    }
                    if vec_contains(nodes, succ) {
                        l[node].push(succ);
                        proof {
                            assert(l@[node as int]@ == prev_l[node as int]@.push(succ));
                            assert(forall|k: int| 0 <= k < l@.len() && k != node ==> l@[k] == prev_l[k]);
                            assert(member_of(nodes@)(succ));
                            assert(next_row == row.push(succ));
                            assert(base[node as int] + next_row =~= (base[node as int] + row).push(succ));
                        }
                    } else {
                        proof {
                            assert(!member_of(nodes@)(succ));
                            assert(next_row == row);
                        }
                    }
                    j += 1;
                    proof {
                        assert(g[node as int].take(j as int).filter(member_of(nodes@)) == next_row);
                        assert(adj_view(l@)[node as int] =~= base[node as int] + next_row);
                        assert forall|k: int| 0 <= k < l@.len() && k != node implies adj_view(l@)[k] == base[k] by {
                            assert(adj_view(prev_l)[k] == base[k]);
                        }
                        assert(adj_view(l@) =~= base.update(node as int, base[node as int] + g[node as int].take(j as int).filter(member_of(nodes@))));
                    }
                }
                i += 1;
                proof {
                    assert(g[node as int].take(j as int) =~= g[node as int]);
                    assert(adj_view(l@) =~= component_lists(g, nodes@.take(i as int), nodes@));
                }
            }
            proof { assert(nodes@.take(i as int) =~= nodes@); }
            lowest_id_adjacency_list = Some(l);
        }
        lowest_id_adjacency_list
    }

    /// Everything a search step keeps: the graphs, what was visited before with
    /// its numbers, and what stood on the stack and in the component list.
    pub closed spec fn grows_from(&self, old: &Self) -> bool {
        let n = old.adj_list@.len();
        &&& self.adj_list_original@ == old.adj_list_original@
        &&& self.subgraph() == old.subgraph()
        &&& self.adj_list@.len() == n
        &&& self.counter_base == old.counter_base
        &&& self.comps_base == old.comps_base
        &&& self.scc_counter >= old.scc_counter
        &&& forall|v: int| 0 <= v < n && #[trigger] old.visited@[v] ==> {
            &&& self.visited@[v]
            &&& self.number@[v] == old.number@[v]
            &&& self.low_link@[v] == old.low_link@[v]
        }
        &&& forall|v: int| 0 <= v < n && #[trigger] self.visited@[v] && !old.visited@[v] ==> self.number@[v] > old.scc_counter
        &&& old.stack@.len() <= self.stack@.len()
        &&& self.stack@.take(old.stack@.len() as int) == old.stack@
        &&& forall|k: int| old.stack@.len() <= k < self.stack@.len() ==> !old.visited@[#[trigger] self.stack@[k] as int]
        &&& old.current_sccs@.len() <= self.current_sccs@.len()
        &&& forall|k: int| 0 <= k < old.current_sccs@.len() ==> #[trigger] self.current_sccs@[k] == old.current_sccs@[k]
        &&& forall|k: int, j: int| old.current_sccs@.len() <= k < self.current_sccs@.len() && 0 <= j < self.current_sccs@[k]@.len()
            ==> !old.visited@[#[trigger] self.current_sccs@[k]@[j] as int] && self.visited@[self.current_sccs@[k]@[j] as int]
        &&& forall|k: int| old.current_sccs@.len() <= k < self.current_sccs@.len() ==> #[trigger] self.current_sccs@[k]@.len() > 1
    }

    /// Every node visited by a search step is its root or the target of an edge.
    pub closed spec fn new_nodes_reached(&self, old: &Self, root: usize) -> bool {
        forall|v: int| 0 <= v < old.adj_list@.len() && #[trigger] self.visited@[v] && !old.visited@[v]
            ==> v == root || is_edge_target(self.subgraph(), v as usize)
    }

    /// Every node visited by a search step is reachable from its root.
    pub closed spec fn new_nodes_reachable(&self, old: &Self, root: usize) -> bool {
        forall|v: usize| v < old.adj_list@.len() && #[trigger] self.visited@[v as int] && !old.visited@[v as int]
            ==> reaches(self.subgraph(), root, v)
    }

    /// After the search from `root`: either `root` stays on the stack with a
    /// low link below its number, no greater than that of the finished stack
    /// nodes numbered from it on, or it has left the stack with its component.
    pub closed spec fn finished_root(&self, prev: &Self, root: usize) -> bool {
        let num = self.number@;
        let low = self.low_link@;
        let st = self.stack@;
        if st.contains(root) {
            &&& low[root as int] < num[root as int]
            &&& self.tarjan_at(num[root as int] as int)
            &&& forall|k: int| 0 <= k < st.len() && !prev.in_progress@.contains(#[trigger] st[k]) && num[st[k] as int] >= num[root as int]
                ==> low[root as int] <= low[st[k] as int]
        } else {
            &&& low[root as int] == num[root as int]
            &&& st.len() == prev.stack@.len()
            &&& self.tarjan_at(self.scc_counter + 1)
        }
    }

    /// Between two searches: the state of the last search is consistent, its
    /// stack is empty and no visit is in progress.
    pub closed spec fn between_searches(&self) -> bool {
        &&& self.search_wf()
        &&& self.tarjan_at(self.scc_counter + 1)
        &&& self.stack@.len() == 0
        &&& self.in_progress@.len() == 0
        &&& comps_disjoint(self.search_components())
    }

    /// What holds between two searches: the stack is empty, the arrays cover
    /// the subgraph, whose successors are nodes of it, and the visited nodes
    /// are closed under its edges.
    pub proof fn lemma_between_searches(&self)
        requires
            self.between_searches(),
        ensures
            self.tarjan_stack().len() == 0,
            adj_wf(self.subgraph()),
            self.visited_nodes().len() == self.subgraph().len(),
            self.numbers().len() == self.subgraph().len(),
            self.low_links().len() == self.subgraph().len(),
            forall|x: usize, z: usize| x < self.subgraph().len() && self.visited_nodes()[x as int]
                && #[trigger] has_edge(self.subgraph(), x, z) ==> self.visited_nodes()[z as int],
    {
        lemma_tarjan_idle(self.subgraph(), self.visited@, self.stack@, self.number@, self.low_link@,
            self.in_progress@, self.search_components(), self.scc_counter as int, self.scc_counter + 1);
    }

    /// Tarjan's search from the unvisited node `root` over the subgraph, with
    /// the stack empty: either between two searches, or with no node visited
    /// yet. It visits exactly the nodes reachable from `root` that were not
    /// visited, and appends to the components listed each component of more
    /// than one node among them, once, as the list of its nodes. No edge leads
    /// from a component appended to one appended after it, and each lists
    /// its nodes from the last numbered in the search to the first. `root`
    /// takes the next number and every node visited after it a greater one,
    /// so `root` comes last in its component.
    #[verifier::spinoff_prover]
    pub fn get_sccs(&mut self, root: usize)
        requires
            root < old(self).subgraph().len(),
            old(self).visited_nodes().len() == old(self).subgraph().len(),
            !old(self).visited_nodes()[root as int],
            old(self).between_searches() || {
                &&& adj_wf(old(self).subgraph())
                &&& old(self).numbers().len() == old(self).subgraph().len()
                &&& old(self).low_links().len() == old(self).subgraph().len()
                &&& forall|x: int| 0 <= x < old(self).visited_nodes().len() ==> !#[trigger] old(self).visited_nodes()[x]
                &&& old(self).tarjan_stack().len() == 0
                &&& old(self).counter() + old(self).subgraph().len() <= usize::MAX
            },
        ensures
            final(self).between_searches(),
            final(self).original() == old(self).original(),
            final(self).subgraph() == old(self).subgraph(),
            final(self).tarjan_stack().len() == 0,
            final(self).visited_nodes().len() == old(self).visited_nodes().len(),
            forall|x: usize| x < old(self).subgraph().len() ==> (#[trigger] final(self).visited_nodes()[x as int]
                <==> old(self).visited_nodes()[x as int] || reaches(old(self).subgraph(), root, x)),
            old(self).components().len() <= final(self).components().len(),
            forall|k: int| 0 <= k < old(self).components().len() ==> #[trigger] final(self).components()[k] == old(self).components()[k],
            forall|k: int| old(self).components().len() <= k < final(self).components().len() ==> {
                &&& (#[trigger] final(self).components()[k]).len() > 1
                &&& final(self).components()[k].no_duplicates()
                &&& forall|m: int| 0 <= m < final(self).components()[k].len() ==> {
                    &&& reaches(old(self).subgraph(), root, #[trigger] final(self).components()[k][m])
                    &&& !old(self).visited_nodes()[final(self).components()[k][m] as int]
                    &&& forall|y: usize| #[trigger] same_scc(old(self).subgraph(), final(self).components()[k][m], y)
                        <==> final(self).components()[k].contains(y)
                }
            },
            forall|x: usize| x < old(self).subgraph().len() && reaches(old(self).subgraph(), root, x) && !old(self).visited_nodes()[x as int]
                && #[trigger] scc_nontrivial(old(self).subgraph(), x) ==> exists|k: int|
                    old(self).components().len() <= k < final(self).components().len() && #[trigger] final(self).components()[k].contains(x),
            comps_disjoint(final(self).components().subrange(old(self).components().len() as int, final(self).components().len() as int)),
            final(self).numbers()[root as int] == old(self).counter() + 1,
            forall|x: int| 0 <= x < old(self).subgraph().len() && #[trigger] final(self).visited_nodes()[x] && !old(self).visited_nodes()[x]
                ==> final(self).numbers()[x] > old(self).counter(),
            forall|k: int, t: int, u: int| old(self).components().len() <= k < final(self).components().len()
                && 0 <= t < u < final(self).components()[k].len()
                ==> final(self).numbers()[#[trigger] final(self).components()[k][t] as int]
                    > final(self).numbers()[#[trigger] final(self).components()[k][u] as int],
            forall|k: int, l: int, m: int, j: int| #![trigger final(self).components()[l], old(self).subgraph()[final(self).components()[k][m] as int][j]]
                old(self).components().len() <= k < l < final(self).components().len() && 0 <= m < final(self).components()[k].len()
                && 0 <= j < old(self).subgraph()[final(self).components()[k][m] as int].len()
                ==> !final(self).components()[l].contains(old(self).subgraph()[final(self).components()[k][m] as int][j]),
    {
        let ghost entry = *self;
        let ghost g = self.subgraph();
        proof {
            if !entry.between_searches() {
                self.in_progress@ = Seq::empty();
                self.counter_base@ = self.scc_counter as int;
                self.comps_base@ = self.current_sccs@.len() as int;
                lemma_count_true_none(self.visited@);
                lemma_tarjan_start(g, self.visited@, self.number@, self.low_link@, self.scc_counter as int);
                assert(self.stack@ =~= Seq::<usize>::empty());
                assert(self.search_components() =~= Seq::<Seq<usize>>::empty());
            }
            assert(self.search_wf());
            assert(self.tarjan_at(self.scc_counter + 1));
        }
        let ghost before = *self;
        self.dfs(root);
        proof {
            let base = before.comps_base@;
            let old_c = entry.components();
            lemma_top_search_done(&before, self, root);
            lemma_tarjan_idle(self.subgraph(), self.visited@, self.stack@, self.number@, self.low_link@,
                self.in_progress@, self.search_components(), self.scc_counter as int, self.scc_counter + 1);
            lemma_tarjan_comps(g, before.visited@, before.stack@, before.number@, before.low_link@,
                before.in_progress@, before.search_components(), before.scc_counter as int, before.scc_counter + 1);
            assert forall|x: usize| x < g.len() implies (#[trigger] self.visited@[x as int] <==> entry.visited@[x as int] || reaches(g, root, x)) by {
                if reaches(g, root, x) {
                    lemma_closed_reach(g, self.visited@, root, x);
                }
                if self.visited@[x as int] && !entry.visited@[x as int] {
                    assert(!before.visited@[x as int]);
                }
            }
            let sc = self.search_components();
            assert forall|k: int| old_c.len() <= k < self.components().len() implies #[trigger] self.components()[k] == sc[k - base] by {}
            assert forall|x: usize| x < g.len() && reaches(g, root, x) && !entry.visited@[x as int] && #[trigger] scc_nontrivial(g, x)
                implies exists|k: int| old_c.len() <= k < self.components().len() && #[trigger] self.components()[k].contains(x) by {
                assert(self.visited@[x as int]);
                let c = choose|c: int| 0 <= c < sc.len() && #[trigger] sc[c].contains(x);
                assert(self.components()[base + c] == sc[c]);
                if base + c < old_c.len() {
                    assert(before.search_components()[c] == before.components()[base + c]);
                    let m = choose|m: int| 0 <= m < sc[c].len() && sc[c][m] == x;
                    assert(before.search_components()[c][m] == x);
                }
            }
            assert forall|k: int| old_c.len() <= k < self.components().len() implies {
                &&& (#[trigger] self.components()[k]).len() > 1
                &&& self.components()[k].no_duplicates()
                &&& forall|m: int| 0 <= m < self.components()[k].len() ==> {
                    &&& reaches(g, root, #[trigger] self.components()[k][m])
                    &&& !entry.visited@[self.components()[k][m] as int]
                    &&& forall|y: usize| #[trigger] same_scc(g, self.components()[k][m], y) <==> self.components()[k].contains(y)
                }
            } by {
                assert(self.components()[k] == sc[k - base]);
                assert forall|m: int| 0 <= m < self.components()[k].len() implies
                    reaches(g, root, #[trigger] self.components()[k][m]) && !entry.visited@[self.components()[k][m] as int] by {
                    let x = self.current_sccs@[k]@[m];
                    assert(self.components()[k][m] == x);
                    assert(!before.visited@[x as int]);
                }
            }
            lemma_tarjan_comps(g, self.visited@, self.stack@, self.number@, self.low_link@,
                self.in_progress@, self.search_components(), self.scc_counter as int, self.scc_counter + 1);
            reveal(comps_ordered);
            let d = old_c.len() - base;
            assert forall|k: int, t: int, u: int| old_c.len() <= k < self.components().len() && 0 <= t < u < self.components()[k].len()
                implies self.numbers()[#[trigger] self.components()[k][t] as int] > self.numbers()[#[trigger] self.components()[k][u] as int] by {
                assert(self.components()[k] == sc[k - base]);
                assert(sc[k - base][t] == self.components()[k][t] && sc[k - base][u] == self.components()[k][u]);
            }
            assert forall|k: int, l: int, m: int, j: int| #![trigger self.components()[l], g[self.components()[k][m] as int][j]]
                old_c.len() <= k < l < self.components().len() && 0 <= m < self.components()[k].len()
                && 0 <= j < g[self.components()[k][m] as int].len()
                implies !self.components()[l].contains(g[self.components()[k][m] as int][j]) by {
                assert(self.components()[k] == sc[k - base] && self.components()[l] == sc[l - base]);
                assert(sc[k - base][m] == self.components()[k][m]);
            }
            let fresh = self.components().subrange(old_c.len() as int, self.components().len() as int);
            assert forall|a: int, b: int, i: int, j: int| 0 <= a < b < fresh.len() && 0 <= i < fresh[a].len() && 0 <= j < fresh[b].len()
                implies #[trigger] fresh[a][i] != #[trigger] fresh[b][j] by {
                let d = old_c.len() - base;
                assert(fresh[a] == sc[a + d] && fresh[b] == sc[b + d]);
            }
        }
    }

    /// Tarjan's depth-first search from `root`: numbers the nodes it reaches
    /// and records each component of more than one node as it completes.
    #[verifier::spinoff_prover]
    fn dfs(&mut self, root: usize)
        requires
            old(self).search_wf(),
            old(self).tarjan_at(old(self).counter() + 1),
            comps_disjoint(old(self).search_components()),
            root < old(self).subgraph().len(),
            !old(self).visited_nodes()[root as int],
            old(self).in_progress().len() > 0 ==> has_edge(old(self).subgraph(), old(self).in_progress().last(), root),
        ensures
            final(self).search_wf(),
            final(self).grows_from(old(self)),
            final(self).visited_nodes()[root as int],
            final(self).new_nodes_reached(old(self), root),
            final(self).in_progress() == old(self).in_progress(),
            final(self).numbers()[root as int] == old(self).counter() + 1,
            final(self).finished_root(old(self), root),
            final(self).new_nodes_reachable(old(self), root),
            comps_disjoint(final(self).search_components()),
        decreases old(self).unvisited(),
    {
        let ghost entry = *self;
        proof { assert(entry == *old(self)); }
        let ghost n = self.visited@.len();
        let _len = self.visited.len();
        proof {
            lemma_count_true_bound(self.visited@, root as int);
            lemma_count_true_set(self.visited@, root as int);
        }
        self.scc_counter += 1;
        self.low_link[root] = self.scc_counter;
        self.number[root] = self.scc_counter;
        self.visited[root] = true;
        self.stack.push(root);
        proof {
            self.in_progress@ = self.in_progress@.push(root);
            assert(self.stack@.take(entry.stack@.len() as int) =~= entry.stack@);
            lemma_tarjan_push(entry.subgraph(), entry.visited@, entry.stack@, entry.number@, entry.low_link@,
                entry.in_progress@, entry.search_components(), entry.scc_counter as int, root);
            assert(self.tarjan_at(self.scc_counter + 1));
            lemma_reaches_refl(self.subgraph(), root);
            assert(self.new_nodes_reachable(&entry, root));
            assert(self.search_components() == entry.search_components());
        }
        let ghost g = self.subgraph();
        let ghost gray = self.in_progress@;
        let mut i: usize = 0;
        while i < self.adj_list[root].len()
            invariant
                entry == *old(self),
                entry.search_wf(),
                root < n,
                n == entry.visited@.len(),
                !entry.visited@[root as int],
                g == self.subgraph(),
                self.search_wf(),
                self.grows_from(&entry),
                self.scc_counter >= entry.scc_counter + 1,
                self.visited@[root as int],
                self.number@[root as int] == entry.scc_counter + 1,
                self.low_link@[root as int] <= self.number@[root as int],
                self.stack@.len() > entry.stack@.len(),
                self.stack@[entry.stack@.len() as int] == root,
                forall|k: int| entry.stack@.len() < k < self.stack@.len()
                    ==> self.number@[#[trigger] self.stack@[k] as int] > entry.scc_counter + 1,
                self.new_nodes_reached(&entry, root),
                self.new_nodes_reachable(&entry, root),
                comps_disjoint(self.search_components()),
                i <= g[root as int].len(),
                gray == entry.in_progress@.push(root),
                self.in_progress@ == gray,
                self.tarjan_at(self.scc_counter + 1),
                forall|j: int| 0 <= j < i ==> {
                    &&& self.visited@[#[trigger] g[root as int][j] as int]
                    &&& self.stack@.contains(g[root as int][j]) && self.number@[g[root as int][j] as int] < self.number@[root as int]
                        ==> self.low_link@[root as int] <= self.number@[g[root as int][j] as int]
                },
            decreases g[root as int].len() - i,
        {
            let w = self.adj_list[root][i];
            proof {
                assert(g[root as int][i as int] == w);
                assert(has_edge(g, root, w));
            }
            if !self.visited[w] {
                let ghost before = *self;
                proof {
                    lemma_count_true_bound(self.visited@, w as int);
                    assert(self.visited@.len() - count_true(self.visited@) < entry.visited@.len() - count_true(entry.visited@));
                    lemma_count_true_bound(entry.visited@, root as int);
                    assert(self.unvisited() < entry.unvisited());
                    assert(gray.last() == root);
                }
                self.dfs(w);
                proof {
                    assert(before.subgraph()[root as int][i as int] == w);
                    assert(is_edge_target(before.subgraph(), w));
                    lemma_grows_trans(&entry, &before, self);
                    lemma_reached_trans(&entry, &before, self, root, w);
                    assert forall|v: usize| v < entry.adj_list@.len() && #[trigger] self.visited@[v as int] && !entry.visited@[v as int]
                        implies reaches(self.subgraph(), root, v) by {
                        if !before.visited@[v as int] {
                            lemma_reaches_edge(g, root, w);
                            lemma_reaches_trans(g, root, w, v);
                        }
                    }
                }
                let ghost mid = *self;
                self.low_link[root] = if self.low_link[root] < self.low_link[w] {
                    self.low_link[root]
                } else {
                    self.low_link[w]
                };
                proof {
                    lemma_after_child(&before, &mid, self, root, w, g, gray, i as int);
                }
            } else if self.number[w] < self.number[root] {
                if vec_contains(&self.stack, w) {
                    let ghost before = *self;
                    self.low_link[root] = if self.low_link[root] < self.number[w] {
                        self.low_link[root]
                    } else {
                        self.number[w]
                    };
                    proof {
                        lemma_after_back_edge(&before, self, root, w, g, gray, i as int);
                    }
                }
            }
            i += 1;
        }
        let ghost after_dfs = *self;
        proof {
            assert(succs_done(g, self.visited@, self.stack@, self.number@, self.low_link@, root)) by {
                assert forall|j: int| 0 <= j < g[root as int].len() implies {
                    &&& self.visited@[#[trigger] g[root as int][j] as int]
                    &&& self.stack@.contains(g[root as int][j]) && self.number@[g[root as int][j] as int] < self.number@[root as int]
                        ==> self.low_link@[root as int] <= self.number@[g[root as int][j] as int]
                } by {}
            }
            assert(gray.last() == root);
            assert(self.stack@[entry.stack@.len() as int] == gray.last());
            assert(gray.drop_last() =~= entry.in_progress@);
        }
        if self.low_link[root] == self.number[root] && self.stack.len() > 0 {
            let ghost base = entry.stack@.len() as int;
            let mut scc: Vec<usize> = Vec::new();
            let mut next = self.stack[self.stack.len() - 1];
            let ghost prev = self.stack@;
            self.stack.pop();
            scc.push(next);
            proof {
                assert(prev.take(base) == entry.stack@);
                assert(self.stack@ == prev.drop_last());
                assert(self.stack@ =~= after_dfs.stack@.take(self.stack@.len() as int));
                if prev.len() > base + 1 {
                    assert(self.number@[next as int] > self.number@[root as int]);
                    assert(self.stack@[base] == prev[base]);
                }
                assert(self.stack@.take(base) =~= entry.stack@) by {
                    assert forall|k: int| 0 <= k < base implies self.stack@[k] == entry.stack@[k] by {
                        assert(prev[k] == prev.take(base)[k]);
                    }
                }
            }
            while self.number[next] > self.number[root]
                invariant
                    entry.search_wf(),
                    after_dfs.search_wf(),
                    after_dfs.grows_from(&entry),
                    self.adj_list == after_dfs.adj_list,
                    self.adj_list_original == after_dfs.adj_list_original,
                    self.visited == after_dfs.visited,
                    self.number == after_dfs.number,
                    self.low_link == after_dfs.low_link,
                    self.scc_counter == after_dfs.scc_counter,
                    self.current_sccs == after_dfs.current_sccs,
                    self.in_progress == after_dfs.in_progress,
                    self.counter_base == after_dfs.counter_base,
                    self.comps_base == after_dfs.comps_base,
                    self.stack@.len() <= after_dfs.stack@.len(),
                    self.stack@ == after_dfs.stack@.take(self.stack@.len() as int),
                    root < n,
                    n == entry.visited@.len(),
                    self.visited@.len() == n,
                    self.number@.len() == n,
                    next < n,
                    self.visited@[root as int],
                    self.number@[root as int] == entry.scc_counter + 1,
                    base == entry.stack@.len(),
                    self.stack@.len() >= base,
                    self.stack@.take(base) == entry.stack@,
                    next == root ==> self.stack@.len() == base,
                    next != root ==> self.stack@.len() > base && self.stack@[base] == root && self.number@[next as int] > self.number@[root as int],
                    forall|k: int| base < k < self.stack@.len() ==> self.number@[#[trigger] self.stack@[k] as int] > entry.scc_counter + 1,
                    forall|k: int| base <= k < self.stack@.len() ==> {
                        &&& #[trigger] self.stack@[k] < n
                        &&& !entry.visited@[self.stack@[k] as int]
                        &&& self.visited@[self.stack@[k] as int]
                    },
                    scc@.len() >= 1,
                    forall|k: int| 0 <= k < scc@.len() ==> {
                        &&& #[trigger] scc@[k] < n
                        &&& !entry.visited@[scc@[k] as int]
                        &&& self.visited@[scc@[k] as int]
                    },
                    scc@.len() == after_dfs.stack@.len() - self.stack@.len(),
                    forall|t: int| 0 <= t < scc@.len() ==> #[trigger] scc@[t] == after_dfs.stack@[after_dfs.stack@.len() - 1 - t],
                decreases self.stack@.len(),
            {
                next = self.stack[self.stack.len() - 1];
                let ghost prev = self.stack@;
                let ghost prev_scc = scc@;
                self.stack.pop();
                scc.push(next);
                proof {
                    assert(self.stack@ == prev.drop_last());
                    assert(self.stack@ =~= after_dfs.stack@.take(self.stack@.len() as int));
                    assert(next == prev[prev.len() - 1]);
                    assert(next == after_dfs.stack@[prev.len() - 1]);
                    assert forall|k: int| 0 <= k < self.stack@.len() implies self.stack@[k] == prev[k] by {}
                    if prev.len() > base + 1 {
                        assert(self.number@[next as int] > self.number@[root as int]);
                        assert(self.stack@[base] == prev[base]);
                    }
                    assert(self.stack@.take(base) =~= entry.stack@) by {
                        assert forall|k: int| 0 <= k < base implies self.stack@[k] == entry.stack@[k] by {
                            assert(prev[k] == prev.take(base)[k]);
                        }
                    }
                    assert forall|t: int| 0 <= t < scc@.len() implies #[trigger] scc@[t] == after_dfs.stack@[after_dfs.stack@.len() - 1 - t] by {
                        if t < prev_scc.len() { assert(scc@[t] == prev_scc[t]); }
                    }
                }
            }
            let ghost popped = self.stack@;
            let ghost comps = self.search_components();
            let ghost allc = self.components();
            if scc.len() > 1 {
                self.current_sccs.push(scc);
            }
            proof {
                assert forall|k: int| 0 <= k < self.stack@.len() implies self.stack@[k] == after_dfs.stack@[k] by {}
                assert(self.new_nodes_reached(&entry, root)) by {
                    assert(after_dfs.new_nodes_reached(&entry, root));
                }
                assert(self.stack@.take(entry.stack@.len() as int) =~= entry.stack@);
                assert forall|k: int| 0 <= k < after_dfs.current_sccs@.len() implies #[trigger] self.current_sccs@[k] == after_dfs.current_sccs@[k] by {}
                lemma_tarjan_finish_pop(g, after_dfs.visited@, after_dfs.stack@, after_dfs.number@, after_dfs.low_link@,
                    gray, comps, after_dfs.scc_counter as int, base, scc@);
                assert(self.stack@ =~= after_dfs.stack@.take(base));
                assert(self.components() =~= if scc@.len() > 1 { allc.push(scc@) } else { allc });
                assert(self.search_components() =~= if scc@.len() > 1 { comps.push(scc@) } else { comps });
                lemma_tarjan_comps(g, after_dfs.visited@, after_dfs.stack@, after_dfs.number@, after_dfs.low_link@,
                    gray, comps, after_dfs.scc_counter as int, after_dfs.scc_counter + 1);
                let cs = self.search_components();
                assert forall|a: int, b: int, i: int, j: int| 0 <= a < b < cs.len() && 0 <= i < cs[a].len() && 0 <= j < cs[b].len()
                    implies #[trigger] cs[a][i] != #[trigger] cs[b][j] by {
                    if b >= comps.len() {
                        assert(cs[b] == scc@);
                        assert(cs[a] == comps[a]);
                        let idx = after_dfs.stack@.len() - 1 - j;
                        assert(scc@[j] == after_dfs.stack@[idx]);
                        assert(after_dfs.stack@.contains(scc@[j]));
                        assert(!after_dfs.stack@.contains(comps[a][i]));
                    } else {
                        assert(cs[a] == comps[a] && cs[b] == comps[b]);
                    }
                }
                self.in_progress@ = entry.in_progress@;
                assert(!self.stack@.contains(root)) by {
                    if self.stack@.contains(root) {
                        let k = choose|k: int| 0 <= k < self.stack@.len() && self.stack@[k] == root;
                        assert(after_dfs.stack@[k] == root);
                        assert(after_dfs.number@[after_dfs.stack@[k] as int] < after_dfs.number@[after_dfs.stack@[base] as int]);
                    }
                }
            }
        } else {
            proof {
                lemma_tarjan_finish_stay(g, self.visited@, self.stack@, self.number@, self.low_link@, gray,
                    self.search_components(), self.scc_counter as int);
                self.in_progress@ = entry.in_progress@;
                assert(self.stack@.contains(root)) by {
                    assert(self.stack@[entry.stack@.len() as int] == root);
                }
            }
        }
    }
}

impl StrongConnectedComponents {
    /// Searches the subgraph from `node` for the component of least id, moving
    /// on to the subgraph from `node + 1` when the component found holds
    /// neither `node` nor `node + 1`. The result is the component of the least
    /// node `s` from `node` on whose component in the subgraph from `s` holds
    /// another node, as the graph it induces, with `s` as its least node; there
    /// is none exactly when no such node exists. With none, every node from
    /// `node` on is left visited and no component is listed; with one, only
    /// nodes reached from `node` up to `s` are left visited, `s` among them.
    /// Either way the components listed are those of more than one node
    /// among the visited ones, each once.
    #[verifier::spinoff_prover]
    pub fn get_adjacency_list(&mut self, node: usize) -> (r: Option<SCCResult>)
        requires
            adj_wf(old(self).original()),
        ensures
            final(self).original() == old(self).original(),
            r is None <==> none_nontrivial(old(self).original(), node),
            final(self).subgraph().len() == old(self).original().len(),
            final(self).subgraph().len() <= usize::MAX,
            final(self).visited_nodes().len() == old(self).original().len(),
            final(self).numbers().len() == old(self).original().len(),
            final(self).low_links().len() == old(self).original().len(),
            final(self).tarjan_stack().len() == 0,
            final(self).counter() == count_true(final(self).visited_nodes()),
            final(self).between_searches(),
            forall|v: int| 0 <= v < old(self).original().len() && #[trigger] final(self).visited_nodes()[v] ==> v >= node,
            r is None ==> final(self).subgraph() == subgraph_from(old(self).original(), node),
            r is None ==> forall|v: int| 0 <= v < old(self).original().len() ==> (#[trigger] final(self).visited_nodes()[v] <==> v >= node),
            r is None ==> final(self).components().len() == 0,
            comps_listed(final(self).subgraph(), final(self).visited_nodes(), final(self).components()),
            r matches Some(res) ==> final(self).visited_nodes()[res.lowest() as int],
            r matches Some(res) ==> final(self).subgraph() == subgraph_from(old(self).original(), res.lowest())
                || node < res.lowest() && final(self).subgraph() == subgraph_from(old(self).original(), (res.lowest() - 1) as usize),
            r matches Some(res) ==> forall|x: int| 0 <= x < old(self).original().len() && #[trigger] final(self).visited_nodes()[x]
                ==> reached_from_range(subgraph_from(old(self).original(), node), node, res.lowest(), x as usize),
            r matches Some(res) ==> {
                &&& first_nontrivial(old(self).original(), node, res.lowest())
                &&& res.adj() == induced(old(self).original(), scc_set(subgraph_from(old(self).original(), res.lowest()), res.lowest()))
                &&& edges_within(res.adj(), old(self).original())
                &&& adj_wf(res.adj())
                &&& res.adj()[res.lowest() as int].len() > 0
                &&& forall|j: int| 0 <= j < res.lowest() ==> #[trigger] res.adj()[j].len() == 0
            },
        decreases old(self).original().len() - node,
    {
        let ghost orig = self.original();
        let n = self.adj_list_original.len();
        self.visited = falses(n);
        self.low_link = zeros(n);
        self.number = zeros(n);
        self.stack = Vec::new();
        self.current_sccs = Vec::new();
        self.scc_counter = 0;
        self.make_adj_list_subgraph(node);
        proof {
            self.in_progress@ = Seq::empty();
            lemma_count_true_none(self.visited@);
            lemma_subgraph_from_within(orig, node);
            self.counter_base@ = 0;
            self.comps_base@ = 0;
            lemma_tarjan_start(self.subgraph(), self.visited@, self.number@, self.low_link@, 0);
            assert(self.stack@ =~= Seq::<usize>::empty());
            assert(self.components() =~= Seq::<Seq<usize>>::empty());
            assert(self.search_components() =~= Seq::<Seq<usize>>::empty());
            assert(self.tarjan_at(self.scc_counter + 1));
            assert(self.adj_list@.len() == self.subgraph().len());
        }
        let mut i = node;
        while i < n
            invariant
                orig == self.original(),
                orig == old(self).original(),
                adj_wf(orig),
                n == orig.len(),
                self.search_wf(),
                self.subgraph() == subgraph_from(orig, node),
                self.adj_list@.len() == n,
                self.counter_base@ == 0,
                self.comps_base@ == 0,
                node <= i,
                forall|v: int| 0 <= v < n && #[trigger] self.visited@[v] ==> v >= node,
                forall|v: int| node <= v < i ==> #[trigger] self.visited@[v],
                self.tarjan_at(self.scc_counter + 1),
                self.stack@.len() == 0,
                self.in_progress@.len() == 0,
                self.current_sccs@.len() == 0,
                forall|x: usize| x < n && #[trigger] self.visited@[x as int] ==> !scc_nontrivial(subgraph_from(orig, node), x),
                forall|x: int| 0 <= x < n && #[trigger] self.visited@[x]
                    ==> node < i && reached_from_range(subgraph_from(orig, node), node, (i - 1) as usize, x as usize),
            decreases n - i,
        {
            if !self.visited[i] {
                let ghost before = *self;
                self.dfs(i);
                proof {
                    lemma_top_search_done(&before, self, i);
                    lemma_subgraph_from_within(orig, node);
                    assert forall|v: int| 0 <= v < n && #[trigger] self.visited@[v] implies v >= node by {
                        if !before.visited@[v] {
                            assert(self.new_nodes_reached(&before, i));
                            if v != i as int {
                                assert(is_edge_target(self.subgraph(), v as usize));
                                let (u, k) = choose|u: int, k: int| 0 <= u < self.subgraph().len() && 0 <= k < self.subgraph()[u].len() && self.subgraph()[u][k] == v as usize;
                            }
                        }
                    }
                    assert forall|v: int| node <= v < i + 1 implies #[trigger] self.visited@[v] by {
                        if v < i { assert(before.visited@[v]); }
                    }
                    assert forall|x: int| 0 <= x < n && #[trigger] self.visited@[x]
                        implies reached_from_range(subgraph_from(orig, node), node, i, x as usize) by {
                        if before.visited@[x] {
                            let t = choose|t: usize| node <= t <= (i - 1) as usize && #[trigger] reaches(subgraph_from(orig, node), t, x as usize);
                        } else {
                            assert(self.new_nodes_reachable(&before, i));
                            assert(self.visited@[(x as usize) as int]);
                            assert(reaches(self.subgraph(), i, x as usize));
                        }
                    }
                    lemma_tarjan_idle(self.subgraph(), self.visited@, self.stack@, self.number@, self.low_link@,
                        self.in_progress@, self.search_components(), self.scc_counter as int, self.scc_counter + 1);
                    assert(self.search_components() =~= self.components());
                }
                let nodes = self.get_lowest_id_component();
                let ghost members = match nodes { Some(ref c) => c@, None => Seq::<usize>::empty() };
                proof {
                    lemma_lowest_found(self, node, i, members, nodes is Some);
                }
                if nodes.is_some() && !vec_contains(nodes.as_ref().unwrap(), node)
                    && !vec_contains(nodes.as_ref().unwrap(), node + 1) {
                    let ghost before_rec = *self;
                    let r = self.get_adjacency_list(node + 1);
                    proof {
                        lemma_first_shift(orig, node);
                        let comps = before_rec.components();
                        let (k, j) = choose|k: int, j: int| 0 <= k < comps.len() && 0 <= j < comps[k].len() && members == #[trigger] comps[k] && #[trigger] comps[k][j] < orig.len();
                        assert(members.len() > 1 && members.no_duplicates());
                        assert(members.contains(members[1]));
                        assert(same_scc(subgraph_from(orig, node), members[0], members[1]));
                        assert(members[0] != members[1]);
                        lemma_nontrivial_somewhere(orig, node, members[0]);
                        if let Some(res) = &r {
                            assert forall|x: int| 0 <= x < n && #[trigger] self.visited_nodes()[x]
                                implies reached_from_range(subgraph_from(orig, node), node, res.lowest(), x as usize) by {
                                let t = choose|t: usize| (node + 1) as usize <= t <= res.lowest()
                                    && #[trigger] reaches(subgraph_from(orig, (node + 1) as usize), t, x as usize);
                                lemma_reaches_sub_mono(orig, node, (node + 1) as usize, t, x as usize);
                            }
                        }
                    }
                    return r;
                } else {
                    let adjacency_list = self.get_adj_list(&nodes);
                    if let Some(adjacency_list) = adjacency_list {
                        let ghost s = if members.contains(node) { node } else { (node + 1) as usize };
                        proof {
                            lemma_found_lowest(self, node, i, members, s);
                            assert(i <= s) by {
                                let ms = choose|m: int| 0 <= m < members.len() && members[m] == s;
                                let comps = self.components();
                                let (k, j) = choose|k: int, j: int| 0 <= k < comps.len() && 0 <= j < comps[k].len() && members == #[trigger] comps[k] && #[trigger] comps[k][j] < orig.len();
                                assert(comps[k][ms] == s);
                                assert(self.current_sccs@[k]@[ms] == s);
                                assert(!before.visited@[s as int]);
                            }
                            lemma_tarjan_idle(self.subgraph(), self.visited@, self.stack@, self.number@, self.low_link@,
                                self.in_progress@, self.search_components(), self.scc_counter as int, self.scc_counter + 1);
                            assert(self.search_components() =~= self.components());
                            assert(self.stack@ =~= Seq::<usize>::empty());
                            assert(self.visited@[s as int]) by {
                                let ms = choose|m: int| 0 <= m < members.len() && members[m] == s;
                                let comps = self.components();
                                let (k, j) = choose|k: int, j: int| 0 <= k < comps.len() && 0 <= j < comps[k].len() && members == #[trigger] comps[k] && #[trigger] comps[k][j] < orig.len();
                                assert(comps[k][ms] == s);
                            }
                            assert forall|x: int| 0 <= x < n && #[trigger] self.visited@[x]
                                implies reached_from_range(subgraph_from(orig, node), node, s, x as usize) by {
                                let t = choose|t: usize| node <= t <= i && #[trigger] reaches(subgraph_from(orig, node), t, x as usize);
                            }
                            assert(adj_view(adjacency_list@) == induced(orig, scc_set(subgraph_from(orig, s), s)));
                            lemma_induced_result(orig, s);
                            assert(adj_view(adjacency_list@)[s as int] == adjacency_list@[s as int]@);
                            assert forall|t: int| 0 <= t < s implies (#[trigger] adjacency_list@[t])@.len() == 0 by {
                                assert(adj_view(adjacency_list@)[t] == adjacency_list@[t]@);
                            }
                        }
                        let mut j: usize = 0;
                        while j < n
                            invariant
                                n == adjacency_list@.len(),
                                orig == old(self).original(),
                                orig == self.original(),
                                n == orig.len(),
                                self.adj_list@.len() == n,
                                self.search_wf(),
                                self.counter_base@ == 0,
                                self.stack@.len() == 0,
                                self.tarjan_at(self.scc_counter + 1),
                                self.in_progress@.len() == 0,
                                comps_disjoint(self.search_components()),
                                forall|v: int| 0 <= v < n && #[trigger] self.visited@[v] ==> v >= node,
                                s < n,
                                first_nontrivial(orig, node, s),
                                adj_view(adjacency_list@) == induced(orig, scc_set(subgraph_from(orig, s), s)),
                                edges_within(adj_view(adjacency_list@), orig),
                                adj_wf(adj_view(adjacency_list@)),
                                adjacency_list@[s as int]@.len() > 0,
                                forall|t: int| 0 <= t < s ==> (#[trigger] adjacency_list@[t])@.len() == 0,
                                forall|t: int| 0 <= t < j ==> (#[trigger] adjacency_list@[t])@.len() == 0,
                                forall|x: int| 0 <= x < n && #[trigger] self.visited@[x]
                                    ==> reached_from_range(subgraph_from(orig, node), node, s, x as usize),
                                self.visited@[s as int],
                                self.subgraph() == subgraph_from(orig, node),
                                comps_listed(self.subgraph(), self.visited@, self.components()),
                                s == node || s == node + 1,
                            decreases n - j,
                        {
                            if adjacency_list[j].len() > 0 {
                                let res = SCCResult::new(&adjacency_list, j);
                                proof {
                                    assert(j as int == s as int);
                                    assert forall|t: int| 0 <= t < j implies #[trigger] res.adj()[t].len() == 0 by {
                                        assert(adj_view(adjacency_list@)[t] == adjacency_list@[t]@);
                                    }
                                    assert(!none_nontrivial(orig, node));
                                }
                                return Some(res);
                            }
                            j += 1;
                        }
                        proof {
                            // the list of `s` is not empty, so the loop has returned
                            assert(adjacency_list@[s as int]@.len() == 0);
                            assert(false);
                        }
                    } else {
                        proof {
                            assert(nodes is None);
                        }
                    }
                }
            }
            i += 1;
        }
        proof {
            lemma_tarjan_idle(self.subgraph(), self.visited@, self.stack@, self.number@, self.low_link@,
                self.in_progress@, self.search_components(), self.scc_counter as int, self.scc_counter + 1);
            assert(self.search_components() =~= self.components());
            assert(self.stack@ =~= Seq::<usize>::empty());
            assert(self.components() =~= Seq::<Seq<usize>>::empty());
            assert forall|t: usize| node <= t < orig.len() implies !#[trigger] scc_nontrivial(subgraph_from(orig, t), t) by {
                assert(self.visited@[t as int]);
                if scc_nontrivial(subgraph_from(orig, t), t) {
                    lemma_nontrivial_mono(orig, node, t, t);
                }
            }
        }
        None
    }
}

/// After the search from the successor `w` of the node `root` in progress
/// and the update of the low link of `root`, the search invariant holds again
/// and the successors of `root` up to `w` are accounted for.
proof fn lemma_after_child(
    before: &StrongConnectedComponents,
    mid: &StrongConnectedComponents,
    after: &StrongConnectedComponents,
    root: usize,
    w: usize,
    g: Seq<Seq<usize>>,
    gray: Seq<usize>,
    i: int,
)
    requires
        g == before.subgraph(),
        before.search_wf(),
        before.tarjan_at(before.scc_counter + 1),
        before.in_progress@ == gray,
        gray.len() > 0,
        gray.last() == root,
        root < g.len(),
        before.stack@.contains(root),
        before.visited@[root as int],
        !before.visited@[w as int],
        0 <= i < g[root as int].len(),
        g[root as int][i] == w,
        forall|j: int| 0 <= j < i ==> {
            &&& before.visited@[#[trigger] g[root as int][j] as int]
            &&& before.stack@.contains(g[root as int][j]) && before.number@[g[root as int][j] as int] < before.number@[root as int]
                ==> before.low_link@[root as int] <= before.number@[g[root as int][j] as int]
        },
        mid.search_wf(),
        mid.grows_from(before),
        mid.visited@[w as int],
        mid.in_progress@ == gray,
        mid.number@[w as int] == before.scc_counter + 1,
        mid.finished_root(before, w),
        after.adj_list == mid.adj_list,
        after.adj_list_original == mid.adj_list_original,
        after.visited == mid.visited,
        after.stack == mid.stack,
        after.number == mid.number,
        after.scc_counter == mid.scc_counter,
        after.current_sccs == mid.current_sccs,
        after.in_progress == mid.in_progress,
        after.comps_base == mid.comps_base,
        after.low_link@ == mid.low_link@.update(root as int,
            if mid.low_link@[root as int] < mid.low_link@[w as int] { mid.low_link@[root as int] } else { mid.low_link@[w as int] }),
    ensures
        after.tarjan_at(after.scc_counter + 1),
        forall|j: int| 0 <= j < i + 1 ==> {
            &&& after.visited@[#[trigger] g[root as int][j] as int]
            &&& after.stack@.contains(g[root as int][j]) && after.number@[g[root as int][j] as int] < after.number@[root as int]
                ==> after.low_link@[root as int] <= after.number@[g[root as int][j] as int]
        },
{
    let n = before.adj_list@.len();
    let vis = mid.visited@;
    let st = mid.stack@;
    let num = mid.number@;
    let low = mid.low_link@;
    let comps = mid.search_components();
    let counter = mid.scc_counter as int;
    let m = after.low_link@[root as int];
    assert(st.contains(root)) by {
        let p = choose|p: int| 0 <= p < before.stack@.len() && before.stack@[p] == root;
        assert(st[p] == st.take(before.stack@.len() as int)[p]);
    }
    let kr = choose|k: int| 0 <= k < st.len() && st[k] == root;
    assert(num[root as int] == before.number@[root as int]);
    assert(low[root as int] == before.low_link@[root as int]);
    assert(num[root as int] <= before.scc_counter);
    assert(vis[w as int] && num[w as int] <= counter);
    if st.contains(w) {
        if m < low[root as int] {
            let kw = choose|k: int| 0 <= k < st.len() && st[k] == w;
            lemma_tarjan_low_link(g, vis, st, num, low, gray, comps, counter, num[w as int] as int, kw);
            let k2 = choose|k2: int| 0 <= k2 < st.len() && num[st[k2] as int] == low[st[kw] as int] && reaches(g, st[kw], #[trigger] st[k2]);
            assert(has_edge(g, root, w));
            lemma_reaches_edge(g, root, w);
            lemma_reaches_trans(g, root, w, st[k2]);
            assert(num[st[k2] as int] == m && reaches(g, gray.last(), st[k2]));
        }
        lemma_tarjan_lower(g, vis, st, num, low, gray, comps, counter, num[w as int] as int, m);
        assert(after.low_link@ == low.update(gray.last() as int, m));
        let low2 = after.low_link@;
        assert forall|k: int| 0 <= k < st.len() && !gray.contains(#[trigger] st[k])
            && num[gray.last() as int] < num[st[k] as int] && num[w as int] <= num[st[k] as int] < counter + 1
            implies low2[gray.last() as int] <= low2[st[k] as int] by {
            assert(st[k] != root);
        }
        lemma_tarjan_extend_cut(g, vis, st, num, low2, gray, comps, counter, num[w as int] as int, counter + 1);
    } else {
        lemma_tarjan_low_link(g, vis, st, num, low, gray, comps, counter, counter + 1, kr);
        assert(after.low_link@ =~= low);
    }
    assert forall|j: int| 0 <= j < i + 1 implies {
        &&& after.visited@[#[trigger] g[root as int][j] as int]
        &&& after.stack@.contains(g[root as int][j]) && after.number@[g[root as int][j] as int] < after.number@[root as int]
            ==> after.low_link@[root as int] <= after.number@[g[root as int][j] as int]
    } by {
        let z = g[root as int][j];
        if j < i {
            assert(before.visited@[z as int]);
            assert(z < n);
            if st.contains(z) {
                let k = choose|k: int| 0 <= k < st.len() && st[k] == z;
                if k >= before.stack@.len() {
                    assert(!before.visited@[st[k] as int]);
                }
                assert(st[k] == st.take(before.stack@.len() as int)[k]);
                assert(before.stack@.contains(z));
            }
        }
    }
}

/// After lowering the low link of `root` to the number of its successor `w`
/// found on the stack, the search invariant holds again and the successors of
/// `root` up to `w` are accounted for.
proof fn lemma_after_back_edge(
    before: &StrongConnectedComponents,
    after: &StrongConnectedComponents,
    root: usize,
    w: usize,
    g: Seq<Seq<usize>>,
    gray: Seq<usize>,
    i: int,
)
    requires
        g == before.subgraph(),
        before.search_wf(),
        before.tarjan_at(before.scc_counter + 1),
        before.in_progress@ == gray,
        gray.len() > 0,
        gray.last() == root,
        root < g.len(),
        before.visited@[root as int],
        before.visited@[w as int],
        before.stack@.contains(w),
        before.number@[w as int] < before.number@[root as int],
        0 <= i < g[root as int].len(),
        g[root as int][i] == w,
        forall|j: int| 0 <= j < i ==> {
            &&& before.visited@[#[trigger] g[root as int][j] as int]
            &&& before.stack@.contains(g[root as int][j]) && before.number@[g[root as int][j] as int] < before.number@[root as int]
                ==> before.low_link@[root as int] <= before.number@[g[root as int][j] as int]
        },
        after.adj_list == before.adj_list,
        after.adj_list_original == before.adj_list_original,
        after.visited == before.visited,
        after.stack == before.stack,
        after.number == before.number,
        after.scc_counter == before.scc_counter,
        after.current_sccs == before.current_sccs,
        after.in_progress == before.in_progress,
        after.comps_base == before.comps_base,
        after.low_link@ == before.low_link@.update(root as int,
            if before.low_link@[root as int] < before.number@[w as int] { before.low_link@[root as int] } else { before.number@[w as int] }),
    ensures
        after.tarjan_at(after.scc_counter + 1),
        forall|j: int| 0 <= j < i + 1 ==> {
            &&& after.visited@[#[trigger] g[root as int][j] as int]
            &&& after.stack@.contains(g[root as int][j]) && after.number@[g[root as int][j] as int] < after.number@[root as int]
                ==> after.low_link@[root as int] <= after.number@[g[root as int][j] as int]
        },
{
    let st = before.stack@;
    let num = before.number@;
    let low = before.low_link@;
    let m = after.low_link@[root as int];
    let kw = choose|k: int| 0 <= k < st.len() && st[k] == w;
    assert(has_edge(g, root, w));
    lemma_reaches_edge(g, root, w);
    assert(num[st[kw] as int] == num[w as int] && reaches(g, gray.last(), st[kw]));
    lemma_tarjan_lower(g, before.visited@, st, num, low, gray, before.search_components(), before.scc_counter as int, before.scc_counter + 1, m);
}

/// Growing is transitive.
pub proof fn lemma_grows_trans(a: &StrongConnectedComponents, b: &StrongConnectedComponents, c: &StrongConnectedComponents)
    requires
        b.grows_from(a),
        c.grows_from(b),
        a.search_wf(),
        b.search_wf(),
        c.search_wf(),
    ensures
        c.grows_from(a),
{
    let n = a.adj_list@.len();
    assert(c.stack@.take(a.stack@.len() as int) =~= a.stack@) by {
        assert forall|k: int| 0 <= k < a.stack@.len() implies c.stack@[k] == a.stack@[k] by {
            assert(c.stack@[k] == c.stack@.take(b.stack@.len() as int)[k]);
            assert(b.stack@[k] == b.stack@.take(a.stack@.len() as int)[k]);
        }
    }
    assert forall|k: int| a.stack@.len() <= k < c.stack@.len() implies !a.visited@[#[trigger] c.stack@[k] as int] by {
        if k < b.stack@.len() {
            assert(c.stack@[k] == c.stack@.take(b.stack@.len() as int)[k]);
        } else {
            let v = c.stack@[k] as int;
            assert(!b.visited@[v]);
            if 0 <= v < n && a.visited@[v] {
                assert(b.visited@[v]);
            }
        }
    }
    assert forall|v: int| 0 <= v < n && #[trigger] c.visited@[v] && !a.visited@[v] implies c.number@[v] > a.scc_counter by {
        if b.visited@[v] {
            assert(c.number@[v] == b.number@[v]);
        }
    }
    assert forall|k: int, j: int| a.current_sccs@.len() <= k < c.current_sccs@.len() && 0 <= j < c.current_sccs@[k]@.len()
        implies !a.visited@[#[trigger] c.current_sccs@[k]@[j] as int] && c.visited@[c.current_sccs@[k]@[j] as int] by {
        if k < b.current_sccs@.len() {
            assert(c.current_sccs@[k] == b.current_sccs@[k]);
            let v = c.current_sccs@[k]@[j] as int;
            assert(b.visited@[v]);
        } else {
            let v = c.current_sccs@[k]@[j] as int;
            assert(!b.visited@[v]);
            if 0 <= v < n && a.visited@[v] {
                assert(b.visited@[v]);
            }
        }
    }
    assert forall|k: int| a.current_sccs@.len() <= k < c.current_sccs@.len() implies #[trigger] c.current_sccs@[k]@.len() > 1 by {
        if k < b.current_sccs@.len() {
            assert(c.current_sccs@[k] == b.current_sccs@[k]);
        }
    }
}

/// Nodes reached by a nested step from an edge target are reached by the outer step.
pub proof fn lemma_reached_trans(
    a: &StrongConnectedComponents,
    b: &StrongConnectedComponents,
    c: &StrongConnectedComponents,
    root: usize,
    w: usize,
)
    requires
        b.new_nodes_reached(a, root),
        c.new_nodes_reached(b, w),
        c.grows_from(b),
        b.grows_from(a),
        is_edge_target(b.subgraph(), w),
    ensures
        c.new_nodes_reached(a, root),
{
}

/// Walking nodes keeps one list per node of the graph.
pub proof fn lemma_component_lists_len(g: Seq<Seq<usize>>, walk: Seq<usize>, members: Seq<usize>)
    requires
        forall|k: int| 0 <= k < walk.len() ==> #[trigger] walk[k] < g.len(),
    ensures
        component_lists(g, walk, members).len() == g.len(),
    decreases walk.len(),
{
    if walk.len() > 0 {
        lemma_component_lists_len(g, walk.drop_last(), members);
    }
}

} // verus!

verus! {

/// A node that is never walked keeps an empty list.
pub proof fn lemma_component_lists_unwalked(g: Seq<Seq<usize>>, walk: Seq<usize>, members: Seq<usize>)
    requires
        forall|k: int| 0 <= k < walk.len() ==> #[trigger] walk[k] < g.len(),
    ensures
        forall|t: int| 0 <= t < g.len() && !walk.contains(t as usize) ==> (#[trigger] component_lists(g, walk, members)[t]).len() == 0,
    decreases walk.len(),
{
    lemma_component_lists_len(g, walk, members);
    if walk.len() > 0 {
        lemma_component_lists_unwalked(g, walk.drop_last(), members);
        lemma_component_lists_len(g, walk.drop_last(), members);
        assert forall|t: int| 0 <= t < g.len() && !walk.contains(t as usize) implies (#[trigger] component_lists(g, walk, members)[t]).len() == 0 by {
            assert(t != walk.last() as int);
            if walk.drop_last().contains(t as usize) {
                let k = choose|k: int| 0 <= k < walk.drop_last().len() && walk.drop_last()[k] == t as usize;
                assert(walk[k] == t as usize);
            }
        }
    }
}

} // verus!

verus! {

/// Walking distinct nodes gives each of them its successors among the members.
pub proof fn lemma_component_lists_walked(g: Seq<Seq<usize>>, walk: Seq<usize>, members: Seq<usize>)
    requires
        walk.no_duplicates(),
        forall|k: int| 0 <= k < walk.len() ==> #[trigger] walk[k] < g.len(),
    ensures
        forall|k: int| 0 <= k < walk.len()
            ==> #[trigger] component_lists(g, walk, members)[walk[k] as int] == g[walk[k] as int].filter(member_of(members)),
    decreases walk.len(),
{
    lemma_component_lists_len(g, walk, members);
    if walk.len() > 0 {
        let prefix = walk.drop_last();
        let v = walk.last();
        assert(prefix.no_duplicates()) by {
            assert forall|a: int, b: int| 0 <= a < prefix.len() && 0 <= b < prefix.len() && a != b implies prefix[a] != prefix[b] by {
                assert(prefix[a] == walk[a] && prefix[b] == walk[b]);
            }
        }
        lemma_component_lists_walked(g, prefix, members);
        lemma_component_lists_unwalked(g, prefix, members);
        lemma_component_lists_len(g, prefix, members);
        assert(!prefix.contains(v)) by {
            if prefix.contains(v) {
                let a = choose|a: int| 0 <= a < prefix.len() && prefix[a] == v;
                assert(walk[a] == walk[walk.len() - 1]);
            }
        }
        let prev = component_lists(g, prefix, members);
        assert(prev[v as int].len() == 0);
        assert forall|k: int| 0 <= k < walk.len()
            implies #[trigger] component_lists(g, walk, members)[walk[k] as int] == g[walk[k] as int].filter(member_of(members)) by {
            if k == walk.len() - 1 {
                assert(prev[v as int] =~= Seq::<usize>::empty());
                assert(prev[v as int] + g[v as int].filter(member_of(members)) =~= g[v as int].filter(member_of(members)));
            } else {
                assert(walk[k] == prefix[k]);
                assert(walk[k] != v);
            }
        }
    }
}

/// The lists built for a component listed without repeats, all of whose
/// members are from `node` on, form the graph induced by its members.
pub proof fn lemma_component_induced(orig: Seq<Seq<usize>>, node: usize, c: Seq<usize>, members: Set<usize>)
    requires
        adj_wf(orig),
        orig.len() <= usize::MAX,
        c.no_duplicates(),
        forall|k: int| 0 <= k < c.len() ==> node <= #[trigger] c[k] < orig.len(),
        forall|y: usize| #[trigger] members.contains(y) <==> c.contains(y),
    ensures
        component_lists(subgraph_from(orig, node), c, c) == induced(orig, members),
{
    let sub = subgraph_from(orig, node);
    let cl = component_lists(sub, c, c);
    lemma_component_lists_len(sub, c, c);
    lemma_component_lists_walked(sub, c, c);
    lemma_component_lists_unwalked(sub, c, c);
    let f = |w: usize| members.contains(w);
    assert(member_of(c) =~= f);
    assert forall|w: usize| #[trigger] member_of(c)(w) implies at_least(node)(w) by {
        let k = choose|k: int| 0 <= k < c.len() && c[k] == w;
    }
    assert forall|v: int| 0 <= v < orig.len() implies #[trigger] cl[v] == induced(orig, members)[v] by {
        if c.contains(v as usize) {
            let k = choose|k: int| 0 <= k < c.len() && c[k] == v as usize;
            assert(c[k] as int == v);
            assert(cl[c[k] as int] == sub[c[k] as int].filter(member_of(c)));
            assert(sub[v] == orig[v].filter(at_least(node)));
            lemma_filter_filter(orig[v], at_least(node), member_of(c));
            assert(induced(orig, members)[v] == orig[v].filter(f));
        } else {
            assert(cl[v].len() == 0);
        }
    }
    assert(cl =~= induced(orig, members));
}

} // verus!

verus! {

/// A set of nodes closed under edges holds every node reachable from one of them.
proof fn lemma_closed_reach(g: Seq<Seq<usize>>, vis: Seq<bool>, root: usize, x: usize)
    requires
        vis[root as int],
        forall|u: usize, z: usize| u < g.len() && vis[u as int] && #[trigger] has_edge(g, u, z) ==> vis[z as int],
        reaches(g, root, x),
    ensures
        vis[x as int],
{
    let p = choose|p: Seq<usize>| #[trigger] is_path(g, p) && p[0] == root && p.last() == x;
    lemma_closed_walk(g, vis, p, p.len() - 1);
}

/// Along a walk from a node of a set closed under edges, every node is in the set.
proof fn lemma_closed_walk(g: Seq<Seq<usize>>, vis: Seq<bool>, p: Seq<usize>, i: int)
    requires
        is_path(g, p),
        vis[p[0] as int],
        forall|u: usize, z: usize| u < g.len() && vis[u as int] && #[trigger] has_edge(g, u, z) ==> vis[z as int],
        0 <= i < p.len(),
    ensures
        vis[p[i] as int],
    decreases i,
{
    if i > 0 {
        lemma_closed_walk(g, vis, p, i - 1);
        let j = i - 1;
        assert(has_edge(g, p[j], p[j + 1]));
    }
}

/// A search started with the stack empty and no node in progress leaves the
/// stack empty: its root cannot reach a node numbered before it.
proof fn lemma_top_search_done(before: &StrongConnectedComponents, after: &StrongConnectedComponents, root: usize)
    requires
        before.search_wf(),
        before.stack@.len() == 0,
        before.in_progress@.len() == 0,
        root < before.adj_list@.len(),
        after.search_wf(),
        after.grows_from(before),
        after.in_progress@ == before.in_progress@,
        after.number@[root as int] == before.scc_counter + 1,
        after.finished_root(before, root),
    ensures
        after.stack@.len() == 0,
        after.tarjan_at(after.scc_counter + 1),
{
    let st = after.stack@;
    let num = after.number@;
    if st.contains(root) {
        let k = choose|k: int| 0 <= k < st.len() && st[k] == root;
        lemma_tarjan_low_link(after.subgraph(), after.visited@, st, num, after.low_link@, after.in_progress@,
            after.search_components(), after.scc_counter as int, num[root as int] as int, k);
        let k2 = choose|k2: int| 0 <= k2 < st.len() && num[st[k2] as int] == after.low_link@[st[k] as int] && reaches(after.subgraph(), st[k], #[trigger] st[k2]);
        assert(!before.visited@[st[k2] as int]);
        assert(after.visited@[st[k2] as int]);
        assert(num[st[k2] as int] > before.scc_counter);
    }
}

/// What the component of least id found so far tells about the search from
/// `node`: where it is missing, no visited node has another node in its
/// component; where it is found but misses `node`, the component of `node`
/// is `node` alone.
proof fn lemma_lowest_found(scc: &StrongConnectedComponents, node: usize, i: usize, members: Seq<usize>, found: bool)
    requires
        scc.search_wf(),
        scc.subgraph() == subgraph_from(scc.original(), node),
        node <= i < scc.original().len(),
        forall|v: int| 0 <= v < scc.original().len() && #[trigger] scc.visited@[v] ==> v >= node,
        forall|v: int| node <= v <= i ==> #[trigger] scc.visited@[v],
        scc.stack@.len() == 0,
        comps_exact(scc.subgraph(), scc.visited@, scc.stack@, scc.components()),
        comps_complete(scc.subgraph(), scc.visited@, scc.stack@, scc.components()),
        is_lowest_component(scc.components(), scc.original().len() as int, if found { Some(members) } else { None }),
    ensures
        found ==> forall|k: int| 0 <= k < members.len() ==> node <= #[trigger] members[k] < scc.original().len(),
        found && !members.contains(node) ==> !scc_nontrivial(subgraph_from(scc.original(), node), node),
        !found ==> scc.current_sccs@.len() == 0,
        !found ==> forall|x: usize| x < scc.original().len() && #[trigger] scc.visited@[x as int]
            ==> !scc_nontrivial(subgraph_from(scc.original(), node), x),
{
    let orig = scc.original();
    let n = orig.len();
    let comps = scc.components();
    let st = scc.stack@;
    assert forall|x: usize| !#[trigger] st.contains(x) by {}
    if found {
        let (k, j) = choose|k: int, j: int| {
            &&& 0 <= k < comps.len()
            &&& 0 <= j < comps[k].len()
            &&& members == comps[k]
            &&& comps[k][j] < n
            &&& forall|k2: int, j2: int| 0 <= k2 < comps.len() && 0 <= j2 < comps[k2].len()
                ==> #[trigger] comps[k2][j2] >= comps[k][j]
            &&& forall|k2: int, j2: int| 0 <= k2 < k && 0 <= j2 < comps[k2].len()
                ==> #[trigger] comps[k2][j2] != comps[k][j]
        };
        assert forall|m: int| 0 <= m < members.len() implies node <= #[trigger] members[m] < n by {
            assert(members[m] == comps[k][m]);
            assert(scc.visited@[comps[k][m] as int]);
        }
        if !members.contains(node) && scc_nontrivial(subgraph_from(orig, node), node) {
            assert(scc.visited@[node as int]);
            let c = choose|c: int| 0 <= c < comps.len() && #[trigger] comps[c].contains(node);
            let m = choose|m: int| 0 <= m < comps[c].len() && comps[c][m] == node;
            assert(comps[c][m] >= comps[k][j]);
            assert(scc.visited@[comps[k][j] as int]);
            assert(members[j] == node);
        }
    } else {
        if comps.len() > 0 {
            assert(comps[0].len() > 1);
            assert(comps[0][0] >= n);
            assert(comps[0][0] < n);
        }
        assert(scc.current_sccs@.len() == comps.len());
    }
}

/// A component of least id found by the search from `node` that holds `node`
/// or `node + 1` is the component sought, and the lists built from it form
/// the graph it induces.
proof fn lemma_found_lowest(scc: &StrongConnectedComponents, node: usize, i: usize, members: Seq<usize>, s: usize)
    requires
        scc.search_wf(),
        adj_wf(scc.original()),
        scc.original().len() <= usize::MAX,
        scc.subgraph() == subgraph_from(scc.original(), node),
        node <= i < scc.original().len(),
        forall|v: int| 0 <= v < scc.original().len() && #[trigger] scc.visited@[v] ==> v >= node,
        forall|v: int| node <= v <= i ==> #[trigger] scc.visited@[v],
        scc.stack@.len() == 0,
        comps_exact(scc.subgraph(), scc.visited@, scc.stack@, scc.components()),
        comps_complete(scc.subgraph(), scc.visited@, scc.stack@, scc.components()),
        is_lowest_component(scc.components(), scc.original().len() as int, Some(members)),
        members.contains(node) || members.contains((node + 1) as usize),
        s == if members.contains(node) { node } else { (node + 1) as usize },
    ensures
        s < scc.original().len(),
        first_nontrivial(scc.original(), node, s),
        component_lists(subgraph_from(scc.original(), node), members, members)
            == induced(scc.original(), scc_set(subgraph_from(scc.original(), s), s)),
{
    let orig = scc.original();
    let n = orig.len();
    let comps = scc.components();
    let sub = subgraph_from(orig, node);
    lemma_lowest_found(scc, node, i, members, true);
    let (k, j) = choose|k: int, j: int| {
        &&& 0 <= k < comps.len()
        &&& 0 <= j < comps[k].len()
        &&& members == comps[k]
        &&& comps[k][j] < n
        &&& forall|k2: int, j2: int| 0 <= k2 < comps.len() && 0 <= j2 < comps[k2].len()
            ==> #[trigger] comps[k2][j2] >= comps[k][j]
        &&& forall|k2: int, j2: int| 0 <= k2 < k && 0 <= j2 < comps[k2].len()
            ==> #[trigger] comps[k2][j2] != comps[k][j]
    };
    assert(members.len() > 1 && members.no_duplicates());
    let ms = choose|m: int| 0 <= m < members.len() && members[m] == s;
    assert(comps[k][ms] == s);
    let kset = scc_set(subgraph_from(orig, s), s);
    lemma_found_set(scc, node, i, members, s, k, ms);
    let other = if members[0] != s { members[0] } else { members[1] };
    assert(members.contains(other)) by {
        if members[0] == s { assert(members[1] != members[0]); }
    }
    assert(kset.contains(other));
    assert(scc_nontrivial(subgraph_from(orig, s), s));
    assert forall|t: usize| node <= t < s implies !#[trigger] scc_nontrivial(subgraph_from(orig, t), t) by {
        assert(t == node);
    }
    lemma_component_induced(orig, node, members, kset);
}

/// The members of the component found are the component sought.
proof fn lemma_found_set(scc: &StrongConnectedComponents, node: usize, i: usize, members: Seq<usize>, s: usize, k: int, ms: int)
    requires
        scc.search_wf(),
        scc.original().len() <= usize::MAX,
        scc.subgraph() == subgraph_from(scc.original(), node),
        node <= i < scc.original().len(),
        forall|v: int| 0 <= v < scc.original().len() && #[trigger] scc.visited@[v] ==> v >= node,
        scc.stack@.len() == 0,
        comps_exact(scc.subgraph(), scc.visited@, scc.stack@, scc.components()),
        0 <= k < scc.components().len(),
        members == scc.components()[k],
        0 <= ms < members.len(),
        members[ms] == s,
        s == if members.contains(node) { node } else { (node + 1) as usize },
        !members.contains(node) ==> !scc_nontrivial(subgraph_from(scc.original(), node), node),
    ensures
        forall|y: usize| #[trigger] scc_set(subgraph_from(scc.original(), s), s).contains(y) <==> members.contains(y),
{
    let orig = scc.original();
    let comps = scc.components();
    let sub = subgraph_from(orig, node);
    let kset = scc_set(subgraph_from(orig, s), s);
    assert forall|y: usize| #[trigger] kset.contains(y) <==> members.contains(y) by {
        assert(same_scc(sub, comps[k][ms], y) <==> comps[k].contains(y));
        if s != node {
            let s1 = (node + 1) as usize;
            if y != s {
                if kset.contains(y) {
                    lemma_reached_at_least(orig, s1, s1, y);
                    lemma_scc_shift(orig, node, s1, y);
                }
                if members.contains(y) {
                    let my = choose|m: int| 0 <= m < members.len() && members[m] == y;
                    assert(y >= node) by { assert(members[my] >= node); }
                    lemma_scc_shift(orig, node, s1, y);
                }
            } else {
                lemma_reaches_refl(subgraph_from(orig, s), s);
            }
        }
    }
}

} // verus!

verus! {

/// A component search depends only on the graph and the node it starts from:
/// two results that `get_adjacency_list` may give for the same graph and node,
/// whatever the state each search started in, name the same least node and
/// the same lists.
pub proof fn lemma_component_search_repeatable(g: Seq<Seq<usize>>, node: usize, a: SCCResult, b: SCCResult)
    requires
        first_nontrivial(g, node, a.lowest()),
        a.adj() == induced(g, scc_set(subgraph_from(g, a.lowest()), a.lowest())),
        first_nontrivial(g, node, b.lowest()),
        b.adj() == induced(g, scc_set(subgraph_from(g, b.lowest()), b.lowest())),
    ensures
        a.lowest() == b.lowest(),
        a.adj() == b.adj(),
{
    if a.lowest() < b.lowest() {
        assert(!scc_nontrivial(subgraph_from(g, a.lowest()), a.lowest()));
    } else if b.lowest() < a.lowest() {
        assert(!scc_nontrivial(subgraph_from(g, b.lowest()), b.lowest()));
    }
}

} // verus!
