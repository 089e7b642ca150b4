//! Johnson's search for the elementary cycles of a directed graph.
use vstd::prelude::*;
use crate::johnson_find_cycles::graph::{
    adj_view, adj_wf, count_true, edges_within, has_edge, is_elementary_cycle, is_path,
    lemma_count_true_mono, lemma_cycle_nodes_in_graph, lemma_cycle_within, lemma_distinct_ids_bound,
};
use crate::johnson_find_cycles::scc_result::copy_adj;
use crate::johnson_find_cycles::vec_util::{empty_lists, falses, vec_contains};
use crate::johnson_find_cycles::graph::{induced, lemma_filter_within, subgraph_from};
use crate::johnson_find_cycles::strong_connected_components::{is_edge_target, StrongConnectedComponents};
use crate::johnson_find_cycles::subgraph_components::{first_nontrivial, lemma_sub_edge};
use crate::johnson_find_cycles::tarjan::{lemma_reaches_edge, lemma_reaches_refl, lemma_reaches_step, lemma_reaches_trans, reaches, same_scc, scc_nontrivial, scc_set};

verus! {

/// The names of the nodes of `c`, in order.
pub open spec fn name_list(names: Seq<String>, c: Seq<usize>) -> Seq<String> {
    c.map_values(|x: usize| names[x as int])
}

/// `c` starts at its least node.
pub open spec fn starts_at_least(c: Seq<usize>) -> bool {
    c.len() > 0 && forall|k: int| 0 <= k < c.len() ==> c[0] <= #[trigger] c[k]
}

/// A copy of lists of names.
pub fn copy_named(v: &Vec<Vec<String>>) -> (r: Vec<Vec<String>>)
    ensures
        Seq::new(r@.len(), |i: int| r@[i]@) == Seq::new(v@.len(), |i: int| v@[i]@),
{
    let mut r: Vec<Vec<String>> = Vec::new();
    let mut i: usize = 0;
    while i < v.len()
        invariant
            i <= v@.len(),
            r@.len() == i,
            forall|k: int| 0 <= k < i ==> #[trigger] r@[k]@ == v@[k]@,
        decreases v@.len() - i,
    {
        let mut row: Vec<String> = Vec::new();
        let mut j: usize = 0;
        while j < v[i].len()
            invariant
                i < v@.len(),
                j <= v@[i as int]@.len(),
                row@ == v@[i as int]@.take(j as int),
            decreases v@[i as int]@.len() - j,
        {
            row.push(v[i][j].clone());
            j += 1;
            proof { assert(row@ =~= v@[i as int]@.take(j as int)); }
        }
        proof { assert(row@ =~= v@[i as int]@); }
        r.push(row);
        i += 1;
    }
    proof { assert(Seq::new(r@.len(), |i: int| r@[i]@) =~= Seq::new(v@.len(), |i: int| v@[i]@)); }
    r
}

/// Searches a graph, whose nodes are named, for its elementary cycles.
pub struct ElementaryCyclesSearch {
    cycles: Vec<Vec<String>>,
    adj_list: Vec<Vec<usize>>,
    graph_nodes: Vec<String>,
    blocked: Vec<bool>,
    b: Vec<Vec<usize>>,
    stack: Vec<usize>,
    /// The cycles found, as node ids.
    found: Ghost<Seq<Seq<usize>>>,
    /// A logical clock that orders pushes, finishes and additions to the lists in `b`.
    clock: Ghost<int>,
    /// When each node was last pushed on the stack.
    pushed_at: Ghost<Seq<int>>,
    /// When each node last left the stack.
    finished_at: Ghost<Seq<int>>,
    /// When each entry of the lists in `b` was added.
    added_at: Ghost<Seq<Seq<int>>>,
}

impl ElementaryCyclesSearch {
    /// The graph searched.
    pub closed spec fn graph(&self) -> Seq<Seq<usize>> {
        adj_view(self.adj_list@)
    }

    /// The names of the nodes.
    pub closed spec fn names(&self) -> Seq<String> {
        self.graph_nodes@
    }

    /// The cycles recorded, as node ids.
    pub closed spec fn found_cycles(&self) -> Seq<Seq<usize>> {
        self.found@
    }

    /// The cycles recorded, as node names.
    pub closed spec fn named_cycles(&self) -> Seq<Seq<String>> {
        Seq::new(self.cycles@.len(), |i: int| self.cycles@[i]@)
    }

    pub closed spec fn blocked_nodes(&self) -> Seq<bool> {
        self.blocked@
    }

    /// For each node, the nodes waiting on it to be released.
    pub closed spec fn waiting_lists(&self) -> Seq<Seq<usize>> {
        adj_view(self.b@)
    }

    pub closed spec fn path_stack(&self) -> Seq<usize> {
        self.stack@
    }

    /// `names` lists the names of the nodes of the cycles `ids`, one to one.
    pub open spec fn names_of(names: Seq<String>, ids: Seq<Seq<usize>>, named: Seq<Seq<String>>) -> bool {
        &&& named.len() == ids.len()
        &&& forall|i: int| 0 <= i < ids.len() ==> #[trigger] named[i] == name_list(names, ids[i])
        &&& forall|i: int, k: int| 0 <= i < ids.len() && 0 <= k < ids[i].len() ==> #[trigger] ids[i][k] < names.len()
    }

    /// The recorded cycles are named after their nodes.
    pub closed spec fn output_wf(&self) -> bool {
        Self::names_of(self.graph_nodes@, self.found@, self.named_cycles())
    }

    /// Between searches: the recorded cycles are consistent and the stack is empty.
    pub closed spec fn is_ready(&self) -> bool {
        &&& self.output_wf()
        &&& self.stack@.len() == 0
    }

    /// Between searches the stack is empty and the recorded cycles are named
    /// after their nodes.
    pub proof fn lemma_ready(&self)
        requires
            self.is_ready(),
        ensures
            self.path_stack().len() == 0,
            Self::names_of(self.names(), self.found_cycles(), self.named_cycles()),
    {
    }

    /// The bookkeeping vectors cover the same nodes.
    pub closed spec fn lists_wf(&self) -> bool {
        let n = self.blocked@.len();
        &&& n <= usize::MAX
        &&& self.b@.len() == n
        &&& self.added_at@.len() == n
        &&& self.pushed_at@.len() == n
        &&& self.finished_at@.len() == n
        &&& forall|w: int| 0 <= w < n ==> (#[trigger] self.added_at@[w]).len() == self.b@[w]@.len()
        &&& forall|w: int, t: int| 0 <= w < n && 0 <= t < self.b@[w]@.len() ==> (#[trigger] self.b@[w]@[t]) < n
    }

    /// The order of events that keeps the nodes on the stack blocked while
    /// blocked nodes are released.
    pub closed spec fn times_wf(&self) -> bool {
        let n = self.blocked@.len();
        let st = self.stack@;
        &&& self.lists_wf()
        &&& st.no_duplicates()
        &&& forall|k: int| 0 <= k < st.len() ==> (#[trigger] st[k]) < n
        // an entry of a list was added after that list's node was last pushed,
        // when the entry's node finished
        &&& forall|w: int, t: int| 0 <= w < n && 0 <= t < self.added_at@[w].len() ==> {
            &&& #[trigger] self.added_at@[w][t] > self.pushed_at@[w]
            &&& self.added_at@[w][t] <= self.finished_at@[self.b@[w]@[t] as int]
        }
        // pushes along the stack are in order
        &&& forall|i: int, j: int| 0 <= i < j < st.len()
            ==> self.pushed_at@[#[trigger] st[i] as int] < self.pushed_at@[#[trigger] st[j] as int]
        // a node on the stack has not finished since its push
        &&& forall|k: int| 0 <= k < st.len() ==> self.finished_at@[#[trigger] st[k] as int] < self.pushed_at@[st[k] as int]
        // a node off the stack that finished after a stack node was pushed was pushed after it
        &&& forall|k: int, x: int| 0 <= k < st.len() && 0 <= x < n && !st.contains(x as usize)
            && #[trigger] self.finished_at@[x] > self.pushed_at@[#[trigger] st[k] as int]
            ==> self.pushed_at@[x] > self.pushed_at@[st[k] as int]
        &&& forall|x: int| 0 <= x < n ==> #[trigger] self.pushed_at@[x] <= self.clock@ && self.finished_at@[x] <= self.clock@
    }

    /// Releasing `node` starts from the top of the stack, or from a blocked
    /// node off the stack pushed after it while the top is already released.
    pub closed spec fn cascade_ok(&self, node: usize) -> bool {
        let st = self.stack@;
        &&& st.len() > 0
        &&& self.times_wf()
        &&& node == st.last() || {
            &&& !st.contains(node)
            &&& !self.blocked@[st.last() as int]
            &&& self.pushed_at@[node as int] > self.pushed_at@[st.last() as int]
        }
    }

    /// How many nodes stay blocked once `node` is released.
    pub closed spec fn blocked_with(&self, node: usize) -> nat {
        count_true(self.blocked@.update(node as int, true))
    }

    /// What releasing `node` changes: only released nodes lose their lists, and
    /// when the release started as `cascade_ok` says, the nodes under the top of
    /// the stack stay as they were.
    pub closed spec fn released_from(&self, old: &Self, node: usize) -> bool {
        &&& self.lists_wf()
        &&& self.stack == old.stack
        &&& self.pushed_at == old.pushed_at
        &&& self.finished_at == old.finished_at
        &&& self.clock == old.clock
        &&& self.adj_list == old.adj_list
        &&& self.graph_nodes == old.graph_nodes
        &&& self.cycles == old.cycles
        &&& self.found == old.found
        &&& self.blocked@.len() == old.blocked@.len()
        &&& !self.blocked@[node as int]
        &&& self.b@[node as int]@.len() == 0
        &&& forall|y: int| 0 <= y < old.blocked@.len() && #[trigger] self.blocked@[y] ==> {
            &&& old.blocked@[y]
            &&& self.b@[y] == old.b@[y]
            &&& self.added_at@[y] == old.added_at@[y]
        }
        &&& forall|y: int| 0 <= y < old.blocked@.len() && y != node && !#[trigger] old.blocked@[y] ==> {
            &&& !self.blocked@[y]
            &&& self.b@[y] == old.b@[y]
            &&& self.added_at@[y] == old.added_at@[y]
        }
        &&& forall|y: int| 0 <= y < old.blocked@.len() && #[trigger] old.blocked@[y] && !self.blocked@[y] ==> self.b@[y]@.len() == 0
        &&& forall|t: int| 0 <= t < old.b@[node as int]@.len() ==> !self.blocked@[#[trigger] old.b@[node as int]@[t] as int]
        &&& forall|y: int, t: int| 0 <= y < old.blocked@.len() && old.blocked@[y] && !self.blocked@[y] && 0 <= t < old.b@[y]@.len()
            ==> !self.blocked@[#[trigger] old.b@[y]@[t] as int]
        &&& old.times_wf() ==> self.times_wf()
        &&& old.cascade_ok(node) ==> forall|k: int| 0 <= k < old.stack@.len() - 1 ==> self.blocked@[#[trigger] old.stack@[k] as int] == old.blocked@[old.stack@[k] as int]
    }

    /// Every node that releasing `node` released, besides `node`, was blocked
    /// and waiting on it.
    pub closed spec fn released_only_waiting(&self, old: &Self, node: usize) -> bool {
        forall|y: usize| y < old.blocked@.len() && y != node && old.blocked@[y as int] && !#[trigger] self.blocked@[y as int]
            ==> waits_on(adj_view(old.b@), old.blocked@, node, y)
    }

    pub fn new(matrix: &Vec<Vec<usize>>, g_nodes: &Vec<String>) -> (r: Self)
        ensures
            r.graph() == adj_view(matrix@),
            r.names() == g_nodes@,
            r.found_cycles().len() == 0,
            r.named_cycles().len() == 0,
            r.path_stack().len() == 0,
            r.blocked_nodes().len() == 0,
            r.waiting_lists().len() == 0,
            r.is_ready(),
    {
        Self {
            cycles: Vec::new(),
            adj_list: copy_adj(matrix),
            graph_nodes: g_nodes.clone(),
            blocked: Vec::new(),
            b: Vec::new(),
            stack: Vec::new(),
            found: Ghost(Seq::empty()),
            clock: Ghost(0),
            pushed_at: Ghost(Seq::empty()),
            finished_at: Ghost(Seq::empty()),
            added_at: Ghost(Seq::empty()),
        }
    }

    /// Releases `node` and, through the lists in `b`, every blocked node
    /// waiting on it.
    pub fn unblock(&mut self, node: usize)
        requires
            node < old(self).blocked_nodes().len(),
            old(self).waiting_lists().len() == old(self).blocked_nodes().len(),
            forall|w: int, t: int| 0 <= w < old(self).waiting_lists().len() && 0 <= t < old(self).waiting_lists()[w].len()
                ==> #[trigger] old(self).waiting_lists()[w][t] < old(self).blocked_nodes().len(),
        ensures
            released_exactly(old(self).waiting_lists(), old(self).blocked_nodes(), final(self).waiting_lists(),
                final(self).blocked_nodes(), node),
            final(self).path_stack() == old(self).path_stack(),
            final(self).graph() == old(self).graph(),
            final(self).names() == old(self).names(),
            final(self).found_cycles() == old(self).found_cycles(),
            final(self).named_cycles() == old(self).named_cycles(),
            old(self).is_ready() ==> final(self).is_ready(),
    {
        let n = self.blocked.len();
        proof {
            if !self.lists_wf() {
                self.added_at@ = Seq::new(n as nat, |w: int| Seq::new(self.b@[w]@.len(), |t: int| 1int));
                self.pushed_at@ = Seq::new(n as nat, |w: int| 0int);
                self.finished_at@ = Seq::new(n as nat, |w: int| 1int);
            }
            assert(self.b@.len() == n);
            assert forall|w: int, t: int| 0 <= w < n && 0 <= t < self.b@[w]@.len() implies (#[trigger] self.b@[w]@[t]) < n by {
                assert(self.waiting_lists()[w] == self.b@[w]@);
            }
            assert(self.lists_wf());
        }
        let ghost before = *self;
        self.release(node);
        proof {
            lemma_released_exactly(&before, self, node);
        }
    }

    /// Releases `node` and, through the lists in `b`, every blocked node
    /// waiting on it, keeping the order of events.
    fn release(&mut self, node: usize)
        requires
            old(self).lists_wf(),
            node < old(self).blocked_nodes().len(),
        ensures
            final(self).released_from(old(self), node),
            final(self).released_only_waiting(old(self), node),
        decreases old(self).blocked_with(node),
    {
        let ghost entry = *self;
        self.blocked[node] = false;
        while self.b[node].len() > 0
            invariant
                entry == *old(self),
                entry.lists_wf(),
                node < entry.blocked@.len(),
                self.lists_wf(),
                self.blocked@.len() == entry.blocked@.len(),
                self.stack == entry.stack,
                self.pushed_at == entry.pushed_at,
                self.finished_at == entry.finished_at,
                self.clock == entry.clock,
                self.adj_list == entry.adj_list,
                self.graph_nodes == entry.graph_nodes,
                self.cycles == entry.cycles,
                self.found == entry.found,
                !self.blocked@[node as int],
                // the list of `node` is being drained from its front
                self.b@[node as int]@.len() <= entry.b@[node as int]@.len(),
                self.b@[node as int]@ == entry.b@[node as int]@.subrange(
                    entry.b@[node as int]@.len() - self.b@[node as int]@.len(), entry.b@[node as int]@.len() as int),
                self.added_at@[node as int] == entry.added_at@[node as int].subrange(
                    entry.b@[node as int]@.len() - self.b@[node as int]@.len(), entry.b@[node as int]@.len() as int),
                forall|y: int| 0 <= y < entry.blocked@.len() && #[trigger] self.blocked@[y] ==> {
                    &&& entry.blocked@[y]
                    &&& self.b@[y] == entry.b@[y]
                    &&& self.added_at@[y] == entry.added_at@[y]
                },
                forall|y: int| 0 <= y < entry.blocked@.len() && y != node && !#[trigger] entry.blocked@[y] ==> {
                    &&& !self.blocked@[y]
                    &&& self.b@[y] == entry.b@[y]
                    &&& self.added_at@[y] == entry.added_at@[y]
                },
                forall|y: int| 0 <= y < entry.blocked@.len() && y != node && #[trigger] entry.blocked@[y] && !self.blocked@[y]
                    ==> self.b@[y]@.len() == 0,
                forall|t: int| 0 <= t < entry.b@[node as int]@.len() - self.b@[node as int]@.len()
                    ==> !self.blocked@[#[trigger] entry.b@[node as int]@[t] as int],
                forall|y: int, t: int| 0 <= y < entry.blocked@.len() && y != node && entry.blocked@[y] && !self.blocked@[y] && 0 <= t < entry.b@[y]@.len()
                    ==> !self.blocked@[#[trigger] entry.b@[y]@[t] as int],
                entry.times_wf() ==> self.times_wf(),
                entry.cascade_ok(node) ==> forall|k: int| 0 <= k < entry.stack@.len() - 1
                    ==> self.blocked@[#[trigger] entry.stack@[k] as int] == entry.blocked@[entry.stack@[k] as int],
                self.released_only_waiting(&entry, node),
            decreases self.b@[node as int]@.len(),
        {
            let w = self.b[node][0];
            let ghost eb = entry.b@[node as int]@;
            let ghost ea = entry.added_at@[node as int];
            let ghost before_rm = self.b@[node as int]@;
            let ghost old_added = self.added_at@[node as int];
            self.b[node].remove(0);
            proof {
                self.added_at@ = self.added_at@.update(node as int, self.added_at@[node as int].drop_first());
                assert(before_rm == eb.subrange(eb.len() - before_rm.len(), eb.len() as int));
                assert(self.b@[node as int]@ == before_rm.remove(0));
                assert(self.b@[node as int]@.len() == before_rm.len() - 1);
                let m = before_rm.len() as int;
                let l = eb.len() as int;
                assert(0 <= l - m);
                let nb = self.b@[node as int]@;
                assert forall|k: int| 0 <= k < nb.len() implies nb[k] == eb[l - (m - 1) + k] by {
                    assert(nb[k] == before_rm[k + 1]);
                    assert(before_rm[k + 1] == eb.subrange(l - m, l)[k + 1]);
                }
                assert(nb =~= eb.subrange(l - nb.len(), l));
                let ba = entry.added_at@[node as int];
                assert(old_added == ea.subrange(l - m, l));
                assert forall|k: int| 0 <= k < nb.len() implies self.added_at@[node as int][k] == ea[l - (m - 1) + k] by {
                    assert(self.added_at@[node as int][k] == old_added[k + 1]);
                    assert(old_added[k + 1] == ea.subrange(l - m, l)[k + 1]);
                }
                assert(self.added_at@[node as int] =~= ea.subrange(l - nb.len(), l));
            }
            proof {
                let l = eb.len() as int;
                let m = before_rm.len() as int;
                assert(w == eb[l - m]) by {
                    assert(before_rm[0] == eb.subrange(l - m, l)[0]);
                }
                if entry.times_wf() {
                    assert(self.times_wf()) by {
                        let n = self.blocked@.len() as int;
                        assert forall|y: int, t: int| 0 <= y < n && 0 <= t < self.added_at@[y].len() implies {
                            &&& #[trigger] self.added_at@[y][t] > self.pushed_at@[y]
                            &&& self.added_at@[y][t] <= self.finished_at@[self.b@[y]@[t] as int]
                        } by {
                            if y == node as int {
                                assert(self.added_at@[y][t] == old_added[t + 1]);
                                assert(self.b@[y]@[t] == before_rm[t + 1]);
                            }
                        }
                    }
                }
            }
            if self.blocked[w] {
                proof {
                    lemma_count_true_mono(self.blocked@, entry.blocked@.update(node as int, true), node as int);
                    assert(self.blocked@.update(w as int, true) =~= self.blocked@);
                    if entry.cascade_ok(node) {
                        let st = entry.stack@;
                        let top = st.last();
                        let l = eb.len() as int;
                        let m = before_rm.len() as int;
                        assert(ea[l - m] > entry.pushed_at@[node as int]);
                        assert(ea[l - m] <= entry.finished_at@[w as int]);
                        assert(entry.pushed_at@[node as int] >= entry.pushed_at@[top as int]) by {
                            if node != top {
                            }
                        }
                        assert(!st.contains(w)) by {
                            if st.contains(w) {
                                let k = choose|k: int| 0 <= k < st.len() && st[k] == w;
                                if k == st.len() - 1 {
                                    assert(!self.blocked@[top as int]);
                                } else {
                                    assert(entry.pushed_at@[st[k] as int] < entry.pushed_at@[st[st.len() - 1] as int]);
                                    assert(entry.finished_at@[st[k] as int] < entry.pushed_at@[st[k] as int]);
                                }
                            }
                        }
                        assert(entry.finished_at@[w as int] > entry.pushed_at@[st[st.len() - 1] as int]);
                        assert(self.cascade_ok(w));
                    }
                }
                let ghost before = *self;
                self.release(w);
                proof {
                    lemma_waits_through(&entry, &before, self, node, w);
                    assert forall|y: int| 0 <= y < entry.blocked@.len() && y != node && #[trigger] entry.blocked@[y] && !self.blocked@[y]
                        implies self.b@[y]@.len() == 0 by {
                        if before.blocked@[y] {
                        } else {
                            assert(y != w as int);
                        }
                    }
                    let l = eb.len() as int;
                    let m = before_rm.len() as int;
                    assert forall|t: int| 0 <= t < l - self.b@[node as int]@.len()
                        implies !self.blocked@[#[trigger] entry.b@[node as int]@[t] as int] by {
                        if t < l - m {
                            let x = eb[t] as int;
                            assert(!before.blocked@[x]);
                            if x != w as int {
                                assert(!self.blocked@[x]);
                            }
                        } else {
                            assert(t == l - m);
                        }
                    }
                    assert forall|y: int, t: int| 0 <= y < entry.blocked@.len() && y != node && entry.blocked@[y] && !self.blocked@[y] && 0 <= t < entry.b@[y]@.len()
                        implies !self.blocked@[#[trigger] entry.b@[y]@[t] as int] by {
                        let x = entry.b@[y]@[t] as int;
                        if before.blocked@[y] {
                            assert(before.b@[y] == entry.b@[y]);
                            if y == w as int {
                                assert(before.b@[w as int]@[t] == entry.b@[y]@[t]);
                            } else {
                                assert(before.b@[y]@[t] == entry.b@[y]@[t]);
                            }
                        } else {
                            assert(!before.blocked@[x]);
                            if x != w as int {
                                assert(!self.blocked@[x]);
                            }
                        }
                    }
                }
            } else {
                proof {
                    let l = eb.len() as int;
                    let m = before_rm.len() as int;
                    assert forall|t: int| 0 <= t < l - self.b@[node as int]@.len()
                        implies !self.blocked@[#[trigger] entry.b@[node as int]@[t] as int] by {
                        if t == l - m {
                            assert(entry.b@[node as int]@[t] == w);
                        }
                    }
                }
            }
        }
    }

    /// Finds the elementary cycles: for each strongly connected component
    /// found from the least node on, the cycles through its least node, which
    /// is then left out. Each cycle is found once for each way to walk it
    /// through the adjacency lists, in the order of the positions walked.
    /// Returns all cycles recorded so far, by node names.
    #[verifier::spinoff_prover]
    pub fn get_elementary_cycles(&mut self) -> (r: Vec<Vec<String>>)
        requires
            old(self).is_ready(),
            adj_wf(old(self).graph()),
            forall|c: Seq<usize>| #[trigger] reported_cycle(old(self).graph(), c)
                ==> forall|k: int| 0 <= k < c.len() ==> #[trigger] c[k] < old(self).names().len(),
        ensures
            final(self).is_ready(),
            final(self).graph() == old(self).graph(),
            final(self).names() == old(self).names(),
            Seq::new(r@.len(), |i: int| r@[i]@) == final(self).named_cycles(),
            Self::names_of(final(self).names(), final(self).found_cycles(), final(self).named_cycles()),
            old(self).found_cycles().len() <= final(self).found_cycles().len(),
            forall|i: int| 0 <= i < old(self).found_cycles().len()
                ==> #[trigger] final(self).found_cycles()[i] == old(self).found_cycles()[i],
            forall|i: int| old(self).found_cycles().len() <= i < final(self).found_cycles().len()
                ==> reported_cycle(final(self).graph(), #[trigger] final(self).found_cycles()[i]),
            forall|c: Seq<usize>| #[trigger] reported_cycle(final(self).graph(), c) ==> final(self).found_cycles().subrange(
                old(self).found_cycles().len() as int, final(self).found_cycles().len() as int).contains(c),
            lists_distinct(final(self).graph()) ==> final(self).found_cycles().subrange(
                old(self).found_cycles().len() as int, final(self).found_cycles().len() as int).no_duplicates(),
            forall|t: int, u: int| old(self).found_cycles().len() <= t < u < final(self).found_cycles().len()
                ==> #[trigger] final(self).found_cycles()[t][0] <= #[trigger] final(self).found_cycles()[u][0],
            lists_distinct(final(self).graph()) ==> in_search_order(final(self).graph(), final(self).found_cycles().subrange(
                old(self).found_cycles().len() as int, final(self).found_cycles().len() as int)),
            forall|c: Seq<usize>| #[trigger] reported_cycle(final(self).graph(), c) ==> occurrences(final(self).found_cycles().subrange(
                old(self).found_cycles().len() as int, final(self).found_cycles().len() as int), c) == ways_from(final(self).graph(), c, 0),
            exists|ps: Seq<Seq<int>>| #[trigger] search_listing(final(self).graph(), final(self).found_cycles().subrange(
                old(self).found_cycles().len() as int, final(self).found_cycles().len() as int), ps),
            final(self).blocked_nodes().len() == final(self).graph().len(),
            final(self).waiting_lists().len() == final(self).graph().len(),
            forall|w: int| 0 <= w < final(self).graph().len() ==> !#[trigger] final(self).blocked_nodes()[w],
            forall|w: int| 0 <= w < final(self).graph().len() ==> #[trigger] final(self).waiting_lists()[w].len() == 0,
            forall|w: int, t: int| 0 <= w < final(self).graph().len() && 0 <= t < final(self).waiting_lists()[w].len()
                ==> #[trigger] final(self).waiting_lists()[w][t] < final(self).graph().len(),
            forall|w: int| 0 <= w < final(self).graph().len() && !#[trigger] final(self).blocked_nodes()[w]
                ==> final(self).waiting_lists()[w].len() == 0,
    {
        let n = self.adj_list.len();
        let ghost entry = *self;
        self.blocked = falses(n);
        self.b = empty_lists(n);
        proof {
            self.pushed_at@ = Seq::new(n as nat, |i: int| 0int);
            self.finished_at@ = Seq::new(n as nat, |i: int| 0int);
            self.added_at@ = Seq::new(n as nat, |i: int| Seq::<int>::empty());
            self.clock@ = 0;
        }
        proof {
            assert(in_search_order(self.graph(), self.found@.subrange(entry.found@.len() as int, self.found@.len() as int))) by {
                reveal(in_search_order);
            }
        }
        let mut sccs = StrongConnectedComponents::new(&self.adj_list);
        let mut s: usize = 0;
        let ghost mut all_ps: Seq<Seq<int>> = Seq::empty();
        proof {
            assert(searched_in_order(self.graph(), self.found@.subrange(entry.found@.len() as int, self.found@.len() as int), all_ps));
        }
        loop
            invariant
                n == self.adj_list@.len(),
                self.graph() == entry.graph(),
                self.graph_nodes == entry.graph_nodes,
                adj_wf(self.graph()),
                forall|c: Seq<usize>| #[trigger] reported_cycle(self.graph(), c)
                    ==> forall|k: int| 0 <= k < c.len() ==> #[trigger] c[k] < self.graph_nodes@.len(),
                sccs.original() == self.graph(),
                self.blocked@.len() == n,
                self.lists_wf(),
                self.times_wf(),
                self.is_ready(),
                forall|w: int| 0 <= w < n && !#[trigger] self.blocked@[w] ==> self.b@[w]@.len() == 0,
                forall|w: int| 0 <= w < n ==> !#[trigger] self.blocked@[w],
                s <= n,
                entry.found@.len() <= self.found@.len(),
                forall|i: int| 0 <= i < entry.found@.len() ==> #[trigger] self.found@[i] == entry.found@[i],
                forall|i: int| entry.found@.len() <= i < self.found@.len() ==> reported_cycle(self.graph(), #[trigger] self.found@[i]),
                forall|c: Seq<usize>| #[trigger] reported_cycle(self.graph(), c) && c[0] < s
                    ==> self.found@.subrange(entry.found@.len() as int, self.found@.len() as int).contains(c),
                forall|t: int| entry.found@.len() <= t < self.found@.len() ==> (#[trigger] self.found@[t])[0] < s,
                lists_distinct(self.graph()) ==> self.found@.subrange(entry.found@.len() as int, self.found@.len() as int).no_duplicates(),
                forall|t: int, u: int| entry.found@.len() <= t < u < self.found@.len()
                    ==> #[trigger] self.found@[t][0] <= #[trigger] self.found@[u][0],
                lists_distinct(self.graph()) ==> in_search_order(self.graph(), self.found@.subrange(entry.found@.len() as int, self.found@.len() as int)),
                forall|c: Seq<usize>| #[trigger] reported_cycle(self.graph(), c) && c[0] < s ==> occurrences(
                    self.found@.subrange(entry.found@.len() as int, self.found@.len() as int), c) == ways_from(self.graph(), c, 0),
                searched_in_order(self.graph(), self.found@.subrange(entry.found@.len() as int, self.found@.len() as int), all_ps),
                walks_complete_below(self.graph(), self.found@.subrange(entry.found@.len() as int, self.found@.len() as int), all_ps, s as int),
            ensures
                self.is_ready(),
                self.graph() == entry.graph(),
                self.graph_nodes == entry.graph_nodes,
                entry.found@.len() <= self.found@.len(),
                forall|i: int| 0 <= i < entry.found@.len() ==> #[trigger] self.found@[i] == entry.found@[i],
                forall|i: int| entry.found@.len() <= i < self.found@.len() ==> reported_cycle(self.graph(), #[trigger] self.found@[i]),
                forall|c: Seq<usize>| #[trigger] reported_cycle(self.graph(), c)
                    ==> self.found@.subrange(entry.found@.len() as int, self.found@.len() as int).contains(c),
                lists_distinct(self.graph()) ==> self.found@.subrange(entry.found@.len() as int, self.found@.len() as int).no_duplicates(),
                forall|t: int, u: int| entry.found@.len() <= t < u < self.found@.len()
                    ==> #[trigger] self.found@[t][0] <= #[trigger] self.found@[u][0],
                lists_distinct(self.graph()) ==> in_search_order(self.graph(), self.found@.subrange(entry.found@.len() as int, self.found@.len() as int)),
                self.blocked@.len() == n,
                self.lists_wf(),
                forall|w: int| 0 <= w < n && !#[trigger] self.blocked@[w] ==> self.b@[w]@.len() == 0,
                forall|w: int| 0 <= w < n ==> !#[trigger] self.blocked@[w],
                forall|c: Seq<usize>| #[trigger] reported_cycle(self.graph(), c) ==> occurrences(
                    self.found@.subrange(entry.found@.len() as int, self.found@.len() as int), c) == ways_from(self.graph(), c, 0),
                searched_in_order(self.graph(), self.found@.subrange(entry.found@.len() as int, self.found@.len() as int), all_ps),
                walks_complete(self.graph(), self.found@.subrange(entry.found@.len() as int, self.found@.len() as int), all_ps),
            decreases n - s,
        {
            let ghost s_from = s;
            let scc_result = sccs.get_adjacency_list(s);
            if scc_result.is_some() && scc_result.as_ref().unwrap().get_adj_list().len() > 0 {
                let scc = scc_result.as_ref().unwrap().get_adj_list();
                s = scc_result.as_ref().unwrap().get_lowest_node_id();
                let ghost g = adj_view(scc@);
                proof {
                    assert(g == scc_result.unwrap().adj());
                    assert(forall|t: int| 0 <= t < s ==> #[trigger] g[t].len() == 0);
                }
                let ghost round = *self;
                let mut j: usize = 0;
                while j < scc.len()
                    invariant
                        n == self.adj_list@.len(),
                        g == adj_view(scc@),
                        g.len() == n,
                        self.graph() == entry.graph(),
                        self.graph_nodes == entry.graph_nodes,
                        self.found == round.found,
                        self.cycles == round.cycles,
                        self.blocked@.len() == n,
                        self.lists_wf(),
                        self.times_wf(),
                        self.is_ready(),
                        forall|w: int| 0 <= w < n && !#[trigger] self.blocked@[w] ==> self.b@[w]@.len() == 0,
                forall|w: int| 0 <= w < n ==> !#[trigger] self.blocked@[w],
                        forall|w: int| 0 <= w < j && (#[trigger] g[w]).len() > 0 ==> !self.blocked@[w],
                        j <= n,
                    decreases n - j,
                {
                    if scc[j].len() > 0 {
                        self.blocked[j] = false;
                        self.b[j].clear();
                        proof {
                            self.added_at@ = self.added_at@.update(j as int, Seq::<int>::empty());
                        }
                    }
                    j += 1;
                }
                let ghost before = *self;
                proof {
                    assert forall|c: Seq<usize>| #[trigger] extends(adj_view(scc@), self.path_stack().push(s), c)
                        implies forall|k: int| 0 <= k < c.len() ==> #[trigger] c[k] < self.names().len() by {
                        assert(c[0] == c.take(1)[0]);
                        lemma_cycle_starts_at_least(g, c, s);
                        lemma_cycle_within(g, self.graph(), c);
                        assert(reported_cycle(self.graph(), c));
                    }
                }
                proof {
                    assert(walk_positions(g, self.path_stack(), s, Seq::<int>::empty()));
                }
                let round = self.search_cycles(s, s, &scc, Ghost(Seq::empty()));
                proof {
                    assert(before.path_stack().push(s)[0] == s);
                    assert forall|i: int| entry.found@.len() <= i < self.found@.len() implies reported_cycle(self.graph(), #[trigger] self.found@[i]) by {
                        if i >= before.found@.len() {
                            assert(extends(adj_view(scc@), before.path_stack().push(s), self.found_cycles()[i]));
                            assert(self.found@[i][0] == self.found@[i].take(1)[0]);
                            lemma_cycle_starts_at_least(g, self.found@[i], s);
                            assert(self.found@[i][0] == s);
                            lemma_cycle_within(g, self.graph(), self.found@[i]);
                        } else {
                            assert(self.found@[i] == before.found@[i]);
                        }
                    }
                    assert forall|c: Seq<usize>| #[trigger] extends(g, before.stack@.push(s), c)
                        implies self.found@.subrange(before.found@.len() as int, self.found@.len() as int).contains(c) by {
                        assert(extends(adj_view(scc@), before.path_stack().push(s), c));
                        assert(self.found_cycles() == self.found@);
                        assert(before.found_cycles() == before.found@);
                    }
                    lemma_search_reports(&before, self, g, s_from, s, entry.found@.len() as int);
                    assert forall|t: int| before.found@.len() <= t < self.found@.len() implies (#[trigger] self.found@[t]).len() > 0 && self.found@[t][0] == s by {
                        assert(extends(adj_view(scc@), before.path_stack().push(s), self.found_cycles()[t]));
                        assert(self.found@[t][0] == self.found@[t].take(1)[0]);
                    }
                    assert forall|t: int| entry.found@.len() <= t < before.found@.len() implies (#[trigger] before.found@[t]).len() > 0 && before.found@[t][0] < s_from by {
                        assert(reported_cycle(before.graph(), before.found@[t]));
                    }
                    assert forall|c: Seq<usize>| #[trigger] extends(g, before.stack@.push(s), c) implies occurrences(
                        self.found@.subrange(before.found@.len() as int, self.found@.len() as int), c) == ways_from(g, c, 0) by {
                        assert(extends(adj_view(scc@), before.path_stack().push(s), c));
                        assert(self.found_cycles() == self.found@);
                        assert(before.found_cycles() == before.found@);
                    }
                    lemma_search_counts(&before, self, g, s_from, s, entry.found@.len() as int);
                    assert(g == component_graph(self.graph(), s));
                    assert(self.stack@.len() == 0);
                    lemma_round_released(self, self.graph(), s, before.blocked@);
                    let rps = round.1@;
                    let old_cs = before.found@.subrange(entry.found@.len() as int, before.found@.len() as int);
                    let round_cs = self.found@.subrange(before.found@.len() as int, self.found@.len() as int);
                    assert(g == component_graph(self.graph(), s));
                    assert forall|t: int| 0 <= t < round_cs.len() implies positions_of(g, round_cs[t], #[trigger] rps[t]) by {
                        assert(round_cs[t] == self.found_cycles()[before.found_cycles().len() + t]);
                    }
                    assert(walked_in_order(component_graph(self.graph(), s), round_cs, rps));
                    assert forall|t: int| 0 <= t < old_cs.len() implies (#[trigger] old_cs[t]).len() > 0 && old_cs[t][0] < s by {
                        assert(old_cs[t] == before.found@[entry.found@.len() + t]);
                    }
                    assert forall|t: int| 0 <= t < round_cs.len() implies (#[trigger] round_cs[t]).len() > 0 && round_cs[t][0] == s by {
                        assert(round_cs[t] == self.found@[before.found@.len() + t]);
                    }
                    lemma_round_positions(self.graph(), old_cs, round_cs, all_ps, rps, s);
                    assert(self.found@.subrange(entry.found@.len() as int, self.found@.len() as int) =~= old_cs + round_cs);
                    assert(before.path_stack().push(s) =~= seq![s]);
                    assert forall|c: Seq<usize>, q: Seq<int>| #![trigger extends(component_graph(self.graph(), s), seq![s], c), positions_of(component_graph(self.graph(), s), c, q)]
                        extends(component_graph(self.graph(), s), seq![s], c) && positions_of(component_graph(self.graph(), s), c, q)
                        implies exists|t: int| 0 <= t < round_cs.len() && round_cs[t] == c && #[trigger] rps[t] == q by {
                        assert(extends(adj_view(scc@), before.path_stack().push(s), c));
                        assert(positions_of(adj_view(scc@), c, q));
                        assert(q.take(0) =~= Seq::<int>::empty());
                        let t = choose|t: int| 0 <= t < rps.len() && self.found_cycles()[before.found_cycles().len() + t] == c && #[trigger] rps[t] == q;
                        assert(round_cs[t] == self.found@[before.found@.len() + t]);
                    }
                    lemma_round_complete(self.graph(), old_cs, round_cs, all_ps, rps, s_from, s);
                    all_ps = all_ps + rps;
                    if lists_distinct(self.graph()) {
                        lemma_induced_distinct(self.graph(), scc_set(subgraph_from(self.graph(), s), s));
                        assert(lists_distinct(adj_view(scc@)));
                        assert(self.found_cycles().subrange(before.found_cycles().len() as int, self.found_cycles().len() as int).no_duplicates());
                        lemma_rounds_distinct(before.found@, self.found@, entry.found@.len() as int, s_from, s);
                        assert(in_choice_order(g, self.found@.subrange(before.found@.len() as int, self.found@.len() as int)));
                        lemma_rounds_order(before.found@, self.found@, entry.found@.len() as int, self.graph(),
                            scc_set(subgraph_from(self.graph(), s), s), s_from, s);
                    }
                    assert forall|t: int, u: int| entry.found@.len() <= t < u < self.found@.len()
                        implies #[trigger] self.found@[t][0] <= #[trigger] self.found@[u][0] by {
                        if u < before.found@.len() {
                            assert(self.found@[t] == before.found@[t] && self.found@[u] == before.found@[u]);
                        } else if t < before.found@.len() {
                            assert(self.found@[t] == before.found@[t]);
                        }
                    }
                    assert forall|t: int| entry.found@.len() <= t < self.found@.len() implies (#[trigger] self.found@[t])[0] < s + 1 by {
                        if t < before.found@.len() {
                            assert(self.found@[t] == before.found@[t]);
                        }
                    }
                }
                s += 1;
            } else {
                proof {
                    let gr = self.graph();
                    assert(scc_result is None) by {
                        if scc_result is Some {
                            assert(scc_result.unwrap().adj().len() == gr.len());
                        }
                    }
                    assert forall|c: Seq<usize>| #[trigger] reported_cycle(gr, c)
                        implies self.found@.subrange(entry.found@.len() as int, self.found@.len() as int).contains(c) by {
                        if c[0] >= s {
                            lemma_reported_nontrivial(gr, c);
                        }
                    }
                    let cs = self.found@.subrange(entry.found@.len() as int, self.found@.len() as int);
                    assert forall|c: Seq<usize>, q: Seq<int>| #![trigger reported_cycle(gr, c), positions_of(component_graph(gr, c[0]), c, q)]
                        reported_cycle(gr, c) && positions_of(component_graph(gr, c[0]), c, q)
                        implies exists|t: int| 0 <= t < cs.len() && cs[t] == c && #[trigger] all_ps[t] == q by {
                        if c[0] >= s {
                            lemma_reported_nontrivial(gr, c);
                        }
                    }
                    assert forall|c: Seq<usize>| #[trigger] reported_cycle(gr, c) implies occurrences(
                        self.found@.subrange(entry.found@.len() as int, self.found@.len() as int), c) == ways_from(gr, c, 0) by {
                        if c[0] >= s {
                            lemma_reported_nontrivial(gr, c);
                        }
                    }
                }
                break;
            }
        }
        proof {
            assert(search_listing(self.graph(), self.found@.subrange(entry.found@.len() as int, self.found@.len() as int), all_ps));
            assert(self.found_cycles().subrange(entry.found_cycles().len() as int, self.found_cycles().len() as int)
                == self.found@.subrange(entry.found@.len() as int, self.found@.len() as int));
            assert forall|w: int, t: int| 0 <= w < n && 0 <= t < self.waiting_lists()[w].len()
                implies #[trigger] self.waiting_lists()[w][t] < n by {
                assert(self.waiting_lists()[w] == self.b@[w]@);
            }
            assert forall|w: int| 0 <= w < n && !#[trigger] self.blocked_nodes()[w] implies self.waiting_lists()[w].len() == 0 by {
                assert(self.waiting_lists()[w] == self.b@[w]@);
            }
            assert forall|w: int| 0 <= w < n implies #[trigger] self.waiting_lists()[w].len() == 0 by {
                assert(!self.blocked@[w]);
                assert(self.waiting_lists()[w] == self.b@[w]@);
            }
        }
        copy_named(&self.cycles)
    }

    /// The state of the search for walks back to `s` in the subgraph `g`:
    /// the stack is a walk along edges of `g` whose nodes are all blocked and
    /// that holds `s` at most at its bottom, released nodes have empty lists,
    /// and the events are ordered as `times_wf` says.
    pub closed spec fn search_at(&self, g: Seq<Seq<usize>>, s: usize) -> bool {
        let n = self.blocked@.len();
        let st = self.stack@;
        &&& g.len() <= n
        &&& adj_wf(g)
        &&& self.times_wf()
        &&& self.output_wf()
        &&& forall|w: int| 0 <= w < n && !#[trigger] self.blocked@[w] ==> self.b@[w]@.len() == 0
        &&& forall|k: int| 0 <= k < st.len() ==> self.blocked@[#[trigger] st[k] as int]
        &&& forall|k: int| 1 <= k < st.len() ==> #[trigger] st[k] != s
        &&& forall|k: int| 0 <= k < st.len() - 1 ==> #[trigger] has_edge(g, st[k], st[k + 1])
    }

    /// What a search step from the top of the stack keeps and adds: the same
    /// stack, graph and names, the walks found before, and new walks of `g`
    /// that end with an edge back to `s`.
    pub closed spec fn searched_from(&self, old: &Self, g: Seq<Seq<usize>>, s: usize) -> bool {
        &&& self.stack@ == old.stack@
        &&& self.adj_list == old.adj_list
        &&& self.graph_nodes == old.graph_nodes
        &&& self.blocked@.len() == old.blocked@.len()
        &&& old.found@.len() <= self.found@.len()
        &&& forall|i: int| 0 <= i < old.found@.len() ==> #[trigger] self.found@[i] == old.found@[i]
        &&& forall|i: int| old.found@.len() <= i < self.found@.len() ==> closes_at(g, s, #[trigger] self.found@[i])
    }

    /// Walks from `v` to every walk back to `s` that continues the stack, in
    /// the subgraph `adj_list`, records each, and tells whether one was found.
    /// When the stack starts at `s`, these are the cycles through `s`.
    #[verifier::spinoff_prover]
    fn search_cycles(&mut self, v: usize, s: usize, adj_list: &Vec<Vec<usize>>, Ghost(pre): Ghost<Seq<int>>)
        -> (res: (bool, Ghost<Seq<Seq<int>>>))
        requires
            old(self).search_at(adj_view(adj_list@), s),
            v < adj_list@.len(),
            !old(self).blocked_nodes()[v as int],
            old(self).path_stack().len() > 0 ==> v != s
                && has_edge(adj_view(adj_list@), old(self).path_stack().last(), v),
            old(self).blocked_closed(adj_view(adj_list@), s),
            old(self).path_stack().push(v)[0] == s ==> forall|c: Seq<usize>| #[trigger] extends(adj_view(adj_list@), old(self).path_stack().push(v), c)
                ==> forall|k: int| 0 <= k < c.len() ==> #[trigger] c[k] < old(self).names().len(),
            old(self).path_stack().push(v)[0] == s || adj_list@.len() <= old(self).names().len(),
            walk_positions(adj_view(adj_list@), old(self).path_stack(), v, pre),
        ensures
            final(self).search_at(adj_view(adj_list@), s),
            final(self).searched_from(old(self), adj_view(adj_list@), s),
            final(self).blocked_closed(adj_view(adj_list@), s),
            forall|t: int| old(self).found_cycles().len() <= t < final(self).found_cycles().len()
                ==> walk_from(adj_view(adj_list@), s, old(self).path_stack().push(v), #[trigger] final(self).found_cycles()[t]),
            !res.0 ==> final(self).found_cycles().len() == old(self).found_cycles().len(),
            forall|y: int| 0 <= y < old(self).blocked_nodes().len() && #[trigger] final(self).blocked_nodes()[y] && !old(self).blocked_nodes()[y]
                ==> y == v || is_edge_target(adj_view(adj_list@), y as usize),
            !res.0 ==> final(self).blocked_nodes()[v as int],
            !res.0 ==> forall|y: int| 0 <= y < old(self).blocked_nodes().len() && #[trigger] old(self).blocked_nodes()[y]
                ==> final(self).blocked_nodes()[y],
            res.0 ==> final(self).found_cycles().len() > old(self).found_cycles().len(),
            res.0 ==> !final(self).blocked_nodes()[v as int],
            !res.0 ==> forall|k: int| 0 <= k < adj_view(adj_list@)[v as int].len()
                ==> final(self).b@[#[trigger] adj_view(adj_list@)[v as int][k] as int]@.contains(v),
            old(self).path_stack().push(v)[0] == s ==> forall|c: Seq<usize>| #[trigger] extends(adj_view(adj_list@), old(self).path_stack().push(v), c)
                ==> final(self).found_cycles().subrange(old(self).found_cycles().len() as int, final(self).found_cycles().len() as int).contains(c),
            old(self).path_stack().push(v)[0] == s ==> forall|t: int| old(self).found_cycles().len() <= t < final(self).found_cycles().len()
                ==> extends(adj_view(adj_list@), old(self).path_stack().push(v), #[trigger] final(self).found_cycles()[t]),
            old(self).path_stack().push(v)[0] == s && lists_distinct(adj_view(adj_list@)) ==> final(self).found_cycles().subrange(
                old(self).found_cycles().len() as int, final(self).found_cycles().len() as int).no_duplicates(),
            old(self).path_stack().push(v)[0] == s && lists_distinct(adj_view(adj_list@)) ==> in_choice_order(adj_view(adj_list@), final(self).found_cycles().subrange(
                old(self).found_cycles().len() as int, final(self).found_cycles().len() as int)),
            old(self).path_stack().push(v)[0] == s ==> forall|c: Seq<usize>| #[trigger] extends(adj_view(adj_list@), old(self).path_stack().push(v), c)
                ==> occurrences(final(self).found_cycles().subrange(old(self).found_cycles().len() as int,
                    final(self).found_cycles().len() as int), c) == ways_from(adj_view(adj_list@), c, old(self).path_stack().len() as int),
            old(self).path_stack().push(v)[0] == s ==> res.1@.len() == final(self).found_cycles().len() - old(self).found_cycles().len(),
            old(self).path_stack().push(v)[0] == s ==> forall|t: int| 0 <= t < res.1@.len() ==> {
                &&& positions_of(adj_view(adj_list@), final(self).found_cycles()[old(self).found_cycles().len() + t], #[trigger] res.1@[t])
                &&& res.1@[t].len() > pre.len()
                &&& res.1@[t].take(pre.len() as int) == pre
            },
            old(self).path_stack().push(v)[0] == s ==> forall|t: int, u: int| 0 <= t < u < res.1@.len() ==> lex_before(#[trigger] res.1@[t], #[trigger] res.1@[u]),
            old(self).path_stack().push(v)[0] == s ==> forall|c: Seq<usize>, q: Seq<int>| #![trigger extends(adj_view(adj_list@), old(self).path_stack().push(v), c), positions_of(adj_view(adj_list@), c, q)]
                extends(adj_view(adj_list@), old(self).path_stack().push(v), c) && positions_of(adj_view(adj_list@), c, q)
                && q.take(pre.len() as int) == pre
                ==> exists|t: int| 0 <= t < res.1@.len() && final(self).found_cycles()[old(self).found_cycles().len() + t] == c
                    && #[trigger] res.1@[t] == q,
        decreases old(self).blocked_nodes().len() - old(self).path_stack().len(),
    {
        let ghost g = adj_view(adj_list@);
        let ghost entry = *self;
        let ghost n = self.blocked@.len();
        let _nodes = self.blocked.len();
        let mut f = false;
        self.stack.push(v);
        proof {
            self.clock@ = self.clock@ + 1;
            self.pushed_at@ = self.pushed_at@.update(v as int, self.clock@);
        }
        self.blocked[v] = true;
        proof {
            assert(!entry.stack@.contains(v)) by {
                if entry.stack@.contains(v) {
                    let k = choose|k: int| 0 <= k < entry.stack@.len() && entry.stack@[k] == v;
                }
            }
            lemma_push_keeps_search(&entry, self, g, s, v);
            lemma_distinct_ids_bound(self.stack@, n);
            lemma_push_keeps_closed(&entry, self, g, s, v);
        }
        let ghost p = self.stack@;
        let ghost cyc = p[0] == s;
        let ghost mut ps: Seq<Seq<int>> = Seq::empty();
        proof {
            lemma_upto_start(self.found@, g, p, v);
            lemma_counted_start(self.found@, g, p, v);
            lemma_ps_start(self.found@, g, pre);
            lemma_pos_start(self.found@, g, p, pre);
            reveal(in_choice_order);
            assert(p[0] == entry.path_stack().push(v)[0]);
        }
        let mut i: usize = 0;
        while i < adj_list[v].len()
            invariant
                entry == *old(self),
                g == adj_view(adj_list@),
                n == entry.blocked@.len(),
                v < n,
                v < g.len(),
                entry.search_at(g, s),
                self.search_at(g, s),
                self.stack@ == entry.stack@.push(v),
                self.stack@.len() <= n,
                self.adj_list == entry.adj_list,
                self.graph_nodes == entry.graph_nodes,
                self.blocked@.len() == n,
                entry.found@.len() <= self.found@.len(),
                forall|j: int| 0 <= j < entry.found@.len() ==> #[trigger] self.found@[j] == entry.found@[j],
                forall|j: int| entry.found@.len() <= j < self.found@.len() ==> walk_from(g, s, p, #[trigger] self.found@[j]),
                !f ==> forall|y: int| 0 <= y < n && #[trigger] entry.blocked@[y] ==> self.blocked@[y],
                !f ==> forall|k: int| 0 <= k < i ==> self.blocked@[#[trigger] g[v as int][k] as int] && g[v as int][k] != s,
                i <= g[v as int].len(),
                p == entry.stack@.push(v),
                self.blocked_closed(g, s),
                !f ==> self.found@.len() == entry.found@.len(),
                cyc == (p[0] == s),
                forall|y: int| 0 <= y < n && #[trigger] self.blocked@[y] && !entry.blocked@[y] ==> y == v || is_edge_target(g, y as usize),
                cyc ==> covered_upto(self.found@, entry.found@.len() as int, g, p, v, i as int),
                cyc ==> recorded_upto(self.found@, entry.found@.len() as int, g, p, v, i as int),
                cyc ==> counted_upto(self.found@, entry.found@.len() as int, g, p, v, i as int),
                walk_positions(g, entry.stack@, v, pre),
                cyc ==> ps_upto(self.found@, entry.found@.len() as int, g, pre, ps, i as int),
                cyc ==> ps.len() == self.found@.len() - entry.found@.len(),
                cyc ==> pos_covered_upto(self.found@, entry.found@.len() as int, g, p, pre, ps, i as int),
                cyc && lists_distinct(g) ==> in_choice_order(g, self.found@.subrange(entry.found@.len() as int, self.found@.len() as int)),
                cyc ==> forall|c: Seq<usize>| #[trigger] extends(g, p, c) ==> forall|k: int| 0 <= k < c.len() ==> #[trigger] c[k] < self.graph_nodes@.len(),
                !cyc ==> g.len() <= self.graph_nodes@.len(),
                f ==> self.found@.len() > entry.found@.len(),
            decreases g[v as int].len() - i,
        {
            let w = adj_list[v][i];
            proof { assert(g[v as int][i as int] == w); }
            if w == s {
                proof {
                    assert(p.take(p.len() as int) =~= p);
                    assert(self.stack@ == p);
                    if cyc {
                        lemma_stack_cycle(self, g, s, v);
                        assert(extends(g, p, p));
                        assert forall|k: int| 0 <= k < self.stack@.len() implies #[trigger] self.stack@[k] < self.graph_nodes@.len() by {
                            assert(p[k] < self.graph_nodes@.len());
                        }
                    } else {
                        lemma_stack_in_graph(self, g, s);
                    }
                }
                let mut cycle: Vec<String> = Vec::new();
                let mut j: usize = 0;
                while j < self.stack.len()
                    invariant
                        self.search_at(g, s),
                        forall|k: int| 0 <= k < self.stack@.len() ==> #[trigger] self.stack@[k] < self.graph_nodes@.len(),
                        j <= self.stack@.len(),
                        cycle@ == name_list(self.graph_nodes@, self.stack@.take(j as int)),
                    decreases self.stack@.len() - j,
                {
                    let index = self.stack[j];
                    cycle.push(self.graph_nodes[index].clone());
                    j += 1;
                    proof {
                        assert(cycle@ =~= name_list(self.graph_nodes@, self.stack@.take(j as int)));
                    }
                }
                proof { assert(self.stack@.take(j as int) =~= self.stack@); }
                let ghost before = *self;
                self.cycles.push(cycle);
                proof {
                    self.found@ = self.found@.push(self.stack@);
                    lemma_record_cycle(&before, self, g, s, v);
                    assert(self.stack@ == p);
                    assert(walk_from(g, s, p, p));
                    assert forall|j: int| entry.found@.len() <= j < self.found@.len() implies walk_from(g, s, p, #[trigger] self.found@[j]) by {
                        if j < before.found@.len() {
                            assert(self.found@[j] == before.found@[j]);
                        }
                    }
                    if cyc {
                        assert(is_elementary_cycle(g, p));
                        lemma_step_record(before.found@, self.found@, entry.found@.len() as int, g, p, v, i as int);
                        lemma_counted_record(before.found@, self.found@, entry.found@.len() as int, g, p, v, i as int);
                        lemma_ps_record(before.found@, self.found@, entry.found@.len() as int, g, entry.stack@, v, pre, ps, i as int);
                        lemma_pos_record(before.found@, self.found@, entry.found@.len() as int, g, p, v, pre, ps, i as int);
                    }
                    ps = ps.push(pre.push(i as int));
                }
                f = true;
            } else if self.blocked[w] == false {
                let ghost before = *self;
                proof {
                    assert(has_edge(g, self.stack@.last(), w));
                    assert(self.stack@.push(w)[0] == p[0]);
                    if cyc {
                        assert forall|c: Seq<usize>| #[trigger] extends(g, self.stack@.push(w), c)
                            implies forall|k: int| 0 <= k < c.len() ==> #[trigger] c[k] < self.graph_nodes@.len() by {
                            lemma_extends_pop(g, p, c, w);
                        }
                    }
                }
                proof {
                    lemma_walk_extend(g, entry.stack@, v, pre, i as int, w);
                }
                let child = self.search_cycles(w, s, adj_list, Ghost(pre.push(i as int)));
                let found_w = child.0;
                let ghost child_ps = child.1@;
                if found_w == true {
                    f = true;
                }
                proof {
                    assert forall|y: int| 0 <= y < n && #[trigger] self.blocked@[y] && !entry.blocked@[y]
                        implies y == v || is_edge_target(g, y as usize) by {
                        if !before.blocked@[y] {
                            if y == w as int {
                                assert(g[v as int][i as int] == w);
                            }
                        }
                    }
                    if cyc {
                        lemma_ps_child(before.found@, self.found@, entry.found@.len() as int, g, pre, ps, child_ps, i as int);
                        assert(before.path_stack().push(w)[0] == s);
                        assert forall|c: Seq<usize>, q: Seq<int>| #![trigger extends(g, p.push(w), c), positions_of(g, c, q)]
                            extends(g, p.push(w), c) && positions_of(g, c, q) && q.take(pre.push(i as int).len() as int) == pre.push(i as int)
                            implies exists|t: int| 0 <= t < child_ps.len() && self.found@[before.found@.len() + t] == c && #[trigger] child_ps[t] == q by {
                            assert(extends(adj_view(adj_list@), before.path_stack().push(w), c));
                            assert(positions_of(adj_view(adj_list@), c, q));
                            let t = choose|t: int| 0 <= t < child.1@.len() && self.found_cycles()[before.found_cycles().len() + t] == c
                                && #[trigger] child.1@[t] == q;
                            assert(child_ps[t] == q);
                        }
                        lemma_pos_child(before.found@, self.found@, entry.found@.len() as int, g, p, v, pre, ps, child_ps, i as int, w);
                    }
                    ps = ps + child_ps;
                    assert forall|j: int| entry.found@.len() <= j < self.found@.len() implies walk_from(g, s, p, #[trigger] self.found@[j]) by {
                        if j < before.found@.len() {
                            assert(self.found@[j] == before.found@[j]);
                        } else {
                            assert(walk_from(g, s, p.push(w), self.found_cycles()[j]));
                            lemma_walk_pop(g, s, p, self.found@[j], w);
                        }
                    }
                    if !found_w {
                        assert forall|y: int| 0 <= y < n && #[trigger] before.blocked@[y] implies self.blocked@[y] by {}
                        assert(self.blocked@[w as int]);
                    }
                }
                proof {
                    if cyc {
                        assert forall|c: Seq<usize>| #[trigger] extends(g, p.push(w), c)
                            implies self.found@.subrange(before.found@.len() as int, self.found@.len() as int).contains(c) by {
                            assert(extends(adj_view(adj_list@), before.path_stack().push(w), c));
                        }
                        assert forall|t: int| before.found@.len() <= t < self.found@.len() implies extends(g, p.push(w), #[trigger] self.found@[t]) by {
                            assert(extends(adj_view(adj_list@), before.path_stack().push(w), self.found_cycles()[t]));
                        }
                        lemma_step_child(before.found@, self.found@, entry.found@.len() as int, g, p, v, i as int, w);
                        assert forall|c: Seq<usize>| #[trigger] extends(g, p.push(w), c) implies occurrences(
                            self.found@.subrange(before.found@.len() as int, self.found@.len() as int), c) == ways_from(g, c, p.len() as int) by {
                            assert(extends(adj_view(adj_list@), before.path_stack().push(w), c));
                        }
                        lemma_counted_child(before.found@, self.found@, entry.found@.len() as int, g, p, v, i as int, w);
                    }
                }
            } else {
                proof {
                    if cyc {
                        lemma_ps_skip(self.found@, entry.found@.len() as int, g, pre, ps, i as int);
                        lemma_pos_blocked(self, self.found@, entry.found@.len() as int, g, s, p, v, pre, ps, i as int, w);
                        lemma_step_blocked(self, self.found@, entry.found@.len() as int, g, s, p, v, i as int, w);
                        lemma_counted_blocked(self, self.found@, entry.found@.len() as int, g, s, p, v, i as int, w);
                    }
                }
            }
            i += 1;
        }
        let ghost top_state = *self;
        proof {
            if cyc {
                lemma_upto_done(self.found@, entry.found@.len() as int, g, p, v);
                lemma_counted_done(self.found@, entry.found@.len() as int, g, p, v);
                lemma_ps_done(self.found@, entry.found@.len() as int, g, pre, ps, i as int);
            }
        }
        if f {
            self.release(v);
            let ghost released = *self;
            self.stack.pop();
            proof {
                assert(self.stack@ =~= entry.stack@);
                self.clock@ = self.clock@ + 1;
                self.finished_at@ = self.finished_at@.update(v as int, self.clock@);
                lemma_finish_found(&top_state, &released, self, g, s, v);
                lemma_finish_found_closed(&top_state, &released, self, g, s, v);
            }
        } else {
            proof {
                self.clock@ = self.clock@ + 1;
                self.finished_at@ = self.finished_at@.update(v as int, self.clock@);
            }
            let mut i: usize = 0;
            while i < adj_list[v].len()
                invariant
                    g == adj_view(adj_list@),
                    n == top_state.blocked@.len(),
                    v < n,
                    v < g.len(),
                    top_state.search_at(g, s),
                    self.stack == top_state.stack,
                    self.blocked == top_state.blocked,
                    self.pushed_at == top_state.pushed_at,
                    self.clock@ == top_state.clock@ + 1,
                    self.finished_at@ == top_state.finished_at@.update(v as int, self.clock@),
                    self.adj_list == top_state.adj_list,
                    self.graph_nodes == top_state.graph_nodes,
                    self.cycles == top_state.cycles,
                    self.found == top_state.found,
                    self.b@.len() == n,
                    self.added_at@.len() == n,
                    forall|w: int| 0 <= w < n ==> {
                        ||| (#[trigger] self.b@[w]) == top_state.b@[w] && self.added_at@[w] == top_state.added_at@[w]
                        ||| self.b@[w]@ == top_state.b@[w]@.push(v) && self.added_at@[w] == top_state.added_at@[w].push(self.clock@)
                            && has_edge(g, v, w as usize)
                    },
                    forall|k: int| 0 <= k < i ==> self.b@[#[trigger] g[v as int][k] as int]@.contains(v),
                    i <= g[v as int].len(),
                decreases g[v as int].len() - i,
            {
                let w = adj_list[v][i];
                proof { assert(g[v as int][i as int] == w); }
                let ghost pre_b = self.b@;
                if !vec_contains(&self.b[w], v) {
                    let ghost prev_b = self.b@;
                    self.b[w].push(v);
                    proof {
                        let old_added = self.added_at@;
                        self.added_at@ = self.added_at@.update(w as int, self.added_at@[w as int].push(self.clock@));
                        assert(prev_b[w as int] == top_state.b@[w as int]) by {
                            if prev_b[w as int] != top_state.b@[w as int] {
                                assert(prev_b[w as int]@.contains(v)) by {
                                    assert(prev_b[w as int]@[prev_b[w as int]@.len() - 1] == v);
                                }
                            }
                        }
                        assert(has_edge(g, v, w));
                        assert forall|u: int| 0 <= u < n implies {
                            ||| (#[trigger] self.b@[u]) == top_state.b@[u] && self.added_at@[u] == top_state.added_at@[u]
                            ||| self.b@[u]@ == top_state.b@[u]@.push(v) && self.added_at@[u] == top_state.added_at@[u].push(self.clock@)
                                && has_edge(g, v, u as usize)
                        } by {
                            if u != w as int {
                                assert(self.b@[u] == prev_b[u]);
                                assert(self.added_at@[u] == old_added[u]);
                            } else {
                                assert((u as usize) == w);
                            }
                        }
                        assert(self.b@[w as int]@ == prev_b[w as int]@.push(v));
                        assert(self.b@[w as int]@[prev_b[w as int]@.len() as int] == v);
                    }
                }
                proof {
                    assert forall|k: int| 0 <= k < i + 1 implies self.b@[#[trigger] g[v as int][k] as int]@.contains(v) by {
                        let x = g[v as int][k] as int;
                        if k < i && x != w as int {
                            assert(self.b@[x] == pre_b[x]);
                        } else if k < i {
                            assert(pre_b[x]@.contains(v));
                            let t = choose|t: int| 0 <= t < pre_b[x]@.len() && pre_b[x]@[t] == v;
                            assert(self.b@[x]@[t] == v);
                        }
                    }
                }
                i += 1;
            }
            let ghost extended = *self;
            self.stack.pop();
            proof {
                assert(self.stack@ =~= entry.stack@);
                lemma_finish_not_found(&top_state, self, g, s, v);
                lemma_finish_not_found_closed(&top_state, self, g, s, v);
            }
        }
        proof {
            if cyc {
                assert(self.found@ == top_state.found@);
                assert(self.found_cycles() == self.found@);
                assert(entry.found_cycles() == entry.found@);
                assert(p == entry.path_stack().push(v));
                lemma_pos_done(self.found@, entry.found@.len() as int, g, p, v, pre, ps);
            }
        }
        (f, Ghost(ps))
    }

    /// Walks from `v` along the lists `adj_list`, records each walk without
    /// repeated nodes that ends with an edge back to `s` and meets `s` at most
    /// at its start, and tells whether one was found. When `v` is `s` these
    /// walks are the elementary cycles through `s`: each is recorded once per
    /// way to walk it, in the order of the positions walked. The flags and
    /// lists must be as a search leaves them (`search_ready`); all nodes
    /// released with empty lists is such a state.
    #[verifier::spinoff_prover]
    pub fn find_cycles(&mut self, v: usize, s: usize, adj_list: &Vec<Vec<usize>>) -> (r: bool)
        requires
            old(self).is_ready(),
            adj_wf(adj_view(adj_list@)),
            adj_list@.len() <= old(self).blocked_nodes().len(),
            adj_list@.len() <= old(self).names().len(),
            v < adj_list@.len(),
            !old(self).blocked_nodes()[v as int],
            search_ready(old(self).blocked_nodes(), old(self).waiting_lists(), adj_view(adj_list@), s),
        ensures
            final(self).is_ready(),
            final(self).path_stack().len() == 0,
            final(self).graph() == old(self).graph(),
            final(self).names() == old(self).names(),
            Self::names_of(final(self).names(), final(self).found_cycles(), final(self).named_cycles()),
            final(self).blocked_nodes().len() == old(self).blocked_nodes().len(),
            search_ready(final(self).blocked_nodes(), final(self).waiting_lists(), adj_view(adj_list@), s),
            old(self).found_cycles().len() <= final(self).found_cycles().len(),
            forall|i: int| 0 <= i < old(self).found_cycles().len()
                ==> #[trigger] final(self).found_cycles()[i] == old(self).found_cycles()[i],
            forall|i: int| old(self).found_cycles().len() <= i < final(self).found_cycles().len()
                ==> walk_from(adj_view(adj_list@), s, seq![v], #[trigger] final(self).found_cycles()[i]),
            v == s ==> forall|i: int| old(self).found_cycles().len() <= i < final(self).found_cycles().len()
                ==> extends(adj_view(adj_list@), seq![v], #[trigger] final(self).found_cycles()[i]),
            v == s ==> forall|c: Seq<usize>| #[trigger] extends(adj_view(adj_list@), seq![v], c) ==> final(self).found_cycles().subrange(
                old(self).found_cycles().len() as int, final(self).found_cycles().len() as int).contains(c),
            v == s ==> forall|c: Seq<usize>| #[trigger] extends(adj_view(adj_list@), seq![v], c) ==> occurrences(final(self).found_cycles().subrange(
                old(self).found_cycles().len() as int, final(self).found_cycles().len() as int), c) == ways_from(adj_view(adj_list@), c, 0),
            v == s ==> in_walk_order(adj_view(adj_list@), final(self).found_cycles().subrange(
                old(self).found_cycles().len() as int, final(self).found_cycles().len() as int)),
            r <==> final(self).found_cycles().len() > old(self).found_cycles().len(),
            r ==> !final(self).blocked_nodes()[v as int],
            !r ==> final(self).blocked_nodes()[v as int],
            !r ==> forall|k: int| 0 <= k < adj_list@[v as int]@.len()
                ==> final(self).waiting_lists()[#[trigger] adj_list@[v as int]@[k] as int].contains(v),
            v == s && lists_distinct(adj_view(adj_list@)) ==> final(self).found_cycles().subrange(
                old(self).found_cycles().len() as int, final(self).found_cycles().len() as int).no_duplicates(),
            v == s && lists_distinct(adj_view(adj_list@)) ==> in_choice_order(adj_view(adj_list@), final(self).found_cycles().subrange(
                old(self).found_cycles().len() as int, final(self).found_cycles().len() as int)),
    {
        let ghost g = adj_view(adj_list@);
        let n = self.blocked.len();
        proof {
            self.clock@ = 1;
            self.pushed_at@ = Seq::new(n as nat, |w: int| 0int);
            self.finished_at@ = Seq::new(n as nat, |w: int| 1int);
            self.added_at@ = Seq::new(n as nat, |w: int| Seq::new(self.b@[w]@.len(), |t: int| 1int));
            assert(self.b@.len() == n) by {
                assert(self.waiting_lists().len() == n);
            }
            assert forall|w: int, t: int| 0 <= w < n && 0 <= t < self.b@[w]@.len() implies (#[trigger] self.b@[w]@[t]) < n by {
                assert(self.waiting_lists()[w] == self.b@[w]@);
            }
            assert(self.lists_wf());
            assert(self.times_wf());
            assert forall|w: int| 0 <= w < n && !#[trigger] self.blocked@[w] implies self.b@[w]@.len() == 0 by {
                assert(self.waiting_lists()[w] == self.b@[w]@);
            }
            assert(self.search_at(g, s));
            assert forall|u: usize, j: int| u < g.len() && u < self.blocked@.len() && self.blocked@[u as int] && !self.stack@.contains(u)
                && 0 <= j < g[u as int].len() implies {
                &&& #[trigger] g[u as int][j] != s
                &&& self.blocked@[g[u as int][j] as int]
                &&& self.b@[g[u as int][j] as int]@.contains(u)
            } by {
                assert(self.waiting_lists()[g[u as int][j] as int] == self.b@[g[u as int][j] as int]@);
            }
            assert(self.blocked_closed(g, s));
            assert(self.stack@.push(v) =~= seq![v]);
            assert(self.path_stack().push(v)[0] == v);
            assert forall|c: Seq<usize>| #[trigger] extends(g, self.path_stack().push(v), c)
                implies forall|k: int| 0 <= k < c.len() ==> #[trigger] c[k] < self.names().len() by {
                lemma_cycle_nodes_in_graph(g, c);
            }
        }
        let ghost entry = *self;
        proof {
            assert(walk_positions(g, self.path_stack(), v, Seq::<int>::empty()));
        }
        let res = self.search_cycles(v, s, adj_list, Ghost(Seq::empty()));
        let r = res.0;
        proof {
            assert(entry.stack@.push(v) =~= seq![v]);
            assert(entry.path_stack().push(v)[0] == v);
            assert(self.stack@.len() == 0);
            assert forall|i: int| entry.found_cycles().len() <= i < self.found_cycles().len()
                implies walk_from(g, s, seq![v], #[trigger] self.found_cycles()[i]) by {
                assert(walk_from(adj_view(adj_list@), s, entry.path_stack().push(v), self.found_cycles()[i]));
            }
            if v == s {
                let ps = res.1@;
                let news = self.found_cycles().subrange(entry.found_cycles().len() as int, self.found_cycles().len() as int);
                assert forall|t: int| 0 <= t < ps.len() implies positions_of(g, news[t], #[trigger] ps[t]) by {
                    assert(news[t] == self.found_cycles()[entry.found_cycles().len() + t]);
                }
                assert(walked_in_order(g, news, ps));
                assert(in_walk_order(g, news));
                assert forall|c: Seq<usize>| #[trigger] extends(g, seq![v], c) implies self.found_cycles().subrange(
                    entry.found_cycles().len() as int, self.found_cycles().len() as int).contains(c) by {
                    assert(extends(adj_view(adj_list@), entry.path_stack().push(v), c));
                }
                assert forall|c: Seq<usize>| #[trigger] extends(g, seq![v], c) implies occurrences(self.found_cycles().subrange(
                    entry.found_cycles().len() as int, self.found_cycles().len() as int), c) == ways_from(g, c, 0) by {
                    assert(extends(adj_view(adj_list@), entry.path_stack().push(v), c));
                }
                assert forall|i: int| entry.found_cycles().len() <= i < self.found_cycles().len()
                    implies extends(g, seq![v], #[trigger] self.found_cycles()[i]) by {
                    assert(extends(adj_view(adj_list@), entry.path_stack().push(v), self.found_cycles()[i]));
                }
            }
            assert forall|k: int| 0 <= k < adj_list@[v as int]@.len() && !r
                implies self.waiting_lists()[#[trigger] adj_list@[v as int]@[k] as int].contains(v) by {
                assert(g[v as int][k] == adj_list@[v as int]@[k]);
            }
            assert forall|w: int| 0 <= w < self.blocked@.len() && !#[trigger] self.blocked@[w]
                implies self.waiting_lists()[w].len() == 0 by {}
            assert forall|u: usize, j: int| u < g.len() && u < self.blocked@.len() && self.blocked@[u as int]
                && 0 <= j < g[u as int].len() implies {
                &&& #[trigger] g[u as int][j] != s
                &&& self.blocked@[g[u as int][j] as int]
                &&& self.waiting_lists()[g[u as int][j] as int].contains(u)
            } by {
                assert(!self.stack@.contains(u));
            }
        }
        r
    }
}

} // verus!

verus! {

/// Pushing an unblocked node that continues the walk keeps the search state.
#[verifier::spinoff_prover]
proof fn lemma_push_keeps_search(a: &ElementaryCyclesSearch, b: &ElementaryCyclesSearch, g: Seq<Seq<usize>>, s: usize, v: usize)
    requires
        a.search_at(g, s),
        v < a.blocked@.len(),
        !a.blocked@[v as int],
        !a.stack@.contains(v),
        a.stack@.len() > 0 ==> v != s,
        a.stack@.len() > 0 ==> has_edge(g, a.stack@.last(), v),
        b.stack@ == a.stack@.push(v),
        b.clock@ == a.clock@ + 1,
        b.pushed_at@ == a.pushed_at@.update(v as int, b.clock@),
        b.blocked@ == a.blocked@.update(v as int, true),
        b.finished_at == a.finished_at,
        b.added_at == a.added_at,
        b.b == a.b,
        b.adj_list == a.adj_list,
        b.graph_nodes == a.graph_nodes,
        b.cycles == a.cycles,
        b.found == a.found,
    ensures
        b.search_at(g, s),
{
    let n = a.blocked@.len();
    let st = b.stack@;
    assert(st.no_duplicates()) by {
        assert forall|i: int, j: int| 0 <= i < st.len() && 0 <= j < st.len() && i != j implies st[i] != st[j] by {
            if i == st.len() - 1 {
                assert(a.stack@.contains(st[j]) || j == i);
            } else if j == st.len() - 1 {
                assert(a.stack@.contains(st[i]));
            } else {
                assert(st[i] == a.stack@[i] && st[j] == a.stack@[j]);
            }
        }
    }
    assert forall|w: int, t: int| 0 <= w < n && 0 <= t < b.added_at@[w].len() implies {
        &&& #[trigger] b.added_at@[w][t] > b.pushed_at@[w]
        &&& b.added_at@[w][t] <= b.finished_at@[b.b@[w]@[t] as int]
    } by {
        if w == v as int {
            assert(a.b@[w]@.len() == 0);
        }
    }
    assert forall|i: int, j: int| 0 <= i < j < st.len()
        implies b.pushed_at@[#[trigger] st[i] as int] < b.pushed_at@[#[trigger] st[j] as int] by {
        if j == st.len() - 1 {
            assert(a.stack@[i] != v);
            assert(a.pushed_at@[st[i] as int] <= a.clock@);
        } else {
            assert(a.stack@[i] != v && a.stack@[j] != v);
        }
    }
    assert forall|k: int| 0 <= k < st.len() implies b.finished_at@[#[trigger] st[k] as int] < b.pushed_at@[st[k] as int] by {
        if k == st.len() - 1 {
            assert(a.pushed_at@[v as int] <= a.clock@ && a.finished_at@[v as int] <= a.clock@);
        } else {
            assert(a.stack@[k] != v);
        }
    }
    assert forall|k: int, x: int| 0 <= k < st.len() && 0 <= x < n && !st.contains(x as usize)
        && #[trigger] b.finished_at@[x] > b.pushed_at@[#[trigger] st[k] as int]
        implies b.pushed_at@[x] > b.pushed_at@[st[k] as int] by {
        assert(st[st.len() - 1] == v);
        assert(x != v as int);
        if k == st.len() - 1 {
            assert(a.pushed_at@[x] <= a.clock@ && a.finished_at@[x] <= a.clock@);
        } else {
            assert(a.stack@[k] != v);
            assert(a.pushed_at@[x] <= a.clock@);
            assert(!a.stack@.contains(x as usize)) by {
                if a.stack@.contains(x as usize) {
                    let j = choose|j: int| 0 <= j < a.stack@.len() && a.stack@[j] == x as usize;
                    assert(st[j] == x as usize);
                }
            }
        }
    }
    assert forall|k: int| 0 <= k < st.len() implies b.blocked@[#[trigger] st[k] as int] by {
        if k < st.len() - 1 {
            assert(st[k] == a.stack@[k]);
        }
    }
    assert forall|k: int| 1 <= k < st.len() implies #[trigger] st[k] != s by {
        if k < st.len() - 1 {
            assert(st[k] == a.stack@[k]);
        }
    }
    assert forall|k: int| 0 <= k < st.len() - 1 implies #[trigger] has_edge(g, st[k], st[k + 1]) by {
        if k < st.len() - 2 {
            assert(st[k] == a.stack@[k] && st[k + 1] == a.stack@[k + 1]);
        } else {
            assert(st[k] == a.stack@.last());
        }
    }
    assert forall|w: int| 0 <= w < n && !#[trigger] b.blocked@[w] implies b.b@[w]@.len() == 0 by {
        assert(!a.blocked@[w]);
    }
}

/// Recording the stack as a walk, when its top has an edge back to `s`.
proof fn lemma_record_cycle(a: &ElementaryCyclesSearch, b: &ElementaryCyclesSearch, g: Seq<Seq<usize>>, s: usize, v: usize)
    requires
        a.search_at(g, s),
        a.stack@.len() > 0,
        a.stack@.last() == v,
        has_edge(g, v, s),
        forall|k: int| 0 <= k < a.stack@.len() ==> #[trigger] a.stack@[k] < a.graph_nodes@.len(),
        b.found@ == a.found@.push(a.stack@),
        b.cycles@.len() == a.cycles@.len() + 1,
        forall|i: int| 0 <= i < a.cycles@.len() ==> #[trigger] b.cycles@[i] == a.cycles@[i],
        b.cycles@.last()@ == name_list(a.graph_nodes@, a.stack@),
        b.stack == a.stack,
        b.clock == a.clock,
        b.pushed_at == a.pushed_at,
        b.blocked == a.blocked,
        b.finished_at == a.finished_at,
        b.added_at == a.added_at,
        b.b == a.b,
        b.adj_list == a.adj_list,
        b.graph_nodes == a.graph_nodes,
    ensures
        b.search_at(g, s),
        closes_at(g, s, a.stack@),
        a.stack@[0] == s ==> is_elementary_cycle(g, a.stack@),
{
    let c = a.stack@;
    assert(is_path(g, c));
    assert(closes_at(g, s, c));
    let named = b.named_cycles();
    assert(named =~= a.named_cycles().push(name_list(a.graph_nodes@, c))) by {
        assert(b.cycles@.last()@ =~= name_list(a.graph_nodes@, c));
    }
    assert forall|i: int, k: int| 0 <= i < b.found@.len() && 0 <= k < b.found@[i].len() implies #[trigger] b.found@[i][k] < b.graph_nodes@.len() by {
        if i < a.found@.len() {
            assert(b.found@[i] == a.found@[i]);
        } else {
            assert(c[k] < a.graph_nodes@.len());
        }
    }
    assert(ElementaryCyclesSearch::names_of(b.graph_nodes@, b.found@, named));
    assert(b.output_wf());
    assert(b.times_wf());
    assert(b.graph() == a.graph());
}

} // verus!

verus! {

/// Leaving `v` after a cycle was found through it, once it is released.
proof fn lemma_finish_found(
    a: &ElementaryCyclesSearch,
    r: &ElementaryCyclesSearch,
    c: &ElementaryCyclesSearch,
    g: Seq<Seq<usize>>,
    s: usize,
    v: usize,
)
    requires
        a.search_at(g, s),
        a.stack@.len() > 0,
        a.stack@.last() == v,
        r.released_from(a, v),
        c.stack@ == r.stack@.drop_last(),
        c.clock@ == r.clock@ + 1,
        c.finished_at@ == r.finished_at@.update(v as int, c.clock@),
        c.pushed_at == r.pushed_at,
        c.blocked == r.blocked,
        c.b == r.b,
        c.added_at == r.added_at,
        c.adj_list == r.adj_list,
        c.graph_nodes == r.graph_nodes,
        c.cycles == r.cycles,
        c.found == r.found,
    ensures
        c.search_at(g, s),
{
    let n = a.blocked@.len();
    let st = c.stack@;
    assert(a.cascade_ok(v));
    assert(r.times_wf());
    assert(st.no_duplicates());
    assert forall|k: int| 0 <= k < st.len() implies c.blocked@[#[trigger] st[k] as int] by {
        assert(st[k] == a.stack@[k]);
    }
    assert forall|w: int| 0 <= w < n && !#[trigger] c.blocked@[w] implies c.b@[w]@.len() == 0 by {
        if !a.blocked@[w] {
            assert(w != v as int);
        }
    }
    assert forall|k: int| 0 <= k < st.len() implies st[k] != v by {
        assert(st[k] == a.stack@[k]);
    }
    assert forall|w: int, t: int| 0 <= w < n && 0 <= t < c.added_at@[w].len() implies {
        &&& #[trigger] c.added_at@[w][t] > c.pushed_at@[w]
        &&& c.added_at@[w][t] <= c.finished_at@[c.b@[w]@[t] as int]
    } by {
        assert(r.added_at@[w][t] <= r.finished_at@[r.b@[w]@[t] as int]);
    }
    assert forall|i: int, j: int| 0 <= i < j < st.len()
        implies c.pushed_at@[#[trigger] st[i] as int] < c.pushed_at@[#[trigger] st[j] as int] by {
        assert(st[i] == r.stack@[i] && st[j] == r.stack@[j]);
    }
    assert forall|k: int| 0 <= k < st.len() implies c.finished_at@[#[trigger] st[k] as int] < c.pushed_at@[st[k] as int] by {
        assert(st[k] == r.stack@[k]);
    }
    assert forall|k: int, x: int| 0 <= k < st.len() && 0 <= x < n && !st.contains(x as usize)
        && #[trigger] c.finished_at@[x] > c.pushed_at@[#[trigger] st[k] as int]
        implies c.pushed_at@[x] > c.pushed_at@[st[k] as int] by {
        assert(st[k] == r.stack@[k]);
        if x == v as int {
            assert(r.stack@[r.stack@.len() - 1] == v);
            assert(r.pushed_at@[r.stack@[k] as int] < r.pushed_at@[r.stack@[r.stack@.len() - 1] as int]);
        } else {
            assert(!r.stack@.contains(x as usize)) by {
                if r.stack@.contains(x as usize) {
                    let j = choose|j: int| 0 <= j < r.stack@.len() && r.stack@[j] == x as usize;
                    if j < r.stack@.len() - 1 {
                        assert(st[j] == x as usize);
                    } else {
                        assert(r.stack@[r.stack@.len() - 1] == v);
                    }
                }
            }
        }
    }
    assert forall|k: int| 0 <= k < st.len() - 1 implies #[trigger] has_edge(g, st[k], st[k + 1]) by {
        assert(st[k] == a.stack@[k] && st[k + 1] == a.stack@[k + 1]);
    }
}

/// Leaving `v` when no cycle was found through it: it stays blocked and waits
/// on each of its successors.
proof fn lemma_finish_not_found(a: &ElementaryCyclesSearch, c: &ElementaryCyclesSearch, g: Seq<Seq<usize>>, s: usize, v: usize)
    requires
        a.search_at(g, s),
        a.stack@.len() > 0,
        a.stack@.last() == v,
        forall|w: usize| #[trigger] has_edge(g, v, w) ==> a.blocked@[w as int],
        c.stack@ == a.stack@.drop_last(),
        c.clock@ == a.clock@ + 1,
        c.finished_at@ == a.finished_at@.update(v as int, c.clock@),
        c.pushed_at == a.pushed_at,
        c.blocked == a.blocked,
        c.adj_list == a.adj_list,
        c.graph_nodes == a.graph_nodes,
        c.cycles == a.cycles,
        c.found == a.found,
        c.b@.len() == a.b@.len(),
        c.added_at@.len() == a.added_at@.len(),
        forall|w: int| 0 <= w < a.blocked@.len() ==> {
            ||| (#[trigger] c.b@[w]) == a.b@[w] && c.added_at@[w] == a.added_at@[w]
            ||| c.b@[w]@ == a.b@[w]@.push(v) && c.added_at@[w] == a.added_at@[w].push(c.clock@) && has_edge(g, v, w as usize)
        },
    ensures
        c.search_at(g, s),
{
    let n = a.blocked@.len();
    let st = c.stack@;
    assert(v < n);
    assert forall|k: int| 0 <= k < st.len() implies st[k] != v && st[k] == a.stack@[k] by {
        assert(st[k] == a.stack@[k]);
    }
    assert forall|w: int| 0 <= w < n implies (#[trigger] c.added_at@[w]).len() == c.b@[w]@.len() by {}
    assert forall|w: int, t: int| 0 <= w < n && 0 <= t < c.b@[w]@.len() implies (#[trigger] c.b@[w]@[t]) < n by {
        if c.b@[w] != a.b@[w] && t == a.b@[w]@.len() {
        } else {
            assert(c.b@[w]@[t] == a.b@[w]@[t]);
        }
    }
    assert forall|w: int, t: int| 0 <= w < n && 0 <= t < c.added_at@[w].len() implies {
        &&& #[trigger] c.added_at@[w][t] > c.pushed_at@[w]
        &&& c.added_at@[w][t] <= c.finished_at@[c.b@[w]@[t] as int]
    } by {
        if c.b@[w] != a.b@[w] && t == a.b@[w]@.len() {
            assert(c.b@[w]@[t] == v);
            assert(a.pushed_at@[w] <= a.clock@);
        } else {
            assert(c.b@[w]@[t] == a.b@[w]@[t]);
            assert(c.added_at@[w][t] == a.added_at@[w][t]);
        }
    }
    assert forall|w: int| 0 <= w < n && !#[trigger] c.blocked@[w] implies c.b@[w]@.len() == 0 by {
        if c.b@[w] == a.b@[w] {
            assert(!a.blocked@[w]);
        } else {
            assert(has_edge(g, v, w as usize));
            assert(a.blocked@[(w as usize) as int]);
        }
    }
    assert forall|k: int, x: int| 0 <= k < st.len() && 0 <= x < n && !st.contains(x as usize)
        && #[trigger] c.finished_at@[x] > c.pushed_at@[#[trigger] st[k] as int]
        implies c.pushed_at@[x] > c.pushed_at@[st[k] as int] by {
        if x == v as int {
            assert(a.stack@[a.stack@.len() - 1] == v);
            assert(a.pushed_at@[a.stack@[k] as int] < a.pushed_at@[a.stack@[a.stack@.len() - 1] as int]);
        } else {
            assert(!a.stack@.contains(x as usize)) by {
                if a.stack@.contains(x as usize) {
                    let j = choose|j: int| 0 <= j < a.stack@.len() && a.stack@[j] == x as usize;
                    if j < a.stack@.len() - 1 {
                        assert(st[j] == x as usize);
                    } else {
                        assert(a.stack@[a.stack@.len() - 1] == v);
                    }
                }
            }
        }
    }
    assert forall|i: int, j: int| 0 <= i < j < st.len()
        implies c.pushed_at@[#[trigger] st[i] as int] < c.pushed_at@[#[trigger] st[j] as int] by {
        assert(st[i] == a.stack@[i] && st[j] == a.stack@[j]);
    }
    assert forall|k: int| 0 <= k < st.len() - 1 implies #[trigger] has_edge(g, st[k], st[k + 1]) by {
        assert(st[k] == a.stack@[k] && st[k + 1] == a.stack@[k + 1]);
    }
    assert forall|x: int| 0 <= x < n implies #[trigger] c.pushed_at@[x] <= c.clock@ && c.finished_at@[x] <= c.clock@ by {}
}

} // verus!

verus! {

/// A cycle of a graph whose nodes below `s` have no successors, starting at
/// `s`, starts at its least node.
pub proof fn lemma_cycle_starts_at_least(g: Seq<Seq<usize>>, c: Seq<usize>, s: usize)
    requires
        is_elementary_cycle(g, c),
        c[0] == s,
        forall|j: int| 0 <= j < s ==> #[trigger] g[j].len() == 0,
    ensures
        starts_at_least(c),
{
    assert forall|k: int| 0 <= k < c.len() implies c[0] <= #[trigger] c[k] by {
        if k < c.len() - 1 {
            assert(has_edge(g, c[k], c[k + 1]));
        } else {
            assert(has_edge(g, c.last(), c[0]));
        }
        assert(g[c[k] as int].len() > 0);
    }
}

} // verus!

verus! {

/// `c` is a walk of `g` without repeated nodes, with an edge from its last
/// node to `s`, and that meets `s` at most at its start: for `c[0] == s`, an
/// elementary cycle through `s`.
pub open spec fn closes_at(g: Seq<Seq<usize>>, s: usize, c: Seq<usize>) -> bool {
    &&& is_path(g, c)
    &&& has_edge(g, c.last(), s)
    &&& c.no_duplicates()
    &&& forall|k: int| 1 <= k < c.len() ==> #[trigger] c[k] != s
}

/// `c` closes at `s` and begins with the walk `p`.
pub open spec fn walk_from(g: Seq<Seq<usize>>, s: usize, p: Seq<usize>, c: Seq<usize>) -> bool {
    &&& closes_at(g, s, c)
    &&& p.len() <= c.len()
    &&& c.take(p.len() as int) == p
}

/// `c` is an elementary cycle of `g` that begins with the walk `p`.
pub open spec fn extends(g: Seq<Seq<usize>>, p: Seq<usize>, c: Seq<usize>) -> bool {
    &&& is_elementary_cycle(g, c)
    &&& p.len() <= c.len()
    &&& c.take(p.len() as int) == p
}

/// The node that follows the walk `p` on the cycle `c`: the next one, or the
/// first one when `c` is `p` itself.
pub open spec fn next_after(p: Seq<usize>, c: Seq<usize>) -> usize {
    if c.len() == p.len() { c[0] } else { c[p.len() as int] }
}

impl ElementaryCyclesSearch {
    /// Each blocked node off the stack has no edge to `s` in `g`, and each of
    /// its successors in `g` is blocked and lists it as waiting on it.
    pub closed spec fn blocked_closed(&self, g: Seq<Seq<usize>>, s: usize) -> bool {
        forall|u: usize, j: int| u < g.len() && u < self.blocked@.len() && self.blocked@[u as int] && !self.stack@.contains(u)
            && 0 <= j < g[u as int].len() ==> {
            &&& #[trigger] g[u as int][j] != s
            &&& self.blocked@[g[u as int][j] as int]
            &&& self.b@[g[u as int][j] as int]@.contains(u)
        }
    }
}

/// What was recorded after the first `len` entries is kept when more is recorded.
proof fn lemma_since_grows(a: Seq<Seq<usize>>, b: Seq<Seq<usize>>, len: int, c: Seq<usize>)
    requires
        0 <= len <= a.len() <= b.len(),
        forall|i: int| 0 <= i < a.len() ==> #[trigger] b[i] == a[i],
    ensures
        a.subrange(len, a.len() as int).contains(c) ==> b.subrange(len, b.len() as int).contains(c),
        b.subrange(a.len() as int, b.len() as int).contains(c) ==> b.subrange(len, b.len() as int).contains(c),
{
    if a.subrange(len, a.len() as int).contains(c) {
        let t = choose|t: int| 0 <= t < a.len() - len && a.subrange(len, a.len() as int)[t] == c;
        assert(b.subrange(len, b.len() as int)[t] == c);
    }
    if b.subrange(a.len() as int, b.len() as int).contains(c) {
        let t = choose|t: int| 0 <= t < b.len() - a.len() && b.subrange(a.len() as int, b.len() as int)[t] == c;
        assert(b.subrange(len, b.len() as int)[t + a.len() - len] == c);
    }
}

/// A walk from a blocked node off the stack that stays off the stack meets
/// only blocked nodes, and does not end next to `s`.
proof fn lemma_blocked_no_escape(a: &ElementaryCyclesSearch, g: Seq<Seq<usize>>, s: usize, q: Seq<usize>, j: int)
    requires
        a.blocked_closed(g, s),
        adj_wf(g),
        g.len() <= a.blocked@.len(),
        is_path(g, q),
        q[0] < g.len(),
        a.blocked@[q[0] as int],
        forall|k: int| 0 <= k < q.len() ==> !a.stack@.contains(#[trigger] q[k]),
        0 <= j < q.len(),
    ensures
        q[j] < g.len(),
        a.blocked@[q[j] as int],
        !has_edge(g, q[j], s),
    decreases j,
{
    if j > 0 {
        lemma_blocked_no_escape(a, g, s, q, j - 1);
        let u = q[j - 1];
        assert(has_edge(g, q[j - 1], q[(j - 1) + 1]));
        let t = choose|t: int| 0 <= t < g[u as int].len() && g[u as int][t] == q[j];
        assert(!a.stack@.contains(q[j - 1]));
        assert(a.blocked@[g[u as int][t] as int]);
    }
    let u = q[j];
    if has_edge(g, u, s) {
        let t = choose|t: int| 0 <= t < g[u as int].len() && g[u as int][t] == s;
        assert(!a.stack@.contains(q[j]));
        assert(g[u as int][t] != s);
    }
}

/// The cycle following the walk `p` to `s` is `p` itself.
proof fn lemma_next_is_start(g: Seq<Seq<usize>>, p: Seq<usize>, c: Seq<usize>)
    requires
        extends(g, p, c),
        p.len() > 0,
        next_after(p, c) == c[0],
    ensures
        c == p,
{
    if c.len() > p.len() {
        assert(c[p.len() as int] == c[0]);
    }
    assert(c =~= c.take(p.len() as int));
}

/// A cycle following the walk `p` through `w` follows the walk `p` then `w`.
proof fn lemma_extends_push(g: Seq<Seq<usize>>, p: Seq<usize>, c: Seq<usize>, w: usize)
    requires
        extends(g, p, c),
        p.len() > 0,
        c.len() > p.len(),
        c[p.len() as int] == w,
    ensures
        extends(g, p.push(w), c),
{
    assert(c.take(p.len() as int + 1) =~= p.push(w)) by {
        assert forall|k: int| 0 <= k < p.len() implies c.take(p.len() as int + 1)[k] == p[k] by {
            assert(c.take(p.len() as int)[k] == p[k]);
        }
    }
}

/// No cycle following the walk `p`, the stack, continues to a blocked node.
proof fn lemma_blocked_next(a: &ElementaryCyclesSearch, g: Seq<Seq<usize>>, s: usize, p: Seq<usize>, c: Seq<usize>, w: usize)
    requires
        a.blocked_closed(g, s),
        adj_wf(g),
        g.len() <= a.blocked@.len(),
        a.stack@ == p,
        p.len() > 0,
        p[0] == s,
        extends(g, p, c),
        w < g.len(),
        w != s,
        a.blocked@[w as int],
    ensures
        next_after(p, c) != w,
{
    if next_after(p, c) == w {
        let m = p.len() as int;
        assert(c.len() > m) by {
            if c.len() == m {
                assert(c[0] == c.take(m)[0]);
            }
        }
        assert(c[m] == w);
        if a.stack@.contains(w) {
            let k = choose|k: int| 0 <= k < p.len() && p[k] == w;
            assert(c[k] == c.take(m)[k]);
        } else {
            let q = c.subrange(m, c.len() as int);
            assert(is_path(g, q)) by {
                assert forall|i: int| 0 <= i < q.len() - 1 implies #[trigger] has_edge(g, q[i], q[i + 1]) by {
                    assert(has_edge(g, c[m + i], c[m + i + 1]));
                }
            }
            assert forall|k: int| 0 <= k < q.len() implies !a.stack@.contains(#[trigger] q[k]) by {
                if a.stack@.contains(q[k]) {
                    let k2 = choose|k2: int| 0 <= k2 < p.len() && p[k2] == q[k];
                    assert(c[k2] == c.take(m)[k2]);
                    assert(c[m + k] == q[k]);
                }
            }
            lemma_blocked_no_escape(a, g, s, q, q.len() - 1);
            assert(q.last() == c.last());
            assert(c[0] == c.take(m)[0]);
        }
    }
}

} // verus!

verus! {

/// Pushing a node keeps the blocked nodes off the stack closed.
proof fn lemma_push_keeps_closed(a: &ElementaryCyclesSearch, b: &ElementaryCyclesSearch, g: Seq<Seq<usize>>, s: usize, v: usize)
    requires
        a.blocked_closed(g, s),
        adj_wf(g),
        g.len() <= a.blocked@.len(),
        v < a.blocked@.len(),
        b.stack@ == a.stack@.push(v),
        b.blocked@ == a.blocked@.update(v as int, true),
        b.b == a.b,
    ensures
        b.blocked_closed(g, s),
{
    assert(b.stack@[a.stack@.len() as int] == v);
    assert forall|u: usize, j: int| u < g.len() && u < b.blocked@.len() && b.blocked@[u as int] && !b.stack@.contains(u)
        && 0 <= j < g[u as int].len() implies {
        &&& #[trigger] g[u as int][j] != s
        &&& b.blocked@[g[u as int][j] as int]
        &&& b.b@[g[u as int][j] as int]@.contains(u)
    } by {
        assert(u != v);
        if a.stack@.contains(u) {
            let k = choose|k: int| 0 <= k < a.stack@.len() && a.stack@[k] == u;
            assert(b.stack@[k] == u);
        }
        assert(a.blocked@[u as int]);
    }
}

/// Leaving `v` released after a cycle was found through it keeps the blocked
/// nodes off the stack closed.
proof fn lemma_finish_found_closed(
    a: &ElementaryCyclesSearch,
    r: &ElementaryCyclesSearch,
    c: &ElementaryCyclesSearch,
    g: Seq<Seq<usize>>,
    s: usize,
    v: usize,
)
    requires
        a.blocked_closed(g, s),
        adj_wf(g),
        g.len() <= a.blocked@.len(),
        a.stack@.len() > 0,
        a.stack@.last() == v,
        r.released_from(a, v),
        c.stack@ == r.stack@.drop_last(),
        c.blocked == r.blocked,
        c.b == r.b,
    ensures
        c.blocked_closed(g, s),
{
    assert forall|u: usize, j: int| u < g.len() && u < c.blocked@.len() && c.blocked@[u as int] && !c.stack@.contains(u)
        && 0 <= j < g[u as int].len() implies {
        &&& #[trigger] g[u as int][j] != s
        &&& c.blocked@[g[u as int][j] as int]
        &&& c.b@[g[u as int][j] as int]@.contains(u)
    } by {
        assert(u != v);
        if a.stack@.contains(u) {
            let k = choose|k: int| 0 <= k < a.stack@.len() && a.stack@[k] == u;
            assert(k != a.stack@.len() - 1);
            assert(c.stack@[k] == u);
        }
        assert(a.blocked@[u as int]);
        let x = g[u as int][j];
        assert(a.b@[x as int]@.contains(u));
        let t = choose|t: int| 0 <= t < a.b@[x as int]@.len() && a.b@[x as int]@[t] == u;
        if !r.blocked@[x as int] {
            assert(!r.blocked@[a.b@[x as int]@[t] as int]);
        }
    }
}

/// Leaving `v` blocked, waiting on each of its successors, keeps the blocked
/// nodes off the stack closed.
proof fn lemma_finish_not_found_closed(a: &ElementaryCyclesSearch, c: &ElementaryCyclesSearch, g: Seq<Seq<usize>>, s: usize, v: usize)
    requires
        a.blocked_closed(g, s),
        a.stack@.len() > 0,
        a.stack@.last() == v,
        a.blocked@[v as int],
        c.stack@ == a.stack@.drop_last(),
        c.blocked == a.blocked,
        c.b@.len() == a.b@.len(),
        forall|w: int| 0 <= w < a.b@.len() ==> (#[trigger] c.b@[w]) == a.b@[w] || c.b@[w]@ == a.b@[w]@.push(v),
        forall|k: int| 0 <= k < g[v as int].len() ==> {
            &&& a.blocked@[#[trigger] g[v as int][k] as int]
            &&& g[v as int][k] != s
            &&& c.b@[g[v as int][k] as int]@.contains(v)
        },
        adj_wf(g),
        g.len() <= a.blocked@.len(),
        a.b@.len() == a.blocked@.len(),
    ensures
        c.blocked_closed(g, s),
{
    assert forall|u: usize, j: int| u < g.len() && u < c.blocked@.len() && c.blocked@[u as int] && !c.stack@.contains(u)
        && 0 <= j < g[u as int].len() implies {
        &&& #[trigger] g[u as int][j] != s
        &&& c.blocked@[g[u as int][j] as int]
        &&& c.b@[g[u as int][j] as int]@.contains(u)
    } by {
        if u != v {
            if a.stack@.contains(u) {
                let k = choose|k: int| 0 <= k < a.stack@.len() && a.stack@[k] == u;
                assert(k != a.stack@.len() - 1);
                assert(c.stack@[k] == u);
            }
            let x = g[u as int][j];
            assert(a.b@[x as int]@.contains(u));
            let t = choose|t: int| 0 <= t < a.b@[x as int]@.len() && a.b@[x as int]@[t] == u;
            if c.b@[x as int] != a.b@[x as int] {
                assert(c.b@[x as int]@[t] == u);
            }
        }
    }
}

} // verus!

verus! {

/// The cycles the search reports: the elementary cycles written from their
/// least node, except a loop on a node whose component, in the subgraph from
/// that node, is the node alone.
pub open spec fn reported_cycle(g: Seq<Seq<usize>>, c: Seq<usize>) -> bool {
    &&& is_elementary_cycle(g, c)
    &&& starts_at_least(c)
    &&& (c.len() > 1 || scc_nontrivial(subgraph_from(g, c[0]), c[0]))
}

/// An elementary cycle written from its least node is a cycle of the
/// subgraph from that node.
proof fn lemma_cycle_in_sub(g: Seq<Seq<usize>>, c: Seq<usize>)
    requires
        is_elementary_cycle(g, c),
        starts_at_least(c),
    ensures
        is_path(subgraph_from(g, c[0]), c),
        has_edge(subgraph_from(g, c[0]), c.last(), c[0]),
{
    let h = subgraph_from(g, c[0]);
    assert forall|i: int| 0 <= i < c.len() - 1 implies #[trigger] has_edge(h, c[i], c[i + 1]) by {
        assert(has_edge(g, c[i], c[i + 1]));
        assert(c[0] <= c[i] && c[0] <= c[i + 1]);
        lemma_sub_edge(g, c[0], c[i], c[i + 1]);
    }
    assert(has_edge(g, c.last(), c[0]));
    assert(c[0] <= c[c.len() - 1]);
    lemma_sub_edge(g, c[0], c.last(), c[0]);
}

/// Each node of an elementary cycle written from its least node shares a
/// component with that node in the subgraph from it.
proof fn lemma_cycle_nodes_scc(g: Seq<Seq<usize>>, c: Seq<usize>, k: int)
    requires
        is_elementary_cycle(g, c),
        starts_at_least(c),
        0 <= k < c.len(),
    ensures
        same_scc(subgraph_from(g, c[0]), c[0], c[k]),
{
    let h = subgraph_from(g, c[0]);
    lemma_cycle_in_sub(g, c);
    let pre = c.take(k + 1);
    assert(is_path(h, pre)) by {
        assert forall|i: int| 0 <= i < pre.len() - 1 implies #[trigger] has_edge(h, pre[i], pre[i + 1]) by {
            assert(has_edge(h, c[i], c[i + 1]));
        }
    }
    assert(pre[0] == c[0] && pre.last() == c[k]);
    let suf = c.skip(k);
    assert(is_path(h, suf)) by {
        assert forall|i: int| 0 <= i < suf.len() - 1 implies #[trigger] has_edge(h, suf[i], suf[i + 1]) by {
            assert(has_edge(h, c[k + i], c[k + i + 1]));
        }
    }
    assert(suf[0] == c[k] && suf.last() == c.last());
    assert(reaches(h, c[k], c.last()));
    lemma_reaches_step(h, c[k], c.last(), c[0]);
}

/// An elementary cycle of more than one node, written from its least node,
/// puts that node in a component with another node.
proof fn lemma_cycle_nontrivial(g: Seq<Seq<usize>>, c: Seq<usize>)
    requires
        is_elementary_cycle(g, c),
        starts_at_least(c),
        c.len() > 1,
    ensures
        scc_nontrivial(subgraph_from(g, c[0]), c[0]),
{
    lemma_cycle_nodes_scc(g, c, 1);
    assert(c[1] != c[0]);
}

/// A reported cycle is a cycle of the graph induced by the component of its
/// least node in the subgraph from that node.
proof fn lemma_cycle_in_component(g: Seq<Seq<usize>>, c: Seq<usize>)
    requires
        is_elementary_cycle(g, c),
        starts_at_least(c),
    ensures
        is_elementary_cycle(induced(g, scc_set(subgraph_from(g, c[0]), c[0])), c),
{
    let k = scc_set(subgraph_from(g, c[0]), c[0]);
    let h = induced(g, k);
    let f = |w: usize| k.contains(w);
    assert forall|i: int| 0 <= i < c.len() implies k.contains(#[trigger] c[i]) by {
        lemma_cycle_nodes_scc(g, c, i);
    }
    assert forall|x: usize, y: usize| #[trigger] has_edge(g, x, y) && k.contains(x) && k.contains(y) implies has_edge(h, x, y) by {
        let j = choose|j: int| 0 <= j < g[x as int].len() && g[x as int][j] == y;
        g[x as int].lemma_filter_contains(f, j);
        assert(h[x as int] == g[x as int].filter(f));
    }
    assert forall|i: int| 0 <= i < c.len() - 1 implies #[trigger] has_edge(h, c[i], c[i + 1]) by {
        assert(has_edge(g, c[i], c[i + 1]));
        assert(k.contains(c[i]) && k.contains(c[i + 1]));
    }
    assert(has_edge(g, c.last(), c[0]));
    assert(k.contains(c[c.len() - 1]) && k.contains(c[0]));
}

} // verus!

verus! {

/// The least node of a reported cycle is a node of the graph whose component,
/// in the subgraph from it, holds another node.
proof fn lemma_reported_nontrivial(g: Seq<Seq<usize>>, c: Seq<usize>)
    requires
        reported_cycle(g, c),
    ensures
        c[0] < g.len(),
        scc_nontrivial(subgraph_from(g, c[0]), c[0]),
{
    assert(has_edge(g, c.last(), c[0]));
    if c.len() > 1 {
        lemma_cycle_nontrivial(g, c);
        assert(has_edge(g, c[0], c[0int + 1]));
    }
}

/// The search from the least node `s` of the component found from `from` on
/// reports every reported cycle whose least node is below `s + 1`, given that
/// those below `from` were reported before.
proof fn lemma_search_reports(
    before: &ElementaryCyclesSearch,
    after: &ElementaryCyclesSearch,
    g: Seq<Seq<usize>>,
    from: usize,
    s: usize,
    len: int,
)
    requires
        0 <= len <= before.found@.len(),
        first_nontrivial(before.graph(), from, s),
        g == induced(before.graph(), scc_set(subgraph_from(before.graph(), s), s)),
        after.graph() == before.graph(),
        before.stack@.len() == 0,
        before.found@.len() <= after.found@.len(),
        forall|i: int| 0 <= i < before.found@.len() ==> #[trigger] after.found@[i] == before.found@[i],
        forall|c: Seq<usize>| #[trigger] reported_cycle(before.graph(), c) && c[0] < from
            ==> before.found@.subrange(len, before.found@.len() as int).contains(c),
        forall|c: Seq<usize>| #[trigger] extends(g, before.stack@.push(s), c)
            ==> after.found@.subrange(before.found@.len() as int, after.found@.len() as int).contains(c),
    ensures
        forall|c: Seq<usize>| #[trigger] reported_cycle(after.graph(), c) && c[0] < s + 1
            ==> after.found@.subrange(len, after.found@.len() as int).contains(c),
{
    let gr = before.graph();
    assert forall|c: Seq<usize>| #[trigger] reported_cycle(after.graph(), c) && c[0] < s + 1
        implies after.found@.subrange(len, after.found@.len() as int).contains(c) by {
        lemma_since_grows(before.found@, after.found@, len, c);
        if c[0] < from {
            assert(before.found@.subrange(len, before.found@.len() as int).contains(c));
        } else if c[0] < s {
            lemma_reported_nontrivial(gr, c);
        } else {
            lemma_cycle_in_component(gr, c);
            assert(before.stack@.push(s) =~= seq![s]);
            assert(c.take(1) =~= seq![s]);
            assert(extends(g, before.stack@.push(s), c));
            assert(after.found@.subrange(before.found@.len() as int, after.found@.len() as int).contains(c));
        }
    }
}

} // verus!

verus! {

/// No list of `g` names a successor twice.
pub open spec fn lists_distinct(g: Seq<Seq<usize>>) -> bool {
    forall|v: int| 0 <= v < g.len() ==> #[trigger] g[v].no_duplicates()
}

/// Filtering a list without repeats gives a list without repeats.
pub proof fn lemma_filter_distinct(s: Seq<usize>, f: spec_fn(usize) -> bool)
    requires
        s.no_duplicates(),
    ensures
        s.filter(f).no_duplicates(),
    decreases s.len(),
{
    reveal(Seq::filter);
    if s.len() > 0 {
        let d = s.drop_last();
        assert(d.no_duplicates()) by {
            assert forall|a: int, b: int| 0 <= a < d.len() && 0 <= b < d.len() && a != b implies d[a] != d[b] by {
                assert(d[a] == s[a] && d[b] == s[b]);
            }
        }
        lemma_filter_distinct(d, f);
        let x = s.last();
        let a = d.filter(f);
        if f(x) {
            assert(!a.contains(x)) by {
                if a.contains(x) {
                    d.lemma_filter_contains_rev(f, x);
                    let k = choose|k: int| 0 <= k < d.len() && d[k] == x;
                    assert(s[k] == s[s.len() - 1]);
                }
            }
            assert(a.push(x).no_duplicates()) by {
                assert forall|i: int, j: int| 0 <= i < a.len() + 1 && 0 <= j < a.len() + 1 && i != j implies a.push(x)[i] != a.push(x)[j] by {
                    if i == a.len() {
                        assert(a.push(x)[j] == a[j]);
                    } else if j == a.len() {
                        assert(a.push(x)[i] == a[i]);
                    } else {
                        assert(a.push(x)[i] == a[i] && a.push(x)[j] == a[j]);
                    }
                }
            }
        }
    }
}

/// A cycle following the walk `p` then `w` follows `p`, through `w`.
proof fn lemma_extends_pop(g: Seq<Seq<usize>>, p: Seq<usize>, c: Seq<usize>, w: usize)
    requires
        extends(g, p.push(w), c),
    ensures
        extends(g, p, c),
        c.len() > p.len(),
        next_after(p, c) == w,
{
    let m = p.len() as int;
    assert(c[m] == c.take(m + 1)[m]);
    assert(c.take(m) =~= p) by {
        assert forall|k: int| 0 <= k < m implies c.take(m)[k] == p[k] by {
            assert(c.take(m + 1)[k] == p.push(w)[k]);
        }
    }
}

/// The cycles recorded from the walk `p` after the successors of `v` before
/// `i`, followed by those recorded through the successor at `i`: all follow
/// `p` through one of the first `i + 1` successors, and, when no list repeats
/// a successor, none is recorded twice.
proof fn lemma_unique_step(a: Seq<Seq<usize>>, b: Seq<Seq<usize>>, len: int, g: Seq<Seq<usize>>, p: Seq<usize>, v: usize, i: int)
    requires
        0 <= len <= a.len() <= b.len(),
        forall|t: int| 0 <= t < a.len() ==> #[trigger] b[t] == a[t],
        v < g.len(),
        0 <= i < g[v as int].len(),
        forall|t: int| len <= t < a.len() ==> extends(g, p, #[trigger] a[t])
            && exists|k: int| 0 <= k < i && g[v as int][k] == next_after(p, a[t]),
        forall|t: int| a.len() <= t < b.len() ==> extends(g, p, #[trigger] b[t]) && next_after(p, b[t]) == g[v as int][i],
        lists_distinct(g) ==> a.subrange(len, a.len() as int).no_duplicates(),
        lists_distinct(g) ==> b.subrange(a.len() as int, b.len() as int).no_duplicates(),
    ensures
        forall|t: int| len <= t < b.len() ==> extends(g, p, #[trigger] b[t])
            && exists|k: int| 0 <= k < i + 1 && g[v as int][k] == next_after(p, b[t]),
        lists_distinct(g) ==> b.subrange(len, b.len() as int).no_duplicates(),
{
    assert forall|t: int| len <= t < b.len() implies extends(g, p, #[trigger] b[t])
        && exists|k: int| 0 <= k < i + 1 && g[v as int][k] == next_after(p, b[t]) by {
        if t < a.len() {
            assert(b[t] == a[t]);
            let k = choose|k: int| 0 <= k < i && g[v as int][k] == next_after(p, a[t]);
            assert(g[v as int][k] == next_after(p, b[t]));
        } else {
            assert(g[v as int][i] == next_after(p, b[t]));
        }
    }
    if lists_distinct(g) {
        let all = b.subrange(len, b.len() as int);
        let old_part = a.subrange(len, a.len() as int);
        let new_part = b.subrange(a.len() as int, b.len() as int);
        assert(g[v as int].no_duplicates());
        assert forall|x: int, y: int| 0 <= x < all.len() && 0 <= y < all.len() && x != y implies all[x] != all[y] by {
            let tx = len + x;
            let ty = len + y;
            if tx < a.len() && ty < a.len() {
                assert(all[x] == old_part[x] && all[y] == old_part[y]);
            } else if tx >= a.len() && ty >= a.len() {
                assert(all[x] == new_part[tx - a.len()] && all[y] == new_part[ty - a.len()]);
            } else if tx < a.len() {
                let k = choose|k: int| 0 <= k < i && g[v as int][k] == next_after(p, a[tx]);
                assert(next_after(p, b[ty]) == g[v as int][i]);
                assert(b[tx] == a[tx]);
            } else {
                let k = choose|k: int| 0 <= k < i && g[v as int][k] == next_after(p, a[ty]);
                assert(next_after(p, b[tx]) == g[v as int][i]);
                assert(b[ty] == a[ty]);
            }
        }
    }
}

} // verus!

verus! {

/// The cycles following the walk `p` through one of the first `i` successors
/// of `v` are all among those recorded after the first `len`.
#[verifier::opaque]
spec fn covered_upto(found: Seq<Seq<usize>>, len: int, g: Seq<Seq<usize>>, p: Seq<usize>, v: usize, i: int) -> bool {
    forall|c: Seq<usize>, k: int| #![trigger extends(g, p, c), g[v as int][k]]
        extends(g, p, c) && 0 <= k < i && g[v as int][k] == next_after(p, c)
        ==> found.subrange(len, found.len() as int).contains(c)
}

/// The cycles recorded after the first `len` follow the walk `p` through one
/// of the first `i` successors of `v`, none twice when no list repeats a
/// successor.
#[verifier::opaque]
spec fn recorded_upto(found: Seq<Seq<usize>>, len: int, g: Seq<Seq<usize>>, p: Seq<usize>, v: usize, i: int) -> bool {
    &&& forall|t: int| len <= t < found.len() ==> extends(g, p, #[trigger] found[t])
        && exists|k: int| 0 <= k < i && g[v as int][k] == next_after(p, found[t])
    &&& lists_distinct(g) ==> found.subrange(len, found.len() as int).no_duplicates()
}

/// Before any successor, nothing is owed and nothing is recorded.
proof fn lemma_upto_start(found: Seq<Seq<usize>>, g: Seq<Seq<usize>>, p: Seq<usize>, v: usize)
    ensures
        covered_upto(found, found.len() as int, g, p, v, 0),
        recorded_upto(found, found.len() as int, g, p, v, 0),
{
    reveal(covered_upto);
    reveal(recorded_upto);
    assert(found.subrange(found.len() as int, found.len() as int).len() == 0);
}

/// Recording the walk `p` itself, closed by the edge at `i` back to its start.
proof fn lemma_step_record(a: Seq<Seq<usize>>, b: Seq<Seq<usize>>, len: int, g: Seq<Seq<usize>>, p: Seq<usize>, v: usize, i: int)
    requires
        covered_upto(a, len, g, p, v, i),
        recorded_upto(a, len, g, p, v, i),
        0 <= len <= a.len(),
        b == a.push(p),
        p.len() > 0,
        v < g.len(),
        0 <= i < g[v as int].len(),
        g[v as int][i] == p[0],
        is_elementary_cycle(g, p),
        p.last() == v,
        lists_distinct(g) ==> in_choice_order(g, a.subrange(len, a.len() as int)),
    ensures
        covered_upto(b, len, g, p, v, i + 1),
        recorded_upto(b, len, g, p, v, i + 1),
        lists_distinct(g) ==> in_choice_order(g, b.subrange(len, b.len() as int)),
{
    reveal(covered_upto);
    reveal(recorded_upto);
    assert forall|t: int| 0 <= t < a.len() implies #[trigger] b[t] == a[t] by {}
    assert forall|c: Seq<usize>, k: int| #![trigger extends(g, p, c), g[v as int][k]]
        extends(g, p, c) && 0 <= k < i + 1 && g[v as int][k] == next_after(p, c)
        implies b.subrange(len, b.len() as int).contains(c) by {
        lemma_since_grows(a, b, len, c);
        if k == i {
            assert(c[0] == c.take(p.len() as int)[0]);
            lemma_next_is_start(g, p, c);
            assert(b.subrange(a.len() as int, b.len() as int)[0] == c);
        }
    }
    assert(p.take(p.len() as int) =~= p);
    assert(extends(g, p, p));
    assert forall|t: int| a.len() <= t < b.len() implies extends(g, p, #[trigger] b[t]) && next_after(p, b[t]) == g[v as int][i] by {
        assert(t == a.len());
    }
    assert(b.subrange(a.len() as int, b.len() as int) =~= seq![p]);
    lemma_unique_step(a, b, len, g, p, v, i);
    assert(in_choice_order(g, b.subrange(a.len() as int, b.len() as int))) by {
        reveal(in_choice_order);
    }
    lemma_order_step(a, b, len, g, p, v, i);
}

/// Taking in what the search from the successor `w` at `i` recorded.
#[verifier::spinoff_prover]
proof fn lemma_step_child(a: Seq<Seq<usize>>, b: Seq<Seq<usize>>, len: int, g: Seq<Seq<usize>>, p: Seq<usize>, v: usize, i: int, w: usize)
    requires
        covered_upto(a, len, g, p, v, i),
        recorded_upto(a, len, g, p, v, i),
        0 <= len <= a.len() <= b.len(),
        forall|t: int| 0 <= t < a.len() ==> #[trigger] b[t] == a[t],
        p.len() > 0,
        v < g.len(),
        0 <= i < g[v as int].len(),
        g[v as int][i] == w,
        w != p[0],
        forall|c: Seq<usize>| #[trigger] extends(g, p.push(w), c) ==> b.subrange(a.len() as int, b.len() as int).contains(c),
        forall|t: int| a.len() <= t < b.len() ==> extends(g, p.push(w), #[trigger] b[t]),
        lists_distinct(g) ==> b.subrange(a.len() as int, b.len() as int).no_duplicates(),
        p.last() == v,
        lists_distinct(g) ==> in_choice_order(g, a.subrange(len, a.len() as int)),
        lists_distinct(g) ==> in_choice_order(g, b.subrange(a.len() as int, b.len() as int)),
    ensures
        covered_upto(b, len, g, p, v, i + 1),
        recorded_upto(b, len, g, p, v, i + 1),
        lists_distinct(g) ==> in_choice_order(g, b.subrange(len, b.len() as int)),
{
    reveal(covered_upto);
    reveal(recorded_upto);
    assert forall|c: Seq<usize>, k: int| #![trigger extends(g, p, c), g[v as int][k]]
        extends(g, p, c) && 0 <= k < i + 1 && g[v as int][k] == next_after(p, c)
        implies b.subrange(len, b.len() as int).contains(c) by {
        lemma_since_grows(a, b, len, c);
        if k == i {
            assert(c[0] == c.take(p.len() as int)[0]);
            assert(c.len() > p.len());
            lemma_extends_push(g, p, c, w);
        }
    }
    assert forall|t: int| a.len() <= t < b.len() implies extends(g, p, #[trigger] b[t]) && next_after(p, b[t]) == g[v as int][i] by {
        lemma_extends_pop(g, p, b[t], w);
    }
    lemma_unique_step(a, b, len, g, p, v, i);
    lemma_order_step(a, b, len, g, p, v, i);
}

/// Passing over the blocked successor `w` at `i`.
proof fn lemma_step_blocked(st: &ElementaryCyclesSearch, found: Seq<Seq<usize>>, len: int, g: Seq<Seq<usize>>, s: usize, p: Seq<usize>, v: usize, i: int, w: usize)
    requires
        covered_upto(found, len, g, p, v, i),
        recorded_upto(found, len, g, p, v, i),
        st.blocked_closed(g, s),
        adj_wf(g),
        g.len() <= st.blocked@.len(),
        st.stack@ == p,
        p.len() > 0,
        p[0] == s,
        v < g.len(),
        0 <= i < g[v as int].len(),
        g[v as int][i] == w,
        w != s,
        st.blocked@[w as int],
    ensures
        covered_upto(found, len, g, p, v, i + 1),
        recorded_upto(found, len, g, p, v, i + 1),
{
    reveal(covered_upto);
    reveal(recorded_upto);
    assert forall|c: Seq<usize>, k: int| #![trigger extends(g, p, c), g[v as int][k]]
        extends(g, p, c) && 0 <= k < i + 1 && g[v as int][k] == next_after(p, c)
        implies found.subrange(len, found.len() as int).contains(c) by {
        if k == i {
            lemma_blocked_next(st, g, s, p, c, w);
        }
    }
    assert forall|t: int| len <= t < found.len() implies extends(g, p, #[trigger] found[t])
        && exists|k: int| 0 <= k < i + 1 && g[v as int][k] == next_after(p, found[t]) by {
        let k = choose|k: int| 0 <= k < i && g[v as int][k] == next_after(p, found[t]);
    }
}

/// After all successors of `v`, the top of the walk `p`: every cycle following
/// `p` is recorded, and every cycle recorded follows `p`, none twice when no
/// list repeats a successor.
proof fn lemma_upto_done(found: Seq<Seq<usize>>, len: int, g: Seq<Seq<usize>>, p: Seq<usize>, v: usize)
    requires
        covered_upto(found, len, g, p, v, g[v as int].len() as int),
        recorded_upto(found, len, g, p, v, g[v as int].len() as int),
        p.len() > 0,
        p.last() == v,
    ensures
        forall|c: Seq<usize>| #[trigger] extends(g, p, c) ==> found.subrange(len, found.len() as int).contains(c),
        forall|t: int| len <= t < found.len() ==> extends(g, p, #[trigger] found[t]),
        lists_distinct(g) ==> found.subrange(len, found.len() as int).no_duplicates(),
{
    reveal(covered_upto);
    reveal(recorded_upto);
    assert forall|c: Seq<usize>| #[trigger] extends(g, p, c) implies found.subrange(len, found.len() as int).contains(c) by {
        let m = p.len() as int;
        let nx = next_after(p, c);
        assert(c[m - 1] == c.take(m)[m - 1]);
        if c.len() == m {
            assert(has_edge(g, c.last(), c[0]));
        } else {
            assert(has_edge(g, c[m - 1], c[(m - 1) + 1]));
        }
        let k = choose|k: int| 0 <= k < g[v as int].len() && g[v as int][k] == nx;
        assert(extends(g, p, c) && g[v as int][k] == next_after(p, c));
    }
}

} // verus!

verus! {

/// The graph induced by a set of nodes repeats no successor where the graph
/// repeats none.
proof fn lemma_induced_distinct(g: Seq<Seq<usize>>, k: Set<usize>)
    requires
        lists_distinct(g),
    ensures
        lists_distinct(induced(g, k)),
{
    assert forall|v: int| 0 <= v < induced(g, k).len() implies #[trigger] induced(g, k)[v].no_duplicates() by {
        if k.contains(v as usize) {
            lemma_filter_distinct(g[v], |w: usize| k.contains(w));
        }
    }
}

/// The cycles of a round, all starting at `s`, added to those of earlier
/// rounds, all starting below `bound <= s`: no cycle twice.
proof fn lemma_rounds_distinct(a: Seq<Seq<usize>>, b: Seq<Seq<usize>>, len: int, bound: usize, s: usize)
    requires
        0 <= len <= a.len() <= b.len(),
        forall|t: int| 0 <= t < a.len() ==> #[trigger] b[t] == a[t],
        bound <= s,
        forall|t: int| len <= t < a.len() ==> (#[trigger] a[t]).len() > 0 && a[t][0] < bound,
        forall|t: int| a.len() <= t < b.len() ==> (#[trigger] b[t]).len() > 0 && b[t][0] == s,
        a.subrange(len, a.len() as int).no_duplicates(),
        b.subrange(a.len() as int, b.len() as int).no_duplicates(),
    ensures
        b.subrange(len, b.len() as int).no_duplicates(),
{
    let all = b.subrange(len, b.len() as int);
    assert forall|x: int, y: int| 0 <= x < all.len() && 0 <= y < all.len() && x != y implies all[x] != all[y] by {
        let tx = len + x;
        let ty = len + y;
        if tx < a.len() && ty < a.len() {
            assert(all[x] == a.subrange(len, a.len() as int)[x] && all[y] == a.subrange(len, a.len() as int)[y]);
        } else if tx >= a.len() && ty >= a.len() {
            assert(all[x] == b.subrange(a.len() as int, b.len() as int)[tx - a.len()]);
            assert(all[y] == b.subrange(a.len() as int, b.len() as int)[ty - a.len()]);
        } else if tx < a.len() {
            assert(b[tx] == a[tx]);
            assert(all[x][0] < bound && all[y][0] == s);
        } else {
            assert(b[ty] == a[ty]);
            assert(all[y][0] < bound && all[x][0] == s);
        }
    }
}

} // verus!

verus! {

/// The position, in the list of `c[j]`, of the node that follows `c[j]` on
/// the cycle `c`.
pub open spec fn choice(g: Seq<Seq<usize>>, c: Seq<usize>, j: int) -> int {
    g[c[j] as int].index_of(if j + 1 < c.len() { c[j + 1] } else { c[0] })
}

/// The positions chosen along the cycle `c`, node by node.
pub open spec fn choices(g: Seq<Seq<usize>>, c: Seq<usize>) -> Seq<int> {
    Seq::new(c.len(), |j: int| choice(g, c, j))
}

/// `a` comes before `b` in lexicographic order.
pub open spec fn lex_before(a: Seq<int>, b: Seq<int>) -> bool {
    exists|k: int| 0 <= k < a.len() && k < b.len() && a[k] < b[k] && forall|j: int| 0 <= j < k ==> a[j] == b[j]
}

/// The cycles come in the lexicographic order of their choices.
#[verifier::opaque]
pub open spec fn in_choice_order(g: Seq<Seq<usize>>, cs: Seq<Seq<usize>>) -> bool {
    forall|t: int, u: int| 0 <= t < u < cs.len() ==> lex_before(choices(g, #[trigger] cs[t]), choices(g, #[trigger] cs[u]))
}

/// In a list without repeats, the position of an element is where it stands.
proof fn lemma_index_of_distinct(s: Seq<usize>, k: int)
    requires
        s.no_duplicates(),
        0 <= k < s.len(),
    ensures
        s.index_of(s[k]) == k,
{
    let i = s.index_of(s[k]);
    assert(0 <= i < s.len() && s[i] == s[k]);
}

/// Two cycles following the walk `p`, through the successors at `k1 < k2` of
/// its last node, come in that order.
proof fn lemma_choices_branch(g: Seq<Seq<usize>>, p: Seq<usize>, c1: Seq<usize>, c2: Seq<usize>, k1: int, k2: int)
    requires
        lists_distinct(g),
        extends(g, p, c1),
        extends(g, p, c2),
        p.len() > 0,
        p.last() < g.len(),
        0 <= k1 < k2 < g[p.last() as int].len(),
        g[p.last() as int][k1] == next_after(p, c1),
        g[p.last() as int][k2] == next_after(p, c2),
    ensures
        lex_before(choices(g, c1), choices(g, c2)),
{
    let m = p.len() as int;
    let v = p.last();
    assert(g[v as int].no_duplicates());
    let a = choices(g, c1);
    let b = choices(g, c2);
    assert forall|j: int| 0 <= j < m - 1 implies a[j] == b[j] by {
        assert(c1[j] == c1.take(m)[j] && c2[j] == c2.take(m)[j]);
        assert(c1[j + 1] == c1.take(m)[j + 1] && c2[j + 1] == c2.take(m)[j + 1]);
    }
    assert(c1[m - 1] == c1.take(m)[m - 1] && c2[m - 1] == c2.take(m)[m - 1]);
    lemma_index_of_distinct(g[v as int], k1);
    lemma_index_of_distinct(g[v as int], k2);
    assert(a[m - 1] == k1);
    assert(b[m - 1] == k2);
}

/// The cycles recorded through the successor at `i`, after those recorded
/// through earlier successors, keep the order of the choices.
proof fn lemma_order_step(a: Seq<Seq<usize>>, b: Seq<Seq<usize>>, len: int, g: Seq<Seq<usize>>, p: Seq<usize>, v: usize, i: int)
    requires
        recorded_upto(a, len, g, p, v, i),
        0 <= len <= a.len() <= b.len(),
        forall|t: int| 0 <= t < a.len() ==> #[trigger] b[t] == a[t],
        p.len() > 0,
        p.last() == v,
        v < g.len(),
        0 <= i < g[v as int].len(),
        forall|t: int| a.len() <= t < b.len() ==> extends(g, p, #[trigger] b[t]) && next_after(p, b[t]) == g[v as int][i],
        lists_distinct(g) ==> in_choice_order(g, a.subrange(len, a.len() as int)),
        lists_distinct(g) ==> in_choice_order(g, b.subrange(a.len() as int, b.len() as int)),
    ensures
        lists_distinct(g) ==> in_choice_order(g, b.subrange(len, b.len() as int)),
{
    reveal(recorded_upto);
    if lists_distinct(g) {
        reveal(in_choice_order);
        let all = b.subrange(len, b.len() as int);
        let olds = a.subrange(len, a.len() as int);
        let news = b.subrange(a.len() as int, b.len() as int);
        assert forall|t: int, u: int| 0 <= t < u < all.len()
            implies lex_before(choices(g, #[trigger] all[t]), choices(g, #[trigger] all[u])) by {
            let tt = len + t;
            let uu = len + u;
            if uu < a.len() {
                assert(all[t] == olds[t] && all[u] == olds[u]);
            } else if tt >= a.len() {
                assert(all[t] == news[tt - a.len()] && all[u] == news[uu - a.len()]);
            } else {
                assert(all[t] == a[tt]);
                let k = choose|k: int| 0 <= k < i && g[v as int][k] == next_after(p, a[tt]);
                lemma_choices_branch(g, p, all[t], all[u], k, i);
            }
        }
    }
}

} // verus!

verus! {

/// The cycles come by their first node, and those with the same first node in
/// the lexicographic order of their choices.
#[verifier::opaque]
pub open spec fn in_search_order(g: Seq<Seq<usize>>, cs: Seq<Seq<usize>>) -> bool {
    forall|t: int, u: int| 0 <= t < u < cs.len() ==> {
        ||| (#[trigger] cs[t])[0] < (#[trigger] cs[u])[0]
        ||| cs[t][0] == cs[u][0] && lex_before(choices(g, cs[t]), choices(g, cs[u]))
    }
}

/// Filtering keeps the order of what it keeps.
proof fn lemma_filter_order(s: Seq<usize>, f: spec_fn(usize) -> bool, ia: int, ib: int)
    requires
        0 <= ia < ib < s.filter(f).len(),
    ensures
        exists|ja: int, jb: int| 0 <= ja < jb < s.len() && s[ja] == s.filter(f)[ia] && s[jb] == s.filter(f)[ib],
    decreases s.len(),
{
    reveal(Seq::filter);
    let d = s.drop_last();
    let a = d.filter(f);
    if f(s.last()) && ib == a.len() {
        assert(s.filter(f)[ib] == s.last());
        assert(s.filter(f)[ia] == a[ia]);
        lemma_filter_within(d, f);
        assert(d.contains(a[ia]));
        let ja = choose|ja: int| 0 <= ja < d.len() && d[ja] == a[ia];
        assert(s[ja] == d[ja]);
        assert(s[s.len() - 1] == s.last());
    } else {
        assert(s.filter(f)[ia] == a[ia] && s.filter(f)[ib] == a[ib]);
        lemma_filter_order(d, f, ia, ib);
        let (ja, jb) = choose|ja: int, jb: int| 0 <= ja < jb < d.len() && d[ja] == a[ia] && d[jb] == a[ib];
        assert(s[ja] == d[ja] && s[jb] == d[jb]);
    }
}

/// The node after position `j` on a cycle, and that it is a successor.
proof fn lemma_cycle_step(g: Seq<Seq<usize>>, c: Seq<usize>, j: int)
    requires
        is_elementary_cycle(g, c),
        0 <= j < c.len(),
    ensures
        has_edge(g, c[j], if j + 1 < c.len() { c[j + 1] } else { c[0] }),
{
    if j + 1 < c.len() {
        assert(has_edge(g, c[j], c[j + 1]));
    } else {
        assert(has_edge(g, c.last(), c[0]));
    }
}

/// Two cycles that start at the same node and agree on their choices before
/// position `k` agree on their nodes up to `k`.
proof fn lemma_same_choices_same_nodes(g: Seq<Seq<usize>>, c1: Seq<usize>, c2: Seq<usize>, k: int, i: int)
    requires
        is_elementary_cycle(g, c1),
        is_elementary_cycle(g, c2),
        c1[0] == c2[0],
        0 <= i <= k < c1.len(),
        k < c2.len(),
        forall|j: int| 0 <= j < k ==> choices(g, c1)[j] == choices(g, c2)[j],
    ensures
        c1[i] == c2[i],
    decreases i,
{
    if i > 0 {
        lemma_same_choices_same_nodes(g, c1, c2, k, i - 1);
        let j = i - 1;
        let x = c1[j];
        lemma_cycle_step(g, c1, j);
        lemma_cycle_step(g, c2, j);
        assert(choices(g, c1)[j] == choices(g, c2)[j]);
        let i1 = g[x as int].index_of(c1[i]);
        let i2 = g[x as int].index_of(c2[i]);
        assert(g[x as int].contains(c1[i]) && g[x as int].contains(c2[i]));
        assert(g[x as int][i1] == c1[i]);
        assert(g[x as int][i2] == c2[i]);
    }
}

/// The order of choices in the graph induced by a set of nodes is their order
/// in the whole graph, when no list repeats a successor.
proof fn lemma_lex_induced(big: Seq<Seq<usize>>, k: Set<usize>, c1: Seq<usize>, c2: Seq<usize>)
    requires
        lists_distinct(big),
        is_elementary_cycle(induced(big, k), c1),
        is_elementary_cycle(induced(big, k), c2),
        c1[0] == c2[0],
        lex_before(choices(induced(big, k), c1), choices(induced(big, k), c2)),
    ensures
        lex_before(choices(big, c1), choices(big, c2)),
{
    let g = induced(big, k);
    let a = choices(g, c1);
    let b = choices(g, c2);
    let m = choose|m: int| 0 <= m < a.len() && m < b.len() && a[m] < b[m] && forall|j: int| 0 <= j < m ==> a[j] == b[j];
    assert forall|i: int| 0 <= i <= m implies c1[i] == c2[i] by {
        lemma_same_choices_same_nodes(g, c1, c2, m, i);
    }
    let bb1 = choices(big, c1);
    let bb2 = choices(big, c2);
    assert forall|j: int| 0 <= j < m implies bb1[j] == bb2[j] by {
        assert(c1[j] == c2[j] && c1[j + 1] == c2[j + 1]);
    }
    let x = c1[m];
    assert(x == c2[m]);
    let n1 = if m + 1 < c1.len() { c1[m + 1] } else { c1[0] };
    let n2 = if m + 1 < c2.len() { c2[m + 1] } else { c2[0] };
    lemma_cycle_step(g, c1, m);
    lemma_cycle_step(g, c2, m);
    let f = |w: usize| k.contains(w);
    assert(g[x as int].len() > 0);
    assert(k.contains(x));
    assert(g[x as int] == big[x as int].filter(f));
    let ia = g[x as int].index_of(n1);
    let ib = g[x as int].index_of(n2);
    assert(g[x as int][ia] == n1 && g[x as int][ib] == n2);
    assert(a[m] == ia && b[m] == ib);
    lemma_filter_order(big[x as int], f, ia, ib);
    let (ja, jb) = choose|ja: int, jb: int| 0 <= ja < jb < big[x as int].len()
        && big[x as int][ja] == big[x as int].filter(f)[ia] && big[x as int][jb] == big[x as int].filter(f)[ib];
    assert(big[x as int].no_duplicates());
    lemma_index_of_distinct(big[x as int], ja);
    lemma_index_of_distinct(big[x as int], jb);
    assert(bb1[m] == ja && bb2[m] == jb);
}

} // verus!

verus! {

/// The cycles of a round through `s`, in the order of their choices in the
/// graph induced by a set of nodes, added to those of earlier rounds, all
/// starting below `bound <= s`: the search order is kept.
proof fn lemma_rounds_order(
    a: Seq<Seq<usize>>,
    b: Seq<Seq<usize>>,
    len: int,
    big: Seq<Seq<usize>>,
    k: Set<usize>,
    bound: usize,
    s: usize,
)
    requires
        lists_distinct(big),
        0 <= len <= a.len() <= b.len(),
        forall|t: int| 0 <= t < a.len() ==> #[trigger] b[t] == a[t],
        bound <= s,
        forall|t: int| len <= t < a.len() ==> (#[trigger] a[t]).len() > 0 && a[t][0] < bound,
        forall|t: int| a.len() <= t < b.len() ==> is_elementary_cycle(induced(big, k), #[trigger] b[t]) && b[t][0] == s,
        in_search_order(big, a.subrange(len, a.len() as int)),
        in_choice_order(induced(big, k), b.subrange(a.len() as int, b.len() as int)),
    ensures
        in_search_order(big, b.subrange(len, b.len() as int)),
{
    reveal(in_search_order);
    reveal(in_choice_order);
    let all = b.subrange(len, b.len() as int);
    let olds = a.subrange(len, a.len() as int);
    let news = b.subrange(a.len() as int, b.len() as int);
    assert forall|t: int, u: int| 0 <= t < u < all.len() implies {
        ||| (#[trigger] all[t])[0] < (#[trigger] all[u])[0]
        ||| all[t][0] == all[u][0] && lex_before(choices(big, all[t]), choices(big, all[u]))
    } by {
        let tt = len + t;
        let uu = len + u;
        if uu < a.len() {
            assert(all[t] == olds[t] && all[u] == olds[u]);
        } else if tt >= a.len() {
            assert(all[t] == news[tt - a.len()] && all[u] == news[uu - a.len()]);
            assert(b[tt] == all[t] && b[uu] == all[u]);
            lemma_lex_induced(big, k, all[t], all[u]);
        } else {
            assert(all[t] == a[tt]);
            assert(all[u] == b[uu]);
        }
    }
}

} // verus!

verus! {

/// `p` is a chain of waiting: each node after the first is blocked and on the
/// list of the node before it.
pub open spec fn wait_chain(lists: Seq<Seq<usize>>, blocked: Seq<bool>, p: Seq<usize>) -> bool {
    &&& p.len() > 0
    &&& forall|i: int| 0 <= i < p.len() - 1 ==> #[trigger] waits_step(lists, blocked, p[i], p[i + 1])
}

/// `y` is blocked and on the list of `x`.
pub open spec fn waits_step(lists: Seq<Seq<usize>>, blocked: Seq<bool>, x: usize, y: usize) -> bool {
    lists[x as int].contains(y) && blocked[y as int]
}

/// `y` waits on `node`, directly or through other blocked nodes.
pub open spec fn waits_on(lists: Seq<Seq<usize>>, blocked: Seq<bool>, node: usize, y: usize) -> bool {
    exists|p: Seq<usize>| #[trigger] wait_chain(lists, blocked, p) && p[0] == node && p.last() == y
}

/// A state from which a search for cycles through `s` in `g` can start:
/// the lists cover the nodes and name nodes, released nodes wait on nothing,
/// and a blocked node of `g` has no edge to `s` and only blocked successors,
/// each of which lists it as waiting.
pub open spec fn search_ready(blocked: Seq<bool>, lists: Seq<Seq<usize>>, g: Seq<Seq<usize>>, s: usize) -> bool {
    &&& lists.len() == blocked.len()
    &&& forall|w: int, t: int| 0 <= w < lists.len() && 0 <= t < lists[w].len() ==> #[trigger] lists[w][t] < blocked.len()
    &&& forall|w: int| 0 <= w < blocked.len() && !#[trigger] blocked[w] ==> lists[w].len() == 0
    &&& forall|u: usize, j: int| u < g.len() && u < blocked.len() && blocked[u as int] && 0 <= j < g[u as int].len() ==> {
        &&& #[trigger] g[u as int][j] != s
        &&& blocked[g[u as int][j] as int]
        &&& lists[g[u as int][j] as int].contains(u)
    }
}

/// Releasing `node` turned the blocked flags and lists `b0`, `l0` into `b1`,
/// `l1`: `node` and exactly the blocked nodes waiting on it are released, with
/// empty lists; every other node keeps its flag and its list.
pub open spec fn released_exactly(l0: Seq<Seq<usize>>, b0: Seq<bool>, l1: Seq<Seq<usize>>, b1: Seq<bool>, node: usize) -> bool {
    &&& l1.len() == l0.len()
    &&& b1.len() == b0.len()
    &&& !b1[node as int]
    &&& forall|y: usize| y < b0.len() && y != node ==> (#[trigger] b1[y as int] <==> b0[y as int] && !waits_on(l0, b0, node, y))
    &&& forall|y: usize| y < b0.len() && waits_on(l0, b0, node, y) ==> (#[trigger] l1[y as int]).len() == 0
    &&& forall|y: usize| y < b0.len() && !waits_on(l0, b0, node, y) ==> #[trigger] l1[y as int] == l0[y as int]
}

/// The nodes released by a nested release from `w`, itself on the list of
/// `node`, wait on `node`.
proof fn lemma_waits_through(
    entry: &ElementaryCyclesSearch,
    before: &ElementaryCyclesSearch,
    after: &ElementaryCyclesSearch,
    node: usize,
    w: usize,
)
    requires
        entry.lists_wf(),
        before.lists_wf(),
        node < entry.blocked@.len(),
        before.blocked@.len() == entry.blocked@.len(),
        w < entry.blocked@.len(),
        before.blocked@[w as int],
        entry.b@[node as int]@.contains(w),
        forall|y: int| 0 <= y < entry.blocked@.len() && #[trigger] before.blocked@[y] ==> {
            &&& entry.blocked@[y]
            &&& before.b@[y] == entry.b@[y]
        },
        before.released_only_waiting(entry, node),
        after.released_only_waiting(before, w),
        after.released_from(before, w),
    ensures
        after.released_only_waiting(entry, node),
{
    let l0 = adj_view(entry.b@);
    let lb = adj_view(before.b@);
    let n = entry.blocked@.len();
    assert forall|y: usize| y < n && y != node && entry.blocked@[y as int] && !#[trigger] after.blocked@[y as int]
        implies waits_on(l0, entry.blocked@, node, y) by {
        if !before.blocked@[y as int] {
            assert(before.blocked@.len() == n);
        } else if y == w {
            let q = seq![node, w];
            assert(l0[node as int] == entry.b@[node as int]@);
            assert(wait_chain(l0, entry.blocked@, q));
        } else {
            let p = choose|p: Seq<usize>| #[trigger] wait_chain(lb, before.blocked@, p) && p[0] == w && p.last() == y;
            let q = seq![node] + p;
            assert forall|i: int| 0 <= i < q.len() - 1 implies #[trigger] waits_step(l0, entry.blocked@, q[i], q[i + 1]) by {
                if i == 0 {
                    assert(q[1] == w);
                    assert(l0[node as int] == entry.b@[node as int]@);
                } else {
                    let j = i - 1;
                    assert(q[i] == p[j] && q[i + 1] == p[j + 1]);
                    assert(waits_step(lb, before.blocked@, p[j], p[j + 1]));
                    assert(lb.len() == n);
                    assert forall|x: int, t: int| 0 <= x < n && 0 <= t < lb[x].len() implies #[trigger] lb[x][t] < n by {
                        assert(lb[x] == before.b@[x]@);
                    }
                    lemma_chain_blocked(lb, before.blocked@, p, j, n);
                    assert(p[i - 1] < n);
                    assert(before.b@[p[i - 1] as int] == entry.b@[p[i - 1] as int]);
                    assert(lb[p[i - 1] as int] == l0[p[i - 1] as int]);
                    let t = choose|t: int| 0 <= t < lb[p[i - 1] as int].len() && #[trigger] lb[p[i - 1] as int][t] == p[i];
                    assert(before.b@[p[i] as int] == entry.b@[p[i] as int] || !before.blocked@[p[i] as int]);
                }
            }
            assert(q.last() == y);
            assert(wait_chain(l0, entry.blocked@, q));
        }
    }
}

/// The nodes of a chain of waiting that starts at a blocked node are blocked
/// and within the graph, when the lists name only nodes of the graph.
proof fn lemma_chain_blocked(lists: Seq<Seq<usize>>, blocked: Seq<bool>, p: Seq<usize>, i: int, n: nat)
    requires
        wait_chain(lists, blocked, p),
        blocked[p[0] as int],
        p[0] < n,
        lists.len() == n,
        forall|x: int, t: int| 0 <= x < n && 0 <= t < lists[x].len() ==> #[trigger] lists[x][t] < n,
        0 <= i < p.len(),
    ensures
        blocked[p[i] as int],
        p[i] < n,
    decreases i,
{
    if i > 0 {
        lemma_chain_blocked(lists, blocked, p, i - 1, n);
        let j = i - 1;
        assert(waits_step(lists, blocked, p[j], p[j + 1]));
        let t = choose|t: int| 0 <= t < lists[p[i - 1] as int].len() && #[trigger] lists[p[i - 1] as int][t] == p[i];
    }
}

/// The nodes of a chain of waiting from a node of the graph are nodes of the
/// graph, when the lists name only nodes of the graph.
proof fn lemma_chain_in_range(lists: Seq<Seq<usize>>, blocked: Seq<bool>, p: Seq<usize>, i: int, n: nat)
    requires
        wait_chain(lists, blocked, p),
        p[0] < n,
        lists.len() == n,
        forall|x: int, t: int| 0 <= x < n && 0 <= t < lists[x].len() ==> #[trigger] lists[x][t] < n,
        0 <= i < p.len(),
    ensures
        p[i] < n,
    decreases i,
{
    if i > 0 {
        lemma_chain_in_range(lists, blocked, p, i - 1, n);
        let j = i - 1;
        assert(waits_step(lists, blocked, p[j], p[j + 1]));
        let t = choose|t: int| 0 <= t < lists[p[j] as int].len() && #[trigger] lists[p[j] as int][t] == p[i];
    }
}

/// Every node of a chain of waiting from `node` is released, when `node` is
/// released along with everything on the lists of the released nodes.
proof fn lemma_chain_released(lists: Seq<Seq<usize>>, b0: Seq<bool>, b1: Seq<bool>, p: Seq<usize>, i: int)
    requires
        wait_chain(lists, b0, p),
        !b1[p[0] as int],
        forall|t: int| 0 <= t < lists[p[0] as int].len() ==> !b1[#[trigger] lists[p[0] as int][t] as int],
        forall|y: int, t: int| 0 <= y < b0.len() && b0[y] && !b1[y] && 0 <= t < lists[y].len() ==> !b1[#[trigger] lists[y][t] as int],
        forall|k: int| 0 <= k < p.len() ==> #[trigger] p[k] < b0.len(),
        0 <= i < p.len(),
    ensures
        !b1[p[i] as int],
    decreases i,
{
    if i > 0 {
        lemma_chain_released(lists, b0, b1, p, i - 1);
        let j = i - 1;
        assert(waits_step(lists, b0, p[j], p[j + 1]));
        let t = choose|t: int| 0 <= t < lists[p[i - 1] as int].len() && #[trigger] lists[p[i - 1] as int][t] == p[i];
        if i - 1 > 0 {
            let j2 = i - 2;
            assert(waits_step(lists, b0, p[j2], p[j2 + 1]));
            assert(lists[p[i - 1] as int][t] == p[i]);
        } else {
            assert(lists[p[0] as int][t] == p[i]);
        }
    }
}

/// A release, as `release` states it, releases exactly `node` and the blocked
/// nodes waiting on it.
proof fn lemma_released_exactly(a: &ElementaryCyclesSearch, c: &ElementaryCyclesSearch, node: usize)
    requires
        a.lists_wf(),
        node < a.blocked@.len(),
        c.released_from(a, node),
        c.released_only_waiting(a, node),
    ensures
        released_exactly(a.waiting_lists(), a.blocked_nodes(), c.waiting_lists(), c.blocked_nodes(), node),
{
    let l0 = adj_view(a.b@);
    let b0 = a.blocked@;
    let b1 = c.blocked@;
    let n = b0.len();
    assert(l0[node as int] == a.b@[node as int]@);
    assert forall|y: usize| y < n && waits_on(l0, b0, node, y) implies !b1[y as int] by {
        let p = choose|p: Seq<usize>| #[trigger] wait_chain(l0, b0, p) && p[0] == node && p.last() == y;
        assert forall|y2: int, t: int| 0 <= y2 < b0.len() && b0[y2] && !b1[y2] && 0 <= t < l0[y2].len() implies !b1[#[trigger] l0[y2][t] as int] by {
            assert(l0[y2] == a.b@[y2]@);
        }
        assert(l0.len() == n);
        assert forall|x: int, t: int| 0 <= x < n && 0 <= t < l0[x].len() implies #[trigger] l0[x][t] < n by {
            assert(l0[x] == a.b@[x]@);
        }
        assert forall|k: int| 0 <= k < p.len() implies #[trigger] p[k] < b0.len() by {
            lemma_chain_in_range(l0, b0, p, k, n);
        }
        lemma_chain_released(l0, b0, b1, p, p.len() - 1);
    }
    assert(wait_chain(l0, b0, seq![node]));
    assert(waits_on(l0, b0, node, node));
    assert forall|y: usize| y < n && y != node implies (#[trigger] b1[y as int] <==> b0[y as int] && !waits_on(l0, b0, node, y)) by {}
    assert forall|y: usize| y < n && waits_on(l0, b0, node, y) implies (#[trigger] adj_view(c.b@)[y as int]).len() == 0 by {
        assert(!b1[y as int]);
        if y != node {
            let p = choose|p: Seq<usize>| #[trigger] wait_chain(l0, b0, p) && p[0] == node && p.last() == y;
            let j = p.len() - 2;
            assert(waits_step(l0, b0, p[j], p[j + 1]));
            assert(b0[y as int]);
        }
    }
    assert forall|y: usize| y < n && !waits_on(l0, b0, node, y) implies #[trigger] adj_view(c.b@)[y as int] == l0[y as int] by {
        assert(y != node);
        if b0[y as int] {
            assert(b1[y as int]);
            assert(c.b@[y as int] == a.b@[y as int]);
        } else {
            assert(c.b@[y as int] == a.b@[y as int]);
        }
    }
}

} // verus!

verus! {

/// The nodes of the stack, a walk whose top is a node of `g`, are nodes of `g`.
proof fn lemma_stack_in_graph(a: &ElementaryCyclesSearch, g: Seq<Seq<usize>>, s: usize)
    requires
        a.search_at(g, s),
        a.stack@.len() > 0,
        a.stack@.last() < g.len(),
    ensures
        forall|k: int| 0 <= k < a.stack@.len() ==> #[trigger] a.stack@[k] < g.len(),
{
    let st = a.stack@;
    assert forall|k: int| 0 <= k < st.len() implies #[trigger] st[k] < g.len() by {
        if k < st.len() - 1 {
            assert(has_edge(g, st[k], st[k + 1]));
        }
    }
}

/// A walk back to `s` that begins with `p` and then `w` begins with `p`.
proof fn lemma_walk_pop(g: Seq<Seq<usize>>, s: usize, p: Seq<usize>, c: Seq<usize>, w: usize)
    requires
        walk_from(g, s, p.push(w), c),
    ensures
        walk_from(g, s, p, c),
{
    let m = p.len() as int;
    assert(c.take(m) =~= p) by {
        assert forall|k: int| 0 <= k < m implies c.take(m)[k] == p[k] by {
            assert(c.take(m + 1)[k] == p.push(w)[k]);
        }
    }
}

/// The stack, closed by an edge from its top back to `s`, is an elementary
/// cycle of `g`.
proof fn lemma_stack_cycle(a: &ElementaryCyclesSearch, g: Seq<Seq<usize>>, s: usize, v: usize)
    requires
        a.search_at(g, s),
        a.stack@.len() > 0,
        a.stack@.last() == v,
        a.stack@[0] == s,
        has_edge(g, v, s),
    ensures
        is_elementary_cycle(g, a.stack@),
{
    assert(is_path(g, a.stack@));
}

} // verus!

verus! {

/// `x` comes before `y` in search order: by first node, then by choices.
pub open spec fn search_before(g: Seq<Seq<usize>>, x: Seq<usize>, y: Seq<usize>) -> bool {
    ||| x[0] < y[0]
    ||| x[0] == y[0] && lex_before(choices(g, x), choices(g, y))
}

/// No two sequences come before each other in lexicographic order.
proof fn lemma_lex_asymmetric(a: Seq<int>, b: Seq<int>)
    requires
        lex_before(a, b),
    ensures
        !lex_before(b, a),
{
    let k = choose|k: int| 0 <= k < a.len() && k < b.len() && a[k] < b[k] && forall|j: int| 0 <= j < k ==> a[j] == b[j];
    if lex_before(b, a) {
        let k2 = choose|k2: int| 0 <= k2 < b.len() && k2 < a.len() && b[k2] < a[k2] && forall|j: int| 0 <= j < k2 ==> b[j] == a[j];
        if k < k2 {
            assert(b[k] == a[k]);
        } else if k2 < k {
            assert(a[k2] == b[k2]);
        }
    }
}

/// Two lists of cycles without repeats, with the same members and both in
/// search order, are the same list. So, for a graph whose lists repeat no
/// successor, every full search appends the same cycles in the same order.
pub proof fn lemma_search_order_unique(g: Seq<Seq<usize>>, a: Seq<Seq<usize>>, b: Seq<Seq<usize>>)
    requires
        a.no_duplicates(),
        b.no_duplicates(),
        forall|c: Seq<usize>| #[trigger] a.contains(c) <==> b.contains(c),
        in_search_order(g, a),
        in_search_order(g, b),
    ensures
        a == b,
    decreases a.len(),
{
    reveal(in_search_order);
    if a.len() == 0 {
        if b.len() > 0 {
            assert(b.contains(b[0]));
            assert(a.contains(b[0]));
        }
        assert(a =~= b);
    } else {
        let x = a[0];
        assert(a.contains(x));
        let j = choose|j: int| 0 <= j < b.len() && b[j] == x;
        if j > 0 {
            let y = b[0];
            assert(b[0] != b[j]);
            assert(b.contains(y));
            assert(a.contains(y));
            let i = choose|i: int| 0 <= i < a.len() && a[i] == y;
            assert(i != 0);
            assert(search_before(g, a[0], a[i]));
            assert(search_before(g, b[0], b[j]));
            if x[0] == y[0] {
                lemma_lex_asymmetric(choices(g, x), choices(g, y));
            }
            assert(false);
        }
        let a2 = a.drop_first();
        let b2 = b.drop_first();
        assert forall|c: Seq<usize>| #[trigger] a2.contains(c) <==> b2.contains(c) by {
            if a2.contains(c) {
                let t = choose|t: int| 0 <= t < a2.len() && a2[t] == c;
                assert(a[t + 1] == c);
                assert(a[0] != a[t + 1]);
                assert(a.contains(c));
                assert(b.contains(c));
                let u = choose|u: int| 0 <= u < b.len() && b[u] == c;
                assert(u != 0);
                assert(b2[u - 1] == c);
            }
            if b2.contains(c) {
                let t = choose|t: int| 0 <= t < b2.len() && b2[t] == c;
                assert(b[t + 1] == c);
                assert(b[0] != b[t + 1]);
                assert(b.contains(c));
                assert(a.contains(c));
                let u = choose|u: int| 0 <= u < a.len() && a[u] == c;
                assert(u != 0);
                assert(a2[u - 1] == c);
            }
        }
        assert(in_search_order(g, a2)) by {
            assert forall|t: int, u: int| 0 <= t < u < a2.len() implies {
                ||| (#[trigger] a2[t])[0] < (#[trigger] a2[u])[0]
                ||| a2[t][0] == a2[u][0] && lex_before(choices(g, a2[t]), choices(g, a2[u]))
            } by {
                assert(a2[t] == a[t + 1] && a2[u] == a[u + 1]);
            }
        }
        assert(in_search_order(g, b2)) by {
            assert forall|t: int, u: int| 0 <= t < u < b2.len() implies {
                ||| (#[trigger] b2[t])[0] < (#[trigger] b2[u])[0]
                ||| b2[t][0] == b2[u][0] && lex_before(choices(g, b2[t]), choices(g, b2[u]))
            } by {
                assert(b2[t] == b[t + 1] && b2[u] == b[u + 1]);
            }
        }
        lemma_search_order_unique(g, a2, b2);
        assert(a =~= b) by {
            assert forall|t: int| 0 <= t < a.len() implies a[t] == b[t] by {
                if t > 0 {
                    assert(a[t] == a2[t - 1]);
                    assert(b[t] == b2[t - 1]);
                }
            }
        }
    }
}

} // verus!

verus! {

/// How many times `x` occurs in `s`.
pub open spec fn occurrences(s: Seq<Seq<usize>>, x: Seq<usize>) -> nat {
    s.to_multiset().count(x)
}

/// How many times `x` occurs in the list `s`.
pub open spec fn count_in(s: Seq<usize>, x: usize) -> nat {
    s.to_multiset().count(x)
}

/// The node that follows position `j` on the cycle `c`.
pub open spec fn follower(c: Seq<usize>, j: int) -> usize {
    if j + 1 < c.len() { c[j + 1] } else { c[0] }
}

/// The number of ways to walk the cycle `c` in `g` from its position `m` on:
/// the product, over the positions from `m`, of the number of times the list
/// of the node there names the node that follows it.
pub open spec fn ways_from(g: Seq<Seq<usize>>, c: Seq<usize>, m: int) -> nat
    decreases c.len() - m,
{
    if 0 <= m < c.len() {
        count_in(g[c[m] as int], follower(c, m)) * ways_from(g, c, m + 1)
    } else {
        1
    }
}

proof fn lemma_occ_push(s: Seq<Seq<usize>>, a: Seq<usize>, x: Seq<usize>)
    ensures
        occurrences(s.push(a), x) == occurrences(s, x) + if a == x { 1nat } else { 0nat },
{
    broadcast use vstd::seq_lib::to_multiset_build, vstd::multiset::group_multiset_axioms;
}

proof fn lemma_count_push(s: Seq<usize>, a: usize, x: usize)
    ensures
        count_in(s.push(a), x) == count_in(s, x) + if a == x { 1nat } else { 0nat },
{
    broadcast use vstd::seq_lib::to_multiset_build, vstd::multiset::group_multiset_axioms;
}

proof fn lemma_occ_concat(a: Seq<Seq<usize>>, b: Seq<Seq<usize>>, x: Seq<usize>)
    ensures
        occurrences(a + b, x) == occurrences(a, x) + occurrences(b, x),
{
    broadcast use vstd::seq_lib::lemma_multiset_commutative, vstd::multiset::group_multiset_axioms;
}

proof fn lemma_occ_absent(s: Seq<Seq<usize>>, x: Seq<usize>)
    requires
        !s.contains(x),
    ensures
        occurrences(s, x) == 0,
{
    broadcast use vstd::seq_lib::to_multiset_contains;
}

/// Each cycle following the walk `p` is recorded after the first `len` as
/// often as the first `i` successors of `v` name the node it continues to,
/// times the ways to walk the rest of it.
#[verifier::opaque]
spec fn counted_upto(found: Seq<Seq<usize>>, len: int, g: Seq<Seq<usize>>, p: Seq<usize>, v: usize, i: int) -> bool {
    forall|c: Seq<usize>| #[trigger] extends(g, p, c) ==> occurrences(found.subrange(len, found.len() as int), c)
        == count_in(g[v as int].take(i), next_after(p, c)) * ways_from(g, c, p.len() as int)
}

proof fn lemma_counted_start(found: Seq<Seq<usize>>, g: Seq<Seq<usize>>, p: Seq<usize>, v: usize)
    ensures
        counted_upto(found, found.len() as int, g, p, v, 0),
{
    reveal(counted_upto);
    broadcast use vstd::seq_lib::to_multiset_len, vstd::multiset::group_multiset_axioms;
    assert forall|c: Seq<usize>| #[trigger] extends(g, p, c) implies occurrences(found.subrange(found.len() as int, found.len() as int), c)
        == count_in(g[v as int].take(0), next_after(p, c)) * ways_from(g, c, p.len() as int) by {
        assert(found.subrange(found.len() as int, found.len() as int) =~= Seq::<Seq<usize>>::empty());
        assert(g[v as int].take(0) =~= Seq::<usize>::empty());
        lemma_occ_absent(Seq::<Seq<usize>>::empty(), c);
        assert(count_in(Seq::<usize>::empty(), next_after(p, c)) == 0) by {
            broadcast use vstd::seq_lib::to_multiset_contains;
        }
    }
}

/// The count after the successor at `i`, from the count before it and what was
/// recorded for that successor.
proof fn lemma_counted_step(
    a: Seq<Seq<usize>>,
    b: Seq<Seq<usize>>,
    len: int,
    g: Seq<Seq<usize>>,
    p: Seq<usize>,
    v: usize,
    i: int,
)
    requires
        counted_upto(a, len, g, p, v, i),
        0 <= len <= a.len() <= b.len(),
        forall|t: int| 0 <= t < a.len() ==> #[trigger] b[t] == a[t],
        v < g.len(),
        0 <= i < g[v as int].len(),
        forall|c: Seq<usize>| #[trigger] extends(g, p, c) ==> occurrences(b.subrange(a.len() as int, b.len() as int), c)
            == if next_after(p, c) == g[v as int][i] { ways_from(g, c, p.len() as int) } else { 0nat },
    ensures
        counted_upto(b, len, g, p, v, i + 1),
{
    reveal(counted_upto);
    let w = g[v as int][i];
    assert forall|c: Seq<usize>| #[trigger] extends(g, p, c) implies occurrences(b.subrange(len, b.len() as int), c)
        == count_in(g[v as int].take(i + 1), next_after(p, c)) * ways_from(g, c, p.len() as int) by {
        assert(b.subrange(len, b.len() as int) =~= a.subrange(len, a.len() as int) + b.subrange(a.len() as int, b.len() as int));
        lemma_occ_concat(a.subrange(len, a.len() as int), b.subrange(a.len() as int, b.len() as int), c);
        assert(g[v as int].take(i + 1) =~= g[v as int].take(i).push(w));
        lemma_count_push(g[v as int].take(i), w, next_after(p, c));
        let k = count_in(g[v as int].take(i), next_after(p, c));
        let m = ways_from(g, c, p.len() as int);
        assert((k + 1) * m == k * m + m) by (nonlinear_arith);
    }
}

/// The count after recording the walk `p` itself, closed by the edge at `i`
/// back to its start.
proof fn lemma_counted_record(a: Seq<Seq<usize>>, b: Seq<Seq<usize>>, len: int, g: Seq<Seq<usize>>, p: Seq<usize>, v: usize, i: int)
    requires
        counted_upto(a, len, g, p, v, i),
        0 <= len <= a.len(),
        b == a.push(p),
        p.len() > 0,
        v < g.len(),
        0 <= i < g[v as int].len(),
        g[v as int][i] == p[0],
    ensures
        counted_upto(b, len, g, p, v, i + 1),
{
    assert(b.subrange(a.len() as int, b.len() as int) =~= Seq::<Seq<usize>>::empty().push(p));
    assert forall|c: Seq<usize>| #[trigger] extends(g, p, c) implies occurrences(b.subrange(a.len() as int, b.len() as int), c)
        == if next_after(p, c) == g[v as int][i] { ways_from(g, c, p.len() as int) } else { 0nat } by {
        lemma_occ_push(Seq::<Seq<usize>>::empty(), p, c);
        lemma_occ_absent(Seq::<Seq<usize>>::empty(), c);
        if c != p {
            let m = p.len() as int;
            assert(c.len() > m) by {
                if c.len() == m {
                    assert(c =~= c.take(m));
                }
            }
            assert(c[0] == c.take(m)[0]);
            assert(c[m] != c[0]);
        }
    }
    assert forall|t: int| 0 <= t < a.len() implies #[trigger] b[t] == a[t] by {}
    lemma_counted_step(a, b, len, g, p, v, i);
}

/// The count after taking in what the search from the successor `w` at `i`
/// recorded.
proof fn lemma_counted_child(a: Seq<Seq<usize>>, b: Seq<Seq<usize>>, len: int, g: Seq<Seq<usize>>, p: Seq<usize>, v: usize, i: int, w: usize)
    requires
        counted_upto(a, len, g, p, v, i),
        0 <= len <= a.len() <= b.len(),
        forall|t: int| 0 <= t < a.len() ==> #[trigger] b[t] == a[t],
        p.len() > 0,
        v < g.len(),
        0 <= i < g[v as int].len(),
        g[v as int][i] == w,
        w != p[0],
        forall|t: int| a.len() <= t < b.len() ==> extends(g, p.push(w), #[trigger] b[t]),
        forall|c: Seq<usize>| #[trigger] extends(g, p.push(w), c) ==> occurrences(b.subrange(a.len() as int, b.len() as int), c)
            == ways_from(g, c, p.len() as int),
    ensures
        counted_upto(b, len, g, p, v, i + 1),
{
    assert forall|c: Seq<usize>| #[trigger] extends(g, p, c) implies occurrences(b.subrange(a.len() as int, b.len() as int), c)
        == if next_after(p, c) == g[v as int][i] { ways_from(g, c, p.len() as int) } else { 0nat } by {
        let m = p.len() as int;
        if next_after(p, c) == w {
            assert(c[0] == c.take(m)[0]);
            assert(c.len() > m);
            lemma_extends_push(g, p, c, w);
        } else {
            let news = b.subrange(a.len() as int, b.len() as int);
            if news.contains(c) {
                let t = choose|t: int| 0 <= t < news.len() && news[t] == c;
                assert(extends(g, p.push(w), b[a.len() + t]));
                lemma_extends_pop(g, p, c, w);
            }
            lemma_occ_absent(news, c);
        }
    }
    lemma_counted_step(a, b, len, g, p, v, i);
}

/// The count after passing over the blocked successor `w` at `i`.
proof fn lemma_counted_blocked(st: &ElementaryCyclesSearch, found: Seq<Seq<usize>>, len: int, g: Seq<Seq<usize>>, s: usize, p: Seq<usize>, v: usize, i: int, w: usize)
    requires
        counted_upto(found, len, g, p, v, i),
        0 <= len <= found.len(),
        st.blocked_closed(g, s),
        adj_wf(g),
        g.len() <= st.blocked@.len(),
        st.stack@ == p,
        p.len() > 0,
        p[0] == s,
        v < g.len(),
        0 <= i < g[v as int].len(),
        g[v as int][i] == w,
        w != s,
        st.blocked@[w as int],
    ensures
        counted_upto(found, len, g, p, v, i + 1),
{
    assert(found.subrange(found.len() as int, found.len() as int) =~= Seq::<Seq<usize>>::empty());
    assert forall|c: Seq<usize>| #[trigger] extends(g, p, c) implies occurrences(found.subrange(found.len() as int, found.len() as int), c)
        == if next_after(p, c) == g[v as int][i] { ways_from(g, c, p.len() as int) } else { 0nat } by {
        lemma_blocked_next(st, g, s, p, c, w);
        lemma_occ_absent(Seq::<Seq<usize>>::empty(), c);
    }
    lemma_counted_step(found, found, len, g, p, v, i);
}

/// After all successors of `v`, the top of the walk `p`: each cycle following
/// `p` is recorded as often as there are ways to walk it from `v` on.
proof fn lemma_counted_done(found: Seq<Seq<usize>>, len: int, g: Seq<Seq<usize>>, p: Seq<usize>, v: usize)
    requires
        counted_upto(found, len, g, p, v, g[v as int].len() as int),
        p.len() > 0,
        p.last() == v,
    ensures
        forall|c: Seq<usize>| #[trigger] extends(g, p, c) ==> occurrences(found.subrange(len, found.len() as int), c)
            == ways_from(g, c, p.len() - 1),
{
    reveal(counted_upto);
    assert forall|c: Seq<usize>| #[trigger] extends(g, p, c) implies occurrences(found.subrange(len, found.len() as int), c)
        == ways_from(g, c, p.len() - 1) by {
        let m = p.len() as int;
        assert(g[v as int].take(g[v as int].len() as int) =~= g[v as int]);
        assert(c[m - 1] == c.take(m)[m - 1]);
        assert(follower(c, m - 1) == next_after(p, c));
    }
}

} // verus!

verus! {

/// Keeping the elements that pass `f` keeps every occurrence of one that passes.
proof fn lemma_count_filter(s: Seq<usize>, f: spec_fn(usize) -> bool, y: usize, j: int)
    requires
        f(y),
        0 <= j <= s.len(),
    ensures
        count_in(s.take(j).filter(f), y) == count_in(s.take(j), y),
    decreases j,
{
    if j > 0 {
        lemma_count_filter(s, f, y, j - 1);
        crate::johnson_find_cycles::graph::lemma_filter_take_step(s, j - 1, f);
        assert(s.take(j) =~= s.take(j - 1).push(s[j - 1]));
        lemma_count_push(s.take(j - 1), s[j - 1], y);
        if f(s[j - 1]) {
            lemma_count_push(s.take(j - 1).filter(f), s[j - 1], y);
        }
    } else {
        assert(s.take(0) =~= Seq::<usize>::empty());
        assert(s.take(0).filter(f) =~= Seq::<usize>::empty()) by {
            reveal(Seq::filter);
        }
    }
}

/// A cycle written from its least node has as many ways to be walked in the
/// graph its component induces as in the graph itself.
proof fn lemma_ways_induced(g: Seq<Seq<usize>>, c: Seq<usize>, m: int)
    requires
        is_elementary_cycle(g, c),
        starts_at_least(c),
        0 <= m <= c.len(),
    ensures
        ways_from(induced(g, scc_set(subgraph_from(g, c[0]), c[0])), c, m) == ways_from(g, c, m),
    decreases c.len() - m,
{
    let k = scc_set(subgraph_from(g, c[0]), c[0]);
    let h = induced(g, k);
    let f = |w: usize| k.contains(w);
    if m < c.len() {
        lemma_ways_induced(g, c, m + 1);
        lemma_cycle_nodes_scc(g, c, m);
        let nx = follower(c, m);
        if m + 1 < c.len() {
            lemma_cycle_nodes_scc(g, c, m + 1);
        } else {
            lemma_cycle_nodes_scc(g, c, 0);
        }
        assert(k.contains(nx));
        assert(c[m] < g.len()) by {
            if m + 1 < c.len() {
                assert(has_edge(g, c[m], c[m + 1]));
            } else {
                assert(has_edge(g, c.last(), c[0]));
            }
        }
        assert(h[c[m] as int] == g[c[m] as int].filter(f));
        lemma_count_filter(g[c[m] as int], f, nx, g[c[m] as int].len() as int);
        assert(g[c[m] as int].take(g[c[m] as int].len() as int) =~= g[c[m] as int]);
    }
}

} // verus!

verus! {

/// After the round for `s`, following rounds for nodes below `from`: each
/// reported cycle starting at `s` or below is recorded since `len` as often
/// as there are ways to walk it.
proof fn lemma_search_counts(
    before: &ElementaryCyclesSearch,
    after: &ElementaryCyclesSearch,
    g: Seq<Seq<usize>>,
    from: usize,
    s: usize,
    len: int,
)
    requires
        0 <= len <= before.found@.len(),
        first_nontrivial(before.graph(), from, s),
        g == induced(before.graph(), scc_set(subgraph_from(before.graph(), s), s)),
        after.graph() == before.graph(),
        before.stack@.len() == 0,
        before.found@.len() <= after.found@.len(),
        forall|i: int| 0 <= i < before.found@.len() ==> #[trigger] after.found@[i] == before.found@[i],
        forall|t: int| len <= t < before.found@.len() ==> (#[trigger] before.found@[t]).len() > 0 && before.found@[t][0] < from,
        forall|t: int| before.found@.len() <= t < after.found@.len() ==> (#[trigger] after.found@[t]).len() > 0 && after.found@[t][0] == s,
        forall|c: Seq<usize>| #[trigger] reported_cycle(before.graph(), c) && c[0] < from
            ==> occurrences(before.found@.subrange(len, before.found@.len() as int), c) == ways_from(before.graph(), c, 0),
        forall|c: Seq<usize>| #[trigger] extends(g, before.stack@.push(s), c)
            ==> occurrences(after.found@.subrange(before.found@.len() as int, after.found@.len() as int), c) == ways_from(g, c, 0),
    ensures
        forall|c: Seq<usize>| #[trigger] reported_cycle(after.graph(), c) && c[0] < s + 1
            ==> occurrences(after.found@.subrange(len, after.found@.len() as int), c) == ways_from(after.graph(), c, 0),
{
    let gr = before.graph();
    let old_part = before.found@.subrange(len, before.found@.len() as int);
    let round = after.found@.subrange(before.found@.len() as int, after.found@.len() as int);
    assert(after.found@.subrange(len, after.found@.len() as int) =~= old_part + round);
    assert forall|c: Seq<usize>| #[trigger] reported_cycle(after.graph(), c) && c[0] < s + 1
        implies occurrences(after.found@.subrange(len, after.found@.len() as int), c) == ways_from(after.graph(), c, 0) by {
        lemma_occ_concat(old_part, round, c);
        if c[0] < from {
            if round.contains(c) {
                let t = choose|t: int| 0 <= t < round.len() && round[t] == c;
                assert(after.found@[before.found@.len() + t] == c);
            }
            lemma_occ_absent(round, c);
        } else if c[0] < s {
            lemma_reported_nontrivial(gr, c);
        } else {
            if old_part.contains(c) {
                let t = choose|t: int| 0 <= t < old_part.len() && old_part[t] == c;
                assert(before.found@[len + t] == c);
            }
            lemma_occ_absent(old_part, c);
            lemma_cycle_in_component(gr, c);
            assert(before.stack@.push(s) =~= seq![s]);
            assert(c.take(1) =~= seq![s]);
            assert(extends(g, before.stack@.push(s), c));
            lemma_ways_induced(gr, c, 0);
        }
    }
}

} // verus!

verus! {

/// `q` gives, for each node of the cycle `c`, a position in its list in `g`
/// that names the node following it on `c`.
pub open spec fn positions_of(g: Seq<Seq<usize>>, c: Seq<usize>, q: Seq<int>) -> bool {
    &&& q.len() == c.len()
    &&& forall|j: int| 0 <= j < c.len() ==> {
        &&& 0 <= #[trigger] q[j] < g[c[j] as int].len()
        &&& g[c[j] as int][q[j]] == follower(c, j)
    }
}

/// The cycles `cs` come with positions `ps` of their walks in `g`, in
/// lexicographic order of the positions.
pub open spec fn walked_in_order(g: Seq<Seq<usize>>, cs: Seq<Seq<usize>>, ps: Seq<Seq<int>>) -> bool {
    &&& ps.len() == cs.len()
    &&& forall|t: int| 0 <= t < cs.len() ==> positions_of(g, cs[t], #[trigger] ps[t])
    &&& forall|t: int, u: int| 0 <= t < u < ps.len() ==> lex_before(#[trigger] ps[t], #[trigger] ps[u])
}

/// The cycles `cs` come in the lexicographic order of some positions of their
/// walks in `g`.
pub open spec fn in_walk_order(g: Seq<Seq<usize>>, cs: Seq<Seq<usize>>) -> bool {
    exists|ps: Seq<Seq<int>>| #[trigger] walked_in_order(g, cs, ps)
}

/// The graph induced by the component of `s` in the subgraph from `s`: the
/// graph the search for cycles through `s` walks.
pub open spec fn component_graph(g: Seq<Seq<usize>>, s: usize) -> Seq<Seq<usize>> {
    induced(g, scc_set(subgraph_from(g, s), s))
}

/// The cycles `cs` come with positions `ps` of their walks in the graph of the
/// component of their first node, by first node and then in lexicographic
/// order of the positions: the order in which the search finds them.
pub open spec fn searched_in_order(g: Seq<Seq<usize>>, cs: Seq<Seq<usize>>, ps: Seq<Seq<int>>) -> bool {
    &&& ps.len() == cs.len()
    &&& forall|t: int| 0 <= t < cs.len() ==> positions_of(component_graph(g, cs[t][0]), cs[t], #[trigger] ps[t])
    &&& forall|t: int, u: int| 0 <= t < u < cs.len() ==> {
        ||| (#[trigger] cs[t])[0] < (#[trigger] cs[u])[0]
        ||| cs[t][0] == cs[u][0] && lex_before(ps[t], ps[u])
    }
}

/// `pre` gives, for each node of the walk `p`, a position in its list in `g`
/// that names the node following it on `p` and then `v`.
pub open spec fn walk_positions(g: Seq<Seq<usize>>, p: Seq<usize>, v: usize, pre: Seq<int>) -> bool {
    &&& pre.len() == p.len()
    &&& forall|j: int| 0 <= j < p.len() ==> {
        &&& 0 <= #[trigger] pre[j] < g[p[j] as int].len()
        &&& g[p[j] as int][pre[j]] == if j + 1 < p.len() { p[j + 1] } else { v }
    }
}

/// The walk `p` followed by `v`, with the position `i` of the successor `w`
/// of `v`, is a walk followed by `w`.
proof fn lemma_walk_extend(g: Seq<Seq<usize>>, p: Seq<usize>, v: usize, pre: Seq<int>, i: int, w: usize)
    requires
        walk_positions(g, p, v, pre),
        0 <= i < g[v as int].len(),
        g[v as int][i] == w,
    ensures
        walk_positions(g, p.push(v), w, pre.push(i)),
{
    assert forall|j: int| 0 <= j < p.push(v).len() implies {
        &&& 0 <= #[trigger] pre.push(i)[j] < g[p.push(v)[j] as int].len()
        &&& g[p.push(v)[j] as int][pre.push(i)[j]] == if j + 1 < p.push(v).len() { p.push(v)[j + 1] } else { w }
    } by {
        if j < p.len() {
            assert(pre.push(i)[j] == pre[j]);
            assert(p.push(v)[j] == p[j]);
            if j + 1 < p.len() {
                assert(p.push(v)[j + 1] == p[j + 1]);
            } else {
                assert(p.push(v)[j + 1] == v);
            }
        }
    }
}

/// Closing the walk `p` followed by `v` with the edge at `i` back to the
/// first node gives positions of the cycle.
proof fn lemma_positions_record(g: Seq<Seq<usize>>, p: Seq<usize>, v: usize, pre: Seq<int>, i: int)
    requires
        walk_positions(g, p, v, pre),
        0 <= i < g[v as int].len(),
        g[v as int][i] == p.push(v)[0],
    ensures
        positions_of(g, p.push(v), pre.push(i)),
{
    let c = p.push(v);
    assert forall|j: int| 0 <= j < c.len() implies {
        &&& 0 <= #[trigger] pre.push(i)[j] < g[c[j] as int].len()
        &&& g[c[j] as int][pre.push(i)[j]] == follower(c, j)
    } by {
        if j < p.len() {
            assert(pre.push(i)[j] == pre[j]);
            assert(c[j] == p[j]);
            if j + 1 < p.len() {
                assert(c[j + 1] == p[j + 1]);
            } else {
                assert(c[j + 1] == v);
            }
        }
    }
}

/// Two position lists that agree before `k` and differ at `k` as `a[k] < b[k]`.
proof fn lemma_lex_at(a: Seq<int>, b: Seq<int>, pre: Seq<int>)
    requires
        a.len() > pre.len(),
        b.len() > pre.len(),
        a.take(pre.len() as int) == pre,
        b.take(pre.len() as int) == pre,
        a[pre.len() as int] < b[pre.len() as int],
    ensures
        lex_before(a, b),
{
    let k = pre.len() as int;
    assert forall|j: int| 0 <= j < k implies a[j] == b[j] by {
        assert(a[j] == a.take(k)[j]);
        assert(b[j] == b.take(k)[j]);
    }
}

} // verus!

verus! {

/// The positions `ps` of the cycles recorded after the first `len`: each gives
/// positions of its cycle, begins with `pre` and then a position below `i`,
/// and they come in lexicographic order.
#[verifier::opaque]
spec fn ps_upto(found: Seq<Seq<usize>>, len: int, g: Seq<Seq<usize>>, pre: Seq<int>, ps: Seq<Seq<int>>, i: int) -> bool {
    &&& ps.len() == found.len() - len
    &&& forall|t: int| 0 <= t < ps.len() ==> {
        &&& positions_of(g, found[len + t], #[trigger] ps[t])
        &&& ps[t].len() > pre.len()
        &&& ps[t].take(pre.len() as int) == pre
        &&& ps[t][pre.len() as int] < i
    }
    &&& forall|t: int, u: int| 0 <= t < u < ps.len() ==> lex_before(#[trigger] ps[t], #[trigger] ps[u])
}

proof fn lemma_ps_start(found: Seq<Seq<usize>>, g: Seq<Seq<usize>>, pre: Seq<int>)
    ensures
        ps_upto(found, found.len() as int, g, pre, Seq::empty(), 0),
{
    reveal(ps_upto);
}

proof fn lemma_ps_done(found: Seq<Seq<usize>>, len: int, g: Seq<Seq<usize>>, pre: Seq<int>, ps: Seq<Seq<int>>, i: int)
    requires
        ps_upto(found, len, g, pre, ps, i),
    ensures
        ps.len() == found.len() - len,
        forall|t: int| 0 <= t < ps.len() ==> {
            &&& positions_of(g, found[len + t], #[trigger] ps[t])
            &&& ps[t].len() > pre.len()
            &&& ps[t].take(pre.len() as int) == pre
        },
        forall|t: int, u: int| 0 <= t < u < ps.len() ==> lex_before(#[trigger] ps[t], #[trigger] ps[u]),
{
    reveal(ps_upto);
}

proof fn lemma_ps_skip(found: Seq<Seq<usize>>, len: int, g: Seq<Seq<usize>>, pre: Seq<int>, ps: Seq<Seq<int>>, i: int)
    requires
        ps_upto(found, len, g, pre, ps, i),
    ensures
        ps_upto(found, len, g, pre, ps, i + 1),
{
    reveal(ps_upto);
}

proof fn lemma_ps_record(
    a: Seq<Seq<usize>>,
    b: Seq<Seq<usize>>,
    len: int,
    g: Seq<Seq<usize>>,
    p0: Seq<usize>,
    v: usize,
    pre: Seq<int>,
    ps: Seq<Seq<int>>,
    i: int,
)
    requires
        ps_upto(a, len, g, pre, ps, i),
        0 <= len <= a.len(),
        b == a.push(p0.push(v)),
        0 <= i < g[v as int].len(),
        g[v as int][i] == p0.push(v)[0],
        walk_positions(g, p0, v, pre),
    ensures
        ps_upto(b, len, g, pre, ps.push(pre.push(i)), i + 1),
{
    reveal(ps_upto);
    let q = pre.push(i);
    let ps2 = ps.push(q);
    lemma_positions_record(g, p0, v, pre, i);
    assert(q.take(pre.len() as int) =~= pre);
    assert forall|t: int| 0 <= t < ps2.len() implies {
        &&& positions_of(g, b[len + t], #[trigger] ps2[t])
        &&& ps2[t].len() > pre.len()
        &&& ps2[t].take(pre.len() as int) == pre
        &&& ps2[t][pre.len() as int] < i + 1
    } by {
        if t < ps.len() {
            assert(ps2[t] == ps[t]);
            assert(b[len + t] == a[len + t]);
        } else {
            assert(ps2[t] == q);
            assert(b[len + t] == p0.push(v));
        }
    }
    assert forall|t: int, u: int| 0 <= t < u < ps2.len() implies lex_before(#[trigger] ps2[t], #[trigger] ps2[u]) by {
        if u < ps.len() {
            assert(ps2[t] == ps[t] && ps2[u] == ps[u]);
        } else {
            assert(ps2[t] == ps[t] && ps2[u] == q);
            lemma_lex_at(ps[t], q, pre);
        }
    }
}

proof fn lemma_ps_child(
    a: Seq<Seq<usize>>,
    b: Seq<Seq<usize>>,
    len: int,
    g: Seq<Seq<usize>>,
    pre: Seq<int>,
    ps: Seq<Seq<int>>,
    cps: Seq<Seq<int>>,
    i: int,
)
    requires
        ps_upto(a, len, g, pre, ps, i),
        0 <= len <= a.len() <= b.len(),
        forall|t: int| 0 <= t < a.len() ==> #[trigger] b[t] == a[t],
        cps.len() == b.len() - a.len(),
        forall|t: int| 0 <= t < cps.len() ==> {
            &&& positions_of(g, b[a.len() + t], #[trigger] cps[t])
            &&& cps[t].len() > pre.push(i).len()
            &&& cps[t].take(pre.push(i).len() as int) == pre.push(i)
        },
        forall|t: int, u: int| 0 <= t < u < cps.len() ==> lex_before(#[trigger] cps[t], #[trigger] cps[u]),
    ensures
        ps_upto(b, len, g, pre, ps + cps, i + 1),
{
    reveal(ps_upto);
    let ps2 = ps + cps;
    let k = pre.len() as int;
    assert forall|t: int| 0 <= t < cps.len() implies (#[trigger] cps[t]).take(k) == pre && cps[t][k] == i by {
        assert(cps[t][k] == cps[t].take(k + 1)[k]);
        assert(cps[t].take(k) =~= cps[t].take(k + 1).take(k));
        assert(pre.push(i).take(k) =~= pre);
    }
    assert forall|t: int| 0 <= t < ps2.len() implies {
        &&& positions_of(g, b[len + t], #[trigger] ps2[t])
        &&& ps2[t].len() > pre.len()
        &&& ps2[t].take(pre.len() as int) == pre
        &&& ps2[t][pre.len() as int] < i + 1
    } by {
        if t < ps.len() {
            assert(ps2[t] == ps[t]);
            assert(b[len + t] == a[len + t]);
        } else {
            assert(ps2[t] == cps[t - ps.len()]);
            assert(b[len + t] == b[a.len() + (t - ps.len())]);
        }
    }
    assert forall|t: int, u: int| 0 <= t < u < ps2.len() implies lex_before(#[trigger] ps2[t], #[trigger] ps2[u]) by {
        if u < ps.len() {
            assert(ps2[t] == ps[t] && ps2[u] == ps[u]);
        } else if t < ps.len() {
            assert(ps2[t] == ps[t] && ps2[u] == cps[u - ps.len()]);
            lemma_lex_at(ps[t], cps[u - ps.len()], pre);
        } else {
            assert(ps2[t] == cps[t - ps.len()] && ps2[u] == cps[u - ps.len()]);
        }
    }
}

} // verus!

verus! {

/// The cycles of a round, all starting at `s`, in the order of their
/// positions, after those of earlier rounds, all starting below `s`, in
/// search order: all in search order.
proof fn lemma_round_positions(
    g: Seq<Seq<usize>>,
    old_cs: Seq<Seq<usize>>,
    round_cs: Seq<Seq<usize>>,
    ps: Seq<Seq<int>>,
    rps: Seq<Seq<int>>,
    s: usize,
)
    requires
        searched_in_order(g, old_cs, ps),
        forall|t: int| 0 <= t < old_cs.len() ==> (#[trigger] old_cs[t]).len() > 0 && old_cs[t][0] < s,
        forall|t: int| 0 <= t < round_cs.len() ==> (#[trigger] round_cs[t]).len() > 0 && round_cs[t][0] == s,
        walked_in_order(component_graph(g, s), round_cs, rps),
    ensures
        searched_in_order(g, old_cs + round_cs, ps + rps),
{
    let cs = old_cs + round_cs;
    let ps2 = ps + rps;
    let m = old_cs.len() as int;
    assert forall|t: int| 0 <= t < cs.len() implies positions_of(component_graph(g, cs[t][0]), cs[t], #[trigger] ps2[t]) by {
        if t < m {
            assert(cs[t] == old_cs[t] && ps2[t] == ps[t]);
        } else {
            assert(cs[t] == round_cs[t - m] && ps2[t] == rps[t - m]);
        }
    }
    assert forall|t: int, u: int| 0 <= t < u < cs.len() implies {
        ||| (#[trigger] cs[t])[0] < (#[trigger] cs[u])[0]
        ||| cs[t][0] == cs[u][0] && lex_before(ps2[t], ps2[u])
    } by {
        if u < m {
            assert(cs[t] == old_cs[t] && cs[u] == old_cs[u] && ps2[t] == ps[t] && ps2[u] == ps[u]);
        } else if t < m {
            assert(cs[t] == old_cs[t] && cs[u] == round_cs[u - m]);
        } else {
            assert(cs[t] == round_cs[t - m] && cs[u] == round_cs[u - m] && ps2[t] == rps[t - m] && ps2[u] == rps[u - m]);
        }
    }
}

} // verus!

verus! {

/// An edge of the subgraph from `s` between two members of the component of
/// `s` is an edge of the graph the component induces.
proof fn lemma_edge_in_component(g: Seq<Seq<usize>>, s: usize, x: usize, z: usize)
    requires
        has_edge(subgraph_from(g, s), x, z),
        scc_set(subgraph_from(g, s), s).contains(x),
        scc_set(subgraph_from(g, s), s).contains(z),
    ensures
        has_edge(component_graph(g, s), x, z),
{
    let k = scc_set(subgraph_from(g, s), s);
    let f = |w: usize| k.contains(w);
    lemma_sub_edge(g, s, x, z);
    let j = choose|j: int| 0 <= j < g[x as int].len() && g[x as int][j] == z;
    g[x as int].lemma_filter_contains(f, j);
    assert(component_graph(g, s)[x as int] == g[x as int].filter(f));
}

/// A walk of the subgraph from `s` from a member of the component of `s` back
/// to `s` stays in the component, and so is a walk of the graph it induces.
proof fn lemma_walk_in_component(g: Seq<Seq<usize>>, s: usize, p: Seq<usize>)
    requires
        is_path(subgraph_from(g, s), p),
        scc_set(subgraph_from(g, s), s).contains(p[0]),
        p.last() == s,
    ensures
        is_path(component_graph(g, s), p),
{
    let hs = subgraph_from(g, s);
    let k = scc_set(hs, s);
    assert forall|i: int| 0 <= i < p.len() implies k.contains(#[trigger] p[i]) by {
        let pre = p.take(i + 1);
        assert(is_path(hs, pre)) by {
            assert forall|j: int| 0 <= j < pre.len() - 1 implies #[trigger] has_edge(hs, pre[j], pre[j + 1]) by {
                assert(has_edge(hs, p[j], p[j + 1]));
            }
        }
        assert(pre[0] == p[0] && pre.last() == p[i]);
        assert(reaches(hs, p[0], p[i]));
        let suf = p.skip(i);
        assert(is_path(hs, suf)) by {
            assert forall|j: int| 0 <= j < suf.len() - 1 implies #[trigger] has_edge(hs, suf[j], suf[j + 1]) by {
                assert(has_edge(hs, p[i + j], p[i + j + 1]));
            }
        }
        assert(suf[0] == p[i] && suf.last() == s);
        assert(reaches(hs, p[i], s));
        assert(same_scc(hs, s, p[0]));
        lemma_reaches_trans(hs, s, p[0], p[i]);
        assert(same_scc(hs, s, p[i]));
    }
    assert forall|i: int| 0 <= i < p.len() - 1 implies #[trigger] has_edge(component_graph(g, s), p[i], p[i + 1]) by {
        assert(has_edge(hs, p[i], p[i + 1]));
        assert(k.contains(p[i]) && k.contains(p[i + 1]));
        lemma_edge_in_component(g, s, p[i], p[i + 1]);
    }
}

/// Once the search for cycles through `s` in the graph of its component is
/// over, with the stack empty and the blocked nodes closed, no node of the
/// component is blocked: each one leads back to `s`.
proof fn lemma_component_released(a: &ElementaryCyclesSearch, g: Seq<Seq<usize>>, s: usize, y: usize)
    requires
        a.blocked_closed(component_graph(g, s), s),
        a.stack@.len() == 0,
        adj_wf(component_graph(g, s)),
        component_graph(g, s).len() <= a.blocked@.len(),
        scc_nontrivial(subgraph_from(g, s), s),
        scc_set(subgraph_from(g, s), s).contains(y),
    ensures
        !a.blocked@[y as int],
    decreases if y == s { 1int } else { 0int },
{
    let hs = subgraph_from(g, s);
    let h = component_graph(g, s);
    let k = scc_set(hs, s);
    if y != s {
        assert(same_scc(hs, s, y));
        let q = choose|q: Seq<usize>| #[trigger] is_path(hs, q) && q[0] == y && q.last() == s;
        lemma_walk_in_component(g, s, q);
        if a.blocked@[y as int] {
            assert(q.len() >= 2);
            let j = q.len() - 2;
            assert(has_edge(h, q[j], q[j + 1]));
            let i0: int = 0;
            assert(has_edge(h, q[i0], q[i0 + 1]));
            assert(q[0] < h.len());
            lemma_blocked_no_escape(a, h, s, q, j);
        }
    } else {
        let y2 = choose|y2: usize| y2 != s && #[trigger] same_scc(hs, s, y2);
        let p1 = choose|p1: Seq<usize>| #[trigger] is_path(hs, p1) && p1[0] == s && p1.last() == y2;
        assert(p1.len() >= 2);
        let z = p1[1];
        let i0: int = 0;
        assert(has_edge(hs, p1[i0], p1[i0 + 1]));
        let rest = p1.skip(1);
        assert(is_path(hs, rest)) by {
            assert forall|j: int| 0 <= j < rest.len() - 1 implies #[trigger] has_edge(hs, rest[j], rest[j + 1]) by {
                assert(has_edge(hs, p1[1 + j], p1[1 + j + 1]));
            }
        }
        assert(rest[0] == z && rest.last() == y2);
        assert(reaches(hs, z, y2));
        lemma_reaches_trans(hs, z, y2, s);
        lemma_reaches_edge(hs, s, z);
        assert(same_scc(hs, s, z));
        assert(k.contains(z));
        lemma_reaches_refl(hs, s);
        assert(k.contains(s));
        lemma_edge_in_component(g, s, s, z);
        if a.blocked@[s as int] {
            let t = choose|t: int| 0 <= t < h[s as int].len() && h[s as int][t] == z;
            assert(s < h.len());
            assert(!a.stack@.contains(s));
            assert(h[s as int][t] != s);
            lemma_component_released(a, g, s, z);
        }
    }
}

} // verus!

verus! {

/// A round that starts with every node released ends with every node
/// released: the nodes it blocks are nodes of the component of `s`.
proof fn lemma_round_released(a: &ElementaryCyclesSearch, g: Seq<Seq<usize>>, s: usize, before: Seq<bool>)
    requires
        a.blocked_closed(component_graph(g, s), s),
        a.stack@.len() == 0,
        adj_wf(component_graph(g, s)),
        component_graph(g, s).len() <= a.blocked@.len(),
        scc_nontrivial(subgraph_from(g, s), s),
        a.blocked@.len() == before.len(),
        before.len() <= usize::MAX,
        forall|y: int| 0 <= y < before.len() ==> !#[trigger] before[y],
        forall|y: int| 0 <= y < before.len() && #[trigger] a.blocked@[y] && !before[y]
            ==> y == s || is_edge_target(component_graph(g, s), y as usize),
    ensures
        forall|y: int| 0 <= y < before.len() ==> !#[trigger] a.blocked@[y],
{
    let hs = subgraph_from(g, s);
    let k = scc_set(hs, s);
    let h = component_graph(g, s);
    let f = |w: usize| k.contains(w);
    assert forall|y: int| 0 <= y < before.len() implies !#[trigger] a.blocked@[y] by {
        if a.blocked@[y] {
            if y == s as int {
                lemma_reaches_refl(hs, s);
                assert(k.contains(s));
                lemma_component_released(a, g, s, s);
            } else {
                let (u, t) = choose|u: int, t: int| 0 <= u < h.len() && 0 <= t < h[u].len() && h[u][t] == y as usize;
                if k.contains(u as usize) {
                    assert(h[u] == g[u].filter(f));
                    g[u].lemma_filter_pred(f, t);
                } else {
                    assert(h[u].len() == 0);
                }
                lemma_component_released(a, g, s, y as usize);
            }
        }
    }
}

} // verus!

verus! {

/// Every way to walk a cycle of `g` that begins with the walk `p`, at
/// positions that begin with `pre` and then a position below `i`, is recorded
/// after the first `len` cycles, with those positions in `ps`.
#[verifier::opaque]
spec fn pos_covered_upto(found: Seq<Seq<usize>>, len: int, g: Seq<Seq<usize>>, p: Seq<usize>, pre: Seq<int>, ps: Seq<Seq<int>>, i: int) -> bool {
    forall|c: Seq<usize>, q: Seq<int>| #![trigger extends(g, p, c), positions_of(g, c, q)]
        extends(g, p, c) && positions_of(g, c, q) && q.take(pre.len() as int) == pre && q[pre.len() as int] < i
        ==> exists|t: int| 0 <= t < ps.len() && found[len + t] == c && #[trigger] ps[t] == q
}

proof fn lemma_pos_start(found: Seq<Seq<usize>>, g: Seq<Seq<usize>>, p: Seq<usize>, pre: Seq<int>)
    requires
        p.len() == pre.len() + 1,
    ensures
        pos_covered_upto(found, found.len() as int, g, p, pre, Seq::empty(), 0),
{
    reveal(pos_covered_upto);
    assert forall|c: Seq<usize>, q: Seq<int>| #![trigger extends(g, p, c), positions_of(g, c, q)]
        extends(g, p, c) && positions_of(g, c, q) && q.take(pre.len() as int) == pre
        implies q[pre.len() as int] >= 0 by {
        assert(q.len() == c.len());
    }
}

proof fn lemma_pos_record(
    a: Seq<Seq<usize>>,
    b: Seq<Seq<usize>>,
    len: int,
    g: Seq<Seq<usize>>,
    p: Seq<usize>,
    v: usize,
    pre: Seq<int>,
    ps: Seq<Seq<int>>,
    i: int,
)
    requires
        pos_covered_upto(a, len, g, p, pre, ps, i),
        ps.len() == a.len() - len,
        0 <= len <= a.len(),
        b == a.push(p),
        p.len() == pre.len() + 1,
        p.last() == v,
        v < g.len(),
        0 <= i < g[v as int].len(),
        g[v as int][i] == p[0],
    ensures
        pos_covered_upto(b, len, g, p, pre, ps.push(pre.push(i)), i + 1),
{
    reveal(pos_covered_upto);
    let ps2 = ps.push(pre.push(i));
    let m = p.len() as int;
    assert forall|c: Seq<usize>, q: Seq<int>| #![trigger extends(g, p, c), positions_of(g, c, q)]
        extends(g, p, c) && positions_of(g, c, q) && q.take(pre.len() as int) == pre && q[pre.len() as int] < i + 1
        implies exists|t: int| 0 <= t < ps2.len() && b[len + t] == c && #[trigger] ps2[t] == q by {
        if q[pre.len() as int] < i {
            let t = choose|t: int| 0 <= t < ps.len() && a[len + t] == c && #[trigger] ps[t] == q;
            assert(ps2[t] == ps[t] && b[len + t] == a[len + t]);
        } else {
            assert(c[m - 1] == c.take(m)[m - 1]);
            assert(c[0] == c.take(m)[0]);
            assert(g[c[m - 1] as int][q[m - 1]] == follower(c, m - 1));
            if c.len() > m {
                assert(c[m] != c[0]);
            }
            assert(c =~= p) by {
                assert(c.len() == m);
                assert(c =~= c.take(m));
            }
            assert(q =~= pre.push(i)) by {
                assert forall|j: int| 0 <= j < pre.len() implies q[j] == pre[j] by {
                    assert(q[j] == q.take(pre.len() as int)[j]);
                }
            }
            let t = ps.len() as int;
            assert(ps2[t] == q && b[len + t] == c);
        }
    }
}

proof fn lemma_pos_child(
    a: Seq<Seq<usize>>,
    b: Seq<Seq<usize>>,
    len: int,
    g: Seq<Seq<usize>>,
    p: Seq<usize>,
    v: usize,
    pre: Seq<int>,
    ps: Seq<Seq<int>>,
    cps: Seq<Seq<int>>,
    i: int,
    w: usize,
)
    requires
        pos_covered_upto(a, len, g, p, pre, ps, i),
        ps.len() == a.len() - len,
        0 <= len <= a.len() <= b.len(),
        forall|t: int| 0 <= t < a.len() ==> #[trigger] b[t] == a[t],
        cps.len() == b.len() - a.len(),
        p.len() == pre.len() + 1,
        p.last() == v,
        v < g.len(),
        0 <= i < g[v as int].len(),
        g[v as int][i] == w,
        w != p[0],
        forall|c: Seq<usize>, q: Seq<int>| #![trigger extends(g, p.push(w), c), positions_of(g, c, q)]
            extends(g, p.push(w), c) && positions_of(g, c, q) && q.take(pre.push(i).len() as int) == pre.push(i)
            ==> exists|t: int| 0 <= t < cps.len() && b[a.len() + t] == c && #[trigger] cps[t] == q,
    ensures
        pos_covered_upto(b, len, g, p, pre, ps + cps, i + 1),
{
    reveal(pos_covered_upto);
    let ps2 = ps + cps;
    let m = p.len() as int;
    assert forall|c: Seq<usize>, q: Seq<int>| #![trigger extends(g, p, c), positions_of(g, c, q)]
        extends(g, p, c) && positions_of(g, c, q) && q.take(pre.len() as int) == pre && q[pre.len() as int] < i + 1
        implies exists|t: int| 0 <= t < ps2.len() && b[len + t] == c && #[trigger] ps2[t] == q by {
        if q[pre.len() as int] < i {
            let t = choose|t: int| 0 <= t < ps.len() && a[len + t] == c && #[trigger] ps[t] == q;
            assert(ps2[t] == ps[t] && b[len + t] == a[len + t]);
        } else {
            assert(c[m - 1] == c.take(m)[m - 1]);
            assert(c[0] == c.take(m)[0]);
            assert(g[c[m - 1] as int][q[m - 1]] == follower(c, m - 1));
            assert(c.len() > m);
            lemma_extends_push(g, p, c, w);
            assert(q.take(m) =~= pre.push(i)) by {
                assert forall|j: int| 0 <= j < pre.len() implies q.take(m)[j] == pre[j] by {
                    assert(q[j] == q.take(pre.len() as int)[j]);
                }
            }
            let t2 = choose|t2: int| 0 <= t2 < cps.len() && b[a.len() + t2] == c && #[trigger] cps[t2] == q;
            let t = ps.len() + t2;
            assert(ps2[t] == cps[t2]);
            assert(len + t == a.len() + t2);
        }
    }
}

proof fn lemma_pos_blocked(
    st: &ElementaryCyclesSearch,
    found: Seq<Seq<usize>>,
    len: int,
    g: Seq<Seq<usize>>,
    s: usize,
    p: Seq<usize>,
    v: usize,
    pre: Seq<int>,
    ps: Seq<Seq<int>>,
    i: int,
    w: usize,
)
    requires
        pos_covered_upto(found, len, g, p, pre, ps, i),
        st.blocked_closed(g, s),
        adj_wf(g),
        g.len() <= st.blocked@.len(),
        st.stack@ == p,
        p.len() == pre.len() + 1,
        p.len() > 0,
        p[0] == s,
        p.last() == v,
        v < g.len(),
        0 <= i < g[v as int].len(),
        g[v as int][i] == w,
        w != s,
        st.blocked@[w as int],
    ensures
        pos_covered_upto(found, len, g, p, pre, ps, i + 1),
{
    reveal(pos_covered_upto);
    let m = p.len() as int;
    assert forall|c: Seq<usize>, q: Seq<int>| #![trigger extends(g, p, c), positions_of(g, c, q)]
        extends(g, p, c) && positions_of(g, c, q) && q.take(pre.len() as int) == pre && q[pre.len() as int] < i + 1
        implies exists|t: int| 0 <= t < ps.len() && found[len + t] == c && #[trigger] ps[t] == q by {
        if q[pre.len() as int] == i {
            assert(c[m - 1] == c.take(m)[m - 1]);
            assert(g[c[m - 1] as int][q[m - 1]] == follower(c, m - 1));
            lemma_blocked_next(st, g, s, p, c, w);
        }
    }
}

proof fn lemma_pos_done(found: Seq<Seq<usize>>, len: int, g: Seq<Seq<usize>>, p: Seq<usize>, v: usize, pre: Seq<int>, ps: Seq<Seq<int>>)
    requires
        pos_covered_upto(found, len, g, p, pre, ps, g[v as int].len() as int),
        p.len() == pre.len() + 1,
        p.last() == v,
    ensures
        forall|c: Seq<usize>, q: Seq<int>| #![trigger extends(g, p, c), positions_of(g, c, q)]
            extends(g, p, c) && positions_of(g, c, q) && q.take(pre.len() as int) == pre
            ==> exists|t: int| 0 <= t < ps.len() && found[len + t] == c && #[trigger] ps[t] == q,
{
    reveal(pos_covered_upto);
    let m = p.len() as int;
    assert forall|c: Seq<usize>, q: Seq<int>| #![trigger extends(g, p, c), positions_of(g, c, q)]
        extends(g, p, c) && positions_of(g, c, q) && q.take(pre.len() as int) == pre
        implies q[pre.len() as int] < g[v as int].len() by {
        assert(c[m - 1] == c.take(m)[m - 1]);
    }
}

} // verus!

verus! {

/// Every way to walk each reported cycle of `g` in the graph of the component
/// of its first node is among the cycles `cs`, with its positions in `ps`.
pub open spec fn walks_complete(g: Seq<Seq<usize>>, cs: Seq<Seq<usize>>, ps: Seq<Seq<int>>) -> bool {
    forall|c: Seq<usize>, q: Seq<int>| #![trigger reported_cycle(g, c), positions_of(component_graph(g, c[0]), c, q)]
        reported_cycle(g, c) && positions_of(component_graph(g, c[0]), c, q)
        ==> exists|t: int| 0 <= t < cs.len() && cs[t] == c && #[trigger] ps[t] == q
}

/// The cycles `cs` list every way to walk each reported cycle of `g`, once,
/// in the order the search finds them, with the positions walked in `ps`.
pub open spec fn search_listing(g: Seq<Seq<usize>>, cs: Seq<Seq<usize>>, ps: Seq<Seq<int>>) -> bool {
    &&& searched_in_order(g, cs, ps)
    &&& walks_complete(g, cs, ps)
}

/// The ways found so far: every way to walk a reported cycle that starts
/// below `s` is among the cycles `cs` with positions `ps`.
pub open spec fn walks_complete_below(g: Seq<Seq<usize>>, cs: Seq<Seq<usize>>, ps: Seq<Seq<int>>, s: int) -> bool {
    forall|c: Seq<usize>, q: Seq<int>| #![trigger reported_cycle(g, c), positions_of(component_graph(g, c[0]), c, q)]
        reported_cycle(g, c) && c[0] < s && positions_of(component_graph(g, c[0]), c, q)
        ==> exists|t: int| 0 <= t < cs.len() && cs[t] == c && #[trigger] ps[t] == q
}

/// Adding the ways of the round for `s`, after rounds below `from`.
proof fn lemma_round_complete(
    g: Seq<Seq<usize>>,
    old_cs: Seq<Seq<usize>>,
    round_cs: Seq<Seq<usize>>,
    ps: Seq<Seq<int>>,
    rps: Seq<Seq<int>>,
    from: usize,
    s: usize,
)
    requires
        walks_complete_below(g, old_cs, ps, from as int),
        old_cs.len() == ps.len(),
        first_nontrivial(g, from, s),
        rps.len() == round_cs.len(),
        forall|c: Seq<usize>, q: Seq<int>| #![trigger extends(component_graph(g, s), seq![s], c), positions_of(component_graph(g, s), c, q)]
            extends(component_graph(g, s), seq![s], c) && positions_of(component_graph(g, s), c, q)
            ==> exists|t: int| 0 <= t < round_cs.len() && round_cs[t] == c && #[trigger] rps[t] == q,
    ensures
        walks_complete_below(g, old_cs + round_cs, ps + rps, s + 1),
{
    let cs = old_cs + round_cs;
    let ps2 = ps + rps;
    assert forall|c: Seq<usize>, q: Seq<int>| #![trigger reported_cycle(g, c), positions_of(component_graph(g, c[0]), c, q)]
        reported_cycle(g, c) && c[0] < s + 1 && positions_of(component_graph(g, c[0]), c, q)
        implies exists|t: int| 0 <= t < cs.len() && cs[t] == c && #[trigger] ps2[t] == q by {
        if c[0] < from {
            let t = choose|t: int| 0 <= t < old_cs.len() && old_cs[t] == c && #[trigger] ps[t] == q;
            assert(cs[t] == c && ps2[t] == q);
        } else if c[0] < s {
            lemma_reported_nontrivial(g, c);
        } else {
            assert(c[0] == s);
            lemma_cycle_in_component(g, c);
            assert(c.take(1) =~= seq![s]);
            assert(is_elementary_cycle(component_graph(g, s), c));
            assert(extends(component_graph(g, s), seq![s], c));
            assert(positions_of(component_graph(g, s), c, q));
            assert(exists|t: int| 0 <= t < round_cs.len() && round_cs[t] == c && #[trigger] rps[t] == q);
            let t = choose|t: int| 0 <= t < round_cs.len() && round_cs[t] == c && #[trigger] rps[t] == q;
            assert(cs[old_cs.len() + t] == round_cs[t]);
            assert(ps2[ps.len() + t] == rps[t]);
        }
    }
}

/// Nothing comes before itself in lexicographic order.
proof fn lemma_lex_irreflexive(a: Seq<int>)
    ensures
        !lex_before(a, a),
{
}

/// Two listings of every way to walk the reported cycles of `g`, each in the
/// order of the search, are the same list: a full search always appends the
/// same cycles in the same order, whatever the lists repeat.
pub proof fn lemma_search_listing_unique(g: Seq<Seq<usize>>, a: Seq<Seq<usize>>, pa: Seq<Seq<int>>, b: Seq<Seq<usize>>, pb: Seq<Seq<int>>)
    requires
        search_listing(g, a, pa),
        search_listing(g, b, pb),
        forall|t: int| 0 <= t < a.len() ==> reported_cycle(g, #[trigger] a[t]),
        forall|t: int| 0 <= t < b.len() ==> reported_cycle(g, #[trigger] b[t]),
    ensures
        a == b,
{
    assert(pairs_within(a, pa, b, pb)) by {
        assert forall|t: int| 0 <= t < a.len() implies #[trigger] holds_pair(b, pb, a[t], pa[t]) by {
            assert(reported_cycle(g, a[t]));
            assert(positions_of(component_graph(g, a[t][0]), a[t], pa[t]));
        }
    }
    assert(pairs_within(b, pb, a, pa)) by {
        assert forall|u: int| 0 <= u < b.len() implies #[trigger] holds_pair(a, pa, b[u], pb[u]) by {
            assert(reported_cycle(g, b[u]));
            assert(positions_of(component_graph(g, b[u][0]), b[u], pb[u]));
        }
    }
    lemma_listing_unique(g, a, pa, b, pb);
}

/// Dropping the first cycle keeps a list in the order of the search.
proof fn lemma_order_drop_first(g: Seq<Seq<usize>>, a: Seq<Seq<usize>>, pa: Seq<Seq<int>>)
    requires
        searched_in_order(g, a, pa),
        a.len() > 0,
    ensures
        searched_in_order(g, a.drop_first(), pa.drop_first()),
{
    let a2 = a.drop_first();
    let pa2 = pa.drop_first();
    assert forall|t: int| 0 <= t < a2.len() implies positions_of(component_graph(g, a2[t][0]), a2[t], #[trigger] pa2[t]) by {
        assert(a2[t] == a[t + 1] && pa2[t] == pa[t + 1]);
    }
    assert forall|t: int, u: int| 0 <= t < u < a2.len() implies {
        ||| (#[trigger] a2[t])[0] < (#[trigger] a2[u])[0]
        ||| a2[t][0] == a2[u][0] && lex_before(pa2[t], pa2[u])
    } by {
        assert(a2[t] == a[t + 1] && a2[u] == a[u + 1] && pa2[t] == pa[t + 1] && pa2[u] == pa[u + 1]);
    }
}

/// The cycle `c` stands somewhere in `b` with the positions `q` in `pb`.
pub open spec fn holds_pair(b: Seq<Seq<usize>>, pb: Seq<Seq<int>>, c: Seq<usize>, q: Seq<int>) -> bool {
    exists|u: int| 0 <= u < b.len() && b[u] == c && #[trigger] pb[u] == q
}

/// Every pair of `a` with `pa` stands somewhere in `b` with `pb`.
pub open spec fn pairs_within(a: Seq<Seq<usize>>, pa: Seq<Seq<int>>, b: Seq<Seq<usize>>, pb: Seq<Seq<int>>) -> bool {
    forall|t: int| 0 <= t < a.len() ==> #[trigger] holds_pair(b, pb, a[t], pa[t])
}

/// Two lists in the order of the search with the same pairs start alike.
proof fn lemma_listing_head(g: Seq<Seq<usize>>, a: Seq<Seq<usize>>, pa: Seq<Seq<int>>, b: Seq<Seq<usize>>, pb: Seq<Seq<int>>)
    requires
        searched_in_order(g, a, pa),
        searched_in_order(g, b, pb),
        pairs_within(a, pa, b, pb),
        pairs_within(b, pb, a, pa),
        a.len() > 0,
    ensures
        b.len() > 0,
        a[0] == b[0],
        pa[0] == pb[0],
{
    assert(holds_pair(b, pb, a[0], pa[0]));
    let j = choose|j: int| 0 <= j < b.len() && b[j] == a[0] && #[trigger] pb[j] == pa[0];
    if j > 0 {
        assert(holds_pair(a, pa, b[0], pb[0]));
        let i = choose|i: int| 0 <= i < a.len() && a[i] == b[0] && #[trigger] pa[i] == pb[0];
        if i == 0 {
            assert(b[0] == b[j] && pb[0] == pb[j]);
            lemma_lex_irreflexive(pb[0]);
            assert(false);
        }
        assert(a[0][0] < a[i][0] || a[0][0] == a[i][0] && lex_before(pa[0], pa[i]));
        assert(b[0][0] < b[j][0] || b[0][0] == b[j][0] && lex_before(pb[0], pb[j]));
        if a[0][0] == b[0][0] {
            lemma_lex_asymmetric(pa[0], pa[i]);
        }
        assert(false);
    }
}

/// Two lists in the order of the search with the same pairs keep the same
/// pairs once their first entries are dropped.
proof fn lemma_listing_tail(g: Seq<Seq<usize>>, a: Seq<Seq<usize>>, pa: Seq<Seq<int>>, b: Seq<Seq<usize>>, pb: Seq<Seq<int>>)
    requires
        searched_in_order(g, a, pa),
        searched_in_order(g, b, pb),
        pairs_within(a, pa, b, pb),
        a.len() > 0,
        b.len() > 0,
        a[0] == b[0],
        pa[0] == pb[0],
    ensures
        pairs_within(a.drop_first(), pa.drop_first(), b.drop_first(), pb.drop_first()),
{
    let a2 = a.drop_first();
    let b2 = b.drop_first();
    let pa2 = pa.drop_first();
    let pb2 = pb.drop_first();
    assert forall|t: int| 0 <= t < a2.len() implies #[trigger] holds_pair(b2, pb2, a2[t], pa2[t]) by {
        assert(holds_pair(b, pb, a[t + 1], pa[t + 1]));
        let u = choose|u: int| 0 <= u < b.len() && b[u] == a[t + 1] && #[trigger] pb[u] == pa[t + 1];
        if u == 0 {
            assert(a[0] == a[t + 1] && pa[0] == pa[t + 1]);
            lemma_lex_irreflexive(pa[0]);
            assert(false);
        }
        assert(b2[u - 1] == b[u] && pb2[u - 1] == pb[u]);
    }
}

/// Two lists of cycles with positions, each ordered strictly by first node
/// and then positions, with the same pairs, are the same.
proof fn lemma_listing_unique(g: Seq<Seq<usize>>, a: Seq<Seq<usize>>, pa: Seq<Seq<int>>, b: Seq<Seq<usize>>, pb: Seq<Seq<int>>)
    requires
        searched_in_order(g, a, pa),
        searched_in_order(g, b, pb),
        pairs_within(a, pa, b, pb),
        pairs_within(b, pb, a, pa),
    ensures
        a == b,
        pa == pb,
    decreases a.len(),
{
    if a.len() == 0 {
        if b.len() > 0 {
            lemma_listing_head(g, b, pb, a, pa);
        }
        assert(a =~= b);
        assert(pa =~= pb);
    } else {
        lemma_listing_head(g, a, pa, b, pb);
        lemma_order_drop_first(g, a, pa);
        lemma_order_drop_first(g, b, pb);
        lemma_listing_tail(g, a, pa, b, pb);
        lemma_listing_tail(g, b, pb, a, pa);
        lemma_listing_unique(g, a.drop_first(), pa.drop_first(), b.drop_first(), pb.drop_first());
        assert(a =~= b) by {
            assert forall|t: int| 0 <= t < a.len() implies a[t] == b[t] by {
                if t > 0 { assert(a[t] == a.drop_first()[t - 1] && b[t] == b.drop_first()[t - 1]); }
            }
        }
        assert(pa =~= pb) by {
            assert forall|t: int| 0 <= t < pa.len() implies pa[t] == pb[t] by {
                if t > 0 { assert(pa[t] == pa.drop_first()[t - 1] && pb[t] == pb.drop_first()[t - 1]); }
            }
        }
    }
}

} // verus!
