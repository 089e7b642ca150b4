//! The call graph: functions numbered in the order they are met, and the
//! calls between them.
use vstd::prelude::*;
use vstd::string::StringExecFns;
use crate::johnson_find_cycles::elementary_cycles_search::{in_search_order, lists_distinct, occurrences, reported_cycle, search_listing, ways_from, ElementaryCyclesSearch};
use crate::johnson_find_cycles::graph::{adj_view, adj_wf, lemma_cycle_nodes_in_graph};
use crate::johnson_find_cycles::vec_util::empty_lists;

verus! {

/// Identifies a definition: the crate it belongs to and its index there.
#[derive(Clone, Copy, Debug, PartialEq, Eq, Hash, Structural)]
pub struct DefId {
    pub krate: u32,
    pub index: u32,
}

/// A function of the call graph.
pub struct Node {
    def_id: DefId,
    def_path: String,
}

impl Node {
    pub closed spec fn id(&self) -> DefId {
        self.def_id
    }

    pub closed spec fn path(&self) -> Seq<char> {
        self.def_path@
    }

    pub fn new(def_id: DefId, def_path: &String) -> (r: Self)
        ensures
            r.id() == def_id,
            r.path() == def_path@,
    {
        Self { def_id: def_id, def_path: def_path.clone() }
    }

    pub fn get_def_id(&self) -> (r: DefId)
        ensures
            r == self.id(),
    {
        self.def_id
    }

    pub fn get_def_path(&self) -> (r: String)
        ensures
            r@ == self.path(),
    {
        self.def_path.clone()
    }
}

impl Clone for Node {
    fn clone(&self) -> (r: Self)
        ensures
            r.id() == self.id(),
            r.path() == self.path(),
    {
        Node { def_id: self.def_id, def_path: self.def_path.clone() }
    }
}

/// The adjacency lists of the calls among `num` functions: the callees of each
/// caller, in the order the calls were added.
pub open spec fn calls_adjacency(num: nat, calls: Seq<(usize, usize)>) -> Seq<Seq<usize>>
    decreases calls.len(),
{
    if calls.len() == 0 {
        Seq::new(num, |i: int| Seq::<usize>::empty())
    } else {
        let prev = calls_adjacency(num, calls.drop_last());
        let (caller, callee) = calls.last();
        prev.update(caller as int, prev[caller as int].push(callee))
    }
}

/// `a -> b -> ... -> a`: each name followed by an arrow, then the first name again.
pub open spec fn arrows(names: Seq<Seq<char>>) -> Seq<char>
    decreases names.len(),
{
    if names.len() == 0 {
        Seq::empty()
    } else {
        arrows(names.drop_last()) + names.last() + seq!['-', '>']
    }
}

/// The text that reports a cycle through the named functions.
pub open spec fn cycle_text(names: Seq<Seq<char>>) -> Seq<char> {
    arrows(names) + names[0]
}

/// The reports of the cycles `cs` of more than one function: the text of each
/// and the definition of its first function.
pub open spec fn cycle_reports(nodes: Seq<(DefId, Seq<char>)>, cs: Seq<Seq<usize>>) -> Seq<(Seq<char>, DefId)>
    decreases cs.len(),
{
    if cs.len() == 0 {
        Seq::empty()
    } else {
        let prev = cycle_reports(nodes, cs.drop_last());
        let c = cs.last();
        if c.len() > 1 {
            prev.push((cycle_text(c.map_values(|x: usize| nodes[x as int].1)), nodes[c[0] as int].0))
        } else {
            prev
        }
    }
}

/// The reports held in `r`, as sequences.
pub open spec fn reports_view(r: Seq<(String, DefId)>) -> Seq<(Seq<char>, DefId)> {
    Seq::new(r.len(), |i: int| (r[i].0@, r[i].1))
}

/// The calls recorded so far, between the functions met so far.
pub struct CallGraphInfo {
    functions: Vec<Node>,
    function_calls: Vec<(usize, usize)>,
}

impl Clone for CallGraphInfo {
    fn clone(&self) -> (r: Self)
        ensures
            r.nodes() == self.nodes(),
            r.calls() == self.calls(),
    {
        proof { use_type_invariant(self); }
        let mut functions: Vec<Node> = Vec::new();
        let mut i: usize = 0;
        while i < self.functions.len()
            invariant
                i <= self.functions@.len(),
                functions@.len() == i,
                forall|k: int| 0 <= k < i ==> (#[trigger] functions@[k]).id() == self.functions@[k].id()
                    && functions@[k].path() == self.functions@[k].path(),
            decreases self.functions@.len() - i,
        {
            functions.push(self.functions[i].clone());
            i += 1;
        }
        let mut calls: Vec<(usize, usize)> = Vec::new();
        let mut j: usize = 0;
        while j < self.function_calls.len()
            invariant
                j <= self.function_calls@.len(),
                calls@ == self.function_calls@.take(j as int),
            decreases self.function_calls@.len() - j,
        {
            calls.push(self.function_calls[j]);
            j += 1;
            proof { assert(calls@ =~= self.function_calls@.take(j as int)); }
        }
        proof {
            assert(calls@ =~= self.function_calls@);
            assert forall|a: int, b: int| 0 <= a < functions@.len() && 0 <= b < functions@.len() && a != b
                implies #[trigger] functions@[a].path() != #[trigger] functions@[b].path() by {
                assert(self.functions@[a].path() != self.functions@[b].path());
            }
        }
        let r = CallGraphInfo { functions, function_calls: calls };
        proof {
            assert(r.nodes() =~= self.nodes());
        }
        r
    }
}

impl CallGraphInfo {
    /// The functions, by id: their definition and path.
    pub closed spec fn nodes(&self) -> Seq<(DefId, Seq<char>)> {
        Seq::new(self.functions@.len(), |i: int| (self.functions@[i].id(), self.functions@[i].path()))
    }

    /// The calls, as pairs of caller and callee ids.
    pub closed spec fn calls(&self) -> Seq<(usize, usize)> {
        self.function_calls@
    }

    /// No two functions share a path.
    pub open spec fn paths_distinct(&self) -> bool {
        forall|i: int, j: int| 0 <= i < self.nodes().len() && 0 <= j < self.nodes().len() && i != j
            ==> #[trigger] self.nodes()[i].1 != #[trigger] self.nodes()[j].1
    }

    /// Every graph built by these methods keeps its paths distinct.
    #[verifier::type_invariant]
    spec fn distinct_paths(&self) -> bool {
        forall|i: int, j: int| 0 <= i < self.functions@.len() && 0 <= j < self.functions@.len() && i != j
            ==> #[trigger] self.functions@[i].path() != #[trigger] self.functions@[j].path()
    }

    /// The invariant, said of the functions' paths.
    proof fn lemma_distinct_paths(&self)
        requires
            self.distinct_paths(),
        ensures
            self.paths_distinct(),
    {
        assert forall|i: int, j: int| 0 <= i < self.nodes().len() && 0 <= j < self.nodes().len() && i != j
            implies #[trigger] self.nodes()[i].1 != #[trigger] self.nodes()[j].1 by {
            assert(self.nodes()[i].1 == self.functions@[i].path());
            assert(self.nodes()[j].1 == self.functions@[j].path());
        }
    }

    /// Every call is between functions of the graph.
    pub open spec fn calls_wf(&self) -> bool {
        forall|k: int| 0 <= k < self.calls().len() ==> {
            &&& (#[trigger] self.calls()[k]).0 < self.nodes().len()
            &&& self.calls()[k].1 < self.nodes().len()
        }
    }

    /// The call graph as adjacency lists.
    pub open spec fn graph(&self) -> Seq<Seq<usize>> {
        calls_adjacency(self.nodes().len(), self.calls())
    }

    pub fn new() -> (r: Self)
        ensures
            r.nodes().len() == 0,
            r.calls().len() == 0,
    {
        Self { functions: Vec::new(), function_calls: Vec::new() }
    }

    pub fn get_node_num(&self) -> (r: usize)
        ensures
            r == self.nodes().len(),
    {
        self.functions.len()
    }

    /// Whether every call is between functions of the graph.
    pub fn calls_in_graph(&self) -> (r: bool)
        ensures
            r == self.calls_wf(),
    {
        let num = self.functions.len();
        let mut k: usize = 0;
        while k < self.function_calls.len()
            invariant
                num == self.nodes().len(),
                k <= self.calls().len(),
                forall|j: int| 0 <= j < k ==> (#[trigger] self.calls()[j]).0 < num && self.calls()[j].1 < num,
            decreases self.calls().len() - k,
        {
            let (caller, callee) = self.function_calls[k];
            if caller >= num || callee >= num {
                return false;
            }
            k += 1;
        }
        true
    }

    /// The number of calls recorded.
    pub fn get_call_num(&self) -> (r: usize)
        ensures
            r == self.calls().len(),
    {
        self.function_calls.len()
    }

    /// The id of the function with path `def_path`.
    pub fn get_node_by_def_path(&self, def_path: &String) -> (r: Option<usize>)
        ensures
            match r {
                Some(id) => id < self.nodes().len() && self.nodes()[id as int].1 == def_path@,
                None => forall|i: int| 0 <= i < self.nodes().len() ==> #[trigger] self.nodes()[i].1 != def_path@,
            },
    {
        let mut i: usize = 0;
        while i < self.functions.len()
            invariant
                i <= self.functions@.len(),
                forall|k: int| 0 <= k < i ==> #[trigger] self.nodes()[k].1 != def_path@,
            decreases self.functions@.len() - i,
        {
            if self.functions[i].def_path == *def_path {
                return Some(i);
            }
            i += 1;
        }
        None
    }

    /// `self` is `prev` with the function `(def_id, p)` added, unless one with
    /// path `p` was there.
    pub open spec fn node_added(&self, prev: &Self, def_id: DefId, p: Seq<char>) -> bool {
        &&& self.calls() == prev.calls()
        &&& (exists|i: int| 0 <= i < prev.nodes().len() && #[trigger] prev.nodes()[i].1 == p)
            ==> self.nodes() == prev.nodes()
        &&& (forall|i: int| 0 <= i < prev.nodes().len() ==> #[trigger] prev.nodes()[i].1 != p)
            ==> self.nodes() == prev.nodes().push((def_id, p))
    }

    /// Adds a function, with the next id, unless one with the same path is there.
    pub fn add_node(&mut self, def_id: DefId, def_path: &String)
        ensures
            final(self).paths_distinct(),
            final(self).node_added(old(self), def_id, def_path@),
            old(self).calls_wf() ==> final(self).calls_wf(),
    {
        proof { use_type_invariant(&*self); self.lemma_distinct_paths(); }
        if let None = self.get_node_by_def_path(def_path) {
            let node = Node::new(def_id, def_path);
            let mut functions: Vec<Node> = Vec::new();
            std::mem::swap(&mut functions, &mut self.functions);
            functions.push(node);
            proof {
                let grown = Seq::new(functions@.len(), |i: int| (functions@[i].id(), functions@[i].path()));
                assert(grown =~= old(self).nodes().push((def_id, def_path@)));
                let last = functions@.len() - 1;
                assert forall|i: int, j: int| 0 <= i < functions@.len() && 0 <= j < functions@.len() && i != j
                    implies #[trigger] functions@[i].path() != #[trigger] functions@[j].path() by {
                    assert(functions@[i].path() == grown[i].1);
                    assert(functions@[j].path() == grown[j].1);
                    if i != last && j != last {
                        assert(grown[i].1 == old(self).nodes()[i].1);
                        assert(grown[j].1 == old(self).nodes()[j].1);
                    } else if i == last {
                        assert(grown[j].1 == old(self).nodes()[j].1);
                    } else {
                        assert(grown[i].1 == old(self).nodes()[i].1);
                    }
                }
            }
            self.functions = functions;
        }
        proof { use_type_invariant(&*self); self.lemma_distinct_paths(); }
    }

    /// Records a call from `caller_id` to `callee_id`.
    pub fn add_function_call_edge(&mut self, caller_id: usize, callee_id: usize)
        ensures
            final(self).nodes() == old(self).nodes(),
            final(self).calls() == old(self).calls().push((caller_id, callee_id)),
            old(self).calls_wf() && caller_id < old(self).nodes().len() && callee_id < old(self).nodes().len()
                ==> final(self).calls_wf(),
    {
        proof { use_type_invariant(&*self); self.lemma_distinct_paths(); }
        let mut calls: Vec<(usize, usize)> = Vec::new();
        std::mem::swap(&mut calls, &mut self.function_calls);
        calls.push((caller_id, callee_id));
        self.function_calls = calls;
    }

    /// Records a call from the function with path `caller_def_path` to the one
    /// with path `callee_def_path`, adding the callee first when it is new.
    /// Nothing is recorded when the caller is not in the graph.
    pub fn add_in_call_graph(&mut self, caller_def_path: &String, callee_def_id: DefId, callee_def_path: &String)
        ensures
            final(self).paths_distinct(),
            old(self).calls_wf() ==> final(self).calls_wf(),
            match old(self).index_of(caller_def_path@) {
                None => *final(self) == *old(self),
                Some(caller_id) => match old(self).index_of(callee_def_path@) {
                    Some(callee_id) => final(self).nodes() == old(self).nodes()
                        && final(self).calls() == old(self).calls().push((caller_id, callee_id)),
                    None => final(self).nodes() == old(self).nodes().push((callee_def_id, callee_def_path@))
                        && final(self).calls() == old(self).calls().push((caller_id, old(self).nodes().len() as usize)),
                },
            },
    {
        proof { use_type_invariant(&*self); self.lemma_distinct_paths(); }
        if let Some(caller_id) = self.get_node_by_def_path(caller_def_path) {
            proof { self.lemma_index_of(caller_def_path@, caller_id as int); }
            if let Some(callee_id) = self.get_node_by_def_path(callee_def_path) {
                proof { self.lemma_index_of(callee_def_path@, callee_id as int); }
                self.add_function_call_edge(caller_id, callee_id);
            } else {
                proof { self.lemma_index_of_none(callee_def_path@); }
                let ghost before = *self;
                self.add_node(callee_def_id, callee_def_path);
                if let Some(callee_id) = self.get_node_by_def_path(callee_def_path) {
                    proof {
                        assert(self.nodes()[before.nodes().len() as int].1 == callee_def_path@);
                        assert(callee_id == before.nodes().len());
                    }
                    self.add_function_call_edge(caller_id, callee_id);
                } else {
                    proof { assert(self.nodes()[before.nodes().len() as int].1 == callee_def_path@); }
                }
            }
        } else {
            proof { self.lemma_index_of_none(caller_def_path@); }
        }
        proof { use_type_invariant(&*self); self.lemma_distinct_paths(); }
    }

    /// The id of the function with path `p`, if there is one.
    pub open spec fn index_of(&self, p: Seq<char>) -> Option<usize> {
        if exists|i: int| 0 <= i < self.nodes().len() && #[trigger] self.nodes()[i].1 == p {
            Some((choose|i: int| 0 <= i < self.nodes().len() && #[trigger] self.nodes()[i].1 == p) as usize)
        } else {
            None
        }
    }

    /// With distinct paths, the function found with a path is the one `index_of` names.
    pub proof fn lemma_index_of(&self, p: Seq<char>, i: int)
        requires
            self.paths_distinct(),
            0 <= i < self.nodes().len(),
            self.nodes()[i].1 == p,
        ensures
            self.index_of(p) == Some(i as usize),
    {
        let j = choose|j: int| 0 <= j < self.nodes().len() && #[trigger] self.nodes()[j].1 == p;
        assert(j == i);
    }

    /// No function has a path that `index_of` does not find.
    pub proof fn lemma_index_of_none(&self, p: Seq<char>)
        requires
            forall|i: int| 0 <= i < self.nodes().len() ==> #[trigger] self.nodes()[i].1 != p,
        ensures
            self.index_of(p) is None,
    {
    }

    /// Once a function is added, a function with its path is in the graph, so
    /// looking the path up finds one.
    pub proof fn lemma_added_node_found(prev: &Self, next: &Self, def_id: DefId, p: Seq<char>)
        requires
            next.node_added(prev, def_id, p),
        ensures
            exists|i: int| 0 <= i < next.nodes().len() && #[trigger] next.nodes()[i].1 == p,
    {
        if exists|i: int| 0 <= i < prev.nodes().len() && #[trigger] prev.nodes()[i].1 == p {
            let i = choose|i: int| 0 <= i < prev.nodes().len() && #[trigger] prev.nodes()[i].1 == p;
            assert(next.nodes()[i].1 == p);
        } else {
            let i = prev.nodes().len() as int;
            assert(next.nodes()[i].1 == p);
        }
    }

    /// Adding a function with a path already there changes nothing.
    pub proof fn lemma_add_node_twice(prev: &Self, a: &Self, b: &Self, d1: DefId, d2: DefId, p: Seq<char>)
        requires
            a.node_added(prev, d1, p),
            b.node_added(a, d2, p),
        ensures
            b.nodes() == a.nodes(),
            b.calls() == prev.calls(),
    {
        if exists|i: int| 0 <= i < prev.nodes().len() && #[trigger] prev.nodes()[i].1 == p {
            let i = choose|i: int| 0 <= i < prev.nodes().len() && #[trigger] prev.nodes()[i].1 == p;
            assert(a.nodes()[i].1 == p);
        } else {
            let i = prev.nodes().len() as int;
            assert(a.nodes()[i].1 == p);
        }
    }

    /// The call graph as adjacency lists, callees in the order the calls were added.
    pub fn get_adj_list(&self) -> (r: Vec<Vec<usize>>)
        requires
            self.calls_wf(),
        ensures
            adj_view(r@) == self.graph(),
            adj_wf(self.graph()),
            r@.len() == self.nodes().len(),
    {
        let num = self.functions.len();
        let mut adj = empty_lists(num);
        proof {
            assert(self.calls().take(0) =~= Seq::<(usize, usize)>::empty());
            assert(adj_view(adj@) =~~= calls_adjacency(num as nat, self.calls().take(0)));
        }
        let mut k: usize = 0;
        while k < self.function_calls.len()
            invariant
                num == self.nodes().len(),
                self.calls_wf(),
                k <= self.calls().len(),
                adj@.len() == num,
                adj_view(adj@) == calls_adjacency(num as nat, self.calls().take(k as int)),
            decreases self.calls().len() - k,
        {
            let (caller, callee) = self.function_calls[k];
            proof {
                assert(self.calls()[k as int] == (caller, callee));
                assert(self.calls().take(k as int + 1).drop_last() =~= self.calls().take(k as int));
                lemma_calls_adjacency_len(num as nat, self.calls().take(k as int));
            }
            let ghost prev = adj@;
            adj[caller].push(callee);
            k += 1;
            proof {
                assert(adj_view(adj@) =~~= calls_adjacency(num as nat, self.calls().take(k as int)));
            }
        }
        proof {
            assert(self.calls().take(k as int) =~= self.calls());
            lemma_calls_adjacency_wf(num as nat, self.calls());
        }
        adj
    }

    /// The calls to print: those whose caller and callee are both in the graph,
    /// with their paths.
    pub fn call_lines(&self) -> (r: Vec<(usize, String, usize, String)>)
        ensures
            Seq::new(r@.len(), |i: int| (r@[i].0, r@[i].1@, r@[i].2, r@[i].3@)) == call_lines_of(self.nodes(), self.calls()),
    {
        let mut r: Vec<(usize, String, usize, String)> = Vec::new();
        let mut k: usize = 0;
        proof { assert(self.calls().take(0) =~= Seq::<(usize, usize)>::empty()); }
        while k < self.function_calls.len()
            invariant
                k <= self.calls().len(),
                Seq::new(r@.len(), |i: int| (r@[i].0, r@[i].1@, r@[i].2, r@[i].3@))
                    == call_lines_of(self.nodes(), self.calls().take(k as int)),
            decreases self.calls().len() - k,
        {
            let (caller_id, callee_id) = self.function_calls[k];
            proof {
                assert(self.calls()[k as int] == (caller_id, callee_id));
                assert(self.calls().take(k as int + 1).drop_last() =~= self.calls().take(k as int));
            }
            if caller_id < self.functions.len() && callee_id < self.functions.len() {
                let caller_def_path = self.functions[caller_id].get_def_path();
                let callee_def_path = self.functions[callee_id].get_def_path();
                r.push((caller_id, caller_def_path, callee_id, callee_def_path));
            }
            k += 1;
            proof {
                assert(Seq::new(r@.len(), |i: int| (r@[i].0, r@[i].1@, r@[i].2, r@[i].3@))
                    =~= call_lines_of(self.nodes(), self.calls().take(k as int)));
            }
        }
        proof { assert(self.calls().take(k as int) =~= self.calls()); }
        r
    }

    /// The paths of the functions, by id.
    pub fn node_paths(&self) -> (r: Vec<String>)
        ensures
            r@.len() == self.nodes().len(),
            forall|i: int| 0 <= i < r@.len() ==> (#[trigger] r@[i])@ == self.nodes()[i].1,
    {
        let mut r: Vec<String> = Vec::new();
        let mut i: usize = 0;
        while i < self.functions.len()
            invariant
                i <= self.functions@.len(),
                r@.len() == i,
                forall|k: int| 0 <= k < i ==> (#[trigger] r@[k])@ == self.nodes()[k].1,
            decreases self.functions@.len() - i,
        {
            r.push(self.functions[i].get_def_path());
            i += 1;
        }
        r
    }

    /// Finds the elementary cycles of the call graph and reports each one of
    /// more than one function: its text and the definition of its first function.
    /// The cycles found are exactly the reported cycles of the call graph, each
    /// written from its least function and found once for each way to follow
    /// it through the recorded calls (a call recorded twice gives two ways),
    /// in the order the search finds them: by first function, then by the
    /// positions of the calls followed.
    #[verifier::spinoff_prover]
    pub fn find_recursion_cycles(&self) -> (r: Vec<(String, DefId)>)
        requires
            self.calls_wf(),
        ensures
            exists|cs: Seq<Seq<usize>>| {
                &&& forall|c: Seq<usize>| #[trigger] cs.contains(c) <==> reported_cycle(self.graph(), c)
                &&& forall|c: Seq<usize>| #[trigger] reported_cycle(self.graph(), c) ==> occurrences(cs, c) == ways_from(self.graph(), c, 0)
                &&& exists|ps: Seq<Seq<int>>| #[trigger] search_listing(self.graph(), cs, ps)
                &&& lists_distinct(self.graph()) ==> cs.no_duplicates() && in_search_order(self.graph(), cs)
                &&& reports_view(r@) == cycle_reports(self.nodes(), cs)
            },
    {
        proof { use_type_invariant(self); self.lemma_distinct_paths(); }
        let call_graph_adj_list = self.get_adj_list();
        let nodes = self.node_paths();
        let mut ecs = ElementaryCyclesSearch::new(&call_graph_adj_list, &nodes);
        proof {
            assert forall|c: Seq<usize>| #[trigger] reported_cycle(ecs.graph(), c)
                implies forall|k: int| 0 <= k < c.len() ==> #[trigger] c[k] < ecs.names().len() by {
                lemma_cycle_nodes_in_graph(ecs.graph(), c);
            }
        }
        let cycles = ecs.get_elementary_cycles();
        let ghost cs = ecs.found_cycles();
        let ghost names = ecs.names();
        let ghost all = self.nodes();
        let mut reports: Vec<(String, DefId)> = Vec::new();
        proof {
            assert(cs.take(0) =~= Seq::<Seq<usize>>::empty());
            assert(reports_view(reports@) =~= cycle_reports(all, cs.take(0)));
        }
        let mut i: usize = 0;
        while i < cycles.len()
            invariant
                all == self.nodes(),
                self.paths_distinct(),
                names == nodes@,
                names.len() == all.len(),
                forall|x: int| 0 <= x < names.len() ==> (#[trigger] names[x])@ == all[x].1,
                Seq::new(cycles@.len(), |j: int| cycles@[j]@) == ecs.named_cycles(),
                ElementaryCyclesSearch::names_of(names, cs, ecs.named_cycles()),
                i <= cs.len(),
                reports_view(reports@) == cycle_reports(all, cs.take(i as int)),
            decreases cs.len() - i,
        {
            let ghost c = cs[i as int];
            proof {
                assert(cycles@[i as int]@ == ecs.named_cycles()[i as int]);
                assert(ecs.named_cycles()[i as int] == crate::johnson_find_cycles::elementary_cycles_search::name_list(names, c));
                assert(cs.take(i as int + 1).drop_last() =~= cs.take(i as int));
            }
            if cycles[i].len() > 1 {
                let cycle = &cycles[i];
                let ghost cnames = c.map_values(|x: usize| all[x as int].1);
                let mut res = String::new();
                let mut j: usize = 0;
                while j < cycle.len()
                    invariant
                        cycle@.len() == c.len(),
                        c.len() > 1,
                        forall|k: int| 0 <= k < c.len() ==> (#[trigger] cycle@[k])@ == cnames[k],
                        cnames.len() == c.len(),
                        j <= c.len(),
                        j < c.len() ==> res@ == arrows(cnames.take(j as int)),
                        j == c.len() ==> res@ == cycle_text(cnames),
                    decreases c.len() - j,
                {
                    let node = &cycle[j];
                    proof {
                        reveal_strlit("->");
                        assert(cnames.take(j as int + 1).drop_last() =~= cnames.take(j as int));
                    }
                    if j < cycle.len() - 1 {
                        res.append(node.as_str());
                        res.append("->");
                    } else {
                        res.append(node.as_str());
                        res.append("->");
                        res.append(cycle[0].as_str());
                        proof { assert(cnames.take(j as int + 1) =~= cnames); }
                    }
                    j += 1;
                }
                if let Some(id) = self.get_node_by_def_path(&cycle[0]) {
                    if id < self.functions.len() {
                        let first_node_def_id = self.functions[id].get_def_id();
                        proof {
                            assert(c[0] < all.len());
                            assert(all[c[0] as int].1 == cycle@[0]@);
                            assert(id == c[0]);
                        }
                        reports.push((res, first_node_def_id));
                    }
                }
            }
            i += 1;
            proof {
                assert(reports_view(reports@) =~= cycle_reports(all, cs.take(i as int)));
            }
        }
        proof {
            assert(cs.take(i as int) =~= cs);
            assert(cs.subrange(0, cs.len() as int) =~= cs);
            if lists_distinct(self.graph()) {
                assert(ecs.graph() == self.graph());
                assert(ecs.found_cycles().subrange(0, ecs.found_cycles().len() as int).no_duplicates());
                assert(in_search_order(ecs.graph(), ecs.found_cycles().subrange(0, ecs.found_cycles().len() as int)));
                assert(ecs.found_cycles().subrange(0, ecs.found_cycles().len() as int) == cs);
                assert(in_search_order(self.graph(), cs));
                assert(cs.no_duplicates());
            }
            assert(lists_distinct(self.graph()) ==> cs.no_duplicates() && in_search_order(self.graph(), cs));
            assert forall|c: Seq<usize>| #[trigger] cs.contains(c) <==> reported_cycle(self.graph(), c) by {
                if cs.contains(c) {
                    let t = choose|t: int| 0 <= t < cs.len() && cs[t] == c;
                    assert(reported_cycle(ecs.graph(), cs[t]));
                }
                if reported_cycle(self.graph(), c) {
                    assert(ecs.graph() == self.graph());
                    assert(reported_cycle(ecs.graph(), c));
                    assert(ecs.found_cycles().subrange(0, ecs.found_cycles().len() as int).contains(c));
                    assert(cs.subrange(0, cs.len() as int) == cs);
                }
            }
            assert(reports_view(reports@) == cycle_reports(self.nodes(), cs));
            assert(ecs.found_cycles().subrange(0, ecs.found_cycles().len() as int) == cs);
            assert(exists|ps: Seq<Seq<int>>| #[trigger] search_listing(self.graph(), cs, ps));
            assert forall|c: Seq<usize>| #[trigger] reported_cycle(self.graph(), c) implies occurrences(cs, c) == ways_from(self.graph(), c, 0) by {
                assert(ecs.graph() == self.graph());
                assert(reported_cycle(ecs.graph(), c));
                assert(ecs.found_cycles().subrange(0, ecs.found_cycles().len() as int) == cs);
            }
        }
        reports
    }
}

/// The calls between functions of the graph, each with both paths, in the
/// order the calls were added.
pub open spec fn call_lines_of(nodes: Seq<(DefId, Seq<char>)>, calls: Seq<(usize, usize)>) -> Seq<(usize, Seq<char>, usize, Seq<char>)>
    decreases calls.len(),
{
    if calls.len() == 0 {
        Seq::empty()
    } else {
        let prev = call_lines_of(nodes, calls.drop_last());
        let (a, b) = calls.last();
        if a < nodes.len() && b < nodes.len() {
            prev.push((a, nodes[a as int].1, b, nodes[b as int].1))
        } else {
            prev
        }
    }
}

/// One list per function, whatever the calls.
pub proof fn lemma_calls_adjacency_len(num: nat, calls: Seq<(usize, usize)>)
    requires
        forall|k: int| 0 <= k < calls.len() ==> (#[trigger] calls[k]).0 < num,
    ensures
        calls_adjacency(num, calls).len() == num,
    decreases calls.len(),
{
    if calls.len() > 0 {
        lemma_calls_adjacency_len(num, calls.drop_last());
    }
}

/// Calls between functions give a graph over the functions.
pub proof fn lemma_calls_adjacency_wf(num: nat, calls: Seq<(usize, usize)>)
    requires
        forall|k: int| 0 <= k < calls.len() ==> (#[trigger] calls[k]).0 < num && calls[k].1 < num,
    ensures
        adj_wf(calls_adjacency(num, calls)),
        calls_adjacency(num, calls).len() == num,
    decreases calls.len(),
{
    lemma_calls_adjacency_len(num, calls);
    if calls.len() > 0 {
        lemma_calls_adjacency_wf(num, calls.drop_last());
        let prev = calls_adjacency(num, calls.drop_last());
        let g = calls_adjacency(num, calls);
        let (caller, callee) = calls.last();
        assert forall|v: int, k: int| 0 <= v < g.len() && 0 <= k < g[v].len() implies (#[trigger] g[v][k]) < g.len() by {
            if v == caller as int && k == prev[v].len() {
            } else {
                assert(g[v][k] == prev[v][k]);
            }
        }
    }
}

/// The calls made by the function numbered `u`, in the order they were recorded.
pub open spec fn calls_from(calls: Seq<(usize, usize)>, u: int) -> Seq<(usize, usize)> {
    calls.filter(|c: (usize, usize)| c.0 as int == u)
}

/// The callees of a list of calls.
pub open spec fn callees(calls: Seq<(usize, usize)>) -> Seq<usize> {
    calls.map_values(|c: (usize, usize)| c.1)
}

/// How many times `v` stands in `s`.
pub open spec fn count_in(s: Seq<usize>, v: usize) -> nat {
    s.filter(|x: usize| x == v).len()
}

/// How many of the calls go from `u` to `v`.
pub open spec fn calls_between(calls: Seq<(usize, usize)>, u: usize, v: usize) -> nat {
    calls.filter(|c: (usize, usize)| c == (u, v)).len()
}

/// The list of each function of the call graph holds the callees of the
/// calls it makes, in the order they were recorded: every call, a call of a
/// function to itself included, puts its callee in its caller's list once,
/// and nothing else puts anything there.
pub proof fn lemma_graph_lists_callees(g: &CallGraphInfo, u: int)
    requires
        g.calls_wf(),
        0 <= u < g.nodes().len(),
    ensures
        g.graph().len() == g.nodes().len(),
        g.graph()[u] == callees(calls_from(g.calls(), u)),
{
    lemma_adjacency_lists_callees(g.nodes().len(), g.calls(), u);
}

/// Each call from `u` to `v` puts `v` in the list of `u` once: the number of
/// times `v` stands there is the number of calls from `u` to `v`.
pub proof fn lemma_graph_counts_calls(g: &CallGraphInfo, u: usize, v: usize)
    requires
        g.calls_wf(),
        u < g.nodes().len(),
    ensures
        count_in(g.graph()[u as int], v) == calls_between(g.calls(), u, v),
{
    lemma_adjacency_counts_calls(g.nodes().len(), g.calls(), u, v);
}

proof fn lemma_adjacency_lists_callees(num: nat, calls: Seq<(usize, usize)>, u: int)
    requires
        0 <= u < num,
        forall|k: int| 0 <= k < calls.len() ==> (#[trigger] calls[k]).0 < num,
    ensures
        calls_adjacency(num, calls).len() == num,
        calls_adjacency(num, calls)[u] == callees(calls_from(calls, u)),
    decreases calls.len(),
{
    reveal(Seq::filter);
    if calls.len() == 0 {
        assert(calls_from(calls, u) =~= Seq::<(usize, usize)>::empty());
        assert(callees(calls_from(calls, u)) =~= Seq::<usize>::empty());
    } else {
        let prev = calls.drop_last();
        assert forall|k: int| 0 <= k < prev.len() implies (#[trigger] prev[k]).0 < num by {
            assert(prev[k] == calls[k]);
        }
        lemma_adjacency_lists_callees(num, prev, u);
        let (caller, callee) = calls.last();
        assert(calls_from(calls, u) == if caller as int == u { calls_from(prev, u).push(calls.last()) } else { calls_from(prev, u) });
        if caller as int == u {
            assert(callees(calls_from(calls, u)) =~= callees(calls_from(prev, u)).push(callee));
        }
    }
}

proof fn lemma_adjacency_counts_calls(num: nat, calls: Seq<(usize, usize)>, u: usize, v: usize)
    requires
        u < num,
        forall|k: int| 0 <= k < calls.len() ==> (#[trigger] calls[k]).0 < num,
    ensures
        calls_adjacency(num, calls).len() == num,
        count_in(calls_adjacency(num, calls)[u as int], v) == calls_between(calls, u, v),
    decreases calls.len(),
{
    reveal(Seq::filter);
    if calls.len() == 0 {
        assert(calls_adjacency(num, calls)[u as int] =~= Seq::<usize>::empty());
    } else {
        let prev = calls.drop_last();
        assert forall|k: int| 0 <= k < prev.len() implies (#[trigger] prev[k]).0 < num by {
            assert(prev[k] == calls[k]);
        }
        lemma_adjacency_counts_calls(num, prev, u, v);
        let (caller, callee) = calls.last();
        let before = calls_adjacency(num, prev)[u as int];
        assert(calls.drop_last() == prev);
        assert(calls_between(calls, u, v) == calls_between(prev, u, v) + if calls.last() == (u, v) { 1nat } else { 0nat });
        if caller == u {
            assert(calls_adjacency(num, calls)[u as int] == before.push(callee));
            assert(before.push(callee).drop_last() =~= before);
            assert(before.push(callee).last() == callee);
            assert(count_in(before.push(callee), v) == count_in(before, v) + if callee == v { 1nat } else { 0nat });
        } else {
            assert(calls_adjacency(num, calls)[u as int] == before);
        }
    }
}

/// The cycles of more than one function.
pub open spec fn long_cycles(cs: Seq<Seq<usize>>) -> Seq<Seq<usize>> {
    cs.filter(|c: Seq<usize>| c.len() > 1)
}

/// The reports follow the cycles of more than one function, one each and in
/// their order; each report's definition is that of the cycle's first
/// function, whose path begins the report's text, followed by an arrow, and
/// ends it, after an arrow.
pub proof fn lemma_reports_name_first_functions(nodes: Seq<(DefId, Seq<char>)>, cs: Seq<Seq<usize>>)
    ensures
        cycle_reports(nodes, cs).len() == long_cycles(cs).len(),
        forall|i: int| 0 <= i < cycle_reports(nodes, cs).len() ==> {
            let path = nodes[long_cycles(cs)[i][0] as int].1;
            &&& (#[trigger] cycle_reports(nodes, cs)[i]).1 == nodes[long_cycles(cs)[i][0] as int].0
            &&& cycle_reports(nodes, cs)[i].0.len() >= path.len() + 2
            &&& cycle_reports(nodes, cs)[i].0.take(path.len() + 2int) == path + "->"@
            &&& cycle_reports(nodes, cs)[i].0.skip(cycle_reports(nodes, cs)[i].0.len() - path.len() - 2) == "->"@ + path
        },
    decreases cs.len(),
{
    reveal(Seq::filter);
    reveal_strlit("->");
    if cs.len() > 0 {
        let prev = cs.drop_last();
        lemma_reports_name_first_functions(nodes, prev);
        let c = cs.last();
        assert(long_cycles(cs) == if c.len() > 1 { long_cycles(prev).push(c) } else { long_cycles(prev) });
        if c.len() > 1 {
            let names = c.map_values(|x: usize| nodes[x as int].1);
            lemma_arrows_start(names);
            let text = cycle_text(names);
            let path = names[0];
            assert(names.len() == c.len());
            assert(names[0] == nodes[c[0] as int].1);
            assert(text.take(path.len() + 2int) =~= arrows(names).take(path.len() + 2int));
            let a = arrows(names);
            assert(a == arrows(names.drop_last()) + names.last() + seq!['-', '>']);
            assert(a[a.len() - 2] == '-' && a[a.len() - 1] == '>');
            assert(text.skip(text.len() - path.len() - 2) =~= "->"@ + path);
            let r = cycle_reports(nodes, cs);
            assert forall|i: int| 0 <= i < r.len() implies {
                let path = nodes[long_cycles(cs)[i][0] as int].1;
                &&& (#[trigger] r[i]).1 == nodes[long_cycles(cs)[i][0] as int].0
                &&& r[i].0.len() >= path.len() + 2
                &&& r[i].0.take(path.len() + 2int) == path + "->"@
                &&& r[i].0.skip(r[i].0.len() - path.len() - 2) == "->"@ + path
            } by {
                if i < r.len() - 1 {
                    assert(r[i] == cycle_reports(nodes, prev)[i]);
                    assert(long_cycles(cs)[i] == long_cycles(prev)[i]);
                }
            }
        }
    }
}

/// A chain of arrows starts with the first name and an arrow.
proof fn lemma_arrows_start(names: Seq<Seq<char>>)
    requires
        names.len() > 0,
    ensures
        arrows(names).len() >= names[0].len() + 2,
        arrows(names).take(names[0].len() + 2int) == names[0] + "->"@,
    decreases names.len(),
{
    reveal_strlit("->");
    let prev = names.drop_last();
    if names.len() == 1 {
        assert(arrows(prev) =~= Seq::<char>::empty());
        assert(arrows(names) =~= names[0] + seq!['-', '>']);
        assert(arrows(names).take(names[0].len() + 2int) =~= names[0] + "->"@);
    } else {
        lemma_arrows_start(prev);
        assert(prev[0] == names[0]);
        let a = arrows(prev);
        assert(arrows(names) == a + names.last() + seq!['-', '>']);
        assert(arrows(names).take(names[0].len() + 2int) =~= a.take(names[0].len() + 2int));
    }
}

} // verus!
