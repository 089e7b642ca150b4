//! The adjacency structure of one strongly connected component.
use vstd::prelude::*;
use std::collections::HashSet;
use crate::johnson_find_cycles::graph::adj_view;

verus! {

broadcast use vstd::std_specs::hash::group_hash_axioms;

/// A strongly connected component, given as the adjacency lists of the graph
/// restricted to it, together with its least node.
pub struct SCCResult {
    node_ids_of_scc: HashSet<usize>,
    adj_list: Vec<Vec<usize>>,
    lowest_node_id: usize,
}

impl SCCResult {
    /// The adjacency lists held, as sequences.
    pub closed spec fn adj(&self) -> Seq<Seq<usize>> {
        adj_view(self.adj_list@)
    }

    /// The least node id given at construction.
    pub closed spec fn lowest(&self) -> usize {
        self.lowest_node_id
    }

    /// The nodes from the least one on that have at least one successor.
    pub closed spec fn node_ids(&self) -> Set<usize> {
        self.node_ids_of_scc@
    }

    pub fn new(adj_l: &Vec<Vec<usize>>, l_id: usize) -> (r: Self)
        ensures
            r.adj() == adj_view(adj_l@),
            r.lowest() == l_id,
            r.node_ids() == Set::new(|i: usize| l_id <= i < adj_l.len() && adj_l[i as int].len() > 0),
    {
        let mut s: HashSet<usize> = HashSet::new();
        if adj_l.len() > 0 {
            let mut i = l_id;
            while i < adj_l.len()
                invariant
                    l_id <= i,
                    s@ == Set::new(|k: usize| l_id <= k < i && k < adj_l.len() && adj_l[k as int].len() > 0),
                decreases adj_l.len() - i,
            {
                let ghost before = s@;
                if adj_l[i].len() > 0 {
                    s.insert(i);
                    assert(s@ == before.insert(i));
                }
                i += 1;
                proof {
                    assert(s@ =~= Set::new(|k: usize| l_id <= k < i && k < adj_l.len() && adj_l[k as int].len() > 0));
                }
            }
        }
        proof {
            assert(s@ =~= Set::new(|i: usize| l_id <= i < adj_l.len() && adj_l[i as int].len() > 0));
        }
        Self { adj_list: copy_adj(adj_l), lowest_node_id: l_id, node_ids_of_scc: s }
    }

    pub fn get_adj_list(&self) -> (r: Vec<Vec<usize>>)
        ensures
            adj_view(r@) == self.adj(),
    {
        copy_adj(&self.adj_list)
    }

    pub fn get_lowest_node_id(&self) -> (r: usize)
        ensures
            r == self.lowest(),
    {
        self.lowest_node_id
    }
}

/// A copy of adjacency lists, list by list.
pub fn copy_adj(a: &Vec<Vec<usize>>) -> (r: Vec<Vec<usize>>)
    ensures
        adj_view(r@) == adj_view(a@),
{
    let mut r: Vec<Vec<usize>> = Vec::new();
    let mut i: usize = 0;
    while i < a.len()
        invariant
            i <= a.len(),
            r@.len() == i,
            forall|k: int| 0 <= k < i ==> #[trigger] r@[k]@ == a@[k]@,
        decreases a.len() - i,
    {
        let mut row: Vec<usize> = Vec::new();
        let mut j: usize = 0;
        while j < a[i].len()
            invariant
                i < a.len(),
                j <= a[i as int].len(),
                row@ == a[i as int]@.take(j as int),
            decreases a[i as int].len() - j,
        {
            row.push(a[i][j]);
            j += 1;
            proof { assert(row@ =~= a[i as int]@.take(j as int)); }
        }
        proof { assert(row@ =~= a[i as int]@); }
        r.push(row);
        i += 1;
    }
    proof { assert(adj_view(r@) =~= adj_view(a@)); }
    r
}

} // verus!
