use rustsoda::johnson_find_cycles::elementary_cycles_search::ElementaryCyclesSearch;
use rustsoda::johnson_find_cycles::scc_result::SCCResult;
use rustsoda::johnson_find_cycles::strong_connected_components::StrongConnectedComponents;

fn names(n: usize) -> Vec<String> {
    (0..n).map(|i| format!("f{}", i)).collect()
}

fn cycles_of(adj: &Vec<Vec<usize>>) -> Vec<Vec<String>> {
    let mut ecs = ElementaryCyclesSearch::new(adj, &names(adj.len()));
    ecs.get_elementary_cycles()
}

fn named(c: &[usize]) -> Vec<String> {
    c.iter().map(|i| format!("f{}", i)).collect()
}

#[test]
fn triangle_has_one_cycle() {
    let adj = vec![vec![1], vec![2], vec![0]];
    assert_eq!(cycles_of(&adj), vec![named(&[0, 1, 2])]);
}

#[test]
fn two_cycles_through_a_shared_node() {
    // 0 -> 1 -> 0 and 0 -> 2 -> 0
    let adj = vec![vec![1, 2], vec![0], vec![0]];
    assert_eq!(cycles_of(&adj), vec![named(&[0, 1]), named(&[0, 2])]);
}

#[test]
fn acyclic_graph_has_no_cycle() {
    let adj = vec![vec![1, 2], vec![2], vec![]];
    assert!(cycles_of(&adj).is_empty());
}

#[test]
fn empty_graph_has_no_cycle() {
    let adj: Vec<Vec<usize>> = vec![];
    assert!(cycles_of(&adj).is_empty());
}

#[test]
fn self_loop_alone_is_not_reported() {
    // a single node with an edge to itself is a component of one node
    let adj = vec![vec![0]];
    assert!(cycles_of(&adj).is_empty());
}

#[test]
fn self_loop_inside_a_component_is_reported() {
    let adj = vec![vec![0, 1], vec![0]];
    assert_eq!(cycles_of(&adj), vec![named(&[0]), named(&[0, 1])]);
}

#[test]
fn complete_graph_on_three_nodes() {
    let adj = vec![vec![1, 2], vec![0, 2], vec![0, 1]];
    let got = cycles_of(&adj);
    assert_eq!(
        got,
        vec![named(&[0, 1]), named(&[0, 1, 2]), named(&[0, 2]), named(&[0, 2, 1]), named(&[1, 2])]
    );
}

#[test]
fn each_cycle_starts_at_its_least_node() {
    let adj = vec![vec![3], vec![2], vec![1, 3], vec![2, 0]];
    let got = cycles_of(&adj);
    assert_eq!(got, vec![named(&[0, 3]), named(&[1, 2]), named(&[2, 3])]);
}

#[test]
fn a_second_search_appends_the_cycles_again() {
    let adj = vec![vec![1], vec![0]];
    let mut ecs = ElementaryCyclesSearch::new(&adj, &names(2));
    let first = ecs.get_elementary_cycles();
    let second = ecs.get_elementary_cycles();
    assert_eq!(first, vec![named(&[0, 1])]);
    assert_eq!(second, vec![named(&[0, 1]), named(&[0, 1])]);
}

#[test]
fn component_of_least_node() {
    // components {0,1} and {2,3}
    let adj = vec![vec![1], vec![0, 2], vec![3], vec![2]];
    let mut sccs = StrongConnectedComponents::new(&adj);
    let r = sccs.get_adjacency_list(0).unwrap();
    assert_eq!(r.get_lowest_node_id(), 0);
    assert_eq!(r.get_adj_list(), vec![vec![1], vec![0], vec![], vec![]]);
    let r = sccs.get_adjacency_list(1).unwrap();
    assert_eq!(r.get_lowest_node_id(), 2);
    assert_eq!(r.get_adj_list(), vec![vec![], vec![], vec![3], vec![2]]);
    assert!(sccs.get_adjacency_list(3).is_none());
}

#[test]
fn component_after_removing_low_nodes() {
    // 0 -> 1 -> 2 -> 0 and 1 <-> 2: without 0, {1,2} is still a component
    let adj = vec![vec![1], vec![2], vec![0, 1]];
    let mut sccs = StrongConnectedComponents::new(&adj);
    let r = sccs.get_adjacency_list(1).unwrap();
    assert_eq!(r.get_lowest_node_id(), 1);
    assert_eq!(r.get_adj_list(), vec![vec![], vec![2], vec![1]]);
}

#[test]
fn no_component_in_acyclic_graph() {
    let adj = vec![vec![1], vec![2], vec![]];
    let mut sccs = StrongConnectedComponents::new(&adj);
    assert!(sccs.get_adjacency_list(0).is_none());
}

#[test]
fn adjacency_of_given_nodes() {
    let adj = vec![vec![1, 2], vec![0, 2], vec![0]];
    let mut sccs = StrongConnectedComponents::new(&adj);
    sccs.make_adj_list_subgraph(0);
    let l = sccs.get_adj_list(&Some(vec![0, 1])).unwrap();
    assert_eq!(l, vec![vec![1], vec![0], vec![]]);
    assert!(sccs.get_adj_list(&None).is_none());
}

#[test]
fn subgraph_drops_lower_nodes() {
    let adj = vec![vec![1, 2], vec![0, 2], vec![0, 1]];
    let mut sccs = StrongConnectedComponents::new(&adj);
    sccs.make_adj_list_subgraph(1);
    let l = sccs.get_adj_list(&Some(vec![0, 1, 2])).unwrap();
    assert_eq!(l, vec![vec![], vec![2], vec![1]]);
}

#[test]
fn scc_result_keeps_lists_and_least_node() {
    let adj = vec![vec![], vec![2], vec![1]];
    let r = SCCResult::new(&adj, 1);
    assert_eq!(r.get_adj_list(), adj);
    assert_eq!(r.get_lowest_node_id(), 1);
}

#[test]
fn component_search_skips_nodes_alone_in_their_component() {
    // 0 and 1 lead into the component {2, 3}
    let adj = vec![vec![1], vec![2], vec![3], vec![2]];
    let mut sccs = StrongConnectedComponents::new(&adj);
    let r = sccs.get_adjacency_list(0).unwrap();
    assert_eq!(r.get_lowest_node_id(), 2);
    assert_eq!(r.get_adj_list(), vec![vec![], vec![], vec![3], vec![2]]);
}

#[test]
fn component_search_finds_the_component_of_the_next_node() {
    let adj = vec![vec![1], vec![2], vec![1]];
    let mut sccs = StrongConnectedComponents::new(&adj);
    let r = sccs.get_adjacency_list(0).unwrap();
    assert_eq!(r.get_lowest_node_id(), 1);
    assert_eq!(r.get_adj_list(), vec![vec![], vec![2], vec![1]]);
}

#[test]
fn every_cycle_is_found_in_a_chain_of_components() {
    // 0 -> 1 -> 2 -> 0, 1 <-> 3, 3 <-> 4
    let adj = vec![vec![1], vec![2, 3], vec![0], vec![1, 4], vec![3]];
    assert_eq!(cycles_of(&adj), vec![named(&[0, 1, 2]), named(&[1, 3]), named(&[3, 4])]);
}

#[test]
fn every_cycle_is_found_through_overlapping_paths() {
    let adj = vec![vec![1, 2], vec![2], vec![0, 1]];
    assert_eq!(cycles_of(&adj), vec![named(&[0, 1, 2]), named(&[0, 2]), named(&[1, 2])]);
}

#[test]
fn a_repeated_call_is_reported_once_per_edge() {
    let adj = vec![vec![1, 1], vec![0]];
    assert_eq!(cycles_of(&adj), vec![named(&[0, 1]), named(&[0, 1])]);
}

fn letters(s: &[&str]) -> Vec<String> {
    s.iter().map(|x| x.to_string()).collect()
}

#[test]
fn cycle_search_from_a_node_after_a_full_search() {
    let a = vec![vec![1, 2], vec![0], vec![]];
    let mut e = ElementaryCyclesSearch::new(&a, &letters(&["a", "b", "c"]));
    assert_eq!(e.get_elementary_cycles(), vec![letters(&["a", "b"])]);
    assert!(e.find_cycles(1, 1, &a));
    // the cycle b -> a was added after the one found before; a new full
    // search appends a -> b again
    assert_eq!(
        e.get_elementary_cycles(),
        vec![letters(&["a", "b"]), letters(&["b", "a"]), letters(&["a", "b"])]
    );
}

#[test]
fn cycle_search_from_a_node_without_cycle() {
    let a = vec![vec![1], vec![], vec![]];
    let mut e = ElementaryCyclesSearch::new(&a, &names(3));
    assert!(e.get_elementary_cycles().is_empty());
    assert!(!e.find_cycles(0, 0, &a));
    // node 0 stays blocked until released
    e.unblock(0);
    assert!(!e.find_cycles(0, 0, &a));
    assert!(e.get_elementary_cycles().is_empty());
}

#[test]
fn release_follows_the_waiting_chain() {
    // 0 -> 1 -> 2: a search from 0 blocks all three, 1 waits on 2 and 0 on 1
    let a = vec![vec![1], vec![2], vec![]];
    let mut e = ElementaryCyclesSearch::new(&a, &names(3));
    assert!(e.get_elementary_cycles().is_empty());
    assert!(!e.find_cycles(0, 0, &a));
    e.unblock(2);
    // 0 is released through 1, so a new search from 0 can start
    assert!(!e.find_cycles(0, 0, &a));
}

#[test]
fn tarjan_search_from_a_fresh_state() {
    let g = vec![vec![1], vec![0], vec![3, 4], vec![], vec![3]];
    let mut c = StrongConnectedComponents::new(&g);
    assert!(c.get_adjacency_list(5).is_none());
    c.make_adj_list_subgraph(0);
    c.get_sccs(0);
    assert_eq!(c.get_lowest_id_component(), Some(vec![1, 0]));
}

#[test]
fn tarjan_search_without_component() {
    let g = vec![vec![1], vec![0], vec![3, 4], vec![], vec![3]];
    let mut c = StrongConnectedComponents::new(&g);
    assert!(c.get_adjacency_list(5).is_none());
    c.make_adj_list_subgraph(0);
    c.get_sccs(2);
    assert_eq!(c.get_lowest_id_component(), None);
}

#[test]
fn tarjan_search_drops_a_lone_self_loop() {
    let g = vec![vec![0]];
    let mut c = StrongConnectedComponents::new(&g);
    assert!(c.get_adjacency_list(1).is_none());
    c.make_adj_list_subgraph(0);
    c.get_sccs(0);
    assert_eq!(c.get_lowest_id_component(), None);
}

#[test]
fn tarjan_search_continued_after_a_component_search() {
    let g = vec![vec![1], vec![0], vec![3, 4], vec![], vec![3]];
    let mut c = StrongConnectedComponents::new(&g);
    assert!(c.get_adjacency_list(0).is_some());
    c.get_sccs(2);
    assert_eq!(c.get_lowest_id_component(), Some(vec![1, 0]));
}

#[test]
fn a_repeated_return_edge_doubles_the_cycle() {
    let adj = vec![vec![1], vec![0, 0]];
    assert_eq!(cycles_of(&adj), vec![named(&[0, 1]), named(&[0, 1])]);
}

#[test]
fn copies_follow_the_positions_of_the_successors() {
    // the list of 0 names 1, then 2, then 1 again
    let adj = vec![vec![1, 2, 1], vec![0], vec![0]];
    assert_eq!(cycles_of(&adj), vec![named(&[0, 1]), named(&[0, 2]), named(&[0, 1])]);
}

#[test]
fn a_second_search_repeats_the_first_in_order() {
    let adj = vec![vec![1, 2], vec![2, 0], vec![0, 1]];
    let mut ecs = ElementaryCyclesSearch::new(&adj, &names(3));
    let first = ecs.get_elementary_cycles();
    let second = ecs.get_elementary_cycles();
    let mut twice = first.clone();
    twice.extend(first.clone());
    assert_eq!(second, twice);
}

#[test]
fn a_second_search_repeats_the_first_with_repeated_calls() {
    let adj = vec![vec![1, 1, 2], vec![0, 2], vec![0, 1]];
    let mut ecs = ElementaryCyclesSearch::new(&adj, &names(3));
    let first = ecs.get_elementary_cycles();
    assert_eq!(
        first,
        vec![named(&[0, 1]), named(&[0, 1, 2]), named(&[0, 1]), named(&[0, 1, 2]), named(&[0, 2]), named(&[0, 2, 1]), named(&[1, 2])]
    );
    let second = ecs.get_elementary_cycles();
    let mut twice = first.clone();
    twice.extend(first.clone());
    assert_eq!(second, twice);
}

#[test]
fn tarjan_searches_chain_from_a_fresh_state() {
    let g = vec![vec![1], vec![0], vec![3, 4], vec![], vec![3]];
    let mut c = StrongConnectedComponents::new(&g);
    assert!(c.get_adjacency_list(5).is_none());
    c.make_adj_list_subgraph(0);
    c.get_sccs(2);
    assert_eq!(c.get_lowest_id_component(), None);
    c.get_sccs(0);
    assert_eq!(c.get_lowest_id_component(), Some(vec![1, 0]));
}

#[test]
fn search_from_another_node_records_walks_back_to_the_start() {
    // 0 -> 1 -> 2 -> 0: from 1, the walk 1, 2 ends with an edge back to 0
    let a = vec![vec![1], vec![2], vec![0]];
    let mut e = ElementaryCyclesSearch::new(&a, &names(3));
    assert_eq!(e.get_elementary_cycles(), vec![named(&[0, 1, 2])]);
    assert!(e.find_cycles(1, 0, &a));
    assert_eq!(
        e.get_elementary_cycles(),
        vec![named(&[0, 1, 2]), named(&[1, 2]), named(&[0, 1, 2])]
    );
}

#[test]
fn search_from_another_node_without_walk_back() {
    // 1 -> 2, and nothing leads to 0 from 1
    let a = vec![vec![1], vec![2], vec![]];
    let mut e = ElementaryCyclesSearch::new(&a, &names(3));
    assert!(e.get_elementary_cycles().is_empty());
    assert!(!e.find_cycles(1, 0, &a));
    assert!(e.get_elementary_cycles().is_empty());
}

#[test]
fn tarjan_lists_a_component_from_its_last_visited_node() {
    let g = vec![vec![1], vec![0, 2], vec![3], vec![2]];
    let mut c = StrongConnectedComponents::new(&g);
    assert!(c.get_adjacency_list(4).is_none());
    c.make_adj_list_subgraph(0);
    c.get_sccs(0);
    assert_eq!(c.get_lowest_id_component(), Some(vec![1, 0]));
}
