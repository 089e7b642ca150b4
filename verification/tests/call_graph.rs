use rustsoda::call_graph::call_graph_builder::{CallGraphInfo, DefId, Node};
use rustsoda::call_graph::call_graph_visitor::{call_target, is_std_crate, CalleeResolution};

fn d(i: u32) -> DefId {
    DefId { krate: 0, index: i }
}

fn s(x: &str) -> String {
    x.to_string()
}

#[test]
fn node_keeps_id_and_path() {
    let n = Node::new(d(7), &s("a::f"));
    assert_eq!(n.get_def_id(), d(7));
    assert_eq!(n.get_def_path(), s("a::f"));
}

#[test]
fn nodes_are_numbered_once_per_path() {
    let mut g = CallGraphInfo::new();
    g.add_node(d(1), &s("a::f"));
    g.add_node(d(2), &s("a::g"));
    g.add_node(d(3), &s("a::f"));
    assert_eq!(g.get_node_num(), 2);
    assert_eq!(g.get_node_by_def_path(&s("a::f")), Some(0));
    assert_eq!(g.get_node_by_def_path(&s("a::g")), Some(1));
    assert_eq!(g.get_node_by_def_path(&s("a::h")), None);
}

#[test]
fn call_from_unknown_caller_is_ignored() {
    let mut g = CallGraphInfo::new();
    g.add_in_call_graph(&s("a::f"), d(2), &s("a::g"));
    assert_eq!(g.get_node_num(), 0);
    assert!(g.call_lines().is_empty());
}

#[test]
fn call_adds_the_new_callee() {
    let mut g = CallGraphInfo::new();
    g.add_node(d(1), &s("a::f"));
    g.add_in_call_graph(&s("a::f"), d(2), &s("a::g"));
    g.add_in_call_graph(&s("a::f"), d(2), &s("a::g"));
    assert_eq!(g.get_node_num(), 2);
    assert_eq!(
        g.call_lines(),
        vec![(0, s("a::f"), 1, s("a::g")), (0, s("a::f"), 1, s("a::g"))]
    );
    assert_eq!(g.get_adj_list(), vec![vec![1, 1], vec![]]);
}

#[test]
fn calls_between_unknown_ids_are_not_listed() {
    let mut g = CallGraphInfo::new();
    g.add_node(d(1), &s("a::f"));
    g.add_function_call_edge(0, 5);
    g.add_function_call_edge(0, 0);
    assert_eq!(g.call_lines(), vec![(0, s("a::f"), 0, s("a::f"))]);
}

#[test]
fn mutual_recursion_is_reported() {
    let mut g = CallGraphInfo::new();
    g.add_node(d(10), &s("a::f"));
    g.add_in_call_graph(&s("a::f"), d(11), &s("a::g"));
    g.add_in_call_graph(&s("a::g"), d(10), &s("a::f"));
    g.add_in_call_graph(&s("a::g"), d(12), &s("a::h"));
    let r = g.find_recursion_cycles();
    assert_eq!(r, vec![(s("a::f->a::g->a::f"), d(10))]);
}

#[test]
fn direct_recursion_is_not_a_reported_cycle() {
    let mut g = CallGraphInfo::new();
    g.add_node(d(10), &s("a::f"));
    g.add_in_call_graph(&s("a::f"), d(10), &s("a::f"));
    assert!(g.find_recursion_cycles().is_empty());
}

#[test]
fn three_function_cycle_text() {
    let mut g = CallGraphInfo::new();
    g.add_node(d(1), &s("x"));
    g.add_in_call_graph(&s("x"), d(2), &s("y"));
    g.add_in_call_graph(&s("y"), d(3), &s("z"));
    g.add_in_call_graph(&s("z"), d(1), &s("x"));
    assert_eq!(g.find_recursion_cycles(), vec![(s("x->y->z->x"), d(1))]);
}

#[test]
fn node_paths_by_id() {
    let mut g = CallGraphInfo::new();
    g.add_node(d(1), &s("x"));
    g.add_node(d(2), &s("y"));
    assert_eq!(g.node_paths(), vec![s("x"), s("y")]);
}

#[test]
fn std_crates() {
    for c in ["alloc", "std", "core", "proc_macro", "clippy"] {
        assert!(is_std_crate(&s(c)));
    }
    assert!(!is_std_crate(&s("rustsoda")));
    assert!(!is_std_crate(&s("stdx")));
}

#[test]
fn call_targets() {
    let me = d(1);
    assert_eq!(call_target(me, &s("std"), d(2), CalleeResolution::Unresolved), None);
    assert_eq!(call_target(me, &s("app"), d(2), CalleeResolution::Unresolved), Some((d(2), false)));
    assert_eq!(call_target(me, &s("app"), d(1), CalleeResolution::Unresolved), Some((d(1), true)));
    assert_eq!(call_target(me, &s("app"), d(2), CalleeResolution::Item(d(1))), Some((d(1), true)));
    assert_eq!(
        call_target(me, &s("app"), d(2), CalleeResolution::IntrinsicOrCloneShim { def_id: d(3), is_closure: false }),
        Some((d(3), false))
    );
    assert_eq!(
        call_target(me, &s("app"), d(2), CalleeResolution::IntrinsicOrCloneShim { def_id: d(3), is_closure: true }),
        None
    );
    assert_eq!(call_target(me, &s("app"), d(2), CalleeResolution::Other), None);
}

#[test]
fn calls_recorded_through_the_graph_stay_inside_it() {
    let mut info = CallGraphInfo::new();
    let a = String::from("a");
    let b = String::from("b");
    info.add_node(DefId { krate: 0, index: 0 }, &a);
    info.add_in_call_graph(&a, DefId { krate: 0, index: 1 }, &b);
    assert!(info.calls_in_graph());
    info.add_function_call_edge(0, 7);
    assert!(!info.calls_in_graph());
}

#[test]
fn a_cloned_graph_keeps_functions_and_calls() {
    let mut info = CallGraphInfo::new();
    let a = String::from("a");
    info.add_node(DefId { krate: 0, index: 0 }, &a);
    info.add_in_call_graph(&a, DefId { krate: 0, index: 0 }, &a);
    let copy = info.clone();
    assert_eq!(copy.get_node_num(), 1);
    assert_eq!(copy.get_call_num(), 1);
}
