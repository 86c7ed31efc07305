use rap::ty_kind::{is_not_drop, kind, TyModel};
use rap::value_graph::TyKind;
use rap::call_graph::CallGraphInfo;
use rap::corner::{is_corner_adt, should_check};
use rap::dot::{escaped_string, Graph, GraphEdge, GraphNode, NodeLabel};
use rap::kinds::HelloWorld;
use rap::text::{contains_str, ends_with, find_char, prefix_before, starts_with, suffix_after_last, usize_to_decimal};

#[test]
fn call_graph_registers_each_path_once() {
    let mut g = CallGraphInfo::new();
    let a = String::from("crate::a");
    let b = String::from("crate::b");
    g.add_node(10, &a);
    g.add_node(10, &a);
    assert_eq!(g.get_node_num(), 1);
    assert_eq!(g.get_noed_by_path(&a), Some(0));
    assert_eq!(g.get_noed_by_path(&b), None);
    g.add_in_call_graph(&a, 20, &b);
    assert_eq!(g.get_node_num(), 2);
    assert_eq!(g.function_calls, vec![(0, 1)]);
    assert_eq!(g.functions[1].get_def_id(), 20);
    assert_eq!(g.functions[1].get_def_path(), "crate::b");
}

#[test]
fn calls_from_unknown_callers_are_ignored() {
    let mut g = CallGraphInfo::new();
    g.add_in_call_graph(&String::from("x"), 1, &String::from("y"));
    assert_eq!(g.get_node_num(), 0);
    assert!(g.function_calls.is_empty());
}

#[test]
fn corner_adts() {
    assert!(is_corner_adt(String::from("std::rc::Rc<i32>")));
    assert!(is_corner_adt(String::from("core::cell::RefMut<'_, T>")));
    assert!(!is_corner_adt(String::from("std::vec::Vec<u8>")));
}

#[test]
fn drop_like_functions_are_not_checked() {
    assert!(!should_check("core::ptr::drop_in_place"));
    assert!(!should_check("alloc::alloc::dealloc"));
    assert!(should_check("my_crate::drop_helpers::make"));
    assert!(should_check("main"));
}

#[test]
fn dot_labels_are_escaped() {
    assert_eq!(escaped_string(String::from("a{b}<c>\"d")), "a\\{b\\}\\<c\\>\\\"d");
    let e = GraphEdge::NodeEdge { src: 1, dst: 12, op: String::from("Move") };
    assert_eq!(e.to_dot_graph(), "_1 -> _12 [label=\"Move\" ]");
}

#[test]
fn hello_world_greets() {
    assert_eq!(HelloWorld::new().start(), "Hello World from RAP frontend!!!!!");
}

#[test]
fn text_helpers() {
    assert!(starts_with("cargo-rap", "cargo"));
    assert!(ends_with("cargo-rap", "rap"));
    assert!(contains_str("abcdef", "cde"));
    assert!(!contains_str("abc", "abcd"));
    assert_eq!(find_char("a<b<c", '<'), Some(1));
    assert_eq!(prefix_before("std::slice::from_raw_parts::<u8>", '<'), "std::slice::from_raw_parts::");
    assert_eq!(suffix_after_last("a::b::c", "::"), "c");
    assert_eq!(suffix_after_last("abc", "::"), "abc");
    assert_eq!(usize_to_decimal(0), "0");
    assert_eq!(usize_to_decimal(4096), "4096");
}

#[test]
fn primitive_aggregates_never_need_drop() {
    let pair = TyModel::Tuple(vec![TyModel::Int, TyModel::Array(Box::new(TyModel::Bool))]);
    assert!(is_not_drop(&pair));
    let with_ptr = TyModel::Adt { printed: "S".to_string(), fields: vec![TyModel::Char, TyModel::RawPtr] };
    assert!(!is_not_drop(&with_ptr));
    assert!(is_not_drop(&TyModel::Adt { printed: "Unit".to_string(), fields: vec![] }));
    assert!(!is_not_drop(&TyModel::Other));
    assert_eq!(kind(&pair), TyKind::Tuple);
    assert_eq!(kind(&with_ptr), TyKind::Adt);
    assert_eq!(kind(&TyModel::Adt { printed: "std::rc::Rc<i32>".to_string(), fields: vec![] }), TyKind::CornerCase);
    assert_eq!(kind(&TyModel::Ref), TyKind::Ref);
    assert_eq!(kind(&TyModel::RawPtr), TyKind::RawPtr);
    assert_eq!(kind(&TyModel::Float), TyKind::Adt);
}

#[test]
fn data_flow_nodes_and_graphs_print_as_records() {
    let call = GraphNode { op: NodeLabel::Call("std::mem::drop<T>".to_string()) };
    assert_eq!(call.to_dot_graph(2, Some("red".to_string()), false), "_2 [label=\"<f0> _2 | <f1> fn std::mem::drop\\<T\\>\" color=red ]");
    assert_eq!(call.to_dot_graph(7, None, true), "_7 [label=\"fn std::mem::drop\\<T\\>\" style=dashed ]");
    let nop = GraphNode { op: NodeLabel::Nop };
    assert_eq!(nop.to_dot_graph(0, None, false), "_0 [label=\"<f0> _0\" ]");
    let agg = GraphNode { op: NodeLabel::AggAdt("S".to_string()) };
    assert_eq!(agg.to_dot_graph(1, None, false), "_1 [label=\"<f0> _1 | <f1> Agg S::\\{..\\}\" ]");
    let g = Graph {
        name: "f".to_string(),
        nodes: vec![GraphNode { op: NodeLabel::Nop }, GraphNode { op: NodeLabel::Other("Use".to_string()) }],
        edges: vec![GraphEdge::NodeEdge { src: 1, dst: 0, op: "Move".to_string() }],
        argc: 0,
        n_locals: 1,
    };
    assert_eq!(
        g.to_dot_graph(),
        "digraph \"f\" {\n    node [shape=record];\n    _0 [label=\"<f0> _0\" color=red ]\n    _1 [label=\"<f0> _1 | <f1> Use\" ]\n    _1 -> _0 [label=\"Move\" ]\n}\n"
    );
}

#[test]
fn call_graph_report_lists_calls_and_functions() {
    let mut g = CallGraphInfo::new();
    let a = String::from("crate::a");
    let b = String::from("crate::b");
    g.add_node(1, &a);
    g.add_in_call_graph(&a, 2, &b);
    g.add_funciton_call_edge(0, 7);
    assert_eq!(
        g.print_call_graph(),
        "CallGraph Analysis:\nThere are 2 functions calls!\n0:crate::a -> 1:crate::b\nThere are 2 functions\n0:crate::a\n1:crate::b\n"
    );
}

#[test]
fn aliases_print_as_index_pairs() {
    let mut f = rap::alias::FnRetAlias::new(2);
    assert_eq!(f.to_string(), "[]");
    f.alias_vec.push(rap::alias::RetAlias::new(0, true, true, 12, true, true));
    f.alias_vec.push(rap::alias::RetAlias::new(1, true, true, 2, false, true));
    assert_eq!(f.alias_vec[0].to_string(), "(0,12)");
    assert_eq!(f.to_string(), "[(0,12)(1,2)]");
}
