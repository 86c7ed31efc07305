use rap::isolation::{IsolationGraphNode, UigUnit, UnsafetyIsolationCheck};
use rap::kinds::UigOp;

fn node(id: u64, kind: usize, name: &str, unsafety: bool, api: bool) -> IsolationGraphNode {
    IsolationGraphNode::new(id, kind, name.to_string(), unsafety, api)
}

fn sample() -> UnsafetyIsolationCheck {
    let mut uic = UnsafetyIsolationCheck::new();
    let mut m = node(1, 1, "Vec.push", false, true);
    m.callees = vec![2];
    m.constructors = vec![3];
    uic.nodes.push(m);
    uic.nodes.push(node(2, 2, "ptr_write", true, false));
    uic.nodes.push(node(3, 0, "Vec.new", false, true));
    uic
}

#[test]
fn lookups_go_by_the_first_node_with_the_id() {
    let mut uic = sample();
    uic.nodes.push(node(2, 0, "shadow", false, true));
    assert!(uic.check_if_node_exists(2));
    assert!(!uic.check_if_node_exists(9));
    assert_eq!(uic.get_node_name_by_def_id(2), "ptr_write");
    assert_eq!(uic.get_node_name_by_def_id(9), "");
    assert_eq!(uic.get_node_type_by_def_id(1), 1);
    assert_eq!(uic.get_node_type_by_def_id(9), 2);
    assert!(uic.get_node_unsafety_by_def_id(2));
    assert!(!uic.get_node_unsafety_by_def_id(9));
    assert!(uic.is_crate_api_node(1));
    assert!(!uic.is_crate_api_node(2));
    assert_eq!(uic.get_adjacent_nodes_by_def_id(1), vec![2, 3]);
    assert_eq!(uic.get_constructor_nodes_by_def_id(1), vec![3]);
    assert!(uic.get_constructor_nodes_by_def_id(9).is_empty());
}

#[test]
fn insert_node_adds_each_function_once() {
    let mut uic = UnsafetyIsolationCheck::new();
    uic.related_func_def_id = vec![5];
    uic.insert_node(5, 1, "S.get".to_string(), Some(vec![6]));
    uic.insert_node(5, 2, "other".to_string(), None);
    uic.insert_node(7, 2, "free".to_string(), Some(vec![8]));
    assert_eq!(uic.nodes.len(), 2);
    assert!(uic.nodes[0].is_crate_api && uic.nodes[0].node_unsafety);
    assert_eq!(uic.nodes[0].constructor_id, Some(vec![6]));
    assert!(!uic.nodes[1].is_crate_api);
    assert_eq!(uic.nodes[1].constructor_id, None);
}

#[test]
fn type_classes_follow_the_table() {
    let mut v = vec![0usize; 10];
    UnsafetyIsolationCheck::update_type_vec(&mut v, 0, 2, false, false);
    UnsafetyIsolationCheck::update_type_vec(&mut v, 2, 1, true, false);
    UnsafetyIsolationCheck::update_type_vec(&mut v, 1, 0, false, true);
    UnsafetyIsolationCheck::update_type_vec(&mut v, 1, 1, false, false);
    UnsafetyIsolationCheck::update_type_vec(&mut v, 1, 2, true, false);
    UnsafetyIsolationCheck::update_type_vec(&mut v, 0, 1, false, true);
    UnsafetyIsolationCheck::update_type_vec(&mut v, 1, 1, false, true);
    UnsafetyIsolationCheck::update_type_vec(&mut v, 1, 1, true, false);
    UnsafetyIsolationCheck::update_type_vec(&mut v, 1, 1, true, true);
    UnsafetyIsolationCheck::update_type_vec(&mut v, 3, 1, true, true);
    assert_eq!(v, vec![1, 1, 1, 1, 1, 1, 1, 1, 1, 1]);
}

#[test]
fn a_uig_drawing_shows_the_call_and_constructors() {
    let mut uic = sample();
    let graphs = uic.generate_uig(UigOp::DrawPic);
    assert_eq!(graphs.len(), 1);
    let expected = "digraph APIs {\n    rankdir=LR;\n    rank=same;\n    fontname=\"Arial\";\n    fontsize=\"12\";\n    fontcolor=\"blue\";\n    subgraph cluster_above {\n        \"Vec.push\" [shape=ellipse, style=filled, color=black, fillcolor=white];\n        \"Vec.new\" [shape=doublecircle, style=filled, color=black, fillcolor=white];\n    }\n    subgraph cluster_below {\n        \"ptr_write\" [shape=box, style=filled, color=red, fillcolor=white];\n    }\n    \"Vec.push\" -> \"ptr_write\" [style=solid];\n    \"Vec.new\" -> \"Vec.push\" [style=dashed];\n}\n";
    assert_eq!(graphs[0], expected);
    assert!(uic.uigs.is_empty());
}

#[test]
fn type_counting_records_units() {
    let mut uic = sample();
    let graphs = uic.generate_uig(UigOp::TypeCount);
    assert!(graphs.is_empty());
    assert_eq!(uic.uigs.len(), 1);
    assert_eq!(uic.uigs[0].caller, 1);
    assert_eq!(uic.uigs[0].callee, 2);
    assert_eq!(uic.uigs[0].caller_cons, vec![3]);
    // a method with a safe constructor calling a plain function
    assert_eq!(uic.uig_type_count(), vec![0, 0, 1, 0, 0, 0, 0, 0, 0, 0]);
    uic.uigs.push(UigUnit { caller: 3, callee: 2, caller_cons: vec![], callee_cons: vec![] });
    assert_eq!(uic.uig_type_count(), vec![1, 0, 1, 0, 0, 0, 0, 0, 0, 0]);
}

#[test]
fn upg_groups_cover_every_node_once() {
    let mut uic = sample();
    uic.nodes.push(node(4, 2, "lonely", true, true));
    let graphs = uic.generate_upg_dot();
    assert_eq!(graphs.len(), 2);
    assert!(graphs[0].contains("\"Vec.push\" -> \"ptr_write\" [style=solid];"));
    assert!(graphs[0].contains("\"Vec.new\" -> \"Vec.push\" [style=dashed];"));
    assert!(graphs[1].contains("\"lonely\" [shape=box, style=filled, color=red, fillcolor=white];"));
    assert!(!graphs[1].contains("->"));
}

#[test]
fn dot_description_of_selected_nodes() {
    let uic = sample();
    let unit = UigUnit { caller: 1, callee: 2, caller_cons: vec![], callee_cons: vec![] };
    let d = uic.generate_dot_desc(&vec![2], false, Some(unit));
    assert!(d.ends_with("    subgraph cluster_above {\n    }\n    subgraph cluster_below {\n        \"ptr_write\" [shape=box, style=filled, color=red, fillcolor=white];\n    }\n    \"Vec.push\" -> \"ptr_write\" [style=solid];\n}\n"));
}
