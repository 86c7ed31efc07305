use std::collections::{HashMap, HashSet};
use rap::safedrop_graph::{BugRecords, FnRetAlias, RetAlias, SafeDropGraph};
use rap::value_graph::{TyKind, ValueGraph, ValueNode};
use rap::mir_model::{AssignType, Assignment, BlockNode, CallSite, Callee, DropKind, DropSite, DropTy, Operand, Place};
use rap::ownership::RawTypeOwner;

fn graph(n: usize, arg_size: usize) -> SafeDropGraph {
    let mut values = Vec::new();
    for i in 0..n {
        values.push(ValueNode::new(i, i, true, true));
    }
    SafeDropGraph {
        values: ValueGraph { values },
        arg_size,
        ret_alias: FnRetAlias::new(arg_size),
        return_set: vec![],
        bug_records: BugRecords::new(),
        span: 42,
        blocks: vec![],
        scc_indices: vec![],
        constant: HashMap::new(),
        visit_times: 0,
        adt_owner: HashMap::new(),
        def_path: String::new(),
    }
}

#[test]
fn new_records_are_bug_free() {
    assert!(BugRecords::new().is_bug_free());
    let r = RetAlias::new(1, 0, true, true, 2, true, false);
    assert_eq!(r.atype, 1);
    assert!(r.valuable());
}

#[test]
fn fill_birth_reaches_fields_and_dead_aliases() {
    let mut g = graph(3, 1);
    let f = g.values.push_field_node(0, 0, 0, true, true, TyKind::Adt, 0);
    g.values.values[0].alias = vec![2];
    g.values.values[2].dead();
    g.values.values[1].birth = 9;
    g.fill_birth(0, 5);
    assert_eq!(g.values.values[0].birth, 5);
    assert_eq!(g.values.values[f].birth, 5);
    assert_eq!(g.values.values[2].birth, 5);
    assert_eq!(g.values.values[1].birth, 9);
}

#[test]
fn dangling_argument_is_reported() {
    let mut g = graph(3, 1);
    g.values.values[1].kind = TyKind::RawPtr;
    g.values.values[1].alias = vec![2];
    g.values.values[2].kind = TyKind::RawPtr;
    g.values.values[2].dead();
    assert!(g.is_dangling(1));
    g.dp_check(false);
    assert!(g.bug_records.dp_bugs.contains(&42));
    assert!(g.bug_records.dp_bugs_unwind.is_empty());
    g.dp_check(true);
    assert!(g.bug_records.dp_bugs_unwind.contains(&42));
}

#[test]
fn live_values_are_not_dangling() {
    let mut g = graph(3, 1);
    g.values.values[1].kind = TyKind::RawPtr;
    g.values.values[1].alias = vec![2];
    assert!(!g.is_dangling(1));
    g.dp_check(false);
    assert!(g.bug_records.is_bug_free());
}

#[test]
fn search_skips_recorded_nodes() {
    let mut g = graph(3, 1);
    g.values.values[1].alias = vec![2];
    g.values.values[2].dead();
    let mut record = HashSet::new();
    record.insert(2usize);
    assert!(!g.exist_dead(1, &mut record, false));
    assert!(record.contains(&1));
    let mut fresh = HashSet::new();
    assert!(g.exist_dead(1, &mut fresh, false));
}

#[test]
fn double_free_is_reported_once_per_local() {
    let mut g = graph(2, 1);
    g.values.values[1].dead();
    assert!(g.df_check(1, 7));
    assert!(g.df_check(1, 8));
    assert_eq!(g.bug_records.df_bugs.get(&1), Some(&7));
    assert!(!g.df_check(0, 9));
    assert_eq!(g.bug_records.df_bugs.len(), 1);
}

#[test]
fn use_after_free_is_reported() {
    let mut g = graph(3, 1);
    g.values.values[1].alias = vec![2];
    g.values.values[2].dead();
    g.uaf_check(1, 11, 1, false);
    assert!(g.bug_records.uaf_bugs.contains(&11));
}

#[test]
fn merge_results_records_each_alias_once() {
    let mut g = graph(3, 1);
    g.values.values[0].alias = vec![1];
    let nodes = vec![g.values.values[0].duplicate(), g.values.values[1].duplicate(), g.values.values[2].duplicate()];
    let again = vec![g.values.values[0].duplicate(), g.values.values[1].duplicate(), g.values.values[2].duplicate()];
    g.merge_results(nodes, false);
    g.merge_results(again, false);
    assert_eq!(g.ret_alias.alias_vec.len(), 1);
    assert_eq!(g.return_set, vec![(0, 1)]);
}

#[test]
fn merge_results_marks_dead_pointer_arguments() {
    let mut g = graph(2, 1);
    g.values.values[1].kind = TyKind::Ref;
    g.values.values[1].dead();
    let nodes = vec![g.values.values[0].duplicate(), g.values.values[1].duplicate()];
    g.merge_results(nodes, false);
    assert!(g.ret_alias.dead.contains(&1));
}

#[test]
fn merge_results_on_a_cleanup_path_marks_nothing_dead() {
    let mut g = graph(2, 1);
    g.values.values[1].kind = TyKind::Ref;
    g.values.values[1].dead();
    let nodes = vec![g.values.values[0].duplicate(), g.values.values[1].duplicate()];
    let again = vec![g.values.values[0].duplicate(), g.values.values[1].duplicate()];
    g.merge_results(nodes, true);
    g.merge_results(again, true);
    assert!(g.ret_alias.dead.is_empty());
}

fn block(next: Vec<usize>, assignments: Vec<Assignment>, drops: Vec<DropSite>) -> BlockNode {
    BlockNode {
        next,
        scc_sub_blocks: vec![],
        assignments,
        calls: vec![],
        drops,
        switch_stmts: vec![],
        const_value: vec![],
        is_cleanup: false,
    }
}

fn place(local: usize) -> Place {
    Place { local, projection: vec![] }
}

fn drop_of(local: usize, span: usize) -> DropSite {
    DropSite { kind: DropKind::Drop { place: place(local), place_ty: DropTy::Other }, span }
}

fn with_blocks(mut g: SafeDropGraph, blocks: Vec<BlockNode>) -> SafeDropGraph {
    g.scc_indices = (0..blocks.len()).collect();
    g.blocks = blocks;
    g
}

#[test]
fn dropping_a_value_twice_is_a_double_free() {
    let g = graph(3, 1);
    let mut g = with_blocks(
        g,
        vec![block(vec![1], vec![], vec![]), block(vec![2], vec![], vec![drop_of(1, 10)]), block(vec![], vec![], vec![drop_of(1, 11)])],
    );
    g.check(0, &HashMap::new());
    assert!(!g.values.values[1].is_alive());
    assert_eq!(g.bug_records.df_bugs.get(&1), Some(&11));
    assert!(!g.bug_records.is_bug_free());
}

#[test]
fn reading_a_dropped_value_is_a_use_after_free() {
    let g = graph(3, 1);
    let read = Assignment { lv: place(2), rv: place(1), atype: AssignType::Copy, span: 7 };
    let mut g = with_blocks(
        g,
        vec![block(vec![1], vec![], vec![]), block(vec![2], vec![], vec![drop_of(1, 5)]), block(vec![], vec![read], vec![])],
    );
    g.check(0, &HashMap::new());
    assert!(g.bug_records.uaf_bugs.contains(&7));
    assert!(g.bug_records.df_bugs.is_empty());
}

#[test]
fn a_single_drop_reports_nothing() {
    let g = graph(3, 1);
    let mut g = with_blocks(g, vec![block(vec![1], vec![], vec![]), block(vec![], vec![], vec![drop_of(2, 5)])]);
    g.check(0, &HashMap::new());
    assert!(!g.values.values[2].is_alive());
    assert!(g.bug_records.is_bug_free());
    assert_eq!(g.visit_times, 2);
}

#[test]
fn a_value_born_after_the_drop_point_survives() {
    let mut g = graph(3, 1);
    g.values.values[2].birth = 4;
    g.dead_node(2, 3, 9, false);
    assert!(g.values.values[2].is_alive());
    g.dead_node(2, 5, 9, false);
    assert!(!g.values.values[2].is_alive());
    assert!(g.bug_records.df_bugs.is_empty());
    g.dead_node(2, 5, 9, false);
    assert_eq!(g.bug_records.df_bugs.get(&2), Some(&9));
}

#[test]
fn dropping_a_struct_kills_its_fields_and_aliases() {
    let mut g = graph(4, 1);
    let f = g.values.push_field_node(1, 0, 1, true, true, TyKind::Adt, 0);
    g.values.values[1].alias = vec![3];
    g.dead_node(1, 1, 3, false);
    assert!(!g.values.values[1].is_alive());
    assert!(!g.values.values[f].is_alive());
    assert!(!g.values.values[3].is_alive());
    assert!(g.values.values[2].is_alive());
}

#[test]
fn heap_item_check_reads_the_variant_summary() {
    let mut g = graph(2, 1);
    g.adt_owner.insert(7, vec![(RawTypeOwner::Unowned, vec![false]), (RawTypeOwner::Owned, vec![])]);
    assert!(!g.drop_heap_item_check(&DropTy::Adt(7, None)));
    assert!(g.drop_heap_item_check(&DropTy::Adt(7, Some(1))));
    assert!(g.drop_heap_item_check(&DropTy::Adt(8, None)));
    assert!(g.drop_heap_item_check(&DropTy::Other));
}

#[test]
fn drops_stop_at_a_call_with_a_constant_argument() {
    let g = graph(3, 1);
    let stop = DropSite { kind: DropKind::Call { args: vec![Operand::Constant(None)] }, span: 6 };
    let mut g = with_blocks(
        g,
        vec![block(vec![1], vec![], vec![]), block(vec![], vec![], vec![drop_of(1, 5), stop, drop_of(2, 7)])],
    );
    g.drop_check(1);
    assert!(!g.values.values[1].is_alive());
    assert!(g.values.values[2].is_alive());
    assert!(g.bug_records.is_bug_free());
}

#[test]
fn a_dropping_call_kills_its_first_argument() {
    let g = graph(3, 1);
    let call_drop = DropSite { kind: DropKind::Call { args: vec![Operand::Move(place(2))] }, span: 6 };
    let mut g = with_blocks(g, vec![block(vec![1], vec![], vec![]), block(vec![], vec![], vec![call_drop])]);
    g.drop_check(1);
    assert!(!g.values.values[2].is_alive());
    assert!(g.values.values[1].is_alive());
}

#[test]
fn a_callee_that_frees_an_argument_kills_it() {
    let g = graph(3, 1);
    let mut b = block(vec![], vec![], vec![]);
    b.calls = vec![CallSite {
        callee: Callee::WithBody(5),
        callee_path: String::from("consume"),
        args: vec![Operand::Move(place(1)), Operand::Move(place(2))],
        destination: place(0),
        span: 8,
    }];
    let mut g = with_blocks(g, vec![b]);
    let mut summary = FnRetAlias::new(2);
    summary.dead.insert(1);
    let mut fns = HashMap::new();
    fns.insert(5u64, summary);
    g.alias_bbcall(0, &fns);
    assert!(!g.values.values[1].is_alive());
    assert!(g.values.values[2].is_alive());
}
