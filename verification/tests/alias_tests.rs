use std::collections::HashMap;
use rap::alias::{FnRetAlias, MopGraph, RetAlias};
use rap::mir_model::{AssignType, Assignment, BlockNode, Place};
use rap::value_graph::{TyKind, ValueGraph, ValueNode, NO_FIELD};

fn locals(n: usize) -> ValueGraph {
    let mut values = Vec::new();
    for i in 0..n {
        values.push(ValueNode::new(i, i, true, true));
    }
    ValueGraph { values }
}

fn mop(values: ValueGraph, arg_size: usize) -> MopGraph {
    MopGraph {
        values,
        arg_size,
        ret_alias: FnRetAlias::new(arg_size),
        blocks: vec![],
        scc_indices: vec![],
        constant: HashMap::new(),
        visit_times: 0,
    }
}

#[test]
fn ret_alias_starts_without_fields() {
    let r = RetAlias::new(0, true, false, 2, true, true);
    assert!(r.left_field_seq.is_empty() && r.right_field_seq.is_empty());
    assert_eq!(r.left_index, 0);
    assert_eq!(r.right_index, 2);
    assert!(r.valuable());
    assert!(!RetAlias::new(0, true, false, 2, false, true).valuable());
}

#[test]
fn merge_alias_copies_fields_and_aliases() {
    let mut g = locals(3);
    let f = g.push_field_node(1, 0, 1, true, true, TyKind::RawPtr, 0);
    let mut m = mop(g, 2);
    m.merge_alias(0, 1);
    assert_eq!(m.values.values[0].alias, vec![1]);
    assert_eq!(m.values.values.len(), 5);
    assert_eq!(m.values.values[0].fields, vec![(0, 4)]);
    assert_eq!(m.values.values[4].kind, TyKind::RawPtr);
    assert_eq!(m.values.values[4].alias, m.values.values[f].alias);
    assert_eq!(m.values.values[4].alias, vec![1]);
}

#[test]
fn merge_alias_copies_deeper_field_paths() {
    let mut g = locals(3);
    let f = g.push_field_node(1, 0, 1, true, false, TyKind::Adt, 0);
    let h = g.push_field_node(f, 2, 1, false, true, TyKind::Ref, 0);
    let mut m = mop(g, 2);
    m.merge_alias(0, 1);
    // local 0 now has field 0 (node 5) with field 2 (node 6) below it
    assert_eq!(m.values.values.len(), 7);
    assert_eq!(m.values.values[0].fields, vec![(0, 5)]);
    assert_eq!(m.values.values[5].fields, vec![(2, 6)]);
    assert_eq!(m.values.values[5].field_id, 0);
    assert_eq!(m.values.values[6].field_id, 2);
    assert_eq!(m.values.values[6].kind, m.values.values[h].kind);
    assert_eq!(m.values.values[6].may_drop, m.values.values[h].may_drop);
    assert_eq!(m.values.values[6].birth, 0);
    assert_eq!(m.values.values[6].local, 0);
}

#[test]
fn merge_alias_of_a_node_with_itself_adds_no_node() {
    let mut g = locals(2);
    g.push_field_node(0, 3, 0, false, false, TyKind::Adt, 0);
    let mut m = mop(g, 1);
    m.merge_alias(0, 0);
    assert_eq!(m.values.values.len(), 3);
    assert_eq!(m.values.values[0].fields, vec![(3, 2)]);
}

#[test]
fn merge_applies_a_callee_alias() {
    let mut m = mop(locals(3), 2);
    let mut r = RetAlias::new(0, true, true, 1, true, true);
    r.left_field_seq = vec![0];
    assert!(m.merge(&r, &vec![0, 1, 2]));
    // field 0 of local 0 was created and now aliases local 1
    assert_eq!(m.values.values.len(), 4);
    assert_eq!(m.values.values[0].fields, vec![(0, 3)]);
    assert_eq!(m.values.values[3].kind, TyKind::RawPtr);
    assert_eq!(m.values.values[3].alias, vec![1]);
}

#[test]
fn merge_with_an_index_out_of_range_changes_nothing() {
    let mut m = mop(locals(2), 1);
    let r = RetAlias::new(0, true, true, 5, true, true);
    assert!(!m.merge(&r, &vec![0, 1]));
    assert_eq!(m.values.values.len(), 2);
    assert_eq!(m.values.values[0].alias, vec![0]);
}

#[test]
fn field_sequences_hold_the_field_index() {
    let mut g = locals(2);
    let f = g.push_field_node(1, 7, 1, true, true, TyKind::Adt, 0);
    let m = mop(g, 1);
    assert_eq!(m.get_field_seq(&m.values.values[f]), vec![7]);
    assert_eq!(m.get_field_seq(&m.values.values[0]), Vec::<usize>::new());
    assert_eq!(m.values.values[0].field_id, NO_FIELD);
}

#[test]
fn merge_results_records_argument_aliases() {
    let mut g = locals(3);
    g.values[0].alias = vec![1];
    let nodes = vec![
        g.values[0].duplicate(),
        g.values[1].duplicate(),
        g.values[2].duplicate(),
    ];
    let mut m = mop(g, 1);
    m.merge_results(nodes);
    assert_eq!(m.ret_alias.alias_vec.len(), 1);
    assert_eq!(m.ret_alias.alias_vec[0].left_index, 0);
    assert_eq!(m.ret_alias.alias_vec[0].right_index, 1);
}

#[test]
fn check_explores_a_single_block() {
    let mut m = mop(locals(2), 1);
    m.blocks = vec![BlockNode {
        next: vec![],
        scc_sub_blocks: vec![],
        assignments: vec![Assignment {
            lv: Place { local: 0, projection: vec![] },
            rv: Place { local: 1, projection: vec![] },
            atype: AssignType::Copy,
            span: 0,
        }],
        calls: vec![],
        drops: vec![],
        switch_stmts: vec![],
        const_value: vec![(5, 7)],
        is_cleanup: false,
    }];
    m.scc_indices = vec![0];
    let fn_map: HashMap<u64, FnRetAlias> = HashMap::new();
    m.check(0, &fn_map);
    assert_eq!(m.visit_times, 1);
    assert_eq!(m.constant.get(&5), Some(&7));
    assert_eq!(m.ret_alias.alias_vec.len(), 1);
    assert_eq!(m.ret_alias.alias_vec[0].left_index, 0);
    assert_eq!(m.ret_alias.alias_vec[0].right_index, 1);
}

#[test]
fn split_check_restores_the_graph() {
    let mut m = mop(locals(2), 1);
    m.blocks = vec![BlockNode {
        next: vec![],
        scc_sub_blocks: vec![],
        assignments: vec![Assignment {
            lv: Place { local: 0, projection: vec![] },
            rv: Place { local: 1, projection: vec![] },
            atype: AssignType::Copy,
            span: 0,
        }],
        calls: vec![],
        drops: vec![],
        switch_stmts: vec![],
        const_value: vec![],
        is_cleanup: false,
    }];
    m.scc_indices = vec![0];
    let fn_map: HashMap<u64, FnRetAlias> = HashMap::new();
    m.split_check(0, &fn_map);
    assert_eq!(m.values.values[0].alias, vec![0]);
    assert_eq!(m.ret_alias.alias_vec.len(), 1);
}

#[test]
fn check_at_the_visit_limit_only_counts_the_visit() {
    let mut m = mop(locals(2), 1);
    m.blocks = vec![BlockNode {
        next: vec![],
        scc_sub_blocks: vec![],
        assignments: vec![Assignment {
            lv: Place { local: 0, projection: vec![] },
            rv: Place { local: 1, projection: vec![] },
            atype: AssignType::Copy,
            span: 0,
        }],
        calls: vec![],
        drops: vec![],
        switch_stmts: vec![],
        const_value: vec![(5, 7)],
        is_cleanup: false,
    }];
    m.scc_indices = vec![0];
    m.visit_times = 100;
    let fn_map: HashMap<u64, FnRetAlias> = HashMap::new();
    m.check(0, &fn_map);
    assert_eq!(m.visit_times, 101);
    assert!(m.constant.is_empty());
    assert!(m.ret_alias.alias_vec.is_empty());
    assert_eq!(m.values.values[0].alias, vec![0]);
    m.visit_times = 500;
    m.check(0, &fn_map);
    assert_eq!(m.visit_times, 501);
    assert!(m.ret_alias.alias_vec.is_empty());
}

#[test]
fn check_on_two_successors_explores_both_paths() {
    let mut m = mop(locals(3), 2);
    let asg = |l: usize, r: usize| Assignment {
        lv: Place { local: l, projection: vec![] },
        rv: Place { local: r, projection: vec![] },
        atype: AssignType::Copy,
        span: 0,
    };
    let blk = |next: Vec<usize>, assignments: Vec<Assignment>| BlockNode {
        next,
        scc_sub_blocks: vec![],
        assignments,
        calls: vec![],
        drops: vec![],
        switch_stmts: vec![],
        const_value: vec![],
        is_cleanup: false,
    };
    m.blocks = vec![blk(vec![1, 2], vec![]), blk(vec![], vec![asg(0, 1)]), blk(vec![], vec![asg(0, 2)])];
    m.scc_indices = vec![0, 1, 2];
    let fn_map: HashMap<u64, FnRetAlias> = HashMap::new();
    m.check(0, &fn_map);
    // one alias per path: the return value with argument 1, then with argument 2
    assert_eq!(m.visit_times, 3);
    assert_eq!(m.ret_alias.alias_vec.len(), 2);
    assert_eq!(m.ret_alias.alias_vec[0].right_index, 1);
    assert_eq!(m.ret_alias.alias_vec[1].right_index, 2);
    // the split paths leave the graph as it was
    assert_eq!(m.values.values[0].alias, vec![0]);
}

#[test]
fn merge_alias_merges_the_alias_lists_of_matching_fields() {
    let mut g = locals(3);
    let a = g.push_field_node(0, 0, 0, true, true, TyKind::Adt, 0);
    let b = g.push_field_node(1, 0, 1, true, true, TyKind::Adt, 0);
    let a2 = g.push_field_node(a, 1, 0, true, true, TyKind::Ref, 0);
    let b2 = g.push_field_node(b, 1, 1, true, true, TyKind::Ref, 0);
    g.values[b].alias = vec![2];
    g.values[a2].alias = vec![0, 1];
    g.values[b2].alias = vec![2];
    let mut m = mop(g, 2);
    m.merge_alias(0, 1);
    // no node is added: every field path of local 1 exists below local 0
    assert_eq!(m.values.values.len(), 7);
    // a list of one entry is replaced, a longer one is extended
    assert_eq!(m.values.values[a].alias, vec![2]);
    assert_eq!(m.values.values[a2].alias, vec![0, 1, 2]);
    assert_eq!(m.values.values[b].alias, vec![2]);
}

#[test]
fn check_records_the_summary_beside_a_nested_field_of_another_local() {
    let mut g = locals(4);
    let a = g.push_field_node(3, 0, 3, true, true, TyKind::Adt, 0);
    let b = g.push_field_node(a, 0, 3, true, true, TyKind::Adt, 0);
    // a field of a field, on a local that is neither an argument nor the result
    g.values[b].father = a;
    let mut m = mop(g, 1);
    m.blocks = vec![BlockNode {
        next: vec![],
        scc_sub_blocks: vec![],
        assignments: vec![Assignment {
            lv: Place { local: 0, projection: vec![] },
            rv: Place { local: 1, projection: vec![] },
            atype: AssignType::Copy,
            span: 0,
        }],
        calls: vec![],
        drops: vec![],
        switch_stmts: vec![],
        const_value: vec![],
        is_cleanup: false,
    }];
    m.scc_indices = vec![0];
    let fn_map: HashMap<u64, FnRetAlias> = HashMap::new();
    m.check(0, &fn_map);
    assert_eq!(m.ret_alias.alias_vec.len(), 1);
    assert_eq!(m.ret_alias.alias_vec[0].right_index, 1);
}
