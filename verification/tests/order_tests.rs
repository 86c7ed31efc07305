use rap::order::{NodeOrder, TermKind};

#[test]
fn edges_and_counts_are_collected() {
    let body = vec![
        TermKind::Goto(1),
        TermKind::SwitchInt(vec![2, 3]),
        TermKind::Goto(3),
        TermKind::Return,
    ];
    let mut order = NodeOrder::new(body);
    let mut lev = vec![0; 4];
    order.collect_edges(&mut lev);
    assert_eq!(order.graph.e, vec![vec![1], vec![2, 3], vec![3], vec![]]);
    assert_eq!(lev, vec![0, 1, 1, 2]);
    assert_eq!(order.graph.pre[3], vec![1, 2]);
    order.topo_order(&mut lev);
    assert_eq!(order.graph.topo, vec![0, 1, 2, 3]);
    assert_eq!(lev, vec![0, 0, 0, 0]);
}

#[test]
fn largest_available_block_goes_first() {
    let body = vec![
        TermKind::SwitchInt(vec![1, 2]),
        TermKind::Goto(3),
        TermKind::Goto(3),
        TermKind::Return,
    ];
    let mut order = NodeOrder::new(body);
    let mut lev = vec![0; 4];
    order.collect_edges(&mut lev);
    order.topo_order(&mut lev);
    assert_eq!(order.graph.topo, vec![0, 2, 1, 3]);
}

#[test]
fn unwinding_and_loops_are_left_out() {
    let body = vec![
        TermKind::Call(Some(1)),
        TermKind::Goto(2),
        TermKind::Goto(1),
        TermKind::Call(None),
    ];
    let mut order = NodeOrder::new(body);
    let mut lev = vec![0; 4];
    order.collect_edges(&mut lev);
    assert_eq!(lev, vec![0, 2, 1, 0]);
    order.topo_order(&mut lev);
    // block 1 waits for the back edge from block 2 and is never ordered
    assert_eq!(order.graph.topo, vec![0]);
}
