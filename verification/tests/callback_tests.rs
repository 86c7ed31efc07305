use rap::callback::RapCallback;

#[test]
fn default_callback_enables_nothing() {
    let cb = RapCallback::default();
    assert!(!cb.is_rcanary_enabled());
    assert!(!cb.is_mop_enabled());
    assert!(!cb.is_safedrop_enabled());
    assert_eq!(cb.is_unsafety_isolation_enabled(), 0);
    assert!(!cb.is_senryx_enabled());
    assert!(!cb.is_callgraph_enabled());
    assert!(!cb.is_show_mir_enabled());
}

#[test]
fn enabling_one_analysis_keeps_the_others() {
    let mut cb = RapCallback::default();
    cb.enable_safedrop();
    assert!(cb.is_safedrop_enabled());
    assert!(!cb.is_mop_enabled());
    cb.enable_unsafety_isolation(2);
    assert_eq!(cb.is_unsafety_isolation_enabled(), 2);
    cb.enable_dataflow(1);
    assert_eq!(cb.is_dataflow_enabled(), 1);
}
