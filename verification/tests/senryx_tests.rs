use rap::abstract_state::{AbstractState, AbstractStateItem, AllocatedState, Op, StateType, Value};
use rap::contract::{check_contract, handle_state_op, handle_value_op, match_unsafe_api_and_check_contracts, output_results, Contract, Finding, Operand};
use rap::inter_record::InterAnalysisRecord;
use rap::body_visitor::BodyVisitor;

fn item(low: usize, high: usize, states: Vec<StateType>) -> AbstractStateItem {
    AbstractStateItem { value: (Value::Usize(low), Value::Usize(high)), state: states }
}

#[test]
fn value_operators() {
    assert!(handle_value_op(&(Value::Usize(2), Value::Usize(5)), Op::GE, Value::Usize(2)));
    assert!(!handle_value_op(&(Value::Usize(2), Value::Usize(5)), Op::GT, Value::Usize(2)));
    assert!(handle_value_op(&(Value::Usize(2), Value::Usize(5)), Op::LE, Value::Usize(5)));
}

#[test]
fn state_operators() {
    let alloc = StateType::AllocatedState(AllocatedState::Alloc);
    let moved = StateType::AllocatedState(AllocatedState::Moved);
    assert!(handle_state_op(alloc, Op::EQ, alloc));
    assert!(!handle_state_op(alloc, Op::EQ, moved));
}

#[test]
fn contracts_are_checked_against_items() {
    let it = item(0, 10, vec![StateType::AllocatedState(AllocatedState::Alloc)]);
    assert!(check_contract(Contract::ValueCheck { op: Op::GE, value: Value::Usize(0) }, &it));
    assert!(check_contract(
        Contract::StateCheck { op: Op::EQ, state: StateType::AllocatedState(AllocatedState::Alloc) },
        &it
    ));
}

#[test]
fn findings_by_level() {
    assert_eq!(output_results(0, 2), Some(Finding::Bug));
    assert_eq!(output_results(2, 2), Some(Finding::Unsoundness));
    assert_eq!(output_results(3, 2), None);
}

#[test]
fn pre_states_compare_as_maps_of_sets() {
    let mut a = AbstractState::new();
    a.state_map.insert(1, item(0, 4, vec![
        StateType::AllocatedState(AllocatedState::Alloc),
        StateType::AllocatedState(AllocatedState::Borrowed),
    ]));
    let mut b = AbstractState::new();
    b.state_map.insert(1, item(0, 4, vec![
        StateType::AllocatedState(AllocatedState::Borrowed),
        StateType::AllocatedState(AllocatedState::Alloc),
    ]));
    let mut c = AbstractState::new();
    c.state_map.insert(1, item(0, 5, vec![StateType::AllocatedState(AllocatedState::Alloc)]));
    let rec = InterAnalysisRecord::new(a, AbstractState::new());
    assert!(rec.is_pre_state_same(&b));
    assert!(!rec.is_pre_state_same(&c));
    assert!(!rec.is_pre_state_same(&AbstractState::new()));
}

#[test]
fn callee_reports_keep_the_most_severe_level() {
    let mut v = BodyVisitor::new(3, 0);
    v.update_callee_report_level("ptr::read".to_string(), 2);
    v.update_callee_report_level("slice::from_raw_parts".to_string(), 3);
    v.update_callee_report_level("ptr::read".to_string(), 0);
    v.update_callee_report_level("ptr::read".to_string(), 1);
    assert_eq!(v.unsafe_callee_report, vec![("ptr::read".to_string(), 0), ("slice::from_raw_parts".to_string(), 3)]);
    let found = v.output_results(2);
    assert_eq!(found.len(), 1);
    assert_eq!(found[0].0, "ptr::read");
    assert_eq!(found[0].1, Finding::Bug);
    assert_eq!(v.output_results(3).len(), 2);
}

#[test]
fn slice_contracts_look_up_the_argument_state() {
    let mut st = AbstractState::new();
    st.state_map.insert(3, item(0, 4, vec![StateType::AllocatedState(AllocatedState::Borrowed)]));
    let args = vec![Operand::Copy(3), Operand::Constant];
    let failed = match_unsafe_api_and_check_contracts::<u32>("std::slice::from_raw_parts::<u32>", &args, &st);
    assert_eq!(failed, vec![Contract::StateCheck { op: Op::EQ, state: StateType::AllocatedState(AllocatedState::Alloc) }]);
    let none = match_unsafe_api_and_check_contracts::<u32>("std::slice::from_raw_parts::<u32>", &vec![Operand::Copy(5), Operand::Constant], &st);
    assert!(none.is_empty());
}

#[test]
fn item_states_are_held_as_a_set() {
    let mut it = item(0, 4, vec![StateType::AllocatedState(AllocatedState::Alloc)]);
    it.insert_state(StateType::AllocatedState(AllocatedState::Alloc));
    assert_eq!(it.state.len(), 1);
    it.insert_state(StateType::AllocatedState(AllocatedState::Borrowed));
    assert_eq!(it.state, vec![
        StateType::AllocatedState(AllocatedState::Alloc),
        StateType::AllocatedState(AllocatedState::Borrowed),
    ]);
}
