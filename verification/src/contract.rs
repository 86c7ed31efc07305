use vstd::prelude::*;
use crate::abstract_state::{AbstractState, AbstractStateItem, AllocatedState, Op, StateType, Value};
use crate::state_lattice::{same_family, state_less_than, Lattice};

verus! {

broadcast use vstd::std_specs::hash::group_hash_axioms;

/// A requirement that an unsafe API places on one of its arguments.
#[derive(Debug, PartialEq, Eq, Structural, Copy, Clone)]
pub enum Contract {
    ValueCheck { op: Op, value: Value },
    StateCheck { op: Op, state: StateType },
}

/// The position of a value's variant in the declaration of `Value`.
pub open spec fn value_rank(v: Value) -> int {
    match v {
        Value::Usize(_) => 0,
        Value::Isize(_) => 1,
        Value::U32(_) => 2,
        Value::Custom() => 3,
    }
}

/// The order on values: first by variant, then by the carried number.
pub open spec fn value_lt(a: Value, b: Value) -> bool {
    match (a, b) {
        (Value::Usize(x), Value::Usize(y)) => x < y,
        (Value::Isize(x), Value::Isize(y)) => x < y,
        (Value::U32(x), Value::U32(y)) => x < y,
        (Value::Custom(), Value::Custom()) => false,
        _ => value_rank(a) < value_rank(b),
    }
}

pub open spec fn value_le(a: Value, b: Value) -> bool {
    value_lt(a, b) || a == b
}

/// Whether the interval `left = (low, high)` satisfies `op right`:
/// equality tests use the low end, `<`/`<=` the high end and `>`/`>=` the low end.
pub open spec fn value_op_holds(left: (Value, Value), op: Op, right: Value) -> bool {
    match op {
        Op::EQ => left.0 == right,
        Op::NE => left.0 != right,
        Op::LT => value_lt(left.1, right),
        Op::GT => value_lt(right, left.0),
        Op::LE => value_le(left.1, right),
        Op::GE => value_le(right, left.0),
    }
}

/// The order on values is transitive.
pub proof fn lemma_value_lt_trans(a: Value, b: Value, c: Value)
    requires
        value_lt(a, b),
        value_lt(b, c),
    ensures
        value_lt(a, c),
{
}

/// `<=` on values is transitive, and `<` followed by `<=` (or the other
/// way round) is `<`.
pub proof fn lemma_value_le_trans(a: Value, b: Value, c: Value)
    requires
        value_le(a, b),
        value_le(b, c),
    ensures
        value_le(a, c),
        value_lt(a, b) || value_lt(b, c) ==> value_lt(a, c),
{
    if value_lt(a, b) && value_lt(b, c) {
        lemma_value_lt_trans(a, b, c);
    }
}

/// A value check compares the whole interval `(low, high)` of an item
/// with its bound: `<=` and `<` hold exactly when every value of the
/// interval is below the bound, which is decided by the high end, and
/// `>=` and `>` exactly when every value is above it, decided by the low
/// end. In particular an interval whose high end exceeds the bound never
/// meets `<=`, and one whose low end is below the bound never meets `>=`.
pub proof fn lemma_value_checks_cover_interval(item: AbstractStateItem, r: Value, v: Value)
    requires
        value_le(item.value.0, item.value.1),
    ensures
        contract_holds(Contract::ValueCheck { op: Op::LE, value: r }, item) <==> value_le(item.value.1, r),
        contract_holds(Contract::ValueCheck { op: Op::LT, value: r }, item) <==> value_lt(item.value.1, r),
        contract_holds(Contract::ValueCheck { op: Op::GE, value: r }, item) <==> value_le(r, item.value.0),
        contract_holds(Contract::ValueCheck { op: Op::GT, value: r }, item) <==> value_lt(r, item.value.0),
        value_le(item.value.0, v) && value_le(v, item.value.1) ==> {
            &&& contract_holds(Contract::ValueCheck { op: Op::LE, value: r }, item) ==> value_le(v, r)
            &&& contract_holds(Contract::ValueCheck { op: Op::LT, value: r }, item) ==> value_lt(v, r)
            &&& contract_holds(Contract::ValueCheck { op: Op::GE, value: r }, item) ==> value_le(r, v)
            &&& contract_holds(Contract::ValueCheck { op: Op::GT, value: r }, item) ==> value_lt(r, v)
        },
{
    let (lo, hi) = item.value;
    if value_le(lo, v) && value_le(v, hi) {
        if value_le(hi, r) {
            lemma_value_le_trans(v, hi, r);
        }
        if value_lt(hi, r) {
            lemma_value_le_trans(v, hi, r);
        }
        if value_le(r, lo) {
            lemma_value_le_trans(r, lo, v);
        }
        if value_lt(r, lo) {
            lemma_value_le_trans(r, lo, v);
        }
    }
}

/// Whether the state `left` satisfies `op right` in the state order.
pub open spec fn state_op_holds(left: StateType, op: Op, right: StateType) -> bool {
    match op {
        Op::LT => state_less_than(left, right),
        Op::LE => state_less_than(left, right) || left == right,
        Op::GT => state_less_than(right, left),
        Op::GE => state_less_than(right, left) || right == left,
        Op::EQ => left == right,
        Op::NE => left != right,
    }
}

/// A contract can be checked against an item: a state check only meets
/// states of its own family.
pub open spec fn contract_checkable(contract: Contract, item: AbstractStateItem) -> bool {
    match contract {
        Contract::ValueCheck { .. } => true,
        Contract::StateCheck { state, .. } => forall|i: int|
            0 <= i < item.state@.len() ==> same_family(#[trigger] item.state@[i], state),
    }
}

/// Whether an item satisfies a contract: a value check on its interval, a state
/// check by at least one of its states.
pub open spec fn contract_holds(contract: Contract, item: AbstractStateItem) -> bool {
    match contract {
        Contract::ValueCheck { op, value } => value_op_holds(item.value, op, value),
        Contract::StateCheck { op, state } => exists|i: int|
            0 <= i < item.state@.len() && state_op_holds(#[trigger] item.state@[i], op, state),
    }
}

pub fn value_lt_exec(a: Value, b: Value) -> (res: bool)
    ensures
        res == value_lt(a, b),
{
    match (a, b) {
        (Value::Usize(x), Value::Usize(y)) => x < y,
        (Value::Isize(x), Value::Isize(y)) => x < y,
        (Value::U32(x), Value::U32(y)) => x < y,
        (Value::Custom(), Value::Custom()) => false,
        _ => rank_of(a) < rank_of(b),
    }
}

fn rank_of(v: Value) -> (r: u8)
    ensures
        r as int == value_rank(v),
{
    match v {
        Value::Usize(_) => 0,
        Value::Isize(_) => 1,
        Value::U32(_) => 2,
        Value::Custom() => 3,
    }
}

/// Checks `left op right` for a value interval.
pub fn handle_value_op(left: &(Value, Value), op: Op, right: Value) -> (res: bool)
    ensures
        res == value_op_holds(*left, op, right),
{
    match op {
        Op::EQ => left.0 == right,
        Op::NE => left.0 != right,
        Op::LT => value_lt_exec(left.1, right),
        Op::GT => value_lt_exec(right, left.0),
        Op::LE => value_lt_exec(left.1, right) || left.1 == right,
        Op::GE => value_lt_exec(right, left.0) || right == left.0,
    }
}

/// Checks `left op right` for two states of one family.
pub fn handle_state_op(left: StateType, op: Op, right: StateType) -> (res: bool)
    requires
        same_family(left, right),
    ensures
        res == state_op_holds(left, op, right),
{
    match op {
        Op::LT => left.less_than(right),
        Op::LE => left.less_than(right) || left.equal(right),
        Op::GT => right.less_than(left),
        Op::GE => right.less_than(left) || right.equal(left),
        Op::EQ => left.equal(right),
        Op::NE => !left.equal(right),
    }
}

/// Checks one contract against the abstract item of an argument.
pub fn check_contract(contract: Contract, abstate_item: &AbstractStateItem) -> (res: bool)
    requires
        contract_checkable(contract, *abstate_item),
    ensures
        res == contract_holds(contract, *abstate_item),
{
    match contract {
        Contract::ValueCheck { op, value } => {
            return handle_value_op(&abstate_item.value, op, value);
        },
        Contract::StateCheck { op, state } => {
            let mut i: usize = 0;
            while i < abstate_item.state.len()
                invariant
                    i <= abstate_item.state@.len(),
                    contract_checkable(contract, *abstate_item),
                    contract == (Contract::StateCheck { op, state }),
                    forall|j: int|
                        0 <= j < i ==> !state_op_holds(abstate_item.state@[j], op, state),
                decreases abstate_item.state@.len() - i,
            {
                let ab_state = abstate_item.state[i];
                assert(same_family(abstate_item.state@[i as int], state));
                if handle_state_op(ab_state, op, state) {
                    return true;
                }
                i = i + 1;
            }
            return false;
        },
    }
}


/// An argument of a call: a place (by its local) that is copied or moved, or a constant.
#[derive(Debug, PartialEq, Eq, Structural, Copy, Clone)]
pub enum Operand {
    Copy(usize),
    Move(usize),
    Constant,
}

/// The local an operand reads, or `0` for a constant.
pub open spec fn arg_place(arg: Operand) -> usize {
    match arg {
        Operand::Copy(p) => p,
        Operand::Move(p) => p,
        Operand::Constant => 0,
    }
}

pub fn get_arg_place(arg: &Operand) -> (res: usize)
    ensures
        res == arg_place(*arg),
{
    match arg {
        Operand::Move(place) => *place,
        Operand::Copy(place) => *place,
        _ => 0,
    }
}

/// The abstract view of a table of contracts per argument index.
pub open spec fn table_view(t: Seq<(usize, Vec<Contract>)>) -> Seq<(usize, Seq<Contract>)> {
    t.map_values(|p: (usize, Vec<Contract>)| (p.0, p.1@))
}

/// The table laid out as one list of (argument index, contract) pairs, in order.
pub open spec fn flatten_table(t: Seq<(usize, Seq<Contract>)>) -> Seq<(usize, Contract)>
    decreases t.len(),
{
    if t.len() == 0 {
        Seq::empty()
    } else {
        let row = t.last();
        flatten_table(t.drop_last()) + row.1.map_values(|c: Contract| (row.0, c))
    }
}

/// Checking the pairs against a call's arguments reaches no out-of-range
/// argument and no state check against states of another family.
pub open spec fn checks_well_defined(pairs: Seq<(usize, Contract)>, args: Seq<Operand>, st: AbstractState) -> bool
    decreases pairs.len(),
{
    if pairs.len() == 0 {
        true
    } else {
        let (idx, c) = pairs[0];
        &&& idx < args.len()
        &&& arg_place(args[idx as int]) != 0 ==> {
            &&& (st.item_at(arg_place(args[idx as int])) matches Some(item) ==> contract_checkable(c, item))
            &&& checks_well_defined(pairs.drop_first(), args, st)
        }
    }
}

/// The contracts that fail, in order. Checking stops at the first argument
/// that is a constant; an argument without an abstract item passes.
pub open spec fn failed_checks(pairs: Seq<(usize, Contract)>, args: Seq<Operand>, st: AbstractState) -> Seq<Contract>
    decreases pairs.len(),
{
    if pairs.len() == 0 {
        Seq::empty()
    } else {
        let (idx, c) = pairs[0];
        let place = arg_place(args[idx as int]);
        if place == 0 {
            Seq::empty()
        } else {
            match st.item_at(place) {
                Some(item) => if !contract_holds(c, item) {
                    seq![c] + failed_checks(pairs.drop_first(), args, st)
                } else {
                    failed_checks(pairs.drop_first(), args, st)
                },
                None => failed_checks(pairs.drop_first(), args, st),
            }
        }
    }
}

/// A set of argument contracts of one unsafe API.
pub trait Checker {
    spec fn contracts(&self) -> Seq<(usize, Seq<Contract>)>;

    fn variable_contracts(&self) -> (res: &Vec<(usize, Vec<Contract>)>)
        ensures
            table_view(res@) == self.contracts(),
    ;
}

/// The contracts of `std::slice::from_raw_parts::<T>`: the pointer (argument 0)
/// is non-negative and allocated; the length (argument 1) is at most
/// `isize::MAX / size_of::<T>()`.
pub struct SliceFromRawPartsChecker<T> {
    pub variable_contracts: Vec<(usize, Vec<Contract>)>,
    pub marker: Option<T>,
}

/// The contract table for `from_raw_parts` of elements of `elem_size` bytes.
pub open spec fn slice_from_raw_parts_table(elem_size: nat) -> Seq<(usize, Seq<Contract>)> {
    seq![
        (0usize, seq![
            Contract::ValueCheck { op: Op::GE, value: Value::Usize(0) },
            Contract::StateCheck { op: Op::EQ, state: StateType::AllocatedState(AllocatedState::Alloc) },
        ]),
        (1usize, seq![
            Contract::ValueCheck { op: Op::LE, value: Value::Usize((isize::MAX as usize as nat / elem_size) as usize) },
        ]),
    ]
}

impl<T> Checker for SliceFromRawPartsChecker<T> {
    open spec fn contracts(&self) -> Seq<(usize, Seq<Contract>)> {
        table_view(self.variable_contracts@)
    }

    fn variable_contracts(&self) -> (res: &Vec<(usize, Vec<Contract>)>) {
        &self.variable_contracts
    }
}

impl<T> SliceFromRawPartsChecker<T> {
    pub fn new() -> (res: Self)
        requires
            vstd::layout::size_of::<T>() > 0,
        ensures
            res.contracts() == slice_from_raw_parts_table(vstd::layout::size_of::<T>()),
    {
        let size = core::mem::size_of::<T>();
        let bound: usize = (isize::MAX as usize) / size;
        let c0 = vec![
            Contract::ValueCheck { op: Op::GE, value: Value::Usize(0) },
            Contract::StateCheck { op: Op::EQ, state: StateType::AllocatedState(AllocatedState::Alloc) },
        ];
        let c1 = vec![Contract::ValueCheck { op: Op::LE, value: Value::Usize(bound) }];
        let ghost v0 = c0@;
        let ghost v1 = c1@;
        assert(v0 =~= seq![
            Contract::ValueCheck { op: Op::GE, value: Value::Usize(0) },
            Contract::StateCheck { op: Op::EQ, state: StateType::AllocatedState(AllocatedState::Alloc) },
        ]);
        assert(v1 =~= seq![Contract::ValueCheck { op: Op::LE, value: Value::Usize(bound) }]);
        assert(bound == (isize::MAX as usize as nat / vstd::layout::size_of::<T>()) as usize);
        let map = vec![(0usize, c0), (1usize, c1)];
        let res = Self { variable_contracts: map, marker: None };
        assert(res.variable_contracts@[0].1@ == v0);
        assert(res.variable_contracts@[1].1@ == v1);
        assert(res.contracts() =~= slice_from_raw_parts_table(vstd::layout::size_of::<T>()));
        res
    }
}

proof fn lemma_flatten_push(t: Seq<(usize, Seq<Contract>)>, i: int)
    requires
        0 <= i < t.len(),
    ensures
        flatten_table(t.take(i + 1)) == flatten_table(t.take(i)) + t[i].1.map_values(
            |c: Contract| (t[i].0, c),
        ),
{
    assert(t.take(i + 1).drop_last() =~= t.take(i));
}

fn flatten_contracts(table: &Vec<(usize, Vec<Contract>)>) -> (res: Vec<(usize, Contract)>)
    ensures
        res@ == flatten_table(table_view(table@)),
{
    let ghost t = table_view(table@);
    let mut out: Vec<(usize, Contract)> = Vec::new();
    let mut i: usize = 0;
    while i < table.len()
        invariant
            t == table_view(table@),
            i <= table@.len(),
            out@ == flatten_table(t.take(i as int)),
        decreases table@.len() - i,
    {
        let idx = table[i].0;
        let row = &table[i].1;
        let ghost before = out@;
        let mut j: usize = 0;
        while j < row.len()
            invariant
                t == table_view(table@),
                i < table@.len(),
                idx == table@[i as int].0,
                row == table@[i as int].1,
                j <= row@.len(),
                out@ == before + row@.take(j as int).map_values(|c: Contract| (idx, c)),
            decreases row@.len() - j,
        {
            out.push((idx, row[j]));
            assert(row@.take(j + 1).map_values(|c: Contract| (idx, c)) =~= row@.take(
                j as int,
            ).map_values(|c: Contract| (idx, c)).push((idx, row@[j as int])));
            j = j + 1;
        }
        proof {
            lemma_flatten_push(t, i as int);
            assert(row@.take(j as int) =~= row@);
            assert(t[i as int].1 == row@);
        }
        i = i + 1;
    }
    assert(t.take(table@.len() as int) =~= t);
    out
}

/// Runs a checker on the arguments of a call and returns the contracts that
/// fail, in order.
pub fn process_checker<C: Checker>(checker: &C, args: &Vec<Operand>, abstate: &AbstractState) -> (res: Vec<Contract>)
    requires
        checks_well_defined(flatten_table(checker.contracts()), args@, *abstate),
    ensures
        res@ == failed_checks(flatten_table(checker.contracts()), args@, *abstate),
{
    let pairs = flatten_contracts(checker.variable_contracts());
    let ghost ps = pairs@;
    let mut failed: Vec<Contract> = Vec::new();
    let mut i: usize = 0;
    assert(ps.skip(0) =~= ps);
    assert(failed@ + failed_checks(ps, args@, *abstate) =~= failed_checks(ps, args@, *abstate));
    while i < pairs.len()
        invariant
            ps == pairs@,
            ps == flatten_table(checker.contracts()),
                i <= ps.len(),
            checks_well_defined(ps.skip(i as int), args@, *abstate),
            failed_checks(ps, args@, *abstate) == failed@ + failed_checks(ps.skip(i as int), args@, *abstate),
        decreases ps.len() - i,
    {
        let (idx, contract) = pairs[i];
        assert(ps.skip(i as int)[0] == ps[i as int]);
        assert(ps.skip(i as int).drop_first() =~= ps.skip(i + 1));
        let arg_place = get_arg_place(&args[idx]);
        if arg_place == 0 {
            assert(failed_checks(ps.skip(i as int), args@, *abstate) =~= Seq::<Contract>::empty());
            assert(failed@ + Seq::<Contract>::empty() =~= failed@);
            return failed;
        }
        match abstate.state_map.get(&arg_place) {
            Some(item) => {
                if !check_contract(contract, item) {
                    failed.push(contract);
                    proof {
                        let f0 = failed@.drop_last();
                        assert(f0 + (seq![contract] + failed_checks(ps.skip(i + 1), args@, *abstate))
                            =~= failed@ + failed_checks(ps.skip(i + 1), args@, *abstate));
                    }
                }
            },
            None => {},
        }
        i = i + 1;
    }
    assert(ps.skip(ps.len() as int) =~= Seq::<(usize, Contract)>::empty());
    assert(failed@ + Seq::<Contract>::empty() =~= failed@);
    failed
}

/// Checks the contracts of the unsafe API named `func_name` (if it is one that
/// has a checker) against the call's arguments; returns the contracts that fail.
pub fn match_unsafe_api_and_check_contracts<T>(
    func_name: &str,
    args: &Vec<Operand>,
    abstate: &AbstractState,
) -> (res: Vec<Contract>)
    requires
        crate::text::before_first(func_name@, '<') == "std::slice::from_raw_parts::"@ ==> {
            &&& vstd::layout::size_of::<T>() > 0
            &&& checks_well_defined(
                flatten_table(slice_from_raw_parts_table(vstd::layout::size_of::<T>())),
                args@,
                *abstate,
            )
        },
    ensures
        crate::text::before_first(func_name@, '<') == "std::slice::from_raw_parts::"@ ==> res@
            == failed_checks(
            flatten_table(slice_from_raw_parts_table(vstd::layout::size_of::<T>())),
            args@,
            *abstate,
        ),
        crate::text::before_first(func_name@, '<') != "std::slice::from_raw_parts::"@ ==> res@.len()
            == 0,
{
    let base_func_name = crate::text::prefix_before(func_name, '<');
    if crate::text::str_eq(base_func_name, "std::slice::from_raw_parts::") {
        let checker = SliceFromRawPartsChecker::<T>::new();
        process_checker(&checker, args, abstate)
    } else {
        Vec::new()
    }
}

/// What a finding is reported as: level 0 is a bug, levels up to the
/// threshold are unsoundness issues, higher levels are not reported.
#[derive(Debug, PartialEq, Eq, Structural, Copy, Clone)]
pub enum Finding {
    Bug,
    Unsoundness,
}

pub fn output_results(level: usize, threshold: usize) -> (res: Option<Finding>)
    ensures
        level == 0 ==> res == Some(Finding::Bug),
        level != 0 && level <= threshold ==> res == Some(Finding::Unsoundness),
        level != 0 && level > threshold ==> res is None,
{
    if level == 0 {
        Some(Finding::Bug)
    } else if level <= threshold {
        Some(Finding::Unsoundness)
    } else {
        None
    }
}

} // verus!
