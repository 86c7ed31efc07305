use rap::bv_term::{var_name_text, BvTerm, Formula, NameTag, VarName};
use rap::kinds::AsgnKind;
use rap::intra_flow::{FlowBlock, FlowOperand, FlowPlace, FlowRvalue, FlowStmt, FlowTerm, IcxSlice, IntraFlowAnalysis, IntraVar, MEM_DROP_INDEX};
use rap::ownership::{DefaultOwnership, RawTypeOwner};
use rap::ty_layout::{FieldTy, IndexedTy, ProjElem, TyShape};

fn flow(n: usize, arg_count: usize) -> IntraFlowAnalysis {
    IntraFlowAnalysis {
        icx_slice: IcxSlice {
            len: vec![0; n],
            var: (0..n).map(|_| IntraVar::Declared).collect(),
            ty: vec![IndexedTy(None); n],
            layout: vec![vec![]; n],
            taint: vec![vec![]; n],
        },
        goal: vec![],
        local_tys: vec![TyShape::Scalar; n],
        arg_count,
        taint_flag: false,
        taint_source: vec![],
        icx_out: vec![],
        pre: vec![],
    }
}

fn var(local: usize, bidx: usize, sidx: usize, tag: NameTag, w: usize) -> BvTerm {
    BvTerm::Var(VarName { local, bidx, sidx, tag }, w)
}

fn place(local: usize, projection: Vec<ProjElem>, ty: TyShape) -> FlowPlace {
    FlowPlace { local, projection, ty, variant: None }
}

fn eq(a: BvTerm, b: BvTerm) -> Formula {
    Formula::Eq(a, b)
}

fn and(a: BvTerm, b: BvTerm) -> BvTerm {
    BvTerm::And(Box::new(a), Box::new(b))
}

fn pair_ty() -> TyShape {
    TyShape::Tuple(vec![
        FieldTy { ownership: DefaultOwnership::with(RawTypeOwner::Owned, false, false), is_ptr: false },
        FieldTy { ownership: DefaultOwnership::with(RawTypeOwner::Unowned, false, true), is_ptr: true },
    ])
}

fn init(f: &mut IntraFlowAnalysis, local: usize, w: usize) {
    f.icx_slice.var[local] = IntraVar::Init(var(local, 0, 0, NameTag::ArgInit, w));
    f.icx_slice.len[local] = w;
}

#[test]
fn variable_names_join_block_statement_and_local() {
    let n = VarName { local: 3, bidx: 1, sidx: 2, tag: NameTag::ArgInit };
    assert_eq!(var_name_text(&n), "1_2_3_arg_init");
    let p = VarName { local: 10, bidx: 0, sidx: 7, tag: NameTag::Plain };
    assert_eq!(var_name_text(&p), "0_7_10");
}

#[test]
fn a_move_hands_all_bits_to_the_new_local() {
    let mut f = flow(3, 1);
    init(&mut f, 1, 1);
    f.icx_slice.ty[1] = IndexedTy(Some((1, None, true)));
    let l = place(2, vec![], TyShape::RawPtr);
    let r = place(1, vec![], TyShape::RawPtr);
    f.handle_move(AsgnKind::Assign, &l, &r, None, 3, 4);
    let old = var(1, 0, 0, NameTag::ArgInit, 1);
    assert_eq!(
        f.goal,
        vec![
            eq(var(1, 3, 4, NameTag::Plain, 1), BvTerm::Lit(0, 1)),
            eq(var(2, 3, 4, NameTag::CtorAsgn, 1), old),
        ]
    );
    assert_eq!(f.icx_slice.var[2], IntraVar::Init(var(2, 3, 4, NameTag::CtorAsgn, 1)));
    assert_eq!(f.icx_slice.var[1], IntraVar::Init(var(1, 3, 4, NameTag::Plain, 1)));
    assert_eq!(f.icx_slice.len[2], 1);
    assert_eq!(f.icx_slice.ty[2], IndexedTy(Some((1, None, true))));
}

#[test]
fn a_copy_leaves_exactly_one_owner() {
    let mut f = flow(3, 1);
    init(&mut f, 1, 1);
    f.icx_slice.ty[1] = IndexedTy(Some((1, None, true)));
    let l = place(2, vec![], TyShape::RawPtr);
    let r = place(1, vec![], TyShape::RawPtr);
    f.handle_copy(AsgnKind::Assign, &l, &r, None, 0, 1);
    let old = || var(1, 0, 0, NameTag::ArgInit, 1);
    let l_new = || var(2, 0, 1, NameTag::CtorAsgn, 1);
    let r_new = || var(1, 0, 1, NameTag::Plain, 1);
    let keep = Formula::And(Box::new(eq(r_new(), old())), Box::new(eq(l_new(), BvTerm::Lit(0, 1))));
    let give = Formula::And(Box::new(eq(l_new(), old())), Box::new(eq(r_new(), BvTerm::Lit(0, 1))));
    assert_eq!(f.goal, vec![Formula::Or(Box::new(keep), Box::new(give))]);
}

#[test]
fn assigning_between_different_types_is_unsupported() {
    let mut f = flow(3, 0);
    init(&mut f, 1, 1);
    init(&mut f, 2, 1);
    f.icx_slice.ty[1] = IndexedTy(Some((1, None, true)));
    f.icx_slice.ty[2] = IndexedTy(Some((2, None, true)));
    let l = place(2, vec![], TyShape::RawPtr);
    let r = place(1, vec![], TyShape::RawPtr);
    f.handle_move(AsgnKind::Assign, &l, &r, None, 0, 0);
    assert_eq!(f.icx_slice.var[1], IntraVar::Unsupported);
    assert_eq!(f.icx_slice.var[2], IntraVar::Unsupported);
    assert_eq!(f.icx_slice.len[2], 0);
    assert!(f.goal.is_empty());
}

#[test]
fn reading_an_unknown_local_does_nothing() {
    let mut f = flow(3, 0);
    let l = place(2, vec![], TyShape::RawPtr);
    let r = place(1, vec![], TyShape::RawPtr);
    f.handle_copy(AsgnKind::Assign, &l, &r, None, 0, 0);
    assert!(f.goal.is_empty());
    assert_eq!(f.icx_slice.var[2], IntraVar::Declared);
}

#[test]
fn moving_out_of_a_field_clears_that_field() {
    let mut f = flow(3, 1);
    init(&mut f, 1, 2);
    let l = place(2, vec![], TyShape::Param);
    let r = place(1, vec![ProjElem::Field(0)], TyShape::Param);
    f.handle_move_from_field(AsgnKind::Assign, &l, &r, None, 2, 5);
    let old = || var(1, 0, 0, NameTag::ArgInit, 2);
    let field = BvTerm::Extract(Box::new(old()), 0, 0);
    assert_eq!(
        f.goal,
        vec![
            eq(var(2, 2, 5, NameTag::CtorAsgn, 1), and(BvTerm::Lit(1, 1), field)),
            eq(var(1, 2, 5, NameTag::Plain, 2), and(old(), BvTerm::Lit(2, 2))),
        ]
    );
    assert_eq!(f.icx_slice.len[2], 1);
    assert_eq!(f.icx_slice.layout[2], vec![RawTypeOwner::Owned]);
}

#[test]
fn moving_into_a_field_of_a_new_value_sets_that_field() {
    let mut f = flow(3, 0);
    f.local_tys[1] = pair_ty();
    init(&mut f, 2, 1);
    let l = place(1, vec![ProjElem::Field(1)], TyShape::RawPtr);
    let r = place(2, vec![], TyShape::RawPtr);
    f.handle_move_to_field(AsgnKind::Assign, &l, &r, None, 4, 0);
    let bit = BvTerm::RedOr(Box::new(var(2, 0, 0, NameTag::ArgInit, 1)));
    let low = BvTerm::Extract(Box::new(BvTerm::Lit(0, 2)), 0, 0);
    assert_eq!(
        f.goal,
        vec![
            eq(var(1, 4, 0, NameTag::CtorAsgn, 2), BvTerm::Lit(0, 2)),
            eq(var(2, 4, 0, NameTag::Plain, 1), BvTerm::Lit(0, 1)),
            eq(var(1, 4, 0, NameTag::Plain, 2), BvTerm::Concat(Box::new(bit), Box::new(low))),
        ]
    );
    assert_eq!(f.icx_slice.len[1], 2);
    assert_eq!(f.icx_slice.layout[1], vec![RawTypeOwner::Owned, RawTypeOwner::Unowned]);
}

#[test]
fn a_field_moves_between_fields() {
    let mut f = flow(3, 0);
    f.local_tys[2] = pair_ty();
    init(&mut f, 1, 2);
    init(&mut f, 2, 2);
    let l = place(2, vec![ProjElem::Field(0)], TyShape::Param);
    let r = place(1, vec![ProjElem::Field(0)], TyShape::Param);
    f.handle_move_field_to_field(AsgnKind::Assign, &l, &r, None, 1, 1);
    let r_old = || var(1, 0, 0, NameTag::ArgInit, 2);
    let l_old = || var(2, 0, 0, NameTag::ArgInit, 2);
    let moved_bit = BvTerm::Extract(Box::new(r_old()), 0, 0);
    let high = BvTerm::Extract(Box::new(l_old()), 1, 1);
    assert_eq!(
        f.goal,
        vec![
            eq(BvTerm::Extract(Box::new(l_old()), 0, 0), BvTerm::Lit(0, 1)),
            eq(var(1, 1, 1, NameTag::Plain, 2), and(r_old(), BvTerm::Lit(2, 2))),
            eq(var(2, 1, 1, NameTag::Plain, 2), BvTerm::Concat(Box::new(high), Box::new(moved_bit))),
        ]
    );
}

#[test]
fn dropping_a_value_keeps_only_its_unowned_slots() {
    let mut f = flow(2, 0);
    init(&mut f, 1, 2);
    f.icx_slice.layout[1] = vec![RawTypeOwner::Owned, RawTypeOwner::Unowned];
    f.handle_drop(&place(1, vec![], pair_ty()), 5, false);
    let old = var(1, 0, 0, NameTag::ArgInit, 2);
    assert_eq!(f.goal, vec![eq(var(1, 5, 0, NameTag::DropAll, 2), and(old, BvTerm::Lit(2, 2)))]);
    assert_eq!(f.icx_slice.var[1], IntraVar::Init(var(1, 5, 0, NameTag::DropAll, 2)));
}

#[test]
fn dropping_an_owned_field_clears_its_bit() {
    let mut f = flow(2, 0);
    init(&mut f, 1, 2);
    f.icx_slice.layout[1] = vec![RawTypeOwner::Owned, RawTypeOwner::Unowned];
    f.handle_drop(&place(1, vec![ProjElem::Field(0)], TyShape::Param), 6, false);
    let high = BvTerm::Extract(Box::new(var(1, 0, 0, NameTag::ArgInit, 2)), 1, 1);
    assert_eq!(
        f.goal,
        vec![eq(var(1, 6, 0, NameTag::DropField, 2), BvTerm::Concat(Box::new(high), Box::new(BvTerm::Lit(0, 1))))]
    );
}

#[test]
fn a_call_that_turns_a_value_into_a_pointer_taints_and_reports() {
    let mut f = flow(3, 1);
    init(&mut f, 1, 1);
    f.icx_slice.layout[1] = vec![RawTypeOwner::Owned];
    let args = vec![FlowOperand::Move(place(1, vec![], TyShape::Param))];
    let dest = place(2, vec![], TyShape::RawPtr);
    f.handle_call(30, Some(12), &args, &dest, 2);
    assert!(f.taint_flag);
    assert_eq!(f.taint_source, vec![30]);
    assert_eq!(f.icx_slice.taint[2], vec![IndexedTy(Some((1, None, true)))]);
    assert_eq!(
        f.goal,
        vec![
            eq(var(1, 2, 0, NameTag::DropAll, 1), and(var(1, 0, 0, NameTag::ArgInit, 1), BvTerm::Lit(0, 1))),
            eq(var(2, 2, 0, NameTag::CtorFn, 1), BvTerm::Lit(1, 1)),
        ]
    );
    assert_eq!(f.icx_slice.var[2], IntraVar::Init(var(2, 2, 0, NameTag::CtorFn, 1)));
    f.handle_return(7);
    let ret = || var(2, 7, 0, NameTag::Return, 1);
    assert_eq!(
        f.goal[2],
        Formula::And(
            Box::new(eq(ret(), var(2, 2, 0, NameTag::CtorFn, 1))),
            Box::new(eq(ret(), BvTerm::Lit(0, 1)))
        )
    );
    assert_eq!(f.goal.len(), 3);
    assert_eq!(f.leak_report(true), Some(vec![30]));
    assert_eq!(f.leak_report(false), None);
}

#[test]
fn mem_drop_of_a_moved_adt_drops_it() {
    let mut f = flow(3, 1);
    init(&mut f, 1, 1);
    f.icx_slice.layout[1] = vec![RawTypeOwner::Owned];
    let args = vec![FlowOperand::Move(place(1, vec![], TyShape::Param))];
    let dest = place(2, vec![], TyShape::Adt(rap::ty_layout::AdtKind::Struct, vec![vec![]]));
    f.handle_call(9, Some(MEM_DROP_INDEX), &args, &dest, 1);
    assert_eq!(f.goal, vec![eq(var(1, 1, 0, NameTag::DropAll, 1), and(var(1, 0, 0, NameTag::ArgInit, 1), BvTerm::Lit(0, 1)))]);
    assert!(!f.taint_flag);
}

#[test]
fn a_pointer_passed_to_a_call_must_own_nothing() {
    let mut f = flow(3, 1);
    init(&mut f, 1, 1);
    f.icx_slice.layout[1] = vec![RawTypeOwner::Unowned];
    let args = vec![FlowOperand::Copy(place(1, vec![], TyShape::RawPtr))];
    let dest = place(2, vec![], TyShape::Scalar);
    f.handle_call(9, None, &args, &dest, 3);
    let old = || var(1, 0, 0, NameTag::ArgInit, 1);
    assert_eq!(
        f.goal,
        vec![eq(old(), BvTerm::Lit(0, 1)), eq(var(1, 3, 0, NameTag::ParamPass, 1), old())]
    );
    assert_eq!(f.icx_slice.var[1], IntraVar::Init(var(1, 3, 0, NameTag::ParamPass, 1)));
}

#[test]
fn visit_assign_routes_moves_and_ignores_constants() {
    let mut f = flow(3, 1);
    init(&mut f, 1, 1);
    f.icx_slice.ty[1] = IndexedTy(Some((1, None, true)));
    let l = place(2, vec![], TyShape::RawPtr);
    f.visit_assign(&l, &FlowRvalue::Use(FlowOperand::Constant), None, 0, 0);
    assert!(f.goal.is_empty());
    f.visit_assign(&l, &FlowRvalue::Use(FlowOperand::Move(place(1, vec![], TyShape::RawPtr))), None, 0, 1);
    assert_eq!(f.goal.len(), 2);
    assert_eq!(f.icx_slice.var[2], IntraVar::Init(var(2, 0, 1, NameTag::CtorAsgn, 1)));
}

#[test]
fn taint_is_merged_without_repeats() {
    let mut f = flow(3, 0);
    let a = IndexedTy(Some((1, None, true)));
    let b = IndexedTy(Some((2, None, false)));
    f.icx_slice.taint[1] = vec![a];
    f.icx_slice.taint[2] = vec![b, a];
    f.handle_taint(1, 2);
    assert_eq!(f.icx_slice.taint[1], vec![a, b]);
    f.handle_taint(0, 2);
    assert_eq!(f.icx_slice.taint[0], vec![b, a]);
}

fn slice(n: usize) -> IcxSlice {
    IcxSlice {
        len: vec![0; n],
        var: (0..n).map(|_| IntraVar::Declared).collect(),
        ty: vec![IndexedTy(None); n],
        layout: vec![vec![]; n],
        taint: vec![vec![]; n],
    }
}

#[test]
fn block_zero_starts_from_the_arguments() {
    let mut f = flow(4, 3);
    f.local_tys[1] = TyShape::Param;
    f.local_tys[2] = TyShape::RawPtr;
    f.local_tys[3] = TyShape::Other;
    f.icx_out = vec![slice(0)];
    f.preprocess_for_basic_block(0);
    assert_eq!(f.goal, vec![eq(var(1, 0, 0, NameTag::ArgInit, 1), BvTerm::Lit(1, 1))]);
    assert_eq!(f.icx_slice.var[1], IntraVar::Init(var(1, 0, 0, NameTag::ArgInit, 1)));
    assert_eq!(f.icx_slice.len[1], 1);
    assert_eq!(f.icx_slice.ty[1], IndexedTy(Some((1, None, true))));
    assert_eq!(f.icx_slice.var[2], IntraVar::Unsupported);
    assert_eq!(f.icx_slice.var[3], IntraVar::Declared);
    assert_eq!(f.icx_slice.var[0], IntraVar::Declared);
}

#[test]
fn paths_meet_in_a_phi_of_the_conjunction() {
    let mut f = flow(3, 0);
    let a = || var(1, 0, 0, NameTag::ArgInit, 1);
    let b = || var(1, 1, 0, NameTag::Plain, 1);
    let mut s0 = slice(3);
    s0.var[1] = IntraVar::Init(a());
    s0.len[1] = 1;
    s0.ty[1] = IndexedTy(Some((1, None, true)));
    s0.var[2] = IntraVar::Unsupported;
    let mut s1 = slice(3);
    s1.var[1] = IntraVar::Init(b());
    s1.len[1] = 1;
    s1.ty[1] = IndexedTy(Some((1, None, true)));
    f.icx_out = vec![s0, s1, slice(0)];
    f.pre = vec![vec![], vec![], vec![0, 1]];
    f.preprocess_for_basic_block(2);
    let conj = and(and(a(), a()), b());
    assert_eq!(f.goal, vec![eq(var(1, 2, 0, NameTag::Phi, 1), conj)]);
    assert_eq!(f.icx_slice.var[1], IntraVar::Init(var(1, 2, 0, NameTag::Phi, 1)));
    assert_eq!(f.icx_slice.var[0], IntraVar::Declared);
    assert_eq!(f.icx_slice.var[2], IntraVar::Unsupported);
}

#[test]
fn a_single_predecessor_hands_its_slice_on() {
    let mut f = flow(2, 0);
    let mut s0 = slice(2);
    s0.var[1] = IntraVar::Init(var(1, 0, 0, NameTag::Plain, 1));
    s0.len[1] = 1;
    f.icx_out = vec![s0, slice(0)];
    f.pre = vec![vec![], vec![0]];
    f.preprocess_for_basic_block(1);
    assert_eq!(f.icx_slice.var[1], IntraVar::Init(var(1, 0, 0, NameTag::Plain, 1)));
    assert!(f.goal.is_empty());
}

#[test]
fn a_block_is_visited_and_its_slice_recorded() {
    let mut f = flow(3, 1);
    f.local_tys[1] = TyShape::Param;
    f.icx_out = vec![slice(0)];
    let block = FlowBlock {
        statements: vec![
            FlowStmt::StorageLive(2),
            FlowStmt::Assign(place(2, vec![], TyShape::Param), FlowRvalue::Use(FlowOperand::Move(place(1, vec![], TyShape::Param)))),
        ],
        terminator: FlowTerm::Return,
    };
    f.visit_block_data(&block, 0);
    let arg = var(1, 0, 0, NameTag::ArgInit, 1);
    let moved = var(2, 0, 1, NameTag::CtorAsgn, 1);
    let ret = || var(2, 0, 0, NameTag::Return, 1);
    assert_eq!(
        f.goal,
        vec![
            eq(var(1, 0, 0, NameTag::ArgInit, 1), BvTerm::Lit(1, 1)),
            eq(var(1, 0, 1, NameTag::Plain, 1), BvTerm::Lit(0, 1)),
            eq(moved, arg),
            Formula::And(
                Box::new(eq(ret(), var(2, 0, 1, NameTag::CtorAsgn, 1))),
                Box::new(eq(ret(), BvTerm::Lit(0, 1)))
            ),
        ]
    );
    assert_eq!(f.icx_out[0].var[2], IntraVar::Init(var(2, 0, 1, NameTag::CtorAsgn, 1)));
    assert!(f.icx_slice.var.is_empty());
}
