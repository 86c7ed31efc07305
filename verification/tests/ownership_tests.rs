use rap::ownership::{DefaultOwnership, OwnershipLayoutResult, RawTypeOwner};
use rap::ty_layout::{
    extract_default_ty_layout, generate_ptr_layout, is_place_containing_ptr, new_local_name,
    ownership_layout_to_rustbv, reverse_ownership_layout_to_rustbv, rustbv_merge, rustbv_to_int, AdtKind,
    FieldTy, IndexedTy, TyShape,
};

fn field(res: RawTypeOwner, param: bool, ptr: bool, is_ptr: bool) -> FieldTy {
    FieldTy { ownership: DefaultOwnership::with(res, param, ptr), is_ptr }
}

#[test]
fn raw_type_owner_defaults_to_uninit() {
    assert_eq!(RawTypeOwner::default(), RawTypeOwner::Uninit);
    assert!(RawTypeOwner::Owned.is_owned());
    assert!(!RawTypeOwner::Unowned.is_owned());
}

#[test]
fn layout_result_update_collects_flags() {
    let mut r = OwnershipLayoutResult::new();
    assert!(r.is_empty());
    r.update_from_default_ownership_visitor(&DefaultOwnership::with(RawTypeOwner::Unowned, true, true));
    assert!(r.get_requirement());
    assert!(!r.is_owned());
    assert!(r.get_param());
    r.update_from_default_ownership_visitor(&DefaultOwnership::with(RawTypeOwner::Owned, false, false));
    assert!(r.is_owned());
    assert!(!r.get_param());
    assert_eq!(r.layout(), &vec![RawTypeOwner::Unowned, RawTypeOwner::Owned]);
}

#[test]
fn default_layout_of_a_struct_lists_its_fields() {
    let shape = TyShape::Adt(
        AdtKind::Struct,
        vec![vec![field(RawTypeOwner::Owned, false, false, false), field(RawTypeOwner::Unowned, false, false, false)]],
    );
    let r = extract_default_ty_layout(&shape, None);
    assert_eq!(r.layout(), &vec![RawTypeOwner::Owned, RawTypeOwner::Unowned]);
    assert!(r.is_owned());
    assert!(r.is_requirement_true());
}

#[test]
fn default_layout_of_an_enum_needs_a_variant() {
    let shape = TyShape::Adt(
        AdtKind::Enum,
        vec![vec![field(RawTypeOwner::Owned, false, false, false)], vec![]],
    );
    assert!(extract_default_ty_layout(&shape, None).is_empty());
    assert_eq!(extract_default_ty_layout(&shape, Some(0)).layout(), &vec![RawTypeOwner::Owned]);
    assert!(extract_default_ty_layout(&shape, Some(1)).is_empty());
}

#[test]
fn default_layout_of_parameters_and_pointers() {
    let p = extract_default_ty_layout(&TyShape::Param, None);
    assert_eq!(p.layout(), &vec![RawTypeOwner::Owned]);
    assert!(p.is_param_true() && p.is_owned() && p.is_requirement_true());
    let r = extract_default_ty_layout(&TyShape::Ref, None);
    assert_eq!(r.layout(), &vec![RawTypeOwner::Unowned]);
    assert!(r.is_requirement_true() && !r.is_owned());
    assert!(extract_default_ty_layout(&TyShape::Scalar, None).is_empty());
}

#[test]
fn pointer_layouts() {
    let tuple = TyShape::Tuple(vec![
        field(RawTypeOwner::Unowned, false, false, true),
        field(RawTypeOwner::Owned, false, false, false),
    ]);
    assert_eq!(generate_ptr_layout(&tuple, None), vec![true, false]);
    assert_eq!(generate_ptr_layout(&TyShape::RawPtr, None), vec![true]);
    assert_eq!(generate_ptr_layout(&TyShape::Param, None), vec![false]);
    assert!(is_place_containing_ptr(&tuple));
    assert!(!is_place_containing_ptr(&TyShape::Param));
}

#[test]
fn bit_vectors_from_layouts() {
    let layout = vec![RawTypeOwner::Owned, RawTypeOwner::Uninit, RawTypeOwner::Unowned, RawTypeOwner::Owned];
    assert_eq!(ownership_layout_to_rustbv(&layout), vec![true, false, true]);
    assert_eq!(reverse_ownership_layout_to_rustbv(&layout), vec![false, true, false]);
}

#[test]
fn bit_vector_merge_and_value() {
    assert_eq!(rustbv_merge(&vec![true, false, false], &vec![false, false, true]), vec![true, false, true]);
    assert_eq!(rustbv_to_int(&vec![true, false, true]), 5);
    assert_eq!(rustbv_to_int(&vec![]), 0);
    let v = vec![false, true, true, false, true];
    let n = rustbv_to_int(&v);
    for (i, b) in v.iter().enumerate() {
        assert_eq!((n >> i) & 1 == 1, *b);
    }
}

#[test]
fn local_names_join_the_indices() {
    assert_eq!(new_local_name(3, 12, 0), "12_0_3");
}

#[test]
fn indexed_type_priorities() {
    assert_eq!(IndexedTy::new(&TyShape::Other, None).get_priority(), 0);
    assert_eq!(IndexedTy::new(&TyShape::Scalar, None).get_priority(), 1);
    assert_eq!(IndexedTy::new(&TyShape::Tuple(vec![]), None).get_priority(), 1);
    assert_eq!(IndexedTy::new(&TyShape::RawPtr, None).get_priority(), 2);
}

#[test]
fn rustbv_to_int_takes_sixty_four_bits() {
    assert_eq!(rustbv_to_int(&vec![true; 64]), u64::MAX);
    let mut top = vec![false; 64];
    top[63] = true;
    assert_eq!(rustbv_to_int(&top), 1u64 << 63);
}
