use rap::heap_item::{AdtOwner, HeapItem, IsolatedParam, IsolatedParamFieldSubst, IsolatedParameter, TyKey};
use rap::ownership::RawTypeOwner;
use rap::ty_layout::AdtKind;

fn owners() -> AdtOwner {
    let mut m = AdtOwner::new();
    // a struct owning heap memory, isolating its second parameter
    m.insert(1, vec![(RawTypeOwner::Owned, vec![false, true])]);
    // an enum: variant 0 owns, variant 1 does not; variant 1 holds its parameter
    m.insert(2, vec![(RawTypeOwner::Owned, vec![false]), (RawTypeOwner::Unowned, vec![true])]);
    // a struct that owns nothing
    m.insert(3, vec![(RawTypeOwner::Unowned, vec![])]);
    m
}

#[test]
fn heap_item_queries() {
    let m = owners();
    assert_eq!(HeapItem::is_adt(&m, TyKey::Adt(1, AdtKind::Struct)), Ok(true));
    assert_eq!(HeapItem::is_adt(&m, TyKey::Adt(3, AdtKind::Struct)), Ok(false));
    assert_eq!(HeapItem::is_adt(&m, TyKey::Other), Err("The input is not an ADT"));
    assert_eq!(HeapItem::is_struct(&m, TyKey::Adt(1, AdtKind::Struct)), Ok(true));
    assert_eq!(HeapItem::is_struct(&m, TyKey::Adt(2, AdtKind::Enum)), Err("The input is not a struct"));
    assert_eq!(HeapItem::is_enum(&m, TyKey::Adt(2, AdtKind::Enum)), Ok(true));
    assert_eq!(HeapItem::is_enum(&m, TyKey::Adt(1, AdtKind::Struct)), Err("The input is not an enum"));
}

#[test]
fn heap_item_variant_queries() {
    let m = owners();
    let e = TyKey::Adt(2, AdtKind::Enum);
    assert_eq!(HeapItem::is_enum_vidx(&m, e, 0), Ok(true));
    assert_eq!(HeapItem::is_enum_vidx(&m, e, 1), Ok(false));
    assert_eq!(HeapItem::is_enum_vidx(&m, e, 3), Err("The index is not a valid variance"));
    assert_eq!(HeapItem::is_enum_flattened(&m, e), Ok(vec![true, false]));
}

#[test]
fn isolated_parameter_queries() {
    let m = owners();
    assert_eq!(IsolatedParameter::is_adt(&m, TyKey::Adt(1, AdtKind::Struct)), Ok(true));
    assert_eq!(IsolatedParameter::is_adt(&m, TyKey::Adt(3, AdtKind::Struct)), Ok(false));
    assert_eq!(IsolatedParameter::is_struct(&m, TyKey::Adt(1, AdtKind::Struct)), Ok(true));
    let e = TyKey::Adt(2, AdtKind::Enum);
    assert_eq!(IsolatedParameter::is_enum(&m, e), Ok(true));
    assert_eq!(IsolatedParameter::is_enum_vidx(&m, e, 0), Ok(false));
    assert_eq!(IsolatedParameter::is_enum_vidx(&m, e, 1), Ok(true));
    assert_eq!(IsolatedParameter::is_enum_flattened(&m, e), Ok(vec![vec![false], vec![true]]));
    assert_eq!(IsolatedParameter::is_enum(&m, TyKey::Other), Err("The input is not an ADT"));
}

#[test]
fn isolated_param_records() {
    let mut p = IsolatedParam::new(3);
    p.record_mut()[1] = true;
    assert_eq!(p.record_mut(), &mut vec![false, true, false]);
    let mut s = IsolatedParamFieldSubst::new();
    assert!(!s.contains_param());
    s.parameters_mut().insert(4);
    assert!(s.contains_param());
    assert!(s.parameters().contains(&4));
}
