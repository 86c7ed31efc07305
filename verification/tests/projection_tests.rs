use rap::ty_layout::{extract_projection, has_projection, ProjElem};

#[test]
fn single_field_projection_is_supported() {
    let p = extract_projection(&vec![ProjElem::Field(2)]);
    assert!(!p.is_unsupported());
    assert!(p.has_field());
    assert_eq!(p.index_needed(), 2);
    assert!(!p.has_downcast());
}

#[test]
fn downcast_then_field_is_supported() {
    let p = extract_projection(&vec![ProjElem::Downcast(1), ProjElem::Field(0)]);
    assert!(!p.is_unsupported());
    assert_eq!(p.downcast(), Some(1));
    assert_eq!(p.index_needed(), 0);
}

#[test]
fn two_fields_are_unsupported() {
    let p = extract_projection(&vec![ProjElem::Field(0), ProjElem::Field(1), ProjElem::Deref]);
    assert!(p.is_unsupported());
    assert_eq!(p.index_needed(), 0);
}

#[test]
fn field_after_deref_and_late_deref_are_unsupported() {
    assert!(extract_projection(&vec![ProjElem::Deref, ProjElem::Field(0)]).is_unsupported());
    assert!(extract_projection(&vec![ProjElem::Field(0), ProjElem::Deref]).is_unsupported());
    assert!(extract_projection(&vec![ProjElem::Other]).is_unsupported());
    assert!(!extract_projection(&vec![ProjElem::Deref]).is_unsupported());
}

#[test]
fn projection_presence() {
    assert!(!has_projection(&vec![]));
    assert!(has_projection(&vec![ProjElem::Deref]));
}
