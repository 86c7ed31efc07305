use rap::abstract_state::{AlignState, AllocatedState, StateType};
use rap::state_lattice::Lattice;

#[test]
fn allocated_join_follows_the_table() {
    assert_eq!(AllocatedState::Bottom.join(AllocatedState::Moved), AllocatedState::Moved);
    assert_eq!(AllocatedState::Borrowed.join(AllocatedState::Moved), AllocatedState::Top);
    assert_eq!(AllocatedState::Alloc.join(AllocatedState::SpecificAlloc), AllocatedState::SpecificAlloc);
    assert_eq!(AllocatedState::Alloc.join(AllocatedState::Borrowed), AllocatedState::Borrowed);
    assert_eq!(AllocatedState::Alloc.join(AllocatedState::Alloc), AllocatedState::Alloc);
}

#[test]
fn allocated_join_is_commutative_on_samples() {
    let all = [
        AllocatedState::Top,
        AllocatedState::Borrowed,
        AllocatedState::Moved,
        AllocatedState::Alloc,
        AllocatedState::SpecificAlloc,
        AllocatedState::Bottom,
    ];
    for a in all.iter() {
        for b in all.iter() {
            assert_eq!(a.join(*b), b.join(*a));
            assert_eq!(a.join(*a), *a);
        }
    }
}

#[test]
fn allocated_meet_collapses_moved_pairs() {
    assert_eq!(AllocatedState::Borrowed.meet(AllocatedState::Moved), AllocatedState::Bottom);
    assert_eq!(AllocatedState::Top.meet(AllocatedState::Alloc), AllocatedState::Alloc);
}

#[test]
fn align_lattice_orders_aligned_below_unaligned() {
    assert_eq!(AlignState::Aligned.join(AlignState::Unaligned), AlignState::Unaligned);
    assert_eq!(AlignState::Aligned.meet(AlignState::Unaligned), AlignState::Aligned);
    assert!(AlignState::Aligned.less_than(AlignState::Unaligned));
    assert!(!AlignState::Unaligned.less_than(AlignState::Aligned));
}

#[test]
fn state_type_lattice_works_within_one_family() {
    let a = StateType::AllocatedState(AllocatedState::Alloc);
    let b = StateType::AllocatedState(AllocatedState::Borrowed);
    assert_eq!(a.join(b), StateType::AllocatedState(AllocatedState::Borrowed));
    assert!(a.equal(a));
}
