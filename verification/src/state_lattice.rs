use vstd::prelude::*;
use crate::abstract_state::{AllocatedState, AlignState, StateType};

verus! {

/// Lattice operations over abstract states. Two values can be combined
/// only when they are `compatible` (of the same family of states).
pub trait Lattice: Sized {
    spec fn compatible(&self, other: Self) -> bool;

    fn join(&self, other: Self) -> Self
        requires
            self.compatible(other),
    ;

    fn meet(&self, other: Self) -> Self
        requires
            self.compatible(other),
    ;

    fn less_than(&self, other: Self) -> bool
        requires
            self.compatible(other),
    ;

    fn equal(&self, other: Self) -> bool
        requires
            self.compatible(other),
    ;
}

/// The order of allocation states:
/// `Bottom <= Alloc <= SpecificAlloc <= {Borrowed, Moved} <= Top`,
/// where `Borrowed` and `Moved` are incomparable.
pub open spec fn alloc_le(a: AllocatedState, b: AllocatedState) -> bool {
    ||| a == b
    ||| a == AllocatedState::Bottom
    ||| b == AllocatedState::Top
    ||| (a == AllocatedState::Alloc && (b == AllocatedState::SpecificAlloc
        || b == AllocatedState::Borrowed || b == AllocatedState::Moved))
    ||| (a == AllocatedState::SpecificAlloc && (b == AllocatedState::Borrowed
        || b == AllocatedState::Moved))
}

/// `j` is the least upper bound of `a` and `b` in `alloc_le`.
pub open spec fn is_alloc_lub(a: AllocatedState, b: AllocatedState, j: AllocatedState) -> bool {
    &&& alloc_le(a, j)
    &&& alloc_le(b, j)
    &&& forall|u: AllocatedState| alloc_le(a, u) && alloc_le(b, u) ==> alloc_le(j, u)
}

/// `m` is the greatest lower bound of `a` and `b` in `alloc_le`.
pub open spec fn is_alloc_glb(a: AllocatedState, b: AllocatedState, m: AllocatedState) -> bool {
    &&& alloc_le(m, a)
    &&& alloc_le(m, b)
    &&& forall|l: AllocatedState| alloc_le(l, a) && alloc_le(l, b) ==> alloc_le(l, m)
}

/// The pairs on which `meet` of allocation states drops to `Bottom`
/// although a greater common lower bound exists.
pub open spec fn alloc_meet_collapses(a: AllocatedState, b: AllocatedState) -> bool {
    ||| (a == AllocatedState::Borrowed && b == AllocatedState::Moved)
    ||| (a == AllocatedState::Moved && b == AllocatedState::Borrowed)
    ||| (a == AllocatedState::Alloc && b == AllocatedState::Moved)
    ||| (a == AllocatedState::Moved && b == AllocatedState::Alloc)
}

/// The strict comparison of allocation states: strictly below in the order;
/// `Bottom` is also below itself and `Top` above itself.
pub open spec fn alloc_less_than(a: AllocatedState, b: AllocatedState) -> bool {
    (alloc_le(a, b) && a != b) || a == AllocatedState::Bottom || b == AllocatedState::Top
}

/// The order of alignment states: `Aligned <= Unaligned`.
pub open spec fn align_le(a: AlignState, b: AlignState) -> bool {
    a == b || (a == AlignState::Aligned && b == AlignState::Unaligned)
}

/// Two state values belong to the same family.
pub open spec fn same_family(a: StateType, b: StateType) -> bool {
    match (a, b) {
        (StateType::AllocatedState(_), StateType::AllocatedState(_)) => true,
        (StateType::AlignState(_), StateType::AlignState(_)) => true,
        _ => false,
    }
}

/// The lifted strict comparison on state values of one family.
pub open spec fn state_less_than(a: StateType, b: StateType) -> bool {
    match (a, b) {
        (StateType::AllocatedState(x), StateType::AllocatedState(y)) => alloc_less_than(x, y),
        (StateType::AlignState(x), StateType::AlignState(y)) => align_le(x, y) && x != y,
        _ => false,
    }
}

impl Lattice for AllocatedState {
    open spec fn compatible(&self, other: Self) -> bool {
        true
    }

    fn join(&self, other: Self) -> (res: Self)
        ensures
            is_alloc_lub(*self, other, res),
    {
        match (*self, other) {
            (AllocatedState::Bottom, _) => other,
            (_, AllocatedState::Bottom) => *self,
            (AllocatedState::Top, _) | (_, AllocatedState::Top) => AllocatedState::Top,
            (AllocatedState::Borrowed, AllocatedState::Moved)
            | (AllocatedState::Moved, AllocatedState::Borrowed) => AllocatedState::Top,
            (AllocatedState::Alloc, AllocatedState::SpecificAlloc)
            | (AllocatedState::SpecificAlloc, AllocatedState::Alloc) => AllocatedState::SpecificAlloc,
            (state1, state2) if state1 == state2 => state1,
            (AllocatedState::Alloc, AllocatedState::Borrowed)
            | (AllocatedState::Borrowed, AllocatedState::Alloc) => AllocatedState::Borrowed,
            (AllocatedState::Alloc, AllocatedState::Moved)
            | (AllocatedState::Moved, AllocatedState::Alloc) => AllocatedState::Moved,
            (AllocatedState::SpecificAlloc, AllocatedState::Borrowed)
            | (AllocatedState::Borrowed, AllocatedState::SpecificAlloc) => AllocatedState::Borrowed,
            (AllocatedState::Moved, AllocatedState::SpecificAlloc)
            | (AllocatedState::SpecificAlloc, AllocatedState::Moved) => AllocatedState::Moved,
            _ => AllocatedState::Top,
        }
    }

    fn meet(&self, other: Self) -> (res: Self)
        ensures
            alloc_meet_collapses(*self, other) ==> res == AllocatedState::Bottom,
            !alloc_meet_collapses(*self, other) ==> is_alloc_glb(*self, other, res),
    {
        match (*self, other) {
            (AllocatedState::Top, _) => other,
            (_, AllocatedState::Top) => *self,
            (AllocatedState::Bottom, _) | (_, AllocatedState::Bottom) => AllocatedState::Bottom,
            (AllocatedState::Borrowed, AllocatedState::Moved)
            | (AllocatedState::Moved, AllocatedState::Borrowed) => AllocatedState::Bottom,
            (AllocatedState::Alloc, AllocatedState::SpecificAlloc)
            | (AllocatedState::SpecificAlloc, AllocatedState::Alloc) => AllocatedState::Alloc,
            (state1, state2) if state1 == state2 => state1,
            (AllocatedState::Alloc, AllocatedState::Borrowed)
            | (AllocatedState::Borrowed, AllocatedState::Alloc) => AllocatedState::Alloc,
            (AllocatedState::SpecificAlloc, AllocatedState::Borrowed)
            | (AllocatedState::Borrowed, AllocatedState::SpecificAlloc) => AllocatedState::SpecificAlloc,
            (AllocatedState::Moved, AllocatedState::SpecificAlloc)
            | (AllocatedState::SpecificAlloc, AllocatedState::Moved) => AllocatedState::SpecificAlloc,
            _ => AllocatedState::Bottom,
        }
    }

    fn less_than(&self, other: Self) -> (res: bool)
        ensures
            res == alloc_less_than(*self, other),
    {
        match (*self, other) {
            (AllocatedState::Bottom, _) | (_, AllocatedState::Top) => true,
            (AllocatedState::Alloc, AllocatedState::Borrowed) => true,
            (AllocatedState::Alloc, AllocatedState::SpecificAlloc) => true,
            (AllocatedState::Alloc, AllocatedState::Moved) => true,
            (AllocatedState::SpecificAlloc, AllocatedState::Borrowed) => true,
            (AllocatedState::SpecificAlloc, AllocatedState::Moved) => true,
            _ => false,
        }
    }

    fn equal(&self, other: Self) -> (res: bool)
        ensures
            res == (*self == other),
    {
        *self == other
    }
}

impl Lattice for AlignState {
    open spec fn compatible(&self, other: Self) -> bool {
        true
    }

    fn join(&self, other: Self) -> (res: Self)
        ensures
            align_le(*self, res),
            align_le(other, res),
            forall|u: AlignState| align_le(*self, u) && align_le(other, u) ==> align_le(res, u),
    {
        match (*self, other) {
            (AlignState::Aligned, AlignState::Unaligned)
            | (AlignState::Unaligned, AlignState::Aligned) => AlignState::Unaligned,
            (AlignState::Aligned, AlignState::Aligned) => AlignState::Aligned,
            (AlignState::Unaligned, AlignState::Unaligned) => AlignState::Unaligned,
        }
    }

    fn meet(&self, other: Self) -> (res: Self)
        ensures
            align_le(res, *self),
            align_le(res, other),
            forall|l: AlignState| align_le(l, *self) && align_le(l, other) ==> align_le(l, res),
    {
        match (*self, other) {
            (AlignState::Aligned, _) | (_, AlignState::Aligned) => AlignState::Aligned,
            (AlignState::Unaligned, AlignState::Unaligned) => AlignState::Unaligned,
        }
    }

    fn less_than(&self, other: Self) -> (res: bool)
        ensures
            res == (align_le(*self, other) && *self != other),
    {
        match (*self, other) {
            (AlignState::Aligned, AlignState::Unaligned) => true,
            _ => false,
        }
    }

    fn equal(&self, other: Self) -> (res: bool)
        ensures
            res == (*self == other),
    {
        *self == other
    }
}

impl Lattice for StateType {
    open spec fn compatible(&self, other: Self) -> bool {
        same_family(*self, other)
    }

    fn join(&self, other: Self) -> (res: Self)
        ensures
            match (*self, other) {
                (StateType::AllocatedState(a), StateType::AllocatedState(b)) =>
                    res matches StateType::AllocatedState(j) && is_alloc_lub(a, b, j),
                (StateType::AlignState(a), StateType::AlignState(b)) =>
                    res matches StateType::AlignState(j) && align_le(a, j) && align_le(b, j) && (
                    forall|u: AlignState| align_le(a, u) && align_le(b, u) ==> align_le(j, u)),
                _ => false,
            },
    {
        match *self {
            StateType::AllocatedState(a) => match other {
                StateType::AllocatedState(b) => StateType::AllocatedState(a.join(b)),
                _ => StateType::AllocatedState(a),
            },
            StateType::AlignState(a) => match other {
                StateType::AlignState(b) => StateType::AlignState(a.join(b)),
                _ => StateType::AlignState(a),
            },
        }
    }

    fn meet(&self, other: Self) -> (res: Self)
        ensures
            match (*self, other) {
                (StateType::AllocatedState(a), StateType::AllocatedState(b)) =>
                    res matches StateType::AllocatedState(m) && (alloc_meet_collapses(a, b)
                        ==> m == AllocatedState::Bottom) && (!alloc_meet_collapses(a, b)
                        ==> is_alloc_glb(a, b, m)),
                (StateType::AlignState(a), StateType::AlignState(b)) =>
                    res matches StateType::AlignState(m) && align_le(m, a) && align_le(m, b) && (
                    forall|l: AlignState| align_le(l, a) && align_le(l, b) ==> align_le(l, m)),
                _ => false,
            },
    {
        match *self {
            StateType::AllocatedState(a) => match other {
                StateType::AllocatedState(b) => StateType::AllocatedState(a.meet(b)),
                _ => StateType::AllocatedState(a),
            },
            StateType::AlignState(a) => match other {
                StateType::AlignState(b) => StateType::AlignState(a.meet(b)),
                _ => StateType::AlignState(a),
            },
        }
    }

    fn less_than(&self, other: Self) -> (res: bool)
        ensures
            res == state_less_than(*self, other),
    {
        match *self {
            StateType::AllocatedState(a) => match other {
                StateType::AllocatedState(b) => a.less_than(b),
                _ => false,
            },
            StateType::AlignState(a) => match other {
                StateType::AlignState(b) => a.less_than(b),
                _ => false,
            },
        }
    }

    fn equal(&self, other: Self) -> (res: bool)
        ensures
            res == (*self == other),
    {
        match *self {
            StateType::AllocatedState(a) => match other {
                StateType::AllocatedState(b) => a.equal(b),
                _ => false,
            },
            StateType::AlignState(a) => match other {
                StateType::AlignState(b) => a.equal(b),
                _ => false,
            },
        }
    }
}


/// `alloc_le` is a partial order: reflexive, antisymmetric and transitive.
pub proof fn lemma_alloc_le_partial_order(a: AllocatedState, b: AllocatedState, c: AllocatedState)
    ensures
        alloc_le(a, a),
        alloc_le(a, b) && alloc_le(b, a) ==> a == b,
        alloc_le(a, b) && alloc_le(b, c) ==> alloc_le(a, c),
{
}

/// Every two allocation states have exactly one least upper bound, so the
/// result of `join` is determined by its arguments.
pub proof fn lemma_alloc_lub_unique(a: AllocatedState, b: AllocatedState, j1: AllocatedState, j2: AllocatedState)
    requires
        is_alloc_lub(a, b, j1),
        is_alloc_lub(a, b, j2),
    ensures
        j1 == j2,
{
}

/// `join` on allocation states is commutative.
pub proof fn lemma_alloc_join_commutative(a: AllocatedState, b: AllocatedState, j: AllocatedState)
    requires
        is_alloc_lub(a, b, j),
    ensures
        is_alloc_lub(b, a, j),
{
}

/// `join` on allocation states is idempotent.
pub proof fn lemma_alloc_join_idempotent(a: AllocatedState, j: AllocatedState)
    requires
        is_alloc_lub(a, a, j),
    ensures
        j == a,
{
    assert(alloc_le(a, a));
}

/// `join` on allocation states is associative.
pub proof fn lemma_alloc_join_associative(
    a: AllocatedState,
    b: AllocatedState,
    c: AllocatedState,
    ab: AllocatedState,
    ab_c: AllocatedState,
    bc: AllocatedState,
    a_bc: AllocatedState,
)
    requires
        is_alloc_lub(a, b, ab),
        is_alloc_lub(ab, c, ab_c),
        is_alloc_lub(b, c, bc),
        is_alloc_lub(a, bc, a_bc),
    ensures
        ab_c == a_bc,
{
    lemma_alloc_le_partial_order(ab_c, a_bc, a_bc);
}

/// `Bottom` is the unit of `join` and `Top` absorbs it.
pub proof fn lemma_alloc_join_bounds(a: AllocatedState, j: AllocatedState, k: AllocatedState)
    requires
        is_alloc_lub(AllocatedState::Bottom, a, j),
        is_alloc_lub(AllocatedState::Top, a, k),
    ensures
        j == a,
        k == AllocatedState::Top,
{
    assert(alloc_le(a, a));
}

/// Apart from the reflexive cases at the ends of the order, `less_than`
/// holds exactly when joining changes nothing on the right and the two differ.
pub proof fn lemma_alloc_less_than_join(a: AllocatedState, b: AllocatedState, j: AllocatedState)
    requires
        is_alloc_lub(a, b, j),
    ensures
        alloc_less_than(a, b) <==> ((j == b && a != b) || a == AllocatedState::Bottom || b
            == AllocatedState::Top),
{
}

/// `meet` on allocation states is commutative.
pub proof fn lemma_alloc_meet_commutative(a: AllocatedState, b: AllocatedState, m: AllocatedState)
    ensures
        alloc_meet_collapses(a, b) == alloc_meet_collapses(b, a),
        is_alloc_glb(a, b, m) == is_alloc_glb(b, a, m),
{
}

/// Absorption: joining a state with its meet with another gives the state
/// back, wherever `meet` does not collapse to `Bottom`.
pub proof fn lemma_alloc_absorption(a: AllocatedState, b: AllocatedState, m: AllocatedState, j: AllocatedState)
    requires
        !alloc_meet_collapses(a, b),
        is_alloc_glb(a, b, m),
        is_alloc_lub(a, m, j),
    ensures
        j == a,
{
}

/// The alignment order: `join` is the larger and `meet` the smaller state, and
/// `less_than` is strict.
pub proof fn lemma_align_lattice(a: AlignState, b: AlignState, j: AlignState, m: AlignState)
    requires
        align_le(a, j),
        align_le(b, j),
        forall|u: AlignState| align_le(a, u) && align_le(b, u) ==> align_le(j, u),
        align_le(m, a),
        align_le(m, b),
        forall|l: AlignState| align_le(l, a) && align_le(l, b) ==> align_le(l, m),
    ensures
        j == (if a == AlignState::Aligned && b == AlignState::Aligned { AlignState::Aligned } else { AlignState::Unaligned }),
        m == (if a == AlignState::Unaligned && b == AlignState::Unaligned { AlignState::Unaligned } else { AlignState::Aligned }),
        !(align_le(a, b) && a != b && align_le(b, a) && b != a),
{
    assert(align_le(a, AlignState::Unaligned) && align_le(b, AlignState::Unaligned));
    assert(align_le(AlignState::Aligned, a) && align_le(AlignState::Aligned, b));
}

/// States of different families are never compared as less than one another.
pub proof fn lemma_state_less_than_same_family(a: StateType, b: StateType)
    requires
        state_less_than(a, b),
    ensures
        same_family(a, b),
{
}

} // verus!
