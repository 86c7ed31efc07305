use vstd::prelude::*;
use std::collections::HashMap;

verus! {

broadcast use vstd::std_specs::hash::group_hash_axioms;

/// A concrete value (or bound) that an abstract state item may carry.
#[derive(Debug, PartialEq, Eq, Structural, Copy, Clone)]
pub enum Value {
    Usize(usize),
    Isize(isize),
    U32(u32),
    Custom(),
}

/// The abstract states tracked for a place.
#[derive(Debug, PartialEq, Eq, Structural, Copy, Clone, Hash)]
pub enum StateType {
    AllocatedState(AllocatedState),
    AlignState(AlignState),
}

/// Comparison operators used by contracts.
#[derive(Debug, PartialEq, Eq, Structural, Copy, Clone)]
pub enum Op {
    EQ,
    NE,
    LT,
    GT,
    LE,
    GE,
}

/// Allocation state of a pointer.
#[derive(Debug, PartialEq, Eq, Structural, Copy, Clone, Hash)]
pub enum AllocatedState {
    Top,
    Borrowed,
    Moved,
    Alloc,
    SpecificAlloc,
    Bottom,
}

/// Alignment state of a pointer.
#[derive(Debug, PartialEq, Eq, Structural, Copy, Clone, Hash)]
pub enum AlignState {
    Aligned,
    Unaligned,
}

/// The abstract information attached to one place: a value interval
/// `(low, high)` and the set of states it may be in (held without repetition).
#[derive(Debug)]
pub struct AbstractStateItem {
    pub value: (Value, Value),
    pub state: Vec<StateType>,
}

/// The abstract states of all places along one path, keyed by place index.
pub struct AbstractState {
    pub state_map: HashMap<usize, AbstractStateItem>,
}

impl AbstractStateItem {
    /// The set of states this item holds.
    pub open spec fn state_set(&self) -> Set<StateType> {
        self.state@.to_set()
    }

    /// The states are held as a set: none occurs twice.
    pub open spec fn wf(&self) -> bool {
        self.state@.no_duplicates()
    }

    /// Adds a state to the set of states (nothing changes when it is there).
    pub fn insert_state(&mut self, s: StateType)
        requires
            old(self).wf(),
        ensures
            final(self).wf(),
            final(self).value == old(self).value,
            final(self).state_set() == old(self).state_set().insert(s),
            old(self).state_set().contains(s) ==> final(self).state@ == old(self).state@,
            !old(self).state_set().contains(s) ==> final(self).state@ == old(self).state@.push(s),
    {
        broadcast use vstd::seq_lib::group_seq_properties;
        let mut i: usize = 0;
        while i < self.state.len()
            invariant
                *self == *old(self),
                old(self).wf(),
                i <= self.state@.len(),
                forall|j: int| 0 <= j < i ==> self.state@[j] != s,
            decreases self.state@.len() - i,
        {
            if self.state[i] == s {
                assert(self.state@.to_set().insert(s) =~= self.state@.to_set());
                return;
            }
            i = i + 1;
        }
        let ghost before = self.state@;
        self.state.push(s);
        proof {
            assert(!before.contains(s));
            assert forall|x: StateType| self.state@.to_set().contains(x) <==> before.to_set().insert(s).contains(x) by {
                if x != s && self.state@.contains(x) {
                    let j = choose|j: int| 0 <= j < self.state@.len() && self.state@[j] == x;
                    assert(before[j] == x);
                }
                if before.contains(x) {
                    let j = choose|j: int| 0 <= j < before.len() && before[j] == x;
                    assert(self.state@[j] == x);
                }
                if x == s {
                    assert(self.state@[before.len() as int] == s);
                }
            }
            assert(self.state@.to_set() =~= before.to_set().insert(s));
        }
    }
}

impl AbstractState {
    /// The places that have an abstract item.
    pub open spec fn places(&self) -> Set<usize> {
        self.state_map@.dom()
    }

    pub fn new() -> (res: Self)
        ensures
            res.state_map@ == Map::<usize, AbstractStateItem>::empty(),
            res.places() == Set::<usize>::empty(),
    {
        Self { state_map: HashMap::new() }
    }

    /// The item recorded for `place`, if any.
    pub open spec fn item_at(&self, place: usize) -> Option<AbstractStateItem> {
        if self.state_map@.contains_key(place) {
            Some(self.state_map@[place])
        } else {
            None
        }
    }
}

} // verus!
