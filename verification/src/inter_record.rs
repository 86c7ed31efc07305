use vstd::prelude::*;
use crate::abstract_state::{AbstractState, AbstractStateItem, StateType};

verus! {

broadcast use vstd::std_specs::hash::group_hash_axioms;

/// Two items hold the same value interval and the same set of states.
pub open spec fn same_item(a: AbstractStateItem, b: AbstractStateItem) -> bool {
    a.value == b.value && a.state_set() == b.state_set()
}

/// Two abstract states give every place the same item.
pub open spec fn same_state(a: &AbstractState, b: &AbstractState) -> bool {
    &&& a.places() == b.places()
    &&& forall|p: usize| #[trigger] a.places().contains(p) ==> same_item(a.item_at(p)->0, b.item_at(p)->0)
}

/// The abstract states of a function before and after it was analysed.
pub struct InterAnalysisRecord {
    pub pre_analysis_state: AbstractState,
    pub post_analysis_state: AbstractState,
}

fn state_in(s: StateType, v: &Vec<StateType>) -> (res: bool)
    ensures
        res == v@.contains(s),
{
    let mut i: usize = 0;
    while i < v.len()
        invariant
            i <= v@.len(),
            forall|j: int| 0 <= j < i ==> v@[j] != s,
        decreases v@.len() - i,
    {
        if v[i] == s {
            assert(v@[i as int] == s);
            return true;
        }
        i = i + 1;
    }
    false
}

/// Every state of `a` is one of `b`.
fn states_within(a: &Vec<StateType>, b: &Vec<StateType>) -> (res: bool)
    ensures
        res == a@.to_set().subset_of(b@.to_set()),
{
    let mut i: usize = 0;
    while i < a.len()
        invariant
            i <= a@.len(),
            forall|j: int| 0 <= j < i ==> b@.contains(#[trigger] a@[j]),
        decreases a@.len() - i,
    {
        if !state_in(a[i], b) {
            proof {
                assert(a@.to_set().contains(a@[i as int]));
            }
            return false;
        }
        i = i + 1;
    }
    proof {
        assert forall|x: StateType| a@.to_set().contains(x) implies b@.to_set().contains(x) by {
            let j = choose|j: int| 0 <= j < a@.len() && a@[j] == x;
            assert(b@.contains(a@[j]));
        }
    }
    true
}

/// Whether two items are the same (see `same_item`).
pub fn item_eq(a: &AbstractStateItem, b: &AbstractStateItem) -> (res: bool)
    ensures
        res == same_item(*a, *b),
{
    if a.value.0 != b.value.0 || a.value.1 != b.value.1 {
        return false;
    }
    let ab = states_within(&a.state, &b.state);
    let ba = states_within(&b.state, &a.state);
    proof {
        if ab && ba {
            assert(a.state_set() =~= b.state_set());
        }
    }
    ab && ba
}

/// Every place of `a` has an item in `b`, and the same one.
fn state_within(a: &AbstractState, b: &AbstractState) -> (res: bool)
    ensures
        res == forall|p: usize| #[trigger] a.places().contains(p) ==> b.places().contains(p) && same_item(a.item_at(p)->0, b.item_at(p)->0),
{
    broadcast use vstd::seq_lib::group_seq_properties;
    let ghost dom = a.state_map@.dom();
    let ghost mut seen: Seq<usize> = Seq::empty();
    for p in it: a.state_map.keys()
        invariant
            dom == a.state_map@.dom(),
            it.seq().unref().to_set() == dom,
            it.seq().unref().no_duplicates(),
            it.seq().len() == dom.len(),
            dom.finite(),
            seen.len() == it.index(),
            forall|j: int| 0 <= j < seen.len() ==> seen[j] == *it.seq()[j],
            seen.no_duplicates(),
            seen.to_set().subset_of(dom),
            forall|j: int| 0 <= j < seen.len() ==> {
                let q = #[trigger] seen[j];
                b.places().contains(q) && same_item(a.item_at(q)->0, b.item_at(q)->0)
            },
    {
        proof {
            assert(it.seq().unref()[it.index() as int] == *p);
            assert(it.seq().unref().to_set().contains(*p));
            assert(a.places().contains(*p));
        }
        match (a.state_map.get(p), b.state_map.get(p)) {
            (Some(ai), Some(bi)) => {
                if !item_eq(ai, bi) {
                    return false;
                }
            },
            _ => {
                return false;
            },
        }
        proof {
            let s0 = seen;
            seen = seen.push(*p);
            assert forall|j: int| 0 <= j < s0.len() implies s0[j] != *p by {
                assert(it.seq().unref()[j] == s0[j]);
            }
            assert forall|x: usize| seen.to_set().contains(x) implies dom.contains(x) by {
                let j = choose|j: int| 0 <= j < seen.len() && seen[j] == x;
                if j < s0.len() {
                    assert(s0.to_set().contains(x));
                }
            }
        }
    }
    proof {
        seen.unique_seq_to_set();
        vstd::set_lib::lemma_subset_equality(seen.to_set(), dom);
        assert forall|p: usize| #[trigger] a.places().contains(p) implies b.places().contains(p) && same_item(a.item_at(p)->0, b.item_at(p)->0) by {
            assert(seen.to_set().contains(p));
            let j = choose|j: int| 0 <= j < seen.len() && seen[j] == p;
            assert(seen[j] == p);
        }
    }
    true
}

impl InterAnalysisRecord {
    pub fn new(pre_analysis_state: AbstractState, post_analysis_state: AbstractState) -> (res: Self)
        ensures
            res.pre_analysis_state == pre_analysis_state,
            res.post_analysis_state == post_analysis_state,
    {
        InterAnalysisRecord { pre_analysis_state, post_analysis_state }
    }

    /// The state before analysis is the same as `other_pre_state`: the
    /// same places, each with the same value interval and states.
    pub fn is_pre_state_same(&self, other_pre_state: &AbstractState) -> (res: bool)
        ensures
            res == same_state(&self.pre_analysis_state, other_pre_state),
    {
        let a = &self.pre_analysis_state;
        let ab = state_within(a, other_pre_state);
        let ba = state_within(other_pre_state, a);
        proof {
            if ab && ba {
                assert(a.places() =~= other_pre_state.places());
            }
            if same_state(a, other_pre_state) {
                assert forall|p: usize| #[trigger] other_pre_state.places().contains(p) implies a.places().contains(p) && same_item(other_pre_state.item_at(p)->0, a.item_at(p)->0) by {
                    assert(a.places().contains(p));
                }
            }
        }
        ab && ba
    }
}

} // verus!
