use vstd::prelude::*;
use crate::text::str_eq;

verus! {

/// A function of the call graph: its definition id and printed path.
#[derive(Debug, Clone)]
pub struct Node {
    def_id: u64,
    def_path: String,
}

impl Node {
    pub closed spec fn def_id_view(&self) -> u64 {
        self.def_id
    }

    pub closed spec fn def_path_view(&self) -> Seq<char> {
        self.def_path@
    }

    pub fn new(def_id: u64, def_path: &String) -> (res: Self)
        ensures
            res.def_id_view() == def_id,
            res.def_path_view() == def_path@,
    {
        Node { def_id, def_path: def_path.clone() }
    }

    pub fn get_def_id(&self) -> (res: u64)
        ensures
            res == self.def_id_view(),
    {
        self.def_id
    }

    pub fn get_def_path(&self) -> (res: String)
        ensures
            res@ == self.def_path_view(),
    {
        self.def_path.clone()
    }
}

/// The functions met by the call-graph analysis, numbered in the order
/// they were added, and the calls between them by number.
pub struct CallGraphInfo {
    pub functions: Vec<Node>,
    pub function_calls: Vec<(usize, usize)>,
}

impl CallGraphInfo {
    /// The printed paths of the functions, by number.
    pub open spec fn paths(&self) -> Seq<Seq<char>> {
        self.functions@.map_values(|n: Node| n.def_path_view())
    }

    /// No path is registered twice.
    pub open spec fn wf(&self) -> bool {
        forall|i: int, j: int| 0 <= i < j < self.functions@.len() ==> #[trigger] self.paths()[i] != #[trigger] self.paths()[j]
    }

    /// The number of the function with path `p`, if registered.
    pub open spec fn id_of(&self, p: Seq<char>) -> Option<usize> {
        if exists|i: int| 0 <= i < self.functions@.len() && #[trigger] self.paths()[i] == p {
            Some((choose|i: int| 0 <= i < self.functions@.len() && #[trigger] self.paths()[i] == p) as usize)
        } else {
            None
        }
    }

    pub fn new() -> (res: Self)
        ensures
            res.wf(),
            res.functions@.len() == 0,
            res.function_calls@.len() == 0,
    {
        CallGraphInfo { functions: Vec::new(), function_calls: Vec::new() }
    }

    pub fn get_node_num(&self) -> (res: usize)
        ensures
            res == self.functions@.len(),
    {
        self.functions.len()
    }

    /// The number of the function with path `def_path`, if registered.
    pub fn get_noed_by_path(&self, def_path: &String) -> (res: Option<usize>)
        requires
            self.wf(),
        ensures
            res == self.id_of(def_path@),
            match res {
                Some(i) => i < self.functions@.len() && self.paths()[i as int] == def_path@,
                None => forall|i: int| 0 <= i < self.functions@.len() ==> self.paths()[i] != def_path@,
            },
    {
        let mut i: usize = 0;
        while i < self.functions.len()
            invariant
                self.wf(),
                i <= self.functions@.len(),
                forall|j: int| 0 <= j < i ==> #[trigger] self.paths()[j] != def_path@,
            decreases self.functions@.len() - i,
        {
            if str_eq(self.functions[i as usize].def_path.as_str(), def_path.as_str()) {
                proof {
                    assert(self.paths()[i as int] == def_path@);
                    let k = choose|k: int| 0 <= k < self.functions@.len() && #[trigger] self.paths()[k] == def_path@;
                    if k != i as int {
                        if k < i {
                        } else {
                            assert(self.paths()[i as int] != self.paths()[k]);
                        }
                    }
                }
                return Some(i);
            }
            proof {
                assert(self.paths()[i as int] == self.functions@[i as int].def_path_view());
            }
            i = i + 1;
        }
        None
    }

    /// Registers a function under the next number, unless its path is
    /// registered already.
    pub fn add_node(&mut self, def_id: u64, def_path: &String)
        requires
            old(self).wf(),
        ensures
            final(self).wf(),
            final(self).function_calls == old(self).function_calls,
            final(self).id_of(def_path@) is Some,
            old(self).id_of(def_path@) is Some ==> final(self).functions@ == old(self).functions@,
            old(self).id_of(def_path@) is None ==> {
                &&& final(self).functions@.len() == old(self).functions@.len() + 1
                &&& forall|i: int| 0 <= i < old(self).functions@.len() ==> #[trigger] final(self).functions@[i] == old(self).functions@[i]
                &&& final(self).functions@.last().def_id_view() == def_id
                &&& final(self).functions@.last().def_path_view() == def_path@
            },
    {
        match self.get_noed_by_path(def_path) {
            Some(i) => {
                assert(self.paths()[i as int] == def_path@);
            },
            None => {
                let ghost before = self.paths();
                let node = Node::new(def_id, def_path);
                self.functions.push(node);
                proof {
                    assert forall|i: int, j: int| 0 <= i < j < self.functions@.len() implies #[trigger] self.paths()[i] != #[trigger] self.paths()[j] by {
                        if j == self.functions@.len() - 1 {
                            assert(self.paths()[j] == def_path@);
                            assert(self.paths()[i] == before[i]);
                        } else {
                            assert(self.paths()[i] == before[i]);
                            assert(self.paths()[j] == before[j]);
                        }
                    }
                    let l = self.functions@.len() - 1;
                    assert(self.paths()[l] == def_path@);
                }
            },
        }
    }

    pub fn add_funciton_call_edge(&mut self, caller_id: usize, callee_id: usize)
        ensures
            final(self).functions == old(self).functions,
            final(self).function_calls@ == old(self).function_calls@.push((caller_id, callee_id)),
    {
        self.function_calls.push((caller_id, callee_id));
    }

    /// Records a call from the function with path `caller_def_path` to the
    /// one with path `callee_def_path`, registering the callee if needed;
    /// nothing happens when the caller is not registered.
    pub fn add_in_call_graph(&mut self, caller_def_path: &String, callee_def_id: u64, callee_def_path: &String)
        requires
            old(self).wf(),
        ensures
            final(self).wf(),
            old(self).id_of(caller_def_path@) is None ==> final(self).functions@ == old(self).functions@
                && final(self).function_calls@ == old(self).function_calls@,
            old(self).id_of(caller_def_path@) is Some ==> {
                &&& final(self).id_of(callee_def_path@) is Some
                &&& final(self).function_calls@ == old(self).function_calls@.push(
                    (old(self).id_of(caller_def_path@)->0, final(self).id_of(callee_def_path@)->0),
                )
                &&& old(self).id_of(callee_def_path@) is Some ==> final(self).functions@ == old(self).functions@
                &&& old(self).id_of(callee_def_path@) is None ==> final(self).functions@.len() == old(self).functions@.len() + 1
            },
    {
        if let Some(caller_id) = self.get_noed_by_path(caller_def_path) {
            if let Some(callee_id) = self.get_noed_by_path(callee_def_path) {
                self.add_funciton_call_edge(caller_id, callee_id);
            } else {
                self.add_node(callee_def_id, callee_def_path);
                proof {
                    let l = self.functions@.len() - 1;
                    assert(self.paths()[l] == callee_def_path@);
                }
                if let Some(callee_id) = self.get_noed_by_path(callee_def_path) {
                    self.add_funciton_call_edge(caller_id, callee_id);
                }
            }
        }
    }
}

/// Adding a function that is already registered changes nothing, and its
/// number stays the one it had.
pub proof fn lemma_add_node_idempotent(g: &CallGraphInfo, h: &CallGraphInfo, p: Seq<char>)
    requires
        g.wf(),
        g.id_of(p) is Some,
        h.functions@ == g.functions@,
    ensures
        h.id_of(p) == g.id_of(p),
{
    assert(h.paths() =~= g.paths());
}


} // verus!
