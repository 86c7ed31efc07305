use vstd::prelude::*;
use std::collections::{HashMap, HashSet};
use crate::value_graph::{hangs_under, added_by_walk, ValueGraph, ValueNode, birth_filled, in_prefix};
use crate::mir_model::BlockNode;
use crate::heap_item::AdtOwner;
use crate::alias::{field_seq, field_seq_ok, field_seq_spec, pairs_upto, node_pairs, alias_pairs, node_reports, pair_reports, results_readable, pair_readable};

verus! {

broadcast use vstd::std_specs::hash::group_hash_axioms;

/// An alias between two places of a function's interface, as the drop
/// analysis records it: argument (or return value, index 0) `left_index`
/// through the fields `left`, and likewise on the right, with the drop
/// flags of both and the kind of alias.
#[derive(Debug, Clone)]
pub struct RetAlias {
    pub left_index: usize,
    pub left: Vec<usize>,
    pub left_may_drop: bool,
    pub left_need_drop: bool,
    pub right_index: usize,
    pub right: Vec<usize>,
    pub right_may_drop: bool,
    pub right_need_drop: bool,
    pub atype: usize,
}

impl RetAlias {
    /// An alias between two whole places (empty field paths).
    pub fn new(
        atype: usize,
        left_index: usize,
        left_may_drop: bool,
        left_need_drop: bool,
        right_index: usize,
        right_may_drop: bool,
        right_need_drop: bool,
    ) -> (res: RetAlias)
        ensures
            res.atype == atype,
            res.left_index == left_index,
            res.left@ == Seq::<usize>::empty(),
            res.left_may_drop == left_may_drop,
            res.left_need_drop == left_need_drop,
            res.right_index == right_index,
            res.right@ == Seq::<usize>::empty(),
            res.right_may_drop == right_may_drop,
            res.right_need_drop == right_need_drop,
    {
        RetAlias {
            left_index,
            left: Vec::new(),
            left_may_drop,
            left_need_drop,
            right_index,
            right: Vec::new(),
            right_may_drop,
            right_need_drop,
            atype,
        }
    }

    /// Both sides may drop, so the alias matters to the drop analysis.
    pub fn valuable(&self) -> (res: bool)
        ensures
            res == (self.left_may_drop && self.right_may_drop),
    {
        self.left_may_drop && self.right_may_drop
    }
}

/// The aliases a function sets up among its arguments and return value,
/// and the arguments that it leaves dangling.
#[derive(Debug)]
pub struct FnRetAlias {
    pub arg_size: usize,
    pub alias_vec: Vec<RetAlias>,
    pub dead: HashSet<usize>,
}

impl FnRetAlias {
    pub fn new(arg_size: usize) -> (res: FnRetAlias)
        ensures
            res.arg_size == arg_size,
            res.alias_vec@.len() == 0,
            res.dead@ == Set::<usize>::empty(),
    {
        FnRetAlias { arg_size, alias_vec: Vec::new(), dead: HashSet::new() }
    }
}

/// The bugs found in one function, by source location: double frees (by
/// the local dropped twice), uses after free and dangling pointers (on
/// normal and on unwinding paths).
#[derive(Debug)]
pub struct BugRecords {
    pub df_bugs: HashMap<usize, usize>,
    pub df_bugs_unwind: HashMap<usize, usize>,
    pub uaf_bugs: HashSet<usize>,
    pub dp_bugs: HashSet<usize>,
    pub dp_bugs_unwind: HashSet<usize>,
}

impl BugRecords {
    pub fn new() -> (res: BugRecords)
        ensures
            res.df_bugs@ == Map::<usize, usize>::empty(),
            res.df_bugs_unwind@ == Map::<usize, usize>::empty(),
            res.uaf_bugs@ == Set::<usize>::empty(),
            res.dp_bugs@ == Set::<usize>::empty(),
            res.dp_bugs_unwind@ == Set::<usize>::empty(),
    {
        BugRecords {
            df_bugs: HashMap::new(),
            df_bugs_unwind: HashMap::new(),
            uaf_bugs: HashSet::new(),
            dp_bugs: HashSet::new(),
            dp_bugs_unwind: HashSet::new(),
        }
    }

    /// No double free, use after free or dangling pointer was found (double
    /// frees on unwinding paths do not count).
    pub fn is_bug_free(&self) -> (res: bool)
        ensures
            res == (self.df_bugs@.is_empty() && self.uaf_bugs@.is_empty() && self.dp_bugs@.is_empty()
                && self.dp_bugs_unwind@.is_empty()),
    {
        self.df_bugs.is_empty() && self.uaf_bugs.is_empty() && self.dp_bugs.is_empty()
            && self.dp_bugs_unwind.is_empty()
    }
}

/// The alias graph of one function body for the drop analysis, with what
/// it has found so far.
pub struct SafeDropGraph {
    pub values: ValueGraph,
    pub arg_size: usize,
    pub ret_alias: FnRetAlias,
    pub return_set: Vec<(usize, usize)>,
    pub bug_records: BugRecords,
    pub span: usize,
    pub blocks: Vec<BlockNode>,
    pub scc_indices: Vec<usize>,
    pub constant: HashMap<usize, usize>,
    pub visit_times: usize,
    pub adt_owner: AdtOwner,
    pub def_path: String,
}

impl SafeDropGraph {
    /// The body, the path state and the function's identity are kept.
    pub open spec fn same_body(&self, other: &SafeDropGraph) -> bool {
        &&& self.blocks == other.blocks
        &&& self.scc_indices == other.scc_indices
        &&& self.constant == other.constant
        &&& self.visit_times == other.visit_times
        &&& self.adt_owner == other.adt_owner
        &&& self.def_path == other.def_path
    }
}

/// `r` records the alias between the nodes `l` and `rn`.
pub open spec fn sd_alias_of(r: RetAlias, l: ValueNode, rn: ValueNode) -> bool {
    &&& r.atype == 0
    &&& r.left_index == l.local
    &&& r.left_may_drop == l.may_drop
    &&& r.left_need_drop == l.need_drop
    &&& r.left@ == field_seq_spec(l)
    &&& r.right_index == rn.local
    &&& r.right_may_drop == rn.may_drop
    &&& r.right_need_drop == rn.need_drop
    &&& r.right@ == field_seq_spec(rn)
}

/// The key under which an interface alias is recorded once.
pub open spec fn pair_key(nodes: Seq<ValueNode>, c: (int, int)) -> (usize, usize) {
    (nodes[c.0].index, c.1 as usize)
}

/// Going through the candidate aliases `cands` in order, starting from the
/// recorded keys `seen`: the keys recorded afterwards, and the candidates
/// that were new (each key is taken once).
pub open spec fn sd_emit(nodes: Seq<ValueNode>, cands: Seq<(int, int)>, seen: Set<(usize, usize)>) -> (Set<(usize, usize)>, Seq<(int, int)>)
    decreases cands.len(),
{
    if cands.len() == 0 {
        (seen, Seq::empty())
    } else {
        let (s, e) = sd_emit(nodes, cands.drop_last(), seen);
        let key = pair_key(nodes, cands.last());
        if s.contains(key) {
            (s, e)
        } else {
            (s.insert(key), e.push(cands.last()))
        }
    }
}

/// What applying the callee alias `r` at a call site whose result and
/// arguments are the nodes `args` does to the graph `g`, giving `h` (see
/// `merge_effect`; the field nodes added take the birth of the node they
/// hang under).
pub open spec fn sd_merge_effect(g: ValueGraph, h: ValueGraph, r: RetAlias, args: Seq<usize>) -> bool {
    &&& h.wf()
    &&& h.len() >= g.len()
    &&& r.left_index >= args.len() || r.right_index >= args.len() ==> h == g
    &&& r.left_index < args.len() && r.right_index < args.len() ==> exists|g1: ValueGraph, lv: int, rv: int| {
        &&& g1.grows_from(&g)
        &&& forall|y: int| g.len() <= y < g1.len() ==> #[trigger] added_by_walk(&g1, args[r.left_index as int] as int, r.left@, args[r.right_index as int] as int, r.right@, y)
        &&& g1.path_end(args[r.left_index as int] as int, r.left@, false) == Some(lv)
        &&& g1.path_end(args[r.right_index as int] as int, r.right@, true) == Some(rv)
        &&& if g1.unrelated_or_same(lv, rv) {
            ValueGraph::merged_into(&g1, &h, lv, rv)
        } else {
            h == g1
        }
    }
}

/// A node of the results that leaves its argument dangling: a pointer
/// argument (or the return value) that is dead at the end of a normal path.
pub open spec fn leaves_dead(n: ValueNode, arg_size: usize, is_cleanup: bool) -> bool {
    &&& n.local <= arg_size
    &&& n.ptr()
    &&& !is_cleanup
    &&& !n.alive()
    &&& n.index <= arg_size
}

/// Going through candidates whose keys were all recorded before records
/// nothing new.
proof fn lemma_sd_emit_all_seen(nodes: Seq<ValueNode>, cands: Seq<(int, int)>, seen: Set<(usize, usize)>)
    requires
        forall|t: int| 0 <= t < cands.len() ==> seen.contains(#[trigger] pair_key(nodes, cands[t])),
    ensures
        sd_emit(nodes, cands, seen) == (seen, Seq::<(int, int)>::empty()),
    decreases cands.len(),
{
    if cands.len() > 0 {
        let d = cands.drop_last();
        assert forall|t: int| 0 <= t < d.len() implies seen.contains(#[trigger] pair_key(nodes, d[t])) by {
            assert(d[t] == cands[t]);
        }
        lemma_sd_emit_all_seen(nodes, d, seen);
        assert(seen.contains(pair_key(nodes, cands[cands.len() - 1])));
    }
}

/// After going through the candidates, the key of each is recorded, and
/// the keys recorded before stay.
proof fn lemma_sd_emit_records(nodes: Seq<ValueNode>, cands: Seq<(int, int)>, seen: Set<(usize, usize)>)
    ensures
        seen.subset_of(sd_emit(nodes, cands, seen).0),
        forall|t: int| 0 <= t < cands.len() ==> sd_emit(nodes, cands, seen).0.contains(#[trigger] pair_key(nodes, cands[t])),
    decreases cands.len(),
{
    if cands.len() > 0 {
        let d = cands.drop_last();
        lemma_sd_emit_records(nodes, d, seen);
        let s = sd_emit(nodes, d, seen).0;
        assert forall|t: int| 0 <= t < cands.len() implies sd_emit(nodes, cands, seen).0.contains(#[trigger] pair_key(nodes, cands[t])) by {
            if t < cands.len() - 1 {
                assert(d[t] == cands[t]);
                assert(s.contains(pair_key(nodes, d[t])));
            }
        }
    }
}

/// Merging the results of a path a second time records no new interface
/// alias: each one is recorded once, however often its path is merged.
pub proof fn lemma_merge_results_records_once(nodes: Seq<ValueNode>, arg_size: usize, seen: Set<(usize, usize)>)
    ensures
        ({
            let cands = pairs_upto(nodes, nodes.len() as int, arg_size);
            let first = sd_emit(nodes, cands, seen);
            sd_emit(nodes, cands, first.0) == (first.0, Seq::<(int, int)>::empty())
        }),
{
    let cands = pairs_upto(nodes, nodes.len() as int, arg_size);
    lemma_sd_emit_records(nodes, cands, seen);
    lemma_sd_emit_all_seen(nodes, cands, sd_emit(nodes, cands, seen).0);
}

/// What merging the results `nodes` of one path does to the function's
/// aliases of `g`, giving `h`: the interface aliases not recorded before
/// are appended, their keys recorded, and (on a normal path) the pointer
/// arguments left dead are added to the dangling ones.
pub open spec fn results_merged(g: SafeDropGraph, h: SafeDropGraph, nodes: Seq<ValueNode>, is_cleanup: bool) -> bool {
    let cands = pairs_upto(nodes, nodes.len() as int, g.arg_size);
    let (seen, emitted) = sd_emit(nodes, cands, g.return_set@.to_set());
    let before = g.ret_alias.alias_vec@;
    let after = h.ret_alias.alias_vec@;
    &&& h.return_set@.to_set() == seen
    &&& after.len() == before.len() + emitted.len()
    &&& forall|t: int| 0 <= t < before.len() ==> #[trigger] after[t] == before[t]
    &&& forall|t: int| 0 <= t < emitted.len() ==> sd_alias_of(#[trigger] after[before.len() + t], nodes[emitted[t].0], nodes[emitted[t].1])
    &&& h.ret_alias.dead@ == g.ret_alias.dead@.union(
        Set::new(|x: usize| exists|i: int| 0 <= i < nodes.len() && leaves_dead(#[trigger] nodes[i], g.arg_size, is_cleanup) && nodes[i].index == x),
    )
}

/// Merging the same results of a path twice: the second merge leaves the
/// function's aliases, its dangling arguments and its recorded keys as
/// the first left them; on a cleanup path the dangling arguments are never
/// changed.
pub proof fn lemma_merge_results_twice(g0: SafeDropGraph, g1: SafeDropGraph, g2: SafeDropGraph, nodes: Seq<ValueNode>, is_cleanup: bool)
    requires
        results_merged(g0, g1, nodes, is_cleanup),
        results_merged(g1, g2, nodes, is_cleanup),
        g1.arg_size == g0.arg_size,
    ensures
        g2.ret_alias.alias_vec@ == g1.ret_alias.alias_vec@,
        g2.ret_alias.dead@ == g1.ret_alias.dead@,
        g2.return_set@.to_set() == g1.return_set@.to_set(),
        is_cleanup ==> g1.ret_alias.dead@ == g0.ret_alias.dead@,
{
    let cands = pairs_upto(nodes, nodes.len() as int, g0.arg_size);
    lemma_merge_results_records_once(nodes, g0.arg_size, g0.return_set@.to_set());
    assert(sd_emit(nodes, cands, g1.return_set@.to_set()).1.len() == 0);
    assert(g2.ret_alias.alias_vec@ =~= g1.ret_alias.alias_vec@);
    let died = Set::new(|x: usize| exists|i: int| 0 <= i < nodes.len() && leaves_dead(#[trigger] nodes[i], g0.arg_size, is_cleanup) && nodes[i].index == x);
    assert(g1.ret_alias.dead@.union(died) =~= g1.ret_alias.dead@) by {
        assert forall|x: usize| died.contains(x) implies g1.ret_alias.dead@.contains(x) by {
            assert(g1.ret_alias.dead@ == g0.ret_alias.dead@.union(died));
        }
    }
    if is_cleanup {
        assert(died =~= Set::<usize>::empty());
        assert(g0.ret_alias.dead@.union(died) =~= g0.ret_alias.dead@);
    }
}

/// Whether the pair is on the list.
fn pair_in(v: &Vec<(usize, usize)>, p: (usize, usize)) -> (res: bool)
    ensures
        res == v@.contains(p),
{
    let mut i: usize = 0;
    while i < v.len()
        invariant
            i <= v@.len(),
            forall|j: int| 0 <= j < i ==> v@[j] != p,
        decreases v@.len() - i,
    {
        if v[i].0 == p.0 && v[i].1 == p.1 {
            assert(v@[i as int] == p);
            return true;
        }
        i = i + 1;
    }
    false
}

impl SafeDropGraph {
    /// Gives `birth` to `node`, to the nodes below it and to the dead nodes
    /// they alias (see `ValueGraph::fill_birth`).
    pub fn fill_birth(&mut self, node: usize, birth: isize)
        requires
            old(self).values.wf(),
            node < old(self).values.len(),
        ensures
            final(self).values.wf(),
            birth_filled(old(self).values.values@, final(self).values.values@, node as int, birth),
            final(self).arg_size == old(self).arg_size,
            final(self).ret_alias == old(self).ret_alias,
            final(self).return_set == old(self).return_set,
            final(self).bug_records == old(self).bug_records,
            final(self).span == old(self).span,
            final(self).same_body(old(self)),
    {
        self.values.fill_birth(node, birth);
    }

    /// Makes `lv` alias what `rv` aliases, field by field: along every
    /// field path from `rv`, the node below `lv` has its alias list merged
    /// with that of `rv`'s node (see `merged_into`); the nodes added are
    /// exactly one per such path missing below `lv`, each hanging under the
    /// node it belongs to with its birth, and having the drop flags and
    /// kind of `rv`'s node at the same path.
    pub fn merge_alias(&mut self, lv: usize, rv: usize)
        requires
            old(self).values.wf(),
            lv < old(self).values.len(),
            rv < old(self).values.len(),
            old(self).values.unrelated_or_same(lv as int, rv as int),
        ensures
            ValueGraph::merged_into(&old(self).values, &final(self).values, lv as int, rv as int),
            lv == rv ==> final(self).values.len() == old(self).values.len(),
            forall|y: int| old(self).values.len() <= y < final(self).values.len() ==> #[trigger] hangs_under(&final(self).values, y, true),
            final(self).arg_size == old(self).arg_size,
            final(self).ret_alias == old(self).ret_alias,
            final(self).return_set == old(self).return_set,
            final(self).bug_records == old(self).bug_records,
            final(self).span == old(self).span,
            final(self).same_body(old(self)),
    {
        self.values.merge_alias_nodes(lv, rv, true);
    }

    /// Applies an alias of a callee at a call site (see `MopGraph::merge`);
    /// the nodes created on the way take the birth of the node they hang under.
    pub fn merge(&mut self, ret_alias: &RetAlias, arg_vec: &Vec<usize>) -> (in_range: bool)
        requires
            old(self).values.wf(),
            ret_alias.left_index < arg_vec@.len() && ret_alias.right_index < arg_vec@.len() ==> arg_vec@[ret_alias.left_index as int] < old(self).values.len() && arg_vec@[ret_alias.right_index as int] < old(self).values.len(),
        ensures
            final(self).arg_size == old(self).arg_size,
            final(self).ret_alias == old(self).ret_alias,
            final(self).return_set == old(self).return_set,
            final(self).bug_records == old(self).bug_records,
            final(self).span == old(self).span,
            final(self).same_body(old(self)),
            sd_merge_effect(old(self).values, final(self).values, *ret_alias, arg_vec@),
            in_range == (ret_alias.left_index < arg_vec@.len() && ret_alias.right_index < arg_vec@.len()),
    {
        if ret_alias.left_index >= arg_vec.len() || ret_alias.right_index >= arg_vec.len() {
            return false;
        }
        let ghost g0 = self.values;
        let left_init = arg_vec[ret_alias.left_index];
        let right_init = arg_vec[ret_alias.right_index];
        let lv = self.values.walk_fields(
            left_init,
            &ret_alias.left,
            left_init,
            ret_alias.left_need_drop,
            ret_alias.left_may_drop,
            true,
            false,
        );
        let ghost ga = self.values;
        let rv = self.values.walk_fields(
            right_init,
            &ret_alias.right,
            right_init,
            ret_alias.right_need_drop,
            ret_alias.right_may_drop,
            true,
            true,
        );
        let ghost g1 = self.values;
        proof {
            crate::value_graph::lemma_grows_trans(&g0, &ga, &g1);
            crate::value_graph::lemma_path_end_stable(&ga, &g1, left_init as int, ret_alias.left@, false);
            crate::value_graph::lemma_added_by_walks(&g0, &ga, &g1, left_init as int, ret_alias.left@, right_init as int, ret_alias.right@);
        }
        if self.values.unrelated(lv, rv) {
            self.values.merge_alias_nodes(lv, rv, true);
        }
        proof {
            assert(g1.path_end(left_init as int, ret_alias.left@, false) == Some(lv as int));
        }
        true
    }

    /// The field path of a node (see `field_seq`).
    pub fn get_field_seq(&self, value: &ValueNode) -> (res: Vec<usize>)
        requires
            field_seq_ok(&self.values, *value),
        ensures
            res@ == field_seq_spec(*value),
    {
        field_seq(&self.values, value)
    }

    /// Records, for the nodes of one explored path, every interface alias
    /// (see `pairs_upto`) not recorded before as a new entry of the
    /// function's aliases, and on a normal path every pointer argument left
    /// dead as dangling.
    pub fn merge_results(&mut self, results_nodes: Vec<ValueNode>, is_cleanup: bool)
        requires
            results_readable(&old(self).values, results_nodes@, old(self).arg_size),
        ensures
            final(self).values == old(self).values,
            final(self).arg_size == old(self).arg_size,
            final(self).bug_records == old(self).bug_records,
            final(self).span == old(self).span,
            final(self).same_body(old(self)),
            final(self).ret_alias.arg_size == old(self).ret_alias.arg_size,
            results_merged(*old(self), *final(self), results_nodes@, is_cleanup),
    {
        let ghost nodes = results_nodes@;
        let ghost arg = self.arg_size;
        let ghost before = self.ret_alias.alias_vec@;
        let ghost seen0 = self.return_set@.to_set();
        let ghost dead0 = self.ret_alias.dead@;
        let ghost all = pairs_upto(nodes, nodes.len() as int, arg);
        let mut i: usize = 0;
        while i < results_nodes.len()
            invariant
                nodes == results_nodes@,
                arg == self.arg_size,
                all == pairs_upto(nodes, nodes.len() as int, arg),
                results_readable(&self.values, nodes, arg),
                i <= nodes.len(),
                self.values == old(self).values,
                self.arg_size == old(self).arg_size,
                self.bug_records == old(self).bug_records,
                self.span == old(self).span,
                self.same_body(old(self)),
                self.ret_alias.arg_size == old(self).ret_alias.arg_size,
                before == old(self).ret_alias.alias_vec@,
                seen0 == old(self).return_set@.to_set(),
                dead0 == old(self).ret_alias.dead@,
                self.return_set@.to_set() == sd_emit(nodes, pairs_upto(nodes, i as int, arg), seen0).0,
                self.ret_alias.alias_vec@.len() == before.len() + sd_emit(nodes, pairs_upto(nodes, i as int, arg), seen0).1.len(),
                forall|t: int| 0 <= t < before.len() ==> #[trigger] self.ret_alias.alias_vec@[t] == before[t],
                forall|t: int| 0 <= t < sd_emit(nodes, pairs_upto(nodes, i as int, arg), seen0).1.len() ==> sd_alias_of(
                    #[trigger] self.ret_alias.alias_vec@[before.len() + t],
                    nodes[sd_emit(nodes, pairs_upto(nodes, i as int, arg), seen0).1[t].0],
                    nodes[sd_emit(nodes, pairs_upto(nodes, i as int, arg), seen0).1[t].1],
                ),
                self.ret_alias.dead@ == dead0.union(
                    Set::new(|x: usize| exists|k: int| 0 <= k < i && leaves_dead(#[trigger] nodes[k], arg, is_cleanup) && nodes[k].index == x),
                ),
            decreases nodes.len() - i,
        {
            let ghost pre = pairs_upto(nodes, i as int, arg);
            let ghost dead_before = self.ret_alias.dead@;
            proof {
                lemma_pairs_prefix(nodes, i as int + 1, nodes.len() as int, arg);
            }
            let node = &results_nodes[i];
            let mut reports = false;
            if node.local <= self.arg_size {
                assert(nodes[i as int].alias@.len() > 0);
                if node.alias[0] != node.index || node.alias.len() > 1 {
                    reports = true;
                }
            }
            if reports {
                let mut j: usize = 0;
                while j < node.alias.len()
                    invariant
                        nodes == results_nodes@,
                        *node == nodes[i as int],
                        arg == self.arg_size,
                        all == pairs_upto(nodes, nodes.len() as int, arg),
                        results_readable(&self.values, nodes, arg),
                        i < nodes.len(),
                        node_reports(nodes, i as int, arg),
                        pre == pairs_upto(nodes, i as int, arg),
                        all.len() >= pre.len() + node_pairs(nodes, i as int, arg).len(),
                        forall|t: int| 0 <= t < pre.len() + node_pairs(nodes, i as int, arg).len() ==> #[trigger] all[t] == (pre + node_pairs(nodes, i as int, arg))[t],
                        j <= node.alias@.len(),
                        self.values == old(self).values,
                        self.arg_size == old(self).arg_size,
                        self.bug_records == old(self).bug_records,
                        self.span == old(self).span,
                        self.same_body(old(self)),
                        self.ret_alias.arg_size == old(self).ret_alias.arg_size,
                        self.ret_alias.dead@ == dead_before,
                        before == old(self).ret_alias.alias_vec@,
                        self.return_set@.to_set() == sd_emit(nodes, pre + alias_pairs(nodes, i as int, node.alias@.take(j as int), arg), seen0).0,
                        self.ret_alias.alias_vec@.len() == before.len() + sd_emit(nodes, pre + alias_pairs(nodes, i as int, node.alias@.take(j as int), arg), seen0).1.len(),
                        forall|t: int| 0 <= t < before.len() ==> #[trigger] self.ret_alias.alias_vec@[t] == before[t],
                        forall|t: int| 0 <= t < sd_emit(nodes, pre + alias_pairs(nodes, i as int, node.alias@.take(j as int), arg), seen0).1.len() ==> sd_alias_of(
                            #[trigger] self.ret_alias.alias_vec@[before.len() + t],
                            nodes[sd_emit(nodes, pre + alias_pairs(nodes, i as int, node.alias@.take(j as int), arg), seen0).1[t].0],
                            nodes[sd_emit(nodes, pre + alias_pairs(nodes, i as int, node.alias@.take(j as int), arg), seen0).1[t].1],
                        ),
                    decreases node.alias@.len() - j,
                {
                    let ghost ap = alias_pairs(nodes, i as int, node.alias@.take(j as int), arg);
                    let ghost cur = pre + ap;
                    let alias = node.alias[j];
                    proof {
                        assert(node.alias@.take(j + 1).drop_last() =~= node.alias@.take(j as int));
                        assert(node.alias@.take(j + 1).last() == alias);
                        assert(alias < nodes.len());
                        crate::alias::lemma_alias_pairs_prefix_pub(nodes, i as int, node.alias@, j as int + 1, arg);
                    }
                    if results_nodes[alias].local <= self.arg_size && alias != node.index
                        && node.local != results_nodes[alias].local {
                        let ghost c = (i as int, alias as int);
                        proof {
                            assert(alias_pairs(nodes, i as int, node.alias@.take(j + 1), arg) == ap.push(c));
                            assert(cur.push(c).drop_last() =~= cur);
                            assert(pre + ap.push(c) =~= cur.push(c));
                        }
                        let key = (node.index, alias);
                        if !pair_in(&self.return_set, key) {
                            proof {
                                let np = node_pairs(nodes, i as int, arg);
                                let t0: int = (pre.len() + ap.len()) as int;
                                assert(np[ap.len() as int] == c);
                                assert(all[t0] == (pre + np)[t0]);
                                assert(all[t0] == c);
                                assert(pair_readable(&self.values, nodes, all[t0]));
                                assert(field_seq_ok(&self.values, nodes[i as int]));
                                assert(field_seq_ok(&self.values, nodes[alias as int]));
                            }
                            let ghost rs_before = self.return_set@;
                            self.return_set.push(key);
                            proof {
                                rs_before.lemma_push_to_set_commute(key);
                                assert(self.return_set@ == rs_before.push(key));
                            }
                            let left_node = node;
                            let right_node = &results_nodes[alias];
                            let mut new_alias = RetAlias::new(
                                0,
                                left_node.local,
                                left_node.may_drop,
                                left_node.need_drop,
                                right_node.local,
                                right_node.may_drop,
                                right_node.need_drop,
                            );
                            new_alias.left = self.get_field_seq(left_node);
                            new_alias.right = self.get_field_seq(right_node);
                            self.ret_alias.alias_vec.push(new_alias);
                        }
                    }
                    j = j + 1;
                }
                proof {
                    assert(node.alias@.take(node.alias@.len() as int) =~= node.alias@);
                }
            }
            if node.local <= self.arg_size && node.is_ptr() && is_cleanup == false && node.is_alive() == false
                && node.index <= self.arg_size {
                self.ret_alias.dead.insert(node.index);
            }
            proof {
                let np = node_pairs(nodes, i as int, arg);
                assert(pairs_upto(nodes, i + 1, arg) == pre + np);
                if !reports {
                    assert(np =~= Seq::<(int, int)>::empty());
                    assert(pre + np =~= pre);
                }
                let dn = Set::new(|x: usize| exists|k: int| 0 <= k < i + 1 && leaves_dead(#[trigger] nodes[k], arg, is_cleanup) && nodes[k].index == x);
                let dp = Set::new(|x: usize| exists|k: int| 0 <= k < i && leaves_dead(#[trigger] nodes[k], arg, is_cleanup) && nodes[k].index == x);
                if leaves_dead(nodes[i as int], arg, is_cleanup) {
                    assert(dn =~= dp.insert(nodes[i as int].index));
                } else {
                    assert(dn =~= dp);
                }
            }
            i = i + 1;
        }
    }
}

/// The pairs of a prefix of the nodes start the pairs of a longer prefix.
proof fn lemma_pairs_prefix(nodes: Seq<ValueNode>, m: int, n: int, arg_size: usize)
    requires
        0 <= m <= n,
    ensures
        pairs_upto(nodes, m, arg_size).len() <= pairs_upto(nodes, n, arg_size).len(),
        forall|t: int| 0 <= t < pairs_upto(nodes, m, arg_size).len() ==> #[trigger] pairs_upto(nodes, n, arg_size)[t]
            == pairs_upto(nodes, m, arg_size)[t],
    decreases n - m,
{
    if m < n {
        lemma_pairs_prefix(nodes, m, n - 1, arg_size);
    }
}

/// `y` follows `x` in the search for dead values: an entry of the alias
/// list of `x` other than `x` (when `x` was assigned from another node),
/// or a field node of `x`.
pub open spec fn dead_succ(g: &ValueGraph, x: usize, y: usize) -> bool {
    let n = g.values@[x as int];
    ||| (n.alias@[0] != x && y != x && in_prefix(n.alias@, n.alias@.len() as int, y as int))
    ||| exists|j: int| 0 <= j < n.fields@.len() && #[trigger] n.fields@[j].1 == y
}

/// The value of `y` is dead (and, when looking for dangling pointers, a pointer).
pub open spec fn dead_target(g: &ValueGraph, y: usize, dangling: bool) -> bool {
    !g.values@[y as int].alive() && (!dangling || g.values@[y as int].ptr())
}

/// `p` is a search path: it steps along `dead_succ`, avoids the nodes in
/// `r` and ends at a dead target.
pub open spec fn dead_path(g: &ValueGraph, p: Seq<usize>, r: Set<usize>, dangling: bool) -> bool {
    &&& p.len() >= 1
    &&& forall|i: int| 0 <= i < p.len() ==> (#[trigger] p[i] as int) < g.len() && !r.contains(p[i])
    &&& forall|i: int| 0 <= i < p.len() - 1 ==> dead_succ(g, #[trigger] p[i], p[i + 1])
    &&& dead_target(g, p.last(), dangling)
}

/// Some dead target is reachable from `node` without passing through `r`.
pub open spec fn reaches_dead(g: &ValueGraph, node: usize, r: Set<usize>, dangling: bool) -> bool {
    exists|p: Seq<usize>| #[trigger] dead_path(g, p, r, dangling) && p[0] == node
}

/// Every node that `fin` adds to `r` is no dead target and has all its
/// successors in `fin`.
pub open spec fn search_closed(g: &ValueGraph, r: Set<usize>, fin: Set<usize>, dangling: bool) -> bool {
    forall|x: usize| #[trigger] fin.contains(x) && !r.contains(x) ==> {
        &&& (x as int) < g.len()
        &&& !dead_target(g, x, dangling)
        &&& forall|y: usize| (y as int) < g.len() && dead_succ(g, x, y) ==> fin.contains(y)
    }
}

/// The indices below `n`.
pub open spec fn below(n: nat) -> Set<usize> {
    Set::new(|x: usize| x < n)
}

proof fn lemma_below(n: nat)
    requires
        n <= usize::MAX + 1,
    ensures
        below(n).finite(),
        below(n).len() == n,
    decreases n,
{
    if n == 0 {
        assert(below(0) =~= Set::<usize>::empty());
    } else {
        lemma_below((n - 1) as nat);
        assert(below(n) =~= below((n - 1) as nat).insert((n - 1) as usize));
    }
}

/// A closed search set that holds `node` leaves no dead target reachable
/// from `node` outside the set it started from.
proof fn lemma_closed_unreachable(g: &ValueGraph, node: usize, r: Set<usize>, fin: Set<usize>, dangling: bool)
    requires
        search_closed(g, r, fin, dangling),
        fin.contains(node),
        !r.contains(node),
    ensures
        !reaches_dead(g, node, r, dangling),
{
    if reaches_dead(g, node, r, dangling) {
        let p = choose|p: Seq<usize>| #[trigger] dead_path(g, p, r, dangling) && p[0] == node;
        let l = p.len() - 1;
        lemma_closed_prefix(g, r, fin, dangling, p, l);
        assert(!r.contains(p[l]));
        assert(p.last() == p[l]);
        assert(fin.contains(p[l]) && !r.contains(p[l]));
    }
}

proof fn lemma_closed_prefix(g: &ValueGraph, r: Set<usize>, fin: Set<usize>, dangling: bool, p: Seq<usize>, i: int)
    requires
        search_closed(g, r, fin, dangling),
        dead_path(g, p, r, dangling),
        fin.contains(p[0]),
        0 <= i < p.len(),
    ensures
        fin.contains(p[i]),
    decreases i,
{
    if i > 0 {
        lemma_closed_prefix(g, r, fin, dangling, p, i - 1);
        let x = p[i - 1];
        assert((p[i - 1] as int) < g.len() && !r.contains(p[i - 1]));
        assert(fin.contains(x) && !r.contains(x));
        assert(dead_succ(g, p[i - 1], p[i]));
        assert((p[i] as int) < g.len());
    }
}

/// A path from a successor of `node` extends to one from `node`.
proof fn lemma_path_prepend(g: &ValueGraph, node: usize, p: Seq<usize>, r0: Set<usize>, rc: Set<usize>, dangling: bool)
    requires
        dead_path(g, p, rc, dangling),
        dead_succ(g, node, p[0]),
        (node as int) < g.len(),
        !r0.contains(node),
        r0.subset_of(rc),
    ensures
        dead_path(g, seq![node] + p, r0, dangling),
{
    let q = seq![node] + p;
    assert forall|t: int| 0 <= t < q.len() implies (#[trigger] q[t] as int) < g.len() && !r0.contains(q[t]) by {
        if t > 0 {
            assert(q[t] == p[t - 1]);
        }
    }
    assert forall|t: int| 0 <= t < q.len() - 1 implies dead_succ(g, #[trigger] q[t], q[t + 1]) by {
        if t > 0 {
            assert(q[t] == p[t - 1]);
            assert(q[t + 1] == p[t]);
        }
    }
    assert(q.last() == p.last());
}

impl SafeDropGraph {
    /// Searches from `node` for a dead value (a dead pointer, when looking
    /// for dangling pointers) along alias lists and fields, skipping the
    /// nodes already in `record` and adding those it passes.
    pub fn exist_dead(&self, node: usize, record: &mut HashSet<usize>, dangling: bool) -> (res: bool)
        requires
            self.values.wf(),
            node < self.values.len(),
            !old(record)@.contains(node),
            old(record)@.subset_of(below(self.values.len())),
        ensures
            res == reaches_dead(&self.values, node, old(record)@, dangling),
            old(record)@.subset_of(final(record)@),
            final(record)@.subset_of(below(self.values.len())),
            !res ==> final(record)@.contains(node),
            !res ==> search_closed(&self.values, old(record)@, final(record)@, dangling),
        decreases self.values.len() - old(record)@.len(),
    {
        let ghost g = self.values;
        let ghost r0 = record@;
        let n_values = self.values.values.len();
        proof {
            lemma_below(g.len());
            vstd::set_lib::lemma_len_subset(r0, below(g.len()));
        }
        if self.values.values[node].is_alive() == false && (dangling && self.values.values[node].is_ptr() || !dangling) {
            proof {
                let p = seq![node];
                assert(dead_path(&g, p, r0, dangling));
            }
            return true;
        }
        record.insert(node);
        proof {
            assert(r0.insert(node).len() == r0.len() + 1);
        }
        assert(g.node_wf(node as int));
        if self.values.values[node].alias[0] != node {
            let alias = self.values.values[node].alias.clone();
            assert(alias@ =~= g.values@[node as int].alias@);
            let mut k: usize = 0;
            while k < alias.len()
                invariant
                    g == self.values,
                    g.wf(),
                    g.len() == n_values,
                    node < g.len(),
                    r0 == old(record)@,
                    r0.finite(),
                    !r0.contains(node),
                    r0.insert(node).len() == r0.len() + 1,
                    r0.subset_of(below(g.len())),
                    below(g.len()).finite(),
                    below(g.len()).len() == g.len(),
                    alias@ == g.values@[node as int].alias@,
                    g.values@[node as int].alias@[0] != node,
                    !dead_target(&g, node, dangling),
                    k <= alias@.len(),
                    r0.subset_of(record@),
                    record@.contains(node),
                    record@.subset_of(below(g.len())),
                    search_closed(&g, r0.insert(node), record@, dangling),
                    forall|t: int| 0 <= t < k ==> record@.contains(#[trigger] alias@[t]),
                decreases alias@.len() - k,
            {
                let i = alias[k];
                assert(g.node_wf(node as int));
                assert(alias@[k as int] < g.len());
                if i != node && record.contains(&i) == false {
                    let ghost rc = record@;
                    proof {
                        vstd::set_lib::lemma_len_subset(rc, below(g.len()));
                        vstd::set_lib::lemma_len_subset(r0.insert(node), rc);
                    }
                    if self.exist_dead(i, record, dangling) {
                        proof {
                            let p = choose|p: Seq<usize>| #[trigger] dead_path(&g, p, rc, dangling) && p[0] == i;
                            assert(dead_succ(&g, node, i)) by {
                                assert(alias@[k as int] as int == i as int);
                            }
                            lemma_path_prepend(&g, node, p, r0, rc, dangling);
                            assert((seq![node] + p)[0] == node);
                        }
                        return true;
                    }
                    proof {
                        assert forall|x: usize| #[trigger] record@.contains(x) && !r0.insert(node).contains(x) implies {
                            &&& (x as int) < g.len()
                            &&& !dead_target(&g, x, dangling)
                            &&& forall|y: usize| (y as int) < g.len() && dead_succ(&g, x, y) ==> record@.contains(y)
                        } by {
                            if rc.contains(x) {
                                assert(rc.contains(x) && !r0.insert(node).contains(x));
                            } else {
                                assert(record@.contains(x) && !rc.contains(x));
                            }
                        }
                    }
                }
                k = k + 1;
            }
        }
        let fields = crate::value_graph::copy_pairs(&self.values.values[node].fields);
        assert(fields@ == g.values@[node as int].fields@);
        let mut k: usize = 0;
        while k < fields.len()
            invariant
                g == self.values,
                g.wf(),
                g.len() == n_values,
                node < g.len(),
                r0 == old(record)@,
                r0.finite(),
                !r0.contains(node),
                r0.insert(node).len() == r0.len() + 1,
                r0.subset_of(below(g.len())),
                below(g.len()).finite(),
                below(g.len()).len() == g.len(),
                fields@ == g.values@[node as int].fields@,
                !dead_target(&g, node, dangling),
                k <= fields@.len(),
                r0.subset_of(record@),
                record@.contains(node),
                record@.subset_of(below(g.len())),
                search_closed(&g, r0.insert(node), record@, dangling),
                g.values@[node as int].alias@[0] != node ==> forall|t: int| 0 <= t < g.values@[node as int].alias@.len() ==> record@.contains(#[trigger] g.values@[node as int].alias@[t]),
                forall|t: int| 0 <= t < k ==> record@.contains(#[trigger] fields@[t].1),
            decreases fields@.len() - k,
        {
            let c = fields[k].1;
            assert(g.node_wf(node as int));
            assert(c < g.len());
            if record.contains(&c) == false {
                let ghost rc = record@;
                proof {
                    vstd::set_lib::lemma_len_subset(rc, below(g.len()));
                    vstd::set_lib::lemma_len_subset(r0.insert(node), rc);
                }
                if self.exist_dead(c, record, dangling) {
                    proof {
                        let p = choose|p: Seq<usize>| #[trigger] dead_path(&g, p, rc, dangling) && p[0] == c;
                        assert(dead_succ(&g, node, c)) by {
                            assert(g.values@[node as int].fields@[k as int].1 == c);
                        }
                        lemma_path_prepend(&g, node, p, r0, rc, dangling);
                        assert((seq![node] + p)[0] == node);
                    }
                    return true;
                }
                proof {
                    assert forall|x: usize| #[trigger] record@.contains(x) && !r0.insert(node).contains(x) implies {
                        &&& (x as int) < g.len()
                        &&& !dead_target(&g, x, dangling)
                        &&& forall|y: usize| (y as int) < g.len() && dead_succ(&g, x, y) ==> record@.contains(y)
                    } by {
                        if rc.contains(x) {
                            assert(rc.contains(x) && !r0.insert(node).contains(x));
                        } else {
                            assert(record@.contains(x) && !rc.contains(x));
                        }
                    }
                }
            }
            k = k + 1;
        }
        proof {
            let fin = record@;
            assert forall|x: usize| #[trigger] fin.contains(x) && !r0.contains(x) implies {
                &&& (x as int) < g.len()
                &&& !dead_target(&g, x, dangling)
                &&& forall|y: usize| (y as int) < g.len() && dead_succ(&g, x, y) ==> fin.contains(y)
            } by {
                if x == node {
                    assert forall|y: usize| (y as int) < g.len() && dead_succ(&g, x, y) implies fin.contains(y) by {
                        let n = g.values@[node as int];
                        if n.alias@[0] != node && y != node && in_prefix(n.alias@, n.alias@.len() as int, y as int) {
                            let t = choose|t: int| 0 <= t < n.alias@.len() && #[trigger] n.alias@[t] as int == y as int;
                            assert(fin.contains(n.alias@[t]));
                        } else {
                            let j = choose|j: int| 0 <= j < n.fields@.len() && #[trigger] n.fields@[j].1 == y;
                            assert(fin.contains(fields@[j].1));
                        }
                    }
                } else {
                    assert(fin.contains(x) && !r0.insert(node).contains(x));
                }
            }
            lemma_closed_unreachable(&g, node, r0, fin, dangling);
        }
        false
    }
}

/// Some argument (locals 1 to `arg_size`) is a pointer from which a dead
/// pointer is reachable.
pub open spec fn some_arg_dangling(g: &ValueGraph, arg_size: usize) -> bool {
    exists|i: int| 1 <= i <= arg_size && #[trigger] g.values@[i].ptr() && reaches_dead(g, i as usize, Set::empty(), true)
}

impl SafeDropGraph {
    /// A dead value is reachable from `local` (a dead pointer, unless
    /// `local` is the return value).
    pub fn is_dangling(&self, local: usize) -> (res: bool)
        requires
            self.values.wf(),
            local < self.values.len(),
        ensures
            res == reaches_dead(&self.values, local, Set::empty(), local != 0),
    {
        let mut record: HashSet<usize> = HashSet::new();
        assert(record@.subset_of(below(self.values.len())));
        self.exist_dead(local, &mut record, local != 0)
    }

    /// Reports a double free when the dropped value is already dead (once
    /// per local), and tells whether it was.
    pub fn df_check(&mut self, drop: usize, span: usize) -> (res: bool)
        requires
            old(self).values.wf(),
            drop < old(self).values.len(),
        ensures
            res == !old(self).values.values@[drop as int].alive(),
            ({
                let root = old(self).values.values@[drop as int].local;
                final(self).bug_records.df_bugs@ == if res && !old(self).bug_records.df_bugs@.contains_key(root) {
                    old(self).bug_records.df_bugs@.insert(root, span)
                } else {
                    old(self).bug_records.df_bugs@
                }
            }),
            final(self).values == old(self).values,
            final(self).bug_records.df_bugs_unwind == old(self).bug_records.df_bugs_unwind,
            final(self).bug_records.uaf_bugs == old(self).bug_records.uaf_bugs,
            final(self).bug_records.dp_bugs == old(self).bug_records.dp_bugs,
            final(self).bug_records.dp_bugs_unwind == old(self).bug_records.dp_bugs_unwind,
            final(self).arg_size == old(self).arg_size,
            final(self).ret_alias == old(self).ret_alias,
            final(self).return_set == old(self).return_set,
            final(self).span == old(self).span,
            final(self).same_body(old(self)),
    {
        let root = self.values.values[drop].local;
        if self.values.values[drop].is_alive() == false && self.bug_records.df_bugs.contains_key(&root) == false {
            self.bug_records.df_bugs.insert(root, span);
        }
        self.values.values[drop].is_alive() == false
    }

    /// Reports a use after free at `span` when the value of the node
    /// `aliaset_idx` may drop, is used other than through a pointer of its
    /// own local (or in a call), and reaches a dead value.
    pub fn uaf_check(&mut self, aliaset_idx: usize, span: usize, local: usize, is_func_call: bool)
        requires
            old(self).values.wf(),
            aliaset_idx < old(self).values.len(),
        ensures
            ({
                let g = &old(self).values;
                let n = g.values@[aliaset_idx as int];
                let found = n.may_drop && (!n.ptr() || n.local != local || is_func_call)
                    && reaches_dead(g, aliaset_idx, Set::empty(), false);
                final(self).bug_records.uaf_bugs@ == if found {
                    old(self).bug_records.uaf_bugs@.insert(span)
                } else {
                    old(self).bug_records.uaf_bugs@
                }
            }),
            final(self).values == old(self).values,
            final(self).bug_records.df_bugs == old(self).bug_records.df_bugs,
            final(self).bug_records.df_bugs_unwind == old(self).bug_records.df_bugs_unwind,
            final(self).bug_records.dp_bugs == old(self).bug_records.dp_bugs,
            final(self).bug_records.dp_bugs_unwind == old(self).bug_records.dp_bugs_unwind,
            final(self).arg_size == old(self).arg_size,
            final(self).ret_alias == old(self).ret_alias,
            final(self).return_set == old(self).return_set,
            final(self).span == old(self).span,
            final(self).same_body(old(self)),
    {
        let mut record: HashSet<usize> = HashSet::new();
        assert(record@.subset_of(below(self.values.len())));
        if self.values.values[aliaset_idx].may_drop && (!self.values.values[aliaset_idx].is_ptr()
            || self.values.values[aliaset_idx].local != local || is_func_call) && self.exist_dead(
            aliaset_idx,
            &mut record,
            false,
        ) && !self.bug_records.uaf_bugs.contains(&span) {
            self.bug_records.uaf_bugs.insert(span);
        }
    }

    /// Looks for dangling pointers at the end of a path: on an unwinding
    /// path, pointer arguments from which a dead pointer is reachable; on a
    /// normal path, also the return value when it may drop and a dead value
    /// is reachable from it (which is reported alone).
    pub fn dp_check(&mut self, is_cleanup: bool)
        requires
            old(self).values.wf(),
            old(self).arg_size < old(self).values.len(),
        ensures
            ({
                let g = &old(self).values;
                let args = some_arg_dangling(g, old(self).arg_size);
                let ret = g.values@[0].may_drop && reaches_dead(g, 0, Set::empty(), false);
                let sp = old(self).span;
                &&& final(self).bug_records.dp_bugs_unwind@ == if is_cleanup && args {
                    old(self).bug_records.dp_bugs_unwind@.insert(sp)
                } else {
                    old(self).bug_records.dp_bugs_unwind@
                }
                &&& final(self).bug_records.dp_bugs@ == if !is_cleanup && (ret || args) {
                    old(self).bug_records.dp_bugs@.insert(sp)
                } else {
                    old(self).bug_records.dp_bugs@
                }
            }),
            final(self).values == old(self).values,
            final(self).bug_records.df_bugs == old(self).bug_records.df_bugs,
            final(self).bug_records.df_bugs_unwind == old(self).bug_records.df_bugs_unwind,
            final(self).bug_records.uaf_bugs == old(self).bug_records.uaf_bugs,
            final(self).arg_size == old(self).arg_size,
            final(self).ret_alias == old(self).ret_alias,
            final(self).return_set == old(self).return_set,
            final(self).span == old(self).span,
            final(self).same_body(old(self)),
    {
        if is_cleanup {
            let found = self.any_arg_dangling();
            if found {
                self.bug_records.dp_bugs_unwind.insert(self.span);
            }
        } else {
            if self.values.values[0].may_drop && self.is_dangling(0) {
                self.bug_records.dp_bugs.insert(self.span);
            } else {
                let found = self.any_arg_dangling();
                if found {
                    self.bug_records.dp_bugs.insert(self.span);
                }
            }
        }
    }

    /// Some argument is a pointer from which a dead pointer is reachable.
    fn any_arg_dangling(&self) -> (res: bool)
        requires
            self.values.wf(),
            self.arg_size < self.values.len(),
        ensures
            res == some_arg_dangling(&self.values, self.arg_size),
    {
        let mut found = false;
        let mut i: usize = 0;
        while i < self.arg_size
            invariant
                self.values.wf(),
                self.arg_size < self.values.len(),
                i <= self.arg_size,
                found == exists|t: int| 1 <= t <= i && #[trigger] self.values.values@[t].ptr() && reaches_dead(&self.values, t as usize, Set::empty(), true),
            decreases self.arg_size - i,
        {
            if self.values.values[i + 1].is_ptr() && self.is_dangling(i + 1) {
                found = true;
            }
            proof {
                let t1 = (i + 1) as int;
                if self.values.values@[t1].ptr() && reaches_dead(&self.values, (i + 1) as usize, Set::empty(), true) {
                    assert(exists|t: int| 1 <= t <= i + 1 && #[trigger] self.values.values@[t].ptr() && reaches_dead(&self.values, t as usize, Set::empty(), true));
                }
                if exists|t: int| 1 <= t <= i + 1 && #[trigger] self.values.values@[t].ptr() && reaches_dead(&self.values, t as usize, Set::empty(), true) {
                    let t = choose|t: int| 1 <= t <= i + 1 && #[trigger] self.values.values@[t].ptr() && reaches_dead(&self.values, t as usize, Set::empty(), true);
                    if t <= i {
                    } else {
                        assert(t == t1);
                    }
                }
            }
            i = i + 1;
        }
        found
    }
}

} // verus!
