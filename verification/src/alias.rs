use vstd::prelude::*;
use std::collections::HashMap;
use crate::value_graph::{hangs_under, added_by_walk, ValueGraph, ValueNode, NO_FIELD, same_nodes};
use crate::mir_model::BlockNode;
use crate::text::{decimal, usize_to_decimal};

verus! {

/// An alias between two places of a function's interface: argument (or
/// return value, index 0) `left_index` through the fields
/// `left_field_seq`, and likewise on the right, with the drop flags of both.
#[derive(Debug, Clone)]
pub struct RetAlias {
    pub left_index: usize,
    pub left_field_seq: Vec<usize>,
    pub left_may_drop: bool,
    pub left_need_drop: bool,
    pub right_index: usize,
    pub right_field_seq: Vec<usize>,
    pub right_may_drop: bool,
    pub right_need_drop: bool,
}

impl RetAlias {
    /// An alias between two whole places (empty field sequences).
    pub fn new(
        left_index: usize,
        left_may_drop: bool,
        left_need_drop: bool,
        right_index: usize,
        right_may_drop: bool,
        right_need_drop: bool,
    ) -> (res: RetAlias)
        ensures
            res.left_index == left_index,
            res.left_field_seq@ == Seq::<usize>::empty(),
            res.left_may_drop == left_may_drop,
            res.left_need_drop == left_need_drop,
            res.right_index == right_index,
            res.right_field_seq@ == Seq::<usize>::empty(),
            res.right_may_drop == right_may_drop,
            res.right_need_drop == right_need_drop,
    {
        RetAlias {
            left_index,
            left_field_seq: Vec::new(),
            left_may_drop,
            left_need_drop,
            right_index,
            right_field_seq: Vec::new(),
            right_may_drop,
            right_need_drop,
        }
    }

    /// Both sides may drop, so the alias matters to the drop analysis.
    pub fn valuable(&self) -> (res: bool)
        ensures
            res == (self.left_may_drop && self.right_may_drop),
    {
        self.left_may_drop && self.right_may_drop
    }
}

/// How an alias prints: `(left,right)`.
pub open spec fn alias_text(r: RetAlias) -> Seq<char> {
    "("@ + decimal(r.left_index as nat) + ","@ + decimal(r.right_index as nat) + ")"@
}

/// The aliases printed one after the other.
pub open spec fn aliases_text(rs: Seq<RetAlias>) -> Seq<char>
    decreases rs.len(),
{
    if rs.len() == 0 {
        Seq::empty()
    } else {
        aliases_text(rs.drop_last()) + alias_text(rs.last())
    }
}

impl RetAlias {
    /// The printed form `(left,right)` of the alias's two places.
    pub fn to_string(&self) -> (res: String)
        ensures
            res@ == alias_text(*self),
    {
        let mut s = String::from_str("(");
        s.append(usize_to_decimal(self.left_index).as_str());
        s.append(",");
        s.append(usize_to_decimal(self.right_index).as_str());
        s.append(")");
        proof {
            reveal_strlit("(");
        }
        assert(s@ =~= alias_text(*self));
        s
    }
}

/// The aliases a function sets up among its arguments and return value.
#[derive(Debug, Clone)]
pub struct FnRetAlias {
    pub arg_size: usize,
    pub alias_vec: Vec<RetAlias>,
}

impl FnRetAlias {
    /// The printed form of the aliases, `[` and `]` around them.
    pub fn to_string(&self) -> (res: String)
        ensures
            res@ == "["@ + aliases_text(self.alias_vec@) + "]"@,
    {
        let mut s = String::from_str("[");
        proof {
            reveal_strlit("[");
        }
        let mut i: usize = 0;
        while i < self.alias_vec.len()
            invariant
                i <= self.alias_vec@.len(),
                s@ == "["@ + aliases_text(self.alias_vec@.take(i as int)),
            decreases self.alias_vec@.len() - i,
        {
            s.append(self.alias_vec[i].to_string().as_str());
            proof {
                let t = self.alias_vec@.take(i + 1);
                assert(t.drop_last() =~= self.alias_vec@.take(i as int));
                assert(t.last() == self.alias_vec@[i as int]);
            }
            assert(s@ =~= "["@ + aliases_text(self.alias_vec@.take(i + 1)));
            i = i + 1;
        }
        assert(self.alias_vec@.take(self.alias_vec@.len() as int) =~= self.alias_vec@);
        s.append("]");
        s
    }
}

impl FnRetAlias {
    pub fn new(arg_size: usize) -> (res: FnRetAlias)
        ensures
            res.arg_size == arg_size,
            res.alias_vec@.len() == 0,
    {
        FnRetAlias { arg_size, alias_vec: Vec::new() }
    }
}

/// The field path recorded for a node: empty for a node that is no field,
/// otherwise its own field index (the walk up goes to the node's `father`,
/// the local it belongs to, which is no field).
pub open spec fn field_seq_spec(v: ValueNode) -> Seq<usize> {
    if v.field_id == NO_FIELD {
        Seq::empty()
    } else {
        seq![v.field_id]
    }
}

/// The walk up from `v` ends: `v` is no field, or its father is none.
pub open spec fn field_seq_ok(g: &ValueGraph, v: ValueNode) -> bool {
    v.field_id == NO_FIELD || (v.father < g.len() && g.values@[v.father as int].field_id == NO_FIELD)
}

/// The field path of a node, innermost field first.
pub fn field_seq(g: &ValueGraph, value: &ValueNode) -> (res: Vec<usize>)
    requires
        field_seq_ok(g, *value),
    ensures
        res@ == field_seq_spec(*value),
{
    let mut field_id_seq: Vec<usize> = Vec::new();
    if value.field_id != NO_FIELD {
        field_id_seq.push(value.field_id);
        assert(field_id_seq@ =~= seq![value.field_id]);
    }
    field_id_seq
}

/// The nodes in `nodes` that a function's interface can see: locals up to
/// the argument count, that alias something else.
pub open spec fn node_reports(nodes: Seq<ValueNode>, i: int, arg_size: usize) -> bool {
    &&& nodes[i].local <= arg_size
    &&& (nodes[i].alias@[0] != nodes[i].index || nodes[i].alias@.len() > 1)
}

/// An alias `a` of node `i` that becomes an interface alias: an argument
/// (or the return value), not the node itself, of another local.
pub open spec fn pair_reports(nodes: Seq<ValueNode>, i: int, a: usize, arg_size: usize) -> bool {
    &&& nodes[a as int].local <= arg_size
    &&& a != nodes[i].index
    &&& nodes[i].local != nodes[a as int].local
}

/// The pairs (node, alias) among the aliases `al` of node `i`.
pub open spec fn alias_pairs(nodes: Seq<ValueNode>, i: int, al: Seq<usize>, arg_size: usize) -> Seq<(int, int)>
    decreases al.len(),
{
    if al.len() == 0 {
        Seq::empty()
    } else {
        let r = alias_pairs(nodes, i, al.drop_last(), arg_size);
        if pair_reports(nodes, i, al.last(), arg_size) {
            r.push((i, al.last() as int))
        } else {
            r
        }
    }
}

pub open spec fn node_pairs(nodes: Seq<ValueNode>, i: int, arg_size: usize) -> Seq<(int, int)> {
    if node_reports(nodes, i, arg_size) {
        alias_pairs(nodes, i, nodes[i].alias@, arg_size)
    } else {
        Seq::empty()
    }
}

/// The interface aliases found in the first `n` nodes, in order.
pub open spec fn pairs_upto(nodes: Seq<ValueNode>, n: int, arg_size: usize) -> Seq<(int, int)>
    decreases n,
{
    if n <= 0 {
        Seq::empty()
    } else {
        pairs_upto(nodes, n - 1, arg_size) + node_pairs(nodes, n - 1, arg_size)
    }
}

/// `r` records the alias between the nodes `l` and `rn`.
pub open spec fn ret_alias_of(r: RetAlias, l: ValueNode, rn: ValueNode) -> bool {
    &&& r.left_index == l.local
    &&& r.left_may_drop == l.may_drop
    &&& r.left_need_drop == l.need_drop
    &&& r.left_field_seq@ == field_seq_spec(l)
    &&& r.right_index == rn.local
    &&& r.right_may_drop == rn.may_drop
    &&& r.right_need_drop == rn.need_drop
    &&& r.right_field_seq@ == field_seq_spec(rn)
}

/// The result nodes can be read: the aliases of reporting nodes are in
/// range, and every node that some interface alias names has a field path.
pub open spec fn results_readable(g: &ValueGraph, nodes: Seq<ValueNode>, arg_size: usize) -> bool {
    &&& results_indexable(nodes, arg_size)
    &&& pairs_readable(g, nodes, arg_size)
}

/// The nodes of the interface have an alias list, and the aliases of the
/// nodes that report are nodes of the list.
pub open spec fn results_indexable(nodes: Seq<ValueNode>, arg_size: usize) -> bool {
    &&& forall|i: int| 0 <= i < nodes.len() && nodes[i].local <= arg_size ==> (#[trigger] nodes[i]).alias@.len() > 0
    &&& forall|i: int, j: int|
        0 <= i < nodes.len() && node_reports(nodes, i, arg_size) && 0 <= j < nodes[i].alias@.len() ==> #[trigger] nodes[i].alias@[j] < nodes.len()
}

/// Both nodes of the pair have a field path that can be read.
pub open spec fn pair_readable(g: &ValueGraph, nodes: Seq<ValueNode>, p: (int, int)) -> bool {
    field_seq_ok(g, nodes[p.0]) && field_seq_ok(g, nodes[p.1])
}

/// Every pair of `ps` can be read.
pub open spec fn all_readable(g: &ValueGraph, nodes: Seq<ValueNode>, ps: Seq<(int, int)>) -> bool {
    forall|t: int| 0 <= t < ps.len() ==> #[trigger] pair_readable(g, nodes, ps[t])
}

/// Every interface alias among the nodes (see `pairs_upto`) has readable
/// field paths at both ends.
pub open spec fn pairs_readable(g: &ValueGraph, nodes: Seq<ValueNode>, arg_size: usize) -> bool {
    all_readable(g, nodes, pairs_upto(nodes, nodes.len() as int, arg_size))
}

proof fn lemma_all_readable_push(g: &ValueGraph, nodes: Seq<ValueNode>, ps: Seq<(int, int)>, p: (int, int))
    ensures
        all_readable(g, nodes, ps.push(p)) == (all_readable(g, nodes, ps) && pair_readable(g, nodes, p)),
{
    if all_readable(g, nodes, ps) && pair_readable(g, nodes, p) {
        assert forall|t: int| 0 <= t < ps.push(p).len() implies #[trigger] pair_readable(g, nodes, ps.push(p)[t]) by {
            if t < ps.len() {
                assert(ps.push(p)[t] == ps[t]);
            }
        }
    }
    if all_readable(g, nodes, ps.push(p)) {
        assert forall|t: int| 0 <= t < ps.len() implies #[trigger] pair_readable(g, nodes, ps[t]) by {
            assert(ps.push(p)[t] == ps[t]);
        }
        assert(ps.push(p)[ps.len() as int] == p);
    }
}

/// Whether the node's field path can be read (see `field_seq_ok`).
fn field_seq_ok_exec(g: &ValueGraph, v: &ValueNode) -> (res: bool)
    ensures
        res == field_seq_ok(g, *v),
{
    v.field_id == NO_FIELD || (v.father < g.values.len() && g.values[v.father].field_id == NO_FIELD)
}

/// Whether every interface alias among the nodes has readable field paths
/// at both ends (see `pairs_readable`).
pub fn pairs_readable_exec(g: &ValueGraph, nodes: &Vec<ValueNode>, arg_size: usize) -> (res: bool)
    requires
        results_indexable(nodes@, arg_size),
    ensures
        res == pairs_readable(g, nodes@, arg_size),
{
    let ghost ns = nodes@;
    let mut ok = true;
    let mut i: usize = 0;
    while i < nodes.len()
        invariant
            ns == nodes@,
            results_indexable(ns, arg_size),
            i <= ns.len(),
            ok == all_readable(g, ns, pairs_upto(ns, i as int, arg_size)),
        decreases ns.len() - i,
    {
        let ghost pre = pairs_upto(ns, i as int, arg_size);
        let node = &nodes[i];
        let mut reports = false;
        if node.local <= arg_size {
            assert(ns[i as int].alias@.len() > 0);
            if node.alias[0] != node.index || node.alias.len() > 1 {
                reports = true;
            }
        }
        if reports {
            let mut j: usize = 0;
            while j < node.alias.len()
                invariant
                    ns == nodes@,
                    *node == ns[i as int],
                    results_indexable(ns, arg_size),
                    i < ns.len(),
                    node_reports(ns, i as int, arg_size),
                    j <= node.alias@.len(),
                    ok == all_readable(g, ns, pre + alias_pairs(ns, i as int, node.alias@.take(j as int), arg_size)),
                decreases node.alias@.len() - j,
            {
                let ghost q = pre + alias_pairs(ns, i as int, node.alias@.take(j as int), arg_size);
                let a = node.alias[j];
                assert(node.alias@.take(j + 1).drop_last() =~= node.alias@.take(j as int));
                assert(node.alias@.take(j + 1).last() == a);
                assert(a < ns.len());
                if nodes[a].local <= arg_size && a != node.index && node.local != nodes[a].local {
                    let fine = field_seq_ok_exec(g, node) && field_seq_ok_exec(g, &nodes[a]);
                    proof {
                        lemma_all_readable_push(g, ns, q, (i as int, a as int));
                        assert(pre + alias_pairs(ns, i as int, node.alias@.take(j + 1), arg_size) =~= q.push((i as int, a as int)));
                    }
                    ok = ok && fine;
                } else {
                    assert(pre + alias_pairs(ns, i as int, node.alias@.take(j + 1), arg_size) =~= q);
                }
                j = j + 1;
            }
            assert(node.alias@.take(node.alias@.len() as int) =~= node.alias@);
            assert(pairs_upto(ns, i + 1, arg_size) =~= pre + node_pairs(ns, i as int, arg_size));
        } else {
            assert(pairs_upto(ns, i + 1, arg_size) =~= pre);
        }
        i = i + 1;
    }
    ok
}

/// The alias graph of one function body for the MOP analysis.
pub struct MopGraph {
    pub values: ValueGraph,
    pub arg_size: usize,
    pub ret_alias: FnRetAlias,
    pub blocks: Vec<BlockNode>,
    pub scc_indices: Vec<usize>,
    pub constant: HashMap<usize, usize>,
    pub visit_times: usize,
}

impl MopGraph {
    /// Everything but the alias graph and the function's aliases is kept.
    pub open spec fn same_frame(&self, other: &MopGraph) -> bool {
        &&& self.arg_size == other.arg_size
        &&& self.blocks == other.blocks
        &&& self.scc_indices == other.scc_indices
        &&& self.constant == other.constant
        &&& self.visit_times == other.visit_times
    }
}

/// What applying the callee alias `r` at a call site whose result and
/// arguments are the nodes `args` does to the graph `g`, giving `h`: the
/// graph stays consistent and grows; nothing changes when either side's
/// position is not among `args`; otherwise both field paths are followed
/// (adding missing field nodes, each the end of a prefix of one of the two
/// paths, the right one through the nodes it was assigned from), and the
/// left end then aliases the right one unless one
/// lies below the other.
pub open spec fn merge_effect(g: ValueGraph, h: ValueGraph, r: RetAlias, args: Seq<usize>) -> bool {
    &&& h.wf()
    &&& h.len() >= g.len()
    &&& r.left_index >= args.len() || r.right_index >= args.len() ==> h == g
    &&& r.left_index < args.len() && r.right_index < args.len() ==> exists|g1: ValueGraph, lv: int, rv: int| {
        &&& g1.grows_from(&g)
        &&& forall|y: int| g.len() <= y < g1.len() ==> #[trigger] added_by_walk(&g1, args[r.left_index as int] as int, r.left_field_seq@, args[r.right_index as int] as int, r.right_field_seq@, y)
        &&& g1.path_end(args[r.left_index as int] as int, r.left_field_seq@, false) == Some(lv)
        &&& g1.path_end(args[r.right_index as int] as int, r.right_field_seq@, true) == Some(rv)
        &&& if g1.unrelated_or_same(lv, rv) {
            ValueGraph::merged_into(&g1, &h, lv, rv)
        } else {
            h == g1
        }
    }
}

impl MopGraph {
    /// Makes `lv` alias what `rv` aliases, field by field: along every
    /// field path from `rv`, the node below `lv` has its alias list merged
    /// with that of `rv`'s node (see `merged_into`); the nodes added are
    /// exactly one per such path missing below `lv`, each hanging under the
    /// node it belongs to with birth 0, and having the drop flags and kind
    /// of `rv`'s node at the same path.
    pub fn merge_alias(&mut self, lv: usize, rv: usize)
        requires
            old(self).values.wf(),
            lv < old(self).values.len(),
            rv < old(self).values.len(),
            old(self).values.unrelated_or_same(lv as int, rv as int),
        ensures
            ValueGraph::merged_into(&old(self).values, &final(self).values, lv as int, rv as int),
            lv == rv ==> final(self).values.len() == old(self).values.len(),
            forall|y: int| old(self).values.len() <= y < final(self).values.len() ==> #[trigger] hangs_under(&final(self).values, y, false),
            final(self).same_frame(old(self)),
            final(self).ret_alias == old(self).ret_alias,
    {
        self.values.merge_alias_nodes(lv, rv, false);
    }

    /// Applies an alias of a callee at a call site whose argument nodes (the
    /// destination first) are `arg_vec`: follows the left field path from
    /// the left argument and the right one from the right argument (moving
    /// to a node's assigned-from node before each right step), creating the
    /// missing fields as raw pointers, and merges the right end into the
    /// left end. Indices past `arg_vec` leave the graph as it is and are
    /// reported by a `false` result, for the caller to log; ends that
    /// lie one below the other are left unmerged.
    pub fn merge(&mut self, ret_alias: &RetAlias, arg_vec: &Vec<usize>) -> (in_range: bool)
        requires
            old(self).values.wf(),
            ret_alias.left_index < arg_vec@.len() && ret_alias.right_index < arg_vec@.len() ==> arg_vec@[ret_alias.left_index as int] < old(self).values.len() && arg_vec@[ret_alias.right_index as int] < old(self).values.len(),
        ensures
            final(self).same_frame(old(self)),
            final(self).ret_alias == old(self).ret_alias,
            merge_effect(old(self).values, final(self).values, *ret_alias, arg_vec@),
            in_range == (ret_alias.left_index < arg_vec@.len() && ret_alias.right_index < arg_vec@.len()),
    {
        if ret_alias.left_index >= arg_vec.len() || ret_alias.right_index >= arg_vec.len() {
            return false;
        }
        let ghost g0 = self.values;
        let left_init = arg_vec[ret_alias.left_index];
        let right_init = arg_vec[ret_alias.right_index];
        let lv = self.values.walk_fields(
            left_init,
            &ret_alias.left_field_seq,
            left_init,
            ret_alias.left_need_drop,
            ret_alias.left_may_drop,
            false,
            false,
        );
        let ghost ga = self.values;
        let rv = self.values.walk_fields(
            right_init,
            &ret_alias.right_field_seq,
            right_init,
            ret_alias.right_need_drop,
            ret_alias.right_may_drop,
            false,
            true,
        );
        let ghost g1 = self.values;
        proof {
            crate::value_graph::lemma_grows_trans(&g0, &ga, &g1);
            crate::value_graph::lemma_path_end_stable(&ga, &g1, left_init as int, ret_alias.left_field_seq@, false);
            crate::value_graph::lemma_added_by_walks(&g0, &ga, &g1, left_init as int, ret_alias.left_field_seq@, right_init as int, ret_alias.right_field_seq@);
        }
        if self.values.unrelated(lv, rv) {
            self.values.merge_alias_nodes(lv, rv, false);
        }
        proof {
            assert(g1.path_end(left_init as int, ret_alias.left_field_seq@, false) == Some(lv as int));
        }
        true
    }

    /// The field path of a node (see `field_seq`).
    pub fn get_field_seq(&self, value: &ValueNode) -> (res: Vec<usize>)
        requires
            field_seq_ok(&self.values, *value),
        ensures
            res@ == field_seq_spec(*value),
    {
        field_seq(&self.values, value)
    }

    /// Records, for the nodes of one explored path, every interface alias
    /// (see `pairs_upto`) as a new entry of the function's aliases.
    pub fn merge_results(&mut self, results_nodes: Vec<ValueNode>)
        requires
            results_readable(&old(self).values, results_nodes@, old(self).arg_size),
        ensures
            final(self).values == old(self).values,
            final(self).same_frame(old(self)),
            final(self).ret_alias.arg_size == old(self).ret_alias.arg_size,
            ({
                let pairs = pairs_upto(results_nodes@, results_nodes@.len() as int, old(self).arg_size);
                let before = old(self).ret_alias.alias_vec@;
                let after = final(self).ret_alias.alias_vec@;
                &&& after.len() == before.len() + pairs.len()
                &&& forall|t: int| 0 <= t < before.len() ==> #[trigger] after[t] == before[t]
                &&& forall|t: int| 0 <= t < pairs.len() ==> ret_alias_of(#[trigger] after[before.len() + t], results_nodes@[pairs[t].0], results_nodes@[pairs[t].1])
            }),
    {
        let ghost nodes = results_nodes@;
        let ghost arg = self.arg_size;
        let ghost before = self.ret_alias.alias_vec@;
        let ghost all = pairs_upto(nodes, nodes.len() as int, arg);
        let mut i: usize = 0;
        while i < results_nodes.len()
            invariant
                nodes == results_nodes@,
                arg == self.arg_size,
                all == pairs_upto(nodes, nodes.len() as int, arg),
                results_readable(&self.values, nodes, arg),
                i <= nodes.len(),
                self.values == old(self).values,
                self.same_frame(old(self)),
                self.ret_alias.arg_size == old(self).ret_alias.arg_size,
                before == old(self).ret_alias.alias_vec@,
                self.ret_alias.alias_vec@.len() == before.len() + pairs_upto(nodes, i as int, arg).len(),
                forall|t: int| 0 <= t < before.len() ==> #[trigger] self.ret_alias.alias_vec@[t] == before[t],
                forall|t: int| 0 <= t < pairs_upto(nodes, i as int, arg).len() ==> ret_alias_of(
                    #[trigger] self.ret_alias.alias_vec@[before.len() + t],
                    nodes[pairs_upto(nodes, i as int, arg)[t].0],
                    nodes[pairs_upto(nodes, i as int, arg)[t].1],
                ),
            decreases nodes.len() - i,
        {
            let ghost pre = pairs_upto(nodes, i as int, arg);
            proof {
                lemma_pairs_upto_prefix(nodes, i as int + 1, nodes.len() as int, arg);
            }
            let node = &results_nodes[i];
            let mut reports = false;
            if node.local <= self.arg_size {
                assert(nodes[i as int].alias@.len() > 0);
                if node.alias[0] != node.index || node.alias.len() > 1 {
                    reports = true;
                }
            }
            if reports {
                let mut j: usize = 0;
                while j < node.alias.len()
                    invariant
                        nodes == results_nodes@,
                        *node == nodes[i as int],
                        arg == self.arg_size,
                        all == pairs_upto(nodes, nodes.len() as int, arg),
                        results_readable(&self.values, nodes, arg),
                        i < nodes.len(),
                        node_reports(nodes, i as int, arg),
                        pre == pairs_upto(nodes, i as int, arg),
                        all.len() >= pre.len() + node_pairs(nodes, i as int, arg).len(),
                        forall|t: int| 0 <= t < pre.len() + node_pairs(nodes, i as int, arg).len() ==> #[trigger] all[t] == (pre + node_pairs(nodes, i as int, arg))[t],
                        j <= node.alias@.len(),
                        self.values == old(self).values,
                        self.same_frame(old(self)),
                        self.ret_alias.arg_size == old(self).ret_alias.arg_size,
                        before == old(self).ret_alias.alias_vec@,
                        self.ret_alias.alias_vec@.len() == before.len() + pre.len() + alias_pairs(nodes, i as int, node.alias@.take(j as int), arg).len(),
                        forall|t: int| 0 <= t < before.len() ==> #[trigger] self.ret_alias.alias_vec@[t] == before[t],
                        forall|t: int| 0 <= t < pre.len() ==> ret_alias_of(
                            #[trigger] self.ret_alias.alias_vec@[before.len() + t],
                            nodes[pre[t].0],
                            nodes[pre[t].1],
                        ),
                        forall|t: int| 0 <= t < alias_pairs(nodes, i as int, node.alias@.take(j as int), arg).len() ==> ret_alias_of(
                            #[trigger] self.ret_alias.alias_vec@[before.len() + pre.len() + t],
                            nodes[alias_pairs(nodes, i as int, node.alias@.take(j as int), arg)[t].0],
                            nodes[alias_pairs(nodes, i as int, node.alias@.take(j as int), arg)[t].1],
                        ),
                    decreases node.alias@.len() - j,
                {
                    let ghost ap = alias_pairs(nodes, i as int, node.alias@.take(j as int), arg);
                    let alias = node.alias[j];
                    proof {
                        assert(node.alias@.take(j + 1).drop_last() =~= node.alias@.take(j as int));
                        assert(node.alias@.take(j + 1).last() == alias);
                        assert(alias < nodes.len());
                        lemma_alias_pairs_prefix(nodes, i as int, node.alias@, j as int + 1, arg);
                    }
                    if results_nodes[alias].local <= self.arg_size && alias != node.index
                        && node.local != results_nodes[alias].local {
                        proof {
                            let np = node_pairs(nodes, i as int, arg);
                            let t0: int = (pre.len() + ap.len()) as int;
                            assert(np[ap.len() as int] == (i as int, alias as int));
                            assert(all[t0] == (pre + np)[t0]);
                            assert(all[t0] == (i as int, alias as int));
                            assert(pair_readable(&self.values, nodes, all[t0]));
                            assert(field_seq_ok(&self.values, nodes[i as int]));
                            assert(field_seq_ok(&self.values, nodes[alias as int]));
                        }
                        let left_node = node;
                        let right_node = &results_nodes[alias];
                        let mut new_alias = RetAlias::new(
                            left_node.local,
                            left_node.may_drop,
                            left_node.need_drop,
                            right_node.local,
                            right_node.may_drop,
                            right_node.need_drop,
                        );
                        new_alias.left_field_seq = self.get_field_seq(left_node);
                        new_alias.right_field_seq = self.get_field_seq(right_node);
                        self.ret_alias.alias_vec.push(new_alias);
                    }
                    j = j + 1;
                }
                proof {
                    assert(node.alias@.take(node.alias@.len() as int) =~= node.alias@);
                }
            }
            proof {
                let np = node_pairs(nodes, i as int, arg);
                assert(pairs_upto(nodes, i + 1, arg) == pre + np);
                assert forall|t: int| 0 <= t < pairs_upto(nodes, i + 1, arg).len() implies ret_alias_of(
                    #[trigger] self.ret_alias.alias_vec@[before.len() + t],
                    nodes[pairs_upto(nodes, i + 1, arg)[t].0],
                    nodes[pairs_upto(nodes, i + 1, arg)[t].1],
                ) by {
                    if t < pre.len() {
                        assert((pre + np)[t] == pre[t]);
                    } else {
                        assert((pre + np)[t] == np[t - pre.len()]);
                        assert(before.len() + t == before.len() + pre.len() + (t - pre.len()));
                    }
                }
            }
            i = i + 1;
        }
    }
}

/// The pairs of a prefix of the nodes start the pairs of a longer prefix.
proof fn lemma_pairs_upto_prefix(nodes: Seq<ValueNode>, m: int, n: int, arg_size: usize)
    requires
        0 <= m <= n,
    ensures
        pairs_upto(nodes, m, arg_size).len() <= pairs_upto(nodes, n, arg_size).len(),
        forall|t: int| 0 <= t < pairs_upto(nodes, m, arg_size).len() ==> #[trigger] pairs_upto(nodes, n, arg_size)[t]
            == pairs_upto(nodes, m, arg_size)[t],
    decreases n - m,
{
    if m < n {
        lemma_pairs_upto_prefix(nodes, m, n - 1, arg_size);
    }
}

/// The pairs of a prefix of the aliases start the pairs of all of them.
pub proof fn lemma_alias_pairs_prefix_pub(nodes: Seq<ValueNode>, i: int, al: Seq<usize>, m: int, arg_size: usize)
    requires
        0 <= m <= al.len(),
    ensures
        alias_pairs(nodes, i, al.take(m), arg_size).len() <= alias_pairs(nodes, i, al, arg_size).len(),
        forall|t: int| 0 <= t < alias_pairs(nodes, i, al.take(m), arg_size).len() ==> #[trigger] alias_pairs(nodes, i, al, arg_size)[t]
            == alias_pairs(nodes, i, al.take(m), arg_size)[t],
{
    lemma_alias_pairs_prefix(nodes, i, al, m, arg_size);
}

proof fn lemma_alias_pairs_prefix(nodes: Seq<ValueNode>, i: int, al: Seq<usize>, m: int, arg_size: usize)
    requires
        0 <= m <= al.len(),
    ensures
        alias_pairs(nodes, i, al.take(m), arg_size).len() <= alias_pairs(nodes, i, al, arg_size).len(),
        forall|t: int| 0 <= t < alias_pairs(nodes, i, al.take(m), arg_size).len() ==> #[trigger] alias_pairs(nodes, i, al, arg_size)[t]
            == alias_pairs(nodes, i, al.take(m), arg_size)[t],
    decreases al.len() - m,
{
    if m < al.len() {
        lemma_alias_pairs_prefix(nodes, i, al.drop_last(), m, arg_size);
        assert(al.drop_last().take(m) =~= al.take(m));
    } else {
        assert(al.take(m) =~= al);
    }
}


proof fn lemma_alias_pairs_range(nodes: Seq<ValueNode>, i: int, al: Seq<usize>, arg_size: usize)
    ensures
        forall|t: int| 0 <= t < alias_pairs(nodes, i, al, arg_size).len() ==> {
            let p = #[trigger] alias_pairs(nodes, i, al, arg_size)[t];
            &&& p.0 == i
            &&& exists|j: int| 0 <= j < al.len() && al[j] as int == p.1
        },
    decreases al.len(),
{
    if al.len() > 0 {
        lemma_alias_pairs_range(nodes, i, al.drop_last(), arg_size);
        let r = alias_pairs(nodes, i, al.drop_last(), arg_size);
        assert forall|t: int| 0 <= t < alias_pairs(nodes, i, al, arg_size).len() implies {
            let p = #[trigger] alias_pairs(nodes, i, al, arg_size)[t];
            &&& p.0 == i
            &&& exists|j: int| 0 <= j < al.len() && al[j] as int == p.1
        } by {
            if t < r.len() {
                assert(alias_pairs(nodes, i, al, arg_size)[t] == r[t]);
                let p = r[t];
                let j = choose|j: int| 0 <= j < al.drop_last().len() && al.drop_last()[j] as int == p.1;
                assert(al[j] == al.drop_last()[j]);
            } else {
                assert(al[al.len() - 1] == al.last());
            }
        }
    }
}

/// A copy of a well-formed graph whose field nodes all have a father that
/// is no field can be read as the results of a path.
pub proof fn lemma_copy_indexable(g: &ValueGraph, nodes: Seq<ValueNode>, arg_size: usize)
    requires
        g.wf(),
        same_nodes(nodes, g.values@),
    ensures
        results_indexable(nodes, arg_size),
{
    assert forall|i: int| 0 <= i < nodes.len() && nodes[i].local <= arg_size implies (#[trigger] nodes[i]).alias@.len() > 0 by {
        assert(g.node_wf(i));
    }
    assert forall|i: int, j: int| 0 <= i < nodes.len() && node_reports(nodes, i, arg_size) && 0 <= j < nodes[i].alias@.len() implies #[trigger] nodes[i].alias@[j] < nodes.len() by {
        assert(g.node_wf(i));
        assert(nodes[i].alias@[j] == g.values@[i].alias@[j]);
    }
}

} // verus!
