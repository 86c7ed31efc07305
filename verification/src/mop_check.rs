use vstd::prelude::*;
use std::collections::HashMap;
use crate::alias::{MopGraph, FnRetAlias, RetAlias, lemma_copy_indexable, merge_effect, pairs_upto, pairs_readable, pairs_readable_exec, ret_alias_of};
use crate::mir_model::{first_match_from, switch_target, succ_pairs, BlockNode, Place, AssignType, Assignment, CallSite, Callee, Operand, block_ok, place_ok, operand_ok, lemma_blocks_ok_mono};
use crate::value_graph::{added_by_places, on_projection, lemma_on_projection_stable, ValueGraph, ValueNode, same_nodes, lemma_same_nodes_wf, lemma_proj_end_stable, lemma_grows_trans};

verus! {

broadcast use vstd::std_specs::hash::group_hash_axioms;

/// The number of block visits after which the MOP analysis stops exploring paths.
pub const VISIT_LIMIT: usize = 100;

/// The constants recorded after the pairs `cv` were recorded in order.
pub open spec fn consts_after(m: Map<usize, usize>, cv: Seq<(usize, usize)>) -> Map<usize, usize>
    decreases cv.len(),
{
    if cv.len() == 0 {
        m
    } else {
        consts_after(m, cv.drop_last()).insert(cv.last().0, cv.last().1)
    }
}

/// The budget of visits left: it shrinks with every visit while under the limit.
pub open spec fn visit_budget(vt: usize) -> int {
    if vt <= VISIT_LIMIT {
        VISIT_LIMIT + 1 - vt
    } else {
        0
    }
}

/// `h` is `g` after `lv` was made to alias `rv` by an assignment: merged
/// when they belong to different locals and neither lies below the other,
/// unchanged otherwise.
pub open spec fn alias_assigned(g: ValueGraph, h: ValueGraph, lv: int, rv: int) -> bool {
    if g.values@[lv].local != g.values@[rv].local && g.unrelated_or_same(lv, rv) {
        ValueGraph::merged_into(&g, &h, lv, rv)
    } else {
        h == g
    }
}

/// `h` is `g` with the first entry of the alias list of `lv` set to `rv`.
pub open spec fn variant_assigned(g: ValueGraph, h: ValueGraph, lv: int, rv: usize) -> bool {
    &&& h.len() == g.len()
    &&& forall|y: int| 0 <= y < g.len() && y != lv ==> #[trigger] h.values@[y] == g.values@[y]
    &&& h.values@[lv].same_header(g.values@[lv])
    &&& h.values@[lv].fields == g.values@[lv].fields
    &&& h.values@[lv].alias@ == g.values@[lv].alias@.update(0, rv)
}

/// One assignment `a` applied to the alias graph `g`, giving `h`, once the
/// places of both sides were found (adding the field nodes they need,
/// which gives `g1`) as the nodes `lv` and `rv`.
pub open spec fn assign_applied(g: ValueGraph, g1: ValueGraph, h: ValueGraph, a: Assignment, lv: int, rv: int) -> bool {
    &&& g1.grows_from(&g)
    &&& added_by_places(&g, &g1, a.lv, a.rv)
    &&& g1.proj_end(a.lv.local as int, a.lv.projection@, false) == Some(lv)
    &&& g1.proj_end(a.rv.local as int, a.rv.projection@, true) == Some(rv)
    &&& match a.atype {
        AssignType::Variant => variant_assigned(g1, h, lv, rv as usize),
        AssignType::InitBox => match g1.values@[lv].field(0) {
            Some(f) => alias_assigned(g1, h, f as int, rv),
            None => h == g1,
        },
        _ => alias_assigned(g1, h, lv, rv),
    }
}

/// The assignment `a` applied to `g` gives `h`.
pub open spec fn assign_step(g: ValueGraph, h: ValueGraph, a: Assignment) -> bool {
    exists|g1: ValueGraph, lv: int, rv: int| assign_applied(g, g1, h, a, lv, rv)
}

/// The `k`-th assignment takes the `k`-th graph to the next.
pub open spec fn assign_step_at(vs: Seq<ValueGraph>, asg: Seq<Assignment>, k: int) -> bool {
    assign_step(vs[k], vs[k + 1], asg[k])
}

/// The assignments `asg`, applied in order to the graph `vs[0]`, give the
/// graphs `vs[1]`, ..., `vs[asg.len()]`.
pub open spec fn assignments_applied(vs: Seq<ValueGraph>, asg: Seq<Assignment>) -> bool {
    &&& vs.len() == asg.len() + 1
    &&& forall|k: int| 0 <= k < asg.len() ==> #[trigger] assign_step_at(vs, asg, k)
}

/// The node `n` stands for the operand `o` of a call in the graph `g`: a
/// place's node (read through what it was assigned from), 0 for a constant.
pub open spec fn operand_node(g: ValueGraph, o: Operand, n: usize) -> bool {
    match o {
        Operand::Copy(p) => g.proj_end(p.local as int, p.projection@, true) == Some(n as int),
        Operand::Move(p) => g.proj_end(p.local as int, p.projection@, true) == Some(n as int),
        Operand::Constant(_) => n == 0,
    }
}

/// How many of the result node `lv` and the first `n` operands (places
/// only, their nodes following `lv` in `mv`) may drop.
pub open spec fn drop_count(g: ValueGraph, lv: int, args: Seq<Operand>, mv: Seq<usize>, n: int) -> int
    decreases n,
{
    if n <= 0 {
        if g.values@[lv].may_drop {
            1
        } else {
            0
        }
    } else {
        drop_count(g, lv, args, mv, n - 1) + if !(args[n - 1] is Constant) && g.values@[mv[n] as int].may_drop {
            1int
        } else {
            0int
        }
    }
}

pub open spec fn min2(x: int) -> int {
    if x < 2 {
        x
    } else {
        2
    }
}

/// The `k`-th callee alias applied (when both its sides may drop) takes the
/// `k`-th graph to the next.
pub open spec fn merge_step_at(ws: Seq<ValueGraph>, rs: Seq<RetAlias>, mv: Seq<usize>, k: int) -> bool {
    if rs[k].left_may_drop && rs[k].right_may_drop {
        merge_effect(ws[k], ws[k + 1], rs[k], mv)
    } else {
        ws[k + 1] == ws[k]
    }
}

/// The callee aliases `rs`, applied in order from `ws[0]`, give the graphs that follow.
pub open spec fn merges_applied(ws: Seq<ValueGraph>, rs: Seq<RetAlias>, mv: Seq<usize>) -> bool {
    &&& ws.len() == rs.len() + 1
    &&& forall|k: int| 0 <= k < rs.len() ==> #[trigger] merge_step_at(ws, rs, mv, k)
}

/// The nodes of `mv` that may drop, differ from `lv`, when `lv` is a pointer.
pub open spec fn right_nodes(g: ValueGraph, lv: int, mv: Seq<usize>) -> Seq<usize>
    decreases mv.len(),
{
    if mv.len() == 0 {
        Seq::empty()
    } else {
        let r = right_nodes(g, lv, mv.drop_last());
        if g.values@[mv.last() as int].may_drop && lv != mv.last() as int && g.values@[lv].ptr() {
            r.push(mv.last())
        } else {
            r
        }
    }
}

/// The node `y` of `g1` ends a prefix of the projection of the argument
/// `o`, when it is a place.
pub open spec fn arg_added(g1: ValueGraph, o: Operand, y: int) -> bool {
    match o {
        Operand::Copy(p) => on_projection(&g1, p.local as int, p.projection@, true, p.projection@.len() as int, y),
        Operand::Move(p) => on_projection(&g1, p.local as int, p.projection@, true, p.projection@.len() as int, y),
        Operand::Constant(_) => false,
    }
}

/// The node `y` of `g1` ends a prefix of the projection of the call's
/// destination or of one of its first `n` arguments.
pub open spec fn call_place_added(g1: ValueGraph, c: CallSite, n: int, y: int) -> bool {
    ||| on_projection(&g1, c.destination.local as int, c.destination.projection@, false, c.destination.projection@.len() as int, y)
    ||| exists|t: int| 0 <= t < n && #[trigger] arg_added(g1, c.args@[t], y)
}

/// The call `c` applied to the graph `g` with the callee summaries `fns`,
/// giving `h`: a call through no function definition changes nothing;
/// otherwise the result and argument places are found (giving `g1`, whose new
/// nodes end prefixes of their projections) as the nodes `mv` (the result `lv` first); when two of them may drop, a callee
/// with a summary has its aliases merged in order (the graphs `ws`), and
/// for a callee without a body a result that may drop aliases the one
/// other node that may drop, if the result is a pointer and there is
/// exactly one such node.
pub open spec fn call_applied(
    g: ValueGraph,
    g1: ValueGraph,
    h: ValueGraph,
    c: CallSite,
    fns: Map<u64, FnRetAlias>,
    lv: int,
    mv: Seq<usize>,
    ws: Seq<ValueGraph>,
) -> bool {
    if c.callee is Indirect {
        h == g
    } else {
        &&& g1.grows_from(&g)
        &&& forall|y: int| g.len() <= y < g1.len() ==> #[trigger] call_place_added(g1, c, c.args@.len() as int, y)
        &&& g1.proj_end(c.destination.local as int, c.destination.projection@, false) == Some(lv)
        &&& mv.len() == c.args@.len() + 1
        &&& mv[0] as int == lv
        &&& forall|t: int| 0 <= t < c.args@.len() ==> #[trigger] operand_node(g1, c.args@[t], mv[t + 1])
        &&& if drop_count(g1, lv, c.args@, mv, c.args@.len() as int) <= 1 {
            h == g1
        } else {
            match c.callee {
                Callee::WithBody(id) => if fns.contains_key(id) {
                    &&& merges_applied(ws, fns[id].alias_vec@, mv)
                    &&& ws[0] == g1
                    &&& ws[ws.len() - 1] == h
                } else {
                    h == g1
                },
                Callee::NoBody { passed_over } => if g1.values@[lv].may_drop && !passed_over {
                    let rs = right_nodes(g1, lv, mv);
                    if rs.len() == 1 && g1.unrelated_or_same(lv, rs[0] as int) {
                        ValueGraph::merged_into(&g1, &h, lv, rs[0] as int)
                    } else {
                        h == g1
                    }
                } else {
                    h == g1
                },
                Callee::Indirect => true,
            }
        }
    }
}

/// The call `c` takes the graph `g` to `h`.
pub open spec fn call_step(g: ValueGraph, h: ValueGraph, c: CallSite, fns: Map<u64, FnRetAlias>) -> bool {
    exists|g1: ValueGraph, lv: int, mv: Seq<usize>, ws: Seq<ValueGraph>| call_applied(g, g1, h, c, fns, lv, mv, ws)
}

/// The `k`-th call takes the `k`-th graph to the next.
pub open spec fn call_step_at(vs: Seq<ValueGraph>, calls: Seq<CallSite>, fns: Map<u64, FnRetAlias>, k: int) -> bool {
    call_step(vs[k], vs[k + 1], calls[k], fns)
}

/// The calls, applied in order from `vs[0]`, give the graphs that follow.
pub open spec fn calls_applied(vs: Seq<ValueGraph>, calls: Seq<CallSite>, fns: Map<u64, FnRetAlias>) -> bool {
    &&& vs.len() == calls.len() + 1
    &&& forall|k: int| 0 <= k < calls.len() ==> #[trigger] call_step_at(vs, calls, fns, k)
}

/// As the graph grows, the nodes found for the operands so far and the
/// count of those that may drop stay the same.
pub proof fn lemma_call_args_stable(g: &ValueGraph, h: &ValueGraph, args: Seq<Operand>, mv: Seq<usize>, lv: int, j: int)
    requires
        g.wf(),
        h.grows_from(g),
        0 <= lv < g.len(),
        0 <= j <= args.len(),
        mv.len() == j + 1,
        forall|t: int| 0 <= t < mv.len() ==> #[trigger] mv[t] < g.len(),
        forall|t: int| 0 <= t < args.len() ==> operand_ok(#[trigger] args[t], g.len()),
        forall|t: int| 0 <= t < j ==> #[trigger] operand_node(*g, args[t], mv[t + 1]),
    ensures
        forall|t: int| 0 <= t < j ==> #[trigger] operand_node(*h, args[t], mv[t + 1]),
        drop_count(*h, lv, args, mv, j) == drop_count(*g, lv, args, mv, j),
    decreases j,
{
    assert forall|t: int| 0 <= t < j implies #[trigger] operand_node(*h, args[t], mv[t + 1]) by {
        assert(operand_node(*g, args[t], mv[t + 1]));
        assert(operand_ok(args[t], g.len()));
        match args[t] {
            Operand::Copy(p) => {
                lemma_proj_end_stable(g, h, p.local as int, p.projection@, true);
            },
            Operand::Move(p) => {
                lemma_proj_end_stable(g, h, p.local as int, p.projection@, true);
            },
            Operand::Constant(_) => {},
        }
    }
    if j > 0 {
        let m = mv.drop_last();
        assert forall|t: int| 0 <= t < j - 1 implies #[trigger] operand_node(*g, args[t], m[t + 1]) by {
            assert(m[t + 1] == mv[t + 1]);
            assert(operand_node(*g, args[t], mv[t + 1]));
        }
        lemma_call_args_stable(g, h, args, m, lv, j - 1);
        lemma_drop_count_prefix(*g, lv, args, mv.drop_last(), mv, j - 1);
        lemma_drop_count_prefix(*h, lv, args, mv.drop_last(), mv, j - 1);
        assert(h.values@[mv[j] as int].same_header(g.values@[mv[j] as int]));
    } else {
        assert(h.values@[lv].same_header(g.values@[lv]));
    }
}

/// The count over a prefix only reads the prefix of the nodes.
pub proof fn lemma_drop_count_prefix(g: ValueGraph, lv: int, args: Seq<Operand>, a: Seq<usize>, b: Seq<usize>, n: int)
    requires
        0 <= n,
        n < a.len(),
        a.len() <= b.len(),
        forall|t: int| 0 <= t < a.len() ==> #[trigger] a[t] == b[t],
    ensures
        drop_count(g, lv, args, a, n) == drop_count(g, lv, args, b, n),
    decreases n,
{
    if n > 0 {
        lemma_drop_count_prefix(g, lv, args, a, b, n - 1);
    }
}

/// Counting one more operand.
pub proof fn lemma_drop_count_push(g: ValueGraph, lv: int, args: Seq<Operand>, a: Seq<usize>, b: Seq<usize>, j: int)
    requires
        0 <= j < args.len(),
        a.len() == j + 1,
        b.len() == j + 2,
        b.drop_last() == a,
    ensures
        drop_count(g, lv, args, b, j + 1) == drop_count(g, lv, args, a, j) + if !(args[j] is Constant) && g.values@[b[j + 1] as int].may_drop {
            1int
        } else {
            0int
        },
{
    assert forall|t: int| 0 <= t < a.len() implies #[trigger] a[t] == b[t] by {
        assert(b.drop_last()[t] == b[t]);
    }
    lemma_drop_count_prefix(g, lv, args, a, b, j);
}

/// One more node considered.
pub proof fn lemma_right_nodes_push(g: ValueGraph, lv: int, s: Seq<usize>)
    requires
        s.len() > 0,
    ensures
        right_nodes(g, lv, s) == (if g.values@[s.last() as int].may_drop && lv != s.last() as int && g.values@[lv].ptr() {
            right_nodes(g, lv, s.drop_last()).push(s.last())
        } else {
            right_nodes(g, lv, s.drop_last())
        }),
{
}

/// The right nodes are nodes of `mv`.
pub proof fn lemma_right_nodes_in(g: ValueGraph, lv: int, mv: Seq<usize>)
    ensures
        forall|t: int| 0 <= t < right_nodes(g, lv, mv).len() ==> mv.contains(#[trigger] right_nodes(g, lv, mv)[t]),
    decreases mv.len(),
{
    if mv.len() > 0 {
        lemma_right_nodes_in(g, lv, mv.drop_last());
        lemma_right_nodes_push(g, lv, mv);
        let r = right_nodes(g, lv, mv.drop_last());
        assert forall|t: int| 0 <= t < right_nodes(g, lv, mv).len() implies mv.contains(#[trigger] right_nodes(g, lv, mv)[t]) by {
            if t < r.len() {
                assert(mv.drop_last().contains(r[t]));
                let k = choose|k: int| 0 <= k < mv.drop_last().len() && mv.drop_last()[k] == r[t];
                assert(mv[k] == r[t]);
            } else {
                assert(mv[mv.len() - 1] == mv.last());
            }
        }
    }
}

impl MopGraph {
    /// The graph is well formed, has at least the return local, and its
    /// blocks name only its locals and blocks.
    pub open spec fn mop_ok(&self) -> bool {
        &&& self.values.wf()
        &&& self.values.len() >= 1
        &&& self.scc_indices@.len() == self.blocks@.len()
        &&& forall|i: int| 0 <= i < self.scc_indices@.len() ==> (#[trigger] self.scc_indices@[i] as int) < self.blocks@.len()
        &&& forall|i: int| 0 <= i < self.blocks@.len() ==> block_ok(#[trigger] self.blocks@[i], self.values.len(), self.blocks@.len())
    }

    /// The alias graph grew and stays consistent; blocks and counters are kept.
    pub open spec fn kept_shape(&self, old: &MopGraph) -> bool {
        &&& self.mop_ok()
        &&& self.values.len() >= old.values.len()
        &&& self.arg_size == old.arg_size
        &&& self.blocks == old.blocks
        &&& self.scc_indices == old.scc_indices
        &&& self.ret_alias.arg_size == old.ret_alias.arg_size
    }

    /// Merges the alias information of `rv` into `lv` for an assignment
    /// between different locals, when neither lies below the other.
    fn assign_alias(&mut self, lv: usize, rv: usize)
        requires
            old(self).mop_ok(),
            lv < old(self).values.len(),
            rv < old(self).values.len(),
        ensures
            final(self).kept_shape(old(self)),
            final(self).ret_alias == old(self).ret_alias,
            final(self).constant == old(self).constant,
            final(self).visit_times == old(self).visit_times,
            alias_assigned(old(self).values, final(self).values, lv as int, rv as int),
    {
        if self.values.values[lv].local != self.values.values[rv].local && self.values.unrelated(lv, rv) {
            let ghost n0 = self.values.len();
            self.values.merge_alias_nodes(lv, rv, false);
            proof {
                lemma_blocks_ok_mono(self.blocks@, n0, self.values.len());
            }
        }
    }

    /// Applies the assignments of block `bb` to the alias graph, after
    /// recording its constants: each assignment makes its left place alias
    /// its right place (a variant assignment only records the right node as
    /// the one the left was assigned from; a box initialisation goes through
    /// the box's first field, and is passed over when the box has none).
    pub fn alias_bb(&mut self, bb_index: usize)
        requires
            old(self).mop_ok(),
            bb_index < old(self).blocks@.len(),
        ensures
            final(self).kept_shape(old(self)),
            final(self).ret_alias == old(self).ret_alias,
            final(self).visit_times == old(self).visit_times,
            final(self).constant@ == consts_after(old(self).constant@, old(self).blocks@[bb_index as int].const_value@),
            exists|vs: Seq<ValueGraph>| {
                &&& assignments_applied(vs, old(self).blocks@[bb_index as int].assignments@)
                &&& vs[0] == old(self).values
                &&& vs[vs.len() - 1] == final(self).values
            },
    {
        let ghost cv = self.blocks@[bb_index as int].const_value@;
        let n_cv = self.blocks[bb_index].const_value.len();
        let mut i: usize = 0;
        assert(cv.take(0) =~= Seq::<(usize, usize)>::empty());
        while i < n_cv
            invariant
                self.mop_ok(),
                self.values == old(self).values,
                self.blocks == old(self).blocks,
                self.scc_indices == old(self).scc_indices,
                self.arg_size == old(self).arg_size,
                self.ret_alias == old(self).ret_alias,
                self.visit_times == old(self).visit_times,
                bb_index < self.blocks@.len(),
                cv == self.blocks@[bb_index as int].const_value@,
                n_cv == cv.len(),
                i <= n_cv,
                self.constant@ == consts_after(old(self).constant@, cv.take(i as int)),
            decreases n_cv - i,
        {
            let (k, v) = self.blocks[bb_index].const_value[i];
            self.constant.insert(k, v);
            assert(cv.take(i + 1).drop_last() =~= cv.take(i as int));
            i = i + 1;
        }
        assert(cv.take(n_cv as int) =~= cv);
        let ghost c_end = self.constant;
        let n_as = self.blocks[bb_index].assignments.len();
        let ghost asg = self.blocks@[bb_index as int].assignments@;
        let ghost mut vs: Seq<ValueGraph> = seq![self.values];
        let mut j: usize = 0;
        while j < n_as
            invariant
                self.kept_shape(old(self)),
                self.ret_alias == old(self).ret_alias,
                self.visit_times == old(self).visit_times,
                self.constant == c_end,
                bb_index < self.blocks@.len(),
                asg == self.blocks@[bb_index as int].assignments@,
                n_as == asg.len(),
                j <= n_as,
                assignments_applied(vs, asg.take(j as int)),
                vs[0] == old(self).values,
                vs[vs.len() - 1] == self.values,
            decreases n_as - j,
        {
            let ghost g_before = self.values;
            let ghost n0 = self.values.len();
            proof {
                assert(block_ok(self.blocks@[bb_index as int], self.values.len(), self.blocks@.len()));
                assert(place_ok(self.blocks@[bb_index as int].assignments@[j as int].lv, self.values.len()));
            }
            let lv = self.values.projection(false, &self.blocks[bb_index].assignments[j].lv, false);
            let ghost ga = self.values;
            let rv = self.values.projection(true, &self.blocks[bb_index].assignments[j].rv, false);
            let ghost g1 = self.values;
            proof {
                lemma_blocks_ok_mono(self.blocks@, n0, self.values.len());
                let a = asg[j as int];
                crate::value_graph::lemma_grows_trans(&g_before, &ga, &g1);
                lemma_proj_end_stable(&ga, &g1, a.lv.local as int, a.lv.projection@, false);
                crate::value_graph::lemma_added_by_places(&g_before, &ga, &g1, a.lv, a.rv);
            }
            let atype = self.blocks[bb_index].assignments[j].atype;
            match atype {
                AssignType::Variant => {
                    let ghost g0 = self.values;
                    assert(g0.node_wf(lv as int));
                    self.values.values[lv].alias.set(0, rv);
                    proof {
                        let g = self.values;
                        assert forall|i: int| 0 <= i < g.len() implies #[trigger] g.node_wf(i) by {
                            assert(g0.node_wf(i));
                            if i == lv as int {
                                let a = g.values@[i].alias@;
                                assert forall|t: int| 0 <= t < a.len() implies #[trigger] a[t] < g.len() by {
                                    if t != 0 {
                                        assert(a[t] == g0.values@[i].alias@[t]);
                                    }
                                }
                            }
                        }
                    }
                },
                AssignType::InitBox => {
                    match self.values.field_get(lv, 0) {
                        Some(f) => {
                            proof {
                                assert(self.values.node_wf(lv as int));
                                let t = choose|t: int| 0 <= t < self.values.values@[lv as int].fields@.len()
                                    && self.values.values@[lv as int].fields@[t] == (0usize, f);
                                assert(f < self.values.len());
                            }
                            self.assign_alias(f, rv);
                        },
                        None => {},
                    }
                },
                _ => {
                    self.assign_alias(lv, rv);
                },
            }
            proof {
                let a = asg[j as int];
                assert(assign_applied(g_before, g1, self.values, a, lv as int, rv as int));
                let vs2 = vs.push(self.values);
                assert(asg.take(j + 1).drop_last() =~= asg.take(j as int));
                assert forall|k: int| 0 <= k < j + 1 implies #[trigger] assign_step_at(vs2, asg.take(j + 1), k) by {
                    if k < j {
                        assert(vs2[k] == vs[k] && vs2[k + 1] == vs[k + 1]);
                        assert(asg.take(j + 1)[k] == asg.take(j as int)[k]);
                        assert(assign_step_at(vs, asg.take(j as int), k));
                    } else {
                        assert(vs2[k] == g_before);
                        assert(asg.take(j + 1)[k] == a);
                        assert(assign_applied(vs2[k], g1, vs2[k + 1], asg.take(j + 1)[k], lv as int, rv as int));
                    }
                }
                vs = vs2;
            }
            j = j + 1;
        }
        proof {
            assert(asg.take(n_as as int) =~= asg);
        }
    }

    /// Applies the calls of block `bb` to the alias graph (see
    /// `call_applied`): for a call whose result and at least one argument
    /// may drop, the callee's aliases (looked up in `fn_map`) are merged at
    /// the call site; for a callee without a body, a pointer result that
    /// may drop aliases the one argument that may drop, if there is
    /// exactly one.
    pub fn alias_bbcall(&mut self, bb_index: usize, fn_map: &HashMap<u64, FnRetAlias>)
        requires
            old(self).mop_ok(),
            bb_index < old(self).blocks@.len(),
        ensures
            final(self).kept_shape(old(self)),
            final(self).ret_alias == old(self).ret_alias,
            final(self).visit_times == old(self).visit_times,
            final(self).constant == old(self).constant,
            exists|vs: Seq<ValueGraph>| {
                &&& calls_applied(vs, old(self).blocks@[bb_index as int].calls@, fn_map@)
                &&& vs[0] == old(self).values
                &&& vs[vs.len() - 1] == final(self).values
            },
    {
        let n_calls = self.blocks[bb_index].calls.len();
        let ghost calls = self.blocks@[bb_index as int].calls@;
        let ghost mut vs: Seq<ValueGraph> = seq![self.values];
        let mut i: usize = 0;
        while i < n_calls
            invariant
                self.kept_shape(old(self)),
                self.ret_alias == old(self).ret_alias,
                self.visit_times == old(self).visit_times,
                self.constant == old(self).constant,
                bb_index < self.blocks@.len(),
                calls == self.blocks@[bb_index as int].calls@,
                n_calls == calls.len(),
                i <= n_calls,
                calls_applied(vs, calls.take(i as int), fn_map@),
                vs[0] == old(self).values,
                vs[vs.len() - 1] == self.values,
            decreases n_calls - i,
        {
            let ghost g_before = self.values;
            let ghost c = calls[i as int];
            let ghost mut witness: (ValueGraph, int, Seq<usize>, Seq<ValueGraph>) = (self.values, 0, Seq::empty(), Seq::empty());
            let callee = self.blocks[bb_index].calls[i].callee;
            let indirect = match callee {
                Callee::Indirect => true,
                _ => false,
            };
            if !indirect {
                let ghost n0 = self.values.len();
                proof {
                    assert(block_ok(self.blocks@[bb_index as int], self.values.len(), self.blocks@.len()));
                    assert(place_ok(self.blocks@[bb_index as int].calls@[i as int].destination, self.values.len()));
                }
                let lv = self.values.projection(false, &self.blocks[bb_index].calls[i].destination, false);
                let ghost ga = self.values;
                proof {
                    lemma_blocks_ok_mono(self.blocks@, n0, self.values.len());
                }
                proof {
                    assert(block_ok(self.blocks@[bb_index as int], g_before.len(), self.blocks@.len()));
                }
                let mut merge_vec: Vec<usize> = Vec::new();
                merge_vec.push(lv);
                let mut may_drop_flag: usize = 0;
                if self.values.values[lv].may_drop {
                    may_drop_flag = 1;
                }
                let n_args = self.blocks[bb_index].calls[i].args.len();
                let mut j: usize = 0;
                while j < n_args
                    invariant
                        self.kept_shape(old(self)),
                        self.ret_alias == old(self).ret_alias,
                        self.visit_times == old(self).visit_times,
                        self.constant == old(self).constant,
                        bb_index < self.blocks@.len(),
                        i < self.blocks@[bb_index as int].calls@.len(),
                        c == self.blocks@[bb_index as int].calls@[i as int],
                        n_args == c.args@.len(),
                        j <= n_args,
                        lv < self.values.len(),
                        ga.wf(),
                        (lv as int) < ga.len(),
                        self.values.grows_from(&ga),
                        ga.grows_from(&g_before),
                        ga.proj_end(c.destination.local as int, c.destination.projection@, false) == Some(lv as int),
                        merge_vec@.len() == j + 1,
                        merge_vec@[0] == lv,
                        forall|t: int| 0 <= t < merge_vec@.len() ==> #[trigger] merge_vec@[t] < self.values.len(),
                        forall|t: int| 0 <= t < j ==> #[trigger] operand_node(self.values, c.args@[t], merge_vec@[t + 1]),
                        may_drop_flag as int == min2(drop_count(self.values, lv as int, c.args@, merge_vec@, j as int)),
                        g_before.wf(),
                        c.destination.local < g_before.len(),
                        block_ok(self.blocks@[bb_index as int], g_before.len(), self.blocks@.len()),
                        forall|y: int| g_before.len() <= y < self.values.len() ==> #[trigger] call_place_added(self.values, c, j as int, y),
                    decreases n_args - j,
                {
                    let ghost n1 = self.values.len();
                    let ghost gj = self.values;
                    proof {
                        assert(block_ok(self.blocks@[bb_index as int], self.values.len(), self.blocks@.len()));
                        assert(operand_ok(self.blocks@[bb_index as int].calls@[i as int].args@[j as int], self.values.len()));
                    }
                    let rv = match &self.blocks[bb_index].calls[i].args[j] {
                        Operand::Copy(p) => Some(self.values.projection(true, p, false)),
                        Operand::Move(p) => Some(self.values.projection(true, p, false)),
                        Operand::Constant(_) => None,
                    };
                    proof {
                        lemma_blocks_ok_mono(self.blocks@, n1, self.values.len());
                        lemma_grows_trans(&ga, &gj, &self.values);
                        lemma_call_args_stable(&gj, &self.values, c.args@, merge_vec@, lv as int, j as int);
                    }
                    let ghost mv0 = merge_vec@;
                    match rv {
                        Some(r) => {
                            merge_vec.push(r);
                            if self.values.values[r].may_drop && may_drop_flag < 2 {
                                may_drop_flag = may_drop_flag + 1;
                            }
                        },
                        None => {
                            merge_vec.push(0);
                        },
                    }
                    proof {
                        let mv = merge_vec@;
                        assert(mv.drop_last() =~= mv0);
                        assert forall|t: int| 0 <= t < j + 1 implies #[trigger] operand_node(self.values, c.args@[t], mv[t + 1]) by {
                            if t < j {
                                assert(mv[t + 1] == mv0[t + 1]);
                            }
                        }
                        lemma_drop_count_push(self.values, lv as int, c.args@, mv0, mv, j as int);
                        let gk = self.values;
                        assert forall|y: int| g_before.len() <= y < gk.len() implies #[trigger] call_place_added(gk, c, j + 1, y) by {
                            if y < gj.len() {
                                assert(call_place_added(gj, c, j as int, y));
                                if on_projection(&gj, c.destination.local as int, c.destination.projection@, false, c.destination.projection@.len() as int, y) {
                                    lemma_on_projection_stable(&gj, &gk, c.destination.local as int, c.destination.projection@, false, c.destination.projection@.len() as int, y);
                                } else {
                                    let t = choose|t: int| 0 <= t < j && #[trigger] arg_added(gj, c.args@[t], y);
                                    assert(operand_ok(self.blocks@[bb_index as int].calls@[i as int].args@[t], g_before.len()));
                                    match c.args@[t] {
                                        Operand::Copy(p) => lemma_on_projection_stable(&gj, &gk, p.local as int, p.projection@, true, p.projection@.len() as int, y),
                                        Operand::Move(p) => lemma_on_projection_stable(&gj, &gk, p.local as int, p.projection@, true, p.projection@.len() as int, y),
                                        Operand::Constant(_) => {},
                                    }
                                    assert(arg_added(gk, c.args@[t], y));
                                }
                            } else {
                                assert(arg_added(gk, c.args@[j as int], y));
                            }
                        }
                    }
                    j = j + 1;
                }
                let ghost g1 = self.values;
                proof {
                    lemma_grows_trans(&g_before, &ga, &g1);
                    lemma_proj_end_stable(&ga, &g1, c.destination.local as int, c.destination.projection@, false);
                    witness = (g1, lv as int, merge_vec@, seq![g1]);
                }
                if may_drop_flag > 1 {
                    match callee {
                        Callee::WithBody(target_id) => {
                            match fn_map.get(&target_id) {
                                Some(summary) => {
                                    let ghost mut ws: Seq<ValueGraph> = seq![self.values];
                                    let mut k: usize = 0;
                                    while k < summary.alias_vec.len()
                                        invariant
                                            self.kept_shape(old(self)),
                                            self.ret_alias == old(self).ret_alias,
                                            self.visit_times == old(self).visit_times,
                                            self.constant == old(self).constant,
                                            bb_index < self.blocks@.len(),
                                            k <= summary.alias_vec@.len(),
                                            forall|t: int| 0 <= t < merge_vec@.len() ==> #[trigger] merge_vec@[t] < self.values.len(),
                                            merges_applied(ws, summary.alias_vec@.take(k as int), merge_vec@),
                                            ws[0] == g1,
                                            ws[ws.len() - 1] == self.values,
                                        decreases summary.alias_vec@.len() - k,
                                    {
                                        let assign = &summary.alias_vec[k];
                                        let ghost gk = self.values;
                                        if assign.valuable() {
                                            let ghost n2 = self.values.len();
                                            self.merge(assign, &merge_vec);
                                            proof {
                                                lemma_blocks_ok_mono(self.blocks@, n2, self.values.len());
                                            }
                                        }
                                        proof {
                                            let rs = summary.alias_vec@.take(k + 1);
                                            let ws2 = ws.push(self.values);
                                            assert(rs.drop_last() =~= summary.alias_vec@.take(k as int));
                                            assert forall|t: int| 0 <= t < k + 1 implies #[trigger] merge_step_at(ws2, rs, merge_vec@, t) by {
                                                if t < k {
                                                    assert(ws2[t] == ws[t] && ws2[t + 1] == ws[t + 1]);
                                                    assert(rs[t] == summary.alias_vec@.take(k as int)[t]);
                                                    assert(merge_step_at(ws, summary.alias_vec@.take(k as int), merge_vec@, t));
                                                } else {
                                                    assert(ws2[t] == gk);
                                                    assert(rs[t] == *assign);
                                                }
                                            }
                                            ws = ws2;
                                        }
                                        k = k + 1;
                                    }
                                    proof {
                                        assert(summary.alias_vec@.take(summary.alias_vec@.len() as int) =~= summary.alias_vec@);
                                        witness = (g1, lv as int, merge_vec@, ws);
                                    }
                                },
                                None => {},
                            }
                        },
                        Callee::NoBody { passed_over } => {
                            if self.values.values[lv].may_drop && !passed_over {
                                let mut right_set: Vec<usize> = Vec::new();
                                let mut t: usize = 0;
                                assert(merge_vec@.take(0) =~= Seq::<usize>::empty());
                                while t < merge_vec.len()
                                    invariant
                                        t <= merge_vec@.len(),
                                        lv < self.values.len(),
                                        forall|s: int| 0 <= s < merge_vec@.len() ==> #[trigger] merge_vec@[s] < self.values.len(),
                                        right_set@ == right_nodes(self.values, lv as int, merge_vec@.take(t as int)),
                                    decreases merge_vec@.len() - t,
                                {
                                    proof {
                                        assert(merge_vec@.take(t + 1).drop_last() =~= merge_vec@.take(t as int));
                                        assert(merge_vec@.take(t + 1).last() == merge_vec@[t as int]);
                                        lemma_right_nodes_push(self.values, lv as int, merge_vec@.take(t + 1));
                                    }
                                    let rv = merge_vec[t];
                                    if self.values.values[rv].may_drop && lv != rv && self.values.values[lv].is_ptr() {
                                        right_set.push(rv);
                                    }
                                    t = t + 1;
                                }
                                proof {
                                    assert(merge_vec@.take(merge_vec@.len() as int) =~= merge_vec@);
                                    lemma_right_nodes_in(self.values, lv as int, merge_vec@);
                                }
                                if right_set.len() == 1 {
                                    if self.values.unrelated(lv, right_set[0]) {
                                        let ghost n3 = self.values.len();
                                        self.values.merge_alias_nodes(lv, right_set[0], false);
                                        proof {
                                            lemma_blocks_ok_mono(self.blocks@, n3, self.values.len());
                                        }
                                    }
                                }
                            }
                        },
                        Callee::Indirect => {},
                    }
                }
            }
            proof {
                let (w1, wl, wm, ww) = witness;
                assert(call_applied(g_before, w1, self.values, c, fn_map@, wl, wm, ww));
                let cs = calls.take(i + 1);
                let vs2 = vs.push(self.values);
                assert(cs.drop_last() =~= calls.take(i as int));
                assert forall|t: int| 0 <= t < i + 1 implies #[trigger] call_step_at(vs2, cs, fn_map@, t) by {
                    if t < i {
                        assert(vs2[t] == vs[t] && vs2[t + 1] == vs[t + 1]);
                        assert(cs[t] == calls.take(i as int)[t]);
                        assert(call_step_at(vs, calls.take(i as int), fn_map@, t));
                    } else {
                        assert(vs2[t] == g_before);
                        assert(cs[t] == c);
                        assert(call_applied(vs2[t], w1, vs2[t + 1], cs[t], fn_map@, wl, wm, ww));
                    }
                }
                vs = vs2;
            }
            i = i + 1;
        }
        proof {
            assert(calls.take(n_calls as int) =~= calls);
        }
    }
}

/// `b` keeps the entries of `a` and may add more after them.
pub open spec fn keeps_prefix<T>(a: Seq<T>, b: Seq<T>) -> bool {
    a.len() <= b.len() && forall|t: int| 0 <= t < a.len() ==> #[trigger] b[t] == a[t]
}

/// `g` with one more visit counted.
pub open spec fn mop_bumped(g: MopGraph) -> MopGraph {
    MopGraph {
        values: g.values,
        arg_size: g.arg_size,
        ret_alias: g.ret_alias,
        blocks: g.blocks,
        scc_indices: g.scc_indices,
        constant: g.constant,
        visit_times: (g.visit_times + 1) as usize,
    }
}

/// `h` differs from `g` in its alias graph only.
pub open spec fn mop_only_values(g: MopGraph, h: MopGraph) -> bool {
    h.same_frame(&g) && h.ret_alias == g.ret_alias
}

/// What `alias_bb` does to `g` at block `bb`, giving `h`.
pub open spec fn mop_bb_effect(g: MopGraph, h: MopGraph, bb: int) -> bool {
    &&& h.kept_shape(&g)
    &&& h.ret_alias == g.ret_alias
    &&& h.visit_times == g.visit_times
    &&& h.constant@ == consts_after(g.constant@, g.blocks@[bb].const_value@)
    &&& exists|vs: Seq<ValueGraph>| {
        &&& #[trigger] assignments_applied(vs, g.blocks@[bb].assignments@)
        &&& vs[0] == g.values
        &&& vs[vs.len() - 1] == h.values
    }
}

/// What `alias_bbcall` does to `g` at block `bb`, giving `h`.
pub open spec fn mop_bbcall_effect(g: MopGraph, h: MopGraph, bb: int, fns: Map<u64, FnRetAlias>) -> bool {
    &&& h.kept_shape(&g)
    &&& h.ret_alias == g.ret_alias
    &&& h.visit_times == g.visit_times
    &&& h.constant == g.constant
    &&& exists|vs: Seq<ValueGraph>| {
        &&& #[trigger] calls_applied(vs, g.blocks@[bb].calls@, fns)
        &&& vs[0] == g.values
        &&& vs[vs.len() - 1] == h.values
    }
}

/// Visiting block `bb` takes `g` to `h`: its assignments, then its calls.
pub open spec fn mop_visit(g: MopGraph, h: MopGraph, bb: int, fns: Map<u64, FnRetAlias>) -> bool {
    exists|m1: MopGraph| {
        &&& mop_bb_effect(g, m1, bb)
        &&& #[trigger] mop_bbcall_effect(m1, h, bb, fns)
    }
}

/// The `k`-th block visited takes the `k`-th state to the next.
pub open spec fn mop_visit_at(sts: Seq<MopGraph>, blocks: Seq<usize>, fns: Map<u64, FnRetAlias>, k: int) -> bool {
    mop_visit(sts[k], sts[k + 1], blocks[k] as int, fns)
}

/// The blocks visited in order from `sts[0]`.
pub open spec fn mop_visits(sts: Seq<MopGraph>, blocks: Seq<usize>, fns: Map<u64, FnRetAlias>) -> bool {
    &&& sts.len() == blocks.len() + 1
    &&& forall|k: int| 0 <= k < blocks.len() ==> #[trigger] mop_visit_at(sts, blocks, fns, k)
}

/// The aliases `after` are `before` followed by one entry for each
/// interface alias (see `pairs_upto`) among the nodes of a path.
pub open spec fn results_appended(before: Seq<RetAlias>, after: Seq<RetAlias>, nodes: Seq<ValueNode>, arg_size: usize) -> bool {
    let pairs = pairs_upto(nodes, nodes.len() as int, arg_size);
    &&& after.len() == before.len() + pairs.len()
    &&& forall|t: int| 0 <= t < before.len() ==> #[trigger] after[t] == before[t]
    &&& forall|t: int| 0 <= t < pairs.len() ==> ret_alias_of(#[trigger] after[before.len() + t], nodes[pairs[t].0], nodes[pairs[t].1])
}

/// The end of a path takes `g` to `h`: when both ends of every alias
/// between the arguments and the return value of the path's graph have a
/// readable field path, those aliases are appended to the function's
/// aliases; otherwise nothing changes.
pub open spec fn mop_results_effect(g: MopGraph, h: MopGraph) -> bool {
    exists|nodes: Seq<ValueNode>| #![trigger same_nodes(nodes, g.values.values@)] {
        &&& same_nodes(nodes, g.values.values@)
        &&& if pairs_readable(&g.values, nodes, g.arg_size) {
            &&& h.values == g.values
            &&& h.same_frame(&g)
            &&& h.ret_alias.arg_size == g.ret_alias.arg_size
            &&& results_appended(g.ret_alias.alias_vec@, h.ret_alias.alias_vec@, nodes, g.arg_size)
        } else {
            h == g
        }
    }
}

/// The discriminant place `p` of a switch, found in `g` (giving `g4`):
/// its value is known when the constants hold its node's index; the
/// paths are split on that index when it is not the node itself.
pub open spec fn mop_discr_read(g: MopGraph, g4: MopGraph, p: Place, single: bool, sw_val: usize, has_targets: bool, id: usize) -> bool {
    exists|pn: int| #![trigger g4.values.values@[pn]] {
        &&& g4.values.proj_end(p.local as int, p.projection@, false) == Some(pn)
        &&& g4.values.grows_from(&g.values)
        &&& mop_only_values(g, g4)
        &&& 0 <= pn < g4.values.len()
        &&& ({
            let idx = g4.values.values@[pn].index;
            &&& single == g.constant@.contains_key(idx)
            &&& sw_val == (if single { g.constant@[idx] } else { 0 })
            &&& has_targets == (idx != pn)
            &&& id == (if has_targets { idx } else { 0 })
        })
    }
}

/// What the switch of block `cur` reads in `g` (giving `g4`): whether it
/// goes to one target (on the value `sw_val`), or splits the paths on
/// the node index `id`; a block with sub-blocks or without a switch does
/// neither.
pub open spec fn mop_switch_read(g: MopGraph, g4: MopGraph, cur: int, single: bool, sw_val: usize, has_targets: bool, id: usize) -> bool {
    let blk = g.blocks@[cur];
    if blk.switch_stmts@.len() > 0 && blk.scc_sub_blocks@.len() == 0 {
        match blk.switch_stmts@[0].discr {
            Operand::Constant(c) => g4 == g && single && sw_val == (match c {
                Some(v) => v,
                None => 0usize,
            }) && !has_targets && id == 0,
            Operand::Copy(p) => mop_discr_read(g, g4, p, single, sw_val, has_targets, id),
            Operand::Move(p) => mop_discr_read(g, g4, p, single, sw_val, has_targets, id),
        }
    } else {
        g4 == g && !single && sw_val == 0 && !has_targets && id == 0
    }
}


/// Exploring from block `t` on a copy of `s` (with the constant of `id`
/// set to `val` when `cond`), then restoring the alias graph and the
/// constants of `s`, gives `s2`: the function's aliases and the visit
/// count are the exploration's.
pub open spec fn mop_split(s: MopGraph, s2: MopGraph, t: int, cond: bool, id: usize, val: usize, fns: Map<u64, FnRetAlias>) -> bool
    decreases visit_budget(s.visit_times), 1int, 0int,
{
    exists|sm: MopGraph, e: MopGraph| #![trigger sm.values, e.blocks] {
        &&& sm.visit_times == s.visit_times
        &&& sm.values == s.values
        &&& sm.arg_size == s.arg_size
        &&& sm.ret_alias == s.ret_alias
        &&& sm.blocks == s.blocks
        &&& sm.scc_indices == s.scc_indices
        &&& sm.constant@ == (if cond { s.constant@.insert(id, val) } else { s.constant@ })
        &&& mop_explore(sm, e, t, fns)
        &&& same_nodes(s2.values.values@, s.values.values@)
        &&& s2.constant@ == s.constant@
        &&& s2.arg_size == e.arg_size
        &&& s2.ret_alias == e.ret_alias
        &&& s2.blocks == e.blocks
        &&& s2.scc_indices == e.scc_indices
        &&& s2.visit_times == e.visit_times
    }
}

/// The `k`-th successor explored (when the visit count allows) on a copy
/// of the state (see `mop_split`), with the discriminant `id` set to the
/// successor's value when `cond`.
pub open spec fn mop_succ_step(ss: Seq<MopGraph>, succ: Seq<(usize, usize)>, cond: bool, id: usize, fns: Map<u64, FnRetAlias>, k: int, base: usize) -> bool
    decreases visit_budget(base), 2int, 0int,
{
    if ss[k].visit_times <= VISIT_LIMIT {
        ss[k].visit_times >= base && mop_split(ss[k], ss[k + 1], succ[k].1 as int, cond, id, succ[k].0, fns)
    } else {
        ss[k + 1] == ss[k]
    }
}

/// The first `n` successors explored in order from `ss[0]` (see
/// `mop_succ_step`).
pub open spec fn mop_succ_fold(ss: Seq<MopGraph>, succ: Seq<(usize, usize)>, cond: bool, id: usize, fns: Map<u64, FnRetAlias>, n: int, base: usize) -> bool
    decreases visit_budget(base), 3int, n,
{
    if n <= 0 {
        true
    } else {
        mop_succ_fold(ss, succ, cond, id, fns, n - 1, base) && mop_succ_step(ss, succ, cond, id, fns, n - 1, base)
    }
}

/// Exploring the paths from block `bb` takes `g` to `h`: the visit is
/// counted and, over the limit, nothing else happens; otherwise the block
/// (through its strongly connected component's representative) and its
/// sub-blocks are visited; at the end of a path the function's aliases
/// are recorded (see `mop_results_effect`); one successor is explored in
/// place; a switch on a known value explores the target it selects; a
/// switch on a node of its own splits the paths, one per target with the
/// node's value set, and a last one for the otherwise target; any other
/// block explores each successor on a copy of the state, while the visit
/// count allows.
pub open spec fn mop_explore(g: MopGraph, h: MopGraph, bb: int, fns: Map<u64, FnRetAlias>) -> bool
    decreases visit_budget(g.visit_times), 0int, 0int,
{
    let g1 = mop_bumped(g);
    if g.visit_times + 1 > VISIT_LIMIT {
        h == g1
    } else {
        let cur = g.scc_indices@[bb] as int;
        let blk = g.blocks@[cur];
        exists|g2: MopGraph, sts: Seq<MopGraph>| #![trigger mop_visit(g1, g2, cur, fns), mop_visits(sts, blk.scc_sub_blocks@, fns)] {
            &&& mop_visit(g1, g2, cur, fns)
            &&& mop_visits(sts, blk.scc_sub_blocks@, fns)
            &&& sts[0] == g2
            &&& sts[sts.len() - 1].visit_times == g1.visit_times
            &&& if blk.next@.len() == 0 {
                mop_results_effect(sts[sts.len() - 1], h)
            } else if blk.next@.len() == 1 {
                mop_explore(sts[sts.len() - 1], h, blk.next@[0] as int, fns)
            } else {
                exists|g4: MopGraph, single: bool, sw_val: usize, has_targets: bool, id: usize|
                    #![trigger mop_switch_read(sts[sts.len() - 1], g4, cur, single, sw_val, has_targets, id)] {
                    &&& mop_switch_read(sts[sts.len() - 1], g4, cur, single, sw_val, has_targets, id)
                    &&& g4.visit_times == g1.visit_times
                    &&& if single {
                        mop_explore(g4, h, switch_target(blk, sw_val) as int, fns)
                    } else if has_targets {
                        let ts = blk.switch_stmts@[0].targets.values@;
                        exists|ss: Seq<MopGraph>| #![trigger ss[0]] {
                            &&& ss.len() == ts.len() + 1
                            &&& ss[0] == g4
                            &&& mop_succ_fold(ss, ts, true, id, fns, ts.len() as int, g1.visit_times)
                            &&& ss[ts.len() as int].visit_times >= g1.visit_times
                            &&& mop_split(ss[ts.len() as int], h, blk.switch_stmts@[0].targets.otherwise as int, true, id, usize::MAX, fns)
                        }
                    } else {
                        let ns = succ_pairs(blk.next@);
                        exists|ss: Seq<MopGraph>| #![trigger ss[0]] {
                            &&& ss.len() == ns.len() + 1
                            &&& ss[0] == g4
                            &&& mop_succ_fold(ss, ns, false, 0, fns, ns.len() as int, g1.visit_times)
                            &&& h == ss[ns.len() as int]
                        }
                    }
                }
            }
        }
    }
}

/// A fold over a longer sequence of states agrees on the prefix.
proof fn lemma_mop_fold_push(
    prev: Seq<MopGraph>,
    ss: Seq<MopGraph>,
    succ: Seq<(usize, usize)>,
    cond: bool,
    id: usize,
    fns: Map<u64, FnRetAlias>,
    k: int,
    base: usize,
)
    requires
        0 <= k,
        prev.len() == k + 1,
        ss.len() == k + 2,
        forall|t: int| 0 <= t <= k ==> prev[t] == ss[t],
        mop_succ_fold(prev, succ, cond, id, fns, k, base),
        mop_succ_step(ss, succ, cond, id, fns, k, base),
    ensures
        mop_succ_fold(ss, succ, cond, id, fns, k + 1, base),
{
    lemma_mop_fold_same(prev, ss, succ, cond, id, fns, k, base);
}

/// Two sequences of states that agree up to `n` have the same fold up to
/// `n`.
proof fn lemma_mop_fold_same(
    a: Seq<MopGraph>,
    b: Seq<MopGraph>,
    succ: Seq<(usize, usize)>,
    cond: bool,
    id: usize,
    fns: Map<u64, FnRetAlias>,
    n: int,
    base: usize,
)
    requires
        0 <= n,
        a.len() > n,
        b.len() > n,
        forall|t: int| 0 <= t <= n ==> a[t] == b[t],
        mop_succ_fold(a, succ, cond, id, fns, n, base),
    ensures
        mop_succ_fold(b, succ, cond, id, fns, n, base),
    decreases n,
{
    if n > 0 {
        lemma_mop_fold_same(a, b, succ, cond, id, fns, n - 1, base);
        let k = n - 1;
        assert(a[k] == b[k]);
        assert(a[k + 1] == b[k + 1]);
        assert(mop_succ_step(a, succ, cond, id, fns, k, base));
        assert(mop_succ_step(b, succ, cond, id, fns, k, base));
    }
}

impl MopGraph {
    /// What a path search from here leaves: a consistent graph with the same
    /// blocks, the function's earlier aliases kept, and the visit count grown
    /// (by one when over the limit, within twice the limit otherwise).
    pub open spec fn searched(&self, old: &MopGraph) -> bool {
        &&& self.kept_shape(old)
        &&& keeps_prefix(old.ret_alias.alias_vec@, self.ret_alias.alias_vec@)
        &&& self.visit_times > old.visit_times
        &&& old.visit_times <= VISIT_LIMIT ==> self.visit_times <= 2 * VISIT_LIMIT + 2 - old.visit_times
        &&& old.visit_times >= VISIT_LIMIT ==> self.visit_times == old.visit_times + 1
    }

    /// Applies the assignments, then the calls, of block `bb`.
    fn visit_block(&mut self, bb: usize, fn_map: &HashMap<u64, FnRetAlias>)
        requires
            old(self).mop_ok(),
            bb < old(self).blocks@.len(),
        ensures
            final(self).kept_shape(old(self)),
            final(self).ret_alias == old(self).ret_alias,
            final(self).visit_times == old(self).visit_times,
            mop_visit(*old(self), *final(self), bb as int, fn_map@),
    {
        self.alias_bb(bb);
        let ghost m1 = *self;
        self.alias_bbcall(bb, fn_map);
        proof {
            assert(mop_bb_effect(*old(self), m1, bb as int));
            assert(mop_bbcall_effect(m1, *self, bb as int, fn_map@));
        }
    }

    /// Explores the paths from block `bb_index` (through its strongly
    /// connected component's representative), applying each block's
    /// assignments and calls; at the end of a path, the aliases among the
    /// arguments and return value are recorded (see `merge_results`) when
    /// every field node's father is no field. A switch on a known constant
    /// follows the matching target (or the last one); otherwise each
    /// successor is explored on a copy of the state. Exploration stops after
    /// `VISIT_LIMIT` visits.
    #[verifier::spinoff_prover]
    #[verifier::rlimit(40)]
    pub fn check(&mut self, bb_index: usize, fn_map: &HashMap<u64, FnRetAlias>)
        requires
            old(self).mop_ok(),
            bb_index < old(self).blocks@.len(),
            old(self).visit_times < usize::MAX,
        ensures
            final(self).searched(old(self)),
            old(self).visit_times >= VISIT_LIMIT ==> *final(self) == mop_bumped(*old(self)),
            mop_explore(*old(self), *final(self), bb_index as int, fn_map@),
        decreases visit_budget(old(self).visit_times), 0int,
    {
        let ghost g0 = *self;
        self.visit_times = self.visit_times + 1;
        let ghost g1 = *self;
        proof {
            assert(g1 == mop_bumped(g0));
        }
        if self.visit_times > VISIT_LIMIT {
            return;
        }
        let cur = self.scc_indices[bb_index];
        self.visit_block(cur, fn_map);
        let ghost g2 = *self;
        let subs = self.blocks[cur].scc_sub_blocks.clone();
        assert(subs@ =~= self.blocks@[cur as int].scc_sub_blocks@);
        assert(block_ok(self.blocks@[cur as int], self.values.len(), self.blocks@.len()));
        let ghost mut sts: Seq<MopGraph> = seq![g2];
        let mut i: usize = 0;
        while i < subs.len()
            invariant
                self.kept_shape(old(self)),
                keeps_prefix(old(self).ret_alias.alias_vec@, self.ret_alias.alias_vec@),
                self.visit_times == old(self).visit_times + 1,
                self.visit_times <= VISIT_LIMIT,
                cur < self.blocks@.len(),
                subs@ == self.blocks@[cur as int].scc_sub_blocks@,
                i <= subs@.len(),
                forall|t: int| 0 <= t < subs@.len() ==> (#[trigger] subs@[t] as int) < self.blocks@.len(),
                sts.len() == i + 1,
                sts[0] == g2,
                sts[i as int] == *self,
                forall|k: int| 0 <= k < i ==> #[trigger] mop_visit_at(sts, subs@, fn_map@, k),
            decreases subs@.len() - i,
        {
            let ghost prev = sts;
            self.visit_block(subs[i], fn_map);
            proof {
                sts = sts.push(*self);
                assert forall|k: int| 0 <= k < i + 1 implies #[trigger] mop_visit_at(sts, subs@, fn_map@, k) by {
                    if k < i {
                        assert(mop_visit_at(prev, subs@, fn_map@, k));
                        assert(prev[k] == sts[k]);
                        assert(prev[k + 1] == sts[k + 1]);
                    }
                }
            }
            i = i + 1;
        }
        let ghost g3 = *self;
        proof {
            assert(mop_visits(sts, subs@, fn_map@));
            assert(sts[sts.len() - 1] == g3);
        }
        let next = self.blocks[cur].next.clone();
        assert(next@ =~= self.blocks@[cur as int].next@);
        if next.len() == 0 {
            let results_nodes = self.values.duplicate();
            let ghost rn = results_nodes.values@;
            proof {
                lemma_copy_indexable(&self.values, rn, self.arg_size);
            }
            if pairs_readable_exec(&self.values, &results_nodes.values, self.arg_size) {
                self.merge_results(results_nodes.values);
            }
            proof {
                assert(same_nodes(rn, g3.values.values@));
                assert(mop_results_effect(g3, *self));
                assert(mop_explore(g0, *self, bb_index as int, fn_map@));
            }
            return;
        }
        if next.len() == 1 {
            self.check(next[0], fn_map);
            proof {
                assert(mop_explore(g3, *self, next@[0] as int, fn_map@));
                assert(mop_explore(g0, *self, bb_index as int, fn_map@));
            }
            return;
        }
        // a switch on a known value follows one target
        let mut single_target = false;
        let mut sw_val: usize = 0;
        let mut sw_target: usize = 0;
        let mut path_discr_id: usize = 0;
        let mut has_targets = false;
        let mut targets: Vec<(usize, usize)> = Vec::new();
        let mut otherwise: usize = 0;
        let ghost blk = g0.blocks@[cur as int];
        if self.blocks[cur].switch_stmts.len() > 0 && self.blocks[cur].scc_sub_blocks.len() == 0 {
            proof {
                assert(block_ok(self.blocks@[cur as int], self.values.len(), self.blocks@.len()));
                let sw = self.blocks@[cur as int].switch_stmts@[0];
                assert(operand_ok(sw.discr, self.values.len()));
            }
            targets = crate::value_graph::copy_pairs(&self.blocks[cur].switch_stmts[0].targets.values);
            otherwise = self.blocks[cur].switch_stmts[0].targets.otherwise;
            let ghost n0 = self.values.len();
            let place = match &self.blocks[cur].switch_stmts[0].discr {
                Operand::Copy(p) => Some(self.values.projection(false, p, false)),
                Operand::Move(p) => Some(self.values.projection(false, p, false)),
                Operand::Constant(c) => {
                    single_target = true;
                    match c {
                        Some(val) => {
                            sw_val = *val;
                        },
                        None => {},
                    }
                    None
                },
            };
            proof {
                lemma_blocks_ok_mono(self.blocks@, n0, self.values.len());
            }
            match place {
                Some(p) => {
                    let idx = self.values.values[p].index;
                    match self.constant.get(&idx) {
                        Some(c) => {
                            single_target = true;
                            sw_val = *c;
                        },
                        None => {},
                    }
                    if idx != p {
                        path_discr_id = idx;
                        has_targets = true;
                    }
                    proof {
                        assert(self.values.values@[p as int].index == idx);
                    }
                },
                None => {},
            }
            proof {
                assert(mop_switch_read(g3, *self, cur as int, single_target, sw_val, has_targets, path_discr_id));
            }
            if single_target {
                let mut k: usize = 0;
                while k < targets.len()
                    invariant_except_break
                        sw_target == 0,
                    invariant
                        k <= targets@.len(),
                        forall|t: int| 0 <= t < targets@.len() ==> (#[trigger] targets@[t].1 as int) < self.blocks@.len(),
                        first_match_from(targets@, sw_val, 0) == first_match_from(targets@, sw_val, k as int),
                    ensures
                        sw_target == first_match_from(targets@, sw_val, 0),
                        sw_target == 0 || (sw_target as int) < self.blocks@.len(),
                    decreases targets@.len() - k,
                {
                    if targets[k].0 == sw_val {
                        sw_target = targets[k].1;
                        break;
                    }
                    k = k + 1;
                }
                if sw_target == 0 {
                    sw_target = otherwise;
                }
            }
        } else {
            proof {
                assert(mop_switch_read(g3, *self, cur as int, single_target, sw_val, has_targets, path_discr_id));
            }
        }
        let ghost g4 = *self;
        assert(forall|t: int| 0 <= t < next@.len() ==> (#[trigger] next@[t] as int) < self.blocks@.len());
        if single_target {
            assert((sw_target as int) < self.blocks@.len());
            self.check(sw_target, fn_map);
            proof {
                assert(sw_target == switch_target(blk, sw_val));
                assert(mop_explore(g4, *self, switch_target(blk, sw_val) as int, fn_map@));
            }
        } else if has_targets {
            let ghost mut ss: Seq<MopGraph> = seq![g4];
            let mut k: usize = 0;
            while k < targets.len()
                invariant
                    self.kept_shape(old(self)),
                    keeps_prefix(old(self).ret_alias.alias_vec@, self.ret_alias.alias_vec@),
                    self.visit_times > old(self).visit_times,
                    self.visit_times <= 2 * VISIT_LIMIT + 1 - old(self).visit_times,
                    old(self).visit_times < VISIT_LIMIT,
                    k <= targets@.len(),
                    forall|t: int| 0 <= t < targets@.len() ==> (#[trigger] targets@[t].1 as int) < self.blocks@.len(),
                    (otherwise as int) < self.blocks@.len(),
                    ss.len() == k + 1,
                    ss[0] == g4,
                    ss[k as int] == *self,
                    g1.visit_times == old(self).visit_times + 1,
                    mop_succ_fold(ss, targets@, true, path_discr_id, fn_map@, k as int, g1.visit_times),
                decreases targets@.len() - k,
            {
                let ghost prev = ss;
                if self.visit_times <= VISIT_LIMIT {
                    self.split_check_with_cond(targets[k].1, path_discr_id, targets[k].0, fn_map);
                }
                proof {
                    ss = ss.push(*self);
                    assert(mop_succ_step(ss, targets@, true, path_discr_id, fn_map@, k as int, g1.visit_times));
                    lemma_mop_fold_push(prev, ss, targets@, true, path_discr_id, fn_map@, k as int, g1.visit_times);
                }
                k = k + 1;
            }
            let ghost last = *self;
            self.split_check_with_cond(otherwise, path_discr_id, usize::MAX, fn_map);
            proof {
                assert(ss[targets@.len() as int] == last);
                assert(targets@ == blk.switch_stmts@[0].targets.values@);
                assert(mop_split(last, *self, otherwise as int, true, path_discr_id, usize::MAX, fn_map@));
            }
        } else {
            let ghost ns = succ_pairs(next@);
            let ghost mut ss: Seq<MopGraph> = seq![g4];
            let mut k: usize = 0;
            while k < next.len()
                invariant
                    self.kept_shape(old(self)),
                    keeps_prefix(old(self).ret_alias.alias_vec@, self.ret_alias.alias_vec@),
                    self.visit_times > old(self).visit_times,
                    self.visit_times <= 2 * VISIT_LIMIT + 1 - old(self).visit_times,
                    old(self).visit_times < VISIT_LIMIT,
                    k <= next@.len(),
                    forall|t: int| 0 <= t < next@.len() ==> (#[trigger] next@[t] as int) < self.blocks@.len(),
                    ns == succ_pairs(next@),
                    ss.len() == k + 1,
                    ss[0] == g4,
                    ss[k as int] == *self,
                    g1.visit_times == old(self).visit_times + 1,
                    mop_succ_fold(ss, ns, false, 0, fn_map@, k as int, g1.visit_times),
                decreases next@.len() - k,
            {
                let ghost prev = ss;
                if self.visit_times <= VISIT_LIMIT {
                    self.split_check(next[k], fn_map);
                }
                proof {
                    ss = ss.push(*self);
                    assert(ns[k as int] == (0usize, next@[k as int]));
                    assert(mop_succ_step(ss, ns, false, 0, fn_map@, k as int, g1.visit_times));
                    lemma_mop_fold_push(prev, ss, ns, false, 0, fn_map@, k as int, g1.visit_times);
                }
                k = k + 1;
            }
            proof {
                assert(ss[ns.len() as int] == *self);
            }
        }
        proof {
            assert(mop_switch_read(sts[sts.len() - 1], g4, cur as int, single_target, sw_val, has_targets, path_discr_id));
            assert(mop_explore(g0, *self, bb_index as int, fn_map@));
        }
    }

    /// Explores the paths from `bb_index` on a copy of the alias graph and
    /// constants, which are then restored.
    pub fn split_check(&mut self, bb_index: usize, fn_map: &HashMap<u64, FnRetAlias>)
        requires
            old(self).mop_ok(),
            bb_index < old(self).blocks@.len(),
            old(self).visit_times < usize::MAX,
        ensures
            final(self).searched(old(self)),
            same_nodes(final(self).values.values@, old(self).values.values@),
            final(self).constant@ == old(self).constant@,
            mop_split(*old(self), *final(self), bb_index as int, false, 0, 0, fn_map@),
        decreases visit_budget(old(self).visit_times), 1int,
    {
        let backup_values = self.values.duplicate();
        let backup_constant = self.constant.clone();
        let ghost sm = *self;
        self.check(bb_index, fn_map);
        let ghost e = *self;
        self.values = backup_values;
        self.constant = backup_constant;
        proof {
            lemma_same_nodes_wf(&old(self).values, &self.values);
            lemma_blocks_ok_mono(self.blocks@, old(self).values.len(), self.values.len());
            assert(mop_explore(sm, e, bb_index as int, fn_map@));
            assert(sm.constant@ == (if false { old(self).constant@.insert(0, 0) } else { old(self).constant@ }));
        }
    }

    /// As `split_check`, with the discriminant `path_discr_id` known to
    /// hold `path_discr_val` on the explored paths.
    pub fn split_check_with_cond(
        &mut self,
        bb_index: usize,
        path_discr_id: usize,
        path_discr_val: usize,
        fn_map: &HashMap<u64, FnRetAlias>,
    )
        requires
            old(self).mop_ok(),
            bb_index < old(self).blocks@.len(),
            old(self).visit_times < usize::MAX,
        ensures
            final(self).searched(old(self)),
            same_nodes(final(self).values.values@, old(self).values.values@),
            final(self).constant@ == old(self).constant@,
            mop_split(*old(self), *final(self), bb_index as int, true, path_discr_id, path_discr_val, fn_map@),
        decreases visit_budget(old(self).visit_times), 1int,
    {
        let backup_values = self.values.duplicate();
        let backup_constant = self.constant.clone();
        self.constant.insert(path_discr_id, path_discr_val);
        let ghost sm = *self;
        self.check(bb_index, fn_map);
        let ghost e = *self;
        self.values = backup_values;
        self.constant = backup_constant;
        proof {
            lemma_same_nodes_wf(&old(self).values, &self.values);
            lemma_blocks_ok_mono(self.blocks@, old(self).values.len(), self.values.len());
            assert(mop_explore(sm, e, bb_index as int, fn_map@));
        }
    }
}

} // verus!
