use vstd::prelude::*;
use std::collections::HashMap;
use crate::corner::{should_check, should_check_spec};
use crate::safedrop_graph::{SafeDropGraph, BugRecords, FnRetAlias, RetAlias, reaches_dead, sd_merge_effect, some_arg_dangling};
use crate::value_graph::{added_by_places, on_projection, ValueGraph, ValueNode, TyKind, same_nodes, lemma_same_nodes_wf, in_prefix, birth_filled, lemma_proj_end_stable, lemma_grows_trans};
use crate::heap_item::{OwnerUnit, has_isolated, units, has_isolated_exec};
use crate::ownership::RawTypeOwner;
use crate::mir_model::{first_match_from, switch_target, succ_pairs, AssignType, Assignment, CallSite, Place, Callee, DropKind, DropSite, DropTy, Operand, BlockNode, block_ok, place_ok, operand_ok, lemma_blocks_ok_mono};
use crate::mop_check::{consts_after, alias_assigned, variant_assigned, drop_count, min2, right_nodes, lemma_call_args_stable, lemma_drop_count_push, lemma_right_nodes_push, lemma_right_nodes_in, operand_node};

verus! {

broadcast use vstd::std_specs::hash::group_hash_axioms;

/// The number of block visits after which the drop analysis stops exploring paths.
pub const VISIT_LIMIT: usize = 1000;

/// The nodes of `new` are those of `old`, but that nodes which may drop,
/// are no corner case and were born before `birth` may have died.
pub open spec fn lowered_births(old: Seq<ValueNode>, new: Seq<ValueNode>, birth: isize) -> bool {
    &&& new.len() == old.len()
    &&& forall|y: int| 0 <= y < old.len() ==> {
        &&& (#[trigger] new[y]).index == old[y].index
        &&& new[y].local == old[y].local
        &&& new[y].need_drop == old[y].need_drop
        &&& new[y].may_drop == old[y].may_drop
        &&& new[y].kind == old[y].kind
        &&& new[y].father == old[y].father
        &&& new[y].field_id == old[y].field_id
        &&& new[y].parent == old[y].parent
        &&& new[y].alias == old[y].alias
        &&& new[y].fields == old[y].fields
        &&& (new[y].birth == old[y].birth || (new[y].birth == -1 && old[y].may_drop && old[y].birth < birth
            && old[y].kind != TyKind::CornerCase))
    }
}

/// Double frees may have been reported at `span` (never twice for a
/// local); the other reports are unchanged.
pub open spec fn df_added(old: BugRecords, new: BugRecords, span: usize) -> bool {
    &&& old.df_bugs@.submap_of(new.df_bugs@)
    &&& forall|k: usize| #[trigger] new.df_bugs@.contains_key(k) && !old.df_bugs@.contains_key(k) ==> new.df_bugs@[k] == span
    &&& new.df_bugs_unwind == old.df_bugs_unwind
    &&& new.uaf_bugs == old.uaf_bugs
    &&& new.dp_bugs == old.dp_bugs
    &&& new.dp_bugs_unwind == old.dp_bugs_unwind
}

/// No report is ever withdrawn.
pub open spec fn records_grow(old: BugRecords, new: BugRecords) -> bool {
    &&& old.df_bugs@.submap_of(new.df_bugs@)
    &&& old.df_bugs_unwind@.submap_of(new.df_bugs_unwind@)
    &&& old.uaf_bugs@.subset_of(new.uaf_bugs@)
    &&& old.dp_bugs@.subset_of(new.dp_bugs@)
    &&& old.dp_bugs_unwind@.subset_of(new.dp_bugs_unwind@)
}

proof fn lemma_records_grow_trans(a: BugRecords, b: BugRecords, c: BugRecords)
    requires
        records_grow(a, b),
        records_grow(b, c),
    ensures
        records_grow(a, c),
{
    assert forall|k: usize| #[trigger] a.df_bugs@.contains_key(k) implies c.df_bugs@.contains_key(k) && c.df_bugs@[k] == a.df_bugs@[k] by {
        assert(a.df_bugs@.dom().contains(k));
        assert(b.df_bugs@.dom().contains(k));
        assert(b.df_bugs@[k] == a.df_bugs@[k]);
        assert(c.df_bugs@.dom().contains(k));
        assert(c.df_bugs@[k] == b.df_bugs@[k]);
    }
    assert forall|k: usize| #[trigger] a.df_bugs_unwind@.contains_key(k) implies c.df_bugs_unwind@.contains_key(k) && c.df_bugs_unwind@[k] == a.df_bugs_unwind@[k] by {
        assert(a.df_bugs_unwind@.dom().contains(k));
        assert(b.df_bugs_unwind@.dom().contains(k));
        assert(b.df_bugs_unwind@[k] == a.df_bugs_unwind@[k]);
        assert(c.df_bugs_unwind@.dom().contains(k));
        assert(c.df_bugs_unwind@[k] == b.df_bugs_unwind@[k]);
    }
}

/// Changing births alone keeps a graph well formed.
proof fn lemma_lowered_wf(g1: &ValueGraph, g2: &ValueGraph, birth: isize)
    requires
        g1.wf(),
        lowered_births(g1.values@, g2.values@, birth),
    ensures
        g2.wf(),
{
    assert forall|i: int| 0 <= i < g2.len() implies #[trigger] g2.node_wf(i) by {
        assert(g1.node_wf(i));
        let n = g2.values@[i];
        assert(n.fields == g1.values@[i].fields);
        assert(n.alias == g1.values@[i].alias);
        assert forall|j: int| 0 <= j < n.fields@.len() implies {
            &&& i < #[trigger] n.fields@[j].1 < g2.len()
            &&& g2.values@[n.fields@[j].1 as int].parent == i
        } by {
            let c = n.fields@[j].1 as int;
            assert(g2.values@[c].parent == g1.values@[c].parent);
        }
    }
}

/// The variant of a dropped ADT that has been analysed is one of its variants.
pub open spec fn drop_ty_ok(owner: Map<u64, Vec<OwnerUnit>>, t: DropTy) -> bool {
    match t {
        DropTy::Adt(did, v) => owner.contains_key(did) ==> (match v {
            Some(i) => i < owner[did]@.len(),
            None => 0 < owner[did]@.len(),
        }),
        DropTy::Other => true,
    }
}

/// The variant a dropped value is in: the one named, or the first.
pub open spec fn drop_variant(v: Option<usize>) -> int {
    match v {
        Some(i) => i as int,
        None => 0,
    }
}

/// Which drops may free heap memory: dropping a value of an ADT that was
/// analysed frees heap memory exactly when the variant it is in (the first
/// when none is named) owns heap memory or holds some type parameter
/// isolated (a `true` among its parameter flags), whatever its own
/// ownership flag; dropping any other value is taken to free heap memory.
pub proof fn lemma_heap_drops(owner: Map<u64, Vec<OwnerUnit>>, did: u64, v: Option<usize>, j: int)
    ensures
        !owner.contains_key(did) ==> drops_heap(owner, DropTy::Adt(did, v)),
        drops_heap(owner, DropTy::Other),
        owner.contains_key(did) ==> ({
            let unit = owner[did]@[drop_variant(v)];
            &&& (0 <= j < unit.1@.len() && unit.1@[j]) ==> drops_heap(owner, DropTy::Adt(did, v))
            &&& unit.0 == RawTypeOwner::Owned ==> drops_heap(owner, DropTy::Adt(did, v))
            &&& drops_heap(owner, DropTy::Adt(did, v)) ==> (unit.0 == RawTypeOwner::Owned || exists|t: int| 0 <= t < unit.1@.len() && #[trigger] unit.1@[t])
        }),
{
    if owner.contains_key(did) {
        let unit = owner[did]@[drop_variant(v)];
        if 0 <= j < unit.1@.len() && unit.1@[j] {
            assert(has_isolated(unit));
        }
        if drops_heap(owner, DropTy::Adt(did, v)) && unit.0 != RawTypeOwner::Owned {
            assert(has_isolated(unit));
            let t = choose|t: int| 0 <= t < unit.1@.len() && #[trigger] unit.1@[t];
            assert(unit.1@[t]);
        }
    }
}

/// Dropping a value of type `t` may free heap memory: the type is no
/// analysed ADT, or the variant it is in owns heap memory or holds a
/// parameter isolated.
pub open spec fn drops_heap(owner: Map<u64, Vec<OwnerUnit>>, t: DropTy) -> bool {
    match t {
        DropTy::Adt(did, v) => owner.contains_key(did) ==> {
            let unit = owner[did]@[drop_variant(v)];
            unit.0 == RawTypeOwner::Owned || has_isolated(unit)
        },
        DropTy::Other => true,
    }
}

/// `y` follows `x` when `x` is dropped: a node on the alias list of `x`
/// (when `x` was assigned from another node) that is no reference, or a
/// field node of `x`.
pub open spec fn drop_succ(g: Seq<ValueNode>, x: int, y: int) -> bool {
    let n = g[x];
    &&& 0 <= x < g.len()
    &&& 0 <= y < g.len()
    &&& ((n.alias@[0] as int != x && in_prefix(n.alias@, n.alias@.len() as int, y) && g[y].kind != TyKind::Ref)
        || (exists|j: int| 0 <= j < n.fields@.len() && #[trigger] n.fields@[j].1 as int == y))
}

/// A chain of nodes, each following the one before when it is dropped.
pub open spec fn drop_path(g: Seq<ValueNode>, p: Seq<int>) -> bool {
    &&& p.len() >= 1
    &&& forall|k: int| 0 <= k < p.len() - 1 ==> #[trigger] drop_succ(g, p[k], p[k + 1])
}

/// Dropping `x` can reach `y`.
pub open spec fn drop_reaches(g: Seq<ValueNode>, x: int, y: int) -> bool {
    exists|p: Seq<int>| drop_path(g, p) && p[0] == x && p[p.len() - 1] == y
}

/// Only births differ between the graphs.
pub open spec fn same_links(a: Seq<ValueNode>, b: Seq<ValueNode>) -> bool {
    &&& a.len() == b.len()
    &&& forall|y: int| 0 <= y < a.len() ==> (#[trigger] a[y]).alias == b[y].alias && a[y].fields == b[y].fields && a[y].kind == b[y].kind
}

proof fn lemma_lowered_links(a: Seq<ValueNode>, b: Seq<ValueNode>, birth: isize)
    requires
        lowered_births(a, b, birth),
    ensures
        same_links(a, b),
{
    assert forall|y: int| 0 <= y < a.len() implies (#[trigger] a[y]).alias == b[y].alias && a[y].fields == b[y].fields && a[y].kind == b[y].kind by {
        assert(b[y].index == a[y].index);
    }
}

proof fn lemma_reach_links(a: Seq<ValueNode>, b: Seq<ValueNode>, x: int, y: int)
    requires
        same_links(a, b),
        drop_reaches(b, x, y),
        forall|k: int| 0 <= k < a.len() ==> (#[trigger] a[k]).alias@.len() >= 1,
    ensures
        drop_reaches(a, x, y),
{
    let p = choose|p: Seq<int>| drop_path(b, p) && p[0] == x && p[p.len() - 1] == y;
    assert forall|k: int| 0 <= k < p.len() - 1 implies #[trigger] drop_succ(a, p[k], p[k + 1]) by {
        assert(drop_succ(b, p[k], p[k + 1]));
        let u = p[k];
        let v = p[k + 1];
        if 0 <= u < a.len() {
            assert(a[u].alias == b[u].alias && a[u].fields == b[u].fields);
            if 0 <= v < a.len() {
                assert(a[v].kind == b[v].kind);
            }
        }
    }
    assert(drop_path(a, p));
}

proof fn lemma_reach_prepend(g: Seq<ValueNode>, x: int, a: int, y: int)
    requires
        drop_succ(g, x, a),
        drop_reaches(g, a, y),
    ensures
        drop_reaches(g, x, y),
{
    let p = choose|p: Seq<int>| drop_path(g, p) && p[0] == a && p[p.len() - 1] == y;
    let q = seq![x] + p;
    assert forall|k: int| 0 <= k < q.len() - 1 implies #[trigger] drop_succ(g, q[k], q[k + 1]) by {
        if k == 0 {
            assert(q[1] == p[0]);
        } else {
            let k1 = k - 1;
            assert(q[k] == p[k1] && q[k + 1] == p[k1 + 1]);
            assert(drop_succ(g, p[k1], p[k1 + 1]));
        }
    }
    assert(drop_path(g, q));
    assert(q[q.len() - 1] == p[p.len() - 1]);
}

proof fn lemma_reach_self(g: Seq<ValueNode>, x: int)
    ensures
        drop_reaches(g, x, x),
{
    let p = seq![x];
    assert(drop_path(g, p));
}

/// The nodes whose birth changed from `a` to `b` can be reached by dropping `x` in `g`.
pub open spec fn changed_reached(g: Seq<ValueNode>, a: Seq<ValueNode>, b: Seq<ValueNode>, x: int) -> bool {
    forall|y: int| 0 <= y < a.len() && (#[trigger] b[y]).birth != a[y].birth ==> drop_reaches(g, x, y)
}

impl SafeDropGraph {
    /// Whether the drop of a place of type `place_ty` may free heap memory
    /// (see `drops_heap`).
    pub fn drop_heap_item_check(&self, place_ty: &DropTy) -> (res: bool)
        requires
            drop_ty_ok(self.adt_owner@, *place_ty),
        ensures
            res == drops_heap(self.adt_owner@, *place_ty),
    {
        match place_ty {
            DropTy::Adt(did, v) => {
                if !self.adt_owner.contains_key(did) {
                    return true;
                }
                let us = units(&self.adt_owner, *did);
                let idx: usize = match v {
                    Some(i) => *i,
                    None => 0,
                };
                us[idx].0.is_owned() || has_isolated_exec(&us[idx])
            },
            DropTy::Other => true,
        }
    }

    /// Marks the node `drop` dead, with what it aliases (but references)
    /// and, unless it is reached as an alias, its fields (in a tuple, those
    /// that need drop): a node already dead is reported as a double free
    /// and not followed; a corner-case node is passed over; a node dies
    /// only if it may drop and was born before `birth`. The walk goes at
    /// most `fuel` nodes deep.
    fn dead_node_rec(&mut self, drop: usize, birth: isize, span: usize, alias: bool, fuel: usize)
        requires
            old(self).values.wf(),
            drop < old(self).values.len(),
        ensures
            final(self).values.wf(),
            lowered_births(old(self).values.values@, final(self).values.values@, birth),
            df_added(old(self).bug_records, final(self).bug_records, span),
            final(self).arg_size == old(self).arg_size,
            final(self).ret_alias == old(self).ret_alias,
            final(self).return_set == old(self).return_set,
            final(self).span == old(self).span,
            final(self).same_body(old(self)),
            changed_reached(old(self).values.values@, old(self).values.values@, final(self).values.values@, drop as int),
            fuel > 0 ==> {
                let n = old(self).values.values@[drop as int];
                &&& n.kind == TyKind::CornerCase ==> final(self).values == old(self).values && final(self).bug_records == old(self).bug_records
                &&& n.kind != TyKind::CornerCase && !n.alive() ==> final(self).values == old(self).values
                    && final(self).bug_records.df_bugs@ == (if old(self).bug_records.df_bugs@.contains_key(n.local) {
                        old(self).bug_records.df_bugs@
                    } else {
                        old(self).bug_records.df_bugs@.insert(n.local, span)
                    })
                &&& n.kind != TyKind::CornerCase && n.alive() && n.may_drop && n.birth < birth
                    ==> final(self).values.values@[drop as int].birth == -1
            },
        decreases fuel,
    {
        if fuel == 0 {
            return;
        }
        if self.values.values[drop].is_corner_case() {
            return;
        }
        if self.df_check(drop, span) {
            return;
        }
        let ghost g0 = self.values;
        let ghost r0 = self.bug_records;
        assert(g0.node_wf(drop as int));
        let alias_list = self.values.values[drop].alias.clone();
        assert(alias_list@ =~= g0.values@[drop as int].alias@);
        if alias_list[0] != drop {
            let mut i: usize = 0;
            while i < alias_list.len()
                invariant
                    g0.wf(),
                    drop < g0.len(),
                    alias_list@ == g0.values@[drop as int].alias@,
                    forall|t: int| 0 <= t < alias_list@.len() ==> #[trigger] alias_list@[t] < g0.len(),
                    fuel > 0,
                    i <= alias_list@.len(),
                    self.values.wf(),
                    lowered_births(g0.values@, self.values.values@, birth),
                    changed_reached(g0.values@, g0.values@, self.values.values@, drop as int),
                    alias_list@[0] != drop,
                    df_added(r0, self.bug_records, span),
                    self.arg_size == old(self).arg_size,
                    self.ret_alias == old(self).ret_alias,
                    self.return_set == old(self).return_set,
                    self.span == old(self).span,
                    self.same_body(old(self)),
                decreases alias_list@.len() - i,
            {
                let a = alias_list[i];
                assert(a < self.values.len());
                if !self.values.values[a].is_ref() {
                    let ghost g1 = self.values.values@;
                    let ghost r1 = self.bug_records;
                    self.dead_node_rec(a, birth, span, true, fuel - 1);
                    proof {
                        lemma_lowered_trans(g0.values@, g1, self.values.values@, birth);
                        lemma_df_added_trans(r0, r1, self.bug_records, span);
                        assert(drop_succ(g0.values@, drop as int, a as int)) by {
                            assert(alias_list@[i as int] as int == a as int);
                            assert(g1[a as int].kind == g0.values@[a as int].kind);
                        }
                        lemma_changed_step(&g0, g1, self.values.values@, drop as int, a as int, birth);
                    }
                }
                i = i + 1;
            }
        }
        if !alias {
            let fields = crate::value_graph::copy_pairs(&self.values.values[drop].fields);
            assert(fields@ == g0.values@[drop as int].fields@);
            assert(forall|t: int| 0 <= t < fields@.len() ==> #[trigger] fields@[t].1 < g0.len());
            let mut j: usize = 0;
            while j < fields.len()
                invariant
                    g0.wf(),
                    drop < g0.len(),
                    fields@ == g0.values@[drop as int].fields@,
                    forall|t: int| 0 <= t < fields@.len() ==> #[trigger] fields@[t].1 < g0.len(),
                    fuel > 0,
                    j <= fields@.len(),
                    self.values.wf(),
                    lowered_births(g0.values@, self.values.values@, birth),
                    changed_reached(g0.values@, g0.values@, self.values.values@, drop as int),
                    df_added(r0, self.bug_records, span),
                    self.arg_size == old(self).arg_size,
                    self.ret_alias == old(self).ret_alias,
                    self.return_set == old(self).return_set,
                    self.span == old(self).span,
                    self.same_body(old(self)),
                decreases fields@.len() - j,
            {
                let f = fields[j].1;
                assert(f < self.values.len());
                if !(self.values.values[drop].is_tuple() && !self.values.values[f].need_drop) {
                    let ghost g1 = self.values.values@;
                    let ghost r1 = self.bug_records;
                    self.dead_node_rec(f, birth, span, false, fuel - 1);
                    proof {
                        lemma_lowered_trans(g0.values@, g1, self.values.values@, birth);
                        lemma_df_added_trans(r0, r1, self.bug_records, span);
                        assert(drop_succ(g0.values@, drop as int, f as int)) by {
                            assert(fields@[j as int].1 as int == f as int);
                        }
                        lemma_changed_step(&g0, g1, self.values.values@, drop as int, f as int, birth);
                    }
                }
                j = j + 1;
            }
        }
        if self.values.values[drop].birth < birth && self.values.values[drop].may_drop {
            let ghost g1 = self.values;
            self.values.values[drop].birth = -1;
            proof {
                assert(lowered_births(g1.values@, self.values.values@, birth));
                lemma_lowered_trans(g0.values@, g1.values@, self.values.values@, birth);
                lemma_lowered_wf(&g1, &self.values, birth);
                lemma_reach_self(g0.values@, drop as int);
                assert forall|y: int| 0 <= y < g0.values@.len() && (#[trigger] self.values.values@[y]).birth != g0.values@[y].birth
                    implies drop_reaches(g0.values@, drop as int, y) by {
                    if y != drop as int {
                        assert(self.values.values@[y] == g1.values@[y]);
                    }
                }
            }
        }
    }

    /// Marks the node `drop` dead (see `dead_node_rec`), with `birth` the
    /// point of the drop: a node born at or after it stays alive.
    pub fn dead_node(&mut self, drop: usize, birth: usize, span: usize, alias: bool)
        requires
            old(self).values.wf(),
            drop < old(self).values.len(),
        ensures
            drop_effect(old(self), final(self), drop, birth as isize, span),
    {
        let fuel = self.values.values.len();
        self.dead_node_rec(drop, birth as isize, span, alias, fuel);
    }
}

/// What dropping the node `drop` at the point `birth` (location `span`)
/// does to the graph `old`, giving `new`: only births change, and only to
/// dead for nodes that may drop, were born before the point and can be
/// reached from `drop` through aliases and fields; double
/// frees may be reported at `span`; a corner-case node is left alone; an
/// already dead node is reported as a double free of its local (once per
/// local) and nothing else happens; an alive node that may drop and was
/// born before the point dies.
pub open spec fn drop_effect(old: &SafeDropGraph, new: &SafeDropGraph, drop: usize, birth: isize, span: usize) -> bool {
    let n = old.values.values@[drop as int];
    &&& new.values.wf()
    &&& lowered_births(old.values.values@, new.values.values@, birth)
    &&& changed_reached(old.values.values@, old.values.values@, new.values.values@, drop as int)
    &&& df_added(old.bug_records, new.bug_records, span)
    &&& new.arg_size == old.arg_size
    &&& new.ret_alias == old.ret_alias
    &&& new.return_set == old.return_set
    &&& new.span == old.span
    &&& new.same_body(old)
    &&& n.kind == TyKind::CornerCase ==> new.values == old.values && new.bug_records == old.bug_records
    &&& n.kind != TyKind::CornerCase && !n.alive() ==> new.values == old.values && new.bug_records.df_bugs@ == (if old.bug_records.df_bugs@.contains_key(n.local) {
        old.bug_records.df_bugs@
    } else {
        old.bug_records.df_bugs@.insert(n.local, span)
    })
    &&& n.kind != TyKind::CornerCase && n.alive() && n.may_drop && n.birth < birth ==> new.values.values@[drop as int].birth == -1
}

/// Dropping twice a value that may drop, is alive and was born before the
/// first drop reports a double free of its local.
pub proof fn lemma_double_drop_reported(
    g0: SafeDropGraph,
    g1: SafeDropGraph,
    g2: SafeDropGraph,
    drop: usize,
    birth1: isize,
    birth2: isize,
    span1: usize,
    span2: usize,
)
    requires
        g0.values.wf(),
        drop < g0.values.len(),
        g0.values.values@[drop as int].kind != TyKind::CornerCase,
        g0.values.values@[drop as int].alive(),
        g0.values.values@[drop as int].may_drop,
        g0.values.values@[drop as int].birth < birth1,
        drop_effect(&g0, &g1, drop, birth1, span1),
        drop_effect(&g1, &g2, drop, birth2, span2),
    ensures
        g2.bug_records.df_bugs@.contains_key(g0.values.values@[drop as int].local),
{
    let n1 = g1.values.values@[drop as int];
    assert(n1.kind == g0.values.values@[drop as int].kind);
    assert(n1.local == g0.values.values@[drop as int].local);
    assert(!n1.alive());
    if g1.bug_records.df_bugs@.contains_key(n1.local) {
        assert(g2.bug_records.df_bugs@ == g1.bug_records.df_bugs@);
    }
}

/// After dropping a node `a` that follows `x`, the births changed so far
/// are still reachable by dropping `x`.
proof fn lemma_changed_step(g0: &ValueGraph, g1: Seq<ValueNode>, g2: Seq<ValueNode>, x: int, a: int, birth: isize)
    requires
        g0.wf(),
        0 <= x < g0.len(),
        lowered_births(g0.values@, g1, birth),
        lowered_births(g1, g2, birth),
        changed_reached(g0.values@, g0.values@, g1, x),
        changed_reached(g1, g1, g2, a),
        drop_succ(g0.values@, x, a),
    ensures
        changed_reached(g0.values@, g0.values@, g2, x),
{
    lemma_lowered_links(g0.values@, g1, birth);
    assert forall|k: int| 0 <= k < g0.values@.len() implies (#[trigger] g0.values@[k]).alias@.len() >= 1 by {
        assert(g0.node_wf(k));
    }
    assert forall|y: int| 0 <= y < g0.values@.len() && (#[trigger] g2[y]).birth != g0.values@[y].birth implies drop_reaches(g0.values@, x, y) by {
        if g1[y].birth == g0.values@[y].birth {
            assert(g2[y].birth != g1[y].birth);
            lemma_reach_links(g0.values@, g1, a, y);
            lemma_reach_prepend(g0.values@, x, a, y);
        }
    }
}

proof fn lemma_lowered_trans(a: Seq<ValueNode>, b: Seq<ValueNode>, c: Seq<ValueNode>, birth: isize)
    requires
        lowered_births(a, b, birth),
        lowered_births(b, c, birth),
    ensures
        lowered_births(a, c, birth),
{
    assert forall|y: int| 0 <= y < a.len() implies (c[y].birth == a[y].birth || (c[y].birth == -1 && a[y].may_drop
        && a[y].birth < birth && a[y].kind != TyKind::CornerCase)) by {
        assert(b[y].index == a[y].index);
        assert(c[y].index == b[y].index);
    }
}

proof fn lemma_df_added_trans(a: BugRecords, b: BugRecords, c: BugRecords, span: usize)
    requires
        df_added(a, b, span),
        df_added(b, c, span),
    ensures
        df_added(a, c, span),
{
    assert forall|k: usize| #[trigger] a.df_bugs@.contains_key(k) implies c.df_bugs@.contains_key(k) && c.df_bugs@[k] == a.df_bugs@[k] by {
        assert(a.df_bugs@.dom().contains(k));
        assert(b.df_bugs@.dom().contains(k));
        assert(b.df_bugs@[k] == a.df_bugs@[k]);
        assert(c.df_bugs@.dom().contains(k));
        assert(c.df_bugs@[k] == b.df_bugs@[k]);
    }
    assert forall|k: usize| #[trigger] c.df_bugs@.contains_key(k) && !a.df_bugs@.contains_key(k) implies c.df_bugs@[k] == span by {
        if b.df_bugs@.contains_key(k) {
            assert(c.df_bugs@[k] == b.df_bugs@[k]);
        }
    }
}


/// Every drop of the blocks names a variant that its ADT's summary has.
pub open spec fn drops_typed(owner: Map<u64, Vec<OwnerUnit>>, blocks: Seq<BlockNode>) -> bool {
    forall|i: int, k: int| 0 <= i < blocks.len() && 0 <= k < blocks[i].drops@.len() ==> match (#[trigger] blocks[i].drops@[k]).kind {
        DropKind::Drop { place_ty, .. } => drop_ty_ok(owner, place_ty),
        DropKind::Call { .. } => true,
    }
}

/// A use of the node `node` (of the local `local`) is a use after free: its
/// value may drop, it is not a pointer of its own local (or the use is a
/// call), and a dead value is reachable from it.
pub open spec fn uaf_found(g: ValueGraph, node: usize, local: usize, is_func_call: bool) -> bool {
    let n = g.values@[node as int];
    n.may_drop && (!n.ptr() || n.local != local || is_func_call) && reaches_dead(&g, node, Set::empty(), false)
}

/// The assignment of `rv` to `lv` at `span` (the right place of the local
/// `rv_local`), in a block whose point is `birth`, takes the graph `g` and
/// the use-after-free reports `u` to `h` and `u2`: the use of `rv` is
/// checked, `lv` is born at the block, then `lv` aliases `rv`.
pub open spec fn sd_assign_effect(
    g: ValueGraph,
    u: Set<usize>,
    h: ValueGraph,
    u2: Set<usize>,
    lv: int,
    rv: int,
    span: usize,
    rv_local: usize,
    birth: isize,
) -> bool {
    &&& u2 == (if uaf_found(g, rv as usize, rv_local, false) {
        u.insert(span)
    } else {
        u
    })
    &&& exists|g2: ValueGraph| g2.wf() && birth_filled(g.values@, g2.values@, lv, birth) && alias_assigned(g2, h, lv, rv)
}

/// One assignment `a` of a block whose point is `birth`, applied to the
/// graph `g` and use-after-free reports `u`, giving `h` and `u2`, once its
/// places were found (giving `g1`) as the nodes `lv` and `rv`.
pub open spec fn sd_assign_applied(
    g: ValueGraph,
    u: Set<usize>,
    g1: ValueGraph,
    h: ValueGraph,
    u2: Set<usize>,
    a: Assignment,
    lv: int,
    rv: int,
    birth: isize,
) -> bool {
    &&& g1.grows_from(&g)
    &&& added_by_places(&g, &g1, a.lv, a.rv)
    &&& g1.proj_end(a.lv.local as int, a.lv.projection@, false) == Some(lv)
    &&& g1.proj_end(a.rv.local as int, a.rv.projection@, true) == Some(rv)
    &&& match a.atype {
        AssignType::Variant => variant_assigned(g1, h, lv, rv as usize) && u2 == u,
        AssignType::InitBox => match g1.values@[lv].field(0) {
            Some(f) => sd_assign_effect(g1, u, h, u2, f as int, rv, a.span, a.rv.local, birth),
            None => h == g1 && u2 == u,
        },
        _ => sd_assign_effect(g1, u, h, u2, lv, rv, a.span, a.rv.local, birth),
    }
}

/// The assignment `a` takes the graph `g` and reports `u` to `h` and `u2`.
pub open spec fn sd_assign_step(g: ValueGraph, u: Set<usize>, h: ValueGraph, u2: Set<usize>, a: Assignment, birth: isize) -> bool {
    exists|g1: ValueGraph, lv: int, rv: int| sd_assign_applied(g, u, g1, h, u2, a, lv, rv, birth)
}

/// The `k`-th assignment takes the `k`-th graph and reports to the next.
pub open spec fn sd_assign_step_at(vs: Seq<ValueGraph>, us: Seq<Set<usize>>, asg: Seq<Assignment>, birth: isize, k: int) -> bool {
    sd_assign_step(vs[k], us[k], vs[k + 1], us[k + 1], asg[k], birth)
}

/// The assignments `asg`, applied in order from the graph `vs[0]` and the
/// reports `us[0]`, give the graphs and reports that follow.
pub open spec fn sd_assignments_applied(vs: Seq<ValueGraph>, us: Seq<Set<usize>>, asg: Seq<Assignment>, birth: isize) -> bool {
    &&& vs.len() == asg.len() + 1
    &&& us.len() == asg.len() + 1
    &&& forall|k: int| 0 <= k < asg.len() ==> #[trigger] sd_assign_step_at(vs, us, asg, birth, k)
}

impl SafeDropGraph {
    /// The graph is well formed, holds the return value and the arguments,
    /// and its blocks name only its locals, its blocks and analysed variants.
    pub open spec fn sd_ok(&self) -> bool {
        &&& self.values.wf()
        &&& self.arg_size < self.values.len()
        &&& self.scc_indices@.len() == self.blocks@.len()
        &&& forall|i: int| 0 <= i < self.scc_indices@.len() ==> (#[trigger] self.scc_indices@[i] as int) < self.blocks@.len()
        &&& forall|i: int| 0 <= i < self.blocks@.len() ==> block_ok(#[trigger] self.blocks@[i], self.values.len(), self.blocks@.len())
        &&& drops_typed(self.adt_owner@, self.blocks@)
    }

    /// The graph grew and stays consistent, the body and the function's
    /// interface aliases are kept, and no report was withdrawn.
    pub open spec fn sd_kept(&self, old: &SafeDropGraph) -> bool {
        &&& self.sd_ok()
        &&& self.values.len() >= old.values.len()
        &&& self.arg_size == old.arg_size
        &&& self.blocks == old.blocks
        &&& self.scc_indices == old.scc_indices
        &&& self.adt_owner == old.adt_owner
        &&& self.def_path == old.def_path
        &&& self.span == old.span
        &&& self.ret_alias == old.ret_alias
        &&& self.return_set == old.return_set
        &&& records_grow(old.bug_records, self.bug_records)
    }

    /// One assignment of `rv` to `lv` (in block `bb`): the use of `rv` is
    /// checked, `lv` is born at the block, and, between different locals
    /// neither of which lies below the other, `lv` aliases `rv`.
    fn assign_step(&mut self, lv: usize, rv: usize, span: usize, rv_local: usize, bb: usize)
        requires
            old(self).sd_ok(),
            lv < old(self).values.len(),
            rv < old(self).values.len(),
            bb < old(self).blocks@.len(),
        ensures
            final(self).sd_kept(old(self)),
            final(self).constant == old(self).constant,
            final(self).visit_times == old(self).visit_times,
            sd_assign_effect(
                old(self).values,
                old(self).bug_records.uaf_bugs@,
                final(self).values,
                final(self).bug_records.uaf_bugs@,
                lv as int,
                rv as int,
                span,
                rv_local,
                old(self).scc_indices@[bb as int] as isize,
            ),
            final(self).bug_records.df_bugs == old(self).bug_records.df_bugs,
            final(self).bug_records.df_bugs_unwind == old(self).bug_records.df_bugs_unwind,
            final(self).bug_records.dp_bugs == old(self).bug_records.dp_bugs,
            final(self).bug_records.dp_bugs_unwind == old(self).bug_records.dp_bugs_unwind,
    {
        let ghost r0 = self.bug_records;
        self.uaf_check(rv, span, rv_local, false);
        let b = self.scc_indices[bb];
        self.fill_birth(lv, b as isize);
        let ghost g2 = self.values;
        if self.values.values[lv].local != self.values.values[rv].local && self.values.unrelated(lv, rv) {
            let ghost n0 = self.values.len();
            self.merge_alias(lv, rv);
            proof {
                lemma_blocks_ok_mono(self.blocks@, n0, self.values.len());
            }
        }
        proof {
            assert(r0.uaf_bugs@.subset_of(self.bug_records.uaf_bugs@));
            assert(alias_assigned(g2, self.values, lv as int, rv as int));
        }
    }

    /// Applies the assignments of block `bb` to the alias graph, after
    /// recording its constants: each use of a right place is checked for
    /// use after free, the left place is born at the block and aliases the
    /// right one (a variant assignment only records the right node as the
    /// one the left was assigned from; a box initialisation goes through the
    /// box's first field, and is passed over when the box has none).
    pub fn alias_bb(&mut self, bb_index: usize)
        requires
            old(self).sd_ok(),
            bb_index < old(self).blocks@.len(),
        ensures
            final(self).sd_kept(old(self)),
            final(self).visit_times == old(self).visit_times,
            final(self).constant@ == consts_after(old(self).constant@, old(self).blocks@[bb_index as int].const_value@),
            exists|vs: Seq<ValueGraph>, us: Seq<Set<usize>>| {
                &&& sd_assignments_applied(
                    vs,
                    us,
                    old(self).blocks@[bb_index as int].assignments@,
                    old(self).scc_indices@[bb_index as int] as isize,
                )
                &&& vs[0] == old(self).values
                &&& us[0] == old(self).bug_records.uaf_bugs@
                &&& vs[vs.len() - 1] == final(self).values
                &&& us[us.len() - 1] == final(self).bug_records.uaf_bugs@
            },
            final(self).bug_records.df_bugs == old(self).bug_records.df_bugs,
            final(self).bug_records.df_bugs_unwind == old(self).bug_records.df_bugs_unwind,
            final(self).bug_records.dp_bugs == old(self).bug_records.dp_bugs,
            final(self).bug_records.dp_bugs_unwind == old(self).bug_records.dp_bugs_unwind,
    {
        let ghost cv = self.blocks@[bb_index as int].const_value@;
        let n_cv = self.blocks[bb_index].const_value.len();
        let mut i: usize = 0;
        assert(cv.take(0) =~= Seq::<(usize, usize)>::empty());
        while i < n_cv
            invariant
                self.sd_ok(),
                self.values == old(self).values,
                self.blocks == old(self).blocks,
                self.scc_indices == old(self).scc_indices,
                self.arg_size == old(self).arg_size,
                self.adt_owner == old(self).adt_owner,
                self.def_path == old(self).def_path,
                self.span == old(self).span,
                self.ret_alias == old(self).ret_alias,
                self.return_set == old(self).return_set,
                self.bug_records == old(self).bug_records,
                self.visit_times == old(self).visit_times,
                bb_index < self.blocks@.len(),
                cv == self.blocks@[bb_index as int].const_value@,
                n_cv == cv.len(),
                i <= n_cv,
                self.constant@ == consts_after(old(self).constant@, cv.take(i as int)),
            decreases n_cv - i,
        {
            let (k, v) = self.blocks[bb_index].const_value[i];
            self.constant.insert(k, v);
            assert(cv.take(i + 1).drop_last() =~= cv.take(i as int));
            i = i + 1;
        }
        assert(cv.take(n_cv as int) =~= cv);
        let ghost c_end = self.constant;
        let n_as = self.blocks[bb_index].assignments.len();
        let ghost asg = self.blocks@[bb_index as int].assignments@;
        let ghost birth = self.scc_indices@[bb_index as int] as isize;
        let ghost mut vs: Seq<ValueGraph> = seq![self.values];
        let ghost mut us: Seq<Set<usize>> = seq![self.bug_records.uaf_bugs@];
        let mut j: usize = 0;
        while j < n_as
            invariant
                self.sd_kept(old(self)),
                self.visit_times == old(self).visit_times,
                self.constant == c_end,
                bb_index < self.blocks@.len(),
                asg == self.blocks@[bb_index as int].assignments@,
                birth == self.scc_indices@[bb_index as int] as isize,
                n_as == asg.len(),
                j <= n_as,
                sd_assignments_applied(vs, us, asg.take(j as int), birth),
                vs[0] == old(self).values,
                us[0] == old(self).bug_records.uaf_bugs@,
                vs[vs.len() - 1] == self.values,
                us[us.len() - 1] == self.bug_records.uaf_bugs@,
                self.bug_records.df_bugs == old(self).bug_records.df_bugs,
                self.bug_records.df_bugs_unwind == old(self).bug_records.df_bugs_unwind,
                self.bug_records.dp_bugs == old(self).bug_records.dp_bugs,
                self.bug_records.dp_bugs_unwind == old(self).bug_records.dp_bugs_unwind,
            decreases n_as - j,
        {
            let ghost n0 = self.values.len();
            let ghost mid = *self;
            let ghost g_before = self.values;
            let ghost u_before = self.bug_records.uaf_bugs@;
            proof {
                assert(records_grow(mid.bug_records, mid.bug_records));
                assert(block_ok(self.blocks@[bb_index as int], self.values.len(), self.blocks@.len()));
                assert(place_ok(self.blocks@[bb_index as int].assignments@[j as int].lv, self.values.len()));
            }
            let lv = self.values.projection(false, &self.blocks[bb_index].assignments[j].lv, true);
            let ghost ga = self.values;
            let rv = self.values.projection(true, &self.blocks[bb_index].assignments[j].rv, true);
            let ghost g1 = self.values;
            proof {
                lemma_blocks_ok_mono(self.blocks@, n0, self.values.len());
                let a = asg[j as int];
                lemma_grows_trans(&g_before, &ga, &g1);
                lemma_proj_end_stable(&ga, &g1, a.lv.local as int, a.lv.projection@, false);
                crate::value_graph::lemma_added_by_places(&g_before, &ga, &g1, a.lv, a.rv);
            }
            let atype = self.blocks[bb_index].assignments[j].atype;
            let span = self.blocks[bb_index].assignments[j].span;
            let rv_local = self.blocks[bb_index].assignments[j].rv.local;
            match atype {
                AssignType::Variant => {
                    let ghost g0 = self.values;
                    assert(g0.node_wf(lv as int));
                    self.values.values[lv].alias.set(0, rv);
                    proof {
                        let g = self.values;
                        assert forall|i: int| 0 <= i < g.len() implies #[trigger] g.node_wf(i) by {
                            assert(g0.node_wf(i));
                            if i == lv as int {
                                let a = g.values@[i].alias@;
                                assert forall|t: int| 0 <= t < a.len() implies #[trigger] a[t] < g.len() by {
                                    if t != 0 {
                                        assert(a[t] == g0.values@[i].alias@[t]);
                                    }
                                }
                            }
                        }
                    }
                },
                AssignType::InitBox => {
                    match self.values.field_get(lv, 0) {
                        Some(f) => {
                            proof {
                                assert(self.values.node_wf(lv as int));
                                let t = choose|t: int| 0 <= t < self.values.values@[lv as int].fields@.len()
                                    && self.values.values@[lv as int].fields@[t] == (0usize, f);
                                assert(f < self.values.len());
                            }
                            let ghost before = self.bug_records;
                            self.assign_step(f, rv, span, rv_local, bb_index);
                            proof {
                                lemma_records_grow_trans(old(self).bug_records, before, self.bug_records);
                            }
                        },
                        None => {},
                    }
                },
                _ => {
                    let ghost before = self.bug_records;
                    self.assign_step(lv, rv, span, rv_local, bb_index);
                    proof {
                        lemma_records_grow_trans(old(self).bug_records, before, self.bug_records);
                    }
                },
            }
            proof {
                let a = asg[j as int];
                assert(sd_assign_applied(g_before, u_before, g1, self.values, self.bug_records.uaf_bugs@, a, lv as int, rv as int, birth));
                let vs2 = vs.push(self.values);
                let us2 = us.push(self.bug_records.uaf_bugs@);
                assert(asg.take(j + 1).drop_last() =~= asg.take(j as int));
                assert forall|k: int| 0 <= k < j + 1 implies #[trigger] sd_assign_step_at(vs2, us2, asg.take(j + 1), birth, k) by {
                    if k < j {
                        assert(vs2[k] == vs[k] && vs2[k + 1] == vs[k + 1]);
                        assert(us2[k] == us[k] && us2[k + 1] == us[k + 1]);
                        assert(asg.take(j + 1)[k] == asg.take(j as int)[k]);
                        assert(sd_assign_step_at(vs, us, asg.take(j as int), birth, k));
                    } else {
                        assert(vs2[k] == g_before && us2[k] == u_before);
                        assert(asg.take(j + 1)[k] == a);
                        assert(sd_assign_applied(vs2[k], us2[k], g1, vs2[k + 1], us2[k + 1], asg.take(j + 1)[k], lv as int, rv as int, birth));
                    }
                }
                vs = vs2;
                us = us2;
            }
            j = j + 1;
        }
        proof {
            assert(asg.take(n_as as int) =~= asg);
        }
    }
}


/// Everything but the alias graph and the reports is the same.
pub open spec fn sd_frame_same(a: SafeDropGraph, b: SafeDropGraph) -> bool {
    &&& b.arg_size == a.arg_size
    &&& b.ret_alias == a.ret_alias
    &&& b.return_set == a.return_set
    &&& b.span == a.span
    &&& b.same_body(&a)
}

/// `b` is `a` with the birth of the node `lv` set to `birth`.
pub open spec fn birth_set(a: SafeDropGraph, b: SafeDropGraph, lv: int, birth: isize) -> bool {
    &&& sd_frame_same(a, b)
    &&& b.bug_records == a.bug_records
    &&& b.values.len() == a.values.len()
    &&& forall|y: int| 0 <= y < a.values.len() && y != lv ==> #[trigger] b.values.values@[y] == a.values.values@[y]
    &&& b.values.values@[lv].birth == birth
    &&& ({
        let (m, n) = (a.values.values@[lv], b.values.values@[lv]);
        &&& n.index == m.index
        &&& n.local == m.local
        &&& n.need_drop == m.need_drop
        &&& n.may_drop == m.may_drop
        &&& n.kind == m.kind
        &&& n.father == m.father
        &&& n.field_id == m.field_id
        &&& n.parent == m.parent
        &&& n.alias == m.alias
        &&& n.fields == m.fields
    })
}

/// A place argument of a call at `span`, found as the node `n` (adding the
/// field nodes it needs) and checked for use after free, takes `s` to `t`.
pub open spec fn sd_place_arg(s: SafeDropGraph, t: SafeDropGraph, p: Place, n: usize, span: usize) -> bool {
    &&& t.values.grows_from(&s.values)
    &&& forall|y: int| s.values.len() <= y < t.values.len() ==> #[trigger] on_projection(&t.values, p.local as int, p.projection@, true, p.projection@.len() as int, y)
    &&& t.values.proj_end(p.local as int, p.projection@, true) == Some(n as int)
    &&& t.bug_records.uaf_bugs@ == (if uaf_found(t.values, n, p.local, true) {
        s.bug_records.uaf_bugs@.insert(span)
    } else {
        s.bug_records.uaf_bugs@
    })
    &&& t.bug_records.df_bugs == s.bug_records.df_bugs
    &&& t.bug_records.df_bugs_unwind == s.bug_records.df_bugs_unwind
    &&& t.bug_records.dp_bugs == s.bug_records.dp_bugs
    &&& t.bug_records.dp_bugs_unwind == s.bug_records.dp_bugs_unwind
    &&& sd_frame_same(s, t)
}

/// An argument `o` of a call at `span`, standing for the node `n`, takes
/// `s` to `t`: a constant changes nothing and stands for node 0.
pub open spec fn sd_arg_step(s: SafeDropGraph, t: SafeDropGraph, o: Operand, n: usize, span: usize) -> bool {
    match o {
        Operand::Copy(p) => sd_place_arg(s, t, p, n, span),
        Operand::Move(p) => sd_place_arg(s, t, p, n, span),
        Operand::Constant(_) => t == s && n == 0,
    }
}

/// The `k`-th argument (node `mv[k + 1]`) takes the `k`-th state to the next.
pub open spec fn sd_arg_step_at(sts: Seq<SafeDropGraph>, args: Seq<Operand>, mv: Seq<usize>, span: usize, k: int) -> bool {
    sd_arg_step(sts[k], sts[k + 1], args[k], mv[k + 1], span)
}

/// The arguments, handled in order from `sts[0]`, give the states that follow.
pub open spec fn sd_args_applied(sts: Seq<SafeDropGraph>, args: Seq<Operand>, mv: Seq<usize>, span: usize) -> bool {
    &&& sts.len() == args.len() + 1
    &&& forall|k: int| 0 <= k < args.len() ==> #[trigger] sd_arg_step_at(sts, args, mv, span, k)
}

/// The `k`-th callee alias applied (when both its sides may drop).
pub open spec fn sd_merge_step_at(ws: Seq<ValueGraph>, rs: Seq<RetAlias>, mv: Seq<usize>, k: int) -> bool {
    if rs[k].left_may_drop && rs[k].right_may_drop {
        sd_merge_effect(ws[k], ws[k + 1], rs[k], mv)
    } else {
        ws[k + 1] == ws[k]
    }
}

/// The callee aliases `rs`, applied in order from `ws[0]`.
pub open spec fn sd_merges_applied(ws: Seq<ValueGraph>, rs: Seq<RetAlias>, mv: Seq<usize>) -> bool {
    &&& ws.len() == rs.len() + 1
    &&& forall|k: int| 0 <= k < rs.len() ==> #[trigger] sd_merge_step_at(ws, rs, mv, k)
}

/// The node of the `k`-th position of the call dies (at the call's
/// location, with no birth bound) when the callee leaves that position
/// dangling.
pub open spec fn dead_step_at(sts: Seq<SafeDropGraph>, dead: Set<usize>, mv: Seq<usize>, span: usize, k: int) -> bool {
    if dead.contains(k as usize) {
        drop_effect(&sts[k], &sts[k + 1], mv[k], 99999isize, span)
    } else {
        sts[k + 1] == sts[k]
    }
}

/// The first `n` positions of the call handled in order.
pub open spec fn dead_steps(sts: Seq<SafeDropGraph>, dead: Set<usize>, mv: Seq<usize>, span: usize, n: int) -> bool {
    &&& sts.len() == n + 1
    &&& forall|k: int| 0 <= k < n ==> #[trigger] dead_step_at(sts, dead, mv, span, k)
}

/// The call `c` in a block whose point is `birth`, with the callee
/// summaries `fns`, takes `g` to `h`, through the states named: the result
/// place found as `lv` (giving `ga`) and born at the block (`gb`), the
/// arguments handled in order (`arg_sts`, the nodes of result and
/// arguments `mv`), then, when two of them may drop (or one, in a function
/// whose name says it drops or frees): for a callee with a summary its
/// aliases merged in order (`ws`, giving `gm`) and the positions it leaves
/// dangling killed in order (`dsts`); for a callee without a body, a
/// pointer result that may drop aliases the one other node that may drop,
/// if there is exactly one.
pub open spec fn sd_call_with(
    g: SafeDropGraph,
    h: SafeDropGraph,
    c: CallSite,
    fns: Map<u64, FnRetAlias>,
    birth: isize,
    ga: SafeDropGraph,
    gb: SafeDropGraph,
    lv: int,
    arg_sts: Seq<SafeDropGraph>,
    mv: Seq<usize>,
    ws: Seq<ValueGraph>,
    gm: SafeDropGraph,
    dsts: Seq<SafeDropGraph>,
) -> bool {
    if c.callee is Indirect {
        h == g
    } else {
        let g1 = arg_sts[arg_sts.len() - 1];
        let count = drop_count(g1.values, lv, c.args@, mv, c.args@.len() as int);
        &&& ga.values.grows_from(&g.values)
        &&& forall|y: int| g.values.len() <= y < ga.values.len() ==> #[trigger] on_projection(&ga.values, c.destination.local as int, c.destination.projection@, false, c.destination.projection@.len() as int, y)
        &&& ga.values.proj_end(c.destination.local as int, c.destination.projection@, false) == Some(lv)
        &&& sd_frame_same(g, ga)
        &&& ga.bug_records == g.bug_records
        &&& birth_set(ga, gb, lv, birth)
        &&& mv.len() == c.args@.len() + 1
        &&& mv[0] as int == lv
        &&& sd_args_applied(arg_sts, c.args@, mv, c.span)
        &&& arg_sts[0] == gb
        &&& if !(count > 1 || (count > 0 && !should_check_spec(c.callee_path@))) {
            h == g1
        } else {
            match c.callee {
                Callee::WithBody(id) => if fns.contains_key(id) {
                    &&& sd_merges_applied(ws, fns[id].alias_vec@, mv)
                    &&& ws[0] == g1.values
                    &&& sd_frame_same(g1, gm)
                    &&& gm.bug_records == g1.bug_records
                    &&& gm.values == ws[ws.len() - 1]
                    &&& dead_steps(dsts, fns[id].dead@, mv, c.span, mv.len() as int)
                    &&& dsts[0] == gm
                    &&& dsts[dsts.len() - 1] == h
                } else {
                    h == g1
                },
                Callee::NoBody { passed_over } => if g1.values.values@[lv].may_drop && !passed_over {
                    let rs = right_nodes(g1.values, lv, mv);
                    if rs.len() == 1 && g1.values.unrelated_or_same(lv, rs[0] as int) {
                        &&& ValueGraph::merged_into(&g1.values, &h.values, lv, rs[0] as int)
                        &&& sd_frame_same(g1, h)
                        &&& h.bug_records == g1.bug_records
                    } else {
                        h == g1
                    }
                } else {
                    h == g1
                },
                Callee::Indirect => true,
            }
        }
    }
}

/// The call `c` takes `g` to `h`.
pub open spec fn sd_call_step(g: SafeDropGraph, h: SafeDropGraph, c: CallSite, fns: Map<u64, FnRetAlias>, birth: isize) -> bool {
    exists|
        ga: SafeDropGraph,
        gb: SafeDropGraph,
        lv: int,
        arg_sts: Seq<SafeDropGraph>,
        mv: Seq<usize>,
        ws: Seq<ValueGraph>,
        gm: SafeDropGraph,
        dsts: Seq<SafeDropGraph>,
    | sd_call_with(g, h, c, fns, birth, ga, gb, lv, arg_sts, mv, ws, gm, dsts)
}

/// The `k`-th call takes the `k`-th state to the next.
pub open spec fn sd_call_step_at(sts: Seq<SafeDropGraph>, calls: Seq<CallSite>, fns: Map<u64, FnRetAlias>, birth: isize, k: int) -> bool {
    sd_call_step(sts[k], sts[k + 1], calls[k], fns, birth)
}

/// The calls, applied in order from `sts[0]`, give the states that follow.
pub open spec fn sd_calls_applied(sts: Seq<SafeDropGraph>, calls: Seq<CallSite>, fns: Map<u64, FnRetAlias>, birth: isize) -> bool {
    &&& sts.len() == calls.len() + 1
    &&& forall|k: int| 0 <= k < calls.len() ==> #[trigger] sd_call_step_at(sts, calls, fns, birth, k)
}

impl SafeDropGraph {
    /// Gives the node `node` the birth `birth`.
    fn set_birth(&mut self, node: usize, birth: isize)
        requires
            old(self).sd_ok(),
            node < old(self).values.len(),
        ensures
            final(self).sd_kept(old(self)),
            final(self).values.len() == old(self).values.len(),
            final(self).bug_records == old(self).bug_records,
            final(self).constant == old(self).constant,
            final(self).visit_times == old(self).visit_times,
            birth_set(*old(self), *final(self), node as int, birth),
    {
        let ghost g0 = self.values;
        self.values.values[node].birth = birth;
        proof {
            assert forall|i: int| 0 <= i < self.values.len() implies #[trigger] self.values.node_wf(i) by {
                assert(g0.node_wf(i));
                let n = self.values.values@[i];
                assert forall|j: int| 0 <= j < n.fields@.len() implies {
                    &&& i < #[trigger] n.fields@[j].1 < self.values.len()
                    &&& self.values.values@[n.fields@[j].1 as int].parent == i
                } by {
                    let c = n.fields@[j].1 as int;
                    assert(self.values.values@[c].parent == g0.values@[c].parent);
                }
            }
        }
    }

    /// Applies the calls of block `bb` to the alias graph (see
    /// `sd_call_step`): the result of a call of a function definition is
    /// born at the block and each argument place is checked for use after
    /// free; when at least two of the result and the arguments may drop (or
    /// one, in a function whose name says it drops or frees), the callee's
    /// aliases (looked up in `fn_map`) are merged at the call site and the
    /// arguments it leaves dangling die; for a callee without a body, a
    /// pointer result that may drop aliases the one argument that may drop,
    /// if there is exactly one.
    pub fn alias_bbcall(&mut self, bb_index: usize, fn_map: &HashMap<u64, FnRetAlias>)
        requires
            old(self).sd_ok(),
            bb_index < old(self).blocks@.len(),
        ensures
            final(self).sd_kept(old(self)),
            final(self).visit_times == old(self).visit_times,
            final(self).constant == old(self).constant,
            exists|sts: Seq<SafeDropGraph>| {
                &&& sd_calls_applied(
                    sts,
                    old(self).blocks@[bb_index as int].calls@,
                    fn_map@,
                    old(self).scc_indices@[bb_index as int] as isize,
                )
                &&& sts[0] == *old(self)
                &&& sts[sts.len() - 1] == *final(self)
            },
    {
        let n_calls = self.blocks[bb_index].calls.len();
        let ghost calls = self.blocks@[bb_index as int].calls@;
        let ghost birth = self.scc_indices@[bb_index as int] as isize;
        let ghost mut sts: Seq<SafeDropGraph> = seq![*self];
        let mut i: usize = 0;
        while i < n_calls
            invariant
                self.sd_kept(old(self)),
                self.visit_times == old(self).visit_times,
                self.constant == old(self).constant,
                bb_index < self.blocks@.len(),
                calls == self.blocks@[bb_index as int].calls@,
                birth == self.scc_indices@[bb_index as int] as isize,
                n_calls == calls.len(),
                i <= n_calls,
                sd_calls_applied(sts, calls.take(i as int), fn_map@, birth),
                sts[0] == *old(self),
                sts[sts.len() - 1] == *self,
            decreases n_calls - i,
        {
            let ghost g_before = *self;
            let ghost c = calls[i as int];
            let ghost mut wit: (SafeDropGraph, SafeDropGraph, int, Seq<SafeDropGraph>, Seq<usize>, Seq<ValueGraph>, SafeDropGraph, Seq<SafeDropGraph>) =
                (*self, *self, 0, Seq::empty(), Seq::empty(), Seq::empty(), *self, Seq::empty());
            let callee = self.blocks[bb_index].calls[i].callee;
            let indirect = match callee {
                Callee::Indirect => true,
                _ => false,
            };
            if !indirect {
                let ghost n0 = self.values.len();
                proof {
                    assert(block_ok(self.blocks@[bb_index as int], self.values.len(), self.blocks@.len()));
                    assert(place_ok(self.blocks@[bb_index as int].calls@[i as int].destination, self.values.len()));
                }
                let lv = self.values.projection(false, &self.blocks[bb_index].calls[i].destination, true);
                let ghost ga = *self;
                proof {
                    lemma_blocks_ok_mono(self.blocks@, n0, self.values.len());
                    lemma_records_grow_refl(self.bug_records);
                }
                let b = self.scc_indices[bb_index];
                self.set_birth(lv, b as isize);
                let ghost gb = *self;
                let span = self.blocks[bb_index].calls[i].span;
                let mut merge_vec: Vec<usize> = Vec::new();
                merge_vec.push(lv);
                let mut may_drop_flag: usize = 0;
                if self.values.values[lv].may_drop {
                    may_drop_flag = 1;
                }
                let n_args = self.blocks[bb_index].calls[i].args.len();
                let ghost mut arg_sts: Seq<SafeDropGraph> = seq![*self];
                let mut j: usize = 0;
                while j < n_args
                    invariant
                        self.sd_kept(old(self)),
                        self.visit_times == old(self).visit_times,
                        self.constant == old(self).constant,
                        bb_index < self.blocks@.len(),
                        i < self.blocks@[bb_index as int].calls@.len(),
                        c == self.blocks@[bb_index as int].calls@[i as int],
                        span == c.span,
                        n_args == c.args@.len(),
                        j <= n_args,
                        lv < self.values.len(),
                        gb.values.wf(),
                        (lv as int) < gb.values.len(),
                        self.values.grows_from(&gb.values),
                        merge_vec@.len() == j + 1,
                        merge_vec@[0] == lv,
                        forall|t: int| 0 <= t < merge_vec@.len() ==> #[trigger] merge_vec@[t] < self.values.len(),
                        forall|t: int| 0 <= t < j ==> #[trigger] operand_node(self.values, c.args@[t], merge_vec@[t + 1]),
                        may_drop_flag as int == min2(drop_count(self.values, lv as int, c.args@, merge_vec@, j as int)),
                        sd_args_applied(arg_sts, c.args@.take(j as int), merge_vec@, span),
                        arg_sts[0] == gb,
                        arg_sts[arg_sts.len() - 1] == *self,
                    decreases n_args - j,
                {
                    let ghost n1 = self.values.len();
                    let ghost sj = *self;
                    proof {
                        assert(block_ok(self.blocks@[bb_index as int], self.values.len(), self.blocks@.len()));
                        assert(operand_ok(self.blocks@[bb_index as int].calls@[i as int].args@[j as int], self.values.len()));
                    }
                    let arg_place = match &self.blocks[bb_index].calls[i].args[j] {
                        Operand::Copy(p) => Some((self.values.projection(true, p, true), p.local)),
                        Operand::Move(p) => Some((self.values.projection(true, p, true), p.local)),
                        Operand::Constant(_) => None,
                    };
                    proof {
                        lemma_blocks_ok_mono(self.blocks@, n1, self.values.len());
                        lemma_grows_trans(&gb.values, &sj.values, &self.values);
                        lemma_call_args_stable(&sj.values, &self.values, c.args@, merge_vec@, lv as int, j as int);
                    }
                    let ghost mv0 = merge_vec@;
                    match arg_place {
                        Some((r, local)) => {
                            let ghost before = self.bug_records;
                            self.uaf_check(r, span, local, true);
                            proof {
                                assert(before.uaf_bugs@.subset_of(self.bug_records.uaf_bugs@));
                                lemma_records_grow_trans(old(self).bug_records, before, self.bug_records);
                            }
                            merge_vec.push(r);
                            if self.values.values[r].may_drop && may_drop_flag < 2 {
                                may_drop_flag = may_drop_flag + 1;
                            }
                        },
                        None => {
                            merge_vec.push(0);
                        },
                    }
                    proof {
                        let mv = merge_vec@;
                        assert(mv.drop_last() =~= mv0);
                        assert forall|t: int| 0 <= t < j + 1 implies #[trigger] operand_node(self.values, c.args@[t], mv[t + 1]) by {
                            if t < j {
                                assert(mv[t + 1] == mv0[t + 1]);
                            }
                        }
                        lemma_drop_count_push(self.values, lv as int, c.args@, mv0, mv, j as int);
                        let a2 = arg_sts.push(*self);
                        let args = c.args@.take(j + 1);
                        assert(args.drop_last() =~= c.args@.take(j as int));
                        assert(sd_arg_step(sj, *self, c.args@[j as int], mv[j + 1], span));
                        assert forall|t: int| 0 <= t < j + 1 implies #[trigger] sd_arg_step_at(a2, args, mv, span, t) by {
                            if t < j {
                                assert(a2[t] == arg_sts[t] && a2[t + 1] == arg_sts[t + 1]);
                                assert(args[t] == c.args@.take(j as int)[t]);
                                assert(mv[t + 1] == mv0[t + 1]);
                                assert(sd_arg_step_at(arg_sts, c.args@.take(j as int), mv0, span, t));
                            } else {
                                assert(a2[t] == sj);
                                assert(args[t] == c.args@[j as int]);
                            }
                        }
                        arg_sts = a2;
                    }
                    j = j + 1;
                }
                let ghost g1 = *self;
                proof {
                    assert(c.args@.take(n_args as int) =~= c.args@);
                    wit = (ga, gb, lv as int, arg_sts, merge_vec@, seq![g1.values], g1, seq![g1]);
                }
                let worth = may_drop_flag > 1 || (may_drop_flag > 0 && !should_check(
                    self.blocks[bb_index].calls[i].callee_path.as_str(),
                ));
                if worth {
                    match callee {
                        Callee::WithBody(target_id) => {
                            match fn_map.get(&target_id) {
                                Some(summary) => {
                                    let ghost mut ws: Seq<ValueGraph> = seq![self.values];
                                    let mut k: usize = 0;
                                    while k < summary.alias_vec.len()
                                        invariant
                                            self.sd_kept(old(self)),
                                            self.visit_times == old(self).visit_times,
                                            self.constant == old(self).constant,
                                            sd_frame_same(g1, *self),
                                            self.bug_records == g1.bug_records,
                                            k <= summary.alias_vec@.len(),
                                            forall|t: int| 0 <= t < merge_vec@.len() ==> #[trigger] merge_vec@[t] < self.values.len(),
                                            sd_merges_applied(ws, summary.alias_vec@.take(k as int), merge_vec@),
                                            ws[0] == g1.values,
                                            ws[ws.len() - 1] == self.values,
                                        decreases summary.alias_vec@.len() - k,
                                    {
                                        let assign = &summary.alias_vec[k];
                                        let ghost gk = self.values;
                                        if assign.valuable() {
                                            let ghost n2 = self.values.len();
                                            self.merge(assign, &merge_vec);
                                            proof {
                                                lemma_blocks_ok_mono(self.blocks@, n2, self.values.len());
                                            }
                                        }
                                        proof {
                                            let rs = summary.alias_vec@.take(k + 1);
                                            let ws2 = ws.push(self.values);
                                            assert(rs.drop_last() =~= summary.alias_vec@.take(k as int));
                                            assert forall|t: int| 0 <= t < k + 1 implies #[trigger] sd_merge_step_at(ws2, rs, merge_vec@, t) by {
                                                if t < k {
                                                    assert(ws2[t] == ws[t] && ws2[t + 1] == ws[t + 1]);
                                                    assert(rs[t] == summary.alias_vec@.take(k as int)[t]);
                                                    assert(sd_merge_step_at(ws, summary.alias_vec@.take(k as int), merge_vec@, t));
                                                } else {
                                                    assert(ws2[t] == gk);
                                                    assert(rs[t] == *assign);
                                                }
                                            }
                                            ws = ws2;
                                        }
                                        k = k + 1;
                                    }
                                    let ghost gm = *self;
                                    let ghost mut dsts: Seq<SafeDropGraph> = seq![*self];
                                    let mut d: usize = 0;
                                    while d < merge_vec.len()
                                        invariant
                                            self.sd_kept(old(self)),
                                            self.visit_times == old(self).visit_times,
                                            self.constant == old(self).constant,
                                            d <= merge_vec@.len(),
                                            forall|t: int| 0 <= t < merge_vec@.len() ==> #[trigger] merge_vec@[t] < self.values.len(),
                                            dead_steps(dsts, summary.dead@, merge_vec@, span, d as int),
                                            dsts[0] == gm,
                                            dsts[dsts.len() - 1] == *self,
                                        decreases merge_vec@.len() - d,
                                    {
                                        let ghost sd0 = *self;
                                        if summary.dead.contains(&d) {
                                            let ghost before = self.bug_records;
                                            self.dead_node(merge_vec[d], 99999, span, false);
                                            proof {
                                                lemma_df_added_grows(before, self.bug_records, span);
                                                lemma_records_grow_trans(old(self).bug_records, before, self.bug_records);
                                            }
                                        }
                                        proof {
                                            let d2 = dsts.push(*self);
                                            assert forall|t: int| 0 <= t < d + 1 implies #[trigger] dead_step_at(d2, summary.dead@, merge_vec@, span, t) by {
                                                if t < d {
                                                    assert(d2[t] == dsts[t] && d2[t + 1] == dsts[t + 1]);
                                                    assert(dead_step_at(dsts, summary.dead@, merge_vec@, span, t));
                                                } else {
                                                    assert(d2[t] == sd0);
                                                }
                                            }
                                            dsts = d2;
                                        }
                                        d = d + 1;
                                    }
                                    proof {
                                        assert(summary.alias_vec@.take(summary.alias_vec@.len() as int) =~= summary.alias_vec@);
                                        assert(*summary == fn_map@[target_id]);
                                        wit = (ga, gb, lv as int, arg_sts, merge_vec@, ws, gm, dsts);
                                    }
                                },
                                None => {},
                            }
                        },
                        Callee::NoBody { passed_over } => {
                            if self.values.values[lv].may_drop && !passed_over {
                                let mut right_set: Vec<usize> = Vec::new();
                                let mut t: usize = 0;
                                assert(merge_vec@.take(0) =~= Seq::<usize>::empty());
                                while t < merge_vec.len()
                                    invariant
                                        t <= merge_vec@.len(),
                                        lv < self.values.len(),
                                        forall|s: int| 0 <= s < merge_vec@.len() ==> #[trigger] merge_vec@[s] < self.values.len(),
                                        right_set@ == right_nodes(self.values, lv as int, merge_vec@.take(t as int)),
                                    decreases merge_vec@.len() - t,
                                {
                                    proof {
                                        assert(merge_vec@.take(t + 1).drop_last() =~= merge_vec@.take(t as int));
                                        assert(merge_vec@.take(t + 1).last() == merge_vec@[t as int]);
                                        lemma_right_nodes_push(self.values, lv as int, merge_vec@.take(t + 1));
                                    }
                                    let rv = merge_vec[t];
                                    if self.values.values[rv].may_drop && lv != rv && self.values.values[lv].is_ptr() {
                                        right_set.push(rv);
                                    }
                                    t = t + 1;
                                }
                                proof {
                                    assert(merge_vec@.take(merge_vec@.len() as int) =~= merge_vec@);
                                    lemma_right_nodes_in(self.values, lv as int, merge_vec@);
                                }
                                if right_set.len() == 1 {
                                    if self.values.unrelated(lv, right_set[0]) {
                                        let ghost n3 = self.values.len();
                                        self.merge_alias(lv, right_set[0]);
                                        proof {
                                            lemma_blocks_ok_mono(self.blocks@, n3, self.values.len());
                                        }
                                    }
                                }
                            }
                        },
                        Callee::Indirect => {},
                    }
                }
            }
            proof {
                let (wa, wb, wl, was, wm, wws, wgm, wds) = wit;
                assert(sd_call_with(g_before, *self, c, fn_map@, birth, wa, wb, wl, was, wm, wws, wgm, wds));
                let cs = calls.take(i + 1);
                let s2 = sts.push(*self);
                assert(cs.drop_last() =~= calls.take(i as int));
                assert forall|t: int| 0 <= t < i + 1 implies #[trigger] sd_call_step_at(s2, cs, fn_map@, birth, t) by {
                    if t < i {
                        assert(s2[t] == sts[t] && s2[t + 1] == sts[t + 1]);
                        assert(cs[t] == calls.take(i as int)[t]);
                        assert(sd_call_step_at(sts, calls.take(i as int), fn_map@, birth, t));
                    } else {
                        assert(s2[t] == g_before);
                        assert(cs[t] == c);
                    }
                }
                sts = s2;
            }
            i = i + 1;
        }
        proof {
            assert(calls.take(n_calls as int) =~= calls);
        }
    }
}

proof fn lemma_records_grow_refl(a: BugRecords)
    ensures
        records_grow(a, a),
{
}

proof fn lemma_df_added_grows(a: BugRecords, b: BugRecords, span: usize)
    requires
        df_added(a, b, span),
    ensures
        records_grow(a, b),
{
}


/// The budget of visits left: it shrinks with every visit while under the limit.
pub open spec fn sd_visit_budget(vt: usize) -> int {
    if vt <= VISIT_LIMIT {
        VISIT_LIMIT + 1 - vt
    } else {
        0
    }
}

/// `g` with one more visit counted.
pub open spec fn bumped(g: SafeDropGraph) -> SafeDropGraph {
    SafeDropGraph {
        values: g.values,
        arg_size: g.arg_size,
        ret_alias: g.ret_alias,
        return_set: g.return_set,
        bug_records: g.bug_records,
        span: g.span,
        blocks: g.blocks,
        scc_indices: g.scc_indices,
        constant: g.constant,
        visit_times: (g.visit_times + 1) as usize,
        adt_owner: g.adt_owner,
        def_path: g.def_path,
    }
}

/// `h` differs from `g` in its alias graph only.
pub open spec fn only_values(g: SafeDropGraph, h: SafeDropGraph) -> bool {
    &&& h.arg_size == g.arg_size
    &&& h.ret_alias == g.ret_alias
    &&& h.return_set == g.return_set
    &&& h.bug_records == g.bug_records
    &&& h.span == g.span
    &&& h.blocks == g.blocks
    &&& h.scc_indices == g.scc_indices
    &&& h.constant == g.constant
    &&& h.visit_times == g.visit_times
    &&& h.adt_owner == g.adt_owner
    &&& h.def_path == g.def_path
}

/// The `k`-th block visited takes the `k`-th state to the next.
pub open spec fn sd_visit_at(sts: Seq<SafeDropGraph>, blocks: Seq<usize>, fns: Map<u64, FnRetAlias>, k: int) -> bool {
    sd_visit(sts[k], sts[k + 1], blocks[k] as int, fns)
}

/// The blocks visited in order from `sts[0]`.
pub open spec fn sd_visits(sts: Seq<SafeDropGraph>, blocks: Seq<usize>, fns: Map<u64, FnRetAlias>) -> bool {
    &&& sts.len() == blocks.len() + 1
    &&& forall|k: int| 0 <= k < blocks.len() ==> #[trigger] sd_visit_at(sts, blocks, fns, k)
}

/// What `dp_check` does to `g` at the end of a path, giving `h`.
pub open spec fn sd_dp_effect(g: SafeDropGraph, h: SafeDropGraph, is_cleanup: bool) -> bool {
    let args = some_arg_dangling(&g.values, g.arg_size);
    let ret = g.values.values@[0].may_drop && reaches_dead(&g.values, 0, Set::empty(), false);
    &&& h.bug_records.dp_bugs_unwind@ == (if is_cleanup && args {
        g.bug_records.dp_bugs_unwind@.insert(g.span)
    } else {
        g.bug_records.dp_bugs_unwind@
    })
    &&& h.bug_records.dp_bugs@ == (if !is_cleanup && (ret || args) {
        g.bug_records.dp_bugs@.insert(g.span)
    } else {
        g.bug_records.dp_bugs@
    })
    &&& h.values == g.values
    &&& h.bug_records.df_bugs == g.bug_records.df_bugs
    &&& h.bug_records.df_bugs_unwind == g.bug_records.df_bugs_unwind
    &&& h.bug_records.uaf_bugs == g.bug_records.uaf_bugs
    &&& h.arg_size == g.arg_size
    &&& h.ret_alias == g.ret_alias
    &&& h.return_set == g.return_set
    &&& h.span == g.span
    &&& h.same_body(&g)
}

/// A fold over a longer sequence of states agrees on the prefix.
proof fn lemma_succ_fold_push(
    prev: Seq<SafeDropGraph>,
    ss: Seq<SafeDropGraph>,
    succ: Seq<(usize, usize)>,
    cond: bool,
    id: usize,
    fns: Map<u64, FnRetAlias>,
    k: int,
    base: usize,
)
    requires
        0 <= k,
        prev.len() == k + 1,
        ss.len() == k + 2,
        forall|t: int| 0 <= t <= k ==> prev[t] == ss[t],
        sd_succ_fold(prev, succ, cond, id, fns, k, base),
        sd_succ_step(ss, succ, cond, id, fns, k, base),
    ensures
        sd_succ_fold(ss, succ, cond, id, fns, k + 1, base),
    decreases k,
{
    lemma_succ_fold_same(prev, ss, succ, cond, id, fns, k, base);
}

/// Two sequences of states that agree up to `n` have the same fold up to
/// `n`.
proof fn lemma_succ_fold_same(
    a: Seq<SafeDropGraph>,
    b: Seq<SafeDropGraph>,
    succ: Seq<(usize, usize)>,
    cond: bool,
    id: usize,
    fns: Map<u64, FnRetAlias>,
    n: int,
    base: usize,
)
    requires
        0 <= n,
        a.len() > n,
        b.len() > n,
        forall|t: int| 0 <= t <= n ==> a[t] == b[t],
        sd_succ_fold(a, succ, cond, id, fns, n, base),
    ensures
        sd_succ_fold(b, succ, cond, id, fns, n, base),
    decreases n,
{
    if n > 0 {
        lemma_succ_fold_same(a, b, succ, cond, id, fns, n - 1, base);
        let k = n - 1;
        assert(a[k] == b[k]);
        assert(a[k + 1] == b[k + 1]);
        assert(sd_succ_step(a, succ, cond, id, fns, k, base));
        assert(sd_succ_step(b, succ, cond, id, fns, k, base));
    }
}

/// The discriminant place `p` of a switch, found in `g` (giving `g4`):
/// its value is known when the constants hold its node's index; the
/// paths are split on that index when it is not the node itself.
pub open spec fn sd_discr_read(g: SafeDropGraph, g4: SafeDropGraph, p: Place, single: bool, sw_val: usize, has_targets: bool, id: usize) -> bool {
    exists|pn: int| #![trigger g4.values.values@[pn]] {
        &&& g4.values.proj_end(p.local as int, p.projection@, false) == Some(pn)
        &&& g4.values.grows_from(&g.values)
        &&& only_values(g, g4)
        &&& 0 <= pn < g4.values.len()
        &&& ({
            let idx = g4.values.values@[pn].index;
            &&& single == g.constant@.contains_key(idx)
            &&& sw_val == (if single { g.constant@[idx] } else { 0 })
            &&& has_targets == (idx != pn)
            &&& id == (if has_targets { idx } else { 0 })
        })
    }
}

/// What the switch of block `cur` reads in `g` (giving `g4`): whether it
/// goes to one target (on the value `sw_val`), or splits the paths on
/// the node index `id`; a block with sub-blocks or without a switch does
/// neither.
pub open spec fn sd_switch_read(g: SafeDropGraph, g4: SafeDropGraph, cur: int, single: bool, sw_val: usize, has_targets: bool, id: usize) -> bool {
    let blk = g.blocks@[cur];
    if blk.switch_stmts@.len() > 0 && blk.scc_sub_blocks@.len() == 0 {
        match blk.switch_stmts@[0].discr {
            Operand::Constant(c) => g4 == g && single && sw_val == (match c {
                Some(v) => v,
                None => 0usize,
            }) && !has_targets && id == 0,
            Operand::Copy(p) => sd_discr_read(g, g4, p, single, sw_val, has_targets, id),
            Operand::Move(p) => sd_discr_read(g, g4, p, single, sw_val, has_targets, id),
        }
    } else {
        g4 == g && !single && sw_val == 0 && !has_targets && id == 0
    }
}


/// Exploring from block `t` on a copy of `s` (with the constant of `id`
/// set to `val` when `cond`), then restoring the alias graph and the
/// constants of `s`, gives `s2`: the reports and the visit count are the
/// exploration's.
pub open spec fn sd_split(s: SafeDropGraph, s2: SafeDropGraph, t: int, cond: bool, id: usize, val: usize, fns: Map<u64, FnRetAlias>) -> bool
    decreases sd_visit_budget(s.visit_times), 1int, 0int,
{
    exists|sm: SafeDropGraph, e: SafeDropGraph| #![trigger sm.values, e.blocks] {
        &&& sm.visit_times == s.visit_times
        &&& sm.values == s.values
        &&& sm.arg_size == s.arg_size
        &&& sm.ret_alias == s.ret_alias
        &&& sm.return_set == s.return_set
        &&& sm.bug_records == s.bug_records
        &&& sm.span == s.span
        &&& sm.blocks == s.blocks
        &&& sm.scc_indices == s.scc_indices
        &&& sm.adt_owner == s.adt_owner
        &&& sm.def_path == s.def_path
        &&& sm.constant@ == (if cond { s.constant@.insert(id, val) } else { s.constant@ })
        &&& sd_explore(sm, e, t, fns)
        &&& same_nodes(s2.values.values@, s.values.values@)
        &&& s2.constant@ == s.constant@
        &&& s2.arg_size == e.arg_size
        &&& s2.ret_alias == e.ret_alias
        &&& s2.return_set == e.return_set
        &&& s2.bug_records == e.bug_records
        &&& s2.span == e.span
        &&& s2.blocks == e.blocks
        &&& s2.scc_indices == e.scc_indices
        &&& s2.visit_times == e.visit_times
        &&& s2.adt_owner == e.adt_owner
        &&& s2.def_path == e.def_path
    }
}

/// The `k`-th successor explored (when the visit count allows) on a copy
/// of the state (see `sd_split`), with the discriminant `id` set to the
/// successor's value when `cond`.
pub open spec fn sd_succ_step(ss: Seq<SafeDropGraph>, succ: Seq<(usize, usize)>, cond: bool, id: usize, fns: Map<u64, FnRetAlias>, k: int, base: usize) -> bool
    decreases sd_visit_budget(base), 2int, 0int,
{
    if ss[k].visit_times <= VISIT_LIMIT {
        ss[k].visit_times >= base && sd_split(ss[k], ss[k + 1], succ[k].1 as int, cond, id, succ[k].0, fns)
    } else {
        ss[k + 1] == ss[k]
    }
}

/// The first `n` successors explored in order from `ss[0]` (see
/// `sd_succ_step`).
pub open spec fn sd_succ_fold(ss: Seq<SafeDropGraph>, succ: Seq<(usize, usize)>, cond: bool, id: usize, fns: Map<u64, FnRetAlias>, n: int, base: usize) -> bool
    decreases sd_visit_budget(base), 3int, n,
{
    if n <= 0 {
        true
    } else {
        sd_succ_fold(ss, succ, cond, id, fns, n - 1, base) && sd_succ_step(ss, succ, cond, id, fns, n - 1, base)
    }
}

/// Exploring the paths from block `bb` takes `g` to `h`: the visit is
/// counted and, over the limit, nothing else happens; otherwise the block
/// (through its strongly connected component's representative) and its
/// sub-blocks are visited; at the end of a path dangling pointers are
/// looked for (unless the function's name says it drops or frees); one
/// successor is explored in place; a switch on a known value explores the
/// target it selects; a switch on a node of its own splits the paths, one
/// per target with the node's value set, and a last one for the
/// otherwise target; any other block explores each successor on a copy of
/// the state, while the visit count allows.
pub open spec fn sd_explore(g: SafeDropGraph, h: SafeDropGraph, bb: int, fns: Map<u64, FnRetAlias>) -> bool
    decreases sd_visit_budget(g.visit_times), 0int, 0int,
{
    let g1 = bumped(g);
    if g.visit_times + 1 > VISIT_LIMIT {
        h == g1
    } else {
        let cur = g.scc_indices@[bb] as int;
        let blk = g.blocks@[cur];
        exists|g2: SafeDropGraph, sts: Seq<SafeDropGraph>| #![trigger sd_visit(g1, g2, cur, fns), sd_visits(sts, blk.scc_sub_blocks@, fns)] {
            &&& sd_visit(g1, g2, cur, fns)
            &&& sd_visits(sts, blk.scc_sub_blocks@, fns)
            &&& sts[0] == g2
            &&& sts[sts.len() - 1].visit_times == g1.visit_times
            &&& if blk.next@.len() == 0 {
                if should_check_spec(g.def_path@) {
                    sd_dp_effect(sts[sts.len() - 1], h, blk.is_cleanup)
                } else {
                    h == sts[sts.len() - 1]
                }
            } else if blk.next@.len() == 1 {
                sd_explore(sts[sts.len() - 1], h, blk.next@[0] as int, fns)
            } else {
                exists|g4: SafeDropGraph, single: bool, sw_val: usize, has_targets: bool, id: usize|
                    #![trigger sd_switch_read(sts[sts.len() - 1], g4, cur, single, sw_val, has_targets, id)] {
                    &&& sd_switch_read(sts[sts.len() - 1], g4, cur, single, sw_val, has_targets, id)
                    &&& g4.visit_times == g1.visit_times
                    &&& if single {
                        sd_explore(g4, h, switch_target(blk, sw_val) as int, fns)
                    } else if has_targets {
                        let ts = blk.switch_stmts@[0].targets.values@;
                        exists|ss: Seq<SafeDropGraph>| #![trigger ss[0]] {
                            &&& ss.len() == ts.len() + 1
                            &&& ss[0] == g4
                            &&& sd_succ_fold(ss, ts, true, id, fns, ts.len() as int, g1.visit_times)
                            &&& ss[ts.len() as int].visit_times >= g1.visit_times
                            &&& sd_split(ss[ts.len() as int], h, blk.switch_stmts@[0].targets.otherwise as int, true, id, usize::MAX, fns)
                        }
                    } else {
                        let ns = succ_pairs(blk.next@);
                        exists|ss: Seq<SafeDropGraph>| #![trigger ss[0]] {
                            &&& ss.len() == ns.len() + 1
                            &&& ss[0] == g4
                            &&& sd_succ_fold(ss, ns, false, 0, fns, ns.len() as int, g1.visit_times)
                            &&& h == ss[ns.len() as int]
                        }
                    }
                }
            }
        }
    }
}

/// A drop at `span`, at the point `birth`, of the place `p`: the place is
/// found (adding the field nodes it needs, giving `g1`) as the node `t`,
/// which then dies (see `drop_effect`), taking `g` to `h`.
pub open spec fn sd_drop_place(g: SafeDropGraph, h: SafeDropGraph, p: Place, birth: isize, span: usize) -> bool {
    exists|g1: SafeDropGraph, t: int| {
        &&& g1.values.grows_from(&g.values)
        &&& g1.values.proj_end(p.local as int, p.projection@, false) == Some(t)
        &&& sd_frame_same(g, g1)
        &&& g1.bug_records == g.bug_records
        &&& drop_effect(&g1, &h, t as usize, birth, span)
    }
}

/// The drop `d` ends the drops of its block: a dropping call whose first
/// argument is a constant.
pub open spec fn drop_stops(d: DropSite) -> bool {
    match d.kind {
        DropKind::Call { args } => args@.len() > 0 && args@[0] is Constant,
        DropKind::Drop { .. } => false,
    }
}

/// The place that the drop `d` kills, if any: a dropped place whose type
/// may free heap memory (by the ADT summaries `owner`), or the first
/// argument of a dropping call when it is a place.
pub open spec fn drop_target(d: DropSite, owner: Map<u64, Vec<OwnerUnit>>) -> Option<Place> {
    match d.kind {
        DropKind::Drop { place, place_ty } => if drops_heap(owner, place_ty) {
            Some(place)
        } else {
            None
        },
        DropKind::Call { args } => if args@.len() > 0 {
            match args@[0] {
                Operand::Copy(p) => Some(p),
                Operand::Move(p) => Some(p),
                Operand::Constant(_) => None,
            }
        } else {
            None
        },
    }
}

/// The drop `d`, at the point `birth`, takes `g` to `h`: the place it
/// kills dies; a drop that kills none changes nothing.
pub open spec fn sd_drop_step(g: SafeDropGraph, h: SafeDropGraph, d: DropSite, birth: isize) -> bool {
    match drop_target(d, g.adt_owner@) {
        Some(p) => sd_drop_place(g, h, p, birth, d.span),
        None => h == g,
    }
}

/// The `k`-th drop takes the `k`-th state to the next.
pub open spec fn sd_drop_step_at(sts: Seq<SafeDropGraph>, drops: Seq<DropSite>, birth: isize, k: int) -> bool {
    sd_drop_step(sts[k], sts[k + 1], drops[k], birth)
}

/// The drops `drops`, applied in order from `sts[0]` up to the first one
/// that ends them (or to the last), give the states that follow.
pub open spec fn sd_drops_applied(sts: Seq<SafeDropGraph>, drops: Seq<DropSite>, birth: isize) -> bool {
    let n = sts.len() - 1;
    &&& 0 <= n <= drops.len()
    &&& n == drops.len() || drop_stops(drops[n])
    &&& forall|k: int| 0 <= k < n ==> !drop_stops(#[trigger] drops[k])
    &&& forall|k: int| 0 <= k < n ==> #[trigger] sd_drop_step_at(sts, drops, birth, k)
}

/// What `alias_bb` does to `g` at block `bb`, giving `h`.
pub open spec fn sd_bb_effect(g: SafeDropGraph, h: SafeDropGraph, bb: int) -> bool {
    &&& h.sd_kept(&g)
    &&& h.visit_times == g.visit_times
    &&& h.constant@ == consts_after(g.constant@, g.blocks@[bb].const_value@)
    &&& exists|vs: Seq<ValueGraph>, us: Seq<Set<usize>>| {
        &&& #[trigger] sd_assignments_applied(vs, us, g.blocks@[bb].assignments@, g.scc_indices@[bb] as isize)
        &&& vs[0] == g.values
        &&& us[0] == g.bug_records.uaf_bugs@
        &&& vs[vs.len() - 1] == h.values
        &&& us[us.len() - 1] == h.bug_records.uaf_bugs@
    }
    &&& h.bug_records.df_bugs == g.bug_records.df_bugs
    &&& h.bug_records.df_bugs_unwind == g.bug_records.df_bugs_unwind
    &&& h.bug_records.dp_bugs == g.bug_records.dp_bugs
    &&& h.bug_records.dp_bugs_unwind == g.bug_records.dp_bugs_unwind
}

/// What `alias_bbcall` does to `g` at block `bb`, giving `h`.
pub open spec fn sd_bbcall_effect(g: SafeDropGraph, h: SafeDropGraph, bb: int, fns: Map<u64, FnRetAlias>) -> bool {
    &&& h.sd_kept(&g)
    &&& h.visit_times == g.visit_times
    &&& h.constant == g.constant
    &&& exists|sts: Seq<SafeDropGraph>| {
        &&& #[trigger] sd_calls_applied(sts, g.blocks@[bb].calls@, fns, g.scc_indices@[bb] as isize)
        &&& sts[0] == g
        &&& sts[sts.len() - 1] == h
    }
}

/// What `drop_check` does to `g` at block `bb`, giving `h`.
pub open spec fn sd_drops_effect(g: SafeDropGraph, h: SafeDropGraph, bb: int) -> bool {
    &&& h.sd_kept(&g)
    &&& h.visit_times == g.visit_times
    &&& h.constant == g.constant
    &&& exists|sts: Seq<SafeDropGraph>| {
        &&& #[trigger] sd_drops_applied(sts, g.blocks@[bb].drops@, g.scc_indices@[bb] as isize)
        &&& sts[0] == g
        &&& sts[sts.len() - 1] == h
    }
}

/// Visiting block `bb` takes `g` to `h`: its assignments, then its calls,
/// then its drops.
pub open spec fn sd_visit(g: SafeDropGraph, h: SafeDropGraph, bb: int, fns: Map<u64, FnRetAlias>) -> bool {
    exists|m1: SafeDropGraph, m2: SafeDropGraph| {
        &&& sd_bb_effect(g, m1, bb)
        &&& #[trigger] sd_bbcall_effect(m1, m2, bb, fns)
        &&& sd_drops_effect(m2, h, bb)
    }
}

impl SafeDropGraph {
    /// Applies the drops of block `bb` to the alias graph: a dropped place
    /// whose type may free heap memory, or the first argument of a
    /// dropping call, dies with what it aliases and its fields (see
    /// `dead_node`), at the block's point; a call whose first argument is a
    /// constant ends the block's drops.
    pub fn drop_check(&mut self, bb_index: usize)
        requires
            old(self).sd_ok(),
            bb_index < old(self).blocks@.len(),
        ensures
            final(self).sd_kept(old(self)),
            final(self).visit_times == old(self).visit_times,
            final(self).constant == old(self).constant,
            exists|sts: Seq<SafeDropGraph>| {
                &&& sd_drops_applied(
                    sts,
                    old(self).blocks@[bb_index as int].drops@,
                    old(self).scc_indices@[bb_index as int] as isize,
                )
                &&& sts[0] == *old(self)
                &&& sts[sts.len() - 1] == *final(self)
            },
    {
        let n_drops = self.blocks[bb_index].drops.len();
        let mut k: usize = 0;
        let ghost drops = old(self).blocks@[bb_index as int].drops@;
        let ghost b0 = old(self).scc_indices@[bb_index as int] as isize;
        let ghost mut sts: Seq<SafeDropGraph> = seq![*old(self)];
        proof {
            lemma_records_grow_refl(self.bug_records);
        }
        while k < n_drops
            invariant
                self.sd_kept(old(self)),
                self.visit_times == old(self).visit_times,
                self.constant == old(self).constant,
                bb_index < self.blocks@.len(),
                n_drops == self.blocks@[bb_index as int].drops@.len(),
                k <= n_drops,
                drops == old(self).blocks@[bb_index as int].drops@,
                b0 == old(self).scc_indices@[bb_index as int] as isize,
                sts.len() == k + 1,
                sts[0] == *old(self),
                sts[k as int] == *self,
                forall|j: int| 0 <= j < k ==> !drop_stops(#[trigger] drops[j]),
                forall|j: int| 0 <= j < k ==> #[trigger] sd_drop_step_at(sts, drops, b0, j),
            decreases n_drops - k,
        {
            let ghost s0 = *self;
            let ghost n0 = self.values.len();
            proof {
                assert(block_ok(self.blocks@[bb_index as int], self.values.len(), self.blocks@.len()));
            }
            let span = self.blocks[bb_index].drops[k].span;
            let birth = self.scc_indices[bb_index];
            let ghost mut pl: Option<Place> = None;
            let target = match &self.blocks[bb_index].drops[k].kind {
                DropKind::Drop { place, place_ty } => {
                    proof {
                        assert(drop_ty_ok(self.adt_owner@, *place_ty));
                        assert(place_ok(*place, self.values.len()));
                    }
                    if self.drop_heap_item_check(place_ty) {
                        let r = self.values.projection(false, place, true);
                        proof {
                            pl = Some(*place);
                        }
                        Some(r)
                    } else {
                        None
                    }
                },
                DropKind::Call { args } => {
                    if args.len() > 0 {
                        proof {
                            assert(operand_ok(args@[0], self.values.len()));
                        }
                        match &args[0] {
                            Operand::Copy(p) => {
                                let r = self.values.projection(false, p, true);
                                proof {
                                    pl = Some(*p);
                                }
                                Some(r)
                            },
                            Operand::Move(p) => {
                                let r = self.values.projection(false, p, true);
                                proof {
                                    pl = Some(*p);
                                }
                                Some(r)
                            },
                            Operand::Constant(_) => {
                                proof {
                                    assert(drop_stops(drops[k as int]));
                                }
                                return;
                            },
                        }
                    } else {
                        None
                    }
                },
            };
            proof {
                lemma_blocks_ok_mono(self.blocks@, n0, self.values.len());
                assert(!drop_stops(drops[k as int]));
                assert(pl == drop_target(drops[k as int], s0.adt_owner@));
                assert(target is Some <==> pl is Some);
                if let Some(q) = pl {
                    assert(self.values.proj_end(q.local as int, q.projection@, false) == Some(target.unwrap() as int));
                    assert(self.values.grows_from(&s0.values));
                    assert(sd_frame_same(s0, *self));
                } else {
                    assert(*self == s0);
                }
            }
            let ghost g1 = *self;
            match target {
                Some(d) => {
                    let ghost before = self.bug_records;
                    self.dead_node(d, birth, span, false);
                    proof {
                        lemma_df_added_grows(before, self.bug_records, span);
                        lemma_records_grow_trans(old(self).bug_records, before, self.bug_records);
                        let q = pl.unwrap();
                        assert(g1.values.proj_end(q.local as int, q.projection@, false) == Some(d as int));
                        assert(sd_drop_place(s0, *self, q, b0, span));
                    }
                },
                None => {},
            }
            proof {
                assert(sd_drop_step(s0, *self, drops[k as int], b0));
                let ghost prev = sts;
                sts = sts.push(*self);
                assert forall|j: int| 0 <= j < k + 1 implies #[trigger] sd_drop_step_at(sts, drops, b0, j) by {
                    if j < k {
                        assert(sd_drop_step_at(prev, drops, b0, j));
                        assert(prev[j] == sts[j]);
                        assert(prev[j + 1] == sts[j + 1]);
                    }
                }
            }
            k = k + 1;
        }
    }

    /// Applies block `bb` (assignments, calls, then drops; see `sd_visit`).
    fn visit_block(&mut self, bb: usize, fn_map: &HashMap<u64, FnRetAlias>)
        requires
            old(self).sd_ok(),
            bb < old(self).blocks@.len(),
        ensures
            final(self).sd_kept(old(self)),
            final(self).visit_times == old(self).visit_times,
            sd_visit(*old(self), *final(self), bb as int, fn_map@),
    {
        self.alias_bb(bb);
        let ghost m1 = *self;
        let ghost r1 = self.bug_records;
        self.alias_bbcall(bb, fn_map);
        let ghost m2 = *self;
        let ghost r2 = self.bug_records;
        self.drop_check(bb);
        proof {
            lemma_records_grow_trans(old(self).bug_records, r1, r2);
            lemma_records_grow_trans(old(self).bug_records, r2, self.bug_records);
            assert(sd_bb_effect(*old(self), m1, bb as int));
            assert(sd_bbcall_effect(m1, m2, bb as int, fn_map@));
            assert(sd_drops_effect(m2, *self, bb as int));
        }
    }

    /// What a path search from here leaves: a consistent graph with the
    /// same body, no report withdrawn, and the visit count grown (by one
    /// when over the limit, within twice the limit otherwise).
    pub open spec fn sd_searched(&self, old: &SafeDropGraph) -> bool {
        &&& self.sd_kept(old)
        &&& self.visit_times > old.visit_times
        &&& old.visit_times <= VISIT_LIMIT ==> self.visit_times <= 2 * VISIT_LIMIT + 2 - old.visit_times
        &&& old.visit_times >= VISIT_LIMIT ==> self.visit_times == old.visit_times + 1
    }

    /// Explores the paths from block `bb_index` (through its strongly
    /// connected component's representative), applying each block's
    /// assignments, calls and drops; at the end of a path, dangling
    /// pointers are looked for (see `dp_check`) unless the function's name
    /// says it drops or frees. A switch on a known constant follows the
    /// matching target (or the last one); otherwise each successor is
    /// explored on a copy of the state. Exploration stops after
    /// `VISIT_LIMIT` visits.
    pub fn check(&mut self, bb_index: usize, fn_map: &HashMap<u64, FnRetAlias>)
        requires
            old(self).sd_ok(),
            bb_index < old(self).blocks@.len(),
            old(self).visit_times < usize::MAX,
        ensures
            final(self).sd_searched(old(self)),
            old(self).visit_times >= VISIT_LIMIT ==> final(self).values == old(self).values && final(self).bug_records
                == old(self).bug_records && final(self).constant == old(self).constant,
            sd_explore(*old(self), *final(self), bb_index as int, fn_map@),
        decreases sd_visit_budget(old(self).visit_times), 0int,
    {
        proof {
            lemma_records_grow_refl(self.bug_records);
        }
        let ghost g0 = *self;
        self.visit_times = self.visit_times + 1;
        let ghost g1 = *self;
        proof {
            assert(g1 == bumped(g0));
        }
        if self.visit_times > VISIT_LIMIT {
            return;
        }
        let cur = self.scc_indices[bb_index];
        self.visit_block(cur, fn_map);
        let ghost g2 = *self;
        let subs = self.blocks[cur].scc_sub_blocks.clone();
        assert(subs@ =~= self.blocks@[cur as int].scc_sub_blocks@);
        assert(block_ok(self.blocks@[cur as int], self.values.len(), self.blocks@.len()));
        let ghost mut sts: Seq<SafeDropGraph> = seq![g2];
        let mut i: usize = 0;
        while i < subs.len()
            invariant
                self.sd_kept(old(self)),
                self.visit_times == old(self).visit_times + 1,
                self.visit_times <= VISIT_LIMIT,
                cur < self.blocks@.len(),
                subs@ == self.blocks@[cur as int].scc_sub_blocks@,
                i <= subs@.len(),
                forall|t: int| 0 <= t < subs@.len() ==> (#[trigger] subs@[t] as int) < self.blocks@.len(),
                sts.len() == i + 1,
                sts[0] == g2,
                sts[i as int] == *self,
                forall|k: int| 0 <= k < i ==> #[trigger] sd_visit_at(sts, subs@, fn_map@, k),
            decreases subs@.len() - i,
        {
            let ghost before = self.bug_records;
            let ghost prev = sts;
            self.visit_block(subs[i], fn_map);
            proof {
                lemma_records_grow_trans(old(self).bug_records, before, self.bug_records);
                sts = sts.push(*self);
                assert forall|k: int| 0 <= k < i + 1 implies #[trigger] sd_visit_at(sts, subs@, fn_map@, k) by {
                    if k < i {
                        assert(sd_visit_at(prev, subs@, fn_map@, k));
                        assert(prev[k] == sts[k]);
                        assert(prev[k + 1] == sts[k + 1]);
                    }
                }
            }
            i = i + 1;
        }
        let ghost g3 = *self;
        proof {
            assert(sd_visits(sts, subs@, fn_map@));
            assert(sd_visit(g1, g2, cur as int, fn_map@));
            assert(sts[sts.len() - 1] == g3);
        }
        let next = self.blocks[cur].next.clone();
        assert(next@ =~= self.blocks@[cur as int].next@);
        if next.len() == 0 {
            if should_check(self.def_path.as_str()) {
                let ghost before = self.bug_records;
                let is_cleanup = self.blocks[cur].is_cleanup;
                self.dp_check(is_cleanup);
                proof {
                    assert(before.dp_bugs@.subset_of(self.bug_records.dp_bugs@));
                    assert(before.dp_bugs_unwind@.subset_of(self.bug_records.dp_bugs_unwind@));
                    lemma_records_grow_trans(old(self).bug_records, before, self.bug_records);
                    assert(sd_dp_effect(g3, *self, is_cleanup));
                }
            }
            proof {
                assert(sd_explore(g0, *self, bb_index as int, fn_map@));
            }
            return;
        }
        if next.len() == 1 {
            let ghost before = self.bug_records;
            self.check(next[0], fn_map);
            proof {
                lemma_records_grow_trans(old(self).bug_records, before, self.bug_records);
                assert(sd_explore(g3, *self, next@[0] as int, fn_map@));
                assert(sd_explore(g0, *self, bb_index as int, fn_map@));
            }
            return;
        }
        // a switch on a known value follows one target
        let mut single_target = false;
        let mut sw_val: usize = 0;
        let mut sw_target: usize = 0;
        let mut path_discr_id: usize = 0;
        let mut has_targets = false;
        let mut targets: Vec<(usize, usize)> = Vec::new();
        let mut otherwise: usize = 0;
        let ghost blk = g0.blocks@[cur as int];
        if self.blocks[cur].switch_stmts.len() > 0 && self.blocks[cur].scc_sub_blocks.len() == 0 {
            proof {
                assert(block_ok(self.blocks@[cur as int], self.values.len(), self.blocks@.len()));
                let sw = self.blocks@[cur as int].switch_stmts@[0];
                assert(operand_ok(sw.discr, self.values.len()));
            }
            targets = crate::value_graph::copy_pairs(&self.blocks[cur].switch_stmts[0].targets.values);
            otherwise = self.blocks[cur].switch_stmts[0].targets.otherwise;
            let ghost n0 = self.values.len();
            let place = match &self.blocks[cur].switch_stmts[0].discr {
                Operand::Copy(p) => Some(self.values.projection(false, p, true)),
                Operand::Move(p) => Some(self.values.projection(false, p, true)),
                Operand::Constant(c) => {
                    single_target = true;
                    match c {
                        Some(val) => {
                            sw_val = *val;
                        },
                        None => {},
                    }
                    None
                },
            };
            proof {
                lemma_blocks_ok_mono(self.blocks@, n0, self.values.len());
            }
            match place {
                Some(p) => {
                    let idx = self.values.values[p].index;
                    match self.constant.get(&idx) {
                        Some(c) => {
                            single_target = true;
                            sw_val = *c;
                        },
                        None => {},
                    }
                    if idx != p {
                        path_discr_id = idx;
                        has_targets = true;
                    }
                    proof {
                        assert(self.values.values@[p as int].index == idx);
                    }
                },
                None => {},
            }
            proof {
                assert(sd_switch_read(g3, *self, cur as int, single_target, sw_val, has_targets, path_discr_id));
            }
            if single_target {
                let mut k: usize = 0;
                while k < targets.len()
                    invariant_except_break
                        sw_target == 0,
                    invariant
                        k <= targets@.len(),
                        forall|t: int| 0 <= t < targets@.len() ==> (#[trigger] targets@[t].1 as int) < self.blocks@.len(),
                        first_match_from(targets@, sw_val, 0) == first_match_from(targets@, sw_val, k as int),
                    ensures
                        sw_target == first_match_from(targets@, sw_val, 0),
                        sw_target == 0 || (sw_target as int) < self.blocks@.len(),
                    decreases targets@.len() - k,
                {
                    if targets[k].0 == sw_val {
                        sw_target = targets[k].1;
                        break;
                    }
                    k = k + 1;
                }
                if sw_target == 0 {
                    sw_target = otherwise;
                }
            }
        } else {
            proof {
                assert(sd_switch_read(g3, *self, cur as int, single_target, sw_val, has_targets, path_discr_id));
            }
        }
        let ghost g4 = *self;
        assert(forall|t: int| 0 <= t < next@.len() ==> (#[trigger] next@[t] as int) < self.blocks@.len());
        let ghost before = self.bug_records;
        if single_target {
            assert((sw_target as int) < self.blocks@.len());
            self.check(sw_target, fn_map);
            proof {
                assert(sw_target == switch_target(blk, sw_val));
                assert(sd_explore(g4, *self, switch_target(blk, sw_val) as int, fn_map@));
            }
        } else if has_targets {
            let ghost mut ss: Seq<SafeDropGraph> = seq![g4];
            let mut k: usize = 0;
            while k < targets.len()
                invariant
                    self.sd_kept(old(self)),
                    records_grow(before, self.bug_records),
                    self.visit_times > old(self).visit_times,
                    self.visit_times <= 2 * VISIT_LIMIT + 1 - old(self).visit_times,
                    old(self).visit_times < VISIT_LIMIT,
                    k <= targets@.len(),
                    forall|t: int| 0 <= t < targets@.len() ==> (#[trigger] targets@[t].1 as int) < self.blocks@.len(),
                    (otherwise as int) < self.blocks@.len(),
                    ss.len() == k + 1,
                    ss[0] == g4,
                    ss[k as int] == *self,
                    g1.visit_times == old(self).visit_times + 1,
                    sd_succ_fold(ss, targets@, true, path_discr_id, fn_map@, k as int, g1.visit_times),
                decreases targets@.len() - k,
            {
                let ghost prev = ss;
                if self.visit_times <= VISIT_LIMIT {
                    let ghost b2 = self.bug_records;
                    self.split_check_with_cond(targets[k].1, path_discr_id, targets[k].0, fn_map);
                    proof {
                        lemma_records_grow_trans(before, b2, self.bug_records);
                        lemma_records_grow_trans(old(self).bug_records, b2, self.bug_records);
                    }
                }
                proof {
                    ss = ss.push(*self);
                    assert(sd_succ_step(ss, targets@, true, path_discr_id, fn_map@, k as int, g1.visit_times));
                    lemma_succ_fold_push(prev, ss, targets@, true, path_discr_id, fn_map@, k as int, g1.visit_times);
                }
                k = k + 1;
            }
            let ghost b3 = self.bug_records;
            let ghost last = *self;
            self.split_check_with_cond(otherwise, path_discr_id, usize::MAX, fn_map);
            proof {
                lemma_records_grow_trans(old(self).bug_records, b3, self.bug_records);
                assert(ss[targets@.len() as int] == last);
                assert(targets@ == blk.switch_stmts@[0].targets.values@);
                assert(sd_split(last, *self, otherwise as int, true, path_discr_id, usize::MAX, fn_map@));
            }
        } else {
            let ghost ns = succ_pairs(next@);
            let ghost mut ss: Seq<SafeDropGraph> = seq![g4];
            let mut k: usize = 0;
            while k < next.len()
                invariant
                    self.sd_kept(old(self)),
                    self.visit_times > old(self).visit_times,
                    self.visit_times <= 2 * VISIT_LIMIT + 1 - old(self).visit_times,
                    old(self).visit_times < VISIT_LIMIT,
                    k <= next@.len(),
                    forall|t: int| 0 <= t < next@.len() ==> (#[trigger] next@[t] as int) < self.blocks@.len(),
                    ns == succ_pairs(next@),
                    ss.len() == k + 1,
                    ss[0] == g4,
                    ss[k as int] == *self,
                    g1.visit_times == old(self).visit_times + 1,
                    sd_succ_fold(ss, ns, false, 0, fn_map@, k as int, g1.visit_times),
                decreases next@.len() - k,
            {
                let ghost prev = ss;
                if self.visit_times <= VISIT_LIMIT {
                    let ghost b2 = self.bug_records;
                    self.split_check(next[k], fn_map);
                    proof {
                        lemma_records_grow_trans(old(self).bug_records, b2, self.bug_records);
                    }
                }
                proof {
                    ss = ss.push(*self);
                    assert(ns[k as int] == (0usize, next@[k as int]));
                    assert(sd_succ_step(ss, ns, false, 0, fn_map@, k as int, g1.visit_times));
                    lemma_succ_fold_push(prev, ss, ns, false, 0, fn_map@, k as int, g1.visit_times);
                }
                k = k + 1;
            }
            proof {
                assert(ss[ns.len() as int] == *self);
            }
        }
        proof {
            if single_target {
                lemma_records_grow_trans(old(self).bug_records, before, self.bug_records);
            }
            assert(sd_switch_read(sts[sts.len() - 1], g4, cur as int, single_target, sw_val, has_targets, path_discr_id));
            assert(sd_explore(g0, *self, bb_index as int, fn_map@));
        }
    }

    /// Explores the paths from `bb_index` on a copy of the alias graph and
    /// constants, which are then restored; the reports stay.
    pub fn split_check(&mut self, bb_index: usize, fn_map: &HashMap<u64, FnRetAlias>)
        requires
            old(self).sd_ok(),
            bb_index < old(self).blocks@.len(),
            old(self).visit_times < usize::MAX,
        ensures
            final(self).sd_searched(old(self)),
            same_nodes(final(self).values.values@, old(self).values.values@),
            final(self).constant@ == old(self).constant@,
            sd_split(*old(self), *final(self), bb_index as int, false, 0, 0, fn_map@),
        decreases sd_visit_budget(old(self).visit_times), 1int,
    {
        let backup_values = self.values.duplicate();
        let backup_constant = self.constant.clone();
        let ghost sm = *self;
        self.check(bb_index, fn_map);
        let ghost e = *self;
        self.values = backup_values;
        self.constant = backup_constant;
        proof {
            lemma_same_nodes_wf(&old(self).values, &self.values);
            lemma_blocks_ok_mono(self.blocks@, old(self).values.len(), self.values.len());
            assert(sd_explore(sm, e, bb_index as int, fn_map@));
            assert(sm.constant@ == (if false { old(self).constant@.insert(0, 0) } else { old(self).constant@ }));
        }
    }

    /// As `split_check`, with the discriminant `path_discr_id` known to
    /// hold `path_discr_val` on the explored paths.
    pub fn split_check_with_cond(
        &mut self,
        bb_index: usize,
        path_discr_id: usize,
        path_discr_val: usize,
        fn_map: &HashMap<u64, FnRetAlias>,
    )
        requires
            old(self).sd_ok(),
            bb_index < old(self).blocks@.len(),
            old(self).visit_times < usize::MAX,
        ensures
            final(self).sd_searched(old(self)),
            same_nodes(final(self).values.values@, old(self).values.values@),
            final(self).constant@ == old(self).constant@,
            sd_split(*old(self), *final(self), bb_index as int, true, path_discr_id, path_discr_val, fn_map@),
        decreases sd_visit_budget(old(self).visit_times), 1int,
    {
        let backup_values = self.values.duplicate();
        let backup_constant = self.constant.clone();
        self.constant.insert(path_discr_id, path_discr_val);
        let ghost sm = *self;
        self.check(bb_index, fn_map);
        let ghost e = *self;
        self.values = backup_values;
        self.constant = backup_constant;
        proof {
            lemma_same_nodes_wf(&old(self).values, &self.values);
            lemma_blocks_ok_mono(self.blocks@, old(self).values.len(), self.values.len());
            assert(sd_explore(sm, e, bb_index as int, fn_map@));
        }
    }
}

} // verus!
