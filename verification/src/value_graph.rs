use vstd::prelude::*;
use crate::mir_model::{Place, PlaceElem};

verus! {

/// The kind of type a value has, as far as alias and drop analysis cares.
#[derive(Debug, PartialEq, Eq, Structural, Copy, Clone)]
pub enum TyKind {
    Adt,
    RawPtr,
    Tuple,
    CornerCase,
    Ref,
}

/// Field index of a node that is not a field of another node.
pub const NO_FIELD: usize = usize::MAX;

/// Parent of a node that is not a field of another node.
pub const NO_PARENT: usize = usize::MAX;

/// One value in an alias graph: a local or a field of another value.
/// `alias` lists the nodes it may alias (its first entry is the node it was
/// last assigned from); `fields` maps field indices to the nodes of those fields.
#[derive(Debug, Clone)]
pub struct ValueNode {
    pub index: usize,
    pub local: usize,
    pub need_drop: bool,
    pub may_drop: bool,
    pub kind: TyKind,
    pub father: usize,
    pub field_id: usize,
    pub birth: isize,
    pub alias: Vec<usize>,
    pub fields: Vec<(usize, usize)>,
    pub parent: usize,
}

impl ValueNode {
    /// A node of local `local`, aliasing only that local, with no fields.
    pub fn new(index: usize, local: usize, need_drop: bool, may_drop: bool) -> (res: ValueNode)
        ensures
            res.index == index,
            res.local == local,
            res.need_drop == need_drop,
            res.may_drop == may_drop,
            res.kind == TyKind::Adt,
            res.father == local,
            res.field_id == NO_FIELD,
            res.birth == 0,
            res.alias@ == seq![local],
            res.fields@ == Seq::<(usize, usize)>::empty(),
            res.parent == NO_PARENT,
    {
        ValueNode {
            index,
            local,
            need_drop,
            may_drop,
            kind: TyKind::Adt,
            father: local,
            field_id: NO_FIELD,
            birth: 0,
            alias: vec![local],
            fields: Vec::new(),
            parent: NO_PARENT,
        }
    }

    /// Marks the value as dropped.
    pub fn dead(&mut self)
        ensures
            final(self).birth == -1,
            final(self).index == old(self).index,
            final(self).local == old(self).local,
            final(self).alias == old(self).alias,
            final(self).fields == old(self).fields,
            final(self).parent == old(self).parent,
            final(self).kind == old(self).kind,
            final(self).need_drop == old(self).need_drop,
            final(self).may_drop == old(self).may_drop,
            final(self).father == old(self).father,
            final(self).field_id == old(self).field_id,
    {
        self.birth = -1;
    }

    pub open spec fn alive(&self) -> bool {
        self.birth > -1
    }

    pub fn is_alive(&self) -> (res: bool)
        ensures
            res == self.alive(),
    {
        self.birth > -1
    }

    pub open spec fn ptr(&self) -> bool {
        self.kind == TyKind::RawPtr || self.kind == TyKind::Ref
    }

    pub fn is_ptr(&self) -> (res: bool)
        ensures
            res == self.ptr(),
    {
        self.kind == TyKind::RawPtr || self.kind == TyKind::Ref
    }

    pub fn is_ref(&self) -> (res: bool)
        ensures
            res == (self.kind == TyKind::Ref),
    {
        self.kind == TyKind::Ref
    }

    pub fn is_tuple(&self) -> (res: bool)
        ensures
            res == (self.kind == TyKind::Tuple),
    {
        self.kind == TyKind::Tuple
    }

    pub fn is_corner_case(&self) -> (res: bool)
        ensures
            res == (self.kind == TyKind::CornerCase),
    {
        self.kind == TyKind::CornerCase
    }

    /// The node of field `k`, if recorded.
    pub open spec fn field(&self, k: usize) -> Option<usize> {
        if exists|j: int| 0 <= j < self.fields@.len() && self.fields@[j].0 == k {
            let j = choose|j: int| 0 <= j < self.fields@.len() && self.fields@[j].0 == k;
            Some(self.fields@[j].1)
        } else {
            None
        }
    }

    /// Everything but the alias list and the fields.
    pub open spec fn same_header(&self, other: ValueNode) -> bool {
        &&& self.index == other.index
        &&& self.local == other.local
        &&& self.need_drop == other.need_drop
        &&& self.may_drop == other.may_drop
        &&& self.kind == other.kind
        &&& self.father == other.father
        &&& self.field_id == other.field_id
        &&& self.birth == other.birth
        &&& self.parent == other.parent
    }
}

/// The nodes of a function's values.
pub struct ValueGraph {
    pub values: Vec<ValueNode>,
}

impl ValueGraph {
    pub open spec fn len(&self) -> nat {
        self.values@.len()
    }

    /// Node `i` is consistent with the rest of the graph: its index is its
    /// position, every node it names exists, its field keys and field nodes
    /// are distinct, and its field nodes come after it and name it as parent.
    pub open spec fn node_wf(&self, i: int) -> bool {
        let n = self.values@[i];
        &&& n.index == i
        &&& n.local < self.len()
        &&& n.father < self.len()
        &&& n.alias@.len() >= 1
        &&& (forall|j: int| 0 <= j < n.alias@.len() ==> #[trigger] n.alias@[j] < self.len())
        &&& (n.parent == NO_PARENT || n.parent < i)
        &&& (forall|j: int|
            0 <= j < n.fields@.len() ==> {
                &&& i < #[trigger] n.fields@[j].1 < self.len()
                &&& self.values@[n.fields@[j].1 as int].parent == i
            })
        &&& (forall|j1: int, j2: int|
            0 <= j1 < j2 < n.fields@.len() ==> #[trigger] n.fields@[j1].0 != #[trigger] n.fields@[j2].0
                && n.fields@[j1].1 != n.fields@[j2].1)
    }

    pub open spec fn wf(&self) -> bool {
        forall|i: int| 0 <= i < self.len() ==> #[trigger] self.node_wf(i)
    }

    /// `a` is a strict ancestor of `x` in the field tree.
    pub open spec fn is_anc(&self, a: int, x: int) -> bool
        decreases x,
    {
        if 0 <= x < self.len() && self.values@[x].parent < x {
            let p = self.values@[x].parent as int;
            p == a || self.is_anc(a, p)
        } else {
            false
        }
    }

    /// `x` is `a` or lies below it in the field tree.
    pub open spec fn in_subtree(&self, a: int, x: int) -> bool {
        x == a || self.is_anc(a, x)
    }

    /// Neither node lies in the subtree of the other (or they are the same node).
    pub open spec fn unrelated_or_same(&self, a: int, b: int) -> bool {
        a == b || (!self.is_anc(a, b) && !self.is_anc(b, a))
    }

    /// The alias list of a node after it is merged with the list `r`: appended
    /// when it already lists more than one node, replaced otherwise.
    pub open spec fn merged_alias(l: Seq<usize>, r: Seq<usize>) -> Seq<usize> {
        if l.len() > 1 {
            l + r
        } else {
            r
        }
    }
}

/// An ancestor comes before its descendants.
pub proof fn lemma_anc_lt(g: &ValueGraph, a: int, x: int)
    requires
        g.is_anc(a, x),
    ensures
        0 <= a < x,
    decreases x,
{
    let p = g.values@[x].parent as int;
    if p != a {
        lemma_anc_lt(g, a, p);
    }
}

/// Ancestry is transitive.
pub proof fn lemma_anc_trans(g: &ValueGraph, a: int, b: int, x: int)
    requires
        g.is_anc(a, b),
        g.is_anc(b, x),
    ensures
        g.is_anc(a, x),
    decreases x,
{
    let p = g.values@[x].parent as int;
    if p != b {
        lemma_anc_trans(g, a, b, p);
    }
}

/// Two ancestors of one node lie on one chain.
pub proof fn lemma_anc_chain(g: &ValueGraph, a: int, b: int, x: int)
    requires
        g.is_anc(a, x),
        g.is_anc(b, x),
    ensures
        a == b || g.is_anc(a, b) || g.is_anc(b, a),
    decreases x,
{
    let p = g.values@[x].parent as int;
    if p == a {
        if p != b {
            // b is an ancestor of p == a
        }
    } else if p == b {
    } else {
        lemma_anc_chain(g, a, b, p);
    }
}

/// Ancestry of a node depends only on the parents of the nodes up to it.
pub proof fn lemma_anc_stable(g1: &ValueGraph, g2: &ValueGraph, a: int, x: int)
    requires
        0 <= x < g1.len(),
        g1.len() <= g2.len(),
        forall|y: int| 0 <= y < g1.len() ==> #[trigger] g2.values@[y].parent == g1.values@[y].parent,
    ensures
        g1.is_anc(a, x) == g2.is_anc(a, x),
    decreases x,
{
    let p = g1.values@[x].parent as int;
    if g1.values@[x].parent < x && p != a {
        lemma_anc_stable(g1, g2, a, p);
    }
}

/// The node `c` of field `k` of a well-formed node `i` has `i` as parent.
pub proof fn lemma_field_parent(g: &ValueGraph, i: int, j: int)
    requires
        g.wf(),
        0 <= i < g.len(),
        0 <= j < g.values@[i].fields@.len(),
    ensures
        g.is_anc(i, g.values@[i].fields@[j].1 as int),
        g.values@[g.values@[i].fields@[j].1 as int].parent == i,
        i < g.values@[i].fields@[j].1 < g.len(),
{
    assert(g.node_wf(i));
    let c = g.values@[i].fields@[j].1 as int;
    assert(g.values@[c].parent == i);
}


impl ValueGraph {
    /// The node of field `k` of node `x`, if recorded.
    pub fn field_get(&self, x: usize, k: usize) -> (res: Option<usize>)
        requires
            self.wf(),
            x < self.len(),
        ensures
            res == self.values@[x as int].field(k),
            match res {
                Some(c) => exists|j: int|
                    0 <= j < self.values@[x as int].fields@.len() && self.values@[x as int].fields@[j]
                        == (k, c),
                None => forall|j: int|
                    0 <= j < self.values@[x as int].fields@.len() ==> self.values@[x as int].fields@[j].0
                        != k,
            },
    {
        let fields = &self.values[x].fields;
        let mut j: usize = 0;
        while j < fields.len()
            invariant
                fields == self.values@[x as int].fields,
                self.wf(),
                x < self.len(),
                j <= fields@.len(),
                forall|t: int| 0 <= t < j ==> fields@[t].0 != k,
            decreases fields@.len() - j,
        {
            if fields[j].0 == k {
                proof {
                    assert(self.node_wf(x as int));
                    let t = choose|t: int| 0 <= t < fields@.len() && fields@[t].0 == k;
                    if t != j as int {
                        if t < j {
                        } else {
                            assert(fields@[j as int].0 != fields@[t].0);
                        }
                    }
                }
                return Some(fields[j].1);
            }
            j = j + 1;
        }
        None
    }

    /// Adds a new node as field `k` of node `x` and returns its index.
    pub fn push_field_node(
        &mut self,
        x: usize,
        k: usize,
        local: usize,
        need_drop: bool,
        may_drop: bool,
        kind: TyKind,
        birth: isize,
    ) -> (n: usize)
        requires
            old(self).wf(),
            x < old(self).len(),
            local < old(self).len(),
            old(self).values@[x as int].field(k) is None,
        ensures
            final(self).wf(),
            n == old(self).len(),
            final(self).len() == old(self).len() + 1,
            forall|y: int| 0 <= y < old(self).len() && y != x ==> final(self).values@[y] == old(self).values@[y],
            final(self).values@[x as int].same_header(old(self).values@[x as int]),
            final(self).values@[x as int].alias == old(self).values@[x as int].alias,
            final(self).values@[x as int].fields@ == old(self).values@[x as int].fields@.push((k, n)),
            final(self).values@[n as int].index == n,
            final(self).values@[n as int].local == local,
            final(self).values@[n as int].father == local,
            final(self).values@[n as int].need_drop == need_drop,
            final(self).values@[n as int].may_drop == may_drop,
            final(self).values@[n as int].kind == kind,
            final(self).values@[n as int].field_id == k,
            final(self).values@[n as int].birth == birth,
            final(self).values@[n as int].alias@ == seq![local],
            final(self).values@[n as int].fields@.len() == 0,
            final(self).values@[n as int].parent == x,
    {
        let ghost g0 = *self;
        let n = self.values.len();
        let mut node = ValueNode::new(n, local, need_drop, may_drop);
        node.kind = kind;
        node.field_id = k;
        node.birth = birth;
        node.parent = x;
        self.values.push(node);
        self.values[x].fields.push((k, n));
        proof {
            let g = *self;
            assert(g0.values@[x as int].field(k) is None);
            assert forall|i: int| 0 <= i < g.len() implies #[trigger] g.node_wf(i) by {
                if i < n {
                    assert(g0.node_wf(i));
                    let ni = g.values@[i];
                    assert forall|j: int| 0 <= j < ni.fields@.len() implies {
                        &&& i < #[trigger] ni.fields@[j].1 < g.len()
                        &&& g.values@[ni.fields@[j].1 as int].parent == i
                    } by {
                        if i == x && j == ni.fields@.len() - 1 {
                        } else {
                            assert(ni.fields@[j] == g0.values@[i].fields@[j]);
                        }
                    }
                    if i == x {
                        assert forall|j1: int, j2: int|
                            0 <= j1 < j2 < ni.fields@.len() implies #[trigger] ni.fields@[j1].0
                            != #[trigger] ni.fields@[j2].0 && ni.fields@[j1].1 != ni.fields@[j2].1 by {
                            if j2 == ni.fields@.len() - 1 {
                                assert(ni.fields@[j1] == g0.values@[i].fields@[j1]);
                                if ni.fields@[j1].0 == k {
                                    assert(exists|t: int|
                                        0 <= t < g0.values@[x as int].fields@.len()
                                            && g0.values@[x as int].fields@[t].0 == k);
                                }
                            } else {
                                assert(ni.fields@[j1] == g0.values@[i].fields@[j1]);
                                assert(ni.fields@[j2] == g0.values@[i].fields@[j2]);
                            }
                        }
                    }
                } else {
                    assert(g.values@[i].alias@ =~= seq![local]);
                }
            }
        }
        n
    }
}


/// `b` keeps the entries of `a` in place and may add more after them.
pub open spec fn extends<T>(a: Seq<T>, b: Seq<T>) -> bool {
    a.len() <= b.len() && forall|j: int| 0 <= j < a.len() ==> #[trigger] b[j] == a[j]
}

/// Fields of unrelated nodes are unrelated.
proof fn lemma_children_unrelated(g: &ValueGraph, lv: int, rv: int, f: int, c: int)
    requires
        g.wf(),
        0 <= lv < g.len(),
        0 <= rv < g.len(),
        0 <= f < g.len(),
        0 <= c < g.len(),
        lv != rv,
        !g.is_anc(lv, rv),
        !g.is_anc(rv, lv),
        g.values@[f].parent == lv,
        g.values@[c].parent == rv,
        lv < f,
        rv < c,
    ensures
        f != c,
        !g.is_anc(f, c),
        !g.is_anc(c, f),
{
    assert(g.is_anc(lv, f));
    assert(g.is_anc(rv, c));
    if g.is_anc(f, c) {
        lemma_anc_chain(g, f, rv, c);
        if g.is_anc(f, rv) {
            lemma_anc_trans(g, lv, f, rv);
        }
    }
    if g.is_anc(c, f) {
        if c != lv {
            lemma_anc_trans(g, rv, c, lv);
        }
    }
}

/// Nothing below `lv` lies below a field of an unrelated node `rv`.
proof fn lemma_not_below_other(g: &ValueGraph, lv: int, rv: int, c: int, x: int)
    requires
        g.wf(),
        0 <= lv < g.len(),
        0 <= rv < g.len(),
        0 <= c < g.len(),
        lv != rv,
        !g.is_anc(lv, rv),
        !g.is_anc(rv, lv),
        g.values@[c].parent == rv,
        rv < c,
        g.is_anc(lv, x),
    ensures
        !g.is_anc(c, x),
{
    assert(g.is_anc(rv, c));
    if g.is_anc(c, x) {
        lemma_anc_chain(g, c, lv, x);
        if c == lv {
        } else if g.is_anc(c, lv) {
            lemma_anc_trans(g, rv, c, lv);
        } else {
            lemma_anc_chain(g, lv, rv, c);
        }
    }
}

/// Headers (and thus parents) of the old nodes are kept, so ancestry among
/// old nodes is kept.
proof fn lemma_headers_keep_anc(g1: &ValueGraph, g2: &ValueGraph, a: int, x: int)
    requires
        0 <= x < g1.len(),
        g1.len() <= g2.len(),
        forall|y: int| 0 <= y < g1.len() ==> #[trigger] g2.values@[y].same_header(g1.values@[y]),
    ensures
        g1.is_anc(a, x) == g2.is_anc(a, x),
{
    assert forall|y: int| 0 <= y < g1.len() implies #[trigger] g2.values@[y].parent == g1.values@[y].parent by {
        assert(g2.values@[y].same_header(g1.values@[y]));
    }
    lemma_anc_stable(g1, g2, a, x);
}

/// A copy of a list of pairs.
pub fn copy_pairs(v: &Vec<(usize, usize)>) -> (res: Vec<(usize, usize)>)
    ensures
        res@ == v@,
{
    let mut res: Vec<(usize, usize)> = Vec::new();
    let mut i: usize = 0;
    while i < v.len()
        invariant
            i <= v@.len(),
            res@ == v@.take(i as int),
        decreases v@.len() - i,
    {
        res.push(v[i]);
        assert(v@.take(i + 1) =~= v@.take(i as int).push(v@[i as int]));
        i = i + 1;
    }
    assert(v@.take(v@.len() as int) =~= v@);
    res
}

/// The node `y` was added under its parent `p` (which comes before it):
/// it belongs to `p`'s local, takes `p`'s birth when births are inherited
/// (0 otherwise), and `p` records it under its field index.
pub open spec fn hangs_under(g: &ValueGraph, y: int, inherit_birth: bool) -> bool {
    let n = g.values@[y];
    let p = n.parent as int;
    &&& 0 <= p < y
    &&& n.local == g.values@[p].local
    &&& n.birth == (if inherit_birth { g.values@[p].birth } else { 0 })
    &&& g.values@[p].fields@.contains((n.field_id, y as usize))
}


/// A node stays hung under its parent while both keep their headers and
/// the parent's fields are only extended.
proof fn lemma_hangs_under_kept(a: &ValueGraph, b: &ValueGraph, y: int, inherit_birth: bool)
    requires
        hangs_under(a, y, inherit_birth),
        0 <= y < a.len(),
        b.len() >= a.len(),
        b.values@[y].same_header(a.values@[y]),
        b.values@[a.values@[y].parent as int].same_header(a.values@[a.values@[y].parent as int]),
        extends(a.values@[a.values@[y].parent as int].fields@, b.values@[a.values@[y].parent as int].fields@),
    ensures
        hangs_under(b, y, inherit_birth),
{
    let p = a.values@[y].parent as int;
    let e = (a.values@[y].field_id, y as usize);
    let j = choose|j: int| 0 <= j < a.values@[p].fields@.len() && a.values@[p].fields@[j] == e;
    assert(b.values@[p].fields@[j] == e);
}

impl ValueGraph {
    /// Merges the alias information of `rv` into `lv`, field by field,
    /// creating on `lv` the fields that only `rv` has.
    #[verifier::spinoff_prover]
    #[verifier::rlimit(60)]
    fn merge_alias_rec(&mut self, lv: usize, rv: usize, inherit_birth: bool, Ghost(bound): Ghost<int>)
        requires
            old(self).wf(),
            lv < old(self).len(),
            rv < old(self).len(),
            old(self).unrelated_or_same(lv as int, rv as int),
            rv < bound,
            forall|x: int| old(self).is_anc(rv as int, x) ==> x < bound,
        ensures
            final(self).wf(),
            final(self).len() >= old(self).len(),
            lv == rv ==> final(self).len() == old(self).len(),
            forall|y: int|
                0 <= y < old(self).len() ==> #[trigger] final(self).values@[y].same_header(
                    old(self).values@[y],
                ),
            forall|y: int|
                0 <= y < old(self).len() ==> extends(
                    old(self).values@[y].fields@,
                    #[trigger] final(self).values@[y].fields@,
                ),
            lv == rv ==> forall|y: int|
                0 <= y < old(self).len() ==> #[trigger] final(self).values@[y].fields@ == old(self).values@[y].fields@,
            forall|y: int|
                0 <= y < old(self).len() && !old(self).in_subtree(lv as int, y) ==> #[trigger] final(self).values@[y] == old(self).values@[y],
            forall|y: int|
                old(self).len() <= y < final(self).len() ==> #[trigger] final(self).is_anc(lv as int, y),
            final(self).values@[lv as int].alias@ == ValueGraph::merged_alias(
                old(self).values@[lv as int].alias@,
                old(self).values@[rv as int].alias@,
            ),
            forall|j: int|
                0 <= j < old(self).values@[rv as int].fields@.len() ==> #[trigger] final(self).values@[lv as int].field(old(self).values@[rv as int].fields@[j].0) is Some,
            forall|y: int| old(self).len() <= y < final(self).len() ==> #[trigger] hangs_under(final(self), y, inherit_birth),
            paths_merged(old(self), final(self), lv as int, rv as int),
            new_on_paths(old(self), final(self), lv as int, rv as int),
        decreases bound - rv,
    {
        let ghost g0 = *self;
        let mut alias_clone = self.values[rv].alias.clone();
        assert(alias_clone@ =~= g0.values@[rv as int].alias@);
        if self.values[lv].alias.len() > 1 {
            self.values[lv].alias.append(&mut alias_clone);
        } else {
            self.values[lv].alias = alias_clone;
        }
        proof {
            let g = *self;
            assert(g.values@[lv as int].alias@ == ValueGraph::merged_alias(
                g0.values@[lv as int].alias@,
                g0.values@[rv as int].alias@,
            ));
            assert forall|i: int| 0 <= i < g.len() implies #[trigger] g.node_wf(i) by {
                assert(g0.node_wf(i));
                if i == lv as int {
                    assert(g0.node_wf(rv as int));
                    let a = g.values@[i].alias@;
                    assert forall|j: int| 0 <= j < a.len() implies #[trigger] a[j] < g.len() by {
                        let l0 = g0.values@[lv as int].alias@;
                        let r0 = g0.values@[rv as int].alias@;
                        if l0.len() > 1 {
                            if j < l0.len() {
                                assert(a[j] == l0[j]);
                            } else {
                                assert(a[j] == r0[j - l0.len()]);
                            }
                        }
                    }
                }
            }
        }
        let fields = copy_pairs(&self.values[rv].fields);
        assert(fields@ =~= g0.values@[rv as int].fields@);
        let mut i: usize = 0;
        while i < fields.len()
            invariant
                g0.wf(),
                lv < g0.len(),
                rv < g0.len(),
                g0.unrelated_or_same(lv as int, rv as int),
                rv < bound,
                forall|x: int| g0.is_anc(rv as int, x) ==> x < bound,
                fields@ == g0.values@[rv as int].fields@,
                i <= fields@.len(),
                self.wf(),
                self.len() >= g0.len(),
                lv == rv ==> self.len() == g0.len(),
                forall|y: int|
                    0 <= y < g0.len() ==> #[trigger] self.values@[y].same_header(g0.values@[y]),
                forall|y: int|
                    0 <= y < g0.len() ==> extends(g0.values@[y].fields@, #[trigger] self.values@[y].fields@),
                lv == rv ==> forall|y: int|
                    0 <= y < g0.len() ==> #[trigger] self.values@[y].fields@ == g0.values@[y].fields@,
                forall|y: int|
                    0 <= y < g0.len() && !g0.in_subtree(lv as int, y) ==> #[trigger] self.values@[y]
                        == g0.values@[y],
                forall|y: int| g0.len() <= y < self.len() ==> #[trigger] self.is_anc(lv as int, y),
                self.values@[lv as int].alias@ == ValueGraph::merged_alias(
                    g0.values@[lv as int].alias@,
                    g0.values@[rv as int].alias@,
                ),
                forall|j: int| 0 <= j < i ==> #[trigger] self.values@[lv as int].field(fields@[j].0) is Some,
                forall|y: int| g0.len() <= y < self.len() ==> #[trigger] hangs_under(self, y, inherit_birth),
                fields_merged_upto(&g0, self, lv as int, fields@, i as int),
                untouched_kept(&g0, self, lv as int, fields@, i as int),
                new_on_paths(&g0, self, lv as int, rv as int),
            decreases fields@.len() - i,
        {
            let ghost g1a = *self;
            let k = fields[i].0;
            let c = fields[i].1;
            proof {
                lemma_field_parent(&g0, rv as int, i as int);
                assert(g1a.values@[c as int].same_header(g0.values@[c as int]));
                assert(g1a.values@[lv as int].same_header(g0.values@[lv as int]));
                assert(g1a.values@[rv as int].same_header(g0.values@[rv as int]));
                lemma_headers_keep_anc(&g0, &g1a, lv as int, rv as int);
                lemma_headers_keep_anc(&g0, &g1a, rv as int, lv as int);
            }
            let f = match self.field_get(lv, k) {
                Some(f) => {
                    proof {
                        let jf = choose|jf: int| 0 <= jf < g1a.values@[lv as int].fields@.len() && g1a.values@[lv as int].fields@[jf].0 == k;
                        assert(g1a.node_wf(lv as int));
                        lemma_field_parent(&g1a, lv as int, jf);
                    }
                    f
                },
                None => {
                    proof {
                        if lv == rv {
                            assert(g1a.values@[lv as int].fields@ == g0.values@[rv as int].fields@);
                            assert(g1a.values@[lv as int].fields@[i as int].0 == k);
                        }
                    }
                    let local = self.values[lv].local;
                    let need_drop = self.values[c].need_drop;
                    let may_drop = self.values[c].may_drop;
                    let kind = self.values[c].kind;
                    let birth = if inherit_birth { self.values[lv].birth } else { 0 };
                    assert(self.node_wf(lv as int));
                    let n = self.push_field_node(lv, k, local, need_drop, may_drop, kind, birth);
                    proof {
                        let gp = *self;
                        assert forall|y: int| g0.len() <= y < gp.len() implies #[trigger] hangs_under(&gp, y, inherit_birth) by {
                            if y < g1a.len() {
                                assert(hangs_under(&g1a, y, inherit_birth));
                                let py = g1a.values@[y].parent as int;
                                if py != lv as int {
                                    assert(gp.values@[py] == g1a.values@[py]);
                                }
                                lemma_hangs_under_kept(&g1a, &gp, y, inherit_birth);
                            } else {
                                assert(gp.values@[lv as int].fields@[gp.values@[lv as int].fields@.len() - 1] == (k, n));
                            }
                        }
                        assert(gp.values@[lv as int].field(k) == Some(n)) by {
                            let fl = gp.values@[lv as int].fields@;
                            assert(fl[fl.len() - 1] == (k, n));
                            let jj = choose|jj: int| 0 <= jj < fl.len() && fl[jj].0 == k;
                            if jj < fl.len() - 1 {
                                assert(g1a.values@[lv as int].fields@[jj] == fl[jj]);
                            }
                        }
                        assert(fields_extended(&g1a, &gp)) by {
                            assert forall|y: int| 0 <= y < g1a.len() implies extends(g1a.values@[y].fields@, #[trigger] gp.values@[y].fields@) by {
                                if y != lv as int {
                                    assert(gp.values@[y] == g1a.values@[y]);
                                }
                            }
                        }
                        lemma_field_parent(&g0, rv as int, i as int);
                    }
                    assert(self.values@[lv as int].fields@[self.values@[lv as int].fields@.len() - 1]
                        == (k, n));
                    n
                },
            };
            let ghost g1 = *self;
            assert(g1.values@[lv as int].field(k) == Some(f));
            assert(forall|y: int| 0 <= y < g1a.len() && y != lv ==> #[trigger] g1.values@[y] == g1a.values@[y]);
            assert((f < g1a.len() && g1.len() == g1a.len() && g1a.values@[lv as int].field(k) == Some(f)) || (f == g1a.len()
                && g1.len() == g1a.len() + 1 && g1.values@[f as int].alias@.len() == 1 && g1.values@[f as int].need_drop
                == g0.values@[c as int].need_drop && g1.values@[f as int].may_drop == g0.values@[c as int].may_drop
                && g1.values@[f as int].kind == g0.values@[c as int].kind));
            assert(fields_extended(&g1a, &g1));
            assert(extends(g1a.values@[lv as int].fields@, g1.values@[lv as int].fields@));
            assert(exists|t: int|
                0 <= t < g1.values@[lv as int].fields@.len() && g1.values@[lv as int].fields@[t]
                    == (k, f));
            let ghost t = choose|t: int|
                0 <= t < g1.values@[lv as int].fields@.len() && g1.values@[lv as int].fields@[t]
                    == (k, f);
            proof {
                assert(g1.node_wf(lv as int));
                assert forall|y: int| 0 <= y < g1a.len() implies #[trigger] g1.values@[y].same_header(
                    g1a.values@[y],
                ) by {}
                assert forall|y: int| g0.len() <= y < g1.len() implies #[trigger] g1.is_anc(lv as int, y) by {
                    if y < g1a.len() {
                        assert(g1a.is_anc(lv as int, y));
                        lemma_headers_keep_anc(&g1a, &g1, lv as int, y);
                    } else {
                        assert(g1.values@[y].parent == lv);
                    }
                }
                lemma_field_parent(&g1, lv as int, t);
                assert(g1.values@[lv as int].field(k) is Some);
                assert forall|y: int| 0 <= y < g0.len() implies #[trigger] g1.values@[y].same_header(
                    g0.values@[y],
                ) by {
                    assert(g1a.values@[y].same_header(g0.values@[y]));
                }
                lemma_headers_keep_anc(&g0, &g1, lv as int, rv as int);
                lemma_headers_keep_anc(&g0, &g1, rv as int, lv as int);
                assert(g1.values@[c as int].parent == rv);
                if lv == rv {
                    assert(g1.values@[lv as int].fields@ == g0.values@[rv as int].fields@);
                    assert(g1.values@[lv as int].fields@[i as int] == (k, c));
                    if t != i as int {
                        assert(g1.node_wf(lv as int));
                        if t < i as int {
                            assert(g1.values@[lv as int].fields@[t].0 != g1.values@[lv as int].fields@[i as int].0);
                        } else {
                            assert(g1.values@[lv as int].fields@[i as int].0 != g1.values@[lv as int].fields@[t].0);
                        }
                    }
                    assert(f == c);
                } else {
                    lemma_children_unrelated(&g1, lv as int, rv as int, f as int, c as int);
                }
                assert forall|x: int| g1.is_anc(c as int, x) implies x < bound by {
                    if x < g0.len() {
                        lemma_headers_keep_anc(&g0, &g1, c as int, x);
                        lemma_field_parent(&g0, rv as int, i as int);
                        lemma_anc_trans(&g0, rv as int, c as int, x);
                    } else {
                        if lv == rv {
                            lemma_anc_lt(&g1, c as int, x);
                        } else {
                            assert(g1.is_anc(lv as int, x));
                            lemma_not_below_other(&g1, lv as int, rv as int, c as int, x);
                        }
                    }
                }
                lemma_field_parent(&g0, rv as int, i as int);
            }
            proof {
                lemma_field_parent(&g1, lv as int, t);
                lemma_merge_ready(&g0, &g1a, &g1, lv as int, rv as int, fields@, i as int, k, c, f);
            }
            self.merge_alias_rec(f, c, inherit_birth, Ghost(bound));
            proof {
                let g2 = *self;
                assert forall|y: int| g0.len() <= y < g2.len() implies #[trigger] hangs_under(&g2, y, inherit_birth) by {
                    if y < g1.len() {
                        assert(hangs_under(&g1, y, inherit_birth));
                        let py = g1.values@[y].parent as int;
                        assert(g2.values@[py].same_header(g1.values@[py]));
                        assert(extends(g1.values@[py].fields@, g2.values@[py].fields@));
                        lemma_hangs_under_kept(&g1, &g2, y, inherit_birth);
                    }
                }
                assert(fields_extended(&g1, &g2));
                assert(fields_extended(&g1a, &g2)) by {
                    assert forall|y: int| 0 <= y < g1a.len() implies extends(g1a.values@[y].fields@, #[trigger] g2.values@[y].fields@) by {
                        assert(extends(g1a.values@[y].fields@, g1.values@[y].fields@));
                        assert(extends(g1.values@[y].fields@, g2.values@[y].fields@));
                    }
                }
                assert(fields_extended(&g0, &g1)) by {
                    assert forall|y: int| 0 <= y < g0.len() implies extends(g0.values@[y].fields@, #[trigger] g1.values@[y].fields@) by {
                        assert(extends(g0.values@[y].fields@, g1a.values@[y].fields@));
                        assert(extends(g1a.values@[y].fields@, g1.values@[y].fields@));
                    }
                }
                lemma_merge_step_done(&g0, &g1a, &g1, &g2, lv as int, rv as int, fields@, i as int, k, c, f);
                assert(g1.is_anc(lv as int, f as int));
                // lv is not in the subtree of f, so it is kept
                if g1.is_anc(f as int, lv as int) {
                    lemma_anc_lt(&g1, f as int, lv as int);
                }
                assert(g2.values@[lv as int] == g1.values@[lv as int]);
                assert forall|y: int| 0 <= y < g0.len() implies #[trigger] g2.values@[y].same_header(
                    g0.values@[y],
                ) by {
                    assert(g1.values@[y].same_header(g0.values@[y]));
                    assert(g2.values@[y].same_header(g1.values@[y]));
                }
                assert forall|y: int| 0 <= y < g0.len() implies extends(
                    g0.values@[y].fields@,
                    #[trigger] g2.values@[y].fields@,
                ) by {
                    assert(extends(g0.values@[y].fields@, g1.values@[y].fields@));
                    assert(extends(g1.values@[y].fields@, g2.values@[y].fields@));
                }
                assert forall|y: int|
                    0 <= y < g0.len() && !g0.in_subtree(lv as int, y) implies #[trigger] g2.values@[y]
                    == g0.values@[y] by {
                    assert(g1.values@[y] == g0.values@[y]);
                    if g1.in_subtree(f as int, y) {
                        if y == f as int {
                            lemma_headers_keep_anc(&g0, &g1, lv as int, y);
                        } else {
                            lemma_anc_trans(&g1, lv as int, f as int, y);
                            lemma_headers_keep_anc(&g0, &g1, lv as int, y);
                        }
                    }
                }
                assert forall|y: int| g0.len() <= y < g2.len() implies #[trigger] g2.is_anc(lv as int, y) by {
                    if y < g1.len() {
                        assert(g1.is_anc(lv as int, y));
                        lemma_headers_keep_anc(&g1, &g2, lv as int, y);
                    } else {
                        assert(g2.is_anc(f as int, y));
                        lemma_headers_keep_anc(&g1, &g2, lv as int, f as int);
                        lemma_anc_trans(&g2, lv as int, f as int, y);
                    }
                }
                assert forall|j: int| 0 <= j < i + 1 implies #[trigger] g2.values@[lv as int].field(
                    fields@[j].0,
                ) is Some by {
                    if j < i {
                        assert(g1a.values@[lv as int].field(fields@[j].0) is Some);
                        let kj = fields@[j].0;
                        let tj = choose|tj: int|
                            0 <= tj < g1a.values@[lv as int].fields@.len()
                                && g1a.values@[lv as int].fields@[tj].0 == kj;
                        assert(g2.values@[lv as int].fields@[tj].0 == kj);
                    } else {
                        assert(g2.values@[lv as int].fields@[t].0 == k);
                    }
                }
            }
            i = i + 1;
        }
        proof {
            assert forall|j: int| 0 <= j < g0.values@[rv as int].fields@.len() implies #[trigger] field_merged(&g0, self, lv as int, g0.values@[rv as int].fields@[j]) by {
                assert(field_merged(&g0, self, lv as int, fields@[j]));
            }
            lemma_paths_merged_all(&g0, self, lv as int, rv as int);
        }
    }
}


impl ValueGraph {
    /// Whether `a` is a strict ancestor of `x` in the field tree.
    pub fn is_ancestor(&self, a: usize, x: usize) -> (res: bool)
        requires
            self.wf(),
            x < self.len(),
        ensures
            res == self.is_anc(a as int, x as int),
    {
        let mut y = x;
        while self.values[y].parent != NO_PARENT
            invariant
                self.wf(),
                y < self.len(),
                self.is_anc(a as int, x as int) == (self.is_anc(a as int, y as int)),
            decreases y,
        {
            assert(self.node_wf(y as int));
            let p = self.values[y].parent;
            if p == a {
                return true;
            }
            y = p;
        }
        assert(self.node_wf(y as int));
        false
    }

    /// Neither node lies below the other (or they are one node).
    pub fn unrelated(&self, a: usize, b: usize) -> (res: bool)
        requires
            self.wf(),
            a < self.len(),
            b < self.len(),
        ensures
            res == self.unrelated_or_same(a as int, b as int),
    {
        a == b || (!self.is_ancestor(a, b) && !self.is_ancestor(b, a))
    }

    /// Merges the alias information of `rv` into `lv` (see `merge_alias_rec`).
    pub fn merge_alias_nodes(&mut self, lv: usize, rv: usize, inherit_birth: bool)
        requires
            old(self).wf(),
            lv < old(self).len(),
            rv < old(self).len(),
            old(self).unrelated_or_same(lv as int, rv as int),
        ensures
            ValueGraph::merged_into(old(self), final(self), lv as int, rv as int),
            lv == rv ==> final(self).len() == old(self).len(),
            forall|y: int| old(self).len() <= y < final(self).len() ==> #[trigger] hangs_under(final(self), y, inherit_birth),
    {
        self.merge_alias_rec(lv, rv, inherit_birth, Ghost(self.len() as int));
    }
}

impl ValueGraph {
    /// The node that `x` was last assigned from, when that is another node;
    /// `x` itself otherwise.
    pub open spec fn redirect(&self, x: int) -> int {
        let a = self.values@[x].alias@[0] as int;
        if a != x {
            a
        } else {
            x
        }
    }

    /// The node reached from `start` through the fields `path`, when each
    /// step's field is recorded. With `follow`, each step first moves to
    /// the node the current one was assigned from (see `redirect`).
    pub open spec fn path_end(&self, start: int, path: Seq<usize>, follow: bool) -> Option<int>
        decreases path.len(),
    {
        if path.len() == 0 {
            Some(start)
        } else {
            match self.path_end(start, path.drop_last(), follow) {
                Some(x) => {
                    let y = if follow {
                        self.redirect(x)
                    } else {
                        x
                    };
                    match self.values@[y].field(path.last()) {
                        Some(c) => Some(c as int),
                        None => None,
                    }
                },
                None => None,
            }
        }
    }

    /// `self` is `old` with more nodes and more fields: every old node keeps
    /// its header and alias list, and its fields are extended.
    pub open spec fn grows_from(&self, old: &ValueGraph) -> bool {
        &&& self.wf()
        &&& self.len() >= old.len()
        &&& forall|y: int| 0 <= y < old.len() ==> #[trigger] self.values@[y].same_header(old.values@[y])
        &&& forall|y: int| 0 <= y < old.len() ==> #[trigger] self.values@[y].alias == old.values@[y].alias
        &&& forall|y: int| 0 <= y < old.len() ==> extends(old.values@[y].fields@, #[trigger] self.values@[y].fields@)
    }
}




/// The fields of every old node are only extended.
pub open spec fn fields_extended(g1: &ValueGraph, g2: &ValueGraph) -> bool {
    &&& g2.len() >= g1.len()
    &&& forall|y: int| 0 <= y < g1.len() ==> extends(g1.values@[y].fields@, #[trigger] g2.values@[y].fields@)
}

/// A path without following assignments keeps its end as fields are
/// extended.
proof fn lemma_path_end_fields_kept(g1: &ValueGraph, g2: &ValueGraph, start: int, path: Seq<usize>)
    requires
        g1.wf(),
        g2.wf(),
        fields_extended(g1, g2),
        0 <= start < g1.len(),
        g1.path_end(start, path, false) is Some,
    ensures
        g2.path_end(start, path, false) == g1.path_end(start, path, false),
        0 <= g1.path_end(start, path, false)->0 < g1.len(),
    decreases path.len(),
{
    if path.len() > 0 {
        lemma_path_end_fields_kept(g1, g2, start, path.drop_last());
        let x = g1.path_end(start, path.drop_last(), false)->0;
        assert(g1.node_wf(x));
        assert(extends(g1.values@[x].fields@, g2.values@[x].fields@));
        lemma_field_stable(g1, g2, x, path.last());
        let j = choose|j: int| 0 <= j < g1.values@[x].fields@.len() && g1.values@[x].fields@[j].0 == path.last();
        assert(g1.values@[x].fields@[j].1 < g1.len());
    }
}

/// A path is its first field followed by the rest.
proof fn lemma_path_end_head(g: &ValueGraph, a: int, k: usize, rest: Seq<usize>)
    ensures
        g.path_end(a, seq![k] + rest, false) == (match g.values@[a].field(k) {
            Some(c) => g.path_end(c as int, rest, false),
            None => None,
        }),
    decreases rest.len(),
{
    let p = seq![k] + rest;
    if rest.len() == 0 {
        assert(p.drop_last() =~= Seq::<usize>::empty());
        assert(p.last() == k);
        assert(g.path_end(a, p.drop_last(), false) == Some(a));
        match g.values@[a].field(k) {
            Some(c) => {
                assert(g.path_end(c as int, rest, false) == Some(c as int));
            },
            None => {},
        }
    } else {
        lemma_path_end_head(g, a, k, rest.drop_last());
        assert(p.drop_last() =~= seq![k] + rest.drop_last());
        assert(p.last() == rest.last());
        assert(g.path_end(a, p, false) == (match g.path_end(a, p.drop_last(), false) {
            Some(x) => match g.values@[x].field(p.last()) {
                Some(c) => Some(c as int),
                None => None,
            },
            None => None,
        }));
    }
}






/// The alias list a node of `new` started from: its list in `old`, or none
/// for a node `old` does not have.
pub open spec fn base_alias(old: &ValueGraph, l: int) -> Seq<usize> {
    if 0 <= l < old.len() {
        old.values@[l].alias@
    } else {
        Seq::empty()
    }
}

/// Along the field path `path`, which leads from `rv` to a node `r` of
/// `old`, `new` has a node `l` below `lv` whose alias list is its starting
/// list merged with that of `r`; a node `l` that `old` lacks copies
/// whether `r` needs drop, may drop, and its kind.
pub open spec fn path_merged(old: &ValueGraph, new: &ValueGraph, lv: int, rv: int, path: Seq<usize>) -> bool {
    let r = old.path_end(rv, path, false)->0;
    &&& new.path_end(lv, path, false) is Some
    &&& ({
        let l = new.path_end(lv, path, false)->0;
        &&& new.values@[l].alias@ == ValueGraph::merged_alias(base_alias(old, l), old.values@[r].alias@)
        &&& l >= old.len() ==> {
            &&& new.values@[l].need_drop == old.values@[r].need_drop
            &&& new.values@[l].may_drop == old.values@[r].may_drop
            &&& new.values@[l].kind == old.values@[r].kind
        }
    })
}

/// Every field path from `rv` in `old` is merged below `lv` in `new` (see
/// `path_merged`).
pub open spec fn paths_merged(old: &ValueGraph, new: &ValueGraph, lv: int, rv: int) -> bool {
    forall|path: Seq<usize>| #[trigger] old.path_end(rv, path, false) is Some ==> path_merged(old, new, lv, rv, path)
}

/// The field `kc.0` of `lv` exists in `g`, and the paths from `kc.1` in
/// `old` are merged below it.
pub open spec fn field_merged(old: &ValueGraph, g: &ValueGraph, lv: int, kc: (usize, usize)) -> bool {
    match g.values@[lv].field(kc.0) {
        Some(f) => paths_merged(old, g, f as int, kc.1 as int),
        None => false,
    }
}

/// The end of a path lies in the subtree of its start.
proof fn lemma_path_in_subtree(g: &ValueGraph, a: int, path: Seq<usize>)
    requires
        g.wf(),
        0 <= a < g.len(),
        g.path_end(a, path, false) is Some,
    ensures
        g.in_subtree(a, g.path_end(a, path, false)->0),
        path.len() > 0 ==> g.is_anc(a, g.path_end(a, path, false)->0),
        0 <= g.path_end(a, path, false)->0 < g.len(),
    decreases path.len(),
{
    if path.len() > 0 {
        lemma_path_in_subtree(g, a, path.drop_last());
        let x = g.path_end(a, path.drop_last(), false)->0;
        assert(g.node_wf(x));
        let j = choose|j: int| 0 <= j < g.values@[x].fields@.len() && g.values@[x].fields@[j].0 == path.last();
        lemma_field_parent(g, x, j);
        let y = g.values@[x].fields@[j].1 as int;
        if x != a {
            lemma_anc_trans(g, a, x, y);
        }
    }
}

/// Two distinct children of one node have disjoint subtrees.
proof fn lemma_siblings_apart(g: &ValueGraph, p: int, a: int, b: int, y: int)
    requires
        a != b,
        0 <= p,
        g.values@[a].parent == p,
        g.values@[b].parent == p,
        p < a < g.len(),
        p < b < g.len(),
        g.in_subtree(a, y),
    ensures
        !g.in_subtree(b, y),
{
    assert(g.is_anc(p, a));
    assert(g.is_anc(p, b));
    if g.in_subtree(b, y) {
        if y == a {
            // b is a strict ancestor of a, hence b <= p
            assert(g.is_anc(b, a));
            if b != p {
                assert(g.is_anc(b, p));
                lemma_anc_lt(g, b, p);
            }
        } else if y == b {
            assert(g.is_anc(a, b));
            if a != p {
                assert(g.is_anc(a, p));
                lemma_anc_lt(g, a, p);
            }
        } else {
            lemma_anc_chain(g, a, b, y);
            if g.is_anc(a, b) {
                if a != p {
                    assert(g.is_anc(a, p));
                    lemma_anc_lt(g, a, p);
                }
            } else if g.is_anc(b, a) {
                if b != p {
                    assert(g.is_anc(b, p));
                    lemma_anc_lt(g, b, p);
                }
            }
        }
    }
}


/// A merged field of `lv` stays merged while the nodes outside the subtree
/// of another field `fi` of `lv` keep their contents.
proof fn lemma_field_merged_kept(g0: &ValueGraph, ga: &ValueGraph, g1: &ValueGraph, gb: &ValueGraph, lv: int, kc: (usize, usize), fi: int)
    requires
        ga.wf(),
        g1.wf(),
        gb.wf(),
        fields_extended(ga, gb),
        0 <= lv < ga.len(),
        field_merged(g0, ga, lv, kc),
        g1.len() >= ga.len(),
        forall|y: int| 0 <= y < ga.len() ==> #[trigger] g1.values@[y].same_header(ga.values@[y]),
        forall|y: int| 0 <= y < ga.len() && y != lv && !g1.in_subtree(fi, y) ==> #[trigger] gb.values@[y] == ga.values@[y],
        ga.values@[lv].field(kc.0)->0 != fi,
        g1.values@[fi].parent == lv,
        lv < fi < g1.len(),
    ensures
        field_merged(g0, gb, lv, kc),
{
    let k = kc.0;
    let c = kc.1 as int;
    let fj = ga.values@[lv].field(k)->0 as int;
    let jj = choose|jj: int| 0 <= jj < ga.values@[lv].fields@.len() && ga.values@[lv].fields@[jj].0 == k;
    assert(ga.node_wf(lv));
    lemma_field_parent(ga, lv, jj);
    assert(ga.values@[lv].fields@[jj].1 as int == fj);
    assert(extends(ga.values@[lv].fields@, gb.values@[lv].fields@));
    lemma_field_stable(ga, gb, lv, k);
    assert(g1.values@[fj].same_header(ga.values@[fj]));
    assert forall|path: Seq<usize>| #[trigger] g0.path_end(c, path, false) is Some implies path_merged(g0, gb, fj, c, path) by {
        assert(path_merged(g0, ga, fj, c, path));
        lemma_path_in_subtree(ga, fj, path);
        lemma_path_end_fields_kept(ga, gb, fj, path);
        let l = ga.path_end(fj, path, false)->0;
        if l != fj {
            lemma_headers_keep_anc(ga, g1, fj, l);
            lemma_anc_lt(ga, fj, l);
        }
        lemma_siblings_apart(g1, lv, fj, fi, l);
        assert(gb.values@[l] == ga.values@[l]);
    }
}

/// After the merge of `c` (a field of `rv` in `g0`) into the field `f` of
/// `lv` took `g1` to `g2`, that field is merged with respect to `g0`: the
/// nodes below `c` and below `f` held in `g1` what they held in `g0`, and
/// a field `f` that `g0` lacks was just added with the flags of `c`.
proof fn lemma_field_merged_step(g0: &ValueGraph, g1: &ValueGraph, g2: &ValueGraph, lv: int, k: usize, f: usize, c: usize)
    requires
        g0.wf(),
        g1.wf(),
        g2.wf(),
        fields_extended(g0, g1),
        fields_extended(g1, g2),
        forall|y: int| 0 <= y < g0.len() ==> #[trigger] g1.values@[y].same_header(g0.values@[y]),
        forall|y: int| 0 <= y < g1.len() ==> #[trigger] g2.values@[y].same_header(g1.values@[y]),
        0 <= lv < g1.len(),
        c < g0.len(),
        f < g1.len(),
        g1.values@[lv].field(k) == Some(f),
        paths_merged(g1, g2, f as int, c as int),
        merge_ready(g0, g1, f, c),
    ensures
        field_merged(g0, g2, lv, (k, c)),
{
    assert(extends(g1.values@[lv].fields@, g2.values@[lv].fields@));
    lemma_field_stable(g1, g2, lv, k);
    assert forall|path: Seq<usize>| #[trigger] g0.path_end(c as int, path, false) is Some implies path_merged(g0, g2, f as int, c as int, path) by {
        lemma_path_end_fields_kept(g0, g1, c as int, path);
        lemma_path_in_subtree(g0, c as int, path);
        let r = g0.path_end(c as int, path, false)->0;
        assert(g1.values@[r].alias == g0.values@[r].alias);
        assert(g1.values@[r].same_header(g0.values@[r]));
        assert(path_merged(g1, g2, f as int, c as int, path));
        lemma_path_in_subtree(g2, f as int, path);
        let l = g2.path_end(f as int, path, false)->0;
        let ra = g0.values@[r].alias@;
        assert(g2.values@[l].alias@ == ValueGraph::merged_alias(base_alias(g1, l), ra));
        if l < g1.len() {
            if l != f as int {
                lemma_headers_keep_anc(g1, g2, f as int, l);
            }
            assert(g1.in_subtree(f as int, l));
            if !(l < g0.len() && g1.values@[l].alias == g0.values@[l].alias) {
                assert(l == f as int && f >= g0.len() && g1.values@[l].alias@.len() <= 1);
                assert(base_alias(g1, l) == g1.values@[l].alias@);
                assert(ValueGraph::merged_alias(base_alias(g1, l), ra) == ra);
                assert(ValueGraph::merged_alias(base_alias(g0, l), ra) == ra);
            } else {
                assert(l < g0.len() && g1.values@[l].alias == g0.values@[l].alias);
                assert(base_alias(g1, l) == base_alias(g0, l));
            }
            if l >= g0.len() {
                if path.len() > 0 {
                    assert(g2.is_anc(f as int, l));
                    lemma_headers_keep_anc(g1, g2, f as int, l);
                    lemma_anc_lt(g1, f as int, l);
                    if l != f as int {
                        lemma_anc_lt(g1, f as int, l);
                    }
                } else {
                    assert(r == c as int);
                    assert(l == f as int);
                    assert(g2.values@[l].same_header(g1.values@[l]));
                }
            }
        } else {
            assert(base_alias(g1, l) =~= Seq::<usize>::empty());
            assert(base_alias(g0, l) =~= Seq::<usize>::empty());
        }
    }
}


/// `y` lies below one of the fields `kcs[j].0` (`j < n`) of `lv` in `g`.
pub open spec fn touched(g: &ValueGraph, lv: int, kcs: Seq<(usize, usize)>, n: int, y: int) -> bool {
    exists|j: int| 0 <= j < n && #[trigger] g.in_subtree(g.values@[lv].field(kcs[j].0)->0 as int, y)
}

/// Distinct field keys of a node lead to distinct field nodes, each a
/// child of the node.
proof fn lemma_field_nodes_distinct(g: &ValueGraph, x: int, k1: usize, k2: usize)
    requires
        g.wf(),
        0 <= x < g.len(),
        g.values@[x].field(k1) is Some,
        g.values@[x].field(k2) is Some,
        k1 != k2,
    ensures
        g.values@[x].field(k1) != g.values@[x].field(k2),
        g.values@[g.values@[x].field(k1)->0 as int].parent == x,
        x < g.values@[x].field(k1)->0 < g.len(),
{
    let fl = g.values@[x].fields@;
    let j1 = choose|j: int| 0 <= j < fl.len() && fl[j].0 == k1;
    let j2 = choose|j: int| 0 <= j < fl.len() && fl[j].0 == k2;
    assert(g.node_wf(x));
    lemma_field_parent(g, x, j1);
    if j1 < j2 {
        assert(fl[j1].1 != fl[j2].1);
    } else {
        assert(fl[j2].1 != fl[j1].1);
    }
}

/// A node below `rv` is not below an unrelated `lv`.
proof fn lemma_unrelated_apart(g: &ValueGraph, lv: int, rv: int, y: int)
    requires
        lv != rv,
        !g.is_anc(lv, rv),
        !g.is_anc(rv, lv),
        g.in_subtree(rv, y),
    ensures
        !g.in_subtree(lv, y),
{
    if y != rv && g.is_anc(lv, y) {
        lemma_anc_chain(g, lv, rv, y);
    }
}

/// The node `y` of `new` is where some field path from `rv` in `old` leads
/// from `lv` in `new`.
pub open spec fn on_merged_path(old: &ValueGraph, new: &ValueGraph, lv: int, rv: int, y: int) -> bool {
    exists|path: Seq<usize>| #[trigger] old.path_end(rv, path, false) is Some && new.path_end(lv, path, false) == Some(y)
}

/// Every node `new` adds to `old` lies on a field path of `rv` (see
/// `on_merged_path`).
pub open spec fn new_on_paths(old: &ValueGraph, new: &ValueGraph, lv: int, rv: int) -> bool {
    forall|y: int| old.len() <= y < new.len() ==> #[trigger] on_merged_path(old, new, lv, rv, y)
}

/// Paths from `a` end alike in two graphs whose nodes below `a` have the
/// same fields.
proof fn lemma_path_end_same(ga: &ValueGraph, gb: &ValueGraph, a: int, path: Seq<usize>)
    requires
        ga.wf(),
        0 <= a < ga.len(),
        forall|y: int| #![trigger gb.values@[y]] 0 <= y < ga.len() && ga.in_subtree(a, y) ==> gb.values@[y].fields@ == ga.values@[y].fields@,
    ensures
        gb.path_end(a, path, false) == ga.path_end(a, path, false),
    decreases path.len(),
{
    if path.len() > 0 {
        lemma_path_end_same(ga, gb, a, path.drop_last());
        if ga.path_end(a, path.drop_last(), false) is Some {
            lemma_path_in_subtree(ga, a, path.drop_last());
            let x = ga.path_end(a, path.drop_last(), false)->0;
            assert(gb.values@[x].fields@ == ga.values@[x].fields@);
        }
    }
}

/// The key of a recorded field leads to its node.
proof fn lemma_field_at(g: &ValueGraph, x: int, j: int)
    requires
        g.wf(),
        0 <= x < g.len(),
        0 <= j < g.values@[x].fields@.len(),
    ensures
        g.values@[x].field(g.values@[x].fields@[j].0) == Some(g.values@[x].fields@[j].1),
{
    let fl = g.values@[x].fields@;
    let k = fl[j].0;
    let j2 = choose|j2: int| 0 <= j2 < fl.len() && fl[j2].0 == k;
    assert(g.node_wf(x));
    if j2 != j {
        if j2 < j {
            assert(fl[j2].0 != fl[j].0);
        } else {
            assert(fl[j].0 != fl[j2].0);
        }
    }
}

/// The nodes of `g` other than `lv` and not below one of the first `n`
/// fields `kcs` of `lv` are nodes of `g0` with their alias lists.
pub open spec fn untouched_kept(g0: &ValueGraph, g: &ValueGraph, lv: int, kcs: Seq<(usize, usize)>, n: int) -> bool {
    forall|y: int| #![trigger g.values@[y]]
        0 <= y < g.len() && y != lv && !touched(g, lv, kcs, n, y) ==> y < g0.len() && g.values@[y].alias == g0.values@[y].alias
}

/// The first `n` fields `kcs` are merged under `lv` (see `field_merged`).
pub open spec fn fields_merged_upto(g0: &ValueGraph, g: &ValueGraph, lv: int, kcs: Seq<(usize, usize)>, n: int) -> bool {
    forall|j: int| 0 <= j < n ==> #[trigger] field_merged(g0, g, lv, kcs[j])
}

/// What the merge of `rv`'s field `c` into `lv`'s field `f` may rely on:
/// the nodes below `f` are old nodes with their old alias lists (or `f`
/// itself, just added with a single alias), the nodes below `c` keep
/// their old alias lists, and a new `f` has the flags of `c`.
pub open spec fn merge_ready(g0: &ValueGraph, g1: &ValueGraph, f: usize, c: usize) -> bool {
    &&& forall|y: int| #![trigger g1.values@[y]] 0 <= y < g1.len() && g1.in_subtree(f as int, y) ==> (y < g0.len() && g1.values@[y].alias == g0.values@[y].alias) || (y == f && f >= g0.len() && g1.values@[y].alias@.len() <= 1)
    &&& forall|y: int| #![trigger g1.values@[y]] 0 <= y < g0.len() && g0.in_subtree(c as int, y) ==> g1.values@[y].alias == g0.values@[y].alias && g1.values@[y].fields@ == g0.values@[y].fields@
    &&& f >= g0.len() ==> {
        &&& g1.values@[f as int].need_drop == g0.values@[c as int].need_drop
        &&& g1.values@[f as int].may_drop == g0.values@[c as int].may_drop
        &&& g1.values@[f as int].kind == g0.values@[c as int].kind
    }
}

/// Before the merge of the `i`-th field `(k, c)` of `rv` into the field `f`
/// of `lv` (found, or just added, taking `g1a` to `g1`): the merge may rely
/// on `merge_ready`.
proof fn lemma_merge_ready(g0: &ValueGraph, g1a: &ValueGraph, g1: &ValueGraph, lv: int, rv: int, kcs: Seq<(usize, usize)>, i: int, k: usize, c: usize, f: usize)
    requires
        g0.wf(),
        g1a.wf(),
        g1.wf(),
        0 <= lv < g0.len(),
        0 <= rv < g0.len(),
        g0.unrelated_or_same(lv, rv),
        kcs == g0.values@[rv].fields@,
        0 <= i < kcs.len(),
        kcs[i] == (k, c),
        untouched_kept(g0, g1a, lv, kcs, i),
        forall|j: int| 0 <= j < i ==> #[trigger] g1a.values@[lv].field(kcs[j].0) is Some,
        forall|y: int| 0 <= y < g0.len() ==> #[trigger] g1a.values@[y].same_header(g0.values@[y]),
        forall|y: int| 0 <= y < g0.len() && !g0.in_subtree(lv, y) ==> #[trigger] g1a.values@[y] == g0.values@[y],
        g1a.len() >= g0.len(),
        g1.len() >= g1a.len(),
        forall|y: int| 0 <= y < g1a.len() && y != lv ==> #[trigger] g1.values@[y] == g1a.values@[y],
        forall|y: int| 0 <= y < g1a.len() ==> #[trigger] g1.values@[y].same_header(g1a.values@[y]),
        (f < g1a.len() && g1.len() == g1a.len() && g1a.values@[lv].field(k) == Some(f)) || (f == g1a.len()
            && g1.len() == g1a.len() + 1 && g1.values@[f as int].alias@.len() == 1 && g1.values@[f as int].need_drop
            == g0.values@[c as int].need_drop && g1.values@[f as int].may_drop == g0.values@[c as int].may_drop
            && g1.values@[f as int].kind == g0.values@[c as int].kind),
        g1.values@[f as int].parent == lv,
        lv < f < g1.len(),
        lv == rv ==> f == c,
        lv == rv ==> forall|y: int| 0 <= y < g0.len() ==> #[trigger] g1a.values@[y].fields@ == g0.values@[y].fields@,
    ensures
        merge_ready(g0, g1, f, c),
{
    assert forall|y: int| #![trigger g1.values@[y]] 0 <= y < g1.len() && g1.in_subtree(f as int, y) implies (y < g0.len()
        && g1.values@[y].alias == g0.values@[y].alias) || (y == f && f >= g0.len()
        && g1.values@[y].alias@.len() <= 1) by {
        if y != f as int {
            lemma_anc_lt(g1, f as int, y);
        }
        if f < g1a.len() {
            if y != f as int {
                lemma_headers_keep_anc(g1a, g1, f as int, y);
            }
            assert(!touched(g1a, lv, kcs, i, y)) by {
                if touched(g1a, lv, kcs, i, y) {
                    let j = choose|j: int| 0 <= j < i && #[trigger] g1a.in_subtree(g1a.values@[lv].field(kcs[j].0)->0 as int, y);
                    assert(g0.node_wf(rv));
                    assert(kcs[j].0 != kcs[i].0);
                    assert(g1a.values@[lv].field(kcs[j].0) is Some);
                    lemma_field_nodes_distinct(g1a, lv, kcs[j].0, k);
                    let fj = g1a.values@[lv].field(kcs[j].0)->0 as int;
                    lemma_siblings_apart(g1a, lv, fj, f as int, y);
                }
            }
            assert(g1a.values@[y] == g1a.values@[y]);
        }
    }
    assert(f < g1a.len() ==> f < g0.len()) by {
        if f < g1a.len() {
            assert(!touched(g1a, lv, kcs, i, f as int)) by {
                if touched(g1a, lv, kcs, i, f as int) {
                    let j = choose|j: int| 0 <= j < i && #[trigger] g1a.in_subtree(g1a.values@[lv].field(kcs[j].0)->0 as int, f as int);
                    assert(g0.node_wf(rv));
                    assert(kcs[j].0 != kcs[i].0);
                    assert(g1a.values@[lv].field(kcs[j].0) is Some);
                    lemma_field_nodes_distinct(g1a, lv, kcs[j].0, k);
                    let fj = g1a.values@[lv].field(kcs[j].0)->0 as int;
                    lemma_siblings_apart(g1a, lv, fj, f as int, f as int);
                }
            }
            assert(g1a.values@[f as int] == g1a.values@[f as int]);
        }
    }
    assert forall|y: int| #![trigger g1.values@[y]] 0 <= y < g0.len() && g0.in_subtree(c as int, y) implies g1.values@[y].alias == g0.values@[y].alias && g1.values@[y].fields@ == g0.values@[y].fields@ by {
        assert(g0.node_wf(rv));
        let jc = i;
        lemma_field_parent(g0, rv, jc);
        if lv != rv {
            if y != c as int {
                lemma_anc_trans(g0, rv, c as int, y);
            }
            lemma_unrelated_apart(g0, lv, rv, y);
            assert(g1a.values@[y] == g0.values@[y]);
            assert(g1.values@[y] == g1a.values@[y]);
        } else {
            if y != c as int {
                lemma_headers_keep_anc(g0, g1a, c as int, y);
                lemma_headers_keep_anc(g1a, g1, c as int, y);
            }
            assert(g1.in_subtree(f as int, y));
            assert(g1.values@[y] == g1.values@[y]);
            assert(g1a.values@[y].fields@ == g0.values@[y].fields@);
            if y != lv {
                assert(g1.values@[y] == g1a.values@[y]);
            } else {
                lemma_anc_lt(g0, c as int, y);
            }
        }
    }

}

/// After the merge of the `i`-th field `(k, c)` of `rv` into the field `f`
/// of `lv` took `g1` to `g2`: the first `i + 1` fields are merged, and the
/// nodes outside their subtrees are untouched.
proof fn lemma_merge_step_done(g0: &ValueGraph, g1a: &ValueGraph, g1: &ValueGraph, g2: &ValueGraph, lv: int, rv: int, kcs: Seq<(usize, usize)>, i: int, k: usize, c: usize, f: usize)
    requires
        g0.wf(),
        g1a.wf(),
        g1.wf(),
        g2.wf(),
        0 <= lv < g0.len(),
        0 <= rv < g0.len(),
        kcs == g0.values@[rv].fields@,
        0 <= i < kcs.len(),
        kcs[i] == (k, c),
        untouched_kept(g0, g1a, lv, kcs, i),
        fields_merged_upto(g0, g1a, lv, kcs, i),
        forall|j: int| 0 <= j < i ==> #[trigger] g1a.values@[lv].field(kcs[j].0) is Some,
        forall|y: int| 0 <= y < g0.len() ==> #[trigger] g1.values@[y].same_header(g0.values@[y]),
        g1a.len() >= g0.len(),
        g1.len() >= g1a.len(),
        fields_extended(g0, g1),
        fields_extended(g1a, g1),
        fields_extended(g1, g2),
        forall|y: int| 0 <= y < g1a.len() && y != lv ==> #[trigger] g1.values@[y] == g1a.values@[y],
        forall|y: int| 0 <= y < g1a.len() ==> #[trigger] g1.values@[y].same_header(g1a.values@[y]),
        (f < g1a.len() && g1.len() == g1a.len()) || (f == g1a.len() && g1.len() == g1a.len() + 1),
        g1.values@[lv].field(k) == Some(f),
        g1.values@[f as int].parent == lv,
        lv < f < g1.len(),
        merge_ready(g0, g1, f, c),
        forall|y: int| 0 <= y < g1.len() ==> #[trigger] g2.values@[y].same_header(g1.values@[y]),
        forall|y: int| 0 <= y < g1.len() && !g1.in_subtree(f as int, y) ==> #[trigger] g2.values@[y] == g1.values@[y],
        forall|y: int| g1.len() <= y < g2.len() ==> #[trigger] g2.is_anc(f as int, y),
        paths_merged(g1, g2, f as int, c as int),
        new_on_paths(g0, g1a, lv, rv),
        new_on_paths(g1, g2, f as int, c as int),
    ensures
        fields_merged_upto(g0, g2, lv, kcs, i + 1),
        untouched_kept(g0, g2, lv, kcs, i + 1),
        new_on_paths(g0, g2, lv, rv),
{
    assert(g0.node_wf(rv));
    lemma_field_at(g0, rv, i);
    assert(extends(g1.values@[lv].fields@, g2.values@[lv].fields@));
    lemma_field_stable(g1, g2, lv, k);
    assert(fields_extended(g1a, g2)) by {
        assert forall|y: int| 0 <= y < g1a.len() implies extends(g1a.values@[y].fields@, #[trigger] g2.values@[y].fields@) by {
            assert(extends(g1a.values@[y].fields@, g1.values@[y].fields@));
            assert(extends(g1.values@[y].fields@, g2.values@[y].fields@));
        }
    }
    assert forall|y: int| g0.len() <= y < g2.len() implies #[trigger] on_merged_path(g0, g2, lv, rv, y) by {
        if y < g1a.len() {
            assert(on_merged_path(g0, g1a, lv, rv, y));
            let p = choose|p: Seq<usize>| #[trigger] g0.path_end(rv, p, false) is Some && g1a.path_end(lv, p, false) == Some(y);
            lemma_path_end_fields_kept(g1a, g2, lv, p);
            assert(g0.path_end(rv, p, false) is Some && g2.path_end(lv, p, false) == Some(y));
        } else if y < g1.len() {
            assert(y == f as int);
            let p = seq![k];
            assert(p =~= seq![k] + Seq::<usize>::empty());
            lemma_path_end_head(g0, rv, k, Seq::<usize>::empty());
            lemma_path_end_head(g2, lv, k, Seq::<usize>::empty());
            assert(g0.path_end(rv, p, false) is Some && g2.path_end(lv, p, false) == Some(y));
        } else {
            assert(on_merged_path(g1, g2, f as int, c as int, y));
            let rest = choose|p: Seq<usize>| #[trigger] g1.path_end(c as int, p, false) is Some && g2.path_end(f as int, p, false) == Some(y);
            lemma_field_parent(g0, rv, i);
            lemma_path_end_same(g0, g1, c as int, rest);
            let p = seq![k] + rest;
            lemma_path_end_head(g0, rv, k, rest);
            lemma_path_end_head(g2, lv, k, rest);
            assert(g0.path_end(rv, p, false) is Some && g2.path_end(lv, p, false) == Some(y));
        }
    }
    assert(c < g0.len()) by {
        assert(g0.node_wf(rv));
        lemma_field_parent(g0, rv, i);
    }
    lemma_field_merged_step(g0, g1, g2, lv, k, f, c);
    assert forall|y: int| 0 <= y < g1a.len() && y != lv && !g1.in_subtree(f as int, y) implies #[trigger] g2.values@[y] == g1a.values@[y] by {
        assert(g1.values@[y] == g1a.values@[y]);
    }
    assert forall|y: int| 0 <= y < g1a.len() implies #[trigger] g1.values@[y].same_header(g1a.values@[y]) by {}
    assert forall|j: int| 0 <= j < i + 1 implies #[trigger] field_merged(g0, g2, lv, kcs[j]) by {
        if j < i {
            assert(field_merged(g0, g1a, lv, kcs[j]));
            assert(g0.node_wf(rv));
            assert(kcs[j].0 != kcs[i].0);
            assert(g1a.values@[lv].field(kcs[j].0) is Some);
            assert(extends(g1a.values@[lv].fields@, g1.values@[lv].fields@));
            lemma_field_stable(g1a, g1, lv, kcs[j].0);
            lemma_field_nodes_distinct(g1, lv, kcs[j].0, k);
            lemma_field_merged_kept(g0, g1a, g1, g2, lv, kcs[j], f as int);
        }
    }
    assert forall|y: int| #![trigger g2.values@[y]]
        0 <= y < g2.len() && y != lv && !touched(g2, lv, kcs, i + 1, y) implies y < g0.len()
            && g2.values@[y].alias == g0.values@[y].alias by {
        assert(extends(g1.values@[lv].fields@, g2.values@[lv].fields@));
        lemma_field_stable(g1, g2, lv, k);
        assert(g2.values@[lv].field(kcs[i].0) == Some(f));
        if y >= g1.len() {
            assert(g2.is_anc(f as int, y));
        }
        if g1.in_subtree(f as int, y) && y != f as int {
            lemma_headers_keep_anc(g1, g2, f as int, y);
        }
        if g2.in_subtree(f as int, y) {
            assert(touched(g2, lv, kcs, i + 1, y));
        }
        assert(y < g1a.len());
        assert(g2.values@[y] == g1a.values@[y]);
        assert(!touched(g1a, lv, kcs, i, y)) by {
            if touched(g1a, lv, kcs, i, y) {
                let j = choose|j: int| 0 <= j < i && #[trigger] g1a.in_subtree(g1a.values@[lv].field(kcs[j].0)->0 as int, y);
                let kj = kcs[j].0;
                assert(g1a.values@[lv].field(kj) is Some);
                assert(extends(g1a.values@[lv].fields@, g1.values@[lv].fields@));
                lemma_field_stable(g1a, g1, lv, kj);
                lemma_field_stable(g1, g2, lv, kj);
                let fj = g1a.values@[lv].field(kj)->0 as int;
                let jj = choose|jj: int| 0 <= jj < g1a.values@[lv].fields@.len() && g1a.values@[lv].fields@[jj].0 == kj;
                assert(g1a.node_wf(lv));
                lemma_field_parent(g1a, lv, jj);
                assert forall|z: int| 0 <= z < g1a.len() implies #[trigger] g2.values@[z].same_header(g1a.values@[z]) by {
                    assert(g1.values@[z].same_header(g1a.values@[z]));
                    assert(g2.values@[z].same_header(g1.values@[z]));
                }
                if y != fj {
                    lemma_headers_keep_anc(g1a, g2, fj, y);
                }
                assert(g2.in_subtree(g2.values@[lv].field(kcs[j].0)->0 as int, y));
            }
        }
        assert(g1a.values@[y] == g1a.values@[y]);
    }
}
/// When every field of `rv` in `old` is merged under `lv` in `g`, and the
/// alias list of `lv` is merged with that of `rv`, every path from `rv` is
/// merged below `lv`.
proof fn lemma_paths_merged_all(old: &ValueGraph, g: &ValueGraph, lv: int, rv: int)
    requires
        old.wf(),
        0 <= rv < old.len(),
        0 <= lv < old.len(),
        g.values@[lv].alias@ == ValueGraph::merged_alias(old.values@[lv].alias@, old.values@[rv].alias@),
        forall|j: int| 0 <= j < old.values@[rv].fields@.len() ==> #[trigger] field_merged(old, g, lv, old.values@[rv].fields@[j]),
    ensures
        paths_merged(old, g, lv, rv),
{
    assert forall|path: Seq<usize>| #[trigger] old.path_end(rv, path, false) is Some implies path_merged(old, g, lv, rv, path) by {
        if path.len() > 0 {
            let k = path[0];
            let rest = path.skip(1);
            assert(path =~= seq![k] + rest);
            lemma_path_end_head(old, rv, k, rest);
            lemma_path_end_head(g, lv, k, rest);
            let j = choose|j: int| 0 <= j < old.values@[rv].fields@.len() && old.values@[rv].fields@[j].0 == k;
            let c = old.values@[rv].field(k)->0;
            assert(old.node_wf(rv));
            assert forall|j2: int| 0 <= j2 < old.values@[rv].fields@.len() && old.values@[rv].fields@[j2].0 == k implies j2 == j by {
                if j2 < j {
                    assert(old.values@[rv].fields@[j2].0 != old.values@[rv].fields@[j].0);
                } else if j2 > j {
                    assert(old.values@[rv].fields@[j].0 != old.values@[rv].fields@[j2].0);
                }
            }
            assert(old.values@[rv].fields@[j].1 == c);
            assert(field_merged(old, g, lv, old.values@[rv].fields@[j]));
            assert(old.path_end(c as int, rest, false) is Some);
            let f = g.values@[lv].field(k)->0;
            assert(path_merged(old, g, f as int, c as int, rest));
        } else {
            assert(old.path_end(rv, path, false) == Some(rv));
            assert(g.path_end(lv, path, false) == Some(lv));
        }
    }
}

/// A recorded field stays recorded, with its node, as fields are extended.
pub proof fn lemma_field_stable(g1: &ValueGraph, g2: &ValueGraph, x: int, k: usize)
    requires
        g1.wf(),
        g2.wf(),
        0 <= x < g1.len(),
        x < g2.len(),
        extends(g1.values@[x].fields@, g2.values@[x].fields@),
        g1.values@[x].field(k) is Some,
    ensures
        g2.values@[x].field(k) == g1.values@[x].field(k),
{
    let f1 = g1.values@[x].fields@;
    let f2 = g2.values@[x].fields@;
    let j1 = choose|j: int| 0 <= j < f1.len() && f1[j].0 == k;
    assert(f2[j1] == f1[j1]);
    assert(exists|j: int| 0 <= j < f2.len() && f2[j].0 == k);
    let j2 = choose|j: int| 0 <= j < f2.len() && f2[j].0 == k;
    assert(g2.node_wf(x));
    if j1 != j2 {
        if j1 < j2 {
            assert(f2[j1].0 != f2[j2].0);
        } else {
            assert(f2[j2].0 != f2[j1].0);
        }
    }
    assert(g1.node_wf(x));
    assert forall|j: int| 0 <= j < f1.len() && f1[j].0 == k implies j == j1 by {
        if j < j1 {
            assert(f1[j].0 != f1[j1].0);
        } else if j > j1 {
            assert(f1[j1].0 != f1[j].0);
        }
    }
    assert(g2.values@[x].field(k) == Some(f2[j2].1));
}

/// Growth is transitive.
pub proof fn lemma_grows_trans(g1: &ValueGraph, g2: &ValueGraph, g3: &ValueGraph)
    requires
        g2.grows_from(g1),
        g3.grows_from(g2),
    ensures
        g3.grows_from(g1),
{
    assert forall|y: int| 0 <= y < g1.len() implies extends(g1.values@[y].fields@, #[trigger] g3.values@[y].fields@) by {
        assert(extends(g1.values@[y].fields@, g2.values@[y].fields@));
        assert(extends(g2.values@[y].fields@, g3.values@[y].fields@));
    }
    assert forall|y: int| 0 <= y < g1.len() implies #[trigger] g3.values@[y].same_header(g1.values@[y]) by {
        assert(g2.values@[y].same_header(g1.values@[y]));
        assert(g3.values@[y].same_header(g2.values@[y]));
    }
    assert forall|y: int| 0 <= y < g1.len() implies #[trigger] g3.values@[y].alias == g1.values@[y].alias by {
        assert(g2.values@[y].alias == g1.values@[y].alias);
        assert(g3.values@[y].alias == g2.values@[y].alias);
    }
}

/// Walking `lp` from `ls` (taking `g` to `ga`) then `rp` from `rs`
/// (taking `ga` to `g1`) adds only the nodes of the two walks.
pub proof fn lemma_added_by_walks(g: &ValueGraph, ga: &ValueGraph, g1: &ValueGraph, ls: int, lp: Seq<usize>, rs: int, rp: Seq<usize>)
    requires
        g.wf(),
        0 <= ls < g.len(),
        ga.grows_from(g),
        g1.grows_from(ga),
        forall|y: int| g.len() <= y < ga.len() ==> #[trigger] on_walk(ga, ls, lp, false, lp.len() as int, y),
        forall|y: int| ga.len() <= y < g1.len() ==> #[trigger] on_walk(g1, rs, rp, true, rp.len() as int, y),
    ensures
        forall|y: int| g.len() <= y < g1.len() ==> #[trigger] added_by_walk(g1, ls, lp, rs, rp, y),
{
    assert forall|y: int| g.len() <= y < g1.len() implies #[trigger] added_by_walk(g1, ls, lp, rs, rp, y) by {
        if y < ga.len() {
            assert(on_walk(ga, ls, lp, false, lp.len() as int, y));
            let m = choose|m: int| 0 < m <= lp.len() && #[trigger] ga.path_end(ls, lp.take(m), false) == Some(y);
            lemma_path_end_stable(ga, g1, ls, lp.take(m), false);
            assert(g1.path_end(ls, lp.take(m), false) == Some(y));
        } else {
            assert(on_walk(g1, rs, rp, true, rp.len() as int, y));
        }
    }
}

/// The node `y` of `g1` ends a prefix of the walk of `lp` from `ls` or of
/// `rp` from `rs` (following assignments).
pub open spec fn added_by_walk(g1: &ValueGraph, ls: int, lp: Seq<usize>, rs: int, rp: Seq<usize>, y: int) -> bool {
    on_walk(g1, ls, lp, false, lp.len() as int, y) || on_walk(g1, rs, rp, true, rp.len() as int, y)
}

/// A path that reaches a node keeps reaching it as the graph grows.
pub proof fn lemma_path_end_stable(g1: &ValueGraph, g2: &ValueGraph, start: int, path: Seq<usize>, follow: bool)
    requires
        g1.wf(),
        g2.grows_from(g1),
        0 <= start < g1.len(),
        g1.path_end(start, path, follow) is Some,
    ensures
        g2.path_end(start, path, follow) == g1.path_end(start, path, follow),
        0 <= g1.path_end(start, path, follow)->0 < g1.len(),
    decreases path.len(),
{
    if path.len() > 0 {
        lemma_path_end_stable(g1, g2, start, path.drop_last(), follow);
        let x = g1.path_end(start, path.drop_last(), follow)->0;
        assert(g1.node_wf(x));
        assert(g2.values@[x].alias == g1.values@[x].alias);
        let y = if follow { g1.redirect(x) } else { x };
        assert(g1.node_wf(y));
        assert(extends(g1.values@[y].fields@, g2.values@[y].fields@));
        lemma_field_stable(g1, g2, y, path.last());
        let j = choose|j: int| 0 <= j < g1.values@[y].fields@.len() && g1.values@[y].fields@[j].0 == path.last();
        assert(g1.values@[y].fields@[j].1 < g1.len());
    }
}

/// The node `y` is where one of the first `n` prefixes (not empty) of the
/// field path `path` from `start` leads in `g`.
pub open spec fn on_walk(g: &ValueGraph, start: int, path: Seq<usize>, follow: bool, n: int, y: int) -> bool {
    exists|m: int| 0 < m <= n && #[trigger] g.path_end(start, path.take(m), follow) == Some(y)
}

impl ValueGraph {
    /// Follows the fields `path` from `start` (moving first to the node the
    /// current one was assigned from, with `follow`), adding each missing
    /// field as a new raw-pointer node; returns the node reached.
    /// The new nodes take the drop flags given, the birth of the node they
    /// hang under (with `inherit_birth`, else 0), and as their local the
    /// given one, or with `follow` the local of the last node moved to.
    pub fn walk_fields(
        &mut self,
        start: usize,
        path: &Vec<usize>,
        local: usize,
        need_drop: bool,
        may_drop: bool,
        inherit_birth: bool,
        follow: bool,
    ) -> (end: usize)
        requires
            old(self).wf(),
            start < old(self).len(),
            local < old(self).len(),
        ensures
            final(self).grows_from(old(self)),
            end < final(self).len(),
            final(self).path_end(start as int, path@, follow) == Some(end as int),
            forall|y: int| old(self).len() <= y < final(self).len() ==> (#[trigger] final(self).values@[y]).kind == TyKind::RawPtr
                && final(self).values@[y].need_drop == need_drop && final(self).values@[y].may_drop == may_drop,
            forall|y: int| old(self).len() <= y < final(self).len() ==> #[trigger] on_walk(final(self), start as int, path@, follow, path@.len() as int, y),
    {
        let ghost g0 = *self;
        let mut cur = start;
        let mut local = local;
        let mut i: usize = 0;
        assert(path@.take(0) =~= Seq::<usize>::empty());
        while i < path.len()
            invariant
                g0.wf(),
                start < g0.len(),
                i <= path@.len(),
                self.grows_from(&g0),
                cur < self.len(),
                local < self.len(),
                self.path_end(start as int, path@.take(i as int), follow) == Some(cur as int),
                forall|y: int| g0.len() <= y < self.len() ==> (#[trigger] self.values@[y]).kind == TyKind::RawPtr
                    && self.values@[y].need_drop == need_drop && self.values@[y].may_drop == may_drop,
                forall|y: int| g0.len() <= y < self.len() ==> #[trigger] on_walk(self, start as int, path@, follow, i as int, y),
            decreases path@.len() - i,
        {
            let ghost g1 = *self;
            let k = path[i];
            assert(self.node_wf(cur as int));
            if follow {
                let a = self.values[cur].alias[0];
                if a != cur {
                    cur = a;
                    assert(self.node_wf(cur as int));
                    local = self.values[cur].local;
                }
            }
            assert(cur as int == if follow { g1.redirect(g1.path_end(start as int, path@.take(i as int), follow)->0) } else { g1.path_end(start as int, path@.take(i as int), follow)->0 });
            let f = match self.field_get(cur, k) {
                Some(f) => f,
                None => {
                    let birth = if inherit_birth { self.values[cur].birth } else { 0 };
                    let n = self.push_field_node(cur, k, local, need_drop, may_drop, TyKind::RawPtr, birth);
                    proof {
                        let fs = self.values@[cur as int].fields@;
                        assert(fs[fs.len() - 1] == (k, n));
                        assert(exists|j: int| 0 <= j < fs.len() && fs[j].0 == k);
                        let j = choose|j: int| 0 <= j < fs.len() && fs[j].0 == k;
                        assert(self.node_wf(cur as int));
                        if j != fs.len() - 1 {
                            assert(fs[j] == g1.values@[cur as int].fields@[j]);
                        }
                    }
                    n
                },
            };
            proof {
                let g2 = *self;
                assert(g2.values@[cur as int].field(k) == Some(f));
                assert(g2.grows_from(&g1)) by {
                    assert forall|y: int| 0 <= y < g1.len() implies extends(g1.values@[y].fields@, #[trigger] g2.values@[y].fields@) by {
                        if y == cur as int {
                        } else {
                        }
                    }
                }
                lemma_grows_trans(&g0, &g1, &g2);
                lemma_path_end_stable(&g1, &g2, start as int, path@.take(i as int), follow);
                assert(path@.take(i + 1).drop_last() =~= path@.take(i as int));
                assert(path@.take(i + 1).last() == k);
                assert(self.node_wf(cur as int));
                let j = choose|j: int| 0 <= j < g2.values@[cur as int].fields@.len() && g2.values@[cur as int].fields@[j].0 == k;
                assert(g2.values@[cur as int].fields@[j].1 < g2.len());
                assert(g2.path_end(start as int, path@.take(i + 1), follow) == Some(f as int));
                assert forall|y: int| g0.len() <= y < g2.len() implies #[trigger] on_walk(&g2, start as int, path@, follow, i + 1, y) by {
                    if y < g1.len() {
                        assert(on_walk(&g1, start as int, path@, follow, i as int, y));
                        let m = choose|m: int| 0 < m <= i && #[trigger] g1.path_end(start as int, path@.take(m), follow) == Some(y);
                        lemma_path_end_stable(&g1, &g2, start as int, path@.take(m), follow);
                        assert(g2.path_end(start as int, path@.take(m), follow) == Some(y));
                    } else {
                        assert(y == f as int);
                    }
                }
            }
            cur = f;
            i = i + 1;
        }
        assert(path@.take(path@.len() as int) =~= path@);
        cur
    }
}

impl ValueGraph {
    /// `new` is `old` after the alias information of `rv` was merged into
    /// `lv`: the old nodes keep their headers and extend their fields, only
    /// nodes in the subtree of `lv` change, the new nodes lie below `lv`,
    /// the alias list of `lv` is merged with that of `rv`, `lv` has every
    /// field that `rv` had, along every field path from `rv` the node below
    /// `lv` is merged with the one below `rv` (see `paths_merged`), and the
    /// new nodes are exactly those that end such paths (see `new_on_paths`).
    pub open spec fn merged_into(old: &ValueGraph, new: &ValueGraph, lv: int, rv: int) -> bool {
        &&& new.wf()
        &&& new.len() >= old.len()
        &&& forall|y: int| 0 <= y < old.len() ==> #[trigger] new.values@[y].same_header(old.values@[y])
        &&& forall|y: int| 0 <= y < old.len() ==> extends(old.values@[y].fields@, #[trigger] new.values@[y].fields@)
        &&& forall|y: int| 0 <= y < old.len() && !old.in_subtree(lv, y) ==> #[trigger] new.values@[y] == old.values@[y]
        &&& forall|y: int| old.len() <= y < new.len() ==> #[trigger] new.is_anc(lv, y)
        &&& new.values@[lv].alias@ == ValueGraph::merged_alias(old.values@[lv].alias@, old.values@[rv].alias@)
        &&& forall|j: int| 0 <= j < old.values@[rv].fields@.len() ==> #[trigger] new.values@[lv].field(old.values@[rv].fields@[j].0) is Some
        &&& paths_merged(old, new, lv, rv)
        &&& new_on_paths(old, new, lv, rv)
    }
}

/// The field lists of a graph's nodes.
pub open spec fn field_lists(vs: Seq<ValueNode>) -> Seq<Seq<(usize, usize)>> {
    vs.map_values(|n: ValueNode| n.fields@)
}

/// `y` is `x` or lies below it through recorded fields (each field node
/// coming after its owner).
pub open spec fn fdesc(fl: Seq<Seq<(usize, usize)>>, x: int, y: int) -> bool
    decreases fl.len() - x,
{
    if 0 <= x < fl.len() {
        y == x || exists|j: int|
            0 <= j < fl[x].len() && x < fl[x][j].1 < fl.len() && fdesc(fl, fl[x][j].1 as int, y)
    } else {
        false
    }
}

/// One unfolding of `fdesc`.
proof fn lemma_fdesc_def(fl: Seq<Seq<(usize, usize)>>, x: int, y: int)
    ensures
        fdesc(fl, x, y) == (0 <= x < fl.len() && (y == x || exists|j: int|
            0 <= j < fl[x].len() && x < fl[x][j].1 < fl.len() && #[trigger] fdesc(fl, fl[x][j].1 as int, y))),
{
    reveal_with_fuel(fdesc, 2);
    if 0 <= x < fl.len() {
        assert(fdesc(fl, x, y) == (y == x || exists|j: int|
            0 <= j < fl[x].len() && x < fl[x][j].1 < fl.len() && fdesc(fl, fl[x][j].1 as int, y)));
    }
}

/// `y` is one of the first `n` entries of `s`.
pub open spec fn in_prefix(s: Seq<usize>, n: int, y: int) -> bool {
    exists|t: int| 0 <= t < n && #[trigger] s[t] as int == y
}

/// `y` is on the alias list of some node of the field tree of `root`.
pub open spec fn aliased_below(vs: Seq<ValueNode>, root: int, y: int) -> bool {
    exists|x: int| #[trigger] fdesc(field_lists(vs), root, x) && 0 <= x < vs.len() && in_prefix(vs[x].alias@, vs[x].alias@.len() as int, y)
}

/// `new` is `old` with births filled from `root` with `birth`: the nodes of
/// the field tree of `root` take `birth`, and so do the nodes on their alias
/// lists that were dead; nothing else changes.
pub open spec fn birth_filled(old: Seq<ValueNode>, new: Seq<ValueNode>, root: int, birth: isize) -> bool {
    &&& new.len() == old.len()
    &&& forall|y: int| 0 <= y < old.len() ==> {
        &&& (#[trigger] new[y]).index == old[y].index
        &&& new[y].local == old[y].local
        &&& new[y].need_drop == old[y].need_drop
        &&& new[y].may_drop == old[y].may_drop
        &&& new[y].kind == old[y].kind
        &&& new[y].father == old[y].father
        &&& new[y].field_id == old[y].field_id
        &&& new[y].parent == old[y].parent
        &&& new[y].alias == old[y].alias
        &&& new[y].fields == old[y].fields
        &&& new[y].birth == if fdesc(field_lists(old), root, y) || (aliased_below(old, root, y) && old[y].birth == -1) {
            birth
        } else {
            old[y].birth
        }
    }
}

/// `new` is `old` with only births changed: the nodes in `in_s` take
/// `birth`, and so do the dead nodes in `in_a`.
pub open spec fn filled_by(
    old: Seq<ValueNode>,
    new: Seq<ValueNode>,
    in_s: spec_fn(int) -> bool,
    in_a: spec_fn(int) -> bool,
    birth: isize,
) -> bool {
    &&& new.len() == old.len()
    &&& forall|y: int| 0 <= y < old.len() ==> {
        &&& (#[trigger] new[y]).index == old[y].index
        &&& new[y].local == old[y].local
        &&& new[y].need_drop == old[y].need_drop
        &&& new[y].may_drop == old[y].may_drop
        &&& new[y].kind == old[y].kind
        &&& new[y].father == old[y].father
        &&& new[y].field_id == old[y].field_id
        &&& new[y].parent == old[y].parent
        &&& new[y].alias == old[y].alias
        &&& new[y].fields == old[y].fields
        &&& new[y].birth == if in_s(y) || (in_a(y) && old[y].birth == -1) {
            birth
        } else {
            old[y].birth
        }
    }
}

proof fn lemma_filled_compose(
    s0: Seq<ValueNode>,
    s1: Seq<ValueNode>,
    s2: Seq<ValueNode>,
    s_1: spec_fn(int) -> bool,
    a_1: spec_fn(int) -> bool,
    s_2: spec_fn(int) -> bool,
    a_2: spec_fn(int) -> bool,
    birth: isize,
)
    requires
        filled_by(s0, s1, s_1, a_1, birth),
        filled_by(s1, s2, s_2, a_2, birth),
    ensures
        filled_by(s0, s2, |y: int| s_1(y) || s_2(y), |y: int| a_1(y) || a_2(y), birth),
{
    assert forall|y: int| 0 <= y < s0.len() implies (#[trigger] s2[y]).birth == if (s_1(y) || s_2(y)) || ((a_1(y) || a_2(y)) && s0[y].birth == -1) {
        birth
    } else {
        s0[y].birth
    } by {
        assert(s1[y].birth == if s_1(y) || (a_1(y) && s0[y].birth == -1) { birth } else { s0[y].birth });
        assert(s2[y].birth == if s_2(y) || (a_2(y) && s1[y].birth == -1) { birth } else { s1[y].birth });
    }
    assert forall|y: int| 0 <= y < s0.len() implies (#[trigger] s2[y]).fields == s0[y].fields && s2[y].alias == s0[y].alias by {
        assert(s1[y].fields == s0[y].fields);
        assert(s2[y].fields == s1[y].fields);
    }
}

/// Changing births alone keeps a graph well formed and its field lists.
proof fn lemma_births_keep_shape(g1: &ValueGraph, g2: &ValueGraph, s_1: spec_fn(int) -> bool, a_1: spec_fn(int) -> bool, birth: isize)
    requires
        g1.wf(),
        filled_by(g1.values@, g2.values@, s_1, a_1, birth),
    ensures
        g2.wf(),
        field_lists(g2.values@) == field_lists(g1.values@),
{
    assert forall|i: int| 0 <= i < g2.len() implies #[trigger] g2.node_wf(i) by {
        assert(g1.node_wf(i));
        assert(g2.values@[i].fields == g1.values@[i].fields);
        let n = g2.values@[i];
        assert forall|j: int| 0 <= j < n.fields@.len() implies {
            &&& i < #[trigger] n.fields@[j].1 < g2.len()
            &&& g2.values@[n.fields@[j].1 as int].parent == i
        } by {
            let c = n.fields@[j].1 as int;
            assert(g2.values@[c].parent == g1.values@[c].parent);
        }
    }
    assert(field_lists(g2.values@) =~= field_lists(g1.values@));
}

/// The field tree of a well-formed node is the node and the field trees of
/// its fields; its aliased nodes are its own aliases and those below its
/// fields.
proof fn lemma_fdesc_unfold(g: &ValueGraph, node: int, y: int)
    requires
        g.wf(),
        0 <= node < g.len(),
    ensures
        fdesc(field_lists(g.values@), node, y) == (y == node || exists|j: int|
            0 <= j < g.values@[node].fields@.len() && #[trigger] fdesc(field_lists(g.values@), g.values@[node].fields@[j].1 as int, y)),
        aliased_below(g.values@, node, y) == (in_prefix(g.values@[node].alias@, g.values@[node].alias@.len() as int, y) || exists|j: int|
            0 <= j < g.values@[node].fields@.len() && #[trigger] aliased_below(g.values@, g.values@[node].fields@[j].1 as int, y)),
{
    let fl = field_lists(g.values@);
    lemma_fdesc_def(fl, node, y);
    assert(g.node_wf(node));
    assert(fl[node] == g.values@[node].fields@);
    assert(fl.len() == g.len());
    if aliased_below(g.values@, node, y) {
        let x = choose|x: int| #[trigger] fdesc(fl, node, x) && 0 <= x < g.values@.len() && in_prefix(g.values@[x].alias@, g.values@[x].alias@.len() as int, y);
        lemma_fdesc_def(fl, node, x);
        if x != node {
            let j = choose|j: int| 0 <= j < fl[node].len() && node < fl[node][j].1 < fl.len() && #[trigger] fdesc(fl, fl[node][j].1 as int, x);
            let c = g.values@[node].fields@[j].1 as int;
            assert(fl[node][j] == g.values@[node].fields@[j]);
            assert(fdesc(fl, c, x));
            assert(fdesc(field_lists(g.values@), c, x) && 0 <= x < g.values@.len() && in_prefix(g.values@[x].alias@, g.values@[x].alias@.len() as int, y));
            assert(aliased_below(g.values@, c, y));
        } else {
        }
    }
    if in_prefix(g.values@[node].alias@, g.values@[node].alias@.len() as int, y) {
        lemma_fdesc_def(fl, node, node);
        assert(fdesc(fl, node, node));
    }
    if exists|j: int| 0 <= j < g.values@[node].fields@.len() && #[trigger] aliased_below(g.values@, g.values@[node].fields@[j].1 as int, y) {
        let j = choose|j: int| 0 <= j < g.values@[node].fields@.len() && #[trigger] aliased_below(g.values@, g.values@[node].fields@[j].1 as int, y);
        let c = g.values@[node].fields@[j].1 as int;
        let x = choose|x: int| #[trigger] fdesc(fl, c, x) && 0 <= x < g.values@.len() && in_prefix(g.values@[x].alias@, g.values@[x].alias@.len() as int, y);
        assert(fl[node][j] == g.values@[node].fields@[j]);
        assert(node < fl[node][j].1 < fl.len());
        assert(fdesc(fl, fl[node][j].1 as int, x));
        lemma_fdesc_def(fl, node, x);
        assert(fdesc(fl, node, x));
    }
}

/// A trigger for statements about one node index.
spec fn at_node(y: int) -> bool {
    true
}

/// Equivalent sets give the same filling.
proof fn lemma_filled_equiv(
    s0: Seq<ValueNode>,
    s1: Seq<ValueNode>,
    s_1: spec_fn(int) -> bool,
    a_1: spec_fn(int) -> bool,
    s_2: spec_fn(int) -> bool,
    a_2: spec_fn(int) -> bool,
    birth: isize,
)
    requires
        filled_by(s0, s1, s_1, a_1, birth),
        forall|y: int| #[trigger] at_node(y) && 0 <= y < s0.len() ==> s_1(y) == s_2(y) && a_1(y) == a_2(y),
    ensures
        filled_by(s0, s1, s_2, a_2, birth),
{
    assert forall|y: int| 0 <= y < s0.len() implies (#[trigger] s1[y]).birth == if s_2(y) || (a_2(y) && s0[y].birth == -1) {
        birth
    } else {
        s0[y].birth
    } by {
        assert(at_node(y));
    }
}

/// Whether a node is aliased below a root depends only on field and alias lists.
proof fn lemma_aliased_below_same(vs1: Seq<ValueNode>, vs2: Seq<ValueNode>, root: int, y: int)
    requires
        vs1.len() == vs2.len(),
        field_lists(vs1) == field_lists(vs2),
        forall|x: int| 0 <= x < vs1.len() ==> #[trigger] vs1[x].alias == vs2[x].alias,
    ensures
        aliased_below(vs1, root, y) == aliased_below(vs2, root, y),
{
    if aliased_below(vs1, root, y) {
        let x = choose|x: int| #[trigger] fdesc(field_lists(vs1), root, x) && 0 <= x < vs1.len() && in_prefix(vs1[x].alias@, vs1[x].alias@.len() as int, y);
        assert(vs1[x].alias == vs2[x].alias);
        assert(fdesc(field_lists(vs2), root, x));
    }
    if aliased_below(vs2, root, y) {
        let x = choose|x: int| #[trigger] fdesc(field_lists(vs2), root, x) && 0 <= x < vs2.len() && in_prefix(vs2[x].alias@, vs2[x].alias@.len() as int, y);
        assert(vs1[x].alias == vs2[x].alias);
        assert(fdesc(field_lists(vs1), root, x));
    }
}

impl ValueGraph {
    /// Gives `birth` to `node` and to every node below it through fields,
    /// and to the dead nodes that any of them aliases.
    pub fn fill_birth(&mut self, node: usize, birth: isize)
        requires
            old(self).wf(),
            node < old(self).len(),
        ensures
            final(self).wf(),
            birth_filled(old(self).values@, final(self).values@, node as int, birth),
        decreases old(self).len() - node,
    {
        let ghost g0 = *self;
        let ghost fl = field_lists(g0.values@);
        self.values[node].birth = birth;
        let alias = self.values[node].alias.clone();
        assert(alias@ =~= g0.values@[node as int].alias@);
        let ghost s_node = |y: int| y == node as int;
        let mut i: usize = 0;
        proof {
            lemma_filled_equiv(g0.values@, self.values@, s_node, |y: int| false, s_node, |y: int| in_prefix(alias@, 0, y), birth);
        }
        while i < alias.len()
            invariant
                g0.wf(),
                node < g0.len(),
                alias@ == g0.values@[node as int].alias@,
                i <= alias@.len(),
                filled_by(g0.values@, self.values@, s_node, |y: int| in_prefix(alias@, i as int, y), birth),
            decreases alias@.len() - i,
        {
            let a = alias[i];
            let ghost s1 = self.values@;
            proof {
                assert(g0.node_wf(node as int));
                assert(alias@[i as int] < g0.len());
            }
            if self.values[a].birth == -1 {
                self.values[a].birth = birth;
            }
            proof {
                let ghost one = |y: int| y == a as int;
                assert(filled_by(s1, self.values@, |y: int| false, one, birth));
                lemma_filled_compose(g0.values@, s1, self.values@, s_node, |y: int| in_prefix(alias@, i as int, y), |y: int| false, one, birth);
                assert forall|y: int| #[trigger] at_node(y) && 0 <= y < g0.len() implies in_prefix(alias@, i + 1, y) == (in_prefix(alias@, i as int, y) || y == a as int) by {
                    if y == a as int {
                        assert(alias@[i as int] as int == y);
                    }
                    if in_prefix(alias@, i + 1, y) {
                        let t = choose|t: int| 0 <= t < i + 1 && #[trigger] alias@[t] as int == y;
                        if t < i {
                            assert(in_prefix(alias@, i as int, y));
                        }
                    }
                }
                lemma_filled_equiv(
                    g0.values@,
                    self.values@,
                    |y: int| s_node(y) || false,
                    |y: int| in_prefix(alias@, i as int, y) || one(y),
                    s_node,
                    |y: int| in_prefix(alias@, i + 1, y),
                    birth,
                );
            }
            i = i + 1;
        }
        let ghost g1 = *self;
        proof {
            lemma_births_keep_shape(&g0, &g1, s_node, |y: int| in_prefix(alias@, alias@.len() as int, y), birth);
            lemma_filled_equiv(
                g0.values@,
                self.values@,
                s_node,
                |y: int| in_prefix(alias@, alias@.len() as int, y),
                |y: int| y == node as int || exists|t: int| 0 <= t < 0 && #[trigger] fdesc(fl, g0.values@[node as int].fields@[t].1 as int, y),
                |y: int| in_prefix(alias@, alias@.len() as int, y) || exists|t: int| 0 <= t < 0 && #[trigger] aliased_below(g0.values@, g0.values@[node as int].fields@[t].1 as int, y),
                birth,
            );
        }
        let fields = copy_pairs(&self.values[node].fields);
        assert(fields@ == g0.values@[node as int].fields@);
        let mut j: usize = 0;
        while j < fields.len()
            invariant
                g0 == *old(self),
                g0.wf(),
                node < g0.len(),
                fl == field_lists(g0.values@),
                fields@ == g0.values@[node as int].fields@,
                alias@ == g0.values@[node as int].alias@,
                j <= fields@.len(),
                self.wf(),
                self.len() == g0.len(),
                field_lists(self.values@) == fl,
                forall|y: int| 0 <= y < g0.len() ==> #[trigger] self.values@[y].alias == g0.values@[y].alias,
                filled_by(
                    g0.values@,
                    self.values@,
                    |y: int| y == node as int || exists|t: int| 0 <= t < j && #[trigger] fdesc(fl, fields@[t].1 as int, y),
                    |y: int| in_prefix(alias@, alias@.len() as int, y) || exists|t: int| 0 <= t < j && #[trigger] aliased_below(g0.values@, fields@[t].1 as int, y),
                    birth,
                ),
            decreases fields@.len() - j,
        {
            let ghost ga = *self;
            let c = fields[j].1;
            proof {
                assert(g0.node_wf(node as int));
                assert(node < c < g0.len());
            }
            self.fill_birth(c, birth);
            let ghost gb = *self;
            proof {
                let cs = |y: int| fdesc(field_lists(ga.values@), c as int, y);
                let ca = |y: int| aliased_below(ga.values@, c as int, y);
                assert(filled_by(ga.values@, gb.values@, cs, ca, birth));
                lemma_births_keep_shape(&ga, &gb, cs, ca, birth);
                let prev_s = |y: int| y == node as int || exists|t: int| 0 <= t < j && #[trigger] fdesc(fl, fields@[t].1 as int, y);
                let prev_a = |y: int| in_prefix(alias@, alias@.len() as int, y) || exists|t: int| 0 <= t < j && #[trigger] aliased_below(g0.values@, fields@[t].1 as int, y);
                lemma_filled_compose(g0.values@, ga.values@, gb.values@, prev_s, prev_a, cs, ca, birth);
                assert forall|y: int| #[trigger] at_node(y) && 0 <= y < g0.len() implies (prev_s(y) || cs(y)) == (y == node as int || exists|t: int| 0 <= t < j + 1 && #[trigger] fdesc(fl, fields@[t].1 as int, y))
                    && (prev_a(y) || ca(y)) == (in_prefix(alias@, alias@.len() as int, y) || exists|t: int| 0 <= t < j + 1 && #[trigger] aliased_below(g0.values@, fields@[t].1 as int, y)) by {
                    lemma_aliased_below_same(ga.values@, g0.values@, c as int, y);
                    if exists|t: int| 0 <= t < j + 1 && #[trigger] fdesc(fl, fields@[t].1 as int, y) {
                        let t = choose|t: int| 0 <= t < j + 1 && #[trigger] fdesc(fl, fields@[t].1 as int, y);
                        if t < j {
                            assert(prev_s(y));
                        }
                    }
                    if exists|t: int| 0 <= t < j + 1 && #[trigger] aliased_below(g0.values@, fields@[t].1 as int, y) {
                        let t = choose|t: int| 0 <= t < j + 1 && #[trigger] aliased_below(g0.values@, fields@[t].1 as int, y);
                        if t < j {
                            assert(prev_a(y));
                        }
                    }
                    if cs(y) {
                        assert(fdesc(fl, fields@[j as int].1 as int, y));
                    }
                    if ca(y) {
                        assert(aliased_below(g0.values@, fields@[j as int].1 as int, y));
                    }
                }
                lemma_filled_equiv(
                    g0.values@,
                    gb.values@,
                    |y: int| prev_s(y) || cs(y),
                    |y: int| prev_a(y) || ca(y),
                    |y: int| y == node as int || exists|t: int| 0 <= t < j + 1 && #[trigger] fdesc(fl, fields@[t].1 as int, y),
                    |y: int| in_prefix(alias@, alias@.len() as int, y) || exists|t: int| 0 <= t < j + 1 && #[trigger] aliased_below(g0.values@, fields@[t].1 as int, y),
                    birth,
                );
                assert forall|y: int| 0 <= y < g0.len() implies #[trigger] gb.values@[y].alias == g0.values@[y].alias by {
                    assert(gb.values@[y].alias == ga.values@[y].alias);
                }
            }
            j = j + 1;
        }
        proof {
            assert forall|y: int| #[trigger] at_node(y) && 0 <= y < g0.len() implies
                (y == node as int || exists|t: int| 0 <= t < fields@.len() && #[trigger] fdesc(fl, fields@[t].1 as int, y)) == fdesc(fl, node as int, y)
                && (in_prefix(alias@, alias@.len() as int, y) || exists|t: int| 0 <= t < fields@.len() && #[trigger] aliased_below(g0.values@, fields@[t].1 as int, y)) == aliased_below(g0.values@, node as int, y) by {
                lemma_fdesc_unfold(&g0, node as int, y);
            }
            lemma_filled_equiv(
                g0.values@,
                self.values@,
                |y: int| y == node as int || exists|t: int| 0 <= t < fields@.len() && #[trigger] fdesc(fl, fields@[t].1 as int, y),
                |y: int| in_prefix(alias@, alias@.len() as int, y) || exists|t: int| 0 <= t < fields@.len() && #[trigger] aliased_below(g0.values@, fields@[t].1 as int, y),
                |y: int| fdesc(fl, node as int, y),
                |y: int| aliased_below(g0.values@, node as int, y),
                birth,
            );
        }
    }
}
impl ValueGraph {
    /// The node a place stands for, reached from `start` through the steps
    /// `elems`, when every field step finds its field: a deref moves to the
    /// node last assigned, a field step (on the right of an assignment,
    /// first moving to the node last assigned) takes the field's node, and
    /// other steps stay.
    pub open spec fn proj_end(&self, start: int, elems: Seq<PlaceElem>, is_right: bool) -> Option<int>
        decreases elems.len(),
    {
        if elems.len() == 0 {
            Some(start)
        } else {
            match self.proj_end(start, elems.drop_last(), is_right) {
                Some(x) => match elems.last() {
                    PlaceElem::Deref => Some(self.values@[x].alias@[0] as int),
                    PlaceElem::Field(f, _) => {
                        let y = if is_right { self.redirect(x) } else { x };
                        match self.values@[y].field(f) {
                            Some(c) => Some(c as int),
                            None => None,
                        }
                    },
                    PlaceElem::Other => Some(x),
                },
                None => None,
            }
        }
    }
}

/// The node `y` is where one of the first `n` prefixes (not empty) of the
/// projection `elems` from `start` leads in `g`.
pub open spec fn on_projection(g: &ValueGraph, start: int, elems: Seq<PlaceElem>, is_right: bool, n: int, y: int) -> bool {
    exists|m: int| 0 < m <= n && #[trigger] g.proj_end(start, elems.take(m), is_right) == Some(y)
}

/// The nodes `g1` adds to `g` are those that finding the places `lp` (on
/// the left) and `rp` (on the right) adds: each ends a prefix of one of
/// the two projections.
pub open spec fn added_by_places(g: &ValueGraph, g1: &ValueGraph, lp: Place, rp: Place) -> bool {
    forall|y: int| g.len() <= y < g1.len() ==> #[trigger] added_by_place(g1, lp, rp, y)
}

/// The node `y` ends a prefix of the projection of `lp` (on the left) or
/// of `rp` (on the right) in `g1`.
pub open spec fn added_by_place(g1: &ValueGraph, lp: Place, rp: Place, y: int) -> bool {
    on_projection(g1, lp.local as int, lp.projection@, false, lp.projection@.len() as int, y)
        || on_projection(g1, rp.local as int, rp.projection@, true, rp.projection@.len() as int, y)
}

/// Finding `lp` (taking `g` to `ga`) then `rp` (taking `ga` to `g1`) adds
/// only the nodes of the two projections.
pub proof fn lemma_added_by_places(g: &ValueGraph, ga: &ValueGraph, g1: &ValueGraph, lp: Place, rp: Place)
    requires
        g.wf(),
        lp.local < g.len(),
        ga.grows_from(g),
        g1.grows_from(ga),
        forall|y: int| g.len() <= y < ga.len() ==> #[trigger] on_projection(ga, lp.local as int, lp.projection@, false, lp.projection@.len() as int, y),
        forall|y: int| ga.len() <= y < g1.len() ==> #[trigger] on_projection(g1, rp.local as int, rp.projection@, true, rp.projection@.len() as int, y),
    ensures
        added_by_places(g, g1, lp, rp),
{
    assert forall|y: int| g.len() <= y < g1.len() implies #[trigger] added_by_place(g1, lp, rp, y) by {
        if y < ga.len() {
            assert(on_projection(ga, lp.local as int, lp.projection@, false, lp.projection@.len() as int, y));
            let m = choose|m: int| 0 < m <= lp.projection@.len() && #[trigger] ga.proj_end(lp.local as int, lp.projection@.take(m), false) == Some(y);
            lemma_proj_end_stable(ga, g1, lp.local as int, lp.projection@.take(m), false);
            assert(g1.proj_end(lp.local as int, lp.projection@.take(m), false) == Some(y));
        } else {
            assert(on_projection(g1, rp.local as int, rp.projection@, true, rp.projection@.len() as int, y));
        }
    }
}

/// A node that ends a prefix of a projection keeps ending it as the graph
/// grows.
pub proof fn lemma_on_projection_stable(g1: &ValueGraph, g2: &ValueGraph, start: int, elems: Seq<PlaceElem>, is_right: bool, n: int, y: int)
    requires
        g1.wf(),
        g2.grows_from(g1),
        0 <= start < g1.len(),
        on_projection(g1, start, elems, is_right, n, y),
    ensures
        on_projection(g2, start, elems, is_right, n, y),
{
    let m = choose|m: int| 0 < m <= n && #[trigger] g1.proj_end(start, elems.take(m), is_right) == Some(y);
    lemma_proj_end_stable(g1, g2, start, elems.take(m), is_right);
    assert(g2.proj_end(start, elems.take(m), is_right) == Some(y));
}

/// A projection that reaches a node keeps reaching it as the graph grows.
pub proof fn lemma_proj_end_stable(g1: &ValueGraph, g2: &ValueGraph, start: int, elems: Seq<PlaceElem>, is_right: bool)
    requires
        g1.wf(),
        g2.grows_from(g1),
        0 <= start < g1.len(),
        g1.proj_end(start, elems, is_right) is Some,
    ensures
        g2.proj_end(start, elems, is_right) == g1.proj_end(start, elems, is_right),
        0 <= g1.proj_end(start, elems, is_right)->0 < g1.len(),
    decreases elems.len(),
{
    if elems.len() > 0 {
        lemma_proj_end_stable(g1, g2, start, elems.drop_last(), is_right);
        let x = g1.proj_end(start, elems.drop_last(), is_right)->0;
        assert(g1.node_wf(x));
        assert(g2.values@[x].alias == g1.values@[x].alias);
        match elems.last() {
            PlaceElem::Deref => {
                assert(g1.values@[x].alias@[0] < g1.len());
            },
            PlaceElem::Field(f, _) => {
                let y = if is_right { g1.redirect(x) } else { x };
                assert(g1.node_wf(y));
                assert(extends(g1.values@[y].fields@, g2.values@[y].fields@));
                lemma_field_stable(g1, g2, y, f);
                let j = choose|j: int| 0 <= j < g1.values@[y].fields@.len() && g1.values@[y].fields@[j].0 == f;
                assert(g1.values@[y].fields@[j].1 < g1.len());
            },
            PlaceElem::Other => {},
        }
    }
}

impl ValueGraph {
    /// The node for `place`, adding the fields it goes through that are
    /// missing (with the drop flags and kind of their types, and, with
    /// `inherit_birth`, the birth of the node they hang under).
    pub fn projection(&mut self, is_right: bool, place: &Place, inherit_birth: bool) -> (res: usize)
        requires
            old(self).wf(),
            place.local < old(self).len(),
        ensures
            final(self).grows_from(old(self)),
            res < final(self).len(),
            final(self).proj_end(place.local as int, place.projection@, is_right) == Some(res as int),
            forall|y: int| old(self).len() <= y < final(self).len() ==> #[trigger] on_projection(final(self), place.local as int, place.projection@, is_right, place.projection@.len() as int, y),
    {
        let ghost g0 = *self;
        let mut local = place.local;
        let mut proj_id = place.local;
        let elems = &place.projection;
        let mut i: usize = 0;
        assert(elems@.take(0) =~= Seq::<PlaceElem>::empty());
        while i < elems.len()
            invariant
                g0.wf(),
                place.local < g0.len(),
                elems == place.projection,
                i <= elems@.len(),
                self.grows_from(&g0),
                proj_id < self.len(),
                local < self.len(),
                self.proj_end(place.local as int, elems@.take(i as int), is_right) == Some(proj_id as int),
                forall|y: int| g0.len() <= y < self.len() ==> #[trigger] on_projection(self, place.local as int, elems@, is_right, i as int, y),
            decreases elems@.len() - i,
        {
            let ghost g1 = *self;
            proof {
                assert(elems@.take(i + 1).drop_last() =~= elems@.take(i as int));
                assert(elems@.take(i + 1).last() == elems@[i as int]);
            }
            assert(self.node_wf(proj_id as int));
            match elems[i] {
                PlaceElem::Deref => {
                    proj_id = self.values[proj_id].alias[0];
                },
                PlaceElem::Field(field_idx, info) => {
                    if is_right && self.values[proj_id].alias[0] != proj_id {
                        proj_id = self.values[proj_id].alias[0];
                        assert(self.node_wf(proj_id as int));
                        local = self.values[proj_id].local;
                    }
                    let f = match self.field_get(proj_id, field_idx) {
                        Some(f) => f,
                        None => {
                            let birth = if inherit_birth { self.values[proj_id].birth } else { 0 };
                            let n = self.push_field_node(
                                proj_id,
                                field_idx,
                                local,
                                info.need_drop,
                                info.need_drop || info.may_drop,
                                info.kind,
                                birth,
                            );
                            proof {
                                let fs = self.values@[proj_id as int].fields@;
                                assert(fs[fs.len() - 1] == (field_idx, n));
                                let j = choose|j: int| 0 <= j < fs.len() && fs[j].0 == field_idx;
                                assert(self.node_wf(proj_id as int));
                                if j != fs.len() - 1 {
                                    assert(fs[j] == g1.values@[proj_id as int].fields@[j]);
                                }
                            }
                            n
                        },
                    };
                    proof {
                        let g2 = *self;
                        assert(g2.values@[proj_id as int].field(field_idx) == Some(f));
                        assert(g2.node_wf(proj_id as int));
                        let j = choose|j: int| 0 <= j < g2.values@[proj_id as int].fields@.len() && g2.values@[proj_id as int].fields@[j].0 == field_idx;
                        assert(g2.values@[proj_id as int].fields@[j].1 < g2.len());
                    }
                    proj_id = f;
                },
                PlaceElem::Other => {},
            }
            proof {
                let g2 = *self;
                assert(g2.grows_from(&g1)) by {
                    assert forall|y: int| 0 <= y < g1.len() implies extends(g1.values@[y].fields@, #[trigger] g2.values@[y].fields@) by {}
                }
                lemma_grows_trans(&g0, &g1, &g2);
                lemma_proj_end_stable(&g1, &g2, place.local as int, elems@.take(i as int), is_right);
                assert(g2.proj_end(place.local as int, elems@.take(i + 1), is_right) == Some(proj_id as int));
                assert forall|y: int| g0.len() <= y < g2.len() implies #[trigger] on_projection(&g2, place.local as int, elems@, is_right, i + 1, y) by {
                    if y < g1.len() {
                        assert(on_projection(&g1, place.local as int, elems@, is_right, i as int, y));
                        let m = choose|m: int| 0 < m <= i && #[trigger] g1.proj_end(place.local as int, elems@.take(m), is_right) == Some(y);
                        lemma_proj_end_stable(&g1, &g2, place.local as int, elems@.take(m), is_right);
                        assert(g2.proj_end(place.local as int, elems@.take(m), is_right) == Some(y));
                    } else {
                        assert(y == proj_id as int);
                        assert(g2.proj_end(place.local as int, elems@.take(i + 1), is_right) == Some(y));
                    }
                }
            }
            i = i + 1;
        }
        assert(elems@.take(elems@.len() as int) =~= elems@);
        proj_id
    }
}

impl ValueNode {
    /// A node with the same contents.
    pub fn duplicate(&self) -> (res: ValueNode)
        ensures
            res.same_header(*self),
            res.alias@ == self.alias@,
            res.fields@ == self.fields@,
    {
        let alias = self.alias.clone();
        assert(alias@ =~= self.alias@);
        ValueNode {
            index: self.index,
            local: self.local,
            need_drop: self.need_drop,
            may_drop: self.may_drop,
            kind: self.kind,
            father: self.father,
            field_id: self.field_id,
            birth: self.birth,
            alias,
            fields: copy_pairs(&self.fields),
            parent: self.parent,
        }
    }
}

/// Two node lists with the same contents, node by node.
pub open spec fn same_nodes(a: Seq<ValueNode>, b: Seq<ValueNode>) -> bool {
    &&& a.len() == b.len()
    &&& forall|i: int| 0 <= i < a.len() ==> (#[trigger] a[i]).same_header(b[i]) && a[i].alias@ == b[i].alias@ && a[i].fields@ == b[i].fields@
}

/// A copy of the nodes, node by node.
pub fn duplicate_nodes(v: &Vec<ValueNode>) -> (res: Vec<ValueNode>)
    ensures
        same_nodes(res@, v@),
{
    let mut res: Vec<ValueNode> = Vec::new();
    let mut i: usize = 0;
    while i < v.len()
        invariant
            i <= v@.len(),
            res@.len() == i,
            forall|j: int| 0 <= j < i ==> (#[trigger] res@[j]).same_header(v@[j]) && res@[j].alias@ == v@[j].alias@ && res@[j].fields@ == v@[j].fields@,
        decreases v@.len() - i,
    {
        res.push(v[i].duplicate());
        i = i + 1;
    }
    res
}

/// Well-formedness depends only on the contents of the nodes.
pub proof fn lemma_same_nodes_wf(g1: &ValueGraph, g2: &ValueGraph)
    requires
        g1.wf(),
        same_nodes(g2.values@, g1.values@),
    ensures
        g2.wf(),
{
    assert forall|i: int| 0 <= i < g2.len() implies #[trigger] g2.node_wf(i) by {
        assert(g1.node_wf(i));
        let n = g2.values@[i];
        assert(n.same_header(g1.values@[i]));
        assert forall|j: int| 0 <= j < n.fields@.len() implies {
            &&& i < #[trigger] n.fields@[j].1 < g2.len()
            &&& g2.values@[n.fields@[j].1 as int].parent == i
        } by {
            let c = n.fields@[j].1 as int;
            assert(g2.values@[c].same_header(g1.values@[c]));
        }
        assert forall|j: int| 0 <= j < n.alias@.len() implies #[trigger] n.alias@[j] < g2.len() by {
            assert(n.alias@[j] == g1.values@[i].alias@[j]);
        }
    }
}

impl ValueGraph {
    /// A copy of the graph, node by node.
    pub fn duplicate(&self) -> (res: ValueGraph)
        ensures
            same_nodes(res.values@, self.values@),
            self.wf() ==> res.wf(),
    {
        let res = ValueGraph { values: duplicate_nodes(&self.values) };
        proof {
            if self.wf() {
                lemma_same_nodes_wf(self, &res);
            }
        }
        res
    }

}

} // verus!
