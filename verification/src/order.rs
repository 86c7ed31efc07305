use vstd::prelude::*;

verus! {

/// How a basic block ends, as far as its successors go.
#[derive(Clone, Debug)]
pub enum TermKind {
    Goto(usize),
    /// All targets of the switch, the default one last.
    SwitchInt(Vec<usize>),
    Resume,
    Abort,
    Return,
    Unreachable,
    Drop(usize),
    DropAndReplace,
    Assert(usize),
    Yield,
    GeneratorDrop,
    FalseEdge,
    FalseUnwind,
    InlineAsm,
    /// The block a call returns to, if it returns.
    Call(Option<usize>),
}

/// The successors of a block ending with `t`, leaving out unwinding edges.
pub open spec fn succ_of(t: TermKind) -> Seq<usize> {
    match t {
        TermKind::Goto(b) => seq![b],
        TermKind::SwitchInt(ts) => ts@,
        TermKind::Drop(b) => seq![b],
        TermKind::Assert(b) => seq![b],
        TermKind::Call(Some(b)) => seq![b],
        _ => Seq::empty(),
    }
}

/// The control-flow graph of a body: successors and predecessors of each
/// block, and the blocks in topological order.
#[derive(Clone, Debug)]
pub struct MirGraph {
    pub e: Vec<Vec<usize>>,
    pub pre: Vec<Vec<usize>>,
    pub topo: Vec<usize>,
}

/// A body's blocks (by how they end) with the graph built from them.
pub struct NodeOrder {
    pub body: Vec<TermKind>,
    pub graph: MirGraph,
}

/// The number of times `x` occurs in `s`.
pub open spec fn occ(s: Seq<usize>, x: usize) -> nat
    decreases s.len(),
{
    if s.len() == 0 {
        0
    } else {
        occ(s.drop_last(), x) + if s.last() == x { 1nat } else { 0nat }
    }
}

/// The number of edges into `x` from the blocks below `m` that `t` holds
/// (all of them when `all`).
pub open spec fn in_from(e: Seq<Seq<usize>>, m: int, x: usize, t: Seq<usize>, all: bool) -> nat
    decreases m,
{
    if m <= 0 {
        0
    } else {
        in_from(e, m - 1, x, t, all) + if all || t.contains((m - 1) as usize) { occ(e[m - 1], x) } else { 0nat }
    }
}

/// The number of edges into `x`.
pub open spec fn indeg(e: Seq<Seq<usize>>, x: usize) -> nat {
    in_from(e, e.len() as int, x, Seq::empty(), true)
}

/// Every block with an edge into `x` is in `t`.
pub open spec fn preds_in(e: Seq<Seq<usize>>, x: usize, t: Seq<usize>) -> bool {
    forall|b: int| 0 <= b < e.len() && occ(#[trigger] e[b], x) > 0 ==> t.contains(b as usize)
}

/// The blocks that may come next after the order `t`: not yet ordered,
/// and the entry block, or a block with predecessors that are all ordered.
pub open spec fn avail(e: Seq<Seq<usize>>, t: Seq<usize>) -> Set<usize> {
    Set::new(|x: usize| (x as int) < e.len() && !t.contains(x) && (x == 0 || (indeg(e, x) > 0 && preds_in(e, x, t))))
}

/// `v` is the largest element of `s`.
pub open spec fn is_max_of(v: usize, s: Set<usize>) -> bool {
    s.contains(v) && forall|y: usize| #[trigger] s.contains(y) ==> y <= v
}

/// `k` is the order in which the blocks are taken when each time the
/// largest available block is taken, until none is left.
pub open spec fn greedy_order(e: Seq<Seq<usize>>, k: Seq<usize>) -> bool {
    &&& forall|t: int| 0 <= t < k.len() ==> #[trigger] is_max_of(k[t], avail(e, k.take(t)))
    &&& avail(e, k).is_empty()
}

/// The successor lists of the blocks of `body`.
pub open spec fn succs(body: Seq<TermKind>) -> Seq<Seq<usize>> {
    body.map_values(|t: TermKind| succ_of(t))
}

/// The blocks of `body` that have `x` as a successor, each as often as
/// the edge occurs, in block order (blocks below `m`).
pub open spec fn preds_list(body: Seq<TermKind>, m: int, x: usize) -> Seq<usize>
    decreases m,
{
    if m <= 0 {
        Seq::empty()
    } else {
        preds_list(body, m - 1, x) + Seq::new(occ(succ_of(body[m - 1]), x), |i: int| (m - 1) as usize)
    }
}

proof fn lemma_occ_take(s: Seq<usize>, j: int, x: usize)
    requires
        0 <= j < s.len(),
    ensures
        occ(s.take(j + 1), x) == occ(s.take(j), x) + if s[j] == x { 1nat } else { 0nat },
        occ(s.take(j + 1), x) <= occ(s, x),
    decreases s.len(),
{
    assert(s.take(j + 1).drop_last() =~= s.take(j));
    if j + 1 < s.len() {
        lemma_occ_take(s.drop_last(), j, x);
        assert(s.drop_last().take(j + 1) =~= s.take(j + 1));
        assert(s.drop_last().take(j) =~= s.take(j));
    } else {
        assert(s.take(j + 1) =~= s);
    }
}

proof fn lemma_in_from_mono(e: Seq<Seq<usize>>, m: int, x: usize, t: Seq<usize>)
    ensures
        in_from(e, m, x, t, false) <= in_from(e, m, x, t, true),
    decreases m,
{
    if m > 0 {
        lemma_in_from_mono(e, m - 1, x, t);
    }
}

proof fn lemma_in_from_grow(e: Seq<Seq<usize>>, m: int, n: int, x: usize)
    requires
        m <= n,
    ensures
        in_from(e, m, x, Seq::empty(), true) <= in_from(e, n, x, Seq::empty(), true),
    decreases n - m,
{
    if m < n {
        lemma_in_from_grow(e, m, n - 1, x);
    }
}

/// The ordered blocks account for every edge into `x` exactly when every
/// predecessor of `x` is ordered.
proof fn lemma_in_from_full(e: Seq<Seq<usize>>, m: int, x: usize, t: Seq<usize>)
    requires
        0 <= m <= e.len(),
    ensures
        (in_from(e, m, x, t, false) == in_from(e, m, x, t, true)) == (forall|b: int|
            0 <= b < m && occ(#[trigger] e[b], x) > 0 ==> t.contains(b as usize)),
    decreases m,
{
    if m > 0 {
        lemma_in_from_full(e, m - 1, x, t);
        lemma_in_from_mono(e, m - 1, x, t);
        if in_from(e, m, x, t, false) == in_from(e, m, x, t, true) {
            assert forall|b: int| 0 <= b < m && occ(#[trigger] e[b], x) > 0 implies t.contains(b as usize) by {
                if b == m - 1 {
                } else {
                }
            }
        }
    }
}

/// Adding a block to the ordered ones adds its edges into `x`.
proof fn lemma_in_from_push(e: Seq<Seq<usize>>, m: int, x: usize, t: Seq<usize>, top: usize)
    requires
        !t.contains(top),
        0 <= m <= e.len(),
        e.len() <= usize::MAX,
        (top as int) < e.len(),
    ensures
        in_from(e, m, x, t.push(top), false) == in_from(e, m, x, t, false) + if (top as int) < m { occ(e[top as int], x) } else { 0nat },
    decreases m,
{
    if m > 0 {
        lemma_in_from_push(e, m - 1, x, t, top);
        let b = (m - 1) as usize;
        assert(b as int == m - 1);
        assert(t.push(top).contains(b) == (t.contains(b) || b == top)) by {
            if t.push(top).contains(b) {
                let i = choose|i: int| 0 <= i < t.push(top).len() && t.push(top)[i] == b;
                if i < t.len() {
                    assert(t[i] == b);
                }
            }
            if t.contains(b) {
                let i = choose|i: int| 0 <= i < t.len() && t[i] == b;
                assert(t.push(top)[i] == b);
            }
            if b == top {
                assert(t.push(top)[t.len() as int] == b);
            }
        }
    }
}

impl NodeOrder {
    /// A graph for `body` with no edges recorded and no order yet.
    pub fn new(body: Vec<TermKind>) -> (res: Self)
        ensures
            res.body@ == body@,
            res.graph.e@.len() == body@.len(),
            res.graph.pre@.len() == body@.len(),
            forall|i: int| 0 <= i < body@.len() ==> (#[trigger] res.graph.e@[i])@.len() == 0 && res.graph.pre@[i]@.len() == 0,
            res.graph.topo@.len() == 0,
    {
        let n = body.len();
        let mut e: Vec<Vec<usize>> = Vec::new();
        let mut pre: Vec<Vec<usize>> = Vec::new();
        let mut i: usize = 0;
        while i < n
            invariant
                i <= n,
                e@.len() == i,
                pre@.len() == i,
                forall|j: int| 0 <= j < i ==> (#[trigger] e@[j])@.len() == 0 && pre@[j]@.len() == 0,
            decreases n - i,
        {
            e.push(Vec::new());
            pre.push(Vec::new());
            i = i + 1;
        }
        NodeOrder { body, graph: MirGraph { e, pre, topo: Vec::new() } }
    }

    /// The successors of block `b`.
    fn successors(&self, b: usize) -> (res: Vec<usize>)
        requires
            b < self.body@.len(),
        ensures
            res@ == succ_of(self.body@[b as int]),
    {
        let mut result: Vec<usize> = Vec::new();
        match &self.body[b] {
            TermKind::Goto(t) => result.push(*t),
            TermKind::SwitchInt(ts) => {
                let mut i: usize = 0;
                while i < ts.len()
                    invariant
                        i <= ts@.len(),
                        result@ == ts@.take(i as int),
                    decreases ts@.len() - i,
                {
                    result.push(ts[i]);
                    assert(ts@.take(i + 1) =~= ts@.take(i as int).push(ts@[i as int]));
                    i = i + 1;
                }
                assert(ts@.take(ts@.len() as int) =~= ts@);
            },
            TermKind::Drop(t) => result.push(*t),
            TermKind::Assert(t) => result.push(*t),
            TermKind::Call(Some(t)) => result.push(*t),
            _ => {},
        }
        assert(result@ =~= succ_of(self.body@[b as int]));
        result
    }

    /// Records each block's successors, each edge in the predecessors of
    /// its target and in the target's count of incoming edges (unwinding
    /// edges are left out).
    pub fn collect_edges(&mut self, lev: &mut Vec<usize>)
        requires
            old(self).graph.e@.len() == old(self).body@.len(),
            old(self).graph.pre@.len() == old(self).body@.len(),
            old(lev)@.len() == old(self).body@.len(),
            forall|b: int, j: int| 0 <= b < old(self).body@.len() && 0 <= j < succ_of(old(self).body@[b]).len()
                ==> (#[trigger] succ_of(old(self).body@[b])[j] as int) < old(self).body@.len(),
            forall|x: int| 0 <= x < old(lev)@.len() ==> old(lev)@[x] + indeg(succs(old(self).body@), x as usize) <= usize::MAX,
        ensures
            final(self).body == old(self).body,
            final(self).graph.topo == old(self).graph.topo,
            final(self).graph.e@.len() == old(self).body@.len(),
            final(self).graph.pre@.len() == old(self).body@.len(),
            final(lev)@.len() == old(lev)@.len(),
            forall|b: int| 0 <= b < old(self).body@.len() ==> (#[trigger] final(self).graph.e@[b])@ == succ_of(old(self).body@[b]),
            forall|x: int| 0 <= x < old(self).body@.len() ==> (#[trigger] final(self).graph.pre@[x])@
                == old(self).graph.pre@[x]@ + preds_list(old(self).body@, old(self).body@.len() as int, x as usize),
            forall|x: int| 0 <= x < old(lev)@.len() ==> #[trigger] final(lev)@[x] == old(lev)@[x] + indeg(succs(old(self).body@), x as usize),
    {
        let ghost body = self.body@;
        let ghost sc = succs(body);
        let ghost pre0 = self.graph.pre@;
        let ghost lev0 = lev@;
        let n = self.body.len();
        assert(sc.len() == n);
        let mut block: usize = 0;
        while block < n
            invariant
                body == self.body@,
                sc == succs(body),
                sc.len() == n,
                n == body.len(),
                self.body == old(self).body,
                self.graph.topo == old(self).graph.topo,
                self.graph.e@.len() == n,
                self.graph.pre@.len() == n,
                lev@.len() == n,
                pre0 == old(self).graph.pre@,
                lev0 == old(lev)@,
                block <= n,
                forall|b: int, j: int| 0 <= b < n && 0 <= j < succ_of(body[b]).len() ==> (#[trigger] succ_of(body[b])[j] as int) < n,
                forall|x: int| 0 <= x < n ==> lev0[x] + indeg(sc, x as usize) <= usize::MAX,
                forall|b: int| 0 <= b < block ==> (#[trigger] self.graph.e@[b])@ == succ_of(body[b]),
                forall|x: int| 0 <= x < n ==> (#[trigger] self.graph.pre@[x])@ == pre0[x]@ + preds_list(body, block as int, x as usize),
                forall|x: int| 0 <= x < n ==> #[trigger] lev@[x] == lev0[x] + in_from(sc, block as int, x as usize, Seq::empty(), true),
            decreases n - block,
        {
            let result = self.successors(block);
            assert(sc[block as int] == succ_of(body[block as int]));
            let mut j: usize = 0;
            while j < result.len()
                invariant
                    body == self.body@,
                    sc == succs(body),
                    sc.len() == n,
                    n == body.len(),
                    self.body == old(self).body,
                    self.graph.topo == old(self).graph.topo,
                    self.graph.e@.len() == n,
                    self.graph.pre@.len() == n,
                    lev@.len() == n,
                    block < n,
                    result@ == succ_of(body[block as int]),
                    result@ == sc[block as int],
                    j <= result@.len(),
                    forall|b: int, t: int| 0 <= b < n && 0 <= t < succ_of(body[b]).len() ==> (#[trigger] succ_of(body[b])[t] as int) < n,
                    forall|x: int| 0 <= x < n ==> lev0[x] + indeg(sc, x as usize) <= usize::MAX,
                    forall|b: int| 0 <= b < block ==> (#[trigger] self.graph.e@[b])@ == succ_of(body[b]),
                    forall|x: int| 0 <= x < n ==> (#[trigger] self.graph.pre@[x])@ == pre0[x]@ + preds_list(body, block as int, x as usize)
                        + Seq::new(occ(result@.take(j as int), x as usize), |i: int| block),
                    forall|x: int| 0 <= x < n ==> #[trigger] lev@[x] == lev0[x] + in_from(sc, block as int, x as usize, Seq::empty(), true)
                        + occ(result@.take(j as int), x as usize),
                decreases result@.len() - j,
            {
                let index = result[j];
                assert(succ_of(body[block as int])[j as int] == index);
                proof {
                    lemma_occ_take(result@, j as int, index);
                    lemma_in_from_grow(sc, block as int + 1, n as int, index);
                    assert(lev@[index as int] == lev0[index as int] + in_from(sc, block as int, index, Seq::empty(), true)
                        + occ(result@.take(j as int), index));
                }
                lev.set(index, lev[index] + 1);
                self.graph.pre[index].push(block);
                proof {
                    assert forall|x: int| 0 <= x < n implies #[trigger] lev@[x] == lev0[x] + in_from(sc, block as int, x as usize, Seq::empty(), true)
                        + occ(result@.take(j + 1), x as usize) by {
                        lemma_occ_take(result@, j as int, x as usize);
                    }
                    assert forall|x: int| 0 <= x < n implies (#[trigger] self.graph.pre@[x])@ == pre0[x]@ + preds_list(body, block as int, x as usize)
                        + Seq::new(occ(result@.take(j + 1), x as usize), |i: int| block) by {
                        lemma_occ_take(result@, j as int, x as usize);
                        if x == index as int {
                            assert(Seq::new(occ(result@.take(j + 1), x as usize), |i: int| block) =~= Seq::new(occ(result@.take(j as int), x as usize), |i: int| block).push(block));
                        } else {
                            assert(Seq::new(occ(result@.take(j + 1), x as usize), |i: int| block) =~= Seq::new(occ(result@.take(j as int), x as usize), |i: int| block));
                        }
                    }
                }
                j = j + 1;
            }
            proof {
                assert(result@.take(result@.len() as int) =~= result@);
                assert forall|x: int| 0 <= x < n implies (#[trigger] self.graph.pre@[x])@ == pre0[x]@ + preds_list(body, block + 1, x as usize) by {
                    assert(preds_list(body, block + 1, x as usize) == preds_list(body, block as int, x as usize)
                        + Seq::new(occ(succ_of(body[block as int]), x as usize), |i: int| block));
                    assert(pre0[x]@ + preds_list(body, block as int, x as usize) + Seq::new(occ(result@, x as usize), |i: int| block)
                        =~= pre0[x]@ + (preds_list(body, block as int, x as usize) + Seq::new(occ(result@, x as usize), |i: int| block)));
                }
            }
            self.graph.e.set(block, result);
            block = block + 1;
        }
        assert forall|x: int| 0 <= x < n implies #[trigger] lev@[x] == lev0[x] + indeg(sc, x as usize) by {}
    }
}

/// The successor lists of a graph, as sequences.
pub open spec fn edge_lists(e: Seq<Vec<usize>>) -> Seq<Seq<usize>> {
    e.map_values(|v: Vec<usize>| v@)
}

/// `x` is queued: not ordered, with no edge left to wait for, and the entry
/// block or a block with predecessors.
pub open spec fn queued(es: Seq<Seq<usize>>, lev: Seq<usize>, k: Seq<usize>, x: usize) -> bool {
    (x as int) < es.len() && !k.contains(x) && lev[x as int] == 0 && (x == 0 || indeg(es, x) > 0)
}

proof fn lemma_remove_distinct(q: Seq<usize>, i: int)
    requires
        0 <= i < q.len(),
        q.no_duplicates(),
    ensures
        q.remove(i).no_duplicates(),
        forall|x: usize| #[trigger] q.remove(i).contains(x) == (q.contains(x) && x != q[i]),
{
    let r = q.remove(i);
    assert forall|a: int, b: int| 0 <= a < b < r.len() implies r[a] != r[b] by {
        let a0 = if a < i { a } else { a + 1 };
        let b0 = if b < i { b } else { b + 1 };
        assert(r[a] == q[a0]);
        assert(r[b] == q[b0]);
    }
    assert forall|x: usize| #[trigger] r.contains(x) == (q.contains(x) && x != q[i]) by {
        if r.contains(x) {
            let a = choose|a: int| 0 <= a < r.len() && r[a] == x;
            let a0 = if a < i { a } else { a + 1 };
            assert(q[a0] == x);
        }
        if q.contains(x) && x != q[i] {
            let a0 = choose|a0: int| 0 <= a0 < q.len() && q[a0] == x;
            let a = if a0 < i { a0 } else { a0 - 1 };
            assert(r[a] == x);
        }
    }
}

impl NodeOrder {
    /// Orders the blocks reachable from the entry block without going
    /// around a loop: each time the largest block whose predecessors are
    /// all ordered is taken next (see `greedy_order`); `lev` holds the
    /// number of incoming edges of each block and ends with those from
    /// unordered blocks.
    pub fn topo_order(&mut self, lev: &mut Vec<usize>)
        requires
            old(self).graph.e@.len() >= 1,
            old(lev)@.len() == old(self).graph.e@.len(),
            forall|b: int, j: int| 0 <= b < old(self).graph.e@.len() && 0 <= j < old(self).graph.e@[b]@.len()
                ==> (#[trigger] old(self).graph.e@[b]@[j] as int) < old(self).graph.e@.len(),
            forall|x: int| 0 <= x < old(lev)@.len() ==> #[trigger] old(lev)@[x] == indeg(edge_lists(old(self).graph.e@), x as usize),
            indeg(edge_lists(old(self).graph.e@), 0) == 0,
        ensures
            final(self).body == old(self).body,
            final(self).graph.e == old(self).graph.e,
            final(self).graph.pre == old(self).graph.pre,
            ({
                let es = edge_lists(old(self).graph.e@);
                let t0 = old(self).graph.topo@;
                let k = final(self).graph.topo@.subrange(t0.len() as int, final(self).graph.topo@.len() as int);
                &&& final(self).graph.topo@.len() >= t0.len()
                &&& final(self).graph.topo@.subrange(0, t0.len() as int) == t0
                &&& k.no_duplicates()
                &&& greedy_order(es, k)
                &&& final(lev)@.len() == old(lev)@.len()
                &&& forall|x: int| 0 <= x < es.len() ==> #[trigger] final(lev)@[x] + in_from(es, es.len() as int, x as usize, k, false) == indeg(es, x as usize)
            }),
    {
        let ghost es = edge_lists(self.graph.e@);
        let ghost t0 = self.graph.topo@;
        let ghost mut k: Seq<usize> = Seq::empty();
        let n = self.graph.e.len();
        assert(es.len() == n);
        let mut q: Vec<usize> = Vec::new();
        q.push(0);
        proof {
            assert forall|x: int| 0 <= x < n implies #[trigger] lev@[x] + in_from(es, n as int, x as usize, k, false) == indeg(es, x as usize) by {
                lemma_in_from_zero(es, n as int, x as usize, k);
            }
            assert forall|x: usize| #[trigger] q@.contains(x) == queued(es, lev@, k, x) by {
                if queued(es, lev@, k, x) && x != 0 {
                    lemma_in_from_zero(es, n as int, x, k);
                }
                if q@.contains(x) {
                    assert(q@[0] == 0);
                }
                if x == 0 {
                    assert(q@[0] == 0);
                }
            }
        }
        while q.len() > 0
            invariant
                n == self.graph.e@.len(),
                n >= 1,
                es == edge_lists(self.graph.e@),
                self.body == old(self).body,
                self.graph.e == old(self).graph.e,
                self.graph.pre == old(self).graph.pre,
                t0 == old(self).graph.topo@,
                self.graph.topo@ == t0 + k,
                lev@.len() == n,
                forall|b: int, j: int| 0 <= b < n && 0 <= j < self.graph.e@[b]@.len() ==> (#[trigger] self.graph.e@[b]@[j] as int) < n,
                indeg(es, 0) == 0,
                forall|x: int| 0 <= x < n ==> #[trigger] lev@[x] + in_from(es, n as int, x as usize, k, false) == indeg(es, x as usize),
                q@.no_duplicates(),
                forall|x: usize| #[trigger] q@.contains(x) == queued(es, lev@, k, x),
                k.no_duplicates(),
                forall|t: int| 0 <= t < k.len() ==> (#[trigger] k[t] as int) < n,
                forall|t: int| 0 <= t < k.len() ==> lev@[#[trigger] k[t] as int] == 0,
                forall|t: int| 0 <= t < k.len() ==> #[trigger] is_max_of(k[t], avail(es, k.take(t))),
            decreases n - k.len(),
        {
            // the largest queued block
            let mut best: usize = 0;
            let mut i: usize = 1;
            while i < q.len()
                invariant
                    1 <= i <= q@.len(),
                    best < q@.len(),
                    forall|j: int| 0 <= j < i ==> q@[j] <= q@[best as int],
                decreases q@.len() - i,
            {
                if q[i] > q[best] {
                    best = i;
                }
                i = i + 1;
            }
            let ghost q0 = q@;
            let top = q.remove(best);
            proof {
                lemma_remove_distinct(q0, best as int);
                assert(q0.contains(top));
                assert(queued(es, lev@, k, top));
                // the queued blocks are the available ones
                assert forall|x: usize| #[trigger] avail(es, k).contains(x) == q0.contains(x) by {
                    if (x as int) < n {
                        lemma_in_from_full(es, n as int, x, k);
                        lemma_in_from_mono(es, n as int, x, k);
                        lemma_in_from_all(es, n as int, x, Seq::empty(), k);
                        assert(lev@[x as int] + in_from(es, n as int, x, k, false) == indeg(es, x));
                        if x == 0 {
                            assert(lev@[0] == 0);
                        }
                    }
                }
                assert forall|y: usize| #[trigger] avail(es, k).contains(y) implies y <= top by {
                    let j = choose|j: int| 0 <= j < q0.len() && q0[j] == y;
                }
                assert(is_max_of(top, avail(es, k)));
                assert(k.len() < n) by {
                    let kp = k.push(top);
                    assert(!k.contains(top));
                    assert forall|a: int, b: int| 0 <= a < b < kp.len() implies kp[a] != kp[b] by {
                        if b == k.len() {
                            assert(kp[a] == k[a]);
                        }
                    }
                    assert forall|t: int| 0 <= t < kp.len() implies (#[trigger] kp[t] as int) < n by {
                        if t < k.len() {
                            assert(kp[t] == k[t]);
                        }
                    }
                    lemma_distinct_below(kp, n as int);
                }
            }
            let ghost k_old = k;
            self.graph.topo.push(top);
            proof {
                k = k.push(top);
                assert(self.graph.topo@ =~= t0 + k);
                assert(k.take(k_old.len() as int) =~= k_old);
                assert forall|t: int| 0 <= t < k.len() implies #[trigger] is_max_of(k[t], avail(es, k.take(t))) by {
                    if t < k_old.len() {
                        assert(k.take(t) =~= k_old.take(t));
                    }
                }
                assert forall|a: int, b: int| 0 <= a < b < k.len() implies k[a] != k[b] by {
                    if b == k.len() - 1 {
                        assert(!k_old.contains(top));
                        assert(k[a] == k_old[a]);
                    }
                }
                lemma_in_from_push(es, n as int, 0, k_old, top);
                assert forall|x: usize| #[trigger] q@.contains(x) == queued(es, lev@, k, x) by {
                    assert(k.contains(x) == (k_old.contains(x) || x == top)) by {
                        if k.contains(x) {
                            let t = choose|t: int| 0 <= t < k.len() && k[t] == x;
                            if t < k_old.len() {
                                assert(k_old[t] == x);
                            }
                        }
                        if k_old.contains(x) {
                            let t = choose|t: int| 0 <= t < k_old.len() && k_old[t] == x;
                            assert(k[t] == x);
                        }
                        if x == top {
                            assert(k[k_old.len() as int] == x);
                        }
                    }
                    assert(q0.contains(x) == queued(es, lev@, k_old, x));
                }
            }
            let succ = &self.graph.e[top];
            assert(succ@ == es[top as int]);
            let mut cnt: usize = 0;
            while cnt < succ.len()
                invariant
                    n == self.graph.e@.len(),
                    n >= 1,
                    es == edge_lists(self.graph.e@),
                    succ@ == es[top as int],
                    (top as int) < n,
                    k == k_old.push(top),
                    !k_old.contains(top),
                    cnt <= succ@.len(),
                    lev@.len() == n,
                    forall|b: int, j: int| 0 <= b < n && 0 <= j < self.graph.e@[b]@.len() ==> (#[trigger] self.graph.e@[b]@[j] as int) < n,
                    indeg(es, 0) == 0,
                    forall|x: int| 0 <= x < n ==> #[trigger] lev@[x] + in_from(es, n as int, x as usize, k_old, false)
                        + occ(succ@.take(cnt as int), x as usize) == indeg(es, x as usize),
                    q@.no_duplicates(),
                    forall|x: usize| #[trigger] q@.contains(x) == queued(es, lev@, k, x),
                    forall|t: int| 0 <= t < k.len() ==> lev@[#[trigger] k[t] as int] == 0,
                    forall|t: int| 0 <= t < k.len() ==> (#[trigger] k[t] as int) < n,
                decreases succ@.len() - cnt,
            {
                let next = succ[cnt];
                assert(self.graph.e@[top as int]@[cnt as int] == next);
                proof {
                    lemma_occ_take(succ@, cnt as int, next);
                    lemma_in_from_push(es, n as int, next, k_old, top);
                    lemma_in_from_mono(es, n as int, next, k);
                    assert(in_from(es, n as int, next, Seq::empty(), true) == in_from(es, n as int, next, k, true)) by {
                        lemma_in_from_all(es, n as int, next, Seq::empty(), k);
                    }
                }
                let ghost lev_before = lev@;
                lev.set(next, lev[next] - 1);
                if lev[next] == 0 {
                    proof {
                        assert(!q@.contains(next));
                        assert(!k.contains(next)) by {
                            if k.contains(next) {
                                let t = choose|t: int| 0 <= t < k.len() && k[t] == next;
                                assert(lev_before[k[t] as int] == 0);
                            }
                        }
                        assert(next != 0);
                    }
                    let ghost qb = q@;
                    q.push(next);
                    proof {
                        assert forall|a: int, b: int| 0 <= a < b < q@.len() implies q@[a] != q@[b] by {
                            if b == q@.len() - 1 {
                                assert(q@[a] == qb[a]);
                            }
                        }
                        assert forall|x: usize| #[trigger] q@.contains(x) == queued(es, lev@, k, x) by {
                            if x == next {
                                assert(q@[q@.len() - 1] == next);
                            } else {
                                assert(lev@[x as int] == lev_before[x as int] || (x as int) >= n);
                                if q@.contains(x) {
                                    let a = choose|a: int| 0 <= a < q@.len() && q@[a] == x;
                                    assert(qb[a] == x);
                                }
                                if qb.contains(x) {
                                    let a = choose|a: int| 0 <= a < qb.len() && qb[a] == x;
                                    assert(q@[a] == x);
                                }
                            }
                        }
                    }
                } else {
                    proof {
                        assert forall|x: usize| #[trigger] q@.contains(x) == queued(es, lev@, k, x) by {
                            if x != next {
                                assert(lev@[x as int] == lev_before[x as int] || (x as int) >= n);
                            } else {
                                assert(lev_before[x as int] > 0);
                            }
                        }
                    }
                }
                proof {
                    assert forall|x: int| 0 <= x < n implies #[trigger] lev@[x] + in_from(es, n as int, x as usize, k_old, false)
                        + occ(succ@.take(cnt + 1), x as usize) == indeg(es, x as usize) by {
                        lemma_occ_take(succ@, cnt as int, x as usize);
                    }
                    assert forall|t: int| 0 <= t < k.len() implies lev@[#[trigger] k[t] as int] == 0 by {
                        if k[t] == next {
                            assert(lev_before[k[t] as int] == 0);
                        }
                    }
                }
                cnt = cnt + 1;
            }
            proof {
                assert(succ@.take(succ@.len() as int) =~= succ@);
                assert forall|x: int| 0 <= x < n implies #[trigger] lev@[x] + in_from(es, n as int, x as usize, k, false) == indeg(es, x as usize) by {
                    lemma_in_from_push(es, n as int, x as usize, k_old, top);
                }
            }
        }
        proof {
            assert forall|x: usize| !(#[trigger] avail(es, k).contains(x)) by {
                if avail(es, k).contains(x) {
                    lemma_in_from_full(es, n as int, x, k);
                    lemma_in_from_mono(es, n as int, x, k);
                    lemma_in_from_all(es, n as int, x, Seq::empty(), k);
                    assert(q@.contains(x) == queued(es, lev@, k, x));
                }
            }
            assert(avail(es, k) =~= Set::<usize>::empty());
            assert(self.graph.topo@.subrange(t0.len() as int, self.graph.topo@.len() as int) =~= k);
            assert(self.graph.topo@.subrange(0, t0.len() as int) =~= t0);
        }
    }
}

/// With no block ordered, no edge is accounted for.
proof fn lemma_in_from_zero(e: Seq<Seq<usize>>, m: int, x: usize, t: Seq<usize>)
    requires
        t.len() == 0,
    ensures
        in_from(e, m, x, t, false) == 0,
    decreases m,
{
    if m > 0 {
        lemma_in_from_zero(e, m - 1, x, t);
    }
}

/// Counting every block does not depend on which blocks are ordered.
proof fn lemma_in_from_all(e: Seq<Seq<usize>>, m: int, x: usize, t1: Seq<usize>, t2: Seq<usize>)
    ensures
        in_from(e, m, x, t1, true) == in_from(e, m, x, t2, true),
    decreases m,
{
    if m > 0 {
        lemma_in_from_all(e, m - 1, x, t1, t2);
    }
}

/// A sequence of distinct indices below `n` has at most `n` entries.
proof fn lemma_distinct_below(k: Seq<usize>, n: int)
    requires
        n >= 0,
        k.no_duplicates(),
        forall|t: int| 0 <= t < k.len() ==> (#[trigger] k[t] as int) < n,
    ensures
        k.len() <= n,
{
    let s = k.to_set();
    k.unique_seq_to_set();
    let below = below_set(n);
    assert forall|x: usize| s.contains(x) implies below.contains(x) by {
        let t = choose|t: int| 0 <= t < k.len() && k[t] == x;
        assert((k[t] as int) < n);
    }
    assert(s.subset_of(below));
    lemma_below_finite(n);
    vstd::set_lib::lemma_len_subset(s, below);

}

spec fn below_set(n: int) -> Set<usize> {
    Set::new(|x: usize| (x as int) < n)
}

proof fn lemma_below_finite(n: int)
    ensures
        below_set(n).finite(),
        n >= 0 ==> below_set(n).len() <= n,
    decreases if n < 0 { 0 } else { n },
{
    if n <= 0 {
        assert(below_set(n) =~= Set::<usize>::empty());
    } else {
        lemma_below_finite(n - 1);
        let a = below_set(n - 1);
        let b = below_set(n);
        if n - 1 <= usize::MAX {
            assert(b =~= a.insert((n - 1) as usize));
        } else {
            assert(b =~= a);
        }
    }
}

} // verus!
