use vstd::prelude::*;
use crate::bv_term::{BvTerm, Formula, VarName, NameTag, width, sorted, well_sorted, lemma_sorted_width, eval, holds, lemma_zero_bits};
use crate::ownership::RawTypeOwner;
use crate::kinds::AsgnKind;
use crate::ty_layout::{TyShape, IndexedTy, ProjElem, indexed_spec, indexable, variant_ok, visited_summaries, summary_layout, contains_ptr,
    is_place_containing_ptr,
    summary_requirement, summary_owned, extract_default_ty_layout, extract_projection, proj_run, ProjState, owned_bits, unowned_bits,
    ptr_layout_spec, generate_ptr_layout, ownership_layout_to_rustbv, reverse_ownership_layout_to_rustbv, rustbv_merge, rustbv_to_int,
    bits_value};
use crate::ownership::OwnershipLayoutResult;

verus! {

/// What the ownership flow analysis knows of a local at a program point:
/// declared only, holding the bit vector of its ownership layout, or
/// beyond what the analysis supports.
#[derive(Debug, PartialEq, Eq)]
pub enum IntraVar {
    Declared,
    Init(BvTerm),
    Unsupported,
}

impl IntraVar {
    pub fn is_declared(&self) -> (res: bool)
        ensures
            res == self is Declared,
    {
        match self {
            IntraVar::Declared => true,
            _ => false,
        }
    }

    pub fn is_init(&self) -> (res: bool)
        ensures
            res == self is Init,
    {
        match self {
            IntraVar::Init(_) => true,
            _ => false,
        }
    }

    pub fn is_unsupported(&self) -> (res: bool)
        ensures
            res == self is Unsupported,
    {
        match self {
            IntraVar::Unsupported => true,
            _ => false,
        }
    }

    /// The bit vector of an initialised local.
    pub fn extract(&self) -> (res: BvTerm)
        requires
            self is Init,
        ensures
            res == self->Init_0,
    {
        match self {
            IntraVar::Init(t) => t.duplicate(),
            _ => BvTerm::Lit(0, 0),
        }
    }
}

/// The index of the definition of `std::mem::drop`, as the analysed
/// compiler numbers it.
pub const MEM_DROP_INDEX: usize = 2171;

/// An operand of a call: a place copied or moved, or a constant.
pub enum FlowOperand {
    Copy(FlowPlace),
    Move(FlowPlace),
    Constant,
}

/// A statement of a block, as far as ownership goes.
pub enum FlowStmt {
    Assign(FlowPlace, FlowRvalue),
    StorageLive(usize),
    StorageDead(usize),
    Other,
}

/// How a block ends, as far as ownership goes.
pub enum FlowTerm {
    Drop(FlowPlace),
    /// A call at a source location, of the function with a definition
    /// index (none for a call through a pointer), with its arguments and
    /// destination.
    Call { span: usize, fn_index: Option<usize>, args: Vec<FlowOperand>, dest: FlowPlace },
    Return,
    Other,
}

/// A block: its statements and how it ends.
pub struct FlowBlock {
    pub statements: Vec<FlowStmt>,
    pub terminator: FlowTerm,
}

/// The right side of an assignment, as far as ownership goes.
pub enum FlowRvalue {
    Use(FlowOperand),
    /// A reference to a place.
    Ref(FlowPlace),
    /// A raw pointer to a place.
    AddressOf(FlowPlace),
    Cast(FlowOperand),
    /// Anything else (arithmetic, aggregates, ...).
    Other,
}

/// A place of the body with its type (and the enum variant the type is
/// known to be in).
pub struct FlowPlace {
    pub local: usize,
    pub projection: Vec<ProjElem>,
    pub ty: TyShape,
    pub variant: Option<usize>,
}

/// The state of every local at a program point: the length of its layout,
/// what is known of it, its indexed type, its ownership layout, and the
/// types it may hand ownership back as (empty when it is not tainted).
pub struct IcxSlice {
    pub len: Vec<usize>,
    pub var: Vec<IntraVar>,
    pub ty: Vec<IndexedTy>,
    pub layout: Vec<Vec<RawTypeOwner>>,
    pub taint: Vec<Vec<IndexedTy>>,
}

/// The analysis state as values: the slice's columns and the constraints
/// asserted so far, in order.
#[verifier::ext_equal]
pub struct FlowView {
    pub len: Seq<usize>,
    pub var: Seq<IntraVar>,
    pub ty: Seq<IndexedTy>,
    pub layout: Seq<Seq<RawTypeOwner>>,
    pub taint: Seq<Seq<IndexedTy>>,
    pub goal: Seq<Formula>,
}

/// The intra-procedural ownership flow analysis of one function body: the
/// slice of the current program point, the constraints asserted so far,
/// the declared type of each local, the number of arguments, whether
/// (and at which calls) a value was turned into a pointer that must hand
/// ownership back, the slice each block ends with and the blocks'
/// predecessors.
pub struct IntraFlowAnalysis {
    pub icx_slice: IcxSlice,
    pub goal: Vec<Formula>,
    pub local_tys: Vec<TyShape>,
    pub arg_count: usize,
    pub taint_flag: bool,
    pub taint_source: Vec<usize>,
    /// The slice each block ends with, once visited.
    pub icx_out: Vec<IcxSlice>,
    /// The predecessors of each block.
    pub pre: Vec<Vec<usize>>,
}

impl View for IntraFlowAnalysis {
    type V = FlowView;

    open spec fn view(&self) -> FlowView {
        FlowView {
            len: self.icx_slice.len@,
            var: self.icx_slice.var@,
            ty: self.icx_slice.ty@,
            layout: layout_views(self.icx_slice.layout@),
            taint: taint_views(self.icx_slice.taint@),
            goal: self.goal@,
        }
    }
}

/// The layouts as values.
pub open spec fn layout_views(v: Seq<Vec<RawTypeOwner>>) -> Seq<Seq<RawTypeOwner>> {
    v.map_values(|x: Vec<RawTypeOwner>| x@)
}

/// The taints as values.
pub open spec fn taint_views(v: Seq<Vec<IndexedTy>>) -> Seq<Seq<IndexedTy>> {
    v.map_values(|x: Vec<IndexedTy>| x@)
}

/// The columns have one entry per local, every known bit vector is well
/// sorted, and every constraint is.
pub open spec fn view_ok(v: FlowView) -> bool {
    &&& v.var.len() == v.len.len()
    &&& v.ty.len() == v.len.len()
    &&& v.layout.len() == v.len.len()
    &&& v.taint.len() == v.len.len()
    &&& forall|i: int| 0 <= i < v.var.len() && (#[trigger] v.var[i]) is Init ==> sorted(v.var[i]->Init_0)
    &&& forall|i: int| 0 <= i < v.goal.len() ==> well_sorted(#[trigger] v.goal[i])
}

/// The bit vector of local `i`, when known, is as wide as its layout.
pub open spec fn consistent(v: FlowView, i: int) -> bool {
    v.var[i] is Init ==> width(v.var[i]->Init_0) == v.len[i]
}

/// The view with the columns and the constraints given.
pub open spec fn mk_view(
    len: Seq<usize>,
    var: Seq<IntraVar>,
    ty: Seq<IndexedTy>,
    layout: Seq<Seq<RawTypeOwner>>,
    taint: Seq<Seq<IndexedTy>>,
    goal: Seq<Formula>,
) -> FlowView {
    FlowView { len, var, ty, layout, taint, goal }
}

/// Local `i` turned unsupported, with an empty layout (unless it already was).
pub open spec fn unsup(v: FlowView, i: int) -> FlowView {
    if v.var[i] is Unsupported {
        v
    } else {
        mk_view(v.len.update(i, 0), v.var.update(i, IntraVar::Unsupported), v.ty, v.layout, v.taint, v.goal)
    }
}

/// The taint `a` with each type of `b` added that it lacks, in order.
pub open spec fn taint_union(a: Seq<IndexedTy>, b: Seq<IndexedTy>) -> Seq<IndexedTy>
    decreases b.len(),
{
    if b.len() == 0 {
        a
    } else {
        let u = taint_union(a, b.drop_last());
        if u.contains(b.last()) {
            u
        } else {
            u.push(b.last())
        }
    }
}

/// The taint of `l` after `r` is assigned into it: unchanged when `r` is
/// untainted, `r`'s when `l` was untainted, the union otherwise.
pub open spec fn taint_merge(l: Seq<IndexedTy>, r: Seq<IndexedTy>) -> Seq<IndexedTy> {
    if r.len() == 0 {
        l
    } else if l.len() == 0 {
        r
    } else {
        taint_union(l, r)
    }
}

/// The view after `handle_taint(l, r)`.
pub open spec fn taint_moved(v: FlowView, l: int, r: int) -> FlowView {
    mk_view(v.len, v.var, v.ty, v.layout, v.taint.update(l, taint_merge(v.taint[l], v.taint[r])), v.goal)
}

/// 0 for an unsupported type, 1 for one without slots to track, 2 for one
/// with slots to track.
pub open spec fn priority_of(t: Option<(usize, Option<usize>, bool)>) -> int {
    match t {
        None => 0,
        Some(x) => if x.0 == 0 {
            1
        } else if x.2 {
            2
        } else {
            1
        },
    }
}

/// The number of slots of an indexed type.
pub open spec fn slots(t: Option<(usize, Option<usize>, bool)>) -> int {
    match t {
        Some(x) => x.0 as int,
        None => 0,
    }
}

/// A variable named at a program point.
pub open spec fn var_at(local: int, bidx: usize, sidx: usize, tag: NameTag, w: int) -> BvTerm {
    BvTerm::Var(VarName { local: local as usize, bidx, sidx, tag }, w as usize)
}

/// The constant 0 of a width.
pub open spec fn zero(w: int) -> BvTerm {
    BvTerm::Lit(0, w as usize)
}

pub open spec fn eqf(a: BvTerm, b: BvTerm) -> Formula {
    Formula::Eq(a, b)
}

pub open spec fn and2(p: Formula, q: Formula) -> Formula {
    Formula::And(Box::new(p), Box::new(q))
}

pub open spec fn or2(p: Formula, q: Formula) -> Formula {
    Formula::Or(Box::new(p), Box::new(q))
}

/// The ownership of the whole right local `ru` (bit vector `r_ori`, `rlen`
/// bits) goes to the whole left local `lu`, which was created here when
/// `ctor`: by a move, the right local is left with nothing and the left
/// one gets its bits; by a copy, one of the two keeps the bits and the
/// other is left with nothing. Both get fresh variables and the left one
/// takes the right one's taint.
pub open spec fn whole_transfer(v: FlowView, lu: int, ru: int, r_ori: BvTerm, rlen: int, ctor: bool, bidx: usize, sidx: usize, is_move: bool) -> FlowView {
    let l_new = var_at(lu, bidx, sidx, if ctor { NameTag::CtorAsgn } else { NameTag::Plain }, rlen);
    let r_new = var_at(ru, bidx, sidx, NameTag::Plain, rlen);
    let goal = if is_move {
        v.goal.push(eqf(r_new, zero(rlen))).push(eqf(l_new, r_ori))
    } else {
        v.goal.push(or2(and2(eqf(r_new, r_ori), eqf(l_new, zero(rlen))), and2(eqf(l_new, r_ori), eqf(r_new, zero(rlen)))))
    };
    let w = mk_view(
        v.len.update(lu, rlen as usize),
        v.var.update(lu, IntraVar::Init(l_new)).update(ru, IntraVar::Init(r_new)),
        v.ty,
        v.layout,
        v.taint,
        goal,
    );
    taint_moved(w, lu, ru)
}

/// What `l = r` (copy) or `l = move r` does, with neither place projected:
/// `rty` is the indexed type of the right place.
pub open spec fn whole_assign(v: FlowView, lu: int, ru: int, rty: Option<(usize, Option<usize>, bool)>, bidx: usize, sidx: usize, is_move: bool) -> FlowView {
    if v.var[lu] is Unsupported || v.var[ru] is Unsupported {
        unsup(unsup(v, lu), ru)
    } else if !(v.var[ru] is Init) || v.len[ru] == 0 {
        v
    } else {
        let r_ori = v.var[ru]->Init_0;
        let rlen = v.len[ru] as int;
        if v.var[lu] is Init {
            if v.ty[lu] != v.ty[ru] {
                unsup(unsup(v, lu), ru)
            } else {
                let v1 = mk_view(v.len, v.var, v.ty, v.layout, v.taint, v.goal.push(eqf(v.var[lu]->Init_0, zero(v.len[lu] as int))));
                whole_transfer(v1, lu, ru, r_ori, rlen, false, bidx, sidx, is_move)
            }
        } else {
            let p = priority_of(rty);
            if p == 0 {
                unsup(unsup(v, lu), ru)
            } else if p == 1 {
                v
            } else {
                let v1 = mk_view(v.len, v.var, v.ty.update(lu, v.ty[ru]), v.layout.update(lu, v.layout[ru]), v.taint, v.goal);
                whole_transfer(v1, lu, ru, r_ori, rlen, true, bidx, sidx, is_move)
            }
        }
    }
}

/// Two indexed types are the same.
pub fn same_ty(a: &IndexedTy, b: &IndexedTy) -> (res: bool)
    ensures
        res == (*a == *b),
{
    match (a.0, b.0) {
        (None, None) => true,
        (Some(x), Some(y)) => {
            let v = match (x.1, y.1) {
                (None, None) => true,
                (Some(i), Some(j)) => i == j,
                _ => false,
            };
            x.0 == y.0 && v && x.2 == y.2
        },
        _ => false,
    }
}

/// A copy of a vector of plain values.
fn copy_vec<T: Copy>(t: &Vec<T>) -> (res: Vec<T>)
    ensures
        res@ == t@,
{
    let mut r: Vec<T> = Vec::new();
    let mut i: usize = 0;
    while i < t.len()
        invariant
            i <= t@.len(),
            r@ == t@.take(i as int),
        decreases t@.len() - i,
    {
        r.push(t[i]);
        i = i + 1;
        assert(r@ =~= t@.take(i as int));
    }
    assert(t@.take(t@.len() as int) =~= t@);
    r
}

/// Whether a taint holds a type.
fn taint_contains(t: &Vec<IndexedTy>, x: &IndexedTy) -> (res: bool)
    ensures
        res == t@.contains(*x),
{
    let mut i: usize = 0;
    while i < t.len()
        invariant
            i <= t@.len(),
            forall|j: int| 0 <= j < i ==> t@[j] != *x,
        decreases t@.len() - i,
    {
        if same_ty(&t[i], x) {
            assert(t@[i as int] == *x);
            return true;
        }
        i = i + 1;
    }
    false
}

impl IntraFlowAnalysis {
    /// The analysis state is consistent (see `view_ok`) and has a declared
    /// type per local.
    pub open spec fn flow_ok(&self) -> bool {
        &&& view_ok(self@)
        &&& self.local_tys@.len() == self@.len.len()
    }

    /// Everything but the slice and the constraints is the same.
    pub open spec fn frame_kept(&self, old: &IntraFlowAnalysis) -> bool {
        &&& self.local_tys == old.local_tys
        &&& self.arg_count == old.arg_count
        &&& self.taint_flag == old.taint_flag
        &&& self.taint_source == old.taint_source
        &&& self.icx_out == old.icx_out
        &&& self.pre == old.pre
    }

    /// Turns the local `idx` unsupported, with an empty layout.
    pub fn handle_intra_var_unsupported(&mut self, idx: usize)
        requires
            old(self).flow_ok(),
            idx < old(self)@.len.len(),
        ensures
            final(self).flow_ok(),
            final(self).frame_kept(old(self)),
            final(self)@ == unsup(old(self)@, idx as int),
    {
        if self.icx_slice.var[idx].is_unsupported() {
            return;
        }
        self.icx_slice.var.set(idx, IntraVar::Unsupported);
        self.icx_slice.len.set(idx, 0);
        proof {
            assert(self@ =~= unsup(old(self)@, idx as int));
        }
    }

    /// The left local `l` takes the taint of the right local `r` (see
    /// `taint_merge`).
    pub fn handle_taint(&mut self, l: usize, r: usize)
        requires
            old(self).flow_ok(),
            l < old(self)@.len.len(),
            r < old(self)@.len.len(),
        ensures
            final(self).flow_ok(),
            final(self).frame_kept(old(self)),
            final(self)@ == taint_moved(old(self)@, l as int, r as int),
    {
        if self.icx_slice.taint[r].len() == 0 {
            proof {
                assert(self@ =~= taint_moved(old(self)@, l as int, r as int));
            }
            return;
        }
        let rt = copy_vec(&self.icx_slice.taint[r]);
        if self.icx_slice.taint[l].len() == 0 {
            self.icx_slice.taint.set(l, rt);
        } else {
            let mut lt = copy_vec(&self.icx_slice.taint[l]);
            let ghost a = lt@;
            let mut i: usize = 0;
            while i < rt.len()
                invariant
                    i <= rt@.len(),
                    lt@ == taint_union(a, rt@.take(i as int)),
                decreases rt@.len() - i,
            {
                proof {
                    assert(rt@.take(i + 1).drop_last() =~= rt@.take(i as int));
                }
                if !taint_contains(&lt, &rt[i]) {
                    lt.push(rt[i]);
                }
                i = i + 1;
            }
            proof {
                assert(rt@.take(rt@.len() as int) =~= rt@);
            }
            self.icx_slice.taint.set(l, lt);
        }
        proof {
            assert(self@ =~= taint_moved(old(self)@, l as int, r as int));
        }
    }
}


impl IntraFlowAnalysis {
    /// The fresh variables of `lu` and `ru` take the ownership of the right
    /// local (see `whole_transfer`).
    fn transfer_whole(&mut self, lu: usize, ru: usize, r_ori: BvTerm, rlen: usize, ctor: bool, bidx: usize, sidx: usize, is_move: bool)
        requires
            old(self).flow_ok(),
            lu < old(self)@.len.len(),
            ru < old(self)@.len.len(),
            sorted(r_ori),
            width(r_ori) == rlen,
        ensures
            final(self).flow_ok(),
            final(self).frame_kept(old(self)),
            final(self)@ == whole_transfer(old(self)@, lu as int, ru as int, r_ori, rlen as int, ctor, bidx, sidx, is_move),
    {
        proof {
            lemma_sorted_width(r_ori);
        }
        let l_tag = if ctor {
            NameTag::CtorAsgn
        } else {
            NameTag::Plain
        };
        let l_new = BvTerm::Var(VarName { local: lu, bidx, sidx, tag: l_tag }, rlen);
        let r_new = BvTerm::Var(VarName { local: ru, bidx, sidx, tag: NameTag::Plain }, rlen);
        let ghost g0 = self.goal@;
        if is_move {
            let f1 = Formula::Eq(r_new.duplicate(), BvTerm::Lit(0, rlen));
            let f2 = Formula::Eq(l_new.duplicate(), r_ori);
            assert(well_sorted(f1));
            assert(well_sorted(f2));
            self.goal.push(f1);
            self.goal.push(f2);
            proof {
                assert forall|i: int| 0 <= i < self.goal@.len() implies well_sorted(#[trigger] self.goal@[i]) by {
                    if i < g0.len() {
                        assert(self.goal@[i] == g0[i]);
                        assert(g0[i] == old(self)@.goal[i]);
                    }
                }
            }
        } else {
            let keep = Formula::And(
                Box::new(Formula::Eq(r_new.duplicate(), r_ori.duplicate())),
                Box::new(Formula::Eq(l_new.duplicate(), BvTerm::Lit(0, rlen))),
            );
            let give = Formula::And(
                Box::new(Formula::Eq(l_new.duplicate(), r_ori)),
                Box::new(Formula::Eq(r_new.duplicate(), BvTerm::Lit(0, rlen))),
            );
            let f = Formula::Or(Box::new(keep), Box::new(give));
            proof {
                reveal_with_fuel(well_sorted, 3);
            }
            assert(well_sorted(f));
            self.goal.push(f);
            proof {
                assert forall|i: int| 0 <= i < self.goal@.len() implies well_sorted(#[trigger] self.goal@[i]) by {
                    if i < g0.len() {
                        assert(self.goal@[i] == g0[i]);
                        assert(g0[i] == old(self)@.goal[i]);
                    }
                }
            }
        }
        self.icx_slice.len.set(lu, rlen);
        self.icx_slice.var.set(lu, IntraVar::Init(l_new));
        self.icx_slice.var.set(ru, IntraVar::Init(r_new));
        let ghost mid = self@;
        proof {
            let w = mk_view(
                old(self)@.len.update(lu as int, rlen),
                old(self)@.var.update(lu as int, IntraVar::Init(var_at(lu as int, bidx, sidx, l_tag, rlen as int))).update(ru as int, IntraVar::Init(var_at(ru as int, bidx, sidx, NameTag::Plain, rlen as int))),
                old(self)@.ty,
                old(self)@.layout,
                old(self)@.taint,
                self.goal@,
            );
            assert(mid =~= w);
            assert forall|i: int| 0 <= i < self@.var.len() && (#[trigger] self@.var[i]) is Init implies sorted(self@.var[i]->Init_0) by {
                if i != lu && i != ru {
                    assert(self@.var[i] == old(self)@.var[i]);
                }
            }
        }
        self.handle_taint(lu, ru);
    }

    /// `l = r` (a copy when `is_move` is false) with neither place
    /// projected (see `whole_assign`).
    fn assign_whole(&mut self, lplace: &FlowPlace, rplace: &FlowPlace, bidx: usize, sidx: usize, is_move: bool)
        requires
            old(self).flow_ok(),
            lplace.local < old(self)@.len.len(),
            rplace.local < old(self)@.len.len(),
            consistent(old(self)@, lplace.local as int),
            consistent(old(self)@, rplace.local as int),
            indexable(rplace.ty, rplace.variant),
        ensures
            final(self).flow_ok(),
            final(self).frame_kept(old(self)),
            final(self)@ == whole_assign(old(self)@, lplace.local as int, rplace.local as int, indexed_spec(rplace.ty, rplace.variant), bidx, sidx, is_move),
    {
        let lu = lplace.local;
        let ru = rplace.local;
        if self.icx_slice.var[lu].is_unsupported() || self.icx_slice.var[ru].is_unsupported() {
            self.handle_intra_var_unsupported(lu);
            self.handle_intra_var_unsupported(ru);
            return;
        }
        if !self.icx_slice.var[ru].is_init() {
            return;
        }
        if self.icx_slice.len[ru] == 0 {
            return;
        }
        let rlen = self.icx_slice.len[ru];
        let r_ori = self.icx_slice.var[ru].extract();
        let mut ctor = true;
        if self.icx_slice.var[lu].is_init() {
            if !same_ty(&self.icx_slice.ty[lu], &self.icx_slice.ty[ru]) {
                self.handle_intra_var_unsupported(lu);
                self.handle_intra_var_unsupported(ru);
                return;
            }
            let llen = self.icx_slice.len[lu];
            let l_ori = self.icx_slice.var[lu].extract();
            let ghost g0 = self.goal@;
            self.goal.push(Formula::Eq(l_ori, BvTerm::Lit(0, llen)));
            proof {
                assert(old(self)@.var[lu as int] is Init);
                assert(sorted(old(self)@.var[lu as int]->Init_0));
                lemma_sorted_width(old(self)@.var[lu as int]->Init_0);
                assert(well_sorted(self.goal@[g0.len() as int]));
                assert forall|i: int| 0 <= i < self.goal@.len() implies well_sorted(#[trigger] self.goal@[i]) by {
                    if i < g0.len() {
                        assert(self.goal@[i] == g0[i]);
                        assert(g0[i] == old(self)@.goal[i]);
                    }
                }
            }
            ctor = false;
        } else {
            let t = IndexedTy::new(&rplace.ty, rplace.variant);
            let p = t.get_priority();
            if p == 0 {
                self.handle_intra_var_unsupported(lu);
                self.handle_intra_var_unsupported(ru);
                return;
            } else if p == 1 {
                return;
            }
            let tr = self.icx_slice.ty[ru];
            self.icx_slice.ty.set(lu, tr);
            let lay = copy_vec(&self.icx_slice.layout[ru]);
            self.icx_slice.layout.set(lu, lay);
        }
        proof {
            assert(self@ =~= (if ctor {
                mk_view(old(self)@.len, old(self)@.var, old(self)@.ty.update(lu as int, old(self)@.ty[ru as int]), old(self)@.layout.update(lu as int, old(self)@.layout[ru as int]), old(self)@.taint, old(self)@.goal)
            } else {
                mk_view(old(self)@.len, old(self)@.var, old(self)@.ty, old(self)@.layout, old(self)@.taint, old(self)@.goal.push(eqf(old(self)@.var[lu as int]->Init_0, zero(old(self)@.len[lu as int] as int))))
            }));
        }
        self.transfer_whole(lu, ru, r_ori, rlen, ctor, bidx, sidx, is_move);
    }

    /// `l = r`, a copy, with neither place projected: afterwards one of the
    /// two holds what `r` held and the other nothing (see `whole_assign`).
    pub fn handle_copy(&mut self, _kind: AsgnKind, lplace: &FlowPlace, rplace: &FlowPlace, disc: Option<usize>, bidx: usize, sidx: usize)
        requires
            old(self).flow_ok(),
            lplace.local < old(self)@.len.len(),
            rplace.local < old(self)@.len.len(),
            consistent(old(self)@, lplace.local as int),
            consistent(old(self)@, rplace.local as int),
            indexable(rplace.ty, rplace.variant),
        ensures
            final(self).flow_ok(),
            final(self).frame_kept(old(self)),
            final(self)@ == whole_assign(old(self)@, lplace.local as int, rplace.local as int, indexed_spec(rplace.ty, rplace.variant), bidx, sidx, false),
    {
        self.assign_whole(lplace, rplace, bidx, sidx, false);
    }

    /// `l = move r` with neither place projected: afterwards `l` holds what
    /// `r` held and `r` nothing (see `whole_assign`).
    pub fn handle_move(&mut self, _kind: AsgnKind, lplace: &FlowPlace, rplace: &FlowPlace, disc: Option<usize>, bidx: usize, sidx: usize)
        requires
            old(self).flow_ok(),
            lplace.local < old(self)@.len.len(),
            rplace.local < old(self)@.len.len(),
            consistent(old(self)@, lplace.local as int),
            consistent(old(self)@, rplace.local as int),
            indexable(rplace.ty, rplace.variant),
        ensures
            final(self).flow_ok(),
            final(self).frame_kept(old(self)),
            final(self)@ == whole_assign(old(self)@, lplace.local as int, rplace.local as int, indexed_spec(rplace.ty, rplace.variant), bidx, sidx, true),
    {
        self.assign_whole(lplace, rplace, bidx, sidx, true);
    }
}


/// The default ownership layout of a type (see `extract_default_ty_layout`).
pub open spec fn default_layout(ty: TyShape, variant: Option<usize>) -> Seq<RawTypeOwner> {
    match ty {
        TyShape::Param => seq![RawTypeOwner::Owned],
        TyShape::RawPtr | TyShape::Ref => seq![RawTypeOwner::Unowned],
        _ => summary_layout(visited_summaries(ty, variant)),
    }
}

/// Whether the default layout of a type has slots to track.
pub open spec fn default_req(ty: TyShape, variant: Option<usize>) -> bool {
    match ty {
        TyShape::Param | TyShape::RawPtr | TyShape::Ref => true,
        _ => summary_requirement(visited_summaries(ty, variant)),
    }
}

/// Whether the default layout of a type owns heap memory.
pub open spec fn default_owned(ty: TyShape, variant: Option<usize>) -> bool {
    match ty {
        TyShape::Param => true,
        TyShape::RawPtr | TyShape::Ref => false,
        _ => summary_owned(visited_summaries(ty, variant)),
    }
}

/// The default ownership layout of a type.
fn default_layout_of(ty: &TyShape, variant: Option<usize>) -> (res: OwnershipLayoutResult)
    requires
        variant_ok(*ty, variant),
    ensures
        res.layout_view() == default_layout(*ty, variant),
        res.requirement_view() == default_req(*ty, variant),
        res.owned_view() == default_owned(*ty, variant),
{
    extract_default_ty_layout(ty, variant)
}

/// `n` set bits but the one at `idx`.
pub open spec fn mask_bits(n: int, idx: int) -> Seq<bool> {
    Seq::new(n as nat, |i: int| i != idx)
}

/// The constant of `n` bits that clears bit `idx` under an and.
pub open spec fn clear_mask(n: int, idx: int) -> BvTerm {
    BvTerm::Lit(bits_value(mask_bits(n, idx)) as u64, n as usize)
}

/// The term `t` (of `n` bits) with bit `idx` cleared.
pub open spec fn cleared(t: BvTerm, n: int, idx: int) -> BvTerm {
    BvTerm::And(Box::new(t), Box::new(clear_mask(n, idx)))
}

/// The bits `n` wide, all set but the one at `idx`.
fn mask_vec(n: usize, idx: usize) -> (res: Vec<bool>)
    ensures
        res@ == mask_bits(n as int, idx as int),
{
    let mut v: Vec<bool> = Vec::new();
    let mut i: usize = 0;
    while i < n
        invariant
            i <= n,
            v@ == mask_bits(i as int, idx as int),
        decreases n - i,
    {
        v.push(i != idx);
        i = i + 1;
        assert(v@ =~= mask_bits(i as int, idx as int));
    }
    v
}

/// The bit vector a field's ownership extends to over a whole value of
/// `n` slots: the field's bit (bit `idx` of `t`) copied to every slot, kept
/// only where `keep` (a constant) has a set bit.
pub open spec fn extended(keep: BvTerm, t: BvTerm, idx: int, n: int) -> BvTerm {
    let e = BvTerm::Extract(Box::new(t), idx as usize, idx as usize);
    let rep = if n > 1 {
        BvTerm::SignExt(Box::new(e), (n - 1) as usize)
    } else {
        e
    };
    BvTerm::And(Box::new(keep), Box::new(rep))
}

/// The bits a value of type `ty` takes from a field it is read from: its
/// owned slots, and its pointer slots too when the field was tainted.
pub open spec fn keep_bits(ty: TyShape, variant: Option<usize>, tainted: bool) -> Seq<bool> {
    let o = owned_bits(default_layout(ty, variant));
    if tainted {
        Seq::new(o.len(), |i: int| o[i] || ptr_layout_spec(ty, variant)[i])
    } else {
        o
    }
}

/// What `l = r.f` (a copy) or `l = move r.f` does, with `l` not projected
/// and `r.f` the first field of the right place (`rproj` its projection
/// read; a right place without a field is a whole assignment): the left
/// local gets a fresh variable of the field type's layout, which either
/// stays empty while the right local keeps everything (copy only), or
/// takes the field's ownership over the slots it may own while the field
/// is cleared in the right local.
pub open spec fn from_field_assign(
    v: FlowView,
    lu: int,
    ru: int,
    rproj: ProjState,
    rty: TyShape,
    rvariant: Option<usize>,
    bidx: usize,
    sidx: usize,
    is_move: bool,
) -> FlowView {
    if v.var[lu] is Unsupported || v.var[ru] is Unsupported {
        unsup(unsup(v, lu), ru)
    } else if !(v.var[ru] is Init) || v.len[ru] == 0 {
        v
    } else if rproj.3 {
        unsup(unsup(v, lu), ru)
    } else if rproj.0.len() == 0 {
        whole_assign(v, lu, ru, indexed_spec(rty, rvariant), bidx, sidx, is_move)
    } else if !default_req(rty, rvariant) || default_layout(rty, rvariant).len() == 0 {
        v
    } else {
        let idx = rproj.0[0] as int;
        let r_ori = v.var[ru]->Init_0;
        let rlen = v.len[ru] as int;
        let llen = default_layout(rty, rvariant).len() as int;
        let v1 = if v.var[lu] is Init {
            Some((mk_view(v.len, v.var, v.ty, v.layout, v.taint, v.goal.push(eqf(v.var[lu]->Init_0, zero(v.len[lu] as int)))), false))
        } else {
            let p = priority_of(indexed_spec(rty, rvariant));
            if p == 0 || p == 1 {
                None
            } else {
                Some((mk_view(v.len, v.var, v.ty.update(lu, IndexedTy(indexed_spec(rty, rvariant))), v.layout.update(lu, default_layout(rty, rvariant)), v.taint, v.goal), true))
            }
        };
        match v1 {
            None => if priority_of(indexed_spec(rty, rvariant)) == 0 {
                unsup(unsup(v, lu), ru)
            } else {
                v
            },
            Some((w, ctor)) => {
                let l_new = var_at(lu, bidx, sidx, if ctor { NameTag::CtorAsgn } else { NameTag::Plain }, llen);
                let r_new = var_at(ru, bidx, sidx, NameTag::Plain, rlen);
                let keep = BvTerm::Lit(bits_value(keep_bits(rty, rvariant, v.taint[ru].len() > 0)) as u64, llen as usize);
                let l_extend = eqf(l_new, extended(keep, r_ori, idx, llen));
                let r_cleared = eqf(r_new, cleared(r_ori, rlen, idx));
                let goal = if is_move {
                    w.goal.push(l_extend).push(r_cleared)
                } else {
                    w.goal.push(or2(and2(eqf(r_new, r_ori), eqf(l_new, zero(llen))), and2(l_extend, r_cleared)))
                };
                let w2 = mk_view(
                    w.len.update(lu, llen as usize),
                    w.var.update(lu, IntraVar::Init(l_new)).update(ru, IntraVar::Init(r_new)),
                    w.ty,
                    w.layout,
                    w.taint,
                    goal,
                );
                taint_moved(w2, lu, ru)
            },
        }
    }
}

/// A read of the field `r.f` can be encoded: the field lies within the
/// right local's bit vector, the layouts fit 64-bit constants, and a
/// tainted field's layout and pointer layout have one length (otherwise
/// the masks or the field's bit cannot be built).
pub open spec fn from_field_fits(v: FlowView, ru: int, rproj: ProjState, rty: TyShape, rvariant: Option<usize>) -> bool {
    rproj.0.len() > 0 && !rproj.3 && v.var[ru] is Init && v.len[ru] > 0 && default_req(rty, rvariant) && default_layout(rty, rvariant).len() > 0 ==> {
        &&& rproj.0[0] < v.len[ru]
        &&& v.len[ru] <= 64
        &&& owned_bits(default_layout(rty, rvariant)).len() <= 64
        &&& v.taint[ru].len() > 0 ==> owned_bits(default_layout(rty, rvariant)).len() == ptr_layout_spec(rty, rvariant).len()
    }
}

impl IntraFlowAnalysis {
    /// Asserts the well-sorted constraint `f`.
    fn push_goal(&mut self, f: Formula)
        requires
            old(self).flow_ok(),
            well_sorted(f),
        ensures
            final(self).flow_ok(),
            final(self).frame_kept(old(self)),
            final(self)@ == mk_view(old(self)@.len, old(self)@.var, old(self)@.ty, old(self)@.layout, old(self)@.taint, old(self)@.goal.push(f)),
    {
        self.goal.push(f);
        proof {
            assert forall|i: int| 0 <= i < self.goal@.len() implies well_sorted(#[trigger] self.goal@[i]) by {
                if i < old(self).goal@.len() {
                    assert(self.goal@[i] == old(self)@.goal[i]);
                }
            }
            assert(self@ =~= mk_view(old(self)@.len, old(self)@.var, old(self)@.ty, old(self)@.layout, old(self)@.taint, old(self)@.goal.push(f)));
        }
    }

    /// Both locals turned unsupported.
    fn unsupported_pair(&mut self, lu: usize, ru: usize)
        requires
            old(self).flow_ok(),
            lu < old(self)@.len.len(),
            ru < old(self)@.len.len(),
        ensures
            final(self).flow_ok(),
            final(self).frame_kept(old(self)),
            final(self)@ == unsup(unsup(old(self)@, lu as int), ru as int),
    {
        self.handle_intra_var_unsupported(lu);
        self.handle_intra_var_unsupported(ru);
    }
}


/// What every assignment handler needs of its places: both locals exist,
/// their bit vectors are as wide as their layouts, and the right place's
/// type has the variant it names.
pub open spec fn pair_ok(v: FlowView, lplace: FlowPlace, rplace: FlowPlace) -> bool {
    &&& lplace.local < v.len.len()
    &&& rplace.local < v.len.len()
    &&& consistent(v, lplace.local as int)
    &&& consistent(v, rplace.local as int)
    &&& indexable(rplace.ty, rplace.variant)
    &&& variant_ok(rplace.ty, rplace.variant)
}

impl IntraFlowAnalysis {
    /// `l = r.f` (a copy when `is_move` is false), see `from_field_assign`.
    fn assign_from_field(&mut self, lplace: &FlowPlace, rplace: &FlowPlace, bidx: usize, sidx: usize, is_move: bool)
        requires
            old(self).flow_ok(),
            pair_ok(old(self)@, *lplace, *rplace),
            from_field_fits(old(self)@, rplace.local as int, proj_run(rplace.projection@), rplace.ty, rplace.variant),
        ensures
            final(self).flow_ok(),
            final(self).frame_kept(old(self)),
            final(self)@ == from_field_assign(old(self)@, lplace.local as int, rplace.local as int, proj_run(rplace.projection@), rplace.ty, rplace.variant, bidx, sidx, is_move),
    {
        let lu = lplace.local;
        let ru = rplace.local;
        if self.icx_slice.var[lu].is_unsupported() || self.icx_slice.var[ru].is_unsupported() {
            self.unsupported_pair(lu, ru);
            return;
        }
        if !self.icx_slice.var[ru].is_init() {
            return;
        }
        if self.icx_slice.len[ru] == 0 {
            return;
        }
        let rpj = extract_projection(&rplace.projection);
        if rpj.is_unsupported() {
            self.unsupported_pair(lu, ru);
            return;
        }
        if !rpj.has_field() {
            self.assign_whole(lplace, rplace, bidx, sidx, is_move);
            return;
        }
        let idx = rpj.index_needed();
        let default = default_layout_of(&rplace.ty, rplace.variant);
        if !default.get_requirement() || default.is_empty() {
            return;
        }
        let rlen = self.icx_slice.len[ru];
        let llen = default.layout().len();
        let r_ori = self.icx_slice.var[ru].extract();
        proof {
            assert(sorted(old(self)@.var[ru as int]->Init_0));
            lemma_sorted_width(r_ori);
        }
        let tainted = self.icx_slice.taint[ru].len() > 0;
        let mut ctor = true;
        if self.icx_slice.var[lu].is_init() {
            let l0 = self.icx_slice.len[lu];
            let l_ori = self.icx_slice.var[lu].extract();
            proof {
                assert(sorted(old(self)@.var[lu as int]->Init_0));
                lemma_sorted_width(l_ori);
            }
            self.push_goal(Formula::Eq(l_ori, BvTerm::Lit(0, l0)));
            ctor = false;
        } else {
            let t = IndexedTy::new(&rplace.ty, rplace.variant);
            let p = t.get_priority();
            if p == 0 {
                self.unsupported_pair(lu, ru);
                return;
            } else if p == 1 {
                return;
            }
            self.icx_slice.ty.set(lu, t);
            let lay = copy_vec(default.layout());
            self.icx_slice.layout.set(lu, lay);
            proof {
                assert(self@ =~= mk_view(old(self)@.len, old(self)@.var, old(self)@.ty.update(lu as int, IndexedTy(indexed_spec(rplace.ty, rplace.variant))),
                    old(self)@.layout.update(lu as int, default_layout(rplace.ty, rplace.variant)), old(self)@.taint, old(self)@.goal));
            }
        }
        let ghost w = self@;
        let own = ownership_layout_to_rustbv(default.layout());
        let keep_v = if tainted {
            let pl = generate_ptr_layout(&rplace.ty, rplace.variant);
            rustbv_merge(&own, &pl)
        } else {
            own
        };
        proof {
            assert(keep_v@ =~= keep_bits(rplace.ty, rplace.variant, tainted));
        }
        let keep_int = rustbv_to_int(&keep_v);
        let keep = BvTerm::Lit(keep_int, llen);
        let l_tag = if ctor {
            NameTag::CtorAsgn
        } else {
            NameTag::Plain
        };
        let l_new = BvTerm::Var(VarName { local: lu, bidx, sidx, tag: l_tag }, llen);
        let r_new = BvTerm::Var(VarName { local: ru, bidx, sidx, tag: NameTag::Plain }, rlen);
        let e = BvTerm::Extract(Box::new(r_ori.duplicate()), idx, idx);
        let rep = if llen > 1 {
            BvTerm::SignExt(Box::new(e), llen - 1)
        } else {
            e
        };
        let l_extend = Formula::Eq(l_new.duplicate(), BvTerm::And(Box::new(keep), Box::new(rep)));
        let mask = mask_vec(rlen, idx);
        let mask_int = rustbv_to_int(&mask);
        let r_cleared = Formula::Eq(r_new.duplicate(), BvTerm::And(Box::new(r_ori.duplicate()), Box::new(BvTerm::Lit(mask_int, rlen))));
        proof {
            reveal_with_fuel(sorted, 4);
            reveal_with_fuel(width, 4);
            reveal_with_fuel(well_sorted, 3);
            assert(l_extend == eqf(var_at(lu as int, bidx, sidx, l_tag, llen as int), extended(keep, r_ori, idx as int, llen as int)));
            assert(r_cleared == eqf(var_at(ru as int, bidx, sidx, NameTag::Plain, rlen as int), cleared(r_ori, rlen as int, idx as int)));
            assert(well_sorted(l_extend));
            assert(well_sorted(r_cleared));
        }
        if is_move {
            self.push_goal(l_extend);
            self.push_goal(r_cleared);
        } else {
            let keep_both = Formula::And(
                Box::new(Formula::Eq(r_new.duplicate(), r_ori)),
                Box::new(Formula::Eq(l_new.duplicate(), BvTerm::Lit(0, llen))),
            );
            let f = Formula::Or(Box::new(keep_both), Box::new(Formula::And(Box::new(l_extend), Box::new(r_cleared))));
            proof {
                reveal_with_fuel(well_sorted, 3);
            }
            self.push_goal(f);
        }
        self.icx_slice.len.set(lu, llen);
        self.icx_slice.var.set(lu, IntraVar::Init(l_new));
        self.icx_slice.var.set(ru, IntraVar::Init(r_new));
        proof {
            assert forall|i: int| 0 <= i < self@.var.len() && (#[trigger] self@.var[i]) is Init implies sorted(self@.var[i]->Init_0) by {
                if i != lu && i != ru {
                    assert(self@.var[i] == old(self)@.var[i]);
                }
            }
        }
        self.handle_taint(lu, ru);
        proof {
            assert(self@ =~= from_field_assign(old(self)@, lu as int, ru as int, proj_run(rplace.projection@), rplace.ty, rplace.variant, bidx, sidx, is_move));
        }
    }

    /// `l = r.f`, a copy (see `from_field_assign`).
    pub fn handle_copy_from_field(&mut self, _kind: AsgnKind, lplace: &FlowPlace, rplace: &FlowPlace, disc: Option<usize>, bidx: usize, sidx: usize)
        requires
            old(self).flow_ok(),
            pair_ok(old(self)@, *lplace, *rplace),
            from_field_fits(old(self)@, rplace.local as int, proj_run(rplace.projection@), rplace.ty, rplace.variant),
        ensures
            final(self).flow_ok(),
            final(self).frame_kept(old(self)),
            final(self)@ == from_field_assign(old(self)@, lplace.local as int, rplace.local as int, proj_run(rplace.projection@), rplace.ty, rplace.variant, bidx, sidx, false),
    {
        self.assign_from_field(lplace, rplace, bidx, sidx, false);
    }

    /// `l = move r.f` (see `from_field_assign`).
    pub fn handle_move_from_field(&mut self, _kind: AsgnKind, lplace: &FlowPlace, rplace: &FlowPlace, disc: Option<usize>, bidx: usize, sidx: usize)
        requires
            old(self).flow_ok(),
            pair_ok(old(self)@, *lplace, *rplace),
            from_field_fits(old(self)@, rplace.local as int, proj_run(rplace.projection@), rplace.ty, rplace.variant),
        ensures
            final(self).flow_ok(),
            final(self).frame_kept(old(self)),
            final(self)@ == from_field_assign(old(self)@, lplace.local as int, rplace.local as int, proj_run(rplace.projection@), rplace.ty, rplace.variant, bidx, sidx, true),
    {
        self.assign_from_field(lplace, rplace, bidx, sidx, true);
    }
}


/// The term `ori` (of `n` bits) with bit `idx` replaced by the one-bit
/// term `bit`: the bits above, `bit`, the bits below.
pub open spec fn spliced(ori: BvTerm, n: int, idx: int, bit: BvTerm) -> BvTerm {
    let hi = if idx < n - 1 {
        BvTerm::Concat(Box::new(BvTerm::Extract(Box::new(ori), (n - 1) as usize, (idx + 1) as usize)), Box::new(bit))
    } else {
        bit
    };
    if idx > 0 {
        BvTerm::Concat(Box::new(hi), Box::new(BvTerm::Extract(Box::new(ori), (idx - 1) as usize, 0)))
    } else {
        hi
    }
}

/// A splice keeps the width and the sorts.
pub proof fn lemma_spliced(ori: BvTerm, n: int, idx: int, bit: BvTerm)
    requires
        sorted(ori),
        width(ori) == n,
        sorted(bit),
        width(bit) == 1,
        0 <= idx < n,
        n <= usize::MAX,
    ensures
        sorted(spliced(ori, n, idx, bit)),
        width(spliced(ori, n, idx, bit)) == n,
{
    let hi = if idx < n - 1 {
        BvTerm::Concat(Box::new(BvTerm::Extract(Box::new(ori), (n - 1) as usize, (idx + 1) as usize)), Box::new(bit))
    } else {
        bit
    };
    if idx < n - 1 {
        let e = BvTerm::Extract(Box::new(ori), (n - 1) as usize, (idx + 1) as usize);
        assert(sorted(e) && width(e) == n - 1 - idx);
        assert(sorted(hi) && width(hi) == n - idx);
    }
    assert(sorted(hi) && width(hi) == n - idx);
    if idx > 0 {
        let lo = BvTerm::Extract(Box::new(ori), (idx - 1) as usize, 0);
        assert(sorted(lo) && width(lo) == idx);
        assert(spliced(ori, n, idx, bit) == BvTerm::Concat(Box::new(hi), Box::new(lo)));
    }
}

/// The term `ori` (of `n` bits) with bit `idx` replaced by `bit`.
fn splice(ori: &BvTerm, n: usize, idx: usize, bit: BvTerm) -> (res: BvTerm)
    requires
        idx < n,
    ensures
        res == spliced(*ori, n as int, idx as int, bit),
{
    let hi = if idx < n - 1 {
        BvTerm::Concat(Box::new(BvTerm::Extract(Box::new(ori.duplicate()), n - 1, idx + 1)), Box::new(bit))
    } else {
        bit
    };
    if idx > 0 {
        BvTerm::Concat(Box::new(hi), Box::new(BvTerm::Extract(Box::new(ori.duplicate()), idx - 1, 0)))
    } else {
        hi
    }
}

/// The variant a field assignment's left place is taken at: its downcast,
/// or the one given.
pub open spec fn used_disc(lproj: ProjState, disc: Option<usize>) -> Option<usize> {
    if lproj.2 is Some {
        lproj.2
    } else {
        disc
    }
}

/// What `l.f = r` (a copy) or `l.f = move r` does, `r` not projected:
/// `lty` is the declared type of the left local, `lproj` its projection
/// read. A projection without a field is a whole assignment (as is one
/// into field 0 of a one-field variant); a downcast without a field does
/// nothing. Otherwise the left local takes the layout of its type (at the
/// variant used); an existing left local's field must own nothing (unless
/// the local is an argument), a new one starts empty; then either the
/// right local keeps everything and the field is cleared (copy only), or
/// the right local is left with nothing and the field owns when any bit of
/// the right local did.
pub open spec fn to_field_assign(
    v: FlowView,
    lu: int,
    ru: int,
    lproj: ProjState,
    lty: TyShape,
    disc: Option<usize>,
    rty: TyShape,
    rvariant: Option<usize>,
    arg_count: usize,
    bidx: usize,
    sidx: usize,
    is_move: bool,
) -> FlowView {
    let d = used_disc(lproj, disc);
    if v.var[lu] is Unsupported || v.var[ru] is Unsupported {
        unsup(unsup(v, lu), ru)
    } else if !(v.var[ru] is Init) {
        v
    } else if lproj.3 {
        unsup(unsup(v, lu), ru)
    } else if lproj.0.len() == 0 && lproj.2 is Some {
        v
    } else if lproj.0.len() == 0 {
        whole_assign(v, lu, ru, indexed_spec(rty, rvariant), bidx, sidx, is_move)
    } else if lproj.2 is Some && indexed_spec(lty, d) is None {
        v
    } else if lproj.2 is Some && lproj.0[0] == 0 && slots(indexed_spec(lty, d)) == 1 {
        whole_assign(v, lu, ru, indexed_spec(rty, rvariant), bidx, sidx, is_move)
    } else if !default_req(lty, d) || default_layout(lty, d).len() == 0 {
        v
    } else {
        let idx = lproj.0[0] as int;
        let llen = default_layout(lty, d).len() as int;
        let v0 = mk_view(v.len.update(lu, llen as usize), v.var, v.ty, v.layout, v.taint, v.goal);
        if v.len[ru] == 0 {
            v0
        } else {
            let r_ori = v.var[ru]->Init_0;
            let rlen = v.len[ru] as int;
            let (w, l_ori) = if v.var[lu] is Init {
                let l_ori = v.var[lu]->Init_0;
                let goal = if lu > arg_count {
                    v0.goal.push(eqf(BvTerm::Extract(Box::new(l_ori), idx as usize, idx as usize), zero(1)))
                } else {
                    v0.goal
                };
                (mk_view(v0.len, v0.var, v0.ty, v0.layout, v0.taint, goal), l_ori)
            } else {
                (mk_view(v0.len, v0.var, v0.ty.update(lu, IndexedTy(indexed_spec(lty, d))), v0.layout.update(lu, default_layout(lty, d)), v0.taint,
                    v0.goal.push(eqf(var_at(lu, bidx, sidx, NameTag::CtorAsgn, llen), zero(llen)))), zero(llen))
            };
            let l_new = var_at(lu, bidx, sidx, NameTag::Plain, llen);
            let r_new = var_at(ru, bidx, sidx, NameTag::Plain, rlen);
            let shrink = spliced(l_ori, llen, idx, BvTerm::RedOr(Box::new(r_ori)));
            let goal = if is_move {
                w.goal.push(eqf(r_new, zero(rlen))).push(eqf(l_new, shrink))
            } else {
                w.goal.push(or2(and2(eqf(r_new, r_ori), eqf(l_new, cleared(l_ori, llen, idx))), and2(eqf(r_new, zero(rlen)), eqf(l_new, shrink))))
            };
            let w2 = mk_view(w.len, w.var.update(lu, IntraVar::Init(l_new)).update(ru, IntraVar::Init(r_new)), w.ty, w.layout, w.taint, goal);
            taint_moved(w2, lu, ru)
        }
    }
}

/// A write of the field `l.f` can be encoded: the field lies within the
/// left local's layout, the layout fits a 64-bit constant, and an existing
/// left local's bit vector is as wide as that layout.
pub open spec fn to_field_fits(v: FlowView, lu: int, lproj: ProjState, lty: TyShape, disc: Option<usize>) -> bool {
    let d = used_disc(lproj, disc);
    lproj.0.len() > 0 && !lproj.3 && default_req(lty, d) && default_layout(lty, d).len() > 0 ==> {
        &&& lproj.0[0] < default_layout(lty, d).len()
        &&& default_layout(lty, d).len() <= 64
        &&& v.var[lu] is Init ==> v.len[lu] == default_layout(lty, d).len()
    }
}

/// The left local's declared type has the variant the assignment uses.
pub open spec fn left_typed(lproj: ProjState, lty: TyShape, disc: Option<usize>) -> bool {
    &&& indexable(lty, used_disc(lproj, disc))
    &&& variant_ok(lty, used_disc(lproj, disc))
}

impl IntraFlowAnalysis {
    /// `l.f = r` (a copy when `is_move` is false), see `to_field_assign`.
    fn assign_to_field(&mut self, lplace: &FlowPlace, rplace: &FlowPlace, disc: Option<usize>, bidx: usize, sidx: usize, is_move: bool)
        requires
            old(self).flow_ok(),
            pair_ok(old(self)@, *lplace, *rplace),
            left_typed(proj_run(lplace.projection@), old(self).local_tys@[lplace.local as int], disc),
            to_field_fits(old(self)@, lplace.local as int, proj_run(lplace.projection@), old(self).local_tys@[lplace.local as int], disc),
        ensures
            final(self).flow_ok(),
            final(self).frame_kept(old(self)),
            final(self)@ == to_field_assign(old(self)@, lplace.local as int, rplace.local as int, proj_run(lplace.projection@),
                old(self).local_tys@[lplace.local as int], disc, rplace.ty, rplace.variant, old(self).arg_count, bidx, sidx, is_move),
    {
        let lu = lplace.local;
        let ru = rplace.local;
        if self.icx_slice.var[lu].is_unsupported() || self.icx_slice.var[ru].is_unsupported() {
            self.unsupported_pair(lu, ru);
            return;
        }
        if !self.icx_slice.var[ru].is_init() {
            return;
        }
        let lpj = extract_projection(&lplace.projection);
        if lpj.is_unsupported() {
            self.unsupported_pair(lu, ru);
            return;
        }
        let ghost lty = old(self).local_tys@[lu as int];
        let mut d = disc;
        if lpj.has_field() && lpj.has_downcast() {
            d = lpj.downcast();
            let ity = IndexedTy::new(&self.local_tys[lu], d);
            match ity.0 {
                None => {
                    return;
                },
                Some(t) => {
                    if lpj.index_needed() == 0 && t.0 == 1 {
                        self.assign_whole(lplace, rplace, bidx, sidx, is_move);
                        return;
                    }
                },
            }
        } else if lpj.has_downcast() {
            return;
        } else if !lpj.has_field() {
            self.assign_whole(lplace, rplace, bidx, sidx, is_move);
            return;
        }
        let idx = lpj.index_needed();
        let default = default_layout_of(&self.local_tys[lu], d);
        if !default.get_requirement() || default.is_empty() {
            return;
        }
        let llen = default.layout().len();
        self.icx_slice.len.set(lu, llen);
        proof {
            assert(self@ =~= mk_view(old(self)@.len.update(lu as int, llen), old(self)@.var, old(self)@.ty, old(self)@.layout, old(self)@.taint, old(self)@.goal));
            assert forall|i: int| 0 <= i < self@.var.len() && (#[trigger] self@.var[i]) is Init implies sorted(self@.var[i]->Init_0) by {
                assert(self@.var[i] == old(self)@.var[i]);
            }
        }
        if self.icx_slice.len[ru] == 0 {
            return;
        }
        let rlen = self.icx_slice.len[ru];
        let r_ori = self.icx_slice.var[ru].extract();
        proof {
            assert(sorted(old(self)@.var[ru as int]->Init_0));
            lemma_sorted_width(r_ori);
        }
        let l_ori: BvTerm;
        if self.icx_slice.var[lu].is_init() {
            l_ori = self.icx_slice.var[lu].extract();
            proof {
                assert(sorted(old(self)@.var[lu as int]->Init_0));
            }
            if lu > self.arg_count {
                let f = Formula::Eq(BvTerm::Extract(Box::new(l_ori.duplicate()), idx, idx), BvTerm::Lit(0, 1));
                proof {
                    reveal_with_fuel(sorted, 2);
                    reveal_with_fuel(width, 2);
                }
                self.push_goal(f);
            }
        } else {
            let c = BvTerm::Var(VarName { local: lu, bidx, sidx, tag: NameTag::CtorAsgn }, llen);
            self.push_goal(Formula::Eq(c, BvTerm::Lit(0, llen)));
            l_ori = BvTerm::Lit(0, llen);
            let t = IndexedTy::new(&self.local_tys[lu], d);
            self.icx_slice.ty.set(lu, t);
            let lay = copy_vec(default.layout());
            self.icx_slice.layout.set(lu, lay);
        }
        let ghost w = self@;
        let l_new = BvTerm::Var(VarName { local: lu, bidx, sidx, tag: NameTag::Plain }, llen);
        let r_new = BvTerm::Var(VarName { local: ru, bidx, sidx, tag: NameTag::Plain }, rlen);
        let shrink = splice(&l_ori, llen, idx, BvTerm::RedOr(Box::new(r_ori.duplicate())));
        proof {
            lemma_spliced(l_ori, llen as int, idx as int, BvTerm::RedOr(Box::new(r_ori)));
        }
        if is_move {
            self.push_goal(Formula::Eq(r_new.duplicate(), BvTerm::Lit(0, rlen)));
            self.push_goal(Formula::Eq(l_new.duplicate(), shrink));
        } else {
            let mask = mask_vec(llen, idx);
            let mask_int = rustbv_to_int(&mask);
            let keep = Formula::And(
                Box::new(Formula::Eq(r_new.duplicate(), r_ori.duplicate())),
                Box::new(Formula::Eq(l_new.duplicate(), BvTerm::And(Box::new(l_ori), Box::new(BvTerm::Lit(mask_int, llen))))),
            );
            let give = Formula::And(
                Box::new(Formula::Eq(r_new.duplicate(), BvTerm::Lit(0, rlen))),
                Box::new(Formula::Eq(l_new.duplicate(), shrink)),
            );
            proof {
                reveal_with_fuel(sorted, 2);
                reveal_with_fuel(width, 2);
                reveal_with_fuel(well_sorted, 3);
            }
            self.push_goal(Formula::Or(Box::new(keep), Box::new(give)));
        }
        self.icx_slice.var.set(lu, IntraVar::Init(l_new));
        self.icx_slice.var.set(ru, IntraVar::Init(r_new));
        proof {
            assert forall|i: int| 0 <= i < self@.var.len() && (#[trigger] self@.var[i]) is Init implies sorted(self@.var[i]->Init_0) by {
                if i != lu && i != ru {
                    assert(self@.var[i] == old(self)@.var[i]);
                }
            }
        }
        self.handle_taint(lu, ru);
        proof {
            assert(self@ =~= to_field_assign(old(self)@, lu as int, ru as int, proj_run(lplace.projection@), lty, disc, rplace.ty, rplace.variant,
                old(self).arg_count, bidx, sidx, is_move));
        }
    }
}


impl IntraFlowAnalysis {
    /// `l.f = r`, a copy (see `to_field_assign`).
    pub fn handle_copy_to_field(&mut self, _kind: AsgnKind, lplace: &FlowPlace, rplace: &FlowPlace, disc: Option<usize>, bidx: usize, sidx: usize)
        requires
            old(self).flow_ok(),
            pair_ok(old(self)@, *lplace, *rplace),
            left_typed(proj_run(lplace.projection@), old(self).local_tys@[lplace.local as int], disc),
            to_field_fits(old(self)@, lplace.local as int, proj_run(lplace.projection@), old(self).local_tys@[lplace.local as int], disc),
        ensures
            final(self).flow_ok(),
            final(self).frame_kept(old(self)),
            final(self)@ == to_field_assign(old(self)@, lplace.local as int, rplace.local as int, proj_run(lplace.projection@),
                old(self).local_tys@[lplace.local as int], disc, rplace.ty, rplace.variant, old(self).arg_count, bidx, sidx, false),
    {
        self.assign_to_field(lplace, rplace, disc, bidx, sidx, false);
    }

    /// `l.f = move r` (see `to_field_assign`).
    pub fn handle_move_to_field(&mut self, _kind: AsgnKind, lplace: &FlowPlace, rplace: &FlowPlace, disc: Option<usize>, bidx: usize, sidx: usize)
        requires
            old(self).flow_ok(),
            pair_ok(old(self)@, *lplace, *rplace),
            left_typed(proj_run(lplace.projection@), old(self).local_tys@[lplace.local as int], disc),
            to_field_fits(old(self)@, lplace.local as int, proj_run(lplace.projection@), old(self).local_tys@[lplace.local as int], disc),
        ensures
            final(self).flow_ok(),
            final(self).frame_kept(old(self)),
            final(self)@ == to_field_assign(old(self)@, lplace.local as int, rplace.local as int, proj_run(lplace.projection@),
                old(self).local_tys@[lplace.local as int], disc, rplace.ty, rplace.variant, old(self).arg_count, bidx, sidx, true),
    {
        self.assign_to_field(lplace, rplace, disc, bidx, sidx, true);
    }
}

/// What `l.f = r.g` (a copy) or `l.f = move r.g` does: a side without a
/// field makes it a read of a field, a write of a field or a whole
/// assignment. With two fields, the left local takes the layout of its
/// declared type (at `disc`); an existing left local's field must own
/// nothing (unless the local is an argument), a new one starts empty; then
/// either the right field is cleared and the left field takes its bit, or
/// (copy only) the left field is cleared and the right local keeps
/// everything.
pub open spec fn field_to_field_assign(
    v: FlowView,
    lu: int,
    ru: int,
    lproj: ProjState,
    rproj: ProjState,
    lty: TyShape,
    disc: Option<usize>,
    rty: TyShape,
    rvariant: Option<usize>,
    arg_count: usize,
    bidx: usize,
    sidx: usize,
    is_move: bool,
) -> FlowView {
    if v.var[lu] is Unsupported || v.var[ru] is Unsupported {
        unsup(unsup(v, lu), ru)
    } else if !(v.var[ru] is Init) {
        v
    } else if rproj.3 || lproj.3 {
        unsup(unsup(v, lu), ru)
    } else if rproj.0.len() > 0 && lproj.0.len() == 0 {
        from_field_assign(v, lu, ru, rproj, rty, rvariant, bidx, sidx, is_move)
    } else if rproj.0.len() == 0 && lproj.0.len() > 0 {
        to_field_assign(v, lu, ru, lproj, lty, disc, rty, rvariant, arg_count, bidx, sidx, is_move)
    } else if rproj.0.len() == 0 {
        whole_assign(v, lu, ru, indexed_spec(rty, rvariant), bidx, sidx, is_move)
    } else if !default_req(lty, disc) || default_layout(lty, disc).len() == 0 {
        v
    } else {
        let ridx = rproj.0[0] as int;
        let lidx = lproj.0[0] as int;
        let llen = default_layout(lty, disc).len() as int;
        let v0 = mk_view(v.len.update(lu, llen as usize), v.var, v.ty, v.layout, v.taint, v.goal);
        if v.len[ru] == 0 {
            v0
        } else {
            let r_ori = v.var[ru]->Init_0;
            let rlen = v.len[ru] as int;
            let (w, l_ori) = if v.var[lu] is Init {
                let l_ori = v.var[lu]->Init_0;
                let goal = if lu > arg_count {
                    v0.goal.push(eqf(BvTerm::Extract(Box::new(l_ori), lidx as usize, lidx as usize), zero(1)))
                } else {
                    v0.goal
                };
                (mk_view(v0.len, v0.var, v0.ty, v0.layout, v0.taint, goal), l_ori)
            } else {
                (mk_view(v0.len, v0.var, v0.ty.update(lu, IndexedTy(indexed_spec(lty, disc))), v0.layout.update(lu, default_layout(lty, disc)), v0.taint,
                    v0.goal.push(eqf(var_at(lu, bidx, sidx, NameTag::CtorAsgn, llen), zero(llen)))), zero(llen))
            };
            let l_new = var_at(lu, bidx, sidx, NameTag::Plain, llen);
            let r_new = var_at(ru, bidx, sidx, NameTag::Plain, rlen);
            let r_cleared = eqf(r_new, cleared(r_ori, rlen, ridx));
            let l_takes = eqf(l_new, spliced(l_ori, llen, lidx, BvTerm::Extract(Box::new(r_ori), ridx as usize, ridx as usize)));
            let goal = if is_move {
                w.goal.push(r_cleared).push(l_takes)
            } else {
                w.goal.push(or2(and2(r_cleared, l_takes), and2(eqf(l_new, cleared(l_ori, llen, lidx)), eqf(r_new, r_ori))))
            };
            let w2 = mk_view(w.len, w.var.update(lu, IntraVar::Init(l_new)).update(ru, IntraVar::Init(r_new)), w.ty, w.layout, w.taint, goal);
            taint_moved(w2, lu, ru)
        }
    }
}

/// `l.f = r.g` can be encoded: see `from_field_fits` and `to_field_fits`
/// for one field; a move whose right side has no field while its left side
/// has one is left out, as it reads a field that is not there; with two
/// fields, each field lies within its local's layout, the layouts fit
/// 64-bit constants, and an existing left local's bit vector is as wide as
/// its type's layout.
pub open spec fn field_to_field_fits(
    v: FlowView,
    lu: int,
    ru: int,
    lproj: ProjState,
    rproj: ProjState,
    lty: TyShape,
    disc: Option<usize>,
    rty: TyShape,
    rvariant: Option<usize>,
    is_move: bool,
) -> bool {
    !(v.var[lu] is Unsupported) && !(v.var[ru] is Unsupported) && v.var[ru] is Init && !rproj.3 && !lproj.3 ==> {
        &&& rproj.0.len() > 0 && lproj.0.len() == 0 ==> from_field_fits(v, ru, rproj, rty, rvariant)
        &&& rproj.0.len() == 0 && lproj.0.len() > 0 ==> {
            &&& !is_move
            &&& left_typed(lproj, lty, disc)
            &&& to_field_fits(v, lu, lproj, lty, disc)
        }
        &&& rproj.0.len() > 0 && lproj.0.len() > 0 ==> {
            &&& indexable(lty, disc)
            &&& variant_ok(lty, disc)
            &&& default_req(lty, disc) && default_layout(lty, disc).len() > 0 ==> {
                &&& lproj.0[0] < default_layout(lty, disc).len()
                &&& default_layout(lty, disc).len() <= 64
                &&& v.var[lu] is Init ==> v.len[lu] == default_layout(lty, disc).len()
                &&& v.len[ru] > 0 ==> rproj.0[0] < v.len[ru] && v.len[ru] <= 64
            }
        }
    }
}

impl IntraFlowAnalysis {
    /// `l.f = r.g` (a copy when `is_move` is false), see
    /// `field_to_field_assign`.
    fn assign_field_to_field(&mut self, lplace: &FlowPlace, rplace: &FlowPlace, disc: Option<usize>, bidx: usize, sidx: usize, is_move: bool)
        requires
            old(self).flow_ok(),
            pair_ok(old(self)@, *lplace, *rplace),
            field_to_field_fits(old(self)@, lplace.local as int, rplace.local as int, proj_run(lplace.projection@), proj_run(rplace.projection@),
                old(self).local_tys@[lplace.local as int], disc, rplace.ty, rplace.variant, is_move),
        ensures
            final(self).flow_ok(),
            final(self).frame_kept(old(self)),
            final(self)@ == field_to_field_assign(old(self)@, lplace.local as int, rplace.local as int, proj_run(lplace.projection@),
                proj_run(rplace.projection@), old(self).local_tys@[lplace.local as int], disc, rplace.ty, rplace.variant, old(self).arg_count,
                bidx, sidx, is_move),
    {
        let lu = lplace.local;
        let ru = rplace.local;
        if self.icx_slice.var[lu].is_unsupported() || self.icx_slice.var[ru].is_unsupported() {
            self.unsupported_pair(lu, ru);
            return;
        }
        if !self.icx_slice.var[ru].is_init() {
            return;
        }
        let rpj = extract_projection(&rplace.projection);
        if rpj.is_unsupported() {
            self.unsupported_pair(lu, ru);
            return;
        }
        let lpj = extract_projection(&lplace.projection);
        if lpj.is_unsupported() {
            self.unsupported_pair(lu, ru);
            return;
        }
        if rpj.has_field() && !lpj.has_field() {
            self.assign_from_field(lplace, rplace, bidx, sidx, is_move);
            return;
        } else if !rpj.has_field() && lpj.has_field() {
            self.assign_to_field(lplace, rplace, disc, bidx, sidx, is_move);
            return;
        } else if !rpj.has_field() {
            self.assign_whole(lplace, rplace, bidx, sidx, is_move);
            return;
        }
        let ghost lty = old(self).local_tys@[lu as int];
        let ridx = rpj.index_needed();
        let lidx = lpj.index_needed();
        let default = default_layout_of(&self.local_tys[lu], disc);
        if !default.get_requirement() || default.is_empty() {
            return;
        }
        let llen = default.layout().len();
        self.icx_slice.len.set(lu, llen);
        proof {
            assert(self@ =~= mk_view(old(self)@.len.update(lu as int, llen), old(self)@.var, old(self)@.ty, old(self)@.layout, old(self)@.taint, old(self)@.goal));
            assert forall|i: int| 0 <= i < self@.var.len() && (#[trigger] self@.var[i]) is Init implies sorted(self@.var[i]->Init_0) by {
                assert(self@.var[i] == old(self)@.var[i]);
            }
        }
        if self.icx_slice.len[ru] == 0 {
            return;
        }
        let rlen = self.icx_slice.len[ru];
        let r_ori = self.icx_slice.var[ru].extract();
        proof {
            assert(sorted(old(self)@.var[ru as int]->Init_0));
            lemma_sorted_width(r_ori);
        }
        let l_ori: BvTerm;
        if self.icx_slice.var[lu].is_init() {
            l_ori = self.icx_slice.var[lu].extract();
            proof {
                assert(sorted(old(self)@.var[lu as int]->Init_0));
            }
            if lu > self.arg_count {
                let f = Formula::Eq(BvTerm::Extract(Box::new(l_ori.duplicate()), lidx, lidx), BvTerm::Lit(0, 1));
                proof {
                    reveal_with_fuel(sorted, 2);
                    reveal_with_fuel(width, 2);
                }
                self.push_goal(f);
            }
        } else {
            let c = BvTerm::Var(VarName { local: lu, bidx, sidx, tag: NameTag::CtorAsgn }, llen);
            self.push_goal(Formula::Eq(c, BvTerm::Lit(0, llen)));
            l_ori = BvTerm::Lit(0, llen);
            let t = IndexedTy::new(&self.local_tys[lu], disc);
            self.icx_slice.ty.set(lu, t);
            let lay = copy_vec(default.layout());
            self.icx_slice.layout.set(lu, lay);
        }
        let l_new = BvTerm::Var(VarName { local: lu, bidx, sidx, tag: NameTag::Plain }, llen);
        let r_new = BvTerm::Var(VarName { local: ru, bidx, sidx, tag: NameTag::Plain }, rlen);
        let rmask = mask_vec(rlen, ridx);
        let rmask_int = rustbv_to_int(&rmask);
        let r_cleared = Formula::Eq(r_new.duplicate(), BvTerm::And(Box::new(r_ori.duplicate()), Box::new(BvTerm::Lit(rmask_int, rlen))));
        let bit = BvTerm::Extract(Box::new(r_ori.duplicate()), ridx, ridx);
        proof {
            reveal_with_fuel(sorted, 2);
            reveal_with_fuel(width, 2);
            lemma_spliced(l_ori, llen as int, lidx as int, bit);
        }
        let l_takes = Formula::Eq(l_new.duplicate(), splice(&l_ori, llen, lidx, bit));
        if is_move {
            self.push_goal(r_cleared);
            self.push_goal(l_takes);
        } else {
            let lmask = mask_vec(llen, lidx);
            let lmask_int = rustbv_to_int(&lmask);
            let keep = Formula::And(
                Box::new(Formula::Eq(l_new.duplicate(), BvTerm::And(Box::new(l_ori), Box::new(BvTerm::Lit(lmask_int, llen))))),
                Box::new(Formula::Eq(r_new.duplicate(), r_ori)),
            );
            proof {
                reveal_with_fuel(well_sorted, 3);
            }
            self.push_goal(Formula::Or(Box::new(Formula::And(Box::new(r_cleared), Box::new(l_takes))), Box::new(keep)));
        }
        self.icx_slice.var.set(lu, IntraVar::Init(l_new));
        self.icx_slice.var.set(ru, IntraVar::Init(r_new));
        proof {
            assert forall|i: int| 0 <= i < self@.var.len() && (#[trigger] self@.var[i]) is Init implies sorted(self@.var[i]->Init_0) by {
                if i != lu && i != ru {
                    assert(self@.var[i] == old(self)@.var[i]);
                }
            }
        }
        self.handle_taint(lu, ru);
        proof {
            assert(self@ =~= field_to_field_assign(old(self)@, lu as int, ru as int, proj_run(lplace.projection@), proj_run(rplace.projection@),
                lty, disc, rplace.ty, rplace.variant, old(self).arg_count, bidx, sidx, is_move));
        }
    }

    /// `l.f = r.g`, a copy (see `field_to_field_assign`).
    pub fn handle_copy_field_to_field(&mut self, _kind: AsgnKind, lplace: &FlowPlace, rplace: &FlowPlace, disc: Option<usize>, bidx: usize, sidx: usize)
        requires
            old(self).flow_ok(),
            pair_ok(old(self)@, *lplace, *rplace),
            field_to_field_fits(old(self)@, lplace.local as int, rplace.local as int, proj_run(lplace.projection@), proj_run(rplace.projection@),
                old(self).local_tys@[lplace.local as int], disc, rplace.ty, rplace.variant, false),
        ensures
            final(self).flow_ok(),
            final(self).frame_kept(old(self)),
            final(self)@ == field_to_field_assign(old(self)@, lplace.local as int, rplace.local as int, proj_run(lplace.projection@),
                proj_run(rplace.projection@), old(self).local_tys@[lplace.local as int], disc, rplace.ty, rplace.variant, old(self).arg_count,
                bidx, sidx, false),
    {
        self.assign_field_to_field(lplace, rplace, disc, bidx, sidx, false);
    }

    /// `l.f = move r.g` (see `field_to_field_assign`).
    pub fn handle_move_field_to_field(&mut self, _kind: AsgnKind, lplace: &FlowPlace, rplace: &FlowPlace, disc: Option<usize>, bidx: usize, sidx: usize)
        requires
            old(self).flow_ok(),
            pair_ok(old(self)@, *lplace, *rplace),
            field_to_field_fits(old(self)@, lplace.local as int, rplace.local as int, proj_run(lplace.projection@), proj_run(rplace.projection@),
                old(self).local_tys@[lplace.local as int], disc, rplace.ty, rplace.variant, true),
        ensures
            final(self).flow_ok(),
            final(self).frame_kept(old(self)),
            final(self)@ == field_to_field_assign(old(self)@, lplace.local as int, rplace.local as int, proj_run(lplace.projection@),
                proj_run(rplace.projection@), old(self).local_tys@[lplace.local as int], disc, rplace.ty, rplace.variant, old(self).arg_count,
                bidx, sidx, true),
    {
        self.assign_field_to_field(lplace, rplace, disc, bidx, sidx, true);
    }
}


/// What dropping the place `dest` (local `u`, projection read `proj`) does
/// at block `bidx`; with `recovery`, a pointer hands back the memory it
/// took. A local with an empty layout, only declared or unsupported is
/// left alone; an unsupported projection makes it unsupported. A whole
/// drop gives the local a fresh variable: all clear when recovering, else
/// the old bits kept only on its unowned slots. A field drop beyond the
/// layout does nothing; one whose slot the drop does not change keeps the
/// bits; otherwise the field's bit is cleared.
pub open spec fn drop_effect(v: FlowView, u: int, proj: ProjState, bidx: usize, recovery: bool) -> FlowView {
    let len = v.len[u] as int;
    let rust_bv = unowned_bits(v.layout[u]);
    if len == 0 || v.var[u] is Declared || v.var[u] is Unsupported {
        v
    } else if proj.3 {
        unsup(v, u)
    } else {
        let ori = v.var[u]->Init_0;
        if proj.0.len() == 0 {
            let (new, f) = if recovery {
                let new = var_at(u, bidx, 0, NameTag::DropRecovery, len);
                (new, eqf(new, BvTerm::And(Box::new(ori), Box::new(zero(len)))))
            } else {
                let new = var_at(u, bidx, 0, NameTag::DropAll, len);
                (new, eqf(new, BvTerm::And(Box::new(ori), Box::new(BvTerm::Lit(bits_value(rust_bv) as u64, len as usize)))))
            };
            mk_view(v.len, v.var.update(u, IntraVar::Init(new)), v.ty, v.layout, v.taint, v.goal.push(f))
        } else {
            let idx = proj.0[0] as int;
            if idx >= rust_bv.len() {
                v
            } else {
                let new = var_at(u, bidx, 0, if recovery { NameTag::DropFieldRecovery } else { NameTag::DropField }, len);
                let f = if (rust_bv[idx] && !recovery) || (!rust_bv[idx] && recovery) {
                    eqf(new, ori)
                } else {
                    eqf(new, spliced(ori, len, idx, BvTerm::Lit(0, 1)))
                };
                mk_view(v.len, v.var.update(u, IntraVar::Init(new)), v.ty, v.layout, v.taint, v.goal.push(f))
            }
        }
    }
}

/// A drop can be encoded: a whole drop's unowned slots fit a 64-bit
/// constant, and a dropped field lies within the local's bit vector.
pub open spec fn drop_fits(v: FlowView, u: int, proj: ProjState, recovery: bool) -> bool {
    v.len[u] > 0 && v.var[u] is Init && !proj.3 ==> {
        &&& proj.0.len() == 0 && !recovery ==> unowned_bits(v.layout[u]).len() <= 64
        &&& proj.0.len() > 0 && proj.0[0] < unowned_bits(v.layout[u]).len() ==> proj.0[0] < v.len[u]
    }
}

impl IntraFlowAnalysis {
    /// Drops the place `dest` at block `bidx` (see `drop_effect`).
    pub fn handle_drop(&mut self, dest: &FlowPlace, bidx: usize, recovery: bool)
        requires
            old(self).flow_ok(),
            dest.local < old(self)@.len.len(),
            consistent(old(self)@, dest.local as int),
            drop_fits(old(self)@, dest.local as int, proj_run(dest.projection@), recovery),
        ensures
            final(self).flow_ok(),
            final(self).frame_kept(old(self)),
            final(self)@ == drop_effect(old(self)@, dest.local as int, proj_run(dest.projection@), bidx, recovery),
            forall|i: int| 0 <= i < old(self)@.len.len() && consistent(old(self)@, i) ==> consistent(final(self)@, i),
    {
        let u = dest.local;
        if self.icx_slice.len[u] == 0 {
            return;
        }
        if self.icx_slice.var[u].is_declared() || self.icx_slice.var[u].is_unsupported() {
            return;
        }
        let len = self.icx_slice.len[u];
        let rust_bv = reverse_ownership_layout_to_rustbv(&self.icx_slice.layout[u]);
        let ori = self.icx_slice.var[u].extract();
        proof {
            assert(sorted(old(self)@.var[u as int]->Init_0));
            lemma_sorted_width(ori);
            assert(rust_bv@ == unowned_bits(old(self)@.layout[u as int]));
        }
        let f = extract_projection(&dest.projection);
        if f.is_unsupported() {
            self.handle_intra_var_unsupported(u);
            return;
        }
        let new_var: BvTerm;
        if !f.has_field() {
            if recovery {
                new_var = BvTerm::Var(VarName { local: u, bidx, sidx: 0, tag: NameTag::DropRecovery }, len);
                proof {
                    reveal_with_fuel(sorted, 2);
                    reveal_with_fuel(width, 2);
                }
                self.push_goal(Formula::Eq(new_var.duplicate(), BvTerm::And(Box::new(ori), Box::new(BvTerm::Lit(0, len)))));
            } else {
                new_var = BvTerm::Var(VarName { local: u, bidx, sidx: 0, tag: NameTag::DropAll }, len);
                let int_bv = rustbv_to_int(&rust_bv);
                proof {
                    reveal_with_fuel(sorted, 2);
                    reveal_with_fuel(width, 2);
                }
                self.push_goal(Formula::Eq(new_var.duplicate(), BvTerm::And(Box::new(ori), Box::new(BvTerm::Lit(int_bv, len)))));
            }
        } else {
            let idx = f.index_needed();
            if idx >= rust_bv.len() {
                return;
            }
            let tag = if recovery {
                NameTag::DropFieldRecovery
            } else {
                NameTag::DropField
            };
            new_var = BvTerm::Var(VarName { local: u, bidx, sidx: 0, tag }, len);
            if (rust_bv[idx] && !recovery) || (!rust_bv[idx] && recovery) {
                self.push_goal(Formula::Eq(new_var.duplicate(), ori));
            } else {
                proof {
                    lemma_spliced(ori, len as int, idx as int, BvTerm::Lit(0, 1));
                }
                let fin = splice(&ori, len, idx, BvTerm::Lit(0, 1));
                self.push_goal(Formula::Eq(new_var.duplicate(), fin));
            }
        }
        self.icx_slice.var.set(u, IntraVar::Init(new_var));
        proof {
            assert forall|i: int| 0 <= i < self@.var.len() && (#[trigger] self@.var[i]) is Init implies sorted(self@.var[i]->Init_0) by {
                if i != u {
                    assert(self@.var[i] == old(self)@.var[i]);
                }
            }
            assert(self@ =~= drop_effect(old(self)@, u as int, proj_run(dest.projection@), bidx, recovery));
        }
    }
}


/// The constraints that every local but the arguments and the return
/// place (taken in order up to `k`) owns nothing when the function
/// returns at block `bidx`: a known local with a layout gets a variable
/// equal to its bits and to 0.
pub open spec fn return_formulas(v: FlowView, arg_count: usize, bidx: usize, k: int) -> Seq<Formula>
    decreases k,
{
    if k <= 0 {
        Seq::empty()
    } else {
        let prev = return_formulas(v, arg_count, bidx, k - 1);
        let i = k - 1;
        let len = v.len[i] as int;
        if len == 0 || i <= arg_count || !(v.var[i] is Init) {
            prev
        } else {
            let r = var_at(i, bidx, 0, NameTag::Return, len);
            prev.push(and2(eqf(r, v.var[i]->Init_0), eqf(r, zero(len))))
        }
    }
}

/// What returning at block `bidx` does: the return place is dropped, then
/// every other local but the arguments must own nothing.
pub open spec fn return_effect(v: FlowView, arg_count: usize, bidx: usize) -> FlowView {
    let w = drop_effect(v, 0, proj_run(Seq::empty()), bidx, false);
    mk_view(w.len, w.var, w.ty, w.layout, w.taint, w.goal + return_formulas(w, arg_count, bidx, w.len.len() as int))
}

/// A return can be encoded: see `drop_fits` for the return place; every
/// known local but the arguments has a bit vector as wide as its layout.
pub open spec fn return_fits(v: FlowView, arg_count: usize) -> bool {
    &&& v.len.len() > 0
    &&& consistent(v, 0)
    &&& drop_fits(v, 0, proj_run(Seq::empty()), false)
    &&& forall|i: int| 0 <= i < v.len.len() && i > arg_count ==> consistent(v, i)
}

impl IntraFlowAnalysis {
    /// Returns from the function at block `bidx` (see `return_effect`); the
    /// constraints are then solved by the caller (see `leak_report`).
    pub fn handle_return(&mut self, bidx: usize)
        requires
            old(self).flow_ok(),
            return_fits(old(self)@, old(self).arg_count),
        ensures
            final(self).flow_ok(),
            final(self).frame_kept(old(self)),
            final(self)@ == return_effect(old(self)@, old(self).arg_count, bidx),
    {
        let place_0 = FlowPlace { local: 0, projection: Vec::new(), ty: TyShape::Other, variant: None };
        self.handle_drop(&place_0, bidx, false);
        let ghost w = self@;
        let n = self.icx_slice.var.len();
        let mut i: usize = 0;
        proof {
            assert(w.goal + return_formulas(w, self.arg_count, bidx, 0) =~= w.goal);
            assert(self@ =~= mk_view(w.len, w.var, w.ty, w.layout, w.taint, w.goal + return_formulas(w, self.arg_count, bidx, 0)));
        }
        while i < n
            invariant
                self.flow_ok(),
                self.frame_kept(old(self)),
                n == w.len.len(),
                i <= n,
                forall|j: int| 0 <= j < w.len.len() && j > old(self).arg_count ==> consistent(w, j),
                self@ == mk_view(w.len, w.var, w.ty, w.layout, w.taint, w.goal + return_formulas(w, old(self).arg_count, bidx, i as int)),
            decreases n - i,
        {
            let len = self.icx_slice.len[i];
            if len != 0 && i > self.arg_count && self.icx_slice.var[i].is_init() {
                let ori = self.icx_slice.var[i].extract();
                proof {
                    assert(sorted(w.var[i as int]->Init_0));
                    assert(consistent(w, i as int));
                }
                let r = BvTerm::Var(VarName { local: i, bidx, sidx: 0, tag: NameTag::Return }, len);
                let f = Formula::And(Box::new(Formula::Eq(r.duplicate(), ori)), Box::new(Formula::Eq(r, BvTerm::Lit(0, len))));
                proof {
                    reveal_with_fuel(well_sorted, 2);
                }
                self.push_goal(f);
            }
            proof {
                assert(self@ =~= mk_view(w.len, w.var, w.ty, w.layout, w.taint, w.goal + return_formulas(w, old(self).arg_count, bidx, i + 1)));
            }
            i = i + 1;
        }
    }

    /// What the solver's answer on the constraints means: when they cannot
    /// all hold (`unsat`) in a function that turned a value into a pointer
    /// that must hand ownership back, a leak is reported, with the calls
    /// that did so.
    pub fn leak_report(&self, unsat: bool) -> (res: Option<Vec<usize>>)
        ensures
            res is Some <==> (unsat && self.taint_flag),
            res is Some ==> res->0@ == self.taint_source@,
    {
        if unsat && self.taint_flag {
            Some(copy_vec(&self.taint_source))
        } else {
            None
        }
    }
}


/// The place an operand reads, if any.
pub open spec fn op_place(o: FlowOperand) -> Option<FlowPlace> {
    match o {
        FlowOperand::Copy(p) => Some(p),
        FlowOperand::Move(p) => Some(p),
        FlowOperand::Constant => None,
    }
}

/// A call with these arguments and destination turns an owning value into
/// a pointer: one moved argument whose type's default layout owns heap
/// memory, and a destination type that holds a pointer.
pub open spec fn fn_source(args: Seq<FlowOperand>, dest: FlowPlace) -> bool {
    &&& args.len() == 1
    &&& contains_ptr(dest.ty)
    &&& args[0] matches FlowOperand::Move(a) && default_owned(a.ty, a.variant)
}

/// The locals among `args` (in order, each time it occurs) whose taint
/// holds the type `t`.
pub open spec fn tainted_args(v: FlowView, args: Seq<FlowOperand>, t: IndexedTy) -> Seq<usize>
    decreases args.len(),
{
    if args.len() == 0 {
        Seq::empty()
    } else {
        let prev = tainted_args(v, args.drop_last(), t);
        match op_place(args.last()) {
            Some(p) => if v.taint[p.local as int].len() > 0 && v.taint[p.local as int].contains(t) {
                prev.push(p.local)
            } else {
                prev
            },
            None => prev,
        }
    }
}

/// The arguments of a call that hand back ownership to its destination:
/// those tainted with the destination's type, when the call has arguments
/// and the destination's layout has slots to track.
pub open spec fn recovery_args(v: FlowView, args: Seq<FlowOperand>, dest: FlowPlace) -> Seq<usize> {
    if args.len() == 0 || !default_req(dest.ty, dest.variant) || default_layout(dest.ty, dest.variant).len() == 0 {
        Seq::empty()
    } else {
        tainted_args(v, args, IndexedTy(indexed_spec(dest.ty, dest.variant)))
    }
}

/// Every place an operand reads is a local of the body whose type has the
/// variant it names.
pub open spec fn operands_ok(v: FlowView, args: Seq<FlowOperand>) -> bool {
    forall|k: int| 0 <= k < args.len() ==> match #[trigger] op_place(args[k]) {
        Some(p) => p.local < v.len.len() && variant_ok(p.ty, p.variant) && indexable(p.ty, p.variant),
        None => true,
    }
}

/// A call is a taint source (it turns an owning value into a pointer) only
/// when its destination's type holds a pointer: a raw pointer, a
/// reference, or a tuple with a pointer field. So a call whose destination
/// is a scalar, an array, an ADT, a parameter or any other type without a
/// pointer never is one, and never sets the taint flag nor records a
/// taint source (see `handle_call`).
pub proof fn lemma_call_source_needs_pointer(args: Seq<FlowOperand>, dest: FlowPlace)
    ensures
        fn_source(args, dest) ==> match dest.ty {
            TyShape::RawPtr => true,
            TyShape::Ref => true,
            TyShape::Tuple(fs) => exists|i: int| 0 <= i < fs@.len() && #[trigger] fs@[i].is_ptr,
            _ => false,
        },
        dest.ty is Scalar ==> !fn_source(args, dest),
        dest.ty is Adt ==> !fn_source(args, dest),
        dest.ty is Array ==> !fn_source(args, dest),
        dest.ty is Param ==> !fn_source(args, dest),
        dest.ty is Other ==> !fn_source(args, dest),
{
}

impl IntraFlowAnalysis {
    /// Whether the call turns an owning value into a pointer (see
    /// `fn_source`); if so, the function is marked as holding such a
    /// pointer.
    pub fn check_fn_source(&mut self, args: &Vec<FlowOperand>, dest: &FlowPlace) -> (res: bool)
        requires
            old(self).flow_ok(),
            operands_ok(old(self)@, args@),
        ensures
            res == fn_source(args@, *dest),
            final(self).taint_flag == (old(self).taint_flag || res),
            final(self)@ == old(self)@,
            final(self).flow_ok(),
            final(self).local_tys == old(self).local_tys,
            final(self).arg_count == old(self).arg_count,
            final(self).taint_source == old(self).taint_source,
            final(self).icx_out == old(self).icx_out,
            final(self).pre == old(self).pre,
    {
        if args.len() != 1 {
            return false;
        }
        if !is_place_containing_ptr(&dest.ty) {
            return false;
        }
        match &args[0] {
            FlowOperand::Move(a) => {
                proof {
                    assert(op_place(args@[0]) == Some(*a));
                }
                let d = default_layout_of(&a.ty, a.variant);
                if d.is_owned() {
                    self.taint_flag = true;
                    true
                } else {
                    false
                }
            },
            _ => false,
        }
    }

    /// The arguments that hand back ownership to the destination, and
    /// whether there are any (see `recovery_args`).
    pub fn check_fn_recovery(&self, args: &Vec<FlowOperand>, dest: &FlowPlace) -> (res: (bool, Vec<usize>))
        requires
            self.flow_ok(),
            operands_ok(self@, args@),
            variant_ok(dest.ty, dest.variant),
            indexable(dest.ty, dest.variant),
        ensures
            res.1@ == recovery_args(self@, args@, *dest),
            res.0 == (res.1@.len() > 0),
    {
        let mut ans: Vec<usize> = Vec::new();
        if args.len() == 0 {
            return (false, ans);
        }
        let d = default_layout_of(&dest.ty, dest.variant);
        if !d.get_requirement() || d.is_empty() {
            return (false, ans);
        }
        let t = IndexedTy::new(&dest.ty, dest.variant);
        let mut found = false;
        let mut k: usize = 0;
        while k < args.len()
            invariant
                k <= args@.len(),
                self.flow_ok(),
                operands_ok(self@, args@),
                ans@ == tainted_args(self@, args@.take(k as int), t),
                found == (ans@.len() > 0),
            decreases args@.len() - k,
        {
            proof {
                assert(args@.take(k + 1).drop_last() =~= args@.take(k as int));
                assert(args@.take(k + 1).last() == args@[k as int]);
            }
            match &args[k] {
                FlowOperand::Move(a) => {
                    proof {
                        assert(op_place(args@[k as int]) == Some(*a));
                    }
                    let au = a.local;
                    if self.icx_slice.taint[au].len() > 0 && taint_contains(&self.icx_slice.taint[au], &t) {
                        found = true;
                        ans.push(au);
                    }
                },
                FlowOperand::Copy(a) => {
                    proof {
                        assert(op_place(args@[k as int]) == Some(*a));
                    }
                    let au = a.local;
                    if self.icx_slice.taint[au].len() > 0 && taint_contains(&self.icx_slice.taint[au], &t) {
                        found = true;
                        ans.push(au);
                    }
                },
                FlowOperand::Constant => {},
            }
            k = k + 1;
        }
        proof {
            assert(args@.take(args@.len() as int) =~= args@);
        }
        (found, ans)
    }
}


/// The taint `t` with the type `x` added, unless it holds it.
pub open spec fn taint_insert(t: Seq<IndexedTy>, x: IndexedTy) -> Seq<IndexedTy> {
    if t.contains(x) {
        t
    } else {
        t.push(x)
    }
}

/// A raw pointer or a reference.
pub open spec fn is_any_ptr(ty: TyShape) -> bool {
    ty is RawPtr || ty is Ref
}

/// The place `p` passed to a call at block `bidx` (moved when `is_move`),
/// the call's destination local being `lu`: a local with an empty layout
/// or not known is left alone. A moved argument gives its type to the
/// destination's taint when the call turns it into a pointer (`source`).
/// A pointer that is to hand ownership back (`rec`) does so; another
/// pointer passed whole must own nothing and keeps its bits in a fresh
/// variable, one passed through a field keeps its bits; a moved value that
/// is not a pointer is dropped; a copied one keeps its bits; a deeper
/// projection makes the local unsupported.
pub open spec fn pass_arg(v: FlowView, p: FlowPlace, is_move: bool, lu: int, source: bool, rec: Seq<usize>, bidx: usize) -> FlowView {
    let au = p.local as int;
    if v.len[au] == 0 || !(v.var[au] is Init) {
        v
    } else {
        let v1 = if is_move && source {
            mk_view(v.len, v.var, v.ty, v.layout, v.taint.update(lu, taint_insert(v.taint[lu], IndexedTy(indexed_spec(p.ty, p.variant)))), v.goal)
        } else {
            v
        };
        let a_ori = v.var[au]->Init_0;
        let alen = v.len[au] as int;
        let pp = var_at(au, bidx, 0, NameTag::ParamPass, alen);
        let proj = proj_run(p.projection@);
        let keep = mk_view(v1.len, v1.var, v1.ty, v1.layout, v1.taint, v1.goal.push(eqf(pp, a_ori)));
        if p.projection@.len() == 0 {
            if is_any_ptr(p.ty) {
                if rec.contains(p.local) {
                    drop_effect(v1, au, proj, bidx, true)
                } else {
                    mk_view(v1.len, v1.var.update(au, IntraVar::Init(pp)), v1.ty, v1.layout, v1.taint, v1.goal.push(eqf(a_ori, zero(alen))).push(eqf(pp, a_ori)))
                }
            } else if is_move {
                drop_effect(v1, au, proj, bidx, false)
            } else {
                keep
            }
        } else if p.projection@.len() == 1 {
            if is_move && is_any_ptr(p.ty) {
                if rec.contains(p.local) {
                    drop_effect(v1, au, proj, bidx, true)
                } else {
                    keep
                }
            } else if is_move {
                drop_effect(v1, au, proj, bidx, false)
            } else {
                keep
            }
        } else {
            unsup(v1, au)
        }
    }
}

/// One argument of a call (see `pass_arg`); a constant changes nothing.
pub open spec fn call_arg_step(v: FlowView, a: FlowOperand, lu: int, source: bool, rec: Seq<usize>, bidx: usize) -> FlowView {
    match a {
        FlowOperand::Move(p) => pass_arg(v, p, true, lu, source, rec, bidx),
        FlowOperand::Copy(p) => pass_arg(v, p, false, lu, source, rec, bidx),
        FlowOperand::Constant => v,
    }
}

/// The arguments passed in order.
pub open spec fn call_args(v: FlowView, args: Seq<FlowOperand>, lu: int, source: bool, rec: Seq<usize>, bidx: usize) -> FlowView
    decreases args.len(),
{
    if args.len() == 0 {
        v
    } else {
        call_arg_step(call_args(v, args.drop_last(), lu, source, rec, bidx), args.last(), lu, source, rec, bidx)
    }
}

/// What a call's result does to its destination `dest` (`lty` the
/// declared type of its local): an unsupported destination is left alone.
/// A whole destination whose type has slots to track gets a fresh variable
/// holding its type's owned slots (its pointer slots too when the call
/// turns a value into a pointer), after an existing one must have owned
/// nothing; a field destination gets its field's bit set when the call
/// turns a value into a pointer or the field's slot is owned, after an
/// existing one's field must have owned nothing; a deeper projection makes
/// the destination unsupported.
pub open spec fn call_return(v: FlowView, dest: FlowPlace, lty: TyShape, source: bool, bidx: usize) -> FlowView {
    let lu = dest.local as int;
    if v.var[lu] is Unsupported {
        v
    } else if dest.projection@.len() == 0 {
        let lay = default_layout(dest.ty, dest.variant);
        if lay.len() == 0 || !default_req(dest.ty, dest.variant) {
            v
        } else {
            let kv = bits_value(keep_bits(dest.ty, dest.variant, source));
            let llen = lay.len() as int;
            let p = priority_of(indexed_spec(dest.ty, dest.variant));
            if !(v.var[lu] is Init) && p == 0 {
                unsup(v, lu)
            } else if !(v.var[lu] is Init) && p == 1 {
                v
            } else {
                let ctor = !(v.var[lu] is Init);
                let w = if ctor {
                    mk_view(v.len, v.var, v.ty.update(lu, IndexedTy(indexed_spec(dest.ty, dest.variant))), v.layout.update(lu, lay), v.taint, v.goal)
                } else {
                    mk_view(v.len, v.var, v.ty, v.layout, v.taint, v.goal.push(eqf(v.var[lu]->Init_0, zero(v.len[lu] as int))))
                };
                let l_new = var_at(lu, bidx, 0, if ctor { NameTag::CtorFn } else { NameTag::CoverFn }, llen);
                mk_view(w.len.update(lu, llen as usize), w.var.update(lu, IntraVar::Init(l_new)), w.ty, w.layout, w.taint,
                    w.goal.push(eqf(l_new, BvTerm::Lit(kv as u64, llen as usize))))
            }
        }
    } else if dest.projection@.len() == 1 {
        let lay = default_layout(lty, None);
        if lay.len() == 0 || !default_req(lty, None) {
            v
        } else {
            let llen = v.len[lu] as int;
            let idx = proj_run(dest.projection@).0[0] as int;
            let (w, l_ori) = if v.var[lu] is Init {
                let l_ori = v.var[lu]->Init_0;
                (mk_view(v.len, v.var, v.ty, v.layout, v.taint, v.goal.push(eqf(BvTerm::Extract(Box::new(l_ori), idx as usize, idx as usize), zero(1)))), l_ori)
            } else {
                (mk_view(v.len, v.var, v.ty.update(lu, IndexedTy(indexed_spec(lty, None))), v.layout.update(lu, lay), v.taint,
                    v.goal.push(eqf(var_at(lu, bidx, 0, NameTag::CtorFn, llen), zero(llen)))), zero(llen))
            };
            let l_new = var_at(lu, bidx, 0, NameTag::Plain, llen);
            let bit = if source || lay[idx] == RawTypeOwner::Owned {
                BvTerm::Lit(1, 1)
            } else {
                BvTerm::Lit(0, 1)
            };
            mk_view(w.len.update(lu, lay.len() as usize), w.var.update(lu, IntraVar::Init(l_new)), w.ty, w.layout, w.taint,
                w.goal.push(eqf(l_new, spliced(l_ori, llen, idx, bit))))
        }
    } else {
        unsup(v, lu)
    }
}

/// A call of `std::mem::drop` on a moved value, with a destination of an
/// ADT type.
pub open spec fn is_mem_drop(fn_index: Option<usize>, args: Seq<FlowOperand>, dest: FlowPlace) -> bool {
    &&& fn_index == Some(MEM_DROP_INDEX)
    &&& args.len() > 0
    &&& args[0] is Move
    &&& dest.ty is Adt
}

/// What a call at block `bidx` does (`lty` the declared type of the
/// destination's local): a `std::mem::drop` of a moved value drops it;
/// otherwise the arguments are passed in order (see `pass_arg`), then the
/// result is written (see `call_return`).
pub open spec fn call_effect(v: FlowView, fn_index: Option<usize>, args: Seq<FlowOperand>, dest: FlowPlace, lty: TyShape, bidx: usize) -> FlowView {
    if is_mem_drop(fn_index, args, dest) {
        let a = op_place(args[0])->0;
        drop_effect(v, a.local as int, proj_run(a.projection@), bidx, false)
    } else {
        let source = fn_source(args, dest);
        call_return(call_args(v, args, dest.local as int, source, recovery_args(v, args, dest), bidx), dest, lty, source, bidx)
    }
}

/// A call's result can be encoded: the layouts fit 64-bit constants, a
/// tainted type's layout and pointer layout have one length, an existing
/// destination's bit vector is as wide as its layout, and a field
/// destination's projection holds a field that lies within its type's
/// layout and its local's (non-empty) bit vector.
pub open spec fn call_return_fits(v: FlowView, dest: FlowPlace, lty: TyShape, source: bool) -> bool {
    let lu = dest.local as int;
    !(v.var[lu] is Unsupported) ==> {
        &&& consistent(v, lu)
        &&& dest.projection@.len() == 0 && default_layout(dest.ty, dest.variant).len() > 0 && default_req(dest.ty, dest.variant) ==> {
            &&& owned_bits(default_layout(dest.ty, dest.variant)).len() <= 64
            &&& source ==> owned_bits(default_layout(dest.ty, dest.variant)).len() == ptr_layout_spec(dest.ty, dest.variant).len()
        }
        &&& dest.projection@.len() == 1 && default_layout(lty, None).len() > 0 && default_req(lty, None) ==> {
            &&& owned_bits(default_layout(lty, None)).len() <= 64
            &&& proj_run(dest.projection@).0.len() > 0
            &&& proj_run(dest.projection@).0[0] < default_layout(lty, None).len()
            &&& proj_run(dest.projection@).0[0] < v.len[lu]
        }
    }
}

/// A call's arguments can be encoded: see `drop_fits`, for the drop and
/// the hand-back of each argument's local, whose bit vector is as wide as
/// its layout.
pub open spec fn call_args_fit(v: FlowView, args: Seq<FlowOperand>) -> bool {
    forall|k: int| 0 <= k < args.len() ==> match #[trigger] op_place(args[k]) {
        Some(p) => {
            &&& consistent(v, p.local as int)
            &&& drop_fits(v, p.local as int, proj_run(p.projection@), true)
            &&& drop_fits(v, p.local as int, proj_run(p.projection@), false)
        },
        None => true,
    }
}

/// What a state reached by passing arguments keeps of the state `v` it
/// started from: the layouts, the width of every layout (unless it was
/// emptied), what was unknown, and consistent widths.
pub open spec fn args_kept(v: FlowView, w: FlowView) -> bool {
    &&& w.len.len() == v.len.len()
    &&& w.layout == v.layout
    &&& forall|i: int| 0 <= i < v.len.len() ==> (#[trigger] w.len[i] == v.len[i] || w.len[i] == 0)
    &&& forall|i: int| 0 <= i < v.len.len() && (#[trigger] w.var[i]) is Init ==> v.var[i] is Init
    &&& forall|i: int| 0 <= i < v.len.len() && consistent(v, i) ==> #[trigger] consistent(w, i)
}

/// A vector of indices holds `x`.
fn vec_contains(v: &Vec<usize>, x: usize) -> (res: bool)
    ensures
        res == v@.contains(x),
{
    let mut i: usize = 0;
    while i < v.len()
        invariant
            i <= v@.len(),
            forall|j: int| 0 <= j < i ==> v@[j] != x,
        decreases v@.len() - i,
    {
        if v[i] == x {
            assert(v@[i as int] == x);
            return true;
        }
        i = i + 1;
    }
    false
}


/// Passing arguments one after the other keeps what `args_kept` says.
proof fn lemma_args_kept_trans(a: FlowView, b: FlowView, c: FlowView)
    requires
        args_kept(a, b),
        args_kept(b, c),
    ensures
        args_kept(a, c),
{
    assert forall|i: int| 0 <= i < a.len.len() implies (#[trigger] c.len[i] == a.len[i] || c.len[i] == 0) by {
        assert(c.len[i] == b.len[i] || c.len[i] == 0);
        assert(b.len[i] == a.len[i] || b.len[i] == 0);
    }
    assert forall|i: int| 0 <= i < a.len.len() && (#[trigger] c.var[i]) is Init implies a.var[i] is Init by {
        assert(b.var[i] is Init);
    }
    assert forall|i: int| 0 <= i < a.len.len() && consistent(a, i) implies #[trigger] consistent(c, i) by {
        assert(consistent(b, i));
    }
}

/// What a drop needs of a local still holds after arguments were passed.
proof fn lemma_drop_fits_kept(v: FlowView, w: FlowView, u: int, proj: ProjState, recovery: bool)
    requires
        args_kept(v, w),
        0 <= u < v.len.len(),
        drop_fits(v, u, proj, recovery),
    ensures
        drop_fits(w, u, proj, recovery),
{
    if w.len[u] > 0 && w.var[u] is Init {
        assert(w.len[u] == v.len[u] || w.len[u] == 0);
        assert(v.var[u] is Init);
    }
}

impl IntraFlowAnalysis {
    /// Passes the place `p` to a call (see `pass_arg`).
    fn pass_arg_exec(&mut self, p: &FlowPlace, is_move: bool, lu: usize, source: bool, rec: &Vec<usize>, bidx: usize)
        requires
            old(self).flow_ok(),
            p.local < old(self)@.len.len(),
            lu < old(self)@.len.len(),
            indexable(p.ty, p.variant),
            consistent(old(self)@, p.local as int),
            drop_fits(old(self)@, p.local as int, proj_run(p.projection@), true),
            drop_fits(old(self)@, p.local as int, proj_run(p.projection@), false),
        ensures
            final(self).flow_ok(),
            final(self).frame_kept(old(self)),
            final(self)@ == pass_arg(old(self)@, *p, is_move, lu as int, source, rec@, bidx),
            args_kept(old(self)@, final(self)@),
    {
        let au = p.local;
        if self.icx_slice.len[au] == 0 || !self.icx_slice.var[au].is_init() {
            return;
        }
        let a_ori = self.icx_slice.var[au].extract();
        let alen = self.icx_slice.len[au];
        proof {
            assert(sorted(old(self)@.var[au as int]->Init_0));
            lemma_sorted_width(a_ori);
        }
        if is_move && source {
            let t = IndexedTy::new(&p.ty, p.variant);
            let mut lt = copy_vec(&self.icx_slice.taint[lu]);
            if !taint_contains(&lt, &t) {
                lt.push(t);
            }
            self.icx_slice.taint.set(lu, lt);
        }
        proof {
            let v = old(self)@;
            let v1 = if is_move && source {
                mk_view(v.len, v.var, v.ty, v.layout, v.taint.update(lu as int, taint_insert(v.taint[lu as int], IndexedTy(indexed_spec(p.ty, p.variant)))), v.goal)
            } else {
                v
            };
            assert(self@ =~= v1);
        }
        let ghost v1 = self@;
        let is_ptr = match p.ty {
            TyShape::RawPtr | TyShape::Ref => true,
            _ => false,
        };
        let pp = BvTerm::Var(VarName { local: au, bidx, sidx: 0, tag: NameTag::ParamPass }, alen);
        let plen = p.projection.len();
        if plen == 0 {
            if is_ptr {
                if vec_contains(rec, au) {
                    self.handle_drop(p, bidx, true);
                } else {
                    self.push_goal(Formula::Eq(a_ori.duplicate(), BvTerm::Lit(0, alen)));
                    self.push_goal(Formula::Eq(pp.duplicate(), a_ori));
                    self.icx_slice.var.set(au, IntraVar::Init(pp));
                    proof {
                        assert forall|i: int| 0 <= i < self@.var.len() && (#[trigger] self@.var[i]) is Init implies sorted(self@.var[i]->Init_0) by {
                            if i != au {
                                assert(self@.var[i] == old(self)@.var[i]);
                            }
                        }
                    }
                }
            } else if is_move {
                self.handle_drop(p, bidx, false);
            } else {
                self.push_goal(Formula::Eq(pp, a_ori));
            }
        } else if plen == 1 {
            if is_move && is_ptr {
                if vec_contains(rec, au) {
                    self.handle_drop(p, bidx, true);
                } else {
                    self.push_goal(Formula::Eq(pp, a_ori));
                }
            } else if is_move {
                self.handle_drop(p, bidx, false);
            } else {
                self.push_goal(Formula::Eq(pp, a_ori));
            }
        } else {
            self.handle_intra_var_unsupported(au);
        }
        proof {
            assert(self@ =~= pass_arg(old(self)@, *p, is_move, lu as int, source, rec@, bidx));
            let v = old(self)@;
            let w = self@;
            assert forall|i: int| 0 <= i < v.len.len() && consistent(v, i) implies #[trigger] consistent(w, i) by {
                if i != au {
                    assert(w.var[i] == v.var[i]);
                    assert(w.len[i] == v.len[i]);
                }
            }
            assert forall|i: int| 0 <= i < v.len.len() implies (#[trigger] w.len[i] == v.len[i] || w.len[i] == 0) by {
                if i != au {
                    assert(w.len[i] == v.len[i]);
                }
            }
            assert forall|i: int| 0 <= i < v.len.len() && (#[trigger] w.var[i]) is Init implies v.var[i] is Init by {
                if i != au {
                    assert(w.var[i] == v.var[i]);
                }
            }
        }
    }
}


impl IntraFlowAnalysis {
    /// Writes a call's result into its destination (see `call_return`).
    fn write_result(&mut self, dest: &FlowPlace, source: bool, bidx: usize)
        requires
            old(self).flow_ok(),
            dest.local < old(self)@.len.len(),
            variant_ok(dest.ty, dest.variant),
            indexable(dest.ty, dest.variant),
            variant_ok(old(self).local_tys@[dest.local as int], None),
            indexable(old(self).local_tys@[dest.local as int], None),
            call_return_fits(old(self)@, *dest, old(self).local_tys@[dest.local as int], source),
        ensures
            final(self).flow_ok(),
            final(self).frame_kept(old(self)),
            final(self)@ == call_return(old(self)@, *dest, old(self).local_tys@[dest.local as int], source, bidx),
    {
        let lu = dest.local;
        if self.icx_slice.var[lu].is_unsupported() {
            self.handle_intra_var_unsupported(lu);
            return;
        }
        let plen = dest.projection.len();
        if plen == 0 {
            let lay = default_layout_of(&dest.ty, dest.variant);
            if lay.is_empty() || !lay.get_requirement() {
                return;
            }
            let own = ownership_layout_to_rustbv(lay.layout());
            let kv = if source {
                let pl = generate_ptr_layout(&dest.ty, dest.variant);
                rustbv_merge(&own, &pl)
            } else {
                own
            };
            proof {
                assert(kv@ =~= keep_bits(dest.ty, dest.variant, source));
            }
            let kint = rustbv_to_int(&kv);
            let mut ctor = true;
            if self.icx_slice.var[lu].is_init() {
                let l0 = self.icx_slice.len[lu];
                let l_ori = self.icx_slice.var[lu].extract();
                proof {
                    assert(sorted(old(self)@.var[lu as int]->Init_0));
                    lemma_sorted_width(l_ori);
                }
                self.push_goal(Formula::Eq(l_ori, BvTerm::Lit(0, l0)));
                ctor = false;
            } else {
                let t = IndexedTy::new(&dest.ty, dest.variant);
                let p = t.get_priority();
                if p == 0 {
                    self.handle_intra_var_unsupported(lu);
                    return;
                } else if p == 1 {
                    return;
                }
                self.icx_slice.ty.set(lu, t);
                let lay_v = copy_vec(lay.layout());
                self.icx_slice.layout.set(lu, lay_v);
            }
            let llen = lay.layout().len();
            let tag = if ctor {
                NameTag::CtorFn
            } else {
                NameTag::CoverFn
            };
            let l_new = BvTerm::Var(VarName { local: lu, bidx, sidx: 0, tag }, llen);
            self.push_goal(Formula::Eq(l_new.duplicate(), BvTerm::Lit(kint, llen)));
            self.icx_slice.len.set(lu, llen);
            self.icx_slice.var.set(lu, IntraVar::Init(l_new));
        } else if plen == 1 {
            let lay = default_layout_of(&self.local_tys[lu], None);
            if lay.is_empty() || !lay.get_requirement() {
                return;
            }
            let llen = self.icx_slice.len[lu];
            let lpj = extract_projection(&dest.projection);
            let idx = lpj.index_needed();
            let l_ori: BvTerm;
            if self.icx_slice.var[lu].is_init() {
                l_ori = self.icx_slice.var[lu].extract();
                proof {
                    assert(sorted(old(self)@.var[lu as int]->Init_0));
                    reveal_with_fuel(sorted, 2);
                    reveal_with_fuel(width, 2);
                }
                self.push_goal(Formula::Eq(BvTerm::Extract(Box::new(l_ori.duplicate()), idx, idx), BvTerm::Lit(0, 1)));
            } else {
                self.push_goal(Formula::Eq(BvTerm::Var(VarName { local: lu, bidx, sidx: 0, tag: NameTag::CtorFn }, llen), BvTerm::Lit(0, llen)));
                l_ori = BvTerm::Lit(0, llen);
                let t = IndexedTy::new(&self.local_tys[lu], None);
                self.icx_slice.ty.set(lu, t);
                let lay_v = copy_vec(lay.layout());
                self.icx_slice.layout.set(lu, lay_v);
            }
            let l_new = BvTerm::Var(VarName { local: lu, bidx, sidx: 0, tag: NameTag::Plain }, llen);
            let bit = if source {
                BvTerm::Lit(1, 1)
            } else if lay.layout()[idx].is_owned() {
                BvTerm::Lit(1, 1)
            } else {
                BvTerm::Lit(0, 1)
            };
            proof {
                lemma_spliced(l_ori, llen as int, idx as int, bit);
            }
            let fin = splice(&l_ori, llen, idx, bit);
            self.push_goal(Formula::Eq(l_new.duplicate(), fin));
            let full = lay.layout().len();
            self.icx_slice.len.set(lu, full);
            self.icx_slice.var.set(lu, IntraVar::Init(l_new));
        } else {
            self.handle_intra_var_unsupported(lu);
            return;
        }
        proof {
            assert forall|i: int| 0 <= i < self@.var.len() && (#[trigger] self@.var[i]) is Init implies sorted(self@.var[i]->Init_0) by {
                if i != lu {
                    assert(self@.var[i] == old(self)@.var[i]);
                }
            }
            assert(self@ =~= call_return(old(self)@, *dest, old(self).local_tys@[lu as int], source, bidx));
        }
    }

    /// A call at block `bidx` (location `span`) of the function with
    /// definition index `fn_index` (see `call_effect`); when the call turns
    /// a value into a pointer, the function is marked and the call
    /// recorded.
    pub fn handle_call(&mut self, span: usize, fn_index: Option<usize>, args: &Vec<FlowOperand>, dest: &FlowPlace, bidx: usize)
        requires
            old(self).flow_ok(),
            dest.local < old(self)@.len.len(),
            variant_ok(dest.ty, dest.variant),
            indexable(dest.ty, dest.variant),
            variant_ok(old(self).local_tys@[dest.local as int], None),
            indexable(old(self).local_tys@[dest.local as int], None),
            operands_ok(old(self)@, args@),
            call_args_fit(old(self)@, args@),
            fn_index == Some(MEM_DROP_INDEX) ==> args@.len() > 0,
            !is_mem_drop(fn_index, args@, *dest) ==> call_return_fits(
                call_args(old(self)@, args@, dest.local as int, fn_source(args@, *dest), recovery_args(old(self)@, args@, *dest), bidx),
                *dest,
                old(self).local_tys@[dest.local as int],
                fn_source(args@, *dest),
            ),
        ensures
            final(self).flow_ok(),
            final(self).local_tys == old(self).local_tys,
            final(self).arg_count == old(self).arg_count,
            final(self).icx_out == old(self).icx_out,
            final(self).pre == old(self).pre,
            final(self)@ == call_effect(old(self)@, fn_index, args@, *dest, old(self).local_tys@[dest.local as int], bidx),
            final(self).taint_flag == (old(self).taint_flag || (!is_mem_drop(fn_index, args@, *dest) && fn_source(args@, *dest))),
            final(self).taint_source@ == (if !is_mem_drop(fn_index, args@, *dest) && fn_source(args@, *dest) {
                old(self).taint_source@.push(span)
            } else {
                old(self).taint_source@
            }),
    {
        if fn_index == Some(MEM_DROP_INDEX) {
            match &args[0] {
                FlowOperand::Move(a) => {
                    let is_adt = match dest.ty {
                        TyShape::Adt(..) => true,
                        _ => false,
                    };
                    if is_adt {
                        proof {
                            assert(op_place(args@[0]) == Some(*a));
                        }
                        self.handle_drop(a, bidx, false);
                        return;
                    }
                },
                _ => {},
            }
        }
        let lu = dest.local;
        let ghost v0 = old(self)@;
        let source = self.check_fn_source(args, dest);
        let rec = self.check_fn_recovery(args, dest);
        if source {
            self.taint_source.push(span);
        }
        let ghost t_flag = self.taint_flag;
        let ghost t_src = self.taint_source;
        let mut k: usize = 0;
        proof {
            assert(args@.take(0) =~= Seq::<FlowOperand>::empty());
        }
        while k < args.len()
            invariant
                k <= args@.len(),
                self.flow_ok(),
                self.local_tys == old(self).local_tys,
                self.arg_count == old(self).arg_count,
                self.icx_out == old(self).icx_out,
                self.pre == old(self).pre,
                self.taint_flag == t_flag,
                self.taint_source == t_src,
                lu == dest.local,
                lu < v0.len.len(),
                operands_ok(v0, args@),
                call_args_fit(v0, args@),
                args_kept(v0, self@),
                self@ == call_args(v0, args@.take(k as int), lu as int, source, rec.1@, bidx),
            decreases args@.len() - k,
        {
            let ghost w = self@;
            proof {
                assert(args@.take(k + 1).drop_last() =~= args@.take(k as int));
                assert(args@.take(k + 1).last() == args@[k as int]);
            }
            match &args[k] {
                FlowOperand::Move(p) => {
                    proof {
                        assert(op_place(args@[k as int]) == Some(*p));
                        lemma_drop_fits_kept(v0, w, p.local as int, proj_run(p.projection@), true);
                        lemma_drop_fits_kept(v0, w, p.local as int, proj_run(p.projection@), false);
                    }
                    self.pass_arg_exec(p, true, lu, source, &rec.1, bidx);
                },
                FlowOperand::Copy(p) => {
                    proof {
                        assert(op_place(args@[k as int]) == Some(*p));
                        lemma_drop_fits_kept(v0, w, p.local as int, proj_run(p.projection@), true);
                        lemma_drop_fits_kept(v0, w, p.local as int, proj_run(p.projection@), false);
                    }
                    self.pass_arg_exec(p, false, lu, source, &rec.1, bidx);
                },
                FlowOperand::Constant => {
                    proof {
                        assert(args_kept(w, w));
                    }
                },
            }
            proof {
                lemma_args_kept_trans(v0, w, self@);
            }
            k = k + 1;
        }
        proof {
            assert(args@.take(args@.len() as int) =~= args@);
        }
        self.write_result(dest, source, bidx);
    }
}


/// What `l = r` (moved when `is_move`) does, by which of the two places
/// is projected (`lty` the declared type of the left local).
pub open spec fn assign_spec(v: FlowView, l: FlowPlace, r: FlowPlace, is_move: bool, lty: TyShape, disc: Option<usize>, arg_count: usize, bidx: usize, sidx: usize) -> FlowView {
    let lp = proj_run(l.projection@);
    let rp = proj_run(r.projection@);
    if l.projection@.len() > 0 && r.projection@.len() > 0 {
        field_to_field_assign(v, l.local as int, r.local as int, lp, rp, lty, disc, r.ty, r.variant, arg_count, bidx, sidx, is_move)
    } else if l.projection@.len() > 0 {
        to_field_assign(v, l.local as int, r.local as int, lp, lty, disc, r.ty, r.variant, arg_count, bidx, sidx, is_move)
    } else if r.projection@.len() > 0 {
        from_field_assign(v, l.local as int, r.local as int, rp, r.ty, r.variant, bidx, sidx, is_move)
    } else {
        whole_assign(v, l.local as int, r.local as int, indexed_spec(r.ty, r.variant), bidx, sidx, is_move)
    }
}

/// What the handler chosen for `l = r` needs (see the `_fits` predicates).
pub open spec fn assign_fits(v: FlowView, l: FlowPlace, r: FlowPlace, is_move: bool, lty: TyShape, disc: Option<usize>) -> bool {
    let lp = proj_run(l.projection@);
    let rp = proj_run(r.projection@);
    &&& pair_ok(v, l, r)
    &&& l.projection@.len() > 0 && r.projection@.len() > 0 ==> field_to_field_fits(v, l.local as int, r.local as int, lp, rp, lty, disc, r.ty, r.variant, is_move)
    &&& l.projection@.len() > 0 && r.projection@.len() == 0 ==> left_typed(lp, lty, disc) && to_field_fits(v, l.local as int, lp, lty, disc)
    &&& l.projection@.len() == 0 && r.projection@.len() > 0 ==> from_field_fits(v, r.local as int, rp, r.ty, r.variant)
}

/// The place an assignment's right side reads, and whether it moves it.
pub open spec fn rvalue_read(rv: FlowRvalue) -> Option<(FlowPlace, bool)> {
    match rv {
        FlowRvalue::Use(FlowOperand::Copy(p)) => Some((p, false)),
        FlowRvalue::Use(FlowOperand::Move(p)) => Some((p, true)),
        FlowRvalue::Ref(p) => Some((p, false)),
        FlowRvalue::AddressOf(p) => Some((p, false)),
        FlowRvalue::Cast(FlowOperand::Copy(p)) => Some((p, false)),
        FlowRvalue::Cast(FlowOperand::Move(p)) => Some((p, true)),
        _ => None,
    }
}

impl IntraFlowAnalysis {
    /// `l = r`, moved when `is_move`, by the handler for which of the two
    /// places is projected.
    fn assign_place(&mut self, kind: AsgnKind, lplace: &FlowPlace, rplace: &FlowPlace, is_move: bool, disc: Option<usize>, bidx: usize, sidx: usize)
        requires
            old(self).flow_ok(),
            assign_fits(old(self)@, *lplace, *rplace, is_move, old(self).local_tys@[lplace.local as int], disc),
        ensures
            final(self).flow_ok(),
            final(self).frame_kept(old(self)),
            final(self)@ == assign_spec(old(self)@, *lplace, *rplace, is_move, old(self).local_tys@[lplace.local as int], disc, old(self).arg_count, bidx, sidx),
    {
        let l_proj = lplace.projection.len() > 0;
        let r_proj = rplace.projection.len() > 0;
        if is_move {
            if l_proj && r_proj {
                self.handle_move_field_to_field(kind, lplace, rplace, disc, bidx, sidx);
            } else if l_proj {
                self.handle_move_to_field(kind, lplace, rplace, disc, bidx, sidx);
            } else if r_proj {
                self.handle_move_from_field(kind, lplace, rplace, disc, bidx, sidx);
            } else {
                self.handle_move(kind, lplace, rplace, disc, bidx, sidx);
            }
        } else {
            if l_proj && r_proj {
                self.handle_copy_field_to_field(kind, lplace, rplace, disc, bidx, sidx);
            } else if l_proj {
                self.handle_copy_to_field(kind, lplace, rplace, disc, bidx, sidx);
            } else if r_proj {
                self.handle_copy_from_field(kind, lplace, rplace, disc, bidx, sidx);
            } else {
                self.handle_copy(kind, lplace, rplace, disc, bidx, sidx);
            }
        }
    }

    /// An assignment `lplace = rvalue` at statement `sidx` of block `bidx`:
    /// a copy, move, reference, raw pointer or cast of a place goes to the
    /// handler for which places are projected (a reference or raw pointer
    /// counts as a copy); anything else changes nothing.
    pub fn visit_assign(&mut self, lplace: &FlowPlace, rvalue: &FlowRvalue, disc: Option<usize>, bidx: usize, sidx: usize)
        requires
            old(self).flow_ok(),
            match rvalue_read(*rvalue) {
                Some((r, m)) => assign_fits(old(self)@, *lplace, r, m, old(self).local_tys@[lplace.local as int], disc),
                None => true,
            },
        ensures
            final(self).flow_ok(),
            final(self).frame_kept(old(self)),
            final(self)@ == match rvalue_read(*rvalue) {
                Some((r, m)) => assign_spec(old(self)@, *lplace, r, m, old(self).local_tys@[lplace.local as int], disc, old(self).arg_count, bidx, sidx),
                None => old(self)@,
            },
    {
        match rvalue {
            FlowRvalue::Use(op) => match op {
                FlowOperand::Copy(r) => self.assign_place(AsgnKind::Assign, lplace, r, false, disc, bidx, sidx),
                FlowOperand::Move(r) => self.assign_place(AsgnKind::Assign, lplace, r, true, disc, bidx, sidx),
                FlowOperand::Constant => {},
            },
            FlowRvalue::Ref(r) => self.assign_place(AsgnKind::Reference, lplace, r, false, disc, bidx, sidx),
            FlowRvalue::AddressOf(r) => self.assign_place(AsgnKind::Reference, lplace, r, false, disc, bidx, sidx),
            FlowRvalue::Cast(op) => match op {
                FlowOperand::Copy(r) => self.assign_place(AsgnKind::Cast, lplace, r, false, disc, bidx, sidx),
                FlowOperand::Move(r) => self.assign_place(AsgnKind::Cast, lplace, r, true, disc, bidx, sidx),
                FlowOperand::Constant => {},
            },
            FlowRvalue::Other => {},
        }
    }
}


/// A slice's columns as values.
#[verifier::ext_equal]
pub struct SliceView {
    pub len: Seq<usize>,
    pub var: Seq<IntraVar>,
    pub ty: Seq<IndexedTy>,
    pub layout: Seq<Seq<RawTypeOwner>>,
    pub taint: Seq<Seq<IndexedTy>>,
}

impl IcxSlice {
    pub open spec fn sview(&self) -> SliceView {
        SliceView {
            len: self.len@,
            var: self.var@,
            ty: self.ty@,
            layout: layout_views(self.layout@),
            taint: taint_views(self.taint@),
        }
    }
}

/// The slice columns of a view.
pub open spec fn cols(v: FlowView) -> SliceView {
    SliceView { len: v.len, var: v.var, ty: v.ty, layout: v.layout, taint: v.taint }
}

/// The view with the slice `s` and the constraints `goal`.
pub open spec fn with_cols(s: SliceView, goal: Seq<Formula>) -> FlowView {
    FlowView { len: s.len, var: s.var, ty: s.ty, layout: s.layout, taint: s.taint, goal }
}

/// The slice has `n` entries in each column, and its known bit vectors are
/// well sorted and as wide as their layouts.
pub open spec fn slice_ok(s: SliceView, n: nat) -> bool {
    &&& s.len.len() == n
    &&& s.var.len() == n
    &&& s.ty.len() == n
    &&& s.layout.len() == n
    &&& s.taint.len() == n
    &&& forall|i: int| 0 <= i < n && (#[trigger] s.var[i]) is Init ==> sorted(s.var[i]->Init_0) && width(s.var[i]->Init_0) == s.len[i]
}

impl IntraVar {
    /// A copy.
    pub fn duplicate(&self) -> (res: IntraVar)
        ensures
            res == *self,
    {
        match self {
            IntraVar::Declared => IntraVar::Declared,
            IntraVar::Init(t) => IntraVar::Init(t.duplicate()),
            IntraVar::Unsupported => IntraVar::Unsupported,
        }
    }
}

impl IcxSlice {
    /// A copy.
    pub fn duplicate(&self) -> (res: IcxSlice)
        ensures
            res.sview() == self.sview(),
    {
        let mut var: Vec<IntraVar> = Vec::new();
        let mut layout: Vec<Vec<RawTypeOwner>> = Vec::new();
        let mut taint: Vec<Vec<IndexedTy>> = Vec::new();
        let mut i: usize = 0;
        while i < self.var.len()
            invariant
                i <= self.var@.len(),
                var@ == self.var@.take(i as int),
            decreases self.var@.len() - i,
        {
            var.push(self.var[i].duplicate());
            i = i + 1;
            assert(var@ =~= self.var@.take(i as int));
        }
        let mut j: usize = 0;
        while j < self.layout.len()
            invariant
                j <= self.layout@.len(),
                layout@.len() == j,
                forall|t: int| 0 <= t < j ==> #[trigger] layout@[t]@ == self.layout@[t]@,
            decreases self.layout@.len() - j,
        {
            layout.push(copy_vec(&self.layout[j]));
            j = j + 1;
        }
        let mut k: usize = 0;
        while k < self.taint.len()
            invariant
                k <= self.taint@.len(),
                taint@.len() == k,
                forall|t: int| 0 <= t < k ==> #[trigger] taint@[t]@ == self.taint@[t]@,
            decreases self.taint@.len() - k,
        {
            taint.push(copy_vec(&self.taint[k]));
            k = k + 1;
        }
        proof {
            assert(self.var@.take(self.var@.len() as int) =~= self.var@);
            assert(layout_views(layout@) =~= layout_views(self.layout@));
            assert(taint_views(taint@) =~= taint_views(self.taint@));
        }
        let res = IcxSlice { len: copy_vec(&self.len), var, ty: copy_vec(&self.ty), layout, taint };
        proof {
            assert(res.sview() =~= self.sview());
        }
        res
    }
}


/// The slice of block 0 before the arguments are set: every local only
/// declared, with an empty layout and no taint.
pub open spec fn declared_slice(n: nat) -> SliceView {
    SliceView {
        len: Seq::new(n, |i: int| 0usize),
        var: Seq::new(n, |i: int| IntraVar::Declared),
        ty: Seq::new(n, |i: int| IndexedTy(None)),
        layout: Seq::new(n, |i: int| Seq::<RawTypeOwner>::empty()),
        taint: Seq::new(n, |i: int| Seq::<IndexedTy>::empty()),
    }
}

/// The slice and constraints after the first `k` arguments (locals 1 to
/// `k`) are set up, from `s` and `goal`: an argument of an unsupported type
/// stays declared; one whose type owns nothing is unsupported; any other
/// gets a variable equal to its type's owned slots.
pub open spec fn arg_inits(s: SliceView, goal: Seq<Formula>, tys: Seq<TyShape>, k: int) -> (SliceView, Seq<Formula>)
    decreases k,
{
    if k <= 0 {
        (s, goal)
    } else {
        let (s1, g1) = arg_inits(s, goal, tys, k - 1);
        let idx = k;
        let ty = tys[idx];
        if indexed_spec(ty, None) is None {
            (s1, g1)
        } else if !default_owned(ty, None) {
            (SliceView { len: s1.len.update(idx, 0), var: s1.var.update(idx, IntraVar::Unsupported), ty: s1.ty.update(idx, IndexedTy(None)), layout: s1.layout, taint: s1.taint }, g1)
        } else {
            let lay = default_layout(ty, None);
            let nv = var_at(idx, 0, 0, NameTag::ArgInit, lay.len() as int);
            (SliceView { len: s1.len.update(idx, lay.len() as usize), var: s1.var.update(idx, IntraVar::Init(nv)), ty: s1.ty.update(idx, IndexedTy(indexed_spec(ty, None))), layout: s1.layout, taint: s1.taint },
                g1.push(eqf(nv, BvTerm::Lit(bits_value(owned_bits(lay)) as u64, lay.len() as usize))))
        }
    }
}

/// The slice `a` with local `i` unsupported and an empty layout.
pub open spec fn with_unsup_col(a: SliceView, i: int) -> SliceView {
    SliceView { len: a.len.update(i, 0), var: a.var.update(i, IntraVar::Unsupported), ty: a.ty, layout: a.layout, taint: a.taint }
}

/// Where merging one local over the predecessors stands: the slice built,
/// the conjunction of the bit vectors so far, the type and length they
/// share, and whether the local turned out unsupported.
pub struct MergeSt {
    pub ans: SliceView,
    pub using: Option<BvTerm>,
    pub ty: IndexedTy,
    pub len: usize,
    pub stopped: bool,
}

/// Merging local `i` of one more predecessor's slice `p`: a declared local
/// adds nothing; an unsupported one makes it unsupported; a known one sets
/// the type and length when none was set yet, makes it unsupported when
/// its type differs, and otherwise is and-ed in and gives its taint.
pub open spec fn merge_step(st: MergeSt, p: SliceView, i: int) -> MergeSt {
    if st.stopped || p.var[i] is Declared {
        st
    } else if p.var[i] is Unsupported {
        MergeSt { ans: with_unsup_col(st.ans, i), using: st.using, ty: st.ty, len: st.len, stopped: true }
    } else {
        let bv = p.var[i]->Init_0;
        let st1 = if st.ty == IndexedTy(None) {
            MergeSt {
                ans: SliceView { len: st.ans.len.update(i, p.len[i]), var: st.ans.var, ty: st.ans.ty.update(i, p.ty[i]), layout: st.ans.layout, taint: st.ans.taint },
                using: Some(bv),
                ty: p.ty[i],
                len: p.len[i],
                stopped: false,
            }
        } else {
            st
        };
        if st1.ty != p.ty[i] {
            MergeSt { ans: with_unsup_col(st1.ans, i), using: st1.using, ty: st1.ty, len: st1.len, stopped: true }
        } else {
            MergeSt {
                ans: SliceView { len: st1.ans.len, var: st1.ans.var, ty: st1.ans.ty, layout: st1.ans.layout, taint: st1.ans.taint.update(i, taint_union(st1.ans.taint[i], p.taint[i])) },
                using: Some(BvTerm::And(Box::new(st1.using->0), Box::new(bv))),
                ty: st1.ty,
                len: st1.len,
                stopped: false,
            }
        }
    }
}

/// Local `i` merged over the first `k` predecessors' slices, into `ans`.
pub open spec fn merge_fold(ps: Seq<SliceView>, ans: SliceView, i: int, k: int) -> MergeSt
    decreases k,
{
    if k <= 0 {
        MergeSt { ans, using: None, ty: IndexedTy(None), len: 0, stopped: false }
    } else {
        merge_step(merge_fold(ps, ans, i, k - 1), ps[k - 1], i)
    }
}

/// Where merging all locals stands: the slice built, the constraints, and
/// the current slice.
pub struct MergeAll {
    pub ans: SliceView,
    pub goal: Seq<Formula>,
    pub cur: SliceView,
}

/// The first `k` locals merged over the predecessors' slices `ps` at block
/// `bidx`: a local that is known on some path, and never unsupported or of
/// two types, gets a variable equal to the conjunction of its bit vectors.
pub open spec fn merge_all(ps: Seq<SliceView>, bidx: usize, st0: MergeAll, k: int) -> MergeAll
    decreases k,
{
    if k <= 0 {
        st0
    } else {
        let st = merge_all(ps, bidx, st0, k - 1);
        let i = k - 1;
        let r = merge_fold(ps, st.ans, i, ps.len() as int);
        if r.stopped || r.using is None {
            MergeAll { ans: r.ans, goal: st.goal, cur: r.ans }
        } else {
            let phi = var_at(i, bidx, 0, NameTag::Phi, r.len as int);
            let a2 = SliceView { len: r.ans.len, var: r.ans.var.update(i, IntraVar::Init(phi)), ty: r.ans.ty, layout: r.ans.layout, taint: r.ans.taint };
            MergeAll { ans: a2, goal: st.goal.push(eqf(phi, r.using->0)), cur: a2 }
        }
    }
}

/// A local known in two slices with one (supported) type has one length
/// in both.
pub open spec fn lens_agree(p: SliceView, q: SliceView, i: int) -> bool {
    p.var[i] is Init && q.var[i] is Init && p.ty[i] == q.ty[i] && p.ty[i] != IndexedTy(None) ==> p.len[i] == q.len[i]
}

/// The slices the predecessors of a block ended with.
pub open spec fn pred_slices(a: IntraFlowAnalysis, bidx: int) -> Seq<SliceView> {
    a.pre@[bidx]@.map_values(|p: usize| a.icx_out@[p as int].sview())
}

/// The state a block starts from: block 0 from the arguments; a block with
/// one predecessor from its slice; a block with several from the merge of
/// theirs.
pub open spec fn preprocess_effect(a: IntraFlowAnalysis, bidx: usize) -> FlowView {
    if bidx == 0 {
        let (s, g) = arg_inits(declared_slice(a.local_tys@.len()), a@.goal, a.local_tys@, a.arg_count as int);
        with_cols(s, g)
    } else if a.pre@[bidx as int]@.len() > 1 {
        let ps = pred_slices(a, bidx as int);
        let r = merge_all(ps, bidx, MergeAll { ans: ps[0], goal: a@.goal, cur: cols(a@) }, ps[0].len.len() as int);
        with_cols(r.cur, r.goal)
    } else {
        with_cols(a.icx_out@[a.pre@[bidx as int]@[0] as int].sview(), a@.goal)
    }
}

/// What a block's start needs: the constraints are well sorted; for block
/// 0 the slice is in order and the arguments' types have layouts of at
/// most 64 owned slots; for another block its predecessors ended with
/// slices in order, and a local known on two paths with one type has one
/// length on both.
pub open spec fn preprocess_fits(a: IntraFlowAnalysis, bidx: usize) -> bool {
    let n = a.local_tys@.len();
    &&& forall|i: int| 0 <= i < a.goal@.len() ==> well_sorted(#[trigger] a.goal@[i])
    &&& a.arg_count < n
    &&& bidx == 0 ==> {
        &&& a.flow_ok()
        &&& forall|k: int| 1 <= k <= a.arg_count ==> {
            &&& variant_ok(#[trigger] a.local_tys@[k], None)
            &&& indexable(a.local_tys@[k], None)
            &&& owned_bits(default_layout(a.local_tys@[k], None)).len() <= 64
        }
    }
    &&& bidx != 0 ==> {
        &&& bidx < a.pre@.len()
        &&& a.pre@[bidx as int]@.len() > 0
        &&& forall|j: int| 0 <= j < a.pre@[bidx as int]@.len() ==> (#[trigger] a.pre@[bidx as int]@[j]) < a.icx_out@.len()
        &&& forall|j: int| 0 <= j < a.pre@[bidx as int]@.len() ==> slice_ok(#[trigger] pred_slices(a, bidx as int)[j], n)
        &&& forall|j: int, k: int, i: int| 0 <= j < a.pre@[bidx as int]@.len() && 0 <= k < a.pre@[bidx as int]@.len() && 0 <= i < n
            ==> #[trigger] lens_agree(pred_slices(a, bidx as int)[j], pred_slices(a, bidx as int)[k], i)
        &&& a.pre@[bidx as int]@.len() > 1 && n == 0 ==> slice_ok(cols(a@), 0)
    }
}


/// The slices' values.
pub open spec fn views_of(v: Seq<IcxSlice>) -> Seq<SliceView> {
    v.map_values(|x: IcxSlice| x.sview())
}

/// Once a merge stops, later predecessors change nothing.
proof fn lemma_merge_fold_stopped(ps: Seq<SliceView>, ans: SliceView, i: int, j: int, k: int)
    requires
        0 <= j <= k <= ps.len(),
        merge_fold(ps, ans, i, j).stopped,
    ensures
        merge_fold(ps, ans, i, k) == merge_fold(ps, ans, i, j),
    decreases k - j,
{
    if k > j {
        lemma_merge_fold_stopped(ps, ans, i, j, k - 1);
    }
}

/// A type whose default layout owns heap memory has a slot.
proof fn lemma_owned_nonempty(ty: TyShape, variant: Option<usize>)
    requires
        default_owned(ty, variant),
    ensures
        default_layout(ty, variant).len() > 0,
{
    match ty {
        TyShape::Param | TyShape::RawPtr | TyShape::Ref => {},
        _ => {
            let s = visited_summaries(ty, variant);
            let w = choose|w: int| 0 <= w < s.len() && #[trigger] s[w].res_view() == RawTypeOwner::Owned;
            assert(summary_layout(s).len() == s.len());
        },
    }
}

/// The union of two taints (see `taint_union`).
fn union_taint(a: &Vec<IndexedTy>, b: &Vec<IndexedTy>) -> (res: Vec<IndexedTy>)
    ensures
        res@ == taint_union(a@, b@),
{
    let mut lt = copy_vec(a);
    let mut i: usize = 0;
    while i < b.len()
        invariant
            i <= b@.len(),
            lt@ == taint_union(a@, b@.take(i as int)),
        decreases b@.len() - i,
    {
        proof {
            assert(b@.take(i + 1).drop_last() =~= b@.take(i as int));
        }
        if !taint_contains(&lt, &b[i]) {
            lt.push(b[i]);
        }
        i = i + 1;
    }
    proof {
        assert(b@.take(b@.len() as int) =~= b@);
    }
    lt
}

/// Merges local `i` over the predecessors' slices `v_pre` into `ans` (see
/// `merge_fold`): gives the conjunction, type and length found, and
/// whether the local turned out unsupported.
fn merge_var(v_pre: &Vec<IcxSlice>, ans: &mut IcxSlice, i: usize, n: Ghost<nat>) -> (res: (Option<BvTerm>, IndexedTy, usize, bool))
    requires
        i < n@,
        old(ans).sview().len.len() == n@,
        old(ans).sview().var.len() == n@,
        old(ans).sview().ty.len() == n@,
        old(ans).sview().taint.len() == n@,
        forall|j: int| 0 <= j < v_pre@.len() ==> slice_ok(#[trigger] views_of(v_pre@)[j], n@),
        forall|j: int, k: int| 0 <= j < v_pre@.len() && 0 <= k < v_pre@.len() ==> #[trigger] lens_agree(views_of(v_pre@)[j], views_of(v_pre@)[k], i as int),
    ensures
        ({
            let r = merge_fold(views_of(v_pre@), old(ans).sview(), i as int, v_pre@.len() as int);
            &&& final(ans).sview() == r.ans
            &&& res.0 == r.using
            &&& res.1 == r.ty
            &&& res.2 == r.len
            &&& res.3 == r.stopped
            &&& !r.stopped && r.using is Some ==> sorted(r.using->0) && width(r.using->0) == r.len && r.len >= 1 && r.ans.len[i as int] == r.len
            &&& r.using is None && !r.stopped ==> r.ans == old(ans).sview()
        }),
        final(ans).sview().len.len() == n@,
        final(ans).sview().var.len() == n@,
        final(ans).sview().ty.len() == n@,
        final(ans).sview().taint.len() == n@,
        final(ans).sview().layout == old(ans).sview().layout,
        forall|t: int| 0 <= t < n@ && t != i ==> (#[trigger] final(ans).var@[t]) == old(ans).var@[t] && final(ans).len@[t] == old(ans).len@[t],
        res.3 ==> final(ans).sview().var[i as int] is Unsupported,
{
    let ghost ps = views_of(v_pre@);
    let ghost a0 = ans.sview();
    let mut using: Option<BvTerm> = None;
    let mut ty = IndexedTy(None);
    let mut len: usize = 0;
    let ghost mut wq: int = 0;
    let mut j: usize = 0;
    while j < v_pre.len()
        invariant
            j <= v_pre@.len(),
            ps == views_of(v_pre@),
            a0 == old(ans).sview(),
            i < n@,
            forall|q: int| 0 <= q < v_pre@.len() ==> slice_ok(#[trigger] views_of(v_pre@)[q], n@),
            forall|q: int, k: int| 0 <= q < v_pre@.len() && 0 <= k < v_pre@.len() ==> #[trigger] lens_agree(views_of(v_pre@)[q], views_of(v_pre@)[k], i as int),
            merge_fold(ps, a0, i as int, j as int) == (MergeSt { ans: ans.sview(), using, ty, len, stopped: false }),
            using is Some ==> {
                &&& sorted(using->0)
                &&& width(using->0) == len
                &&& len >= 1
                &&& 0 <= wq < j
                &&& ps[wq].var[i as int] is Init
                &&& ps[wq].ty[i as int] == ty
                &&& ps[wq].len[i as int] == len
                &&& ans.sview().len[i as int] == len
            },
            using is None ==> ans.sview() == a0 && ty == IndexedTy(None),
            ans.sview().len.len() == n@,
            ans.sview().var.len() == n@,
            ans.sview().ty.len() == n@,
            ans.sview().taint.len() == n@,
            ans.sview().layout == a0.layout,
            forall|t: int| 0 <= t < n@ && t != i ==> (#[trigger] ans.var@[t]) == a0.var[t] && ans.len@[t] == a0.len[t],
        decreases v_pre@.len() - j,
    {
        let ghost before = MergeSt { ans: ans.sview(), using, ty, len, stopped: false };
        let ghost var0 = ans.var@;
        let ghost len0 = ans.len@;
        proof {
            assert(ps[j as int] == v_pre@[j as int].sview());
            assert(slice_ok(ps[j as int], n@));
            assert(forall|t: int| 0 <= t < n@ && t != i ==> (#[trigger] var0[t]) == a0.var[t] && len0[t] == a0.len[t]);
        }
        if v_pre[j].var[i].is_declared() {
            proof {
                assert forall|q: int| 0 <= q < n@ && q != i implies (#[trigger] ans.var@[q]) == a0.var[q] && ans.len@[q] == a0.len[q] by {
                    assert(ans.var@[q] == var0[q]);
                    assert(ans.len@[q] == len0[q]);
                }
            }
            j = j + 1;
        } else if v_pre[j].var[i].is_unsupported() {
            ans.len.set(i, 0);
            ans.var.set(i, IntraVar::Unsupported);
            proof {
                assert(ans.sview() =~= with_unsup_col(before.ans, i as int));
                assert(merge_fold(ps, a0, i as int, j + 1) == (MergeSt { ans: ans.sview(), using, ty, len, stopped: true }));
                lemma_merge_fold_stopped(ps, a0, i as int, j + 1, v_pre@.len() as int);
                assert(a0 == old(ans).sview());
                assert(merge_fold(views_of(v_pre@), old(ans).sview(), i as int, v_pre@.len() as int) == (MergeSt { ans: ans.sview(), using, ty, len, stopped: true }));
            }
            return (using, ty, len, true);
        } else {
            let bv = v_pre[j].var[i].extract();
            proof {
                assert(sorted(bv) && width(bv) == ps[j as int].len[i as int]);
                lemma_sorted_width(bv);
            }
            if same_ty(&ty, &IndexedTy(None)) {
                ty = v_pre[j].ty[i];
                len = v_pre[j].len[i];
                ans.ty.set(i, ty);
                ans.len.set(i, len);
                using = Some(bv.duplicate());
                proof {
                    wq = j as int;
                }
            }
            let ghost mid = MergeSt { ans: ans.sview(), using, ty, len, stopped: false };
            proof {
                if before.ty == IndexedTy(None) {
                    assert(mid.ans =~= (SliceView { len: before.ans.len.update(i as int, ps[j as int].len[i as int]), var: before.ans.var,
                        ty: before.ans.ty.update(i as int, ps[j as int].ty[i as int]), layout: before.ans.layout, taint: before.ans.taint }));
                }
            }
            if !same_ty(&ty, &v_pre[j].ty[i]) {
                ans.len.set(i, 0);
                ans.var.set(i, IntraVar::Unsupported);
                proof {
                    assert(ans.sview() =~= with_unsup_col(mid.ans, i as int));
                    assert(merge_fold(ps, a0, i as int, j + 1) == (MergeSt { ans: ans.sview(), using, ty, len, stopped: true }));
                    lemma_merge_fold_stopped(ps, a0, i as int, j + 1, v_pre@.len() as int);
                    assert(a0 == old(ans).sview());
                    assert(merge_fold(views_of(v_pre@), old(ans).sview(), i as int, v_pre@.len() as int) == (MergeSt { ans: ans.sview(), using, ty, len, stopped: true }));
                }
                return (using, ty, len, true);
            }
            proof {
                assert(lens_agree(ps[wq], ps[j as int], i as int));
                assert(ps[j as int].len[i as int] == len);
            }
            let u = match using {
                Some(u) => u,
                None => BvTerm::Lit(0, 1),
            };
            using = Some(BvTerm::And(Box::new(u), Box::new(bv)));
            let t = union_taint(&ans.taint[i], &v_pre[j].taint[i]);
            ans.taint.set(i, t);
            proof {
                assert forall|q: int| 0 <= q < n@ && q != i implies (#[trigger] ans.var@[q]) == a0.var[q] && ans.len@[q] == a0.len[q] by {
                    assert(ans.var@[q] == var0[q]);
                    assert(ans.len@[q] == len0[q]);
                }
            }
            proof {
                assert(ans.sview() =~= (SliceView { len: mid.ans.len, var: mid.ans.var, ty: mid.ans.ty, layout: mid.ans.layout,
                    taint: mid.ans.taint.update(i as int, taint_union(mid.ans.taint[i as int], ps[j as int].taint[i as int])) }));
            }
            j = j + 1;
        }
    }
    (using, ty, len, false)
}


/// A slice of `n` locals, all only declared.
fn declared_icx(n: usize) -> (res: IcxSlice)
    ensures
        res.sview() == declared_slice(n as nat),
{
    let mut len: Vec<usize> = Vec::new();
    let mut var: Vec<IntraVar> = Vec::new();
    let mut ty: Vec<IndexedTy> = Vec::new();
    let mut layout: Vec<Vec<RawTypeOwner>> = Vec::new();
    let mut taint: Vec<Vec<IndexedTy>> = Vec::new();
    let mut i: usize = 0;
    while i < n
        invariant
            i <= n,
            len@ == Seq::new(i as nat, |t: int| 0usize),
            var@ == Seq::new(i as nat, |t: int| IntraVar::Declared),
            ty@ == Seq::new(i as nat, |t: int| IndexedTy(None)),
            layout@.len() == i,
            taint@.len() == i,
            forall|t: int| 0 <= t < i ==> (#[trigger] layout@[t])@ == Seq::<RawTypeOwner>::empty(),
            forall|t: int| 0 <= t < i ==> (#[trigger] taint@[t])@ == Seq::<IndexedTy>::empty(),
        decreases n - i,
    {
        len.push(0);
        var.push(IntraVar::Declared);
        ty.push(IndexedTy(None));
        layout.push(Vec::new());
        taint.push(Vec::new());
        i = i + 1;
        assert(len@ =~= Seq::new(i as nat, |t: int| 0usize));
        assert(var@ =~= Seq::new(i as nat, |t: int| IntraVar::Declared));
        assert(ty@ =~= Seq::new(i as nat, |t: int| IndexedTy(None)));
    }
    let res = IcxSlice { len, var, ty, layout, taint };
    proof {
        assert(res.sview() =~= declared_slice(n as nat));
    }
    res
}

impl IntraFlowAnalysis {
    /// Sets up the slice a block starts from (see `preprocess_effect`).
    pub fn preprocess_for_basic_block(&mut self, bidx: usize)
        requires
            preprocess_fits(*old(self), bidx),
        ensures
            final(self).flow_ok(),
            final(self).frame_kept(old(self)),
            final(self)@ == preprocess_effect(*old(self), bidx),
    {
        let n = self.local_tys.len();
        if bidx == 0 {
            let mut s = declared_icx(n);
            let ghost g0 = self.goal@;
            let ghost tys = self.local_tys@;
            let mut k: usize = 0;
            while k < self.arg_count
                invariant
                    k <= self.arg_count,
                    self.arg_count < n,
                    n == self.local_tys@.len(),
                    tys == self.local_tys@,
                    tys == old(self).local_tys@,
                    g0 == old(self).goal@,
                    self.arg_count == old(self).arg_count,
                    self.flow_ok(),
                    self.frame_kept(old(self)),
                    forall|q: int| 1 <= q <= self.arg_count ==> {
                        &&& variant_ok(#[trigger] tys[q], None)
                        &&& indexable(tys[q], None)
                        &&& owned_bits(default_layout(tys[q], None)).len() <= 64
                    },
                    (s.sview(), self.goal@) == arg_inits(declared_slice(n as nat), g0, tys, k as int),
                    slice_ok(s.sview(), n as nat),
                decreases self.arg_count - k,
            {
                let idx = k + 1;
                let t = IndexedTy::new(&self.local_tys[idx], None);
                let ghost st = s.sview();
                if t.0.is_none() {
                    self.handle_intra_var_unsupported(idx);
                } else {
                    let d = default_layout_of(&self.local_tys[idx], None);
                    if !d.is_owned() {
                        s.len.set(idx, 0);
                        s.var.set(idx, IntraVar::Unsupported);
                        s.ty.set(idx, IndexedTy(None));
                        proof {
                            assert(s.sview() =~= (SliceView { len: st.len.update(idx as int, 0), var: st.var.update(idx as int, IntraVar::Unsupported),
                                ty: st.ty.update(idx as int, IndexedTy(None)), layout: st.layout, taint: st.taint }));
                        }
                    } else {
                        let bits = ownership_layout_to_rustbv(d.layout());
                        let ival = rustbv_to_int(&bits);
                        let len = d.layout().len();
                        proof {
                            lemma_owned_nonempty(tys[idx as int], None);
                        }
                        let nv = BvTerm::Var(VarName { local: idx, bidx: 0, sidx: 0, tag: NameTag::ArgInit }, len);
                        self.push_goal(Formula::Eq(nv.duplicate(), BvTerm::Lit(ival, len)));
                        s.len.set(idx, len);
                        s.var.set(idx, IntraVar::Init(nv));
                        s.ty.set(idx, t);
                        proof {
                            assert(s.sview() =~= (SliceView { len: st.len.update(idx as int, len), var: st.var.update(idx as int, IntraVar::Init(nv)),
                                ty: st.ty.update(idx as int, IndexedTy(indexed_spec(tys[idx as int], None))), layout: st.layout, taint: st.taint }));
                        }
                    }
                }
                proof {
                    assert forall|q: int| 0 <= q < n && (#[trigger] s.sview().var[q]) is Init implies sorted(s.sview().var[q]->Init_0)
                        && width(s.sview().var[q]->Init_0) == s.sview().len[q] by {
                        if q != idx {
                            assert(s.sview().var[q] == st.var[q]);
                            assert(s.sview().len[q] == st.len[q]);
                        }
                    }
                }
                k = k + 1;
            }
            let ghost gg = self.goal@;
            proof {
                assert(self.flow_ok());
                assert(view_ok(self@));
                assert forall|q: int| 0 <= q < gg.len() implies well_sorted(#[trigger] gg[q]) by {
                    assert(self@.goal[q] == gg[q]);
                    assert(well_sorted(self@.goal[q]));
                }
            }
            self.icx_slice = s;
            proof {
                assert(self.goal@ == gg);
                assert(self@ =~= preprocess_effect(*old(self), bidx));
                assert(cols(self@) == s.sview());
                assert forall|q: int| 0 <= q < self@.var.len() && (#[trigger] self@.var[q]) is Init implies sorted(self@.var[q]->Init_0) by {
                    assert(s.sview().var[q] == self@.var[q]);
                }
                assert(self@.var.len() == self@.len.len());
                assert(self@.ty.len() == self@.len.len());
                assert(self@.layout.len() == self@.len.len());
                assert(self@.taint.len() == self@.len.len());
                assert forall|q: int| 0 <= q < self@.goal.len() implies well_sorted(#[trigger] self@.goal[q]) by {
                    assert(self@.goal[q] == gg[q]);
                }
                assert(self.local_tys@.len() == self@.len.len());
            }
            return;
        }
        let preds = copy_vec(&self.pre[bidx]);
        if preds.len() > 1 {
            let ghost ps = pred_slices(*old(self), bidx as int);
            let mut v_pre: Vec<IcxSlice> = Vec::new();
            let mut j: usize = 0;
            while j < preds.len()
                invariant
                    j <= preds@.len(),
                    preds@ == old(self).pre@[bidx as int]@,
                    self.icx_out == old(self).icx_out,
                    forall|q: int| 0 <= q < preds@.len() ==> (#[trigger] preds@[q]) < self.icx_out@.len(),
                    v_pre@.len() == j,
                    forall|q: int| 0 <= q < j ==> (#[trigger] v_pre@[q]).sview() == self.icx_out@[preds@[q] as int].sview(),
                decreases preds@.len() - j,
            {
                v_pre.push(self.icx_out[preds[j]].duplicate());
                j = j + 1;
            }
            proof {
                assert(views_of(v_pre@) =~= ps);
            }
            let mut ans = v_pre[0].duplicate();
            let var_len = v_pre[0].len.len();
            let ghost st0 = MergeAll { ans: ps[0], goal: old(self)@.goal, cur: cols(old(self)@) };
            let mut i: usize = 0;
            proof {
                assert(slice_ok(ps[0], n as nat));
            }
            while i < var_len
                invariant
                    i <= var_len,
                    var_len == n,
                    views_of(v_pre@) == ps,
                    ps == pred_slices(*old(self), bidx as int),
                    ps.len() > 1,
                    forall|q: int| 0 <= q < ps.len() ==> slice_ok(#[trigger] ps[q], n as nat),
                    forall|q: int, k: int, t: int| 0 <= q < ps.len() && 0 <= k < ps.len() && 0 <= t < n ==> #[trigger] lens_agree(ps[q], ps[k], t),
                    ans.sview() == merge_all(ps, bidx, st0, i as int).ans,
                    self.goal@ == merge_all(ps, bidx, st0, i as int).goal,
                    cols(self@) == merge_all(ps, bidx, st0, i as int).cur,
                    slice_ok(ans.sview(), n as nat),
                    forall|t: int| i <= t < n ==> (#[trigger] ans.var@[t]) == ps[0].var[t] && ans.len@[t] == ps[0].len[t],
                    forall|t: int| 0 <= t < self.goal@.len() ==> well_sorted(#[trigger] self.goal@[t]),
                    i > 0 ==> slice_ok(cols(self@), n as nat),
                    i == 0 ==> cols(self@) == cols(old(self)@),
                    self.frame_kept(old(self)),
                decreases var_len - i,
            {
                let ghost a_before = ans.sview();
                let r = merge_var(&v_pre, &mut ans, i, Ghost(n as nat));
                let ghost a_mid = ans.sview();
                proof {
                    let rr = merge_fold(ps, a_before, i as int, ps.len() as int);
                    assert(rr.ans == ans.sview());
                }
                if r.3 || r.0.is_none() {
                    self.icx_slice = ans.duplicate();
                } else {
                    let phi = BvTerm::Var(VarName { local: i, bidx, sidx: 0, tag: NameTag::Phi }, r.2);
                    let u = match r.0 {
                        Some(u) => u,
                        None => BvTerm::Lit(0, 1),
                    };
                    let f = Formula::Eq(phi.duplicate(), u);
                    let ghost g1 = self.goal@;
                    self.goal.push(f);
                    proof {
                        assert forall|t: int| 0 <= t < self.goal@.len() implies well_sorted(#[trigger] self.goal@[t]) by {
                            if t < g1.len() {
                                assert(self.goal@[t] == g1[t]);
                            }
                        }
                    }
                    ans.var.set(i, IntraVar::Init(phi));
                    self.icx_slice = ans.duplicate();
                }
                proof {
                    let sa = ans.sview();
                    assert forall|t: int| 0 <= t < n && t != i implies (#[trigger] sa.var[t]) == a_before.var[t] && sa.len[t] == a_before.len[t] by {
                        assert(a_mid.var[t] == a_before.var[t]);
                        assert(a_mid.len[t] == a_before.len[t]);
                        assert(sa.var[t] == a_mid.var[t]);
                    }
                    assert(sa.len[i as int] == a_mid.len[i as int]);
                    assert forall|t: int| 0 <= t < n && (#[trigger] sa.var[t]) is Init implies sorted(sa.var[t]->Init_0) && width(sa.var[t]->Init_0) == sa.len[t] by {
                        if t != i {
                            assert(sa.var[t] == a_before.var[t]);
                            assert(sa.len[t] == a_before.len[t]);
                        } else if r.3 {
                            assert(sa.var[t] == IntraVar::Unsupported);
                        } else if r.0.is_none() {
                            assert(sa == a_before);
                            assert(a_before.var[t] == ps[0].var[t]);
                            assert(slice_ok(ps[0], n as nat));
                        } else {
                            lemma_sorted_width(r.0->0);
                        }
                    }
                }
                let ghost i0 = i;
                i = i + 1;
                proof {
                    let sa = ans.sview();
                    assert forall|t: int| i <= t < n implies (#[trigger] ans.var@[t]) == ps[0].var[t] && ans.len@[t] == ps[0].len[t] by {
                        assert(t != i0);
                        assert(ans.var@[t] == sa.var[t]);
                        assert(ans.len@[t] == sa.len[t]);
                        assert(sa.var[t] == a_before.var[t]);
                        assert(sa.len[t] == a_before.len[t]);
                        assert(a_before.var[t] == ps[0].var[t]);
                        assert(a_before.len[t] == ps[0].len[t]);
                    }
                }
            }
            proof {
                assert(self@ =~= preprocess_effect(*old(self), bidx));
            }
        } else {
            proof {
                assert(preds@[0] == old(self).pre@[bidx as int]@[0]);
                assert(pred_slices(*old(self), bidx as int)[0] == old(self).icx_out@[preds@[0] as int].sview());
            }
            self.icx_slice = self.icx_out[preds[0]].duplicate();
            proof {
                assert(self@ =~= preprocess_effect(*old(self), bidx));
            }
        }
    }

    /// Records the slice the block `bidx` ends with and clears the current
    /// one.
    pub fn reprocess_for_basic_block(&mut self, bidx: usize)
        requires
            bidx < old(self).icx_out@.len(),
        ensures
            final(self).icx_out@ == old(self).icx_out@.update(bidx as int, old(self).icx_slice),
            final(self).icx_slice.sview() == declared_slice(0),
            final(self).goal == old(self).goal,
            final(self).local_tys == old(self).local_tys,
            final(self).arg_count == old(self).arg_count,
            final(self).taint_flag == old(self).taint_flag,
            final(self).taint_source == old(self).taint_source,
            final(self).pre == old(self).pre,
    {
        let mut s = declared_icx(0);
        std::mem::swap(&mut s, &mut self.icx_slice);
        self.icx_out.set(bidx, s);
    }
}


/// What a statement does (`tys` the declared types of the locals): an
/// assignment goes to `visit_assign`, anything else changes nothing.
pub open spec fn stmt_effect(v: FlowView, st: FlowStmt, tys: Seq<TyShape>, arg_count: usize, bidx: usize, sidx: usize) -> FlowView {
    match st {
        FlowStmt::Assign(l, rv) => match rvalue_read(rv) {
            Some((r, m)) => assign_spec(v, l, r, m, tys[l.local as int], None, arg_count, bidx, sidx),
            None => v,
        },
        _ => v,
    }
}

/// What a statement needs (see `assign_fits`).
pub open spec fn stmt_fits(v: FlowView, st: FlowStmt, tys: Seq<TyShape>) -> bool {
    match st {
        FlowStmt::Assign(l, rv) => match rvalue_read(rv) {
            Some((r, m)) => assign_fits(v, l, r, m, tys[l.local as int], None),
            None => true,
        },
        _ => true,
    }
}

/// The first `k` statements applied in order.
pub open spec fn stmts_effect(v: FlowView, sts: Seq<FlowStmt>, tys: Seq<TyShape>, arg_count: usize, bidx: usize, k: int) -> FlowView
    decreases k,
{
    if k <= 0 {
        v
    } else {
        stmt_effect(stmts_effect(v, sts, tys, arg_count, bidx, k - 1), sts[k - 1], tys, arg_count, bidx, (k - 1) as usize)
    }
}

/// What a call needs (see `handle_call`).
pub open spec fn call_fits(v: FlowView, tys: Seq<TyShape>, fn_index: Option<usize>, args: Seq<FlowOperand>, dest: FlowPlace, bidx: usize) -> bool {
    &&& dest.local < v.len.len()
    &&& variant_ok(dest.ty, dest.variant)
    &&& indexable(dest.ty, dest.variant)
    &&& variant_ok(tys[dest.local as int], None)
    &&& indexable(tys[dest.local as int], None)
    &&& operands_ok(v, args)
    &&& call_args_fit(v, args)
    &&& fn_index == Some(MEM_DROP_INDEX) ==> args.len() > 0
    &&& !is_mem_drop(fn_index, args, dest) ==> call_return_fits(
        call_args(v, args, dest.local as int, fn_source(args, dest), recovery_args(v, args, dest), bidx),
        dest,
        tys[dest.local as int],
        fn_source(args, dest),
    )
}

/// What a terminator does: a drop drops its place, a call is handled, a
/// return returns; anything else changes nothing.
pub open spec fn term_effect(v: FlowView, t: FlowTerm, tys: Seq<TyShape>, arg_count: usize, bidx: usize) -> FlowView {
    match t {
        FlowTerm::Drop(p) => drop_effect(v, p.local as int, proj_run(p.projection@), bidx, false),
        FlowTerm::Call { span, fn_index, args, dest } => call_effect(v, fn_index, args@, dest, tys[dest.local as int], bidx),
        FlowTerm::Return => return_effect(v, arg_count, bidx),
        FlowTerm::Other => v,
    }
}

/// What a terminator needs.
pub open spec fn term_fits(v: FlowView, t: FlowTerm, tys: Seq<TyShape>, arg_count: usize, bidx: usize) -> bool {
    match t {
        FlowTerm::Drop(p) => p.local < v.len.len() && consistent(v, p.local as int) && drop_fits(v, p.local as int, proj_run(p.projection@), false),
        FlowTerm::Call { span, fn_index, args, dest } => call_fits(v, tys, fn_index, args@, dest, bidx),
        FlowTerm::Return => return_fits(v, arg_count),
        FlowTerm::Other => true,
    }
}

/// A terminator that turns a value into a pointer.
pub open spec fn term_taints(t: FlowTerm) -> bool {
    match t {
        FlowTerm::Call { span, fn_index, args, dest } => !is_mem_drop(fn_index, args@, dest) && fn_source(args@, dest),
        _ => false,
    }
}

/// The location of a call terminator.
pub open spec fn term_span(t: FlowTerm) -> usize {
    match t {
        FlowTerm::Call { span, .. } => span,
        _ => 0,
    }
}

impl IntraFlowAnalysis {
    /// A local's storage becomes live: nothing to track.
    pub fn handle_stmt_live(&mut self, local: usize, bidx: usize)
        ensures
            *final(self) == *old(self),
    {
    }

    /// A local's storage ends: nothing to track.
    pub fn handle_stmt_dead(&mut self, local: usize, bidx: usize)
        ensures
            *final(self) == *old(self),
    {
    }

    /// Statement `sidx` of block `bidx` (see `stmt_effect`).
    pub fn visit_statement(&mut self, stmt: &FlowStmt, bidx: usize, sidx: usize)
        requires
            old(self).flow_ok(),
            stmt_fits(old(self)@, *stmt, old(self).local_tys@),
        ensures
            final(self).flow_ok(),
            final(self).frame_kept(old(self)),
            final(self)@ == stmt_effect(old(self)@, *stmt, old(self).local_tys@, old(self).arg_count, bidx, sidx),
    {
        match stmt {
            FlowStmt::Assign(place, rvalue) => {
                self.visit_assign(place, rvalue, None, bidx, sidx);
            },
            FlowStmt::StorageLive(local) => {
                self.handle_stmt_live(*local, bidx);
            },
            FlowStmt::StorageDead(local) => {
                self.handle_stmt_dead(*local, bidx);
            },
            FlowStmt::Other => {},
        }
    }

    /// The terminator of block `bidx` (see `term_effect`).
    pub fn visit_terminator(&mut self, term: &FlowTerm, bidx: usize)
        requires
            old(self).flow_ok(),
            term_fits(old(self)@, *term, old(self).local_tys@, old(self).arg_count, bidx),
        ensures
            final(self).flow_ok(),
            final(self).local_tys == old(self).local_tys,
            final(self).arg_count == old(self).arg_count,
            final(self).icx_out == old(self).icx_out,
            final(self).pre == old(self).pre,
            final(self)@ == term_effect(old(self)@, *term, old(self).local_tys@, old(self).arg_count, bidx),
            final(self).taint_flag == (old(self).taint_flag || term_taints(*term)),
            final(self).taint_source@ == (if term_taints(*term) {
                old(self).taint_source@.push(term_span(*term))
            } else {
                old(self).taint_source@
            }),
    {
        match term {
            FlowTerm::Drop(place) => {
                self.handle_drop(place, bidx, false);
            },
            FlowTerm::Call { span, fn_index, args, dest } => {
                self.handle_call(*span, *fn_index, args, dest, bidx);
            },
            FlowTerm::Return => {
                self.handle_return(bidx);
            },
            FlowTerm::Other => {},
        }
    }

    /// Visits block `bidx`: sets up the slice it starts from, applies its
    /// statements in order and its terminator, then records the slice it
    /// ends with.
    pub fn visit_block_data(&mut self, data: &FlowBlock, bidx: usize)
        requires
            preprocess_fits(*old(self), bidx),
            bidx < old(self).icx_out@.len(),
            forall|k: int| 0 <= k < data.statements@.len() ==> stmt_fits(
                #[trigger] stmts_effect(preprocess_effect(*old(self), bidx), data.statements@, old(self).local_tys@, old(self).arg_count, bidx, k),
                data.statements@[k],
                old(self).local_tys@,
            ),
            term_fits(
                stmts_effect(preprocess_effect(*old(self), bidx), data.statements@, old(self).local_tys@, old(self).arg_count, bidx, data.statements@.len() as int),
                data.terminator,
                old(self).local_tys@,
                old(self).arg_count,
                bidx,
            ),
        ensures
            ({
                let after = term_effect(
                    stmts_effect(preprocess_effect(*old(self), bidx), data.statements@, old(self).local_tys@, old(self).arg_count, bidx, data.statements@.len() as int),
                    data.terminator,
                    old(self).local_tys@,
                    old(self).arg_count,
                    bidx,
                );
                &&& final(self).icx_out@.len() == old(self).icx_out@.len()
                &&& final(self).icx_out@[bidx as int].sview() == cols(after)
                &&& forall|j: int| 0 <= j < old(self).icx_out@.len() && j != bidx ==> #[trigger] final(self).icx_out@[j] == old(self).icx_out@[j]
                &&& final(self).goal@ == after.goal
            }),
            final(self).local_tys == old(self).local_tys,
            final(self).arg_count == old(self).arg_count,
            final(self).pre == old(self).pre,
            final(self).taint_flag == (old(self).taint_flag || term_taints(data.terminator)),
    {
        self.preprocess_for_basic_block(bidx);
        let ghost v1 = self@;
        let ghost tys = self.local_tys@;
        let mut sidx: usize = 0;
        while sidx < data.statements.len()
            invariant
                sidx <= data.statements@.len(),
                self.flow_ok(),
                self.frame_kept(old(self)),
                tys == old(self).local_tys@,
                v1 == preprocess_effect(*old(self), bidx),
                self@ == stmts_effect(v1, data.statements@, tys, old(self).arg_count, bidx, sidx as int),
                forall|k: int| 0 <= k < data.statements@.len() ==> stmt_fits(
                    #[trigger] stmts_effect(v1, data.statements@, tys, old(self).arg_count, bidx, k),
                    data.statements@[k],
                    tys,
                ),
            decreases data.statements@.len() - sidx,
        {
            proof {
                assert(stmt_fits(stmts_effect(v1, data.statements@, tys, old(self).arg_count, bidx, sidx as int), data.statements@[sidx as int], tys));
            }
            self.visit_statement(&data.statements[sidx], bidx, sidx);
            sidx = sidx + 1;
        }
        self.visit_terminator(&data.terminator, bidx);
        let ghost after = self@;
        self.reprocess_for_basic_block(bidx);
        proof {
            assert(self.icx_out@[bidx as int].sview() =~= cols(after));
        }
    }
}


/// A copy between whole locals never leaves both owning: under any values
/// that satisfy the constraint it adds, one of the two fresh variables has
/// every bit clear.
pub proof fn lemma_copy_single_owner(
    v: FlowView,
    lu: int,
    ru: int,
    r_ori: BvTerm,
    rlen: int,
    ctor: bool,
    bidx: usize,
    sidx: usize,
    m: Map<VarName, Seq<bool>>,
)
    requires
        0 <= rlen <= usize::MAX,
        holds(whole_transfer(v, lu, ru, r_ori, rlen, ctor, bidx, sidx, false).goal.last(), m),
    ensures
        ({
            let l_new = var_at(lu, bidx, sidx, if ctor { NameTag::CtorAsgn } else { NameTag::Plain }, rlen);
            let r_new = var_at(ru, bidx, sidx, NameTag::Plain, rlen);
            (forall|i: int| 0 <= i < rlen ==> !(#[trigger] eval(l_new, m)[i])) || (forall|i: int| 0 <= i < rlen ==> !(#[trigger] eval(r_new, m)[i]))
        }),
{
    lemma_zero_bits(rlen as nat);
    reveal_with_fuel(holds, 3);
}

/// A move between whole locals leaves the right local with every bit
/// clear and gives the left one exactly the bits the right one had.
pub proof fn lemma_move_transfers(
    v: FlowView,
    lu: int,
    ru: int,
    r_ori: BvTerm,
    rlen: int,
    ctor: bool,
    bidx: usize,
    sidx: usize,
    m: Map<VarName, Seq<bool>>,
)
    requires
        0 <= rlen <= usize::MAX,
        ({
            let g = whole_transfer(v, lu, ru, r_ori, rlen, ctor, bidx, sidx, true).goal;
            holds(g[g.len() - 2], m) && holds(g[g.len() - 1], m)
        }),
    ensures
        forall|i: int| 0 <= i < rlen ==> !(#[trigger] eval(var_at(ru, bidx, sidx, NameTag::Plain, rlen), m)[i]),
        eval(var_at(lu, bidx, sidx, if ctor { NameTag::CtorAsgn } else { NameTag::Plain }, rlen), m) == eval(r_ori, m),
{
    lemma_zero_bits(rlen as nat);
}

} // verus!
