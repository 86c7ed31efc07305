use vstd::prelude::*;
use crate::value_graph::TyKind;

verus! {

/// What the alias analyses read of a field's type: whether it needs drop,
/// whether it may drop, and its kind.
#[derive(Copy, Clone, Debug, PartialEq, Eq, Structural)]
pub struct FieldInfo {
    pub need_drop: bool,
    pub may_drop: bool,
    pub kind: TyKind,
}

/// One projection step of a place.
#[derive(Copy, Clone, Debug, PartialEq, Eq, Structural)]
pub enum PlaceElem {
    Deref,
    /// A field, by index, with what the analyses read of its type.
    Field(usize, FieldInfo),
    /// A step the alias analyses do not follow (index, downcast, ...).
    Other,
}

/// A place: a local and the projection steps from it.
#[derive(Clone, Debug)]
pub struct Place {
    pub local: usize,
    pub projection: Vec<PlaceElem>,
}

/// How an assignment moves its value.
#[derive(Copy, Clone, Debug, PartialEq, Eq, Structural)]
pub enum AssignType {
    Copy,
    Move,
    InitBox,
    Variant,
}

/// An assignment `lv = rv` of a block, with its source location.
#[derive(Clone, Debug)]
pub struct Assignment {
    pub lv: Place,
    pub rv: Place,
    pub atype: AssignType,
    pub span: usize,
}

/// An operand: a place read by copy or by move, or a constant (with its
/// value when it can be evaluated to an integer).
#[derive(Clone, Debug)]
pub enum Operand {
    Copy(Place),
    Move(Place),
    Constant(Option<usize>),
}

/// The targets of a switch: the value-target pairs in order, and the
/// target taken otherwise.
#[derive(Clone, Debug)]
pub struct SwitchTargets {
    pub values: Vec<(usize, usize)>,
    pub otherwise: usize,
}

/// A switch on an operand.
#[derive(Clone, Debug)]
pub struct SwitchInt {
    pub discr: Operand,
    pub targets: SwitchTargets,
}

/// What is known of a called function: a definition whose body can be
/// analysed (by id), or one without a body, possibly one of the closure
/// call or iterator step functions that the analyses pass over.
#[derive(Clone, Copy, Debug, PartialEq, Eq, Structural)]
pub enum Callee {
    WithBody(u64),
    NoBody { passed_over: bool },
    /// A call through something that is not a function definition.
    Indirect,
}

/// A call of a block: the function called (and its printed path), its
/// arguments, the place that receives the result and its source location.
#[derive(Clone, Debug)]
pub struct CallSite {
    pub callee: Callee,
    pub callee_path: String,
    pub args: Vec<Operand>,
    pub destination: Place,
    pub span: usize,
}

/// The type of a dropped place, as the drop check reads it: an ADT (by
/// definition id, with the variant it is known to be in), or another type.
#[derive(Clone, Copy, Debug, PartialEq, Eq, Structural)]
pub enum DropTy {
    Adt(u64, Option<usize>),
    Other,
}

/// What ends a value: a drop of a place (of the given type), or a call
/// that takes the value as its first argument.
#[derive(Clone, Debug)]
pub enum DropKind {
    Drop { place: Place, place_ty: DropTy },
    Call { args: Vec<Operand> },
}

/// A drop of a block, with its source location.
#[derive(Clone, Debug)]
pub struct DropSite {
    pub kind: DropKind,
    pub span: usize,
}

/// A basic block (or a strongly connected set of blocks merged into one),
/// with what the alias analyses read of it.
#[derive(Clone, Debug)]
pub struct BlockNode {
    pub next: Vec<usize>,
    pub scc_sub_blocks: Vec<usize>,
    pub assignments: Vec<Assignment>,
    pub calls: Vec<CallSite>,
    pub drops: Vec<DropSite>,
    pub switch_stmts: Vec<SwitchInt>,
    pub const_value: Vec<(usize, usize)>,
    pub is_cleanup: bool,
}

/// The place's local is below `n`.
pub open spec fn place_ok(p: Place, n: nat) -> bool {
    p.local < n
}

pub open spec fn operand_ok(o: Operand, n: nat) -> bool {
    match o {
        Operand::Copy(p) => place_ok(p, n),
        Operand::Move(p) => place_ok(p, n),
        Operand::Constant(_) => true,
    }
}

/// Every place of the block names a local below `n_locals` and every block
/// it leads to is below `n_blocks`.
pub open spec fn block_ok(b: BlockNode, n_locals: nat, n_blocks: nat) -> bool {
    &&& forall|i: int| 0 <= i < b.next@.len() ==> (#[trigger] b.next@[i] as int) < n_blocks
    &&& b.next@.no_duplicates()
    &&& forall|i: int| 0 <= i < b.scc_sub_blocks@.len() ==> (#[trigger] b.scc_sub_blocks@[i] as int) < n_blocks
    &&& forall|i: int| 0 <= i < b.assignments@.len() ==> place_ok((#[trigger] b.assignments@[i]).lv, n_locals)
        && place_ok(b.assignments@[i].rv, n_locals)
    &&& forall|i: int| 0 <= i < b.calls@.len() ==> place_ok((#[trigger] b.calls@[i]).destination, n_locals)
        && forall|j: int| 0 <= j < b.calls@[i].args@.len() ==> operand_ok(#[trigger] b.calls@[i].args@[j], n_locals)
    &&& forall|i: int| 0 <= i < b.drops@.len() ==> match (#[trigger] b.drops@[i]).kind {
        DropKind::Drop { place, .. } => place_ok(place, n_locals),
        DropKind::Call { args } => forall|j: int| 0 <= j < args@.len() ==> operand_ok(#[trigger] args@[j], n_locals),
    }
    &&& forall|i: int| 0 <= i < b.switch_stmts@.len() ==> {
        let s = #[trigger] b.switch_stmts@[i];
        &&& operand_ok(s.discr, n_locals)
        &&& (s.targets.otherwise as int) < n_blocks
        &&& forall|j: int| 0 <= j < s.targets.values@.len() ==> (#[trigger] s.targets.values@[j].1 as int) < n_blocks
    }
}

/// Block well-formedness for fewer locals implies it for more.
pub proof fn lemma_blocks_ok_mono(blocks: Seq<BlockNode>, n1: nat, n2: nat)
    requires
        n1 <= n2,
        forall|i: int| 0 <= i < blocks.len() ==> block_ok(#[trigger] blocks[i], n1, blocks.len()),
    ensures
        forall|i: int| 0 <= i < blocks.len() ==> block_ok(#[trigger] blocks[i], n2, blocks.len()),
{
    assert forall|i: int| 0 <= i < blocks.len() implies block_ok(#[trigger] blocks[i], n2, blocks.len()) by {
        let b = blocks[i];
        assert(block_ok(b, n1, blocks.len()));
        assert forall|k: int| 0 <= k < b.calls@.len() implies place_ok((#[trigger] b.calls@[k]).destination, n2)
            && forall|j: int| 0 <= j < b.calls@[k].args@.len() ==> operand_ok(#[trigger] b.calls@[k].args@[j], n2) by {
            assert forall|j: int| 0 <= j < b.calls@[k].args@.len() implies operand_ok(#[trigger] b.calls@[k].args@[j], n2) by {
                assert(operand_ok(b.calls@[k].args@[j], n1));
            }
        }
        assert forall|k: int| 0 <= k < b.drops@.len() implies match (#[trigger] b.drops@[k]).kind {
            DropKind::Drop { place, .. } => place_ok(place, n2),
            DropKind::Call { args } => forall|j: int| 0 <= j < args@.len() ==> operand_ok(#[trigger] args@[j], n2),
        } by {
            match b.drops@[k].kind {
                DropKind::Drop { place, .. } => {},
                DropKind::Call { args } => {
                    assert forall|j: int| 0 <= j < args@.len() implies operand_ok(#[trigger] args@[j], n2) by {
                        assert(operand_ok(args@[j], n1));
                    }
                },
            }
        }
        assert forall|k: int| 0 <= k < b.switch_stmts@.len() implies {
            let s = #[trigger] b.switch_stmts@[k];
            &&& operand_ok(s.discr, n2)
            &&& (s.targets.otherwise as int) < blocks.len()
            &&& forall|j: int| 0 <= j < s.targets.values@.len() ==> (#[trigger] s.targets.values@[j].1 as int) < blocks.len()
        } by {
            let s = b.switch_stmts@[k];
            assert(operand_ok(s.discr, n1));
        }
    }
}

/// The target of the first pair from position `k` on whose value is
/// `val` (0 when none is).
pub open spec fn first_match_from(ts: Seq<(usize, usize)>, val: usize, k: int) -> usize
    decreases ts.len() - k,
{
    if k < 0 || k >= ts.len() {
        0
    } else if ts[k].0 == val {
        ts[k].1
    } else {
        first_match_from(ts, val, k + 1)
    }
}

/// The block a switch on the known value `val` goes to: the first
/// matching target, or the otherwise target (also when the match is block
/// 0).
pub open spec fn switch_target(blk: BlockNode, val: usize) -> usize {
    let t = first_match_from(blk.switch_stmts@[0].targets.values@, val, 0);
    if t == 0 {
        blk.switch_stmts@[0].targets.otherwise
    } else {
        t
    }
}

/// The successors as pairs with no value.
pub open spec fn succ_pairs(next: Seq<usize>) -> Seq<(usize, usize)> {
    next.map_values(|t: usize| (0usize, t))
}

} // verus!
