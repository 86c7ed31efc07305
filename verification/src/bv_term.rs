use vstd::prelude::*;
use crate::text::decimal;
use crate::ty_layout::new_local_name;

verus! {

/// What a bit-vector variable of the ownership flow analysis stands for,
/// beyond its local and program point.
#[derive(Clone, Copy, Debug, PartialEq, Eq, Structural)]
pub enum NameTag {
    /// The value of a local after a statement.
    Plain,
    /// The value an argument enters the function with.
    ArgInit,
    /// The value of a local where several paths meet.
    Phi,
    /// The value of a local an assignment creates.
    CtorAsgn,
    /// The value of a local a call creates.
    CtorFn,
    /// The value of a local a call overwrites.
    CoverFn,
    /// The value of an argument after it is passed to a call.
    ParamPass,
    /// The value a local is left with when the function returns.
    Return,
    /// The value after a whole local is dropped.
    DropAll,
    /// The value after a pointer hands its memory back.
    DropRecovery,
    /// The value after one field is dropped.
    DropField,
    /// The value after a pointer field hands its memory back.
    DropFieldRecovery,
}

/// A variable: the local, the block and statement it is taken at, and
/// what it stands for.
#[derive(Clone, Copy, Debug, PartialEq, Eq, Structural)]
pub struct VarName {
    pub local: usize,
    pub bidx: usize,
    pub sidx: usize,
    pub tag: NameTag,
}

/// A bit-vector term: each bit stands for one slot of a value's ownership
/// layout, set when the slot owns heap memory.
#[derive(Debug, PartialEq, Eq)]
pub enum BvTerm {
    /// A named variable of a width.
    Var(VarName, usize),
    /// A constant of a width (its low bits).
    Lit(u64, usize),
    /// Bitwise and.
    And(Box<BvTerm>, Box<BvTerm>),
    /// The bits `hi` down to `lo`.
    Extract(Box<BvTerm>, usize, usize),
    /// Extended by `n` copies of its top bit.
    SignExt(Box<BvTerm>, usize),
    /// The first term above the second.
    Concat(Box<BvTerm>, Box<BvTerm>),
    /// One bit: whether any bit is set.
    RedOr(Box<BvTerm>),
}

/// A constraint over bit-vector terms.
#[derive(Debug, PartialEq, Eq)]
pub enum Formula {
    Eq(BvTerm, BvTerm),
    And(Box<Formula>, Box<Formula>),
    Or(Box<Formula>, Box<Formula>),
}

/// The number of bits of a term.
pub open spec fn width(t: BvTerm) -> int
    decreases t,
{
    match t {
        BvTerm::Var(_, n) => n as int,
        BvTerm::Lit(_, n) => n as int,
        BvTerm::And(a, _) => width(*a),
        BvTerm::Extract(_, hi, lo) => hi - lo + 1,
        BvTerm::SignExt(a, n) => width(*a) + n,
        BvTerm::Concat(a, b) => width(*a) + width(*b),
        BvTerm::RedOr(_) => 1,
    }
}

/// A term is well sorted: variables and constants have at least one bit,
/// the operands of an and have one width, and an extraction lies within
/// its operand.
pub open spec fn sorted(t: BvTerm) -> bool
    decreases t,
{
    match t {
        BvTerm::Var(_, n) => n > 0,
        BvTerm::Lit(_, n) => n > 0,
        BvTerm::And(a, b) => sorted(*a) && sorted(*b) && width(*a) == width(*b),
        BvTerm::Extract(a, hi, lo) => sorted(*a) && lo <= hi && hi < width(*a),
        BvTerm::SignExt(a, _) => sorted(*a),
        BvTerm::Concat(a, b) => sorted(*a) && sorted(*b),
        BvTerm::RedOr(a) => sorted(*a),
    }
}

/// A constraint is well sorted: both sides of each equation are well
/// sorted terms of one width.
pub open spec fn well_sorted(f: Formula) -> bool
    decreases f,
{
    match f {
        Formula::Eq(a, b) => sorted(a) && sorted(b) && width(a) == width(b),
        Formula::And(p, q) => well_sorted(*p) && well_sorted(*q),
        Formula::Or(p, q) => well_sorted(*p) && well_sorted(*q),
    }
}

/// A sorted term has at least one bit.
pub proof fn lemma_sorted_width(t: BvTerm)
    requires
        sorted(t),
    ensures
        width(t) >= 1,
    decreases t,
{
    match t {
        BvTerm::And(a, _) => lemma_sorted_width(*a),
        BvTerm::SignExt(a, _) => lemma_sorted_width(*a),
        BvTerm::Concat(a, b) => {
            lemma_sorted_width(*a);
            lemma_sorted_width(*b);
        },
        _ => {},
    }
}

impl BvTerm {
    /// A copy of the term.
    pub fn duplicate(&self) -> (res: BvTerm)
        ensures
            res == *self,
        decreases self,
    {
        match self {
            BvTerm::Var(n, w) => BvTerm::Var(*n, *w),
            BvTerm::Lit(v, w) => BvTerm::Lit(*v, *w),
            BvTerm::And(a, b) => BvTerm::And(Box::new(a.duplicate()), Box::new(b.duplicate())),
            BvTerm::Extract(a, hi, lo) => BvTerm::Extract(Box::new(a.duplicate()), *hi, *lo),
            BvTerm::SignExt(a, n) => BvTerm::SignExt(Box::new(a.duplicate()), *n),
            BvTerm::Concat(a, b) => BvTerm::Concat(Box::new(a.duplicate()), Box::new(b.duplicate())),
            BvTerm::RedOr(a) => BvTerm::RedOr(Box::new(a.duplicate())),
        }
    }
}

/// The suffix a tag adds to a variable's name.
pub open spec fn tag_suffix(t: NameTag) -> Seq<char> {
    match t {
        NameTag::Plain => seq![],
        NameTag::ArgInit => "_arg_init"@,
        NameTag::Phi => "_phi"@,
        NameTag::CtorAsgn => "_ctor_asgn"@,
        NameTag::CtorFn => "_ctor_fn"@,
        NameTag::CoverFn => "_cover_fn"@,
        NameTag::ParamPass => "_param_pass"@,
        NameTag::Return => "_return"@,
        NameTag::DropAll => "_drop_all"@,
        NameTag::DropRecovery => "_drop_recovery"@,
        NameTag::DropField => "_drop_f"@,
        NameTag::DropFieldRecovery => "_drop_f_recovery"@,
    }
}

/// The text of a variable's name: block, statement and local joined by
/// underscores, then the tag's suffix.
pub open spec fn name_text(n: VarName) -> Seq<char> {
    decimal(n.bidx as nat) + seq!['_'] + decimal(n.sidx as nat) + seq!['_'] + decimal(n.local as nat) + tag_suffix(n.tag)
}

/// The text of a variable's name (see `name_text`).
pub fn var_name_text(n: &VarName) -> (res: String)
    ensures
        res@ == name_text(*n),
{
    let base = new_local_name(n.local, n.bidx, n.sidx);
    let suffix: &str = match n.tag {
        NameTag::Plain => "",
        NameTag::ArgInit => "_arg_init",
        NameTag::Phi => "_phi",
        NameTag::CtorAsgn => "_ctor_asgn",
        NameTag::CtorFn => "_ctor_fn",
        NameTag::CoverFn => "_cover_fn",
        NameTag::ParamPass => "_param_pass",
        NameTag::Return => "_return",
        NameTag::DropAll => "_drop_all",
        NameTag::DropRecovery => "_drop_recovery",
        NameTag::DropField => "_drop_f",
        NameTag::DropFieldRecovery => "_drop_f_recovery",
    };
    proof {
        reveal_strlit("");
        reveal_strlit("_arg_init");
        reveal_strlit("_phi");
        reveal_strlit("_ctor_asgn");
        reveal_strlit("_ctor_fn");
        reveal_strlit("_cover_fn");
        reveal_strlit("_param_pass");
        reveal_strlit("_return");
        reveal_strlit("_drop_all");
        reveal_strlit("_drop_recovery");
        reveal_strlit("_drop_f");
        reveal_strlit("_drop_f_recovery");
        assert(suffix@ == tag_suffix(n.tag));
    }
    base.concat(suffix)
}


/// The `w` low bits of `v`, least significant first.
pub open spec fn lit_bits(v: nat, w: nat) -> Seq<bool>
    decreases w,
{
    if w == 0 {
        Seq::empty()
    } else {
        seq![v % 2 == 1] + lit_bits(v / 2, (w - 1) as nat)
    }
}

/// The bits of a term, least significant first, under the values `m` of
/// its variables.
pub open spec fn eval(t: BvTerm, m: Map<VarName, Seq<bool>>) -> Seq<bool>
    decreases t,
{
    match t {
        BvTerm::Var(n, _) => m[n],
        BvTerm::Lit(v, w) => lit_bits(v as nat, w as nat),
        BvTerm::And(a, b) => {
            let x = eval(*a, m);
            let y = eval(*b, m);
            Seq::new(x.len(), |i: int| x[i] && y[i])
        },
        BvTerm::Extract(a, hi, lo) => eval(*a, m).subrange(lo as int, hi + 1),
        BvTerm::SignExt(a, k) => {
            let x = eval(*a, m);
            x + Seq::new(k as nat, |i: int| x.last())
        },
        BvTerm::Concat(a, b) => eval(*b, m) + eval(*a, m),
        BvTerm::RedOr(a) => seq![eval(*a, m).contains(true)],
    }
}

/// A constraint holds under the values `m`.
pub open spec fn holds(f: Formula, m: Map<VarName, Seq<bool>>) -> bool
    decreases f,
{
    match f {
        Formula::Eq(a, b) => eval(a, m) == eval(b, m),
        Formula::And(p, q) => holds(*p, m) && holds(*q, m),
        Formula::Or(p, q) => holds(*p, m) || holds(*q, m),
    }
}

/// The bits of 0 are all clear.
pub proof fn lemma_zero_bits(w: nat)
    ensures
        lit_bits(0, w).len() == w,
        forall|i: int| 0 <= i < w ==> !(#[trigger] lit_bits(0, w)[i]),
    decreases w,
{
    if w > 0 {
        lemma_zero_bits((w - 1) as nat);
        let r = lit_bits(0, (w - 1) as nat);
        assert(lit_bits(0, w) == seq![false] + r);
        assert forall|i: int| 0 <= i < w implies !(#[trigger] lit_bits(0, w)[i]) by {
            if i > 0 {
                assert(lit_bits(0, w)[i] == r[i - 1]);
            }
        }
    }
}

} // verus!
