use vstd::prelude::*;
use crate::ownership::{RawTypeOwner, DefaultOwnership, OwnershipLayoutResult};
use crate::text::{decimal, usize_to_decimal};

verus! {

/// How an algebraic data type is declared.
#[derive(Copy, Clone, Debug, PartialEq, Eq, Structural)]
pub enum AdtKind {
    Struct,
    Union,
    Enum,
}

/// What the layout analysis reads of one field or element type: the
/// ownership visitor's finding for it and whether it is a raw pointer or a
/// reference.
#[derive(Copy, Clone, Debug)]
pub struct FieldTy {
    pub ownership: DefaultOwnership,
    pub is_ptr: bool,
}

/// The shape of a type, as far as its ownership and pointer layouts go.
/// An array carries the visitor's finding for the whole array type; an ADT
/// carries the fields of each of its variants (one variant for a struct or
/// a union).
#[derive(Clone, Debug)]
pub enum TyShape {
    Array(DefaultOwnership),
    Tuple(Vec<FieldTy>),
    Adt(AdtKind, Vec<Vec<FieldTy>>),
    Param,
    RawPtr,
    Ref,
    /// A boolean, character, integer, float, string slice or slice.
    Scalar,
    Other,
}

pub open spec fn summaries_of(fs: Seq<FieldTy>) -> Seq<DefaultOwnership> {
    fs.map_values(|f: FieldTy| f.ownership)
}

/// All fields of an ADT, variant after variant.
pub open spec fn all_fields(vs: Seq<Vec<FieldTy>>) -> Seq<FieldTy> {
    vs.map_values(|v: Vec<FieldTy>| v@).flatten()
}

/// The layout slots that a sequence of visited types gives.
pub open spec fn summary_layout(s: Seq<DefaultOwnership>) -> Seq<RawTypeOwner> {
    s.map_values(|d: DefaultOwnership| d.res_view())
}

/// Some visited type owns heap memory or holds a pointer.
pub open spec fn summary_requirement(s: Seq<DefaultOwnership>) -> bool {
    exists|i: int| 0 <= i < s.len() && (#[trigger] s[i].res_view() == RawTypeOwner::Owned || s[i].ptr_view())
}

/// Some visited type owns heap memory.
pub open spec fn summary_owned(s: Seq<DefaultOwnership>) -> bool {
    exists|i: int| 0 <= i < s.len() && #[trigger] s[i].res_view() == RawTypeOwner::Owned
}

/// The parameter flag of the last visited type (false when none was visited).
pub open spec fn summary_param(s: Seq<DefaultOwnership>) -> bool {
    s.len() > 0 && s.last().param_view()
}

/// The types whose visits make up the default layout of `shape`: the array
/// type itself, each tuple element, each field of a struct or union, each
/// field of the given variant of an enum, and none otherwise.
pub open spec fn visited_summaries(shape: TyShape, variant: Option<usize>) -> Seq<DefaultOwnership> {
    match shape {
        TyShape::Array(d) => seq![d],
        TyShape::Tuple(fs) => summaries_of(fs@),
        TyShape::Adt(kind, vs) => {
            if kind == AdtKind::Enum {
                match variant {
                    Some(v) => summaries_of(vs@[v as int]@),
                    None => Seq::empty(),
                }
            } else {
                summaries_of(all_fields(vs@))
            }
        },
        _ => Seq::empty(),
    }
}

/// A variant index is needed, and in range, exactly for enums with a variant.
pub open spec fn variant_ok(shape: TyShape, variant: Option<usize>) -> bool {
    match shape {
        TyShape::Adt(kind, vs) => kind == AdtKind::Enum && variant is Some ==> variant->0 < vs@.len(),
        _ => true,
    }
}

/// A layout built by visiting the types of `s` in turn, starting from an
/// empty layout.
pub open spec fn built_from(r: OwnershipLayoutResult, s: Seq<DefaultOwnership>) -> bool {
    &&& r.layout_view() == summary_layout(s)
    &&& r.requirement_view() == summary_requirement(s)
    &&& r.owned_view() == summary_owned(s)
    &&& r.param_view() == summary_param(s)
}

proof fn lemma_summary_push(s: Seq<DefaultOwnership>, d: DefaultOwnership)
    ensures
        summary_layout(s.push(d)) == summary_layout(s).push(d.res_view()),
        summary_requirement(s.push(d)) == (summary_requirement(s) || d.res_view()
            == RawTypeOwner::Owned || d.ptr_view()),
        summary_owned(s.push(d)) == (summary_owned(s) || d.res_view() == RawTypeOwner::Owned),
        summary_param(s.push(d)) == d.param_view(),
{
    let t = s.push(d);
    assert(summary_layout(t) =~= summary_layout(s).push(d.res_view()));
    if summary_requirement(s) {
        let i = choose|i: int| 0 <= i < s.len() && (#[trigger] s[i].res_view() == RawTypeOwner::Owned || s[i].ptr_view());
        assert(t[i] == s[i]);
    }
    if summary_requirement(t) {
        let i = choose|i: int| 0 <= i < t.len() && (#[trigger] t[i].res_view() == RawTypeOwner::Owned || t[i].ptr_view());
        if i < s.len() {
            assert(t[i] == s[i]);
        }
    }
    if d.res_view() == RawTypeOwner::Owned || d.ptr_view() {
        assert(t[s.len() as int] == d);
    }
    if summary_owned(s) {
        let i = choose|i: int| 0 <= i < s.len() && #[trigger] s[i].res_view() == RawTypeOwner::Owned;
        assert(t[i] == s[i]);
    }
    if summary_owned(t) {
        let i = choose|i: int| 0 <= i < t.len() && #[trigger] t[i].res_view() == RawTypeOwner::Owned;
        if i < s.len() {
            assert(t[i] == s[i]);
        }
    }
    if d.res_view() == RawTypeOwner::Owned {
        assert(t[s.len() as int] == d);
    }
}

/// Appends the summaries of the fields `fs` to `acc`.
fn push_summaries(acc: &mut Vec<DefaultOwnership>, fs: &Vec<FieldTy>)
    ensures
        final(acc)@ == old(acc)@ + summaries_of(fs@),
{
    let mut i: usize = 0;
    while i < fs.len()
        invariant
            i <= fs@.len(),
            acc@ == old(acc)@ + summaries_of(fs@.take(i as int)),
        decreases fs@.len() - i,
    {
        acc.push(fs[i].ownership);
        assert(summaries_of(fs@.take(i + 1)) =~= summaries_of(fs@.take(i as int)).push(fs@[i as int].ownership));
        i = i + 1;
    }
    assert(fs@.take(fs@.len() as int) =~= fs@);
}

/// The summaries of all fields of an ADT.
fn all_field_summaries(vs: &Vec<Vec<FieldTy>>) -> (res: Vec<DefaultOwnership>)
    ensures
        res@ == summaries_of(all_fields(vs@)),
{
    let mut acc: Vec<DefaultOwnership> = Vec::new();
    let mut i: usize = 0;
    while i < vs.len()
        invariant
            i <= vs@.len(),
            acc@ == summaries_of(all_fields(vs@.take(i as int))),
        decreases vs@.len() - i,
    {
        let ghost before = acc@;
        push_summaries(&mut acc, &vs[i]);
        proof {
            let m0 = vs@.take(i as int).map_values(|v: Vec<FieldTy>| v@);
            let m1 = vs@.take(i + 1).map_values(|v: Vec<FieldTy>| v@);
            assert(m1 =~= m0.push(vs@[i as int]@));
            m0.lemma_flatten_push(vs@[i as int]@);
            let f0 = m0.flatten();
            let e = vs@[i as int]@;
            assert(summaries_of(f0 + e) =~= summaries_of(f0) + summaries_of(e));
        }
        i = i + 1;
    }
    assert(vs@.take(vs@.len() as int) =~= vs@);
    acc
}

/// The layout built by visiting the types of `s` in turn.
fn layout_from_summaries(s: &Vec<DefaultOwnership>) -> (res: OwnershipLayoutResult)
    ensures
        built_from(res, s@),
{
    let mut res = OwnershipLayoutResult::new();
    let mut i: usize = 0;
    assert(summary_layout(s@.take(0)) =~= Seq::<RawTypeOwner>::empty());
    while i < s.len()
        invariant
            i <= s@.len(),
            built_from(res, s@.take(i as int)),
        decreases s@.len() - i,
    {
        res.update_from_default_ownership_visitor(&s[i]);
        proof {
            assert(s@.take(i + 1) =~= s@.take(i as int).push(s@[i as int]));
            lemma_summary_push(s@.take(i as int), s@[i as int]);
        }
        i = i + 1;
    }
    assert(s@.take(s@.len() as int) =~= s@);
    res
}

/// The default ownership layout of a type. A generic parameter is one owned
/// slot that is a parameter; a raw pointer or reference is one unowned slot;
/// an array, a tuple, a struct or union, or an enum with a given variant is
/// built from its visited types (see `visited_summaries`); anything else,
/// and an enum without a variant, gives an empty layout.
pub fn extract_default_ty_layout(ty: &TyShape, variant: Option<usize>) -> (res: OwnershipLayoutResult)
    requires
        variant_ok(*ty, variant),
    ensures
        match *ty {
            TyShape::Param => {
                &&& res.layout_view() == seq![RawTypeOwner::Owned]
                &&& res.requirement_view() && res.param_view() && res.owned_view()
            },
            TyShape::RawPtr | TyShape::Ref => {
                &&& res.layout_view() == seq![RawTypeOwner::Unowned]
                &&& res.requirement_view() && !res.param_view() && !res.owned_view()
            },
            _ => built_from(res, visited_summaries(*ty, variant)),
        },
{
    match ty {
        TyShape::Array(d) => {
            let mut s: Vec<DefaultOwnership> = Vec::new();
            s.push(*d);
            assert(s@ =~= seq![*d]);
            layout_from_summaries(&s)
        },
        TyShape::Tuple(fs) => {
            let mut s: Vec<DefaultOwnership> = Vec::new();
            push_summaries(&mut s, fs);
            assert(s@ =~= summaries_of(fs@));
            layout_from_summaries(&s)
        },
        TyShape::Adt(kind, vs) => {
            let is_enum = match kind {
                AdtKind::Enum => true,
                _ => false,
            };
            if is_enum {
                match variant {
                    None => {
                        let res = OwnershipLayoutResult::new();
                        assert(summary_layout(Seq::<DefaultOwnership>::empty()) =~= Seq::<RawTypeOwner>::empty());
                        res
                    },
                    Some(v) => {
                        let mut s: Vec<DefaultOwnership> = Vec::new();
                        push_summaries(&mut s, &vs[v]);
                        assert(s@ =~= summaries_of(vs@[v as int]@));
                        layout_from_summaries(&s)
                    },
                }
            } else {
                let s = all_field_summaries(vs);
                layout_from_summaries(&s)
            }
        },
        TyShape::Param => {
            let mut res = OwnershipLayoutResult::new();
            res.set_requirement(true);
            res.set_param(true);
            res.set_owned(true);
            res.layout_mut().push(RawTypeOwner::Owned);
            assert(res.layout_view() =~= seq![RawTypeOwner::Owned]);
            res
        },
        TyShape::RawPtr | TyShape::Ref => {
            let mut res = OwnershipLayoutResult::new();
            res.set_requirement(true);
            res.layout_mut().push(RawTypeOwner::Unowned);
            assert(res.layout_view() =~= seq![RawTypeOwner::Unowned]);
            res
        },
        TyShape::Scalar | TyShape::Other => {
            let res = OwnershipLayoutResult::new();
            assert(summary_layout(Seq::<DefaultOwnership>::empty()) =~= Seq::<RawTypeOwner>::empty());
            res
        },
    }
}

/// The pointer layout of `shape`: one entry per slot, true for a pointer.
/// A tuple marks each element that is a raw pointer or reference, a raw
/// pointer or reference is one pointer slot, an array or a generic parameter
/// is one non-pointer slot, each field of a struct, union or given enum
/// variant is a non-pointer slot, and anything else (and an enum without a
/// variant) has no slot.
pub open spec fn ptr_layout_spec(shape: TyShape, variant: Option<usize>) -> Seq<bool> {
    match shape {
        TyShape::Array(_) => seq![false],
        TyShape::Tuple(fs) => fs@.map_values(|f: FieldTy| f.is_ptr),
        TyShape::Adt(kind, vs) => {
            if kind == AdtKind::Enum {
                match variant {
                    Some(v) => Seq::new(vs@[v as int]@.len(), |i: int| false),
                    None => Seq::empty(),
                }
            } else {
                Seq::new(all_fields(vs@).len(), |i: int| false)
            }
        },
        TyShape::Param => seq![false],
        TyShape::RawPtr | TyShape::Ref => seq![true],
        TyShape::Scalar | TyShape::Other => Seq::empty(),
    }
}

/// Appends `n` non-pointer slots.
fn push_falses(acc: &mut Vec<bool>, n: usize)
    ensures
        final(acc)@ == old(acc)@ + Seq::new(n as nat, |i: int| false),
{
    let mut i: usize = 0;
    while i < n
        invariant
            i <= n,
            acc@ == old(acc)@ + Seq::new(i as nat, |j: int| false),
        decreases n - i,
    {
        acc.push(false);
        assert(old(acc)@ + Seq::new((i + 1) as nat, |j: int| false) =~= (old(acc)@ + Seq::new(i as nat, |j: int| false)).push(false));
        i = i + 1;
    }
}

pub fn generate_ptr_layout(ty: &TyShape, variant: Option<usize>) -> (res: Vec<bool>)
    requires
        variant_ok(*ty, variant),
    ensures
        res@ == ptr_layout_spec(*ty, variant),
{
    let mut res: Vec<bool> = Vec::new();
    match ty {
        TyShape::Array(_) => {
            res.push(false);
            assert(res@ =~= seq![false]);
        },
        TyShape::Tuple(fs) => {
            let mut i: usize = 0;
            while i < fs.len()
                invariant
                    i <= fs@.len(),
                    res@ == fs@.take(i as int).map_values(|f: FieldTy| f.is_ptr),
                decreases fs@.len() - i,
            {
                if fs[i].is_ptr {
                    res.push(true);
                } else {
                    res.push(false);
                }
                assert(fs@.take(i + 1).map_values(|f: FieldTy| f.is_ptr) =~= fs@.take(i as int).map_values(|f: FieldTy| f.is_ptr).push(fs@[i as int].is_ptr));
                i = i + 1;
            }
            assert(fs@.take(fs@.len() as int) =~= fs@);
        },
        TyShape::Adt(kind, vs) => {
            let is_enum = match kind {
                AdtKind::Enum => true,
                _ => false,
            };
            if is_enum {
                match variant {
                    None => {
                        assert(res@ =~= Seq::<bool>::empty());
                    },
                    Some(v) => {
                        push_falses(&mut res, vs[v].len());
                        assert(res@ =~= Seq::new(vs@[v as int]@.len(), |i: int| false));
                    },
                }
            } else {
                let mut i: usize = 0;
                while i < vs.len()
                    invariant
                        i <= vs@.len(),
                        res@ == Seq::new(all_fields(vs@.take(i as int)).len(), |j: int| false),
                    decreases vs@.len() - i,
                {
                    push_falses(&mut res, vs[i].len());
                    proof {
                        let m0 = vs@.take(i as int).map_values(|v: Vec<FieldTy>| v@);
                        let m1 = vs@.take(i + 1).map_values(|v: Vec<FieldTy>| v@);
                        assert(m1 =~= m0.push(vs@[i as int]@));
                        m0.lemma_flatten_push(vs@[i as int]@);
                        assert(res@ =~= Seq::new(all_fields(vs@.take(i + 1)).len(), |j: int| false));
                    }
                    i = i + 1;
                }
                assert(vs@.take(vs@.len() as int) =~= vs@);
            }
        },
        TyShape::Param => {
            res.push(false);
            assert(res@ =~= seq![false]);
        },
        TyShape::RawPtr | TyShape::Ref => {
            res.push(true);
            assert(res@ =~= seq![true]);
        },
        TyShape::Scalar | TyShape::Other => {
            assert(res@ =~= Seq::<bool>::empty());
        },
    }
    res
}

/// A place of this type holds a pointer: it is a raw pointer or a
/// reference, or a tuple with such an element.
pub open spec fn contains_ptr(shape: TyShape) -> bool {
    match shape {
        TyShape::Tuple(fs) => exists|i: int| 0 <= i < fs@.len() && #[trigger] fs@[i].is_ptr,
        TyShape::RawPtr | TyShape::Ref => true,
        _ => false,
    }
}

/// Some field is a raw pointer or a reference.
fn any_ptr(fs: &Vec<FieldTy>) -> (res: bool)
    ensures
        res == exists|i: int| 0 <= i < fs@.len() && #[trigger] fs@[i].is_ptr,
{
    let mut i: usize = 0;
    while i < fs.len()
        invariant
            i <= fs@.len(),
            forall|j: int| 0 <= j < i ==> !(#[trigger] fs@[j].is_ptr),
        decreases fs@.len() - i,
    {
        if fs[i].is_ptr {
            assert(fs@[i as int].is_ptr);
            return true;
        }
        i = i + 1;
    }
    false
}

pub fn is_place_containing_ptr(ty: &TyShape) -> (res: bool)
    ensures
        res == contains_ptr(*ty),
{
    match ty {
        TyShape::Tuple(fs) => any_ptr(fs),
        TyShape::RawPtr | TyShape::Ref => true,
        _ => false,
    }
}

/// The bits of an ownership layout: one per initialised slot, set for an
/// owned slot (uninitialised slots are skipped).
pub open spec fn owned_bits(s: Seq<RawTypeOwner>) -> Seq<bool>
    decreases s.len(),
{
    if s.len() == 0 {
        Seq::empty()
    } else {
        let r = owned_bits(s.drop_last());
        match s.last() {
            RawTypeOwner::Uninit => r,
            RawTypeOwner::Unowned => r.push(false),
            RawTypeOwner::Owned => r.push(true),
        }
    }
}

/// As `owned_bits`, with each bit set for an unowned slot instead.
pub open spec fn unowned_bits(s: Seq<RawTypeOwner>) -> Seq<bool>
    decreases s.len(),
{
    if s.len() == 0 {
        Seq::empty()
    } else {
        let r = unowned_bits(s.drop_last());
        match s.last() {
            RawTypeOwner::Uninit => r,
            RawTypeOwner::Unowned => r.push(true),
            RawTypeOwner::Owned => r.push(false),
        }
    }
}

pub fn ownership_layout_to_rustbv(layout: &Vec<RawTypeOwner>) -> (res: Vec<bool>)
    ensures
        res@ == owned_bits(layout@),
{
    let mut v: Vec<bool> = Vec::new();
    let mut i: usize = 0;
    while i < layout.len()
        invariant
            i <= layout@.len(),
            v@ == owned_bits(layout@.take(i as int)),
        decreases layout@.len() - i,
    {
        assert(layout@.take(i + 1).drop_last() =~= layout@.take(i as int));
        match layout[i] {
            RawTypeOwner::Uninit => {},
            RawTypeOwner::Unowned => v.push(false),
            RawTypeOwner::Owned => v.push(true),
        }
        i = i + 1;
    }
    assert(layout@.take(layout@.len() as int) =~= layout@);
    v
}

pub fn reverse_ownership_layout_to_rustbv(layout: &Vec<RawTypeOwner>) -> (res: Vec<bool>)
    ensures
        res@ == unowned_bits(layout@),
{
    let mut v: Vec<bool> = Vec::new();
    let mut i: usize = 0;
    while i < layout.len()
        invariant
            i <= layout@.len(),
            v@ == unowned_bits(layout@.take(i as int)),
        decreases layout@.len() - i,
    {
        assert(layout@.take(i + 1).drop_last() =~= layout@.take(i as int));
        match layout[i] {
            RawTypeOwner::Uninit => {},
            RawTypeOwner::Unowned => v.push(true),
            RawTypeOwner::Owned => v.push(false),
        }
        i = i + 1;
    }
    assert(layout@.take(layout@.len() as int) =~= layout@);
    v
}

/// The bitwise or of two bit vectors of one length.
pub fn rustbv_merge(a: &Vec<bool>, b: &Vec<bool>) -> (res: Vec<bool>)
    requires
        a@.len() == b@.len(),
    ensures
        res@.len() == a@.len(),
        forall|i: int| 0 <= i < a@.len() ==> #[trigger] res@[i] == (a@[i] || b@[i]),
{
    let mut bv: Vec<bool> = Vec::new();
    let mut idx: usize = 0;
    while idx < a.len()
        invariant
            idx <= a@.len(),
            a@.len() == b@.len(),
            bv@.len() == idx,
            forall|i: int| 0 <= i < idx ==> #[trigger] bv@[i] == (a@[i] || b@[i]),
        decreases a@.len() - idx,
    {
        bv.push(a[idx] || b[idx]);
        idx = idx + 1;
    }
    bv
}

pub open spec fn two_pow(n: nat) -> nat
    decreases n,
{
    if n == 0 {
        1
    } else {
        2 * two_pow((n - 1) as nat)
    }
}

/// The number whose binary digits are `bv`, least significant first.
pub open spec fn bits_value(bv: Seq<bool>) -> nat
    decreases bv.len(),
{
    if bv.len() == 0 {
        0
    } else {
        bits_value(bv.drop_last()) + if bv.last() {
            two_pow((bv.len() - 1) as nat)
        } else {
            0
        }
    }
}

proof fn lemma_two_pow_mono(a: nat, b: nat)
    requires
        a <= b,
    ensures
        two_pow(a) <= two_pow(b),
    decreases b,
{
    if a < b {
        lemma_two_pow_mono(a, (b - 1) as nat);
    }
}

/// The unsigned integer whose bits, least significant first, are `bv`.
pub fn rustbv_to_int(bv: &Vec<bool>) -> (res: u64)
    requires
        bv@.len() <= 64,
    ensures
        res == bits_value(bv@),
{
    let mut ans: u64 = 0;
    let mut base: u64 = 1;
    let mut i: usize = 0;
    proof {
        assert(two_pow(64) == 0x1_0000_0000_0000_0000) by {
            reveal_with_fuel(two_pow, 65);
        }
    }
    while i < bv.len()
        invariant
            i <= bv@.len() <= 64,
            i < bv@.len() ==> base == two_pow(i as nat),
            ans == bits_value(bv@.take(i as int)),
            ans < two_pow(i as nat),
            two_pow(64) == 0x1_0000_0000_0000_0000,
        decreases bv@.len() - i,
    {
        proof {
            lemma_two_pow_mono((i + 1) as nat, 64);
            assert(bv@.take(i + 1).drop_last() =~= bv@.take(i as int));
        }
        if bv[i] {
            ans = ans + base;
        }
        if i + 1 < bv.len() {
            proof {
                lemma_two_pow_mono((i + 1) as nat, 63);
                assert(two_pow(63) == 0x8000_0000_0000_0000) by {
                    reveal_with_fuel(two_pow, 64);
                }
            }
            base = base * 2;
        }
        i = i + 1;
    }
    assert(bv@.take(bv@.len() as int) =~= bv@);
    ans
}

/// The name of a fresh variable: block index, statement index and local,
/// joined by underscores.
pub fn new_local_name(local: usize, bidx: usize, sidx: usize) -> (res: String)
    ensures
        res@ == decimal(bidx as nat) + seq!['_'] + decimal(sidx as nat) + seq!['_'] + decimal(local as nat),
{
    let b = usize_to_decimal(bidx);
    let s = usize_to_decimal(sidx);
    let l = usize_to_decimal(local);
    proof {
        reveal_strlit("_");
    }
    let r = b.concat("_");
    let r = r.concat(s.as_str());
    let r = r.concat("_");
    let r = r.concat(l.as_str());
    r
}

/// A type with the number of slots it is split into, the enum variant it
/// was taken at, and whether its slots need tracking; `None` for a type the
/// analysis does not support.
#[derive(Clone, Copy, Debug, PartialEq, Eq)]
pub struct IndexedTy(pub Option<(usize, Option<usize>, bool)>);

/// The indexed form of a type: a tuple has one slot per element; a struct
/// or union one per field of its (first) variant; an enum one per field of
/// the given variant, and no form without one; an array, generic parameter,
/// raw pointer or reference one tracked slot; a scalar one untracked slot.
pub open spec fn indexed_spec(shape: TyShape, vidx: Option<usize>) -> Option<(usize, Option<usize>, bool)> {
    match shape {
        TyShape::Tuple(fs) => Some((fs@.len() as usize, None, true)),
        TyShape::Adt(kind, vs) => {
            if kind == AdtKind::Enum {
                match vidx {
                    None => None,
                    Some(v) => Some((vs@[v as int]@.len() as usize, Some(v), true)),
                }
            } else {
                Some((vs@[0]@.len() as usize, None, true))
            }
        },
        TyShape::Array(_) | TyShape::Param | TyShape::RawPtr | TyShape::Ref => Some((1, None, true)),
        TyShape::Scalar => Some((1, None, false)),
        TyShape::Other => None,
    }
}

/// An ADT has the variant it is indexed at: the given one for an enum,
/// the first for a struct or union.
pub open spec fn indexable(shape: TyShape, vidx: Option<usize>) -> bool {
    match shape {
        TyShape::Adt(kind, vs) => if kind == AdtKind::Enum {
            vidx is Some ==> vidx->0 < vs@.len()
        } else {
            vs@.len() > 0
        },
        _ => true,
    }
}

impl IndexedTy {
    pub fn new(ty: &TyShape, vidx: Option<usize>) -> (res: IndexedTy)
        requires
            indexable(*ty, vidx),
        ensures
            res.0 == indexed_spec(*ty, vidx),
    {
        match ty {
            TyShape::Tuple(fs) => IndexedTy(Some((fs.len(), None, true))),
            TyShape::Adt(kind, vs) => {
                let is_enum = match kind {
                    AdtKind::Enum => true,
                    _ => false,
                };
                if is_enum {
                    match vidx {
                        None => IndexedTy(None),
                        Some(idx) => IndexedTy(Some((vs[idx].len(), Some(idx), true))),
                    }
                } else {
                    IndexedTy(Some((vs[0].len(), None, true)))
                }
            },
            TyShape::Array(_) | TyShape::Param | TyShape::RawPtr | TyShape::Ref => IndexedTy(Some((1, None, true))),
            TyShape::Scalar => IndexedTy(Some((1, None, false))),
            TyShape::Other => IndexedTy(None),
        }
    }

    /// 0 for an unsupported type, 1 for a trivial one (no slot, or untracked
    /// slots), 2 for one whose slots need tracking.
    pub fn get_priority(&self) -> (res: usize)
        ensures
            res == match self.0 {
                None => 0usize,
                Some(t) => if t.0 == 0 { 1usize } else if t.2 { 2usize } else { 1usize },
            },
    {
        match self.0 {
            None => 0,
            Some(t) => {
                if t.0 == 0 {
                    1
                } else if t.2 {
                    2
                } else {
                    1
                }
            },
        }
    }
}

/// One step of a place's projection.
#[derive(Clone, Copy, Debug, PartialEq, Eq, Structural)]
pub enum ProjElem {
    /// A field, by index.
    Field(usize),
    Deref,
    /// A downcast to an enum variant, by index.
    Downcast(usize),
    /// An index, constant index, subslice, opaque cast or subtype step.
    Other,
}

/// What the field-sensitive analysis can use of a place's projection: the
/// fields it goes through, whether it dereferences, the variant it
/// downcasts to, and whether it is beyond what the analysis supports.
#[derive(Debug)]
pub struct ProjectionSupport {
    pf_vec: Vec<usize>,
    deref: bool,
    downcast: Option<usize>,
    unsupport: bool,
}

/// Fields, deref, downcast, unsupported.
pub type ProjState = (Seq<usize>, bool, Option<usize>, bool);

impl ProjectionSupport {
    pub closed spec fn view_state(&self) -> ProjState {
        (self.pf_vec@, self.deref, self.downcast, self.unsupport)
    }

    pub fn pf_push(&mut self, index: usize)
        ensures
            final(self).view_state() == (old(self).view_state().0.push(index), old(self).view_state().1,
                old(self).view_state().2, old(self).view_state().3),
    {
        self.pf_vec.push(index);
    }

    pub fn is_unsupported(&self) -> (res: bool)
        ensures
            res == self.view_state().3,
    {
        self.unsupport == true
    }

    pub fn has_field(&self) -> (res: bool)
        ensures
            res == (self.view_state().0.len() > 0),
    {
        self.pf_vec.len() > 0
    }

    pub fn has_downcast(&self) -> (res: bool)
        ensures
            res == self.view_state().2 is Some,
    {
        self.downcast.is_some()
    }

    pub fn downcast(&self) -> (res: Option<usize>)
        ensures
            res == self.view_state().2,
    {
        self.downcast
    }

    /// The first field the projection goes through.
    pub fn index_needed(&self) -> (res: usize)
        requires
            self.view_state().0.len() > 0,
        ensures
            res == self.view_state().0[0],
    {
        self.pf_vec[0]
    }
}

impl Default for ProjectionSupport {
    fn default() -> (res: Self)
        ensures
            res.view_state() == (Seq::<usize>::empty(), false, Option::<usize>::None, false),
    {
        ProjectionSupport { pf_vec: Vec::new(), deref: false, downcast: None, unsupport: false }
    }
}

/// The state after reading the projection step `e` at position `idx`: a
/// field is recorded, and a second field or a field after a deref is
/// unsupported; a deref or a downcast is recorded, and unsupported past
/// the first position; any other step is unsupported.
pub open spec fn proj_step(st: ProjState, idx: int, e: ProjElem) -> ProjState {
    match e {
        ProjElem::Field(f) => {
            let fields = st.0.push(f);
            (fields, st.1, st.2, fields.len() > 1 || st.1)
        },
        ProjElem::Deref => (st.0, true, st.2, idx > 0),
        ProjElem::Downcast(v) => (st.0, st.1, Some(v), idx > 0),
        ProjElem::Other => (st.0, st.1, st.2, true),
    }
}

/// The state after reading the steps `es` in order, stopping at the first
/// unsupported one.
pub open spec fn proj_run(es: Seq<ProjElem>) -> ProjState
    decreases es.len(),
{
    if es.len() == 0 {
        (Seq::empty(), false, None, false)
    } else {
        let st = proj_run(es.drop_last());
        if st.3 {
            st
        } else {
            proj_step(st, es.len() - 1, es.last())
        }
    }
}

proof fn lemma_proj_run_stops(es: Seq<ProjElem>, j: int, k: int)
    requires
        0 <= j <= k <= es.len(),
        proj_run(es.take(j)).3,
    ensures
        proj_run(es.take(k)) == proj_run(es.take(j)),
    decreases k - j,
{
    if k > j {
        lemma_proj_run_stops(es, j, k - 1);
        assert(es.take(k).drop_last() =~= es.take(k - 1));
    }
}

pub fn has_projection(projection: &Vec<ProjElem>) -> (res: bool)
    ensures
        res == (projection@.len() > 0),
{
    projection.len() > 0
}

/// Reads a place's projection for the field-sensitive analysis.
pub fn extract_projection(projection: &Vec<ProjElem>) -> (res: ProjectionSupport)
    ensures
        res.view_state() == proj_run(projection@),
{
    let mut ans = ProjectionSupport::default();
    let mut idx: usize = 0;
    let ghost es = projection@;
    while idx < projection.len()
        invariant
            es == projection@,
            idx <= es.len(),
            ans.view_state() == proj_run(es.take(idx as int)),
            !ans.view_state().3,
        decreases es.len() - idx,
    {
        proof {
            assert(es.take(idx + 1).drop_last() =~= es.take(idx as int));
        }
        match projection[idx] {
            ProjElem::Field(field) => {
                ans.pf_push(field);
                if ans.pf_vec.len() > 1 {
                    ans.unsupport = true;
                } else if ans.deref {
                    ans.unsupport = true;
                }
            },
            ProjElem::Deref => {
                ans.deref = true;
                if idx > 0 {
                    ans.unsupport = true;
                }
            },
            ProjElem::Downcast(vidx) => {
                ans.downcast = Some(vidx);
                if idx > 0 {
                    ans.unsupport = true;
                }
            },
            ProjElem::Other => {
                ans.unsupport = true;
            },
        }
        if ans.unsupport {
            proof {
                lemma_proj_run_stops(es, idx + 1, es.len() as int);
                assert(es.take(es.len() as int) =~= es);
            }
            return ans;
        }
        idx = idx + 1;
    }
    assert(es.take(es.len() as int) =~= es);
    ans
}

proof fn lemma_two_pow_pos(n: nat)
    ensures
        two_pow(n) > 0,
    decreases n,
{
    if n > 0 {
        lemma_two_pow_pos((n - 1) as nat);
    }
}

proof fn lemma_two_pow_add(a: nat, b: nat)
    ensures
        two_pow(a + b) == two_pow(a) * two_pow(b),
    decreases a,
{
    if a > 0 {
        lemma_two_pow_add((a - 1) as nat, b);
        let x = two_pow((a - 1) as nat);
        let y = two_pow(b);
        assert(two_pow(a + b) == 2 * two_pow((a - 1 + b) as nat));
        assert(two_pow(a) == 2 * x);
        assert(2 * (x * y) == (2 * x) * y) by (nonlinear_arith);
    } else {
        assert(two_pow(a) == 1);
        assert(a + b == b);
    }
}

proof fn lemma_bits_value_bound(bv: Seq<bool>)
    ensures
        bits_value(bv) < two_pow(bv.len()),
    decreases bv.len(),
{
    if bv.len() > 0 {
        lemma_bits_value_bound(bv.drop_last());
    }
}

/// Bit `i` of the number that `rustbv_to_int` builds is the `i`-th entry
/// of the bit vector: the number divided by 2 to the `i` is odd exactly
/// when that entry is set.
pub proof fn lemma_rustbv_bit(bv: Seq<bool>, i: nat)
    requires
        i < bv.len(),
    ensures
        (bits_value(bv) / two_pow(i)) % 2 == if bv[i as int] { 1nat } else { 0nat },
    decreases bv.len(),
{
    let l = bv.len();
    let p = bv.drop_last();
    let v = bits_value(p);
    let d = two_pow(i);
    lemma_two_pow_pos(i);
    let b: int = if bv.last() { 1 } else { 0 };
    assert(bits_value(bv) == v + b * two_pow((l - 1) as nat));
    if i == l - 1 {
        lemma_bits_value_bound(p);
        vstd::arithmetic::div_mod::lemma_hoist_over_denominator(v as int, b, d);
        vstd::arithmetic::div_mod::lemma_basic_div(v as int, d as int);
        assert(bits_value(bv) / two_pow(i) == b);
    } else {
        lemma_rustbv_bit(p, i);
        assert(p[i as int] == bv[i as int]);
        let m = (l - 1 - i) as nat;
        lemma_two_pow_add(m, i);
        assert(two_pow((l - 1) as nat) == two_pow(m) * d) by {
            assert(m + i == l - 1);
        }
        let t = two_pow((m - 1) as nat);
        assert(two_pow(m) == 2 * t);
        let k: int = b * two_pow(m);
        assert(b * two_pow((l - 1) as nat) == k * d) by (nonlinear_arith)
            requires
                two_pow((l - 1) as nat) == two_pow(m) * d,
                k == b * two_pow(m),
        ;
        vstd::arithmetic::div_mod::lemma_hoist_over_denominator(v as int, k, d);
        assert(bits_value(bv) / two_pow(i) == v / d + k);
        assert(k == 2 * (b * t)) by (nonlinear_arith)
            requires
                k == b * two_pow(m),
                two_pow(m) == 2 * t,
        ;
        vstd::arithmetic::div_mod::lemma_mod_multiples_vanish(b * t, (v / d) as int, 2);
        assert((v / d + k) % 2 == (v / d) % 2);
    }
}

/// For a layout with every slot initialised, the reversed bits are the
/// owned bits negated.
pub proof fn lemma_reverse_bits_negate(layout: Seq<RawTypeOwner>)
    requires
        forall|i: int| 0 <= i < layout.len() ==> #[trigger] layout[i] != RawTypeOwner::Uninit,
    ensures
        owned_bits(layout).len() == layout.len(),
        unowned_bits(layout).len() == layout.len(),
        forall|i: int| 0 <= i < layout.len() ==> #[trigger] unowned_bits(layout)[i] == !owned_bits(layout)[i],
        forall|i: int| 0 <= i < layout.len() ==> #[trigger] owned_bits(layout)[i] == (layout[i] == RawTypeOwner::Owned),
    decreases layout.len(),
{
    if layout.len() > 0 {
        let p = layout.drop_last();
        assert forall|i: int| 0 <= i < p.len() implies #[trigger] p[i] != RawTypeOwner::Uninit by {
            assert(p[i] == layout[i]);
        }
        lemma_reverse_bits_negate(p);
        assert(layout.last() == layout[layout.len() - 1]);
    }
}

} // verus!
