use vstd::prelude::*;
use std::collections::{HashMap, HashSet};
use crate::ownership::RawTypeOwner;
use crate::ty_layout::AdtKind;

verus! {

broadcast use vstd::std_specs::hash::group_hash_axioms;

/// The summary of one variant of an ADT: whether it owns heap memory, and
/// for each generic parameter of the ADT whether the variant holds it
/// isolated (not behind another type).
pub type OwnerUnit = (RawTypeOwner, Vec<bool>);

/// The summaries of every analysed ADT, by definition id: one unit per
/// variant (a single one for a struct or union).
pub type AdtOwner = HashMap<u64, Vec<OwnerUnit>>;

/// A type as the heap-item queries see it: an ADT with its definition id
/// and kind, or anything else.
#[derive(Clone, Copy, Debug, PartialEq, Eq, Structural)]
pub enum TyKey {
    Adt(u64, AdtKind),
    Other,
}

/// The ADT of `ty` has been analysed.
pub open spec fn analysed(owner: Map<u64, Vec<OwnerUnit>>, ty: TyKey) -> bool {
    match ty {
        TyKey::Adt(did, _) => owner.contains_key(did),
        TyKey::Other => true,
    }
}

pub open spec fn units_of(owner: Map<u64, Vec<OwnerUnit>>, did: u64) -> Seq<OwnerUnit> {
    owner[did]@
}

/// For each variant, whether it owns heap memory.
pub open spec fn owned_flags(units: Seq<OwnerUnit>) -> Seq<bool> {
    units.map_values(|u: OwnerUnit| u.0 == RawTypeOwner::Owned)
}

/// Some variant owns heap memory.
pub open spec fn any_owned(units: Seq<OwnerUnit>) -> bool {
    exists|i: int| 0 <= i < units.len() && #[trigger] units[i].0 == RawTypeOwner::Owned
}

/// Some parameter is held isolated by the unit.
pub open spec fn has_isolated(unit: OwnerUnit) -> bool {
    exists|j: int| 0 <= j < unit.1@.len() && #[trigger] unit.1@[j]
}

/// Some variant holds an isolated parameter.
pub open spec fn any_isolated(units: Seq<OwnerUnit>) -> bool {
    exists|i: int| 0 <= i < units.len() && #[trigger] has_isolated(units[i])
}

pub open spec fn is_err_with(r: Result<bool, &'static str>, msg: &'static str) -> bool {
    r matches Err(e) && e@ == msg@
}

/// The summaries of the ADT `did`.
pub(crate) fn units<'a>(owner: &'a AdtOwner, did: u64) -> (res: &'a Vec<OwnerUnit>)
    requires
        owner@.contains_key(did),
    ensures
        *res == owner@[did],
{
    owner.get(&did).unwrap()
}

fn any_owned_exec(units: &Vec<OwnerUnit>) -> (res: bool)
    ensures
        res == any_owned(units@),
{
    let mut i: usize = 0;
    while i < units.len()
        invariant
            i <= units@.len(),
            forall|j: int| 0 <= j < i ==> #[trigger] units@[j].0 != RawTypeOwner::Owned,
        decreases units@.len() - i,
    {
        if units[i].0 == RawTypeOwner::Owned {
            assert(units@[i as int].0 == RawTypeOwner::Owned);
            return true;
        }
        i = i + 1;
    }
    false
}

pub(crate) fn has_isolated_exec(unit: &OwnerUnit) -> (res: bool)
    ensures
        res == has_isolated(*unit),
{
    let v = &unit.1;
    let mut i: usize = 0;
    while i < v.len()
        invariant
            v == unit.1,
            i <= v@.len(),
            forall|j: int| 0 <= j < i ==> !(#[trigger] v@[j]),
        decreases v@.len() - i,
    {
        if v[i] {
            assert(v@[i as int]);
            return true;
        }
        i = i + 1;
    }
    false
}

fn any_isolated_exec(units: &Vec<OwnerUnit>) -> (res: bool)
    ensures
        res == any_isolated(units@),
{
    let mut i: usize = 0;
    while i < units.len()
        invariant
            i <= units@.len(),
            forall|j: int| 0 <= j < i ==> !(#[trigger] has_isolated(units@[j])),
        decreases units@.len() - i,
    {
        if has_isolated_exec(&units[i]) {
            assert(has_isolated(units@[i as int]));
            return true;
        }
        i = i + 1;
    }
    false
}

/// Queries on whether an ADT is a heap item, that is, owns heap memory.
#[derive(Copy, Clone, Debug)]
pub struct HeapItem;

impl HeapItem {
    /// Some variant of the ADT owns heap memory; an error for a non-ADT.
    pub fn is_adt(rcx: &AdtOwner, ty: TyKey) -> (res: Result<bool, &'static str>)
        requires
            analysed(rcx@, ty),
        ensures
            match ty {
                TyKey::Adt(did, _) => res == Ok::<bool, &'static str>(any_owned(units_of(rcx@, did))),
                TyKey::Other => is_err_with(res, "The input is not an ADT"),
            },
    {
        proof {
            reveal_strlit("The input is not an ADT");
        }
        match ty {
            TyKey::Adt(did, _) => Ok(any_owned_exec(units(rcx, did))),
            TyKey::Other => Err("The input is not an ADT"),
        }
    }

    /// The struct (or union) owns heap memory; an error for an enum or a non-ADT.
    pub fn is_struct(rcx: &AdtOwner, ty: TyKey) -> (res: Result<bool, &'static str>)
        requires
            analysed(rcx@, ty),
            ty matches TyKey::Adt(did, kind) ==> (kind != AdtKind::Enum ==> units_of(rcx@, did).len() > 0),
        ensures
            match ty {
                TyKey::Adt(did, kind) => if kind == AdtKind::Enum {
                    is_err_with(res, "The input is not a struct")
                } else {
                    res == Ok::<bool, &'static str>(units_of(rcx@, did)[0].0 == RawTypeOwner::Owned)
                },
                TyKey::Other => is_err_with(res, "The input is not an ADT"),
            },
    {
        proof {
            reveal_strlit("The input is not an ADT");
            reveal_strlit("The input is not a struct");
        }
        match ty {
            TyKey::Adt(did, kind) => {
                if kind == AdtKind::Enum {
                    return Err("The input is not a struct");
                }
                let ans = units(rcx, did);
                Ok(ans[0].0 == RawTypeOwner::Owned)
            },
            TyKey::Other => Err("The input is not an ADT"),
        }
    }

    /// Some variant of the enum owns heap memory; an error for a struct,
    /// a union or a non-ADT.
    pub fn is_enum(rcx: &AdtOwner, ty: TyKey) -> (res: Result<bool, &'static str>)
        requires
            analysed(rcx@, ty),
        ensures
            match ty {
                TyKey::Adt(did, kind) => if kind != AdtKind::Enum {
                    is_err_with(res, "The input is not an enum")
                } else {
                    res == Ok::<bool, &'static str>(any_owned(units_of(rcx@, did)))
                },
                TyKey::Other => is_err_with(res, "The input is not an ADT"),
            },
    {
        proof {
            reveal_strlit("The input is not an ADT");
            reveal_strlit("The input is not an enum");
        }
        match ty {
            TyKey::Adt(did, kind) => {
                if kind != AdtKind::Enum {
                    return Err("The input is not an enum");
                }
                Ok(any_owned_exec(units(rcx, did)))
            },
            TyKey::Other => Err("The input is not an ADT"),
        }
    }

    /// Variant `idx` of the enum owns heap memory; an error for a struct,
    /// a union, a non-ADT, or an index past the number of variants.
    pub fn is_enum_vidx(rcx: &AdtOwner, ty: TyKey, idx: usize) -> (res: Result<bool, &'static str>)
        requires
            analysed(rcx@, ty),
            ty matches TyKey::Adt(did, kind) ==> (kind == AdtKind::Enum ==> idx != units_of(rcx@, did).len()),
        ensures
            match ty {
                TyKey::Adt(did, kind) => if kind != AdtKind::Enum {
                    is_err_with(res, "The input is not an enum")
                } else if idx > units_of(rcx@, did).len() {
                    is_err_with(res, "The index is not a valid variance")
                } else {
                    res == Ok::<bool, &'static str>(units_of(rcx@, did)[idx as int].0 == RawTypeOwner::Owned)
                },
                TyKey::Other => is_err_with(res, "The input is not an ADT"),
            },
    {
        proof {
            reveal_strlit("The input is not an ADT");
            reveal_strlit("The input is not an enum");
            reveal_strlit("The index is not a valid variance");
        }
        match ty {
            TyKey::Adt(did, kind) => {
                if kind != AdtKind::Enum {
                    return Err("The input is not an enum");
                }
                let ans = units(rcx, did);
                if idx > ans.len() {
                    return Err("The index is not a valid variance");
                }
                Ok(ans[idx].0 == RawTypeOwner::Owned)
            },
            TyKey::Other => Err("The input is not an ADT"),
        }
    }

    /// For each variant of the enum, whether it owns heap memory; an error
    /// for a struct, a union or a non-ADT.
    pub fn is_enum_flattened(rcx: &AdtOwner, ty: TyKey) -> (res: Result<Vec<bool>, &'static str>)
        requires
            analysed(rcx@, ty),
        ensures
            match ty {
                TyKey::Adt(did, kind) => if kind != AdtKind::Enum {
                    res matches Err(e) && e@ == "The input is not an enum"@
                } else {
                    res matches Ok(v) && v@ == owned_flags(units_of(rcx@, did))
                },
                TyKey::Other => res matches Err(e) && e@ == "The input is not an ADT"@,
            },
    {
        proof {
            reveal_strlit("The input is not an ADT");
            reveal_strlit("The input is not an enum");
        }
        match ty {
            TyKey::Adt(did, kind) => {
                if kind != AdtKind::Enum {
                    return Err("The input is not an enum");
                }
                let ans = units(rcx, did);
                let mut v: Vec<bool> = Vec::with_capacity(ans.len());
                let mut i: usize = 0;
                while i < ans.len()
                    invariant
                        i <= ans@.len(),
                        v@ == ans@.take(i as int).map_values(|u: OwnerUnit| u.0 == RawTypeOwner::Owned),
                    decreases ans@.len() - i,
                {
                    if ans[i].0 == RawTypeOwner::Owned {
                        v.push(true);
                    } else {
                        v.push(false);
                    }
                    assert(ans@.take(i + 1).map_values(|u: OwnerUnit| u.0 == RawTypeOwner::Owned)
                        =~= ans@.take(i as int).map_values(|u: OwnerUnit| u.0 == RawTypeOwner::Owned).push(
                        ans@[i as int].0 == RawTypeOwner::Owned));
                    i = i + 1;
                }
                assert(ans@.take(ans@.len() as int) =~= ans@);
                Ok(v)
            },
            TyKey::Other => Err("The input is not an ADT"),
        }
    }
}

/// Queries on whether an ADT holds some generic parameter isolated, that
/// is, directly rather than inside another type.
pub struct IsolatedParameter;

impl IsolatedParameter {
    /// Some variant of the ADT holds an isolated parameter; an error for a non-ADT.
    pub fn is_adt(rcx: &AdtOwner, ty: TyKey) -> (res: Result<bool, &'static str>)
        requires
            analysed(rcx@, ty),
        ensures
            match ty {
                TyKey::Adt(did, _) => res == Ok::<bool, &'static str>(any_isolated(units_of(rcx@, did))),
                TyKey::Other => is_err_with(res, "The input is not an ADT"),
            },
    {
        proof {
            reveal_strlit("The input is not an ADT");
        }
        match ty {
            TyKey::Adt(did, _) => Ok(any_isolated_exec(units(rcx, did))),
            TyKey::Other => Err("The input is not an ADT"),
        }
    }

    /// The struct (or union) holds an isolated parameter; an error for an
    /// enum or a non-ADT.
    pub fn is_struct(rcx: &AdtOwner, ty: TyKey) -> (res: Result<bool, &'static str>)
        requires
            analysed(rcx@, ty),
            ty matches TyKey::Adt(did, kind) ==> (kind != AdtKind::Enum ==> units_of(rcx@, did).len() > 0),
        ensures
            match ty {
                TyKey::Adt(did, kind) => if kind == AdtKind::Enum {
                    is_err_with(res, "The input is not a struct")
                } else {
                    res == Ok::<bool, &'static str>(has_isolated(units_of(rcx@, did)[0]))
                },
                TyKey::Other => is_err_with(res, "The input is not an ADT"),
            },
    {
        proof {
            reveal_strlit("The input is not an ADT");
            reveal_strlit("The input is not a struct");
        }
        match ty {
            TyKey::Adt(did, kind) => {
                if kind == AdtKind::Enum {
                    return Err("The input is not a struct");
                }
                let ans = units(rcx, did);
                Ok(has_isolated_exec(&ans[0]))
            },
            TyKey::Other => Err("The input is not an ADT"),
        }
    }

    /// Some variant of the enum holds an isolated parameter; an error for a
    /// struct, a union or a non-ADT.
    pub fn is_enum(rcx: &AdtOwner, ty: TyKey) -> (res: Result<bool, &'static str>)
        requires
            analysed(rcx@, ty),
        ensures
            match ty {
                TyKey::Adt(did, kind) => if kind != AdtKind::Enum {
                    is_err_with(res, "The input is not an enum")
                } else {
                    res == Ok::<bool, &'static str>(any_isolated(units_of(rcx@, did)))
                },
                TyKey::Other => is_err_with(res, "The input is not an ADT"),
            },
    {
        proof {
            reveal_strlit("The input is not an ADT");
            reveal_strlit("The input is not an enum");
        }
        match ty {
            TyKey::Adt(did, kind) => {
                if kind != AdtKind::Enum {
                    return Err("The input is not an enum");
                }
                Ok(any_isolated_exec(units(rcx, did)))
            },
            TyKey::Other => Err("The input is not an ADT"),
        }
    }

    /// Variant `idx` of the enum holds an isolated parameter; an error for a
    /// struct, a union, a non-ADT, or an index past the number of variants.
    pub fn is_enum_vidx(rcx: &AdtOwner, ty: TyKey, idx: usize) -> (res: Result<bool, &'static str>)
        requires
            analysed(rcx@, ty),
            ty matches TyKey::Adt(did, kind) ==> (kind == AdtKind::Enum ==> idx != units_of(rcx@, did).len()),
        ensures
            match ty {
                TyKey::Adt(did, kind) => if kind != AdtKind::Enum {
                    is_err_with(res, "The input is not an enum")
                } else if idx > units_of(rcx@, did).len() {
                    is_err_with(res, "The index is not a valid variance")
                } else {
                    res == Ok::<bool, &'static str>(has_isolated(units_of(rcx@, did)[idx as int]))
                },
                TyKey::Other => is_err_with(res, "The input is not an ADT"),
            },
    {
        proof {
            reveal_strlit("The input is not an ADT");
            reveal_strlit("The input is not an enum");
            reveal_strlit("The index is not a valid variance");
        }
        match ty {
            TyKey::Adt(did, kind) => {
                if kind != AdtKind::Enum {
                    return Err("The input is not an enum");
                }
                let ans = units(rcx, did);
                if idx > ans.len() {
                    return Err("The index is not a valid variance");
                }
                Ok(has_isolated_exec(&ans[idx]))
            },
            TyKey::Other => Err("The input is not an ADT"),
        }
    }

    /// For each variant of the enum, which parameters it holds isolated; an
    /// error for a struct, a union or a non-ADT.
    pub fn is_enum_flattened(rcx: &AdtOwner, ty: TyKey) -> (res: Result<Vec<Vec<bool>>, &'static str>)
        requires
            analysed(rcx@, ty),
        ensures
            match ty {
                TyKey::Adt(did, kind) => if kind != AdtKind::Enum {
                    res matches Err(e) && e@ == "The input is not an enum"@
                } else {
                    res matches Ok(v) && v@.len() == units_of(rcx@, did).len() && forall|i: int|
                        0 <= i < v@.len() ==> #[trigger] v@[i]@ == units_of(rcx@, did)[i].1@
                },
                TyKey::Other => res matches Err(e) && e@ == "The input is not an ADT"@,
            },
    {
        proof {
            reveal_strlit("The input is not an ADT");
            reveal_strlit("The input is not an enum");
        }
        match ty {
            TyKey::Adt(did, kind) => {
                if kind != AdtKind::Enum {
                    return Err("The input is not an enum");
                }
                let ans = units(rcx, did);
                let mut v: Vec<Vec<bool>> = Vec::new();
                let mut i: usize = 0;
                while i < ans.len()
                    invariant
                        i <= ans@.len(),
                        v@.len() == i,
                        forall|j: int| 0 <= j < i ==> #[trigger] v@[j]@ == ans@[j].1@,
                    decreases ans@.len() - i,
                {
                    v.push(clone_bools(&ans[i].1));
                    i = i + 1;
                }
                Ok(v)
            },
            TyKey::Other => Err("The input is not an ADT"),
        }
    }
}

/// A copy of a list of flags.
pub fn clone_bools(v: &Vec<bool>) -> (res: Vec<bool>)
    ensures
        res@ == v@,
{
    let mut r: Vec<bool> = Vec::new();
    let mut i: usize = 0;
    while i < v.len()
        invariant
            i <= v@.len(),
            r@ == v@.take(i as int),
        decreases v@.len() - i,
    {
        r.push(v[i]);
        assert(v@.take(i + 1) =~= v@.take(i as int).push(v@[i as int]));
        i = i + 1;
    }
    assert(v@.take(v@.len() as int) =~= v@);
    r
}

/// For each generic parameter of an ADT, whether it was found isolated.
#[derive(Clone)]
pub struct IsolatedParam {
    record: Vec<bool>,
}

impl IsolatedParam {
    pub closed spec fn record_view(&self) -> Seq<bool> {
        self.record@
    }

    /// No parameter found yet, for `len` parameters.
    pub fn new(len: usize) -> (res: Self)
        ensures
            res.record_view() == Seq::new(len as nat, |i: int| false),
    {
        let mut record: Vec<bool> = Vec::new();
        let mut i: usize = 0;
        while i < len
            invariant
                i <= len,
                record@ == Seq::new(i as nat, |j: int| false),
            decreases len - i,
        {
            record.push(false);
            assert(record@ =~= Seq::new((i + 1) as nat, |j: int| false));
            i = i + 1;
        }
        IsolatedParam { record }
    }

    pub fn record_mut(&mut self) -> (r: &mut Vec<bool>)
        ensures
            r@ == old(self).record_view(),
            final(self).record_view() == final(r)@,
    {
        &mut self.record
    }
}

/// The generic parameters (by index) that a field's type substitutes.
pub struct IsolatedParamFieldSubst {
    parameters: HashSet<usize>,
}

impl IsolatedParamFieldSubst {
    pub closed spec fn parameters_view(&self) -> Set<usize> {
        self.parameters@
    }

    pub fn new() -> (res: Self)
        ensures
            res.parameters_view() == Set::<usize>::empty(),
    {
        IsolatedParamFieldSubst { parameters: HashSet::new() }
    }

    pub fn parameters(&self) -> (r: &HashSet<usize>)
        ensures
            r@ == self.parameters_view(),
    {
        &self.parameters
    }

    pub fn parameters_mut(&mut self) -> (r: &mut HashSet<usize>)
        ensures
            r@ == old(self).parameters_view(),
            final(self).parameters_view() == final(r)@,
    {
        &mut self.parameters
    }

    pub fn contains_param(&self) -> (res: bool)
        ensures
            res == !self.parameters_view().is_empty(),
    {
        !self.parameters.is_empty()
    }
}

/// The flattened answer for an enum lists, variant by variant, the answer
/// for that variant, and some variant owns heap memory exactly when some
/// entry of the flattened answer is set.
pub proof fn lemma_heap_flattened_agrees(units: Seq<OwnerUnit>)
    ensures
        forall|i: int| 0 <= i < units.len() ==> #[trigger] owned_flags(units)[i]
            == (units[i].0 == RawTypeOwner::Owned),
        any_owned(units) == exists|i: int| 0 <= i < units.len() && #[trigger] owned_flags(units)[i],
{
    let f = owned_flags(units);
    if any_owned(units) {
        let i = choose|i: int| 0 <= i < units.len() && #[trigger] units[i].0 == RawTypeOwner::Owned;
        assert(f[i]);
    }
    if exists|i: int| 0 <= i < units.len() && #[trigger] f[i] {
        let i = choose|i: int| 0 <= i < units.len() && #[trigger] f[i];
        assert(units[i].0 == RawTypeOwner::Owned);
    }
}

/// An ADT holds an isolated parameter exactly when one of the per-variant
/// records of the flattened answer has a set entry.
pub proof fn lemma_isolated_flattened_agrees(units: Seq<OwnerUnit>)
    ensures
        any_isolated(units) == exists|i: int, j: int| 0 <= i < units.len() && 0 <= j < units[i].1@.len() && #[trigger] units[i].1@[j],
{
    if any_isolated(units) {
        let i = choose|i: int| 0 <= i < units.len() && #[trigger] has_isolated(units[i]);
        let j = choose|j: int| 0 <= j < units[i].1@.len() && #[trigger] units[i].1@[j];
        assert(units[i].1@[j]);
    }
    if exists|i: int, j: int| 0 <= i < units.len() && 0 <= j < units[i].1@.len() && #[trigger] units[i].1@[j] {
        let (i, j) = choose|i: int, j: int| 0 <= i < units.len() && 0 <= j < units[i].1@.len() && #[trigger] units[i].1@[j];
        assert(has_isolated(units[i]));
    }
}

} // verus!
