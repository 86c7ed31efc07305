use vstd::prelude::*;
use crate::value_graph::TyKind;
use crate::corner::{is_corner_adt, corner_adt_spec};

verus! {

/// What the alias analyses read of a type: its kind, the element type of
/// an array, the printed definition and the field types (of every variant)
/// of an ADT, and the field types of a tuple.
#[derive(Debug)]
pub enum TyModel {
    Bool,
    Char,
    Int,
    Uint,
    Float,
    Array(Box<TyModel>),
    Adt { printed: String, fields: Vec<TyModel> },
    Tuple(Vec<TyModel>),
    RawPtr,
    Ref,
    Other,
}

/// A value of the type never needs dropping: a primitive number, boolean
/// or character, or an array, ADT or tuple made only of such.
pub open spec fn not_drop_spec(t: TyModel) -> bool
    decreases t,
{
    match t {
        TyModel::Bool => true,
        TyModel::Char => true,
        TyModel::Int => true,
        TyModel::Uint => true,
        TyModel::Float => true,
        TyModel::Array(e) => not_drop_spec(*e),
        TyModel::Adt { fields, .. } => {
            proof {
                assert(decreases_to!(fields => fields@));
            }
            all_not_drop_spec(fields@)
        },
        TyModel::Tuple(fields) => {
            proof {
                assert(decreases_to!(fields => fields@));
            }
            all_not_drop_spec(fields@)
        },
        _ => false,
    }
}

/// No value of any of the types `fs` needs dropping.
pub open spec fn all_not_drop_spec(fs: Seq<TyModel>) -> bool
    decreases fs,
{
    if fs.len() == 0 {
        true
    } else {
        proof {
            assert(decreases_to!(fs => fs[fs.len() - 1]));
            assert(decreases_to!(fs => fs.subrange(0, fs.len() - 1)));
        }
        all_not_drop_spec(fs.subrange(0, fs.len() - 1)) && not_drop_spec(fs[fs.len() - 1])
    }
}

/// The kind of node the alias analyses give a value of the type.
pub open spec fn kind_spec(t: TyModel) -> TyKind {
    match t {
        TyModel::RawPtr => TyKind::RawPtr,
        TyModel::Ref => TyKind::Ref,
        TyModel::Tuple(_) => TyKind::Tuple,
        TyModel::Adt { printed, .. } => if corner_adt_spec(printed@) {
            TyKind::CornerCase
        } else {
            TyKind::Adt
        },
        _ => TyKind::Adt,
    }
}

/// The kind of node for a value of the type: pointers, references and
/// tuples are told apart, and ADTs with a reference-counted kind of drop
/// are corner cases.
pub fn kind(current_ty: &TyModel) -> (res: TyKind)
    ensures
        res == kind_spec(*current_ty),
{
    match current_ty {
        TyModel::RawPtr => TyKind::RawPtr,
        TyModel::Ref => TyKind::Ref,
        TyModel::Tuple(_) => TyKind::Tuple,
        TyModel::Adt { printed, .. } => {
            if is_corner_adt(printed.clone()) {
                TyKind::CornerCase
            } else {
                TyKind::Adt
            }
        },
        _ => TyKind::Adt,
    }
}

/// Whether a value of the type never needs dropping (see `not_drop_spec`).
pub fn is_not_drop(current_ty: &TyModel) -> (res: bool)
    ensures
        res == not_drop_spec(*current_ty),
    decreases current_ty,
{
    match current_ty {
        TyModel::Bool => true,
        TyModel::Char => true,
        TyModel::Int => true,
        TyModel::Uint => true,
        TyModel::Float => true,
        TyModel::Array(e) => is_not_drop(e),
        TyModel::Adt { fields, .. } => all_not_drop(fields),
        TyModel::Tuple(fields) => all_not_drop(fields),
        _ => false,
    }
}

/// Whether no value of any of the types needs dropping.
fn all_not_drop(fields: &Vec<TyModel>) -> (res: bool)
    ensures
        res == all_not_drop_spec(fields@),
    decreases fields,
{
    let mut i: usize = 0;
    assert(fields@.subrange(0, 0) =~= Seq::<TyModel>::empty());
    while i < fields.len()
        invariant
            i <= fields@.len(),
            all_not_drop_spec(fields@.subrange(0, i as int)),
        decreases fields@.len() - i,
    {
        proof {
            assert(decreases_to!(fields => fields@[i as int]));
        }
        if !is_not_drop(&fields[i]) {
            proof {
                if all_not_drop_spec(fields@) {
                    lemma_all_not_drop_prefix(fields@, i as int);
                }
            }
            return false;
        }
        proof {
            let s1 = fields@.subrange(0, i + 1);
            assert(s1.subrange(0, s1.len() - 1) =~= fields@.subrange(0, i as int));
            assert(s1[s1.len() - 1] == fields@[i as int]);
        }
        i = i + 1;
    }
    assert(fields@.subrange(0, fields@.len() as int) =~= fields@);
    true
}

/// If every type of `fs` never needs dropping, neither does its `i`-th.
proof fn lemma_all_not_drop_prefix(fs: Seq<TyModel>, i: int)
    requires
        0 <= i < fs.len(),
        all_not_drop_spec(fs),
    ensures
        not_drop_spec(fs[i]),
    decreases fs.len(),
{
    if i < fs.len() - 1 {
        let p = fs.subrange(0, fs.len() - 1);
        lemma_all_not_drop_prefix(p, i);
        assert(p[i] == fs[i]);
    }
}

} // verus!
