use vstd::prelude::*;
use crate::text::{contains_seq, contains_str, after_last, suffix_after_last};

verus! {

/// The type prints as one of the reference-counted or cell-borrow ADTs
/// whose drops the analysis leaves alone.
pub open spec fn corner_adt_spec(s: Seq<char>) -> bool {
    contains_seq(s, "cell::RefMut"@) || contains_seq(s, "cell::Ref"@) || contains_seq(s, "rc::Rc"@)
}

/// Whether an ADT (by its printed form) uses a reference-counted kind of
/// drop that the analysis does not follow.
pub fn is_corner_adt(str: String) -> (res: bool)
    ensures
        res == corner_adt_spec(str@),
{
    if contains_str(str.as_str(), "cell::RefMut") {
        return true;
    }
    if contains_str(str.as_str(), "cell::Ref") {
        return true;
    }
    if contains_str(str.as_str(), "rc::Rc") {
        return true;
    }
    false
}

/// The last path segment of a function's printed path names no dropping,
/// deallocating, releasing or destroying function.
pub open spec fn should_check_spec(def_str: Seq<char>) -> bool {
    let name = after_last(def_str, "::"@);
    !contains_seq(name, "drop"@) && !contains_seq(name, "dealloc"@) && !contains_seq(name, "release"@)
        && !contains_seq(name, "destroy"@)
}

/// Whether dangling pointers at the end of the function (given by its
/// printed path) are worth reporting: in functions such as `drop` they are
/// expected.
pub fn should_check(def_str: &str) -> (res: bool)
    ensures
        res == should_check_spec(def_str@),
{
    let name = suffix_after_last(def_str, "::");
    if contains_str(name, "drop") {
        return false;
    }
    if contains_str(name, "dealloc") {
        return false;
    }
    if contains_str(name, "release") {
        return false;
    }
    if contains_str(name, "destroy") {
        return false;
    }
    true
}

} // verus!
