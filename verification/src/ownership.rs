use vstd::prelude::*;

verus! {

/// Whether a type, or one slot of a type's layout, owns heap memory.
#[derive(Copy, Clone, Debug, PartialEq, Eq, Structural, Hash)]
pub enum RawTypeOwner {
    Owned,
    Unowned,
    Uninit,
}

impl Default for RawTypeOwner {
    fn default() -> (res: Self)
        ensures
            res == RawTypeOwner::Uninit,
    {
        RawTypeOwner::Uninit
    }
}

impl RawTypeOwner {
    pub fn is_owned(&self) -> (res: bool)
        ensures
            res == (*self == RawTypeOwner::Owned),
    {
        match self {
            RawTypeOwner::Owned => true,
            RawTypeOwner::Unowned => false,
            RawTypeOwner::Uninit => false,
        }
    }
}

/// What the ownership visitor found in one type: whether it owns heap
/// memory, whether it holds a generic parameter and whether it holds a pointer.
#[derive(Copy, Clone, Debug, PartialEq, Eq, Structural)]
pub struct DefaultOwnership {
    res: RawTypeOwner,
    param: bool,
    ptr: bool,
}

impl DefaultOwnership {
    pub closed spec fn res_view(&self) -> RawTypeOwner {
        self.res
    }

    pub closed spec fn param_view(&self) -> bool {
        self.param
    }

    pub closed spec fn ptr_view(&self) -> bool {
        self.ptr
    }

    /// The state before any type was visited: unowned, no parameter, no pointer.
    pub fn new() -> (res: Self)
        ensures
            res.res_view() == RawTypeOwner::Unowned,
            !res.param_view(),
            !res.ptr_view(),
    {
        DefaultOwnership { res: RawTypeOwner::Unowned, param: false, ptr: false }
    }

    /// A summary with the given findings.
    pub fn with(res: RawTypeOwner, param: bool, ptr: bool) -> (d: Self)
        ensures
            d.res_view() == res,
            d.param_view() == param,
            d.ptr_view() == ptr,
    {
        DefaultOwnership { res, param, ptr }
    }

    pub fn get_res(&self) -> (r: RawTypeOwner)
        ensures
            r == self.res_view(),
    {
        self.res
    }

    pub fn set_res(&mut self, res: RawTypeOwner)
        ensures
            final(self).res_view() == res,
            final(self).param_view() == old(self).param_view(),
            final(self).ptr_view() == old(self).ptr_view(),
    {
        self.res = res;
    }

    pub fn is_owning_true(&self) -> (r: bool)
        ensures
            r == (self.res_view() == RawTypeOwner::Owned),
    {
        self.res == RawTypeOwner::Owned
    }

    pub fn get_param(&self) -> (r: bool)
        ensures
            r == self.param_view(),
    {
        self.param
    }

    pub fn set_param(&mut self, p: bool)
        ensures
            final(self).param_view() == p,
            final(self).res_view() == old(self).res_view(),
            final(self).ptr_view() == old(self).ptr_view(),
    {
        self.param = p;
    }

    pub fn is_param_true(&self) -> (r: bool)
        ensures
            r == self.param_view(),
    {
        self.param
    }

    pub fn get_ptr(&self) -> (r: bool)
        ensures
            r == self.ptr_view(),
    {
        self.ptr
    }

    pub fn set_ptr(&mut self, p: bool)
        ensures
            final(self).ptr_view() == p,
            final(self).res_view() == old(self).res_view(),
            final(self).param_view() == old(self).param_view(),
    {
        self.ptr = p;
    }

    pub fn is_ptr_true(&self) -> (r: bool)
        ensures
            r == self.ptr_view(),
    {
        self.ptr
    }
}

/// The ownership layout of a type: one entry per field (or element), and
/// three flags gathered over them.
#[derive(Clone, Debug)]
pub struct OwnershipLayoutResult {
    layout: Vec<RawTypeOwner>,
    param: bool,
    requirement: bool,
    owned: bool,
}

impl OwnershipLayoutResult {
    pub closed spec fn layout_view(&self) -> Seq<RawTypeOwner> {
        self.layout@
    }

    pub closed spec fn param_view(&self) -> bool {
        self.param
    }

    pub closed spec fn requirement_view(&self) -> bool {
        self.requirement
    }

    pub closed spec fn owned_view(&self) -> bool {
        self.owned
    }

    /// An empty layout with every flag off.
    pub fn new() -> (res: Self)
        ensures
            res.layout_view() == Seq::<RawTypeOwner>::empty(),
            !res.param_view(),
            !res.requirement_view(),
            !res.owned_view(),
    {
        OwnershipLayoutResult { layout: Vec::new(), param: false, requirement: false, owned: false }
    }

    pub fn layout(&self) -> (r: &Vec<RawTypeOwner>)
        ensures
            r@ == self.layout_view(),
    {
        &self.layout
    }

    pub fn layout_mut(&mut self) -> (r: &mut Vec<RawTypeOwner>)
        ensures
            r@ == old(self).layout_view(),
            final(self).layout_view() == final(r)@,
            final(self).param_view() == old(self).param_view(),
            final(self).requirement_view() == old(self).requirement_view(),
            final(self).owned_view() == old(self).owned_view(),
    {
        &mut self.layout
    }

    pub fn get_param(&self) -> (r: bool)
        ensures
            r == self.param_view(),
    {
        self.param
    }

    pub fn set_param(&mut self, p: bool)
        ensures
            final(self).param_view() == p,
            final(self).layout_view() == old(self).layout_view(),
            final(self).requirement_view() == old(self).requirement_view(),
            final(self).owned_view() == old(self).owned_view(),
    {
        self.param = p;
    }

    pub fn is_param_true(&self) -> (r: bool)
        ensures
            r == self.param_view(),
    {
        self.param == true
    }

    pub fn get_requirement(&self) -> (r: bool)
        ensures
            r == self.requirement_view(),
    {
        self.requirement
    }

    pub fn set_requirement(&mut self, r: bool)
        ensures
            final(self).requirement_view() == r,
            final(self).layout_view() == old(self).layout_view(),
            final(self).param_view() == old(self).param_view(),
            final(self).owned_view() == old(self).owned_view(),
    {
        self.requirement = r;
    }

    pub fn is_requirement_true(&self) -> (r: bool)
        ensures
            r == self.requirement_view(),
    {
        self.requirement == true
    }

    pub fn is_empty(&self) -> (r: bool)
        ensures
            r == (self.layout_view().len() == 0),
    {
        self.layout.len() == 0
    }

    pub fn is_owned(&self) -> (r: bool)
        ensures
            r == self.owned_view(),
    {
        self.owned == true
    }

    pub fn set_owned(&mut self, o: bool)
        ensures
            final(self).owned_view() == o,
            final(self).layout_view() == old(self).layout_view(),
            final(self).param_view() == old(self).param_view(),
            final(self).requirement_view() == old(self).requirement_view(),
    {
        self.owned = o;
    }

    /// Adds the slot that one visited type gives: its ownership joins the
    /// layout, an owning or pointer-holding type makes a requirement, an
    /// owning type makes the whole owned, and the parameter flag is the
    /// visited type's.
    pub fn update_from_default_ownership_visitor(&mut self, default_ownership: &DefaultOwnership)
        ensures
            final(self).layout_view() == old(self).layout_view().push(default_ownership.res_view()),
            final(self).requirement_view() == (old(self).requirement_view()
                || default_ownership.res_view() == RawTypeOwner::Owned
                || default_ownership.ptr_view()),
            final(self).owned_view() == (old(self).owned_view() || default_ownership.res_view()
                == RawTypeOwner::Owned),
            final(self).param_view() == default_ownership.param_view(),
    {
        if default_ownership.is_owning_true() || default_ownership.is_ptr_true() {
            self.set_requirement(true);
        }
        if default_ownership.is_owning_true() {
            self.set_owned(true);
        }
        self.layout_mut().push(default_ownership.get_res());
        self.set_param(default_ownership.get_param());
    }
}

} // verus!
