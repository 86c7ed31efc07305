use vstd::prelude::*;

verus! {

/// How the value of an assignment is obtained.
#[derive(Copy, Clone, Debug, Eq, PartialEq, Structural, Hash)]
pub enum AsgnKind {
    Assign,
    Reference,
    Pointer,
    Cast,
}

/// What to do with the unsafety isolation graphs: draw them or count the
/// kinds of their units.
#[derive(Copy, Clone, Debug, Eq, PartialEq, Structural)]
pub enum UigOp {
    DrawPic,
    TypeCount,
}

/// Severity of a message of the drop analysis.
#[derive(Debug, Copy, Clone, Eq, PartialEq, Structural, Hash)]
pub enum RapLogLevel {
    Info,
    Warn,
    Error,
}

/// The smallest analysis, which only greets.
#[derive(Default)]
pub struct HelloWorld {}

impl HelloWorld {
    pub fn new() -> (res: Self) {
        HelloWorld {}
    }

    /// The greeting this analysis reports.
    pub fn start(&self) -> (res: &'static str)
        ensures
            res@ == "Hello World from RAP frontend!!!!!"@,
    {
        "Hello World from RAP frontend!!!!!"
    }
}

} // verus!
