use vstd::prelude::*;

verus! {

/// Which analyses a compiler run is asked to perform.
#[derive(Debug, Copy, Clone, Hash)]
pub struct RapCallback {
    rcanary: bool,
    safedrop: bool,
    senryx: bool,
    unsafety_isolation: usize,
    mop: bool,
    callgraph: bool,
    show_mir: bool,
    dataflow: usize,
}

/// The phases of a run of the tool.
#[derive(Debug, Copy, Clone, Hash, PartialEq, Eq, Structural)]
pub enum RapPhase {
    Cleanup,
    Cargo,
    Rustc,
    LLVM,
}

/// Verbosity of the log.
#[derive(Debug, Copy, Clone, Hash, PartialEq, Eq, Structural)]
pub enum Verbosity {
    Info,
    Debug,
    Trace,
}

/// Granularity of an analysis.
#[derive(Debug, Copy, Clone, Hash, PartialEq, Eq, Structural)]
pub enum RapGrain {
    Low,
    Medium,
    High,
    Ultra,
}

/// Whether MIR is displayed.
#[derive(Debug, Copy, Clone, Hash, PartialEq, Eq, Structural)]
pub enum MirDisplay {
    On,
    Off,
}

/// Whether ADT ownership summaries are displayed.
#[derive(Debug, Copy, Clone, Hash, PartialEq, Eq, Structural)]
pub enum AdtOwnerDisplay {
    Verbose,
    Disabled,
}

/// The instruction given to the unsafety isolation check.
#[derive(Debug, Copy, Clone, PartialEq, Eq, Structural)]
pub enum UigInstruction {
    UigCount,
    Doc,
    Upg,
    Ucons,
}

/// One analysis to run on the crate.
#[derive(Debug, Copy, Clone, PartialEq, Eq, Structural)]
pub enum Analysis {
    RCanary,
    MopAlias,
    SafeDrop,
    UnsafetyIsolation(UigInstruction),
    Senryx,
    ShowMir,
    DataFlow { debug: bool },
    CallGraph,
}

impl RapGrain {
    /// The numeric level of a granularity.
    pub fn level(&self) -> (res: u8)
        ensures
            res == match *self {
                RapGrain::Low => 0u8,
                RapGrain::Medium => 1u8,
                RapGrain::High => 2u8,
                RapGrain::Ultra => 3u8,
            },
    {
        match *self {
            RapGrain::Low => 0,
            RapGrain::Medium => 1,
            RapGrain::High => 2,
            RapGrain::Ultra => 3,
        }
    }

    /// The name under which a granularity is displayed.
    pub fn to_string(&self) -> (res: String)
        ensures
            res@ == match *self {
                RapGrain::Ultra => "Ultra"@,
                RapGrain::High => "High"@,
                RapGrain::Medium => "Medium"@,
                RapGrain::Low => "Low,"@,
            },
    {
        match *self {
            RapGrain::Ultra => String::from_str("Ultra"),
            RapGrain::High => String::from_str("High"),
            RapGrain::Medium => String::from_str("Medium"),
            RapGrain::Low => String::from_str("Low,"),
        }
    }
}

/// The settings of a callback, as plain values.
pub struct CallbackFlags {
    pub rcanary: bool,
    pub safedrop: bool,
    pub senryx: bool,
    pub unsafety_isolation: usize,
    pub mop: bool,
    pub callgraph: bool,
    pub show_mir: bool,
    pub dataflow: usize,
}

impl View for RapCallback {
    type V = CallbackFlags;

    closed spec fn view(&self) -> CallbackFlags {
        CallbackFlags {
            rcanary: self.rcanary,
            safedrop: self.safedrop,
            senryx: self.senryx,
            unsafety_isolation: self.unsafety_isolation,
            mop: self.mop,
            callgraph: self.callgraph,
            show_mir: self.show_mir,
            dataflow: self.dataflow,
        }
    }
}

impl RapCallback {
    /// Every analysis off.
    pub fn default() -> (res: Self)
        ensures
            !res@.rcanary,
            !res@.safedrop,
            !res@.senryx,
            res@.unsafety_isolation == 0,
            !res@.mop,
            !res@.callgraph,
            !res@.show_mir,
            res@.dataflow == 0,
    {
        Self {
            rcanary: false,
            safedrop: false,
            senryx: false,
            unsafety_isolation: 0,
            mop: false,
            callgraph: false,
            show_mir: false,
            dataflow: 0,
        }
    }

    pub fn enable_rcanary(&mut self)
        ensures
            final(self)@ == (CallbackFlags { rcanary: true, ..old(self)@ }),
    {
        self.rcanary = true;
    }

    pub fn is_rcanary_enabled(&self) -> (res: bool)
        ensures
            res == self@.rcanary,
    {
        self.rcanary
    }

    pub fn enable_mop(&mut self)
        ensures
            final(self)@ == (CallbackFlags { mop: true, ..old(self)@ }),
    {
        self.mop = true;
    }

    pub fn is_mop_enabled(&self) -> (res: bool)
        ensures
            res == self@.mop,
    {
        self.mop
    }

    pub fn enable_safedrop(&mut self)
        ensures
            final(self)@ == (CallbackFlags { safedrop: true, ..old(self)@ }),
    {
        self.safedrop = true;
    }

    pub fn is_safedrop_enabled(&self) -> (res: bool)
        ensures
            res == self@.safedrop,
    {
        self.safedrop
    }

    pub fn enable_unsafety_isolation(&mut self, x: usize)
        ensures
            final(self)@ == (CallbackFlags { unsafety_isolation: x, ..old(self)@ }),
    {
        self.unsafety_isolation = x;
    }

    pub fn is_unsafety_isolation_enabled(&self) -> (res: usize)
        ensures
            res == self@.unsafety_isolation,
    {
        self.unsafety_isolation
    }

    pub fn enable_senryx(&mut self)
        ensures
            final(self)@ == (CallbackFlags { senryx: true, ..old(self)@ }),
    {
        self.senryx = true;
    }

    pub fn is_senryx_enabled(&self) -> (res: bool)
        ensures
            res == self@.senryx,
    {
        self.senryx
    }

    pub fn enable_callgraph(&mut self)
        ensures
            final(self)@ == (CallbackFlags { callgraph: true, ..old(self)@ }),
    {
        self.callgraph = true;
    }

    pub fn is_callgraph_enabled(&self) -> (res: bool)
        ensures
            res == self@.callgraph,
    {
        self.callgraph
    }

    pub fn enable_show_mir(&mut self)
        ensures
            final(self)@ == (CallbackFlags { show_mir: true, ..old(self)@ }),
    {
        self.show_mir = true;
    }

    pub fn is_show_mir_enabled(&self) -> (res: bool)
        ensures
            res == self@.show_mir,
    {
        self.show_mir
    }

    pub fn enable_dataflow(&mut self, x: usize)
        ensures
            final(self)@ == (CallbackFlags { dataflow: x, ..old(self)@ }),
    {
        self.dataflow = x;
    }

    pub fn is_dataflow_enabled(self) -> (res: usize)
        ensures
            res == self@.dataflow,
    {
        self.dataflow
    }
}

/// The analyses a run performs, in order: memory-leak detection, MOP alias
/// analysis, SafeDrop, unsafety isolation (levels 1 to 4), Senryx, MIR
/// display, dataflow (level 1, or level 2 with graph drawing) and call graph.
pub open spec fn planned_analyses(cb: RapCallback) -> Seq<Analysis> {
    let s0: Seq<Analysis> = if cb@.rcanary { seq![Analysis::RCanary] } else { seq![] };
    let s1 = if cb@.mop { s0.push(Analysis::MopAlias) } else { s0 };
    let s2 = if cb@.safedrop { s1.push(Analysis::SafeDrop) } else { s1 };
    let s3 = match cb@.unsafety_isolation {
        1 => s2.push(Analysis::UnsafetyIsolation(UigInstruction::UigCount)),
        2 => s2.push(Analysis::UnsafetyIsolation(UigInstruction::Doc)),
        3 => s2.push(Analysis::UnsafetyIsolation(UigInstruction::Upg)),
        4 => s2.push(Analysis::UnsafetyIsolation(UigInstruction::Ucons)),
        _ => s2,
    };
    let s4 = if cb@.senryx { s3.push(Analysis::Senryx) } else { s3 };
    let s5 = if cb@.show_mir { s4.push(Analysis::ShowMir) } else { s4 };
    let s6 = match cb@.dataflow {
        1 => s5.push(Analysis::DataFlow { debug: false }),
        2 => s5.push(Analysis::DataFlow { debug: true }),
        _ => s5,
    };
    if cb@.callgraph { s6.push(Analysis::CallGraph) } else { s6 }
}

/// The analyses that a run with these settings performs, in order.
pub fn start_analyzer(callback: RapCallback) -> (res: Vec<Analysis>)
    ensures
        res@ == planned_analyses(callback),
{
    let mut plan: Vec<Analysis> = Vec::new();
    if callback.is_rcanary_enabled() {
        plan.push(Analysis::RCanary);
    }
    if callback.is_mop_enabled() {
        plan.push(Analysis::MopAlias);
    }
    if callback.is_safedrop_enabled() {
        plan.push(Analysis::SafeDrop);
    }
    let x = callback.is_unsafety_isolation_enabled();
    match x {
        1 => plan.push(Analysis::UnsafetyIsolation(UigInstruction::UigCount)),
        2 => plan.push(Analysis::UnsafetyIsolation(UigInstruction::Doc)),
        3 => plan.push(Analysis::UnsafetyIsolation(UigInstruction::Upg)),
        4 => plan.push(Analysis::UnsafetyIsolation(UigInstruction::Ucons)),
        _ => {},
    }
    if callback.is_senryx_enabled() {
        plan.push(Analysis::Senryx);
    }
    if callback.is_show_mir_enabled() {
        plan.push(Analysis::ShowMir);
    }
    match callback.is_dataflow_enabled() {
        1 => plan.push(Analysis::DataFlow { debug: false }),
        2 => plan.push(Analysis::DataFlow { debug: true }),
        _ => {},
    }
    if callback.is_callgraph_enabled() {
        plan.push(Analysis::CallGraph);
    }
    assert(plan@ =~= planned_analyses(callback));
    plan
}

/// The rustc flags added by default, for maximal precision.
pub fn rap_default_args() -> (res: Vec<String>)
    ensures
        res@.len() == 3,
        res@[0]@ == "-Zalways-encode-mir"@,
        res@[1]@ == "-Zmir-opt-level=0"@,
        res@[2]@ == "--cfg=rap"@,
{
    let mut v: Vec<String> = Vec::new();
    v.push(String::from_str("-Zalways-encode-mir"));
    v.push(String::from_str("-Zmir-opt-level=0"));
    v.push(String::from_str("--cfg=rap"));
    v
}

} // verus!
