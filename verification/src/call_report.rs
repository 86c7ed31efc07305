use vstd::prelude::*;
use crate::call_graph::CallGraphInfo;
use crate::text::{decimal, usize_to_decimal};

verus! {

/// The line of a call between two registered functions, `id:path -> id:path`
/// (nothing when either is not registered).
pub open spec fn call_line(g: &CallGraphInfo, c: (usize, usize)) -> Seq<char> {
    if (c.0 as int) < g.functions@.len() && (c.1 as int) < g.functions@.len() {
        decimal(c.0 as nat) + ":"@ + g.paths()[c.0 as int] + " -> "@ + decimal(c.1 as nat) + ":"@ + g.paths()[c.1 as int] + "\n"@
    } else {
        Seq::empty()
    }
}

/// The lines of the first `n` calls.
pub open spec fn calls_text(g: &CallGraphInfo, n: int) -> Seq<char>
    decreases n,
{
    if n <= 0 {
        Seq::empty()
    } else {
        calls_text(g, n - 1) + call_line(g, g.function_calls@[n - 1])
    }
}

/// The lines `id:path` of the first `n` functions.
pub open spec fn functions_text(g: &CallGraphInfo, n: int) -> Seq<char>
    decreases n,
{
    if n <= 0 {
        Seq::empty()
    } else {
        functions_text(g, n - 1) + decimal((n - 1) as nat) + ":"@ + g.paths()[n - 1] + "\n"@
    }
}

/// The report of the call-graph analysis.
pub open spec fn call_graph_report(g: &CallGraphInfo) -> Seq<char> {
    "CallGraph Analysis:\n"@ + "There are "@ + decimal(g.function_calls@.len()) + " functions calls!\n"@ + calls_text(
        g,
        g.function_calls@.len() as int,
    ) + "There are "@ + decimal(g.functions@.len()) + " functions\n"@ + functions_text(g, g.functions@.len() as int)
}

impl CallGraphInfo {
    /// The text of the call-graph report: the number of calls, each call
    /// between registered functions, the number of functions, and each
    /// function with its number.
    pub fn print_call_graph(&self) -> (res: String)
        ensures
            res@ == call_graph_report(self),
    {
        let mut s = String::from_str("CallGraph Analysis:\n");
        proof {
            reveal_strlit("CallGraph Analysis:\n");
        }
        s.append("There are ");
        s.append(usize_to_decimal(self.function_calls.len()).as_str());
        s.append(" functions calls!\n");
        let ghost head = s@;
        let mut i: usize = 0;
        while i < self.function_calls.len()
            invariant
                i <= self.function_calls@.len(),
                s@ == head + calls_text(self, i as int),
            decreases self.function_calls@.len() - i,
        {
            let (caller_id, callee_id) = self.function_calls[i];
            if caller_id < self.functions.len() && callee_id < self.functions.len() {
                s.append(usize_to_decimal(caller_id).as_str());
                s.append(":");
                s.append(self.functions[caller_id].get_def_path().as_str());
                s.append(" -> ");
                s.append(usize_to_decimal(callee_id).as_str());
                s.append(":");
                s.append(self.functions[callee_id].get_def_path().as_str());
                s.append("\n");
            }
            assert(s@ =~= head + calls_text(self, i + 1));
            i = i + 1;
        }
        s.append("There are ");
        s.append(usize_to_decimal(self.functions.len()).as_str());
        s.append(" functions\n");
        let ghost mid = s@;
        let mut j: usize = 0;
        while j < self.functions.len()
            invariant
                j <= self.functions@.len(),
                s@ == mid + functions_text(self, j as int),
            decreases self.functions@.len() - j,
        {
            s.append(usize_to_decimal(j).as_str());
            s.append(":");
            s.append(self.functions[j].get_def_path().as_str());
            s.append("\n");
            assert(s@ =~= mid + functions_text(self, j + 1));
            j = j + 1;
        }
        assert(s@ =~= call_graph_report(self));
        s
    }
}


} // verus!
