use vstd::prelude::*;
use crate::contract::{Finding, output_results};

verus! {

/// The visit of one function body by the contract checks (by the body's
/// definition id and the depth of the visit), with its findings: for each
/// unsafe callee (by name), the most severe level reported for it (0 a
/// bug, higher levels possible unsoundness).
pub struct BodyVisitor {
    pub def_id: u64,
    pub unsafe_callee_report: Vec<(String, usize)>,
    pub visit_time: usize,
}

/// The position of the callee named `name` among the reports.
pub open spec fn report_pos(v: Seq<(String, usize)>, name: Seq<char>, i: int) -> bool {
    0 <= i < v.len() && v[i].0@ == name
}

impl BodyVisitor {
    pub fn new(def_id: u64, visit_time: usize) -> (res: Self)
        ensures
            res.def_id == def_id,
            res.visit_time == visit_time,
            res.unsafe_callee_report@.len() == 0,
    {
        BodyVisitor { def_id, unsafe_callee_report: Vec::new(), visit_time }
    }

    /// Records `report_level` for `unsafe_callee`, keeping the lower (more
    /// severe) level when the callee was reported before.
    pub fn update_callee_report_level(&mut self, unsafe_callee: String, report_level: usize)
        ensures
            ({
                let v = old(self).unsafe_callee_report@;
                let w = final(self).unsafe_callee_report@;
                if exists|i: int| report_pos(v, unsafe_callee@, i) {
                    let i = choose|i: int| report_pos(v, unsafe_callee@, i) && forall|j: int| 0 <= j < i ==> !report_pos(v, unsafe_callee@, j);
                    &&& forall|j: int| 0 <= j < i ==> !report_pos(v, unsafe_callee@, j)
                    &&& w == v.update(i, (v[i].0, if report_level < v[i].1 { report_level } else { v[i].1 }))
                } else {
                    &&& w.len() == v.len() + 1
                    &&& w.drop_last() == v
                    &&& w.last().0@ == unsafe_callee@
                    &&& w.last().1 == report_level
                }
            }),
    {
        let mut i: usize = 0;
        while i < self.unsafe_callee_report.len()
            invariant
                self.unsafe_callee_report == old(self).unsafe_callee_report,
                i <= self.unsafe_callee_report@.len(),
                forall|j: int| 0 <= j < i ==> !report_pos(self.unsafe_callee_report@, unsafe_callee@, j),
            decreases self.unsafe_callee_report@.len() - i,
        {
            if crate::text::str_eq(self.unsafe_callee_report[i].0.as_str(), unsafe_callee.as_str()) {
                let ghost v = self.unsafe_callee_report@;
                proof {
                    assert(report_pos(v, unsafe_callee@, i as int));
                    let k = choose|k: int| report_pos(v, unsafe_callee@, k) && forall|j: int| 0 <= j < k ==> !report_pos(v, unsafe_callee@, j);
                    if k < i {
                    } else if k > i {
                        assert(!report_pos(v, unsafe_callee@, i as int));
                    }
                    assert(k == i);
                }
                let old_level = self.unsafe_callee_report[i].1;
                if report_level < old_level {
                    let name = self.unsafe_callee_report[i].0.clone();
                    self.unsafe_callee_report.set(i, (name, report_level));
                    assert(self.unsafe_callee_report@ =~= v.update(i as int, (v[i as int].0, report_level)));
                }
                return;
            }
            i = i + 1;
        }
        self.unsafe_callee_report.push((unsafe_callee, report_level));
        proof {
            let v = old(self).unsafe_callee_report@;
            assert(self.unsafe_callee_report@.drop_last() =~= v);
        }
    }

    /// The findings to report with the given threshold, in order: each
    /// callee reported at level 0 is a bug, one reported at a level up to
    /// the threshold an unsoundness issue, the others are not reported.
    pub fn output_results(&self, threshold: usize) -> (res: Vec<(String, Finding)>)
        ensures
            res@.len() == findings_of(self.unsafe_callee_report@, threshold).len(),
            forall|k: int| 0 <= k < res@.len() ==> (#[trigger] res@[k]).0@ == findings_of(self.unsafe_callee_report@, threshold)[k].0
                && res@[k].1 == findings_of(self.unsafe_callee_report@, threshold)[k].1,
    {
        let ghost v = self.unsafe_callee_report@;
        let mut out: Vec<(String, Finding)> = Vec::new();
        let mut i: usize = 0;
        while i < self.unsafe_callee_report.len()
            invariant
                v == self.unsafe_callee_report@,
                i <= v.len(),
                out@.len() == findings_of(v.take(i as int), threshold).len(),
                forall|k: int| 0 <= k < out@.len() ==> (#[trigger] out@[k]).0@ == findings_of(v.take(i as int), threshold)[k].0
                    && out@[k].1 == findings_of(v.take(i as int), threshold)[k].1,
            decreases v.len() - i,
        {
            proof {
                assert(v.take(i + 1).drop_last() =~= v.take(i as int));
                assert(v.take(i + 1).last() == v[i as int]);
            }
            let level = self.unsafe_callee_report[i].1;
            match output_results(level, threshold) {
                Some(f) => {
                    out.push((self.unsafe_callee_report[i].0.clone(), f));
                },
                None => {},
            }
            i = i + 1;
        }
        proof {
            assert(v.take(v.len() as int) =~= v);
        }
        out
    }
}

/// The finding for a report level, if it is reported with the threshold.
pub open spec fn finding_for(level: usize, threshold: usize) -> Option<Finding> {
    if level == 0 {
        Some(Finding::Bug)
    } else if level <= threshold {
        Some(Finding::Unsoundness)
    } else {
        None
    }
}

/// The reported findings of the reports `v`, in order.
pub open spec fn findings_of(v: Seq<(String, usize)>, threshold: usize) -> Seq<(Seq<char>, Finding)>
    decreases v.len(),
{
    if v.len() == 0 {
        Seq::empty()
    } else {
        let prev = findings_of(v.drop_last(), threshold);
        match finding_for(v.last().1, threshold) {
            Some(f) => prev.push((v.last().0@, f)),
            None => prev,
        }
    }
}

} // verus!
