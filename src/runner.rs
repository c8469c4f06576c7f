//! Running a suite: the cases run in order, and the run stops at the first
//! case that does not pass.
//!
//! Running a query is left to the caller: it asks `next_step` which case to
//! run, runs it, and hands the outcome back to `record`.
use vstd::prelude::*;
use crate::compare::{CaseOutcome, judged, lemma_matching_rows_pass, seeded};
use crate::suite::{CaseModel, Tests, lemma_blank_lines_no_cases, lemma_round_trip, render_suite, suite_of_text, writable_case};
use crate::text::{blank, lines_of};

verus! {

/// What the caller does next.
#[derive(Debug)]
pub enum Step {
    /// Run the case at this position of the suite.
    Execute { index: usize },
    /// The run is over: every case passed, or one did not.
    Finish { success: bool },
}

/// The state of a run over a suite of `total` cases.
#[derive(Debug)]
pub struct SuiteRun {
    /// The number of cases in the suite.
    pub total: usize,
    /// The number of cases run so far.
    pub next: usize,
    /// Whether the last case run did not pass.
    pub failed: bool,
}

impl SuiteRun {
    pub open spec fn wf(&self) -> bool {
        self.next <= self.total
    }

    /// The step that a state calls for.
    pub open spec fn step_spec(&self) -> Step {
        if self.failed {
            Step::Finish { success: false }
        } else if self.next < self.total {
            Step::Execute { index: self.next }
        } else {
            Step::Finish { success: true }
        }
    }

    /// The state after the case that `self` calls for has run, with or without success.
    pub open spec fn recorded(&self, passed: bool) -> SuiteRun {
        SuiteRun { total: self.total, next: (self.next + 1) as usize, failed: !passed }
    }

    /// A run that has not started yet.
    pub fn new(total: usize) -> (r: SuiteRun)
        ensures
            r == (SuiteRun { total, next: 0, failed: false }),
            r.wf(),
    {
        SuiteRun { total, next: 0, failed: false }
    }

    pub fn next_step(&self) -> (r: Step)
        ensures
            r == self.step_spec(),
    {
        if self.failed {
            Step::Finish { success: false }
        } else if self.next < self.total {
            Step::Execute { index: self.next }
        } else {
            Step::Finish { success: true }
        }
    }

    /// Takes in the outcome of the case that was run.
    pub fn record(&mut self, outcome: &CaseOutcome)
        requires
            old(self).wf(),
            old(self).step_spec() is Execute,
        ensures
            *final(self) == old(self).recorded(*outcome is Passed),
            final(self).wf(),
    {
        self.next = self.next + 1;
        self.failed = !outcome.is_pass();
    }
}

impl Tests {
    /// A run over this suite that has not started yet.
    pub fn start_run(&self) -> (r: SuiteRun)
        ensures
            r == (SuiteRun { total: self.tests.len(), next: 0, failed: false }),
    {
        SuiteRun::new(self.tests.len())
    }
}

/// The state reached from `s` when the cases run have the results in `results`,
/// in order; results beyond the end of the run are never asked for.
pub open spec fn drive(s: SuiteRun, results: Seq<bool>) -> SuiteRun
    decreases results.len(),
{
    if s.step_spec() is Execute && results.len() > 0 {
        drive(s.recorded(results[0]), results.drop_first())
    } else {
        s
    }
}

/// Once a case fails the run is over: with the first `k` cases passing and case
/// `k` failing, exactly `k + 1` cases run, whatever results would follow, and the
/// run ends without success.
pub proof fn lemma_stops_at_first_failure(total: usize, results: Seq<bool>, k: int)
    requires
        0 <= k < total,
        k < results.len(),
        !results[k],
        forall|i: int| 0 <= i < k ==> results[i],
    ensures
        drive(SuiteRun { total, next: 0, failed: false }, results) == (SuiteRun {
            total,
            next: (k + 1) as usize,
            failed: true,
        }),
        drive(SuiteRun { total, next: 0, failed: false }, results).step_spec() == (Step::Finish {
            success: false,
        }),
{
    lemma_drive_passing(SuiteRun { total, next: 0, failed: false }, results, k);
}

/// From a state that has run `s.next` cases, all passing, results that pass
/// carry the run on one case each.
proof fn lemma_drive_passing(s: SuiteRun, results: Seq<bool>, k: int)
    requires
        !s.failed,
        s.next <= k < s.total,
        k < results.len() + s.next,
        !results[k - s.next],
        forall|i: int| 0 <= i < k - s.next ==> results[i],
    ensures
        drive(s, results) == (SuiteRun { total: s.total, next: (k + 1) as usize, failed: true }),
    decreases k - s.next,
{
    let t = s.recorded(results[0]);
    if k > s.next {
        assert(results[0]);
        assert forall|i: int| 0 <= i < k - t.next implies #[trigger] results.drop_first()[i] by {
            assert(results.drop_first()[i] == results[i + 1]);
        }
        lemma_drive_passing(t, results.drop_first(), k);
    } else {
        assert(t.step_spec() is Finish);
        assert(drive(t, results.drop_first()) == t);
    }
}

/// When every case passes, all of them run and the run ends with success.
pub proof fn lemma_all_pass_succeeds(total: usize, results: Seq<bool>)
    requires
        results.len() >= total,
        forall|i: int| 0 <= i < total ==> results[i],
    ensures
        drive(SuiteRun { total, next: 0, failed: false }, results) == (SuiteRun {
            total,
            next: total,
            failed: false,
        }),
        drive(SuiteRun { total, next: 0, failed: false }, results).step_spec() == (Step::Finish {
            success: true,
        }),
{
    lemma_drive_all_pass(SuiteRun { total, next: 0, failed: false }, results);
}

proof fn lemma_drive_all_pass(s: SuiteRun, results: Seq<bool>)
    requires
        !s.failed,
        s.next <= s.total,
        results.len() + s.next >= s.total,
        forall|i: int| 0 <= i < s.total - s.next ==> results[i],
    ensures
        drive(s, results) == (SuiteRun { total: s.total, next: s.total, failed: false }),
    decreases s.total - s.next,
{
    if s.next < s.total {
        let t = s.recorded(results[0]);
        assert forall|i: int| 0 <= i < t.total - t.next implies #[trigger] results.drop_first()[i] by {
            assert(results.drop_first()[i] == results[i + 1]);
        }
        lemma_drive_all_pass(t, results.drop_first());
    }
}

/// A suite file with no query line holds no case, and running it succeeds at once.
pub proof fn lemma_no_queries_trivial_success(text: Seq<char>)
    requires
        forall|i: int| 0 <= i < lines_of(text).len() ==> blank(#[trigger] lines_of(text)[i]),
    ensures
        suite_of_text(text) == Seq::<CaseModel>::empty(),
        (SuiteRun { total: 0, next: 0, failed: false }).step_spec() == (Step::Finish {
            success: true,
        }),
{
    lemma_blank_lines_no_cases(lines_of(text));
}

/// A suite written in the file format, read back and run against a server that
/// returns exactly the recorded rows, passes every case and ends with success.
pub proof fn lemma_written_suite_passes(cases: Seq<CaseModel>, outcomes: Seq<CaseOutcome>)
    requires
        cases.len() <= usize::MAX,
        forall|i: int| 0 <= i < cases.len() ==> writable_case(#[trigger] cases[i]),
        outcomes.len() == cases.len(),
        forall|i: int|
            0 <= i < cases.len() ==> judged(cases[i].1, seeded(cases[i].1), #[trigger] outcomes[i]),
    ensures
        suite_of_text(render_suite(cases)) == cases,
        forall|i: int| 0 <= i < outcomes.len() ==> #[trigger] outcomes[i] is Passed,
        drive(
            SuiteRun { total: cases.len() as usize, next: 0, failed: false },
            outcomes.map_values(|o: CaseOutcome| o is Passed),
        ).step_spec() == (Step::Finish { success: true }),
{
    lemma_round_trip(cases);
    assert forall|i: int| 0 <= i < outcomes.len() implies #[trigger] outcomes[i] is Passed by {
        lemma_matching_rows_pass(cases[i].1, outcomes[i]);
    }
    lemma_all_pass_succeeds(cases.len() as usize, outcomes.map_values(|o: CaseOutcome| o is Passed));
}

} // verus!
