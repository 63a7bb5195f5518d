//! The check command: which reports are kept, and what is done after what.
use crate::analyzer_error::AnalyzerError;
use crate::check_run::{CheckRun, CheckRunView, CheckStep};
use vstd::prelude::*;

verus! {

/// What the check command is told to do.
#[derive(Debug, PartialEq, Eq)]
pub struct OptCheck {
    /// The files to check; all files of the project where there is none.
    pub files: Vec<String>,
}

/// The reports that were kept, with a limit to the errors among them.
#[derive(Debug)]
pub struct CheckError {
    pub related: Vec<AnalyzerError>,
    error_count: u32,
    error_count_limit: u32,
}

/// How many of the reports are errors.
pub open spec fn error_total(reports: Seq<AnalyzerError>) -> nat {
    reports.filter(|report: AnalyzerError| report.spec_is_error()).len()
}

/// None of the reports is an error.
pub open spec fn no_errors(reports: Seq<AnalyzerError>) -> bool {
    forall|i: int| 0 <= i < reports.len() ==> !(#[trigger] reports[i]).spec_is_error()
}

/// The content of the reports that were kept.
#[verifier::ext_equal]
pub struct CheckErrorView {
    pub related: Seq<AnalyzerError>,
    /// How many errors were counted.
    pub error_count: nat,
    /// How many errors are kept; all of them where it is zero.
    pub error_count_limit: nat,
}

impl CheckErrorView {
    /// The errors among the reports were counted, and are not more than the limit; without a limit
    /// none is counted.
    pub open spec fn wf(self) -> bool {
        if self.error_count_limit == 0 {
            self.error_count == 0
        } else {
            self.error_count == error_total(self.related) && self.error_count
                <= self.error_count_limit
        }
    }

    /// A report is kept that comes after so many errors in the same list: a warning always, an error
    /// as long as the limit is not reached.
    pub open spec fn keeps(self, report: AnalyzerError, errors_before: nat) -> bool {
        !report.spec_is_error() || self.error_count_limit == 0 || self.error_count + errors_before
            < self.error_count_limit
    }

    /// The reports that are kept of the first `count` reports.
    pub open spec fn kept(self, reports: Seq<AnalyzerError>, count: nat) -> Seq<AnalyzerError>
        decreases count,
    {
        if count == 0 {
            Seq::empty()
        } else {
            let before = self.kept(reports, (count - 1) as nat);
            let report = reports[count - 1];
            if self.keeps(report, error_total(reports.take(count - 1))) {
                before.push(report)
            } else {
                before
            }
        }
    }

    /// After reports came in.
    pub open spec fn with_reports(self, reports: Seq<AnalyzerError>) -> CheckErrorView {
        let count = self.error_count + error_total(reports);
        CheckErrorView {
            related: self.related + self.kept(reports, reports.len()),
            error_count: if self.error_count_limit == 0 || self.error_count
                >= self.error_count_limit {
                self.error_count
            } else if count <= self.error_count_limit {
                count
            } else {
                self.error_count_limit
            },
            ..self
        }
    }
}

pub proof fn lemma_error_total_push(reports: Seq<AnalyzerError>, report: AnalyzerError)
    ensures
        error_total(reports.push(report)) == error_total(reports) + if report.spec_is_error() {
            1nat
        } else {
            0nat
        },
{
    reveal(Seq::filter);
    assert(reports.push(report).drop_last() =~= reports);
}

impl View for CheckError {
    type V = CheckErrorView;

    closed spec fn view(&self) -> CheckErrorView {
        CheckErrorView {
            related: self.related@,
            error_count: self.error_count as nat,
            error_count_limit: self.error_count_limit as nat,
        }
    }
}

impl CheckError {
    /// No reports yet; at most `error_count_limit` errors are kept, or all where it is zero.
    pub fn new(error_count_limit: u32) -> (check: CheckError)
        ensures
            check@ == (CheckErrorView {
                related: Seq::empty(),
                error_count: 0,
                error_count_limit: error_count_limit as nat,
            }),
            check@.wf(),
    {
        proof {
            reveal(Seq::filter);
        }
        CheckError { related: Vec::new(), error_count: 0, error_count_limit }
    }

    /// Takes reports over.
    pub fn append(self, x: &mut Vec<AnalyzerError>) -> (check: CheckError)
        ensures
            check@ == self@.with_reports(old(x)@),
            final(x)@ == Seq::<AnalyzerError>::empty(),
    {
        let mut check: CheckError = self;
        let mut reports: Vec<AnalyzerError> = Vec::new();
        std::mem::swap(&mut reports, x);
        let ghost all = reports@;
        let ghost before = self@;
        proof {
            reveal(Seq::filter);
            assert(check@ =~= before.with_reports(all.take(0)));
            assert(error_total(all.take(0)) == 0);
        }
        for x in iter: reports
            invariant
                iter.seq() == all,
                check@.error_count_limit == before.error_count_limit,
                check@.related == before.related + before.kept(all, iter.index() as nat),
                check@.error_count == before.with_reports(all.take(iter.index())).error_count,
        {
            proof {
                assert(all.take(iter.index() + 1) =~= all.take(iter.index()).push(x));
                lemma_error_total_push(all.take(iter.index()), x);
            }
            if !x.is_error() || check.error_count_limit == 0 {
                check.related.push(x);
            } else if check.error_count < check.error_count_limit {
                check.related.push(x);
                check.error_count = check.error_count + 1;
            }
            assert(check@.related =~= before.related + before.kept(
                all,
                (iter.index() + 1) as nat,
            ));
        }
        assert(all.take(all.len() as int) =~= all);
        assert(check@ =~= before.with_reports(all));
        check
    }

    /// Goes on where none of the reports that were kept is an error, and fails with the reports where
    /// one is.
    pub fn check_err(self) -> (outcome: Result<CheckError, CheckError>)
        ensures
            outcome == (if no_errors(self@.related) {
                Ok::<CheckError, CheckError>(self)
            } else {
                Err(self)
            }),
    {
        let mut i: usize = 0;
        while i < self.related.len()
            invariant
                i <= self.related@.len(),
                forall|j: int| 0 <= j < i ==> !(#[trigger] self.related@[j]).spec_is_error(),
            decreases self.related@.len() - i,
        {
            if self.related[i].is_error() {
                assert(self@.related[i as int].spec_is_error());
                return Err(self);
            }
            i = i + 1;
        }
        Ok(self)
    }

    /// Succeeds where no report was kept, and fails with the reports where one was.
    pub fn check_all(self) -> (outcome: Result<CheckError, CheckError>)
        ensures
            outcome == (if self@.related.len() == 0 {
                Ok::<CheckError, CheckError>(self)
            } else {
                Err(self)
            }),
    {
        if self.related.is_empty() {
            Ok(self)
        } else {
            Err(self)
        }
    }
}

/// The check command.
#[derive(Debug)]
pub struct CmdCheck {
    pub opt: OptCheck,
}

impl CmdCheck {
    pub fn new(opt: OptCheck) -> (cmd: CmdCheck)
        ensures
            cmd.opt == opt,
    {
        CmdCheck { opt }
    }

    /// Begins a run over so many sources.
    pub fn exec(&self, error_count_limit: u32, sources: usize) -> (run: CheckRun)
        ensures
            run@.wf(),
            run@ == (CheckRunView {
                check_error: CheckErrorView {
                    related: Seq::empty(),
                    error_count: 0,
                    error_count_limit: error_count_limit as nat,
                },
                step: CheckStep::first(sources as nat),
                sources: sources as nat,
            }),
    {
        CheckRun::start(error_count_limit, sources)
    }
}

} // verus!
