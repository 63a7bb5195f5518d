//! The run of the check command: every source is analysed in three passes, and the run ends at the
//! first pass that reports an error.
use crate::analyzer_error::AnalyzerError;
use crate::cmd_check::{no_errors, CheckError, CheckErrorView};
use crate::report_laws::{law_error_kept, lemma_with_reports_wf};
use vstd::prelude::*;

verus! {

/// What has to be done next.
#[derive(Clone, Copy, Debug, PartialEq, Eq, Structural)]
pub enum CheckStep {
    /// Read and parse a source, and analyse it in the first pass. Reports come of it.
    AnalyzePass1 { source: usize },
    /// Keep what the later passes need of a source.
    KeepContext { source: usize },
    /// Analyse what the first pass found in all sources. Reports come of it.
    AnalyzePostPass1,
    /// Analyse a source in the second pass. Reports come of it.
    AnalyzePass2 { source: usize },
    /// Gather what the second pass found in all sources.
    AnalyzePostPass2,
    /// Analyse a source in the third pass. Reports come of it.
    AnalyzePass3 { source: usize },
    /// Nothing; the run is over.
    Finish,
}

impl CheckStep {
    /// Reports come of this step.
    pub open spec fn spec_reports(self) -> bool {
        match self {
            CheckStep::AnalyzePass1 { .. } => true,
            CheckStep::AnalyzePostPass1 => true,
            CheckStep::AnalyzePass2 { .. } => true,
            CheckStep::AnalyzePass3 { .. } => true,
            _ => false,
        }
    }

    /// The source of this step is one of the sources.
    pub open spec fn in_range(self, sources: nat) -> bool {
        match self {
            CheckStep::AnalyzePass1 { source } => source < sources,
            CheckStep::KeepContext { source } => source < sources,
            CheckStep::AnalyzePass2 { source } => source < sources,
            CheckStep::AnalyzePass3 { source } => source < sources,
            _ => true,
        }
    }

    /// The first step.
    pub open spec fn first(sources: nat) -> CheckStep {
        if 0 < sources {
            CheckStep::AnalyzePass1 { source: 0 }
        } else {
            CheckStep::AnalyzePostPass1
        }
    }

    /// The step after this one.
    pub open spec fn next(self, sources: nat) -> CheckStep {
        match self {
            CheckStep::AnalyzePass1 { source } => CheckStep::KeepContext { source },
            CheckStep::KeepContext { source } => if source + 1 < sources {
                CheckStep::AnalyzePass1 { source: (source + 1) as usize }
            } else {
                CheckStep::AnalyzePostPass1
            },
            CheckStep::AnalyzePostPass1 => if 0 < sources {
                CheckStep::AnalyzePass2 { source: 0 }
            } else {
                CheckStep::AnalyzePostPass2
            },
            CheckStep::AnalyzePass2 { source } => if source + 1 < sources {
                CheckStep::AnalyzePass2 { source: (source + 1) as usize }
            } else {
                CheckStep::AnalyzePostPass2
            },
            CheckStep::AnalyzePostPass2 => if 0 < sources {
                CheckStep::AnalyzePass3 { source: 0 }
            } else {
                CheckStep::Finish
            },
            CheckStep::AnalyzePass3 { source } => if source + 1 < sources {
                CheckStep::AnalyzePass3 { source: (source + 1) as usize }
            } else {
                CheckStep::Finish
            },
            CheckStep::Finish => CheckStep::Finish,
        }
    }

    /// How many steps are left, this one included.
    pub open spec fn steps_left(self, sources: nat) -> int {
        match self {
            CheckStep::AnalyzePass1 { source } => 2 * sources + 2 + 2 * (sources - source),
            CheckStep::KeepContext { source } => 2 * sources + 1 + 2 * (sources - source),
            CheckStep::AnalyzePostPass1 => (2 * sources + 2) as int,
            CheckStep::AnalyzePass2 { source } => sources + 1 + (sources - source),
            CheckStep::AnalyzePostPass2 => (sources + 1) as int,
            CheckStep::AnalyzePass3 { source } => sources - source,
            CheckStep::Finish => 0,
        }
    }

    /// How many steps of which reports come are left, this one included.
    pub open spec fn reports_left(self, sources: nat) -> int {
        match self {
            CheckStep::AnalyzePass1 { source } => 2 * sources + 1 + (sources - source),
            CheckStep::KeepContext { source } => 2 * sources + (sources - source),
            CheckStep::AnalyzePostPass1 => (2 * sources + 1) as int,
            CheckStep::AnalyzePass2 { source } => sources + (sources - source),
            CheckStep::AnalyzePostPass2 => sources as int,
            CheckStep::AnalyzePass3 { source } => sources - source,
            CheckStep::Finish => 0,
        }
    }

    fn compute_next(self, sources: usize) -> (step: CheckStep)
        requires
            self.in_range(sources as nat),
        ensures
            step == self.next(sources as nat),
            step.in_range(sources as nat),
    {
        match self {
            CheckStep::AnalyzePass1 { source } => CheckStep::KeepContext { source },
            CheckStep::KeepContext { source } => if source + 1 < sources {
                CheckStep::AnalyzePass1 { source: source + 1 }
            } else {
                CheckStep::AnalyzePostPass1
            },
            CheckStep::AnalyzePostPass1 => if 0 < sources {
                CheckStep::AnalyzePass2 { source: 0 }
            } else {
                CheckStep::AnalyzePostPass2
            },
            CheckStep::AnalyzePass2 { source } => if source + 1 < sources {
                CheckStep::AnalyzePass2 { source: source + 1 }
            } else {
                CheckStep::AnalyzePostPass2
            },
            CheckStep::AnalyzePostPass2 => if 0 < sources {
                CheckStep::AnalyzePass3 { source: 0 }
            } else {
                CheckStep::Finish
            },
            CheckStep::AnalyzePass3 { source } => if source + 1 < sources {
                CheckStep::AnalyzePass3 { source: source + 1 }
            } else {
                CheckStep::Finish
            },
            CheckStep::Finish => CheckStep::Finish,
        }
    }
}

/// A run of the check command, between two steps.
pub struct CheckRun {
    check_error: CheckError,
    step: CheckStep,
    sources: usize,
}

/// The state of a run.
#[verifier::ext_equal]
pub struct CheckRunView {
    /// The reports so far.
    pub check_error: CheckErrorView,
    /// What has to be done next.
    pub step: CheckStep,
    /// How many sources there are.
    pub sources: nat,
}

impl CheckRunView {
    /// No error was reported so far.
    pub open spec fn wf(self) -> bool {
        &&& self.check_error.wf()
        &&& no_errors(self.check_error.related)
        &&& self.step.in_range(self.sources)
        &&& self.sources <= usize::MAX
    }

    /// After the step was done.
    pub open spec fn proceeded(self) -> CheckRunView {
        CheckRunView { step: self.step.next(self.sources), ..self }
    }

    /// After the reports of the step came in: the run goes on, unless an error is among them.
    pub open spec fn reported(self, reports: Seq<AnalyzerError>) -> Result<
        CheckRunView,
        CheckErrorView,
    > {
        let check_error = self.check_error.with_reports(reports);
        if no_errors(check_error.related) {
            Ok(CheckRunView { check_error, ..self.proceeded() })
        } else {
            Err(check_error)
        }
    }

    /// What comes of the rest of the run, where these reports come of the steps of which reports
    /// come.
    pub open spec fn outcome(self, reports: Seq<Seq<AnalyzerError>>) -> Result<
        bool,
        CheckErrorView,
    >
        decreases self.step.steps_left(self.sources),
        when self.step.in_range(self.sources) && self.sources <= usize::MAX
    {
        if self.step is Finish {
            if self.check_error.related.len() == 0 {
                Ok(true)
            } else {
                Err(self.check_error)
            }
        } else if self.step.spec_reports() {
            match self.reported(reports[0]) {
                Ok(run) => run.outcome(reports.drop_first()),
                Err(check_error) => Err(check_error),
            }
        } else {
            self.proceeded().outcome(reports)
        }
    }
}

impl View for CheckRun {
    type V = CheckRunView;

    closed spec fn view(&self) -> CheckRunView {
        CheckRunView {
            check_error: self.check_error@,
            step: self.step,
            sources: self.sources as nat,
        }
    }
}

impl CheckRun {
    /// The run before its first step.
    pub fn start(error_count_limit: u32, sources: usize) -> (run: CheckRun)
        ensures
            run@.wf(),
            run@ == (CheckRunView {
                check_error: CheckErrorView {
                    related: Seq::empty(),
                    error_count: 0,
                    error_count_limit: error_count_limit as nat,
                },
                step: CheckStep::first(sources as nat),
                sources: sources as nat,
            }),
    {
        let step: CheckStep = if 0 < sources {
            CheckStep::AnalyzePass1 { source: 0 }
        } else {
            CheckStep::AnalyzePostPass1
        };
        CheckRun { check_error: CheckError::new(error_count_limit), step, sources }
    }

    /// What has to be done next.
    pub fn step(&self) -> (step: CheckStep)
        ensures
            step == self@.step,
    {
        self.step
    }

    /// Goes on after a step of which no reports come.
    pub fn proceed(self) -> (run: CheckRun)
        requires
            self@.wf(),
            !self@.step.spec_reports(),
        ensures
            run@.wf(),
            run@ == self@.proceeded(),
    {
        let step: CheckStep = self.step.compute_next(self.sources);
        CheckRun { check_error: self.check_error, step, sources: self.sources }
    }

    /// Takes the reports of a step, and goes on unless an error is among them.
    pub fn report(self, errors: Vec<AnalyzerError>) -> (outcome: Result<CheckRun, CheckError>)
        requires
            self@.wf(),
            self@.step.spec_reports(),
        ensures
            outcome is Ok <==> self@.reported(errors@) is Ok,
            outcome matches Ok(run) ==> run@.wf() && self@.reported(errors@) == Ok::<
                CheckRunView,
                CheckErrorView,
            >(run@),
            outcome matches Err(check) ==> self@.reported(errors@) == Err::<
                CheckRunView,
                CheckErrorView,
            >(check@),
    {
        let ghost before = self@;
        let ghost reports = errors@;
        let step: CheckStep = self.step.compute_next(self.sources);
        let mut errors: Vec<AnalyzerError> = errors;
        let check_error: CheckError = self.check_error.append(&mut errors);
        proof {
            lemma_with_reports_wf(before.check_error, reports);
        }
        match check_error.check_err() {
            Ok(check_error) => Ok(CheckRun { check_error, step, sources: self.sources }),
            Err(check_error) => Err(check_error),
        }
    }

    /// Ends the run: it has succeeded where nothing was reported, not even a warning.
    pub fn finish(self) -> (outcome: Result<bool, CheckError>)
        requires
            self@.wf(),
            self@.step is Finish,
        ensures
            outcome == Ok::<bool, CheckError>(true) <==> self@.check_error.related.len() == 0,
            outcome matches Ok(done) ==> done,
            outcome matches Err(check) ==> check@ == self@.check_error,
    {
        match self.check_error.check_all() {
            Ok(_) => Ok(true),
            Err(check_error) => Err(check_error),
        }
    }
}

/// The reports that are kept after the first `count` batches.
pub open spec fn reports_kept(
    check: CheckErrorView,
    reports: Seq<Seq<AnalyzerError>>,
    count: nat,
) -> CheckErrorView
    decreases count,
{
    if count == 0 {
        check
    } else {
        reports_kept(check, reports, (count - 1) as nat).with_reports(reports[count - 1])
    }
}

proof fn lemma_reports_kept_first(
    check: CheckErrorView,
    reports: Seq<Seq<AnalyzerError>>,
    count: nat,
)
    requires
        0 < count <= reports.len(),
    ensures
        reports_kept(check, reports, count) == reports_kept(
            check.with_reports(reports[0]),
            reports.drop_first(),
            (count - 1) as nat,
        ),
    decreases count,
{
    reveal_with_fuel(reports_kept, 2);
    if count > 1 {
        lemma_reports_kept_first(check, reports, (count - 1) as nat);
        assert(reports.drop_first()[count - 2] == reports[count - 1]);
    }
}

/// A run succeeds exactly where no step reported anything.
pub proof fn law_run_succeeds(run: CheckRunView, reports: Seq<Seq<AnalyzerError>>)
    requires
        run.wf(),
        reports.len() == run.step.reports_left(run.sources),
    ensures
        run.outcome(reports) is Ok <==> run.check_error.related.len() == 0 && (forall|i: int|
            0 <= i < reports.len() ==> (#[trigger] reports[i]).len() == 0),
        run.outcome(reports) matches Ok(done) ==> done,
    decreases run.step.steps_left(run.sources),
{
    if run.step is Finish {
    } else if run.step.spec_reports() {
        law_error_kept(run.check_error, reports[0]);
        lemma_with_reports_wf(run.check_error, reports[0]);
        let rest = reports.drop_first();
        if let Ok(next) = run.reported(reports[0]) {
            law_run_succeeds(next, rest);
            assert forall|i: int| 0 <= i < rest.len() implies #[trigger] rest[i] == reports[i
                + 1] by {}
            if forall|i: int| 0 <= i < reports.len() ==> (#[trigger] reports[i]).len() == 0 {
                assert(forall|i: int| 0 <= i < rest.len() ==> (#[trigger] rest[i]).len() == 0);
            }
            if reports[0].len() == 0 && (forall|i: int|
                0 <= i < rest.len() ==> (#[trigger] rest[i]).len() == 0) {
                assert forall|i: int| 0 <= i < reports.len() implies (
                #[trigger] reports[i]).len() == 0 by {
                    if i > 0 {
                        assert(rest[i - 1].len() == 0);
                    }
                }
            }
        } else {
            assert(reports[0].len() != 0);
        }
    } else {
        law_run_succeeds(run.proceeded(), reports);
    }
}

/// A run fails with the first batch of reports that holds an error, and with what was kept up to
/// and with that batch; the steps after it play no part.
pub proof fn law_run_stops(run: CheckRunView, reports: Seq<Seq<AnalyzerError>>, bad: int)
    requires
        run.wf(),
        reports.len() == run.step.reports_left(run.sources),
        0 <= bad < reports.len(),
        !no_errors(reports[bad]),
        forall|i: int| 0 <= i < bad ==> no_errors(#[trigger] reports[i]),
    ensures
        run.outcome(reports) == Err::<bool, CheckErrorView>(
            reports_kept(run.check_error, reports, (bad + 1) as nat),
        ),
    decreases run.step.steps_left(run.sources),
{
    reveal_with_fuel(reports_kept, 2);
    if run.step is Finish {
    } else if run.step.spec_reports() {
        law_error_kept(run.check_error, reports[0]);
        lemma_with_reports_wf(run.check_error, reports[0]);
        if bad > 0 {
            lemma_reports_kept_first(run.check_error, reports, (bad + 1) as nat);
            law_run_stops(run.reported(reports[0])->Ok_0, reports.drop_first(), bad - 1);
        }
    } else {
        law_run_stops(run.proceeded(), reports, bad);
    }
}

/// A run without an error but with a warning goes through all steps, and fails at its end with all
/// that was reported.
pub proof fn law_run_warnings(run: CheckRunView, reports: Seq<Seq<AnalyzerError>>, some: int)
    requires
        run.wf(),
        reports.len() == run.step.reports_left(run.sources),
        forall|i: int| 0 <= i < reports.len() ==> no_errors(#[trigger] reports[i]),
        run.check_error.related.len() != 0 || 0 <= some < reports.len() && reports[some].len()
            != 0,
    ensures
        run.outcome(reports) == Err::<bool, CheckErrorView>(
            reports_kept(run.check_error, reports, reports.len()),
        ),
        reports_kept(run.check_error, reports, reports.len()).related == run.check_error.related
            + reports.flatten(),
    decreases run.step.steps_left(run.sources),
{
    reveal_with_fuel(reports_kept, 2);
    if run.step is Finish {
        assert(reports =~= Seq::empty());
        assert(reports.flatten() =~= Seq::empty());
    } else if run.step.spec_reports() {
        law_error_kept(run.check_error, reports[0]);
        lemma_with_reports_wf(run.check_error, reports[0]);
        lemma_reports_kept_first(run.check_error, reports, reports.len());
        let next = run.reported(reports[0])->Ok_0;
        let rest = reports.drop_first();
        assert(0 < some < reports.len() ==> rest[some - 1] == reports[some]);
        law_run_warnings(next, rest, some - 1);
        assert(reports.flatten() == reports[0] + rest.flatten());
        assert(run.check_error.related + (reports[0] + rest.flatten()) =~= (run.check_error.related
            + reports[0]) + rest.flatten());
    } else {
        law_run_warnings(run.proceeded(), reports, some);
    }
}

/// The step with this number in a run over so many sources that meets no error: each source is read
/// and analysed in the first pass and then kept, one after the other; what is common to them is
/// analysed; then come the second passes in the order of the sources, what they found is gathered,
/// and then come the third passes.
pub open spec fn step_at(sources: int, k: int) -> CheckStep {
    if k < 2 * sources {
        if k % 2 == 0 {
            CheckStep::AnalyzePass1 { source: (k / 2) as usize }
        } else {
            CheckStep::KeepContext { source: (k / 2) as usize }
        }
    } else if k == 2 * sources {
        CheckStep::AnalyzePostPass1
    } else if k < 3 * sources + 1 {
        CheckStep::AnalyzePass2 { source: (k - 2 * sources - 1) as usize }
    } else if k == 3 * sources + 1 {
        CheckStep::AnalyzePostPass2
    } else if k < 4 * sources + 2 {
        CheckStep::AnalyzePass3 { source: (k - 3 * sources - 2) as usize }
    } else {
        CheckStep::Finish
    }
}

/// These are the states of a run from its beginning, each after a step that met no error.
pub open spec fn is_progress(runs: Seq<CheckRunView>) -> bool {
    &&& runs.len() > 0
    &&& runs[0].wf()
    &&& runs[0].step == CheckStep::first(runs[0].sources)
    &&& forall|k: int| 0 <= k < runs.len() - 1 ==> #[trigger] is_next_run(runs, k)
}

/// The state behind this one comes after its step was done, or after reports came in.
pub open spec fn is_next_run(runs: Seq<CheckRunView>, k: int) -> bool {
    ||| runs[k + 1] == runs[k].proceeded()
    ||| exists|reports: Seq<AnalyzerError>| #[trigger]
        runs[k].reported(reports) == Ok::<CheckRunView, CheckErrorView>(runs[k + 1])
}

proof fn lemma_step_at(sources: nat, k: int)
    requires
        0 <= k,
        sources <= usize::MAX,
    ensures
        step_at(sources as int, k).next(sources) == step_at(sources as int, k + 1),
        CheckStep::first(sources) == step_at(sources as int, 0),
{
    if k < 2 * sources {
        let source = k / 2;
        assert(k == 2 * source + k % 2);
        assert((k + 1) / 2 == if k % 2 == 0 { source } else { source + 1 });
    }
}

/// A run goes through exactly these steps, however many sources there are, as long as it meets no
/// error.
pub proof fn law_run_steps(runs: Seq<CheckRunView>, k: int)
    requires
        is_progress(runs),
        0 <= k < runs.len(),
    ensures
        runs[k].step == step_at(runs[0].sources as int, k),
        runs[k].sources == runs[0].sources,
    decreases k,
{
    if k > 0 {
        law_run_steps(runs, k - 1);
        let before = runs[k - 1];
        assert(is_next_run(runs, k - 1));
        assert(runs[k].step == before.step.next(before.sources) && runs[k].sources
            == before.sources);
        lemma_step_at(runs[0].sources, k - 1);
    } else {
        lemma_step_at(runs[0].sources, 0);
    }
}

/// A third pass comes after what the second passes found was gathered, a second pass after all
/// sources were kept and what is common to them was analysed, and a source is kept right after its
/// first pass.
pub proof fn law_run_order(runs: Seq<CheckRunView>, k: int)
    requires
        is_progress(runs),
        0 <= k < runs.len(),
    ensures
        runs[k].step is AnalyzePass3 ==> exists|j: int|
            0 <= j < k && (#[trigger] runs[j]).step == CheckStep::AnalyzePostPass2,
        runs[k].step is AnalyzePass2 ==> (forall|source: usize|
            source < runs[0].sources ==> exists|j: int|
                0 <= j < k && (#[trigger] runs[j]).step == #[trigger] keep_of(source)),
        runs[k].step is AnalyzePass2 ==> exists|j: int|
            0 <= j < k && (#[trigger] runs[j]).step == CheckStep::AnalyzePostPass1,
        runs[k].step matches CheckStep::KeepContext { source } ==> k > 0 && runs[k - 1].step == (
        CheckStep::AnalyzePass1 { source }),
        runs[k].step is Finish ==> k >= 4 * runs[0].sources + 2,
{
    let n = runs[0].sources as int;
    law_run_steps(runs, k);
    if runs[k].step is AnalyzePass3 {
        law_run_steps(runs, 3 * n + 1);
        assert(runs[3 * n + 1].step == CheckStep::AnalyzePostPass2);
    }
    if runs[k].step is AnalyzePass2 {
        law_run_steps(runs, 2 * n);
        assert(runs[2 * n].step == CheckStep::AnalyzePostPass1);
        assert forall|source: usize| source < n implies exists|j: int|
            0 <= j < k && (#[trigger] runs[j]).step == #[trigger] keep_of(source) by {
            law_run_steps(runs, 2 * source + 1);
            assert(runs[2 * source + 1].step == keep_of(source));
        }
    }
    if runs[k].step is KeepContext {
        law_run_steps(runs, k - 1);
    }
}

pub open spec fn keep_of(source: usize) -> CheckStep {
    CheckStep::KeepContext { source }
}

/// Reports come of the three passes and of what is analysed between the first two, and of nothing
/// else.
pub proof fn law_reporting_steps(step: CheckStep)
    ensures
        step.spec_reports() <==> step is AnalyzePass1 || step is AnalyzePostPass1
            || step is AnalyzePass2 || step is AnalyzePass3,
{
}

/// A run goes on after reports exactly where none of them is an error, and then has kept all of them;
/// it ends with what was kept else.
pub proof fn law_report_outcome(run: CheckRunView, reports: Seq<AnalyzerError>)
    requires
        run.wf(),
    ensures
        run.reported(reports) is Ok <==> (forall|i: int|
            0 <= i < reports.len() ==> !(#[trigger] reports[i]).spec_is_error()),
        run.reported(reports) matches Ok(next) ==> next.check_error.related
            == run.check_error.related + reports && next.wf(),
        run.reported(reports) matches Err(check) ==> check.related.len() > 0 && check
            == run.check_error.with_reports(reports),
{
    law_error_kept(run.check_error, reports);
    lemma_with_reports_wf(run.check_error, reports);
}

} // verus!
