use veryl_analysis::analyzer_error::AnalyzerError;
use veryl_analysis::check_run::{CheckRun, CheckStep};
use veryl_analysis::cmd_check::{CheckError, CmdCheck, OptCheck};
use veryl_analysis::symbol::{Token, TokenSource};

fn error(message: &str) -> AnalyzerError {
    AnalyzerError::Other { message: message.to_string(), is_error: true }
}

fn warning(message: &str) -> AnalyzerError {
    AnalyzerError::Other { message: message.to_string(), is_error: false }
}

/// The steps of a run in which nothing is reported, as far as it goes.
fn steps(mut run: CheckRun) -> Vec<CheckStep> {
    let mut steps = vec![];
    loop {
        let step = run.step();
        steps.push(step);
        run = match step {
            CheckStep::Finish => return steps,
            CheckStep::KeepContext { .. } | CheckStep::AnalyzePostPass2 => run.proceed(),
            _ => run.report(vec![]).unwrap(),
        };
    }
}

/// What comes of a run in which these reports come of the steps of which reports come.
fn outcome(mut run: CheckRun, reports: Vec<Vec<AnalyzerError>>) -> Result<bool, Vec<AnalyzerError>> {
    let mut reports = reports.into_iter();
    loop {
        run = match run.step() {
            CheckStep::Finish => return run.finish().map_err(|x| x.related),
            CheckStep::KeepContext { .. } | CheckStep::AnalyzePostPass2 => run.proceed(),
            _ => match run.report(reports.next().unwrap()) {
                Ok(run) => run,
                Err(check_error) => return Err(check_error.related),
            },
        };
    }
}

#[test]
fn own_reports_are_errors() {
    let token = Token { text: "x".to_string(), line: 1, column: 1, source: TokenSource::Builtin };
    let text = "x".to_string();
    let reports = vec![
        AnalyzerError::CyclicTypeDependency {
            start: text.clone(),
            end: text.clone(),
            token: token.clone(),
        },
        AnalyzerError::IncludeFailure {
            name: text.clone(),
            cause: text.clone(),
            token: token.clone(),
        },
        AnalyzerError::InvalidEmbed {
            way: text.clone(),
            lang: text.clone(),
            token: token.clone(),
        },
        AnalyzerError::UnknownEmbedLang { lang: text.clone(), token: token.clone() },
        AnalyzerError::UnknownEmbedWay { way: text.clone(), token: token.clone() },
        AnalyzerError::UnknownIncludeWay { way: text, token },
        error("x"),
    ];
    assert!(reports.iter().all(|x| x.is_error()));
    assert!(!warning("x").is_error());
}

#[test]
fn without_a_limit_all_reports_are_kept() {
    let mut reports = vec![error("a"), warning("b"), error("c")];
    let check = CheckError::new(0).append(&mut reports);
    assert_eq!(check.related, [error("a"), warning("b"), error("c")]);
    assert!(reports.is_empty());
}

#[test]
fn a_limit_keeps_warnings_and_the_first_errors() {
    let mut reports = vec![error("a"), warning("b"), error("c"), error("d"), warning("e")];
    let check = CheckError::new(2).append(&mut reports);
    assert_eq!(check.related, [error("a"), warning("b"), error("c"), warning("e")]);
}

#[test]
fn a_limit_counts_over_all_batches() {
    let check = CheckError::new(2).append(&mut vec![error("a")]).append(&mut vec![
        warning("b"),
        error("c"),
        error("d"),
    ]);
    let together = CheckError::new(2).append(&mut vec![
        error("a"),
        warning("b"),
        error("c"),
        error("d"),
    ]);
    assert_eq!(check.related, [error("a"), warning("b"), error("c")]);
    assert_eq!(check.related, together.related);
    assert_eq!(check.append(&mut vec![]).related, together.related);
}

#[test]
fn check_err_fails_on_an_error() {
    assert!(CheckError::new(0).check_err().is_ok());
    let check = CheckError::new(0).append(&mut vec![warning("a")]);
    assert_eq!(check.check_err().unwrap().related, [warning("a")]);
    let check = CheckError::new(0).append(&mut vec![warning("a"), error("b")]);
    assert_eq!(check.check_err().unwrap_err().related, [warning("a"), error("b")]);
}

#[test]
fn check_all_fails_on_a_warning() {
    assert!(CheckError::new(3).check_all().unwrap().related.is_empty());
    let check = CheckError::new(3).append(&mut vec![warning("a")]);
    assert_eq!(check.check_all().unwrap_err().related, [warning("a")]);
}

#[test]
fn a_run_goes_through_all_passes() {
    let cmd = CmdCheck::new(OptCheck { files: vec!["a.veryl".to_string()] });
    assert_eq!(cmd.opt.files, ["a.veryl"]);
    assert_eq!(
        steps(cmd.exec(0, 2)),
        [
            CheckStep::AnalyzePass1 { source: 0 },
            CheckStep::KeepContext { source: 0 },
            CheckStep::AnalyzePass1 { source: 1 },
            CheckStep::KeepContext { source: 1 },
            CheckStep::AnalyzePostPass1,
            CheckStep::AnalyzePass2 { source: 0 },
            CheckStep::AnalyzePass2 { source: 1 },
            CheckStep::AnalyzePostPass2,
            CheckStep::AnalyzePass3 { source: 0 },
            CheckStep::AnalyzePass3 { source: 1 },
            CheckStep::Finish,
        ]
    );
}

#[test]
fn a_run_without_sources_still_analyses_what_is_common() {
    let cmd = CmdCheck::new(OptCheck { files: vec![] });
    assert_eq!(
        steps(cmd.exec(0, 0)),
        [CheckStep::AnalyzePostPass1, CheckStep::AnalyzePostPass2, CheckStep::Finish]
    );
}

#[test]
fn a_run_without_reports_succeeds() {
    let cmd = CmdCheck::new(OptCheck { files: vec![] });
    assert_eq!(outcome(cmd.exec(3, 1), vec![vec![], vec![], vec![], vec![]]), Ok(true));
}

#[test]
fn a_run_stops_at_the_first_error() {
    let cmd = CmdCheck::new(OptCheck { files: vec![] });
    let reports = vec![vec![warning("a")], vec![], vec![error("b"), warning("c")], vec![error("d")]];
    assert_eq!(
        outcome(cmd.exec(0, 1), reports),
        Err(vec![warning("a"), error("b"), warning("c")])
    );
}

#[test]
fn a_run_with_warnings_fails_at_its_end() {
    let cmd = CmdCheck::new(OptCheck { files: vec![] });
    let reports = vec![vec![warning("a")], vec![warning("b")], vec![], vec![warning("c")]];
    assert_eq!(
        outcome(cmd.exec(1, 1), reports),
        Err(vec![warning("a"), warning("b"), warning("c")])
    );
}
