use sqlness::config::Config;
use sqlness::discovery::{DirEntry, WalkEntry};
use sqlness::error::SqlnessError;
use sqlness::report::{CaseFailure, CaseOutcome, RunReport};
use sqlness::runner::{Action, ConfigFile, Event, Phase, Run, Runner};

fn config(fail_fast: bool) -> Config {
    Config {
        case_dir: "cases".to_string(),
        env_config_file: "config.toml".to_string(),
        fail_fast,
        test_case_extension: "sql".to_string(),
        expect_result_extension: "result".to_string(),
        output_result_extension: "output".to_string(),
        test_filter: String::new(),
    }
}

fn runner(fail_fast: bool) -> Runner<()> {
    Runner::new_with_config(config(fail_fast), ()).unwrap()
}

fn dir(name: &str) -> DirEntry {
    DirEntry { name: name.to_string(), is_dir: true }
}

fn file(name: &str) -> DirEntry {
    DirEntry { name: name.to_string(), is_dir: false }
}

fn walked(paths: &[&str]) -> Event {
    Event::CasesWalked(
        paths.iter().map(|p| WalkEntry { path: Some(p.to_string()), is_file: true }).collect(),
    )
}

fn read(expected: &str, actual: &str) -> Event {
    Event::ResultsRead {
        expected: Ok(expected.as_bytes().to_vec()),
        actual: Ok(actual.as_bytes().to_vec()),
    }
}

fn execute(case: &str) -> Action {
    Action::ExecuteCase {
        case_file: format!("{}.sql", case),
        output_file: format!("{}.output", case),
    }
}

fn read_results(case: &str) -> Action {
    Action::ReadResults {
        expected_file: format!("{}.result", case),
        output_file: format!("{}.output", case),
    }
}

fn remove_output(case: &str) -> Action {
    Action::RemoveOutput { output_file: format!("{}.output", case) }
}

fn stop(env: &str) -> Action {
    Action::StopBackend { env: env.to_string() }
}

/// Takes a run to the first case of its first environment.
fn enter(run: &mut Run, envs: &[&str], cases: &[&str]) {
    let entries = envs.iter().map(|e| dir(e)).collect();
    assert_eq!(run.advance(Event::Environments(Ok(entries)), 0), None);
    enter_next(run, cases);
}

/// Takes a run that has turned to an environment to that environment's first
/// case.
fn enter_next(run: &mut Run, cases: &[&str]) {
    assert_eq!(run.phase(), Phase::Probing);
    assert_eq!(run.advance(Event::ConfigProbed(false), 0), None);
    assert_eq!(run.advance(Event::BackendStarted(Ok(())), 0), None);
    assert_eq!(run.advance(walked(cases), 0), None);
}

/// Lets the current case match.
fn pass(run: &mut Run) {
    assert_eq!(run.advance(Event::CaseExecuted(Ok(())), 0), None);
    assert_eq!(run.advance(read("1\n", "1\n"), 0), None);
    assert_eq!(run.advance(Event::OutputRemoved(Ok(())), 0), Some(CaseOutcome::Matched));
}

/// Lets the current case diverge.
fn diverge(run: &mut Run) {
    assert_eq!(run.advance(Event::CaseExecuted(Ok(())), 0), None);
    assert_eq!(run.advance(read("1\n", "2\n"), 0), Some(CaseOutcome::Diverged));
}

/// Lets the execution of the current case fail.
fn fail(run: &mut Run, reason: &str) {
    assert_eq!(
        run.advance(Event::CaseExecuted(Err(reason.to_string())), 0),
        Some(CaseOutcome::Failed(SqlnessError::CaseExecutionFailed { reason: reason.to_string() }))
    );
}

fn clean_report(env: &str) -> RunReport {
    RunReport {
        env: env.to_string(),
        diverged: vec![],
        failed: vec![],
        aborted: None,
        backend_error: None,
        elapsed_ms: 0,
    }
}

#[test]
fn new_with_config_keeps_the_configuration() {
    let runner = Runner::new_with_config(config(true), 7u8).unwrap();
    assert_eq!(*runner.config(), config(true));
    assert_eq!(*runner.env_controller(), 7u8);
}

#[test]
fn try_new_with_a_parsed_configuration() {
    let runner =
        Runner::try_new("sqlness.toml".to_string(), ConfigFile::Parsed(config(false)), ()).unwrap();
    assert_eq!(*runner.config(), config(false));
}

#[test]
fn try_new_with_an_unreadable_file() {
    let loaded = ConfigFile::Unreadable { reason: "No such file".to_string() };
    match Runner::try_new("sqlness.toml".to_string(), loaded, ()) {
        Err(error) => assert_eq!(
            error,
            SqlnessError::ConfigUnreadable {
                path: "sqlness.toml".to_string(),
                reason: "No such file".to_string(),
            }
        ),
        Ok(_) => panic!("a runner without a configuration"),
    }
}

#[test]
fn try_new_with_a_malformed_file() {
    let loaded = ConfigFile::Malformed { reason: "expected a table".to_string() };
    match Runner::try_new("sqlness.toml".to_string(), loaded, ()) {
        Err(error) => assert_eq!(
            error,
            SqlnessError::ConfigMalformed {
                file: "sqlness.toml".to_string(),
                reason: "expected a table".to_string(),
            }
        ),
        Ok(_) => panic!("a runner without a configuration"),
    }
}

#[test]
fn a_run_begins_by_listing_the_case_root() {
    let runner = runner(true);
    let run = runner.run();
    assert_eq!(run.phase(), Phase::Listing);
    assert!(!run.is_finished());
    assert_eq!(run.action(), Action::ListEnvironments { root: "cases".to_string() });
    assert!(run.reports().is_empty());
    assert_eq!(run.error_count(), 0);
    assert_eq!(run.result(), Ok(()));
}

#[test]
fn a_case_that_matches_leaves_no_output_behind() {
    let runner = runner(true);
    let mut run = runner.run();
    assert_eq!(run.advance(Event::Environments(Ok(vec![dir("basic")])), 0), None);
    assert_eq!(
        run.action(),
        Action::ProbeEnvConfig { path: "cases/basic/config.toml".to_string() }
    );
    assert_eq!(run.advance(Event::ConfigProbed(false), 0), None);
    assert_eq!(run.action(), Action::StartBackend { env: "basic".to_string(), config: None });
    assert_eq!(run.advance(Event::BackendStarted(Ok(())), 0), None);
    assert_eq!(run.action(), Action::WalkCases { root: "cases/basic".to_string() });
    let entries = Event::CasesWalked(vec![
        WalkEntry { path: Some("cases/basic".to_string()), is_file: false },
        WalkEntry { path: Some("cases/basic/select_1.result".to_string()), is_file: true },
        WalkEntry { path: Some("cases/basic/select_1.sql".to_string()), is_file: true },
    ]);
    assert_eq!(run.advance(entries, 100), None);
    assert_eq!(run.action(), execute("cases/basic/select_1"));
    assert_eq!(run.advance(Event::CaseExecuted(Ok(())), 110), None);
    assert_eq!(run.action(), read_results("cases/basic/select_1"));
    assert_eq!(run.advance(read("1\n", "1\n"), 120), None);
    assert_eq!(run.action(), remove_output("cases/basic/select_1"));
    assert_eq!(run.advance(Event::OutputRemoved(Ok(())), 130), Some(CaseOutcome::Matched));
    assert_eq!(run.action(), stop("basic"));
    assert_eq!(
        *run.reports(),
        vec![RunReport { elapsed_ms: 30, ..clean_report("basic") }]
    );
    assert_eq!(run.reports()[0].error_count(), 0);
    assert_eq!(run.reports()[0].status(), Ok(()));
    assert_eq!(run.advance(Event::BackendStopped(Ok(())), 140), None);
    assert_eq!(run.action(), Action::Finished);
    assert!(run.is_finished());
    assert_eq!(run.error_count(), 0);
    assert_eq!(run.result(), Ok(()));
}

#[test]
fn a_case_that_diverges_keeps_its_output() {
    let runner = runner(true);
    let mut run = runner.run();
    enter(&mut run, &["basic"], &["cases/basic/select_1.sql"]);
    assert_eq!(run.action(), execute("cases/basic/select_1"));
    assert_eq!(run.advance(Event::CaseExecuted(Ok(())), 0), None);
    assert_eq!(run.advance(read("1\n", "2\n"), 0), Some(CaseOutcome::Diverged));
    assert_eq!(run.action(), stop("basic"));
    assert_eq!(
        *run.reports(),
        vec![RunReport {
            diverged: vec!["cases/basic/select_1".to_string()],
            ..clean_report("basic")
        }]
    );
    assert_eq!(run.reports()[0].error_count(), 1);
    assert_eq!(run.reports()[0].status(), Err(SqlnessError::RunFailed { count: 1 }));
    assert_eq!(run.advance(Event::BackendStopped(Ok(())), 0), None);
    assert!(run.is_finished());
    assert_eq!(run.error_count(), 1);
    assert_eq!(run.result(), Err(SqlnessError::RunFailed { count: 1 }));
}

#[test]
fn an_environment_without_cases_is_reported_clean() {
    let runner = runner(true);
    let mut run = runner.run();
    enter(&mut run, &["empty"], &["cases/empty/README.md", "cases/empty/notes.result"]);
    assert_eq!(run.action(), stop("empty"));
    assert_eq!(*run.reports(), vec![clean_report("empty")]);
    assert_eq!(run.advance(Event::BackendStopped(Ok(())), 5), None);
    assert!(run.is_finished());
    assert_eq!(run.result(), Ok(()));
}

#[test]
fn a_run_without_environments_is_over_at_once() {
    let runner = runner(true);
    let mut run = runner.run();
    assert_eq!(run.advance(Event::Environments(Ok(vec![file("README.md")])), 0), None);
    assert!(run.is_finished());
    assert_eq!(run.action(), Action::Finished);
    assert!(run.reports().is_empty());
    assert_eq!(run.result(), Ok(()));
}

#[test]
fn a_case_root_that_cannot_be_listed_ends_the_run() {
    let runner = runner(true);
    let mut run = runner.run();
    assert_eq!(run.advance(Event::Environments(Err("Not a directory".to_string())), 0), None);
    assert!(run.is_finished());
    assert_eq!(run.action(), Action::Finished);
    assert_eq!(
        run.result(),
        Err(SqlnessError::EnvironmentRootUnreadable { reason: "Not a directory".to_string() })
    );
}

#[test]
fn the_backend_configuration_is_handed_on_where_it_exists() {
    let runner = runner(true);
    let mut run = runner.run();
    run.advance(Event::Environments(Ok(vec![dir("local")])), 0);
    assert_eq!(
        run.action(),
        Action::ProbeEnvConfig { path: "cases/local/config.toml".to_string() }
    );
    run.advance(Event::ConfigProbed(true), 0);
    assert_eq!(
        run.action(),
        Action::StartBackend {
            env: "local".to_string(),
            config: Some("cases/local/config.toml".to_string()),
        }
    );
}

#[test]
fn cases_run_in_order_and_every_outcome_is_noted() {
    let runner = runner(false);
    let mut run = runner.run();
    enter(
        &mut run,
        &["basic"],
        &["cases/basic/d.sql", "cases/basic/B.sql", "cases/basic/a.sql", "cases/basic/c.sql"],
    );
    assert_eq!(run.action(), execute("cases/basic/a"));
    diverge(&mut run);
    assert_eq!(run.action(), execute("cases/basic/B"));
    fail(&mut run, "connection lost");
    assert_eq!(run.action(), execute("cases/basic/c"));
    pass(&mut run);
    assert_eq!(run.action(), execute("cases/basic/d"));
    diverge(&mut run);
    assert_eq!(run.action(), stop("basic"));
    let report = &run.reports()[0];
    assert_eq!(report.diverged, vec!["cases/basic/a".to_string(), "cases/basic/d".to_string()]);
    assert_eq!(
        report.failed,
        vec![CaseFailure {
            case: "cases/basic/B".to_string(),
            error: SqlnessError::CaseExecutionFailed { reason: "connection lost".to_string() },
        }]
    );
    assert_eq!(report.aborted, None);
    assert_eq!(report.error_count(), 3);
    assert_eq!(report.status(), Err(SqlnessError::RunFailed { count: 3 }));
}

#[test]
fn fail_fast_ends_the_environment_at_the_first_failure() {
    let runner = runner(true);
    let mut run = runner.run();
    enter(
        &mut run,
        &["first", "second"],
        &["cases/first/a.sql", "cases/first/b.sql", "cases/first/c.sql"],
    );
    diverge(&mut run);
    assert_eq!(run.action(), execute("cases/first/b"));
    fail(&mut run, "syntax error");
    assert_eq!(run.action(), stop("first"));
    let report = &run.reports()[0];
    let failure = || CaseFailure {
        case: "cases/first/b".to_string(),
        error: SqlnessError::CaseExecutionFailed { reason: "syntax error".to_string() },
    };
    assert_eq!(report.diverged, vec!["cases/first/a".to_string()]);
    assert_eq!(report.failed, vec![failure()]);
    assert_eq!(report.aborted, Some(failure()));
    assert_eq!(report.error_count(), 2);
    assert_eq!(report.status(), Err(SqlnessError::RunFailed { count: 2 }));
    assert_eq!(run.advance(Event::BackendStopped(Ok(())), 0), None);
    assert_eq!(
        run.action(),
        Action::ProbeEnvConfig { path: "cases/second/config.toml".to_string() }
    );
    enter_next(&mut run, &["cases/second/x.sql"]);
    assert_eq!(run.action(), execute("cases/second/x"));
    pass(&mut run);
    assert_eq!(run.action(), stop("second"));
    assert_eq!(run.advance(Event::BackendStopped(Ok(())), 0), None);
    assert!(run.is_finished());
    assert_eq!(run.reports().len(), 2);
    assert_eq!(run.reports()[1], clean_report("second"));
    assert_eq!(run.error_count(), 2);
    assert_eq!(run.result(), Err(SqlnessError::RunFailed { count: 2 }));
}

#[test]
fn a_failure_under_fail_fast_never_leaves_the_run_a_success() {
    let runner = runner(true);
    let mut run = runner.run();
    enter(&mut run, &["basic"], &["cases/basic/a.sql", "cases/basic/b.sql"]);
    fail(&mut run, "boom");
    assert_eq!(run.action(), stop("basic"));
    let report = &run.reports()[0];
    assert!(report.diverged.is_empty());
    assert_eq!(report.failed.len(), 1);
    assert_eq!(report.failed[0].case, "cases/basic/a");
    assert_eq!(report.aborted, Some(CaseFailure {
        case: "cases/basic/a".to_string(),
        error: SqlnessError::CaseExecutionFailed { reason: "boom".to_string() },
    }));
    assert_eq!(report.error_count(), 1);
    assert_eq!(report.status(), Err(SqlnessError::RunFailed { count: 1 }));
    run.advance(Event::BackendStopped(Ok(())), 0);
    assert!(run.is_finished());
    assert_eq!(run.result(), Err(SqlnessError::RunFailed { count: 1 }));
}

#[test]
fn fail_fast_does_not_end_the_environment_at_a_divergence() {
    let runner = runner(true);
    let mut run = runner.run();
    enter(&mut run, &["basic"], &["cases/basic/a.sql", "cases/basic/b.sql"]);
    diverge(&mut run);
    assert_eq!(run.action(), execute("cases/basic/b"));
    diverge(&mut run);
    assert_eq!(run.action(), stop("basic"));
    assert_eq!(run.reports()[0].diverged.len(), 2);
    assert_eq!(run.reports()[0].aborted, None);
}

#[test]
fn output_that_cannot_be_read_fails_the_case() {
    let runner = runner(false);
    let mut run = runner.run();
    enter(&mut run, &["basic"], &["cases/basic/a.sql", "cases/basic/b.sql", "cases/basic/c.sql"]);
    run.advance(Event::CaseExecuted(Ok(())), 0);
    let missing = Event::ResultsRead {
        expected: Err("No such file".to_string()),
        actual: Ok(b"1\n".to_vec()),
    };
    assert_eq!(
        run.advance(missing, 0),
        Some(CaseOutcome::Failed(SqlnessError::ComparisonIOFailed {
            reason: "No such file".to_string()
        }))
    );
    assert_eq!(run.action(), execute("cases/basic/b"));
    run.advance(Event::CaseExecuted(Ok(())), 0);
    let not_text = Event::ResultsRead { expected: Ok(b"1\n".to_vec()), actual: Ok(vec![0xff]) };
    assert_eq!(run.advance(not_text, 0), Some(CaseOutcome::Failed(SqlnessError::NonUTF8Output)));
    assert_eq!(run.action(), execute("cases/basic/c"));
    run.advance(Event::CaseExecuted(Ok(())), 0);
    run.advance(read("1\n", "1\n"), 0);
    assert_eq!(run.action(), remove_output("cases/basic/c"));
    assert_eq!(
        run.advance(Event::OutputRemoved(Err("busy".to_string())), 0),
        Some(CaseOutcome::Failed(SqlnessError::OutputRemovalFailed { reason: "busy".to_string() }))
    );
    assert_eq!(run.action(), stop("basic"));
    let report = &run.reports()[0];
    assert!(report.diverged.is_empty());
    assert_eq!(
        report.failed,
        vec![
            CaseFailure {
                case: "cases/basic/a".to_string(),
                error: SqlnessError::ComparisonIOFailed { reason: "No such file".to_string() },
            },
            CaseFailure { case: "cases/basic/b".to_string(), error: SqlnessError::NonUTF8Output },
            CaseFailure {
                case: "cases/basic/c".to_string(),
                error: SqlnessError::OutputRemovalFailed { reason: "busy".to_string() },
            },
        ]
    );
    assert_eq!(report.error_count(), 3);
}

#[test]
fn equal_bytes_that_are_not_text_fail_the_case() {
    let runner = runner(false);
    let mut run = runner.run();
    enter(&mut run, &["basic"], &["cases/basic/a.sql"]);
    run.advance(Event::CaseExecuted(Ok(())), 0);
    let same = Event::ResultsRead { expected: Ok(vec![0xff, 0x00]), actual: Ok(vec![0xff, 0x00]) };
    assert_eq!(run.advance(same, 0), Some(CaseOutcome::Failed(SqlnessError::NonUTF8Output)));
    assert_eq!(run.action(), stop("basic"));
}

#[test]
fn a_backend_that_does_not_start_fails_its_environment_only() {
    let runner = runner(true);
    let mut run = runner.run();
    run.advance(Event::Environments(Ok(vec![dir("broken"), dir("basic")])), 0);
    run.advance(Event::ConfigProbed(false), 0);
    assert_eq!(run.action(), Action::StartBackend { env: "broken".to_string(), config: None });
    assert_eq!(run.advance(Event::BackendStarted(Err("address in use".to_string())), 0), None);
    assert_eq!(
        *run.reports(),
        vec![RunReport {
            backend_error: Some(SqlnessError::BackendStartFailed {
                reason: "address in use".to_string()
            }),
            ..clean_report("broken")
        }]
    );
    assert_eq!(
        run.action(),
        Action::ProbeEnvConfig { path: "cases/basic/config.toml".to_string() }
    );
    enter_next(&mut run, &["cases/basic/a.sql"]);
    pass(&mut run);
    assert_eq!(run.action(), stop("basic"));
    run.advance(Event::BackendStopped(Ok(())), 0);
    assert!(run.is_finished());
    assert_eq!(run.reports().len(), 2);
}

#[test]
fn a_backend_that_does_not_stop_is_reported_and_the_run_goes_on() {
    let runner = runner(true);
    let mut run = runner.run();
    enter(&mut run, &["first", "second"], &["cases/first/a.sql"]);
    diverge(&mut run);
    assert_eq!(run.action(), stop("first"));
    assert_eq!(run.advance(Event::BackendStopped(Err("timed out".to_string())), 0), None);
    assert_eq!(
        run.reports()[0],
        RunReport {
            diverged: vec!["cases/first/a".to_string()],
            backend_error: Some(SqlnessError::BackendStopFailed {
                reason: "timed out".to_string()
            }),
            ..clean_report("first")
        }
    );
    assert_eq!(
        run.action(),
        Action::ProbeEnvConfig { path: "cases/second/config.toml".to_string() }
    );
    assert_eq!(run.error_count(), 1);
}

#[test]
fn an_event_that_answers_nothing_changes_nothing() {
    let runner = runner(true);
    let mut run = runner.run();
    assert_eq!(run.advance(Event::BackendStopped(Ok(())), 0), None);
    assert_eq!(run.advance(Event::CaseExecuted(Err("x".to_string())), 0), None);
    assert_eq!(run.action(), Action::ListEnvironments { root: "cases".to_string() });
    enter(&mut run, &["basic"], &["cases/basic/a.sql"]);
    assert_eq!(run.advance(Event::OutputRemoved(Ok(())), 0), None);
    assert_eq!(run.advance(read("1\n", "2\n"), 0), None);
    assert_eq!(run.advance(Event::BackendStopped(Ok(())), 0), None);
    assert_eq!(run.advance(Event::Environments(Ok(vec![dir("other")])), 0), None);
    assert_eq!(run.action(), execute("cases/basic/a"));
    assert!(run.reports().is_empty());
    pass(&mut run);
    assert_eq!(run.action(), stop("basic"));
    assert_eq!(run.advance(Event::CaseExecuted(Ok(())), 0), None);
    assert_eq!(run.advance(walked(&["cases/basic/b.sql"]), 0), None);
    assert_eq!(run.action(), stop("basic"));
    run.advance(Event::BackendStopped(Ok(())), 0);
    assert!(run.is_finished());
    assert_eq!(run.advance(Event::Environments(Ok(vec![dir("again")])), 0), None);
    assert_eq!(run.action(), Action::Finished);
    assert_eq!(run.reports().len(), 1);
}

#[test]
fn the_time_of_an_environment_runs_from_its_walk_to_its_last_case() {
    let runner = runner(false);
    let mut run = runner.run();
    run.advance(Event::Environments(Ok(vec![dir("basic")])), 1_000);
    run.advance(Event::ConfigProbed(false), 2_000);
    run.advance(Event::BackendStarted(Ok(())), 3_000);
    run.advance(walked(&["cases/basic/a.sql", "cases/basic/b.sql"]), 10_000);
    run.advance(Event::CaseExecuted(Ok(())), 10_400);
    run.advance(read("1\n", "2\n"), 10_500);
    run.advance(Event::CaseExecuted(Err("boom".to_string())), 12_345);
    assert_eq!(run.action(), stop("basic"));
    assert_eq!(run.reports()[0].elapsed_ms, 2_345);
}

#[test]
fn a_clock_that_goes_back_gives_no_time() {
    let runner = runner(false);
    let mut run = runner.run();
    run.advance(Event::Environments(Ok(vec![dir("basic")])), 0);
    run.advance(Event::ConfigProbed(false), 0);
    run.advance(Event::BackendStarted(Ok(())), 0);
    run.advance(walked(&["cases/basic/a.sql"]), 500);
    run.advance(Event::CaseExecuted(Err("boom".to_string())), 400);
    assert_eq!(run.reports()[0].elapsed_ms, 0);
}

#[test]
fn the_run_counts_the_cases_of_all_environments() {
    let runner = runner(false);
    let mut run = runner.run();
    enter(&mut run, &["one", "two", "three"], &["cases/one/a.sql", "cases/one/b.sql"]);
    diverge(&mut run);
    fail(&mut run, "boom");
    run.advance(Event::BackendStopped(Ok(())), 0);
    enter_next(&mut run, &["cases/two/a.sql"]);
    pass(&mut run);
    run.advance(Event::BackendStopped(Ok(())), 0);
    enter_next(&mut run, &["cases/three/a.sql", "cases/three/b.sql"]);
    diverge(&mut run);
    assert_eq!(run.error_count(), 2);
    diverge(&mut run);
    assert_eq!(run.error_count(), 4);
    run.advance(Event::BackendStopped(Ok(())), 0);
    assert!(run.is_finished());
    let counts: Vec<u128> = run.reports().iter().map(|r| r.error_count()).collect();
    assert_eq!(counts, vec![2, 0, 2]);
    assert_eq!(run.result(), Err(SqlnessError::RunFailed { count: 4 }));
}

#[test]
fn a_case_with_dots_in_its_name_is_run_from_its_own_file() {
    let runner = runner(false);
    let mut run = runner.run();
    enter(&mut run, &["basic"], &["cases/basic/a.c.sql", "cases/basic/a.b.sql"]);
    assert_eq!(
        run.action(),
        Action::ExecuteCase {
            case_file: "cases/basic/a.b.sql".to_string(),
            output_file: "cases/basic/a.b.output".to_string(),
        }
    );
    run.advance(Event::CaseExecuted(Ok(())), 0);
    assert_eq!(
        run.action(),
        Action::ReadResults {
            expected_file: "cases/basic/a.b.result".to_string(),
            output_file: "cases/basic/a.b.output".to_string(),
        }
    );
    run.advance(read("1\n", "1\n"), 0);
    assert_eq!(
        run.action(),
        Action::RemoveOutput { output_file: "cases/basic/a.b.output".to_string() }
    );
    run.advance(Event::OutputRemoved(Ok(())), 0);
    assert_eq!(
        run.action(),
        Action::ExecuteCase {
            case_file: "cases/basic/a.c.sql".to_string(),
            output_file: "cases/basic/a.c.output".to_string(),
        }
    );
}

#[test]
fn a_directory_with_the_case_extension_is_not_run() {
    let runner = runner(true);
    let mut run = runner.run();
    run.advance(Event::Environments(Ok(vec![dir("basic")])), 0);
    run.advance(Event::ConfigProbed(false), 0);
    run.advance(Event::BackendStarted(Ok(())), 0);
    let entries = Event::CasesWalked(vec![
        WalkEntry { path: Some("cases/basic/d.sql".to_string()), is_file: false },
    ]);
    run.advance(entries, 0);
    assert_eq!(run.action(), stop("basic"));
    assert_eq!(*run.reports(), vec![clean_report("basic")]);
}

#[test]
fn error_duplicate_is_the_same_error() {
    let errors = vec![
        SqlnessError::ConfigUnreadable { path: "p".to_string(), reason: "r".to_string() },
        SqlnessError::ConfigMalformed { file: "f".to_string(), reason: "r".to_string() },
        SqlnessError::EnvironmentRootUnreadable { reason: "r".to_string() },
        SqlnessError::BackendStartFailed { reason: "r".to_string() },
        SqlnessError::BackendStopFailed { reason: "r".to_string() },
        SqlnessError::CaseExecutionFailed { reason: "r".to_string() },
        SqlnessError::ComparisonIOFailed { reason: "r".to_string() },
        SqlnessError::NonUTF8Output,
        SqlnessError::OutputRemovalFailed { reason: "r".to_string() },
        SqlnessError::RunFailed { count: 3 },
    ];
    for error in &errors {
        assert_eq!(error.duplicate(), *error);
    }
}

#[test]
fn config_resolves_the_files_of_a_case() {
    let config = config(true);
    assert_eq!(config.env_dir("basic"), "cases/basic");
    assert_eq!(config.read_env_config("basic"), "cases/basic/config.toml");
    assert_eq!(config.case_file("cases/basic/select_1"), "cases/basic/select_1.sql");
    assert_eq!(config.case_file("cases/basic/a.b"), "cases/basic/a.b.sql");
    assert_eq!(config.expect_file("cases/basic/a.b"), "cases/basic/a.b.result");
    assert_eq!(config.output_file("cases/basic/a.b"), "cases/basic/a.b.output");
    assert_eq!(config.expect_file("cases/basic/select_1"), "cases/basic/select_1.result");
    assert_eq!(config.output_file("cases/basic/select_1"), "cases/basic/select_1.output");
}
