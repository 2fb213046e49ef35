//! The run itself, as a machine that decides and leaves the doing to its
//! driver.
//!
//! A `Run` always has one pending `Action`. The driver performs it, in
//! whatever way it reaches the file system and the backend, and hands back
//! the `Event` that tells how it went, together with the reading of a
//! millisecond clock. `Run::advance` takes the event and decides what comes
//! next. An event that does not answer the pending action changes nothing.

use vstd::prelude::*;
use crate::compare::{compare, comparison, read_view};
use crate::config::{Config, ConfigView};
use crate::discovery::{
    cases_of, collect_case_paths, collect_env, environments, found_cases, run_order, DirEntry,
    DirEntryView, WalkEntry, WalkEntryView,
};
use crate::error::{ErrorView, SqlnessError};
use crate::report::{
    status_view, CaseFailure, CaseOutcome, FailureView, OutcomeView, ReportView, RunReport,
};

verus! {

/// Where a run stands: which action is pending.
#[derive(Clone, Copy, Debug, PartialEq, Eq, Structural)]
pub enum Phase {
    /// The environments are being listed.
    Listing,
    /// The backend configuration of the current environment is looked for.
    Probing,
    /// The backend of the current environment is being started.
    Starting,
    /// The cases of the current environment are being looked for.
    Walking,
    /// The current case is being executed.
    Executing,
    /// The two outputs of the current case are being read.
    Reading,
    /// The actual output of the current case is being removed.
    Removing,
    /// The backend of the current environment is being stopped.
    Stopping,
    /// Nothing is left to do.
    Finished,
}

/// What the driver is asked to do.
#[derive(Debug, PartialEq, Eq)]
pub enum Action {
    /// List the entries of the directory `root`.
    ListEnvironments { root: String },
    /// Tell whether the file `path` exists.
    ProbeEnvConfig { path: String },
    /// Start the backend of the environment `env`, with the configuration
    /// file `config` if there is one.
    StartBackend { env: String, config: Option<String> },
    /// Walk through the directory `root` and everything below it.
    WalkCases { root: String },
    /// Read the case that `case_file` defines; create the file
    /// `output_file`, or empty it; execute the case against the backend and
    /// write what it gives into that file; flush and close the file.
    ExecuteCase { case_file: String, output_file: String },
    /// Read the two files in full.
    ReadResults { expected_file: String, output_file: String },
    /// Remove the file `output_file`.
    RemoveOutput { output_file: String },
    /// Stop the backend of the environment `env`.
    StopBackend { env: String },
    /// Nothing: the run is over.
    Finished,
}

/// An `Action` as mathematical values.
pub enum ActionView {
    ListEnvironments { root: Seq<char> },
    ProbeEnvConfig { path: Seq<char> },
    StartBackend { env: Seq<char>, config: Option<Seq<char>> },
    WalkCases { root: Seq<char> },
    ExecuteCase { case_file: Seq<char>, output_file: Seq<char> },
    ReadResults { expected_file: Seq<char>, output_file: Seq<char> },
    RemoveOutput { output_file: Seq<char> },
    StopBackend { env: Seq<char> },
    Finished,
}

impl View for Action {
    type V = ActionView;

    open spec fn view(&self) -> ActionView {
        match self {
            Action::ListEnvironments { root } => ActionView::ListEnvironments { root: root@ },
            Action::ProbeEnvConfig { path } => ActionView::ProbeEnvConfig { path: path@ },
            Action::StartBackend { env, config } => ActionView::StartBackend {
                env: env@,
                config: config.deep_view(),
            },
            Action::WalkCases { root } => ActionView::WalkCases { root: root@ },
            Action::ExecuteCase { case_file, output_file } => ActionView::ExecuteCase {
                case_file: case_file@,
                output_file: output_file@,
            },
            Action::ReadResults { expected_file, output_file } => ActionView::ReadResults {
                expected_file: expected_file@,
                output_file: output_file@,
            },
            Action::RemoveOutput { output_file } => ActionView::RemoveOutput {
                output_file: output_file@,
            },
            Action::StopBackend { env } => ActionView::StopBackend { env: env@ },
            Action::Finished => ActionView::Finished,
        }
    }
}

/// How an action went.
#[derive(Debug, PartialEq, Eq)]
pub enum Event {
    /// The entries of the case root, or why it could not be listed.
    Environments(Result<Vec<DirEntry>, String>),
    /// Whether the backend configuration file exists.
    ConfigProbed(bool),
    /// The backend has started, or why it has not.
    BackendStarted(Result<(), String>),
    /// What the walk found, in the order in which it found it.
    CasesWalked(Vec<WalkEntry>),
    /// The case has been executed and its output written, or why not.
    CaseExecuted(Result<(), String>),
    /// What reading each of the two files gave: its bytes, or why it could
    /// not be read.
    ResultsRead { expected: Result<Vec<u8>, String>, actual: Result<Vec<u8>, String> },
    /// The actual output has been removed, or why not.
    OutputRemoved(Result<(), String>),
    /// The backend has stopped, or why not.
    BackendStopped(Result<(), String>),
}

/// An `Event` as mathematical values.
pub enum EventView {
    Environments(Result<Seq<DirEntryView>, Seq<char>>),
    ConfigProbed(bool),
    BackendStarted(Result<(), Seq<char>>),
    CasesWalked(Seq<WalkEntryView>),
    CaseExecuted(Result<(), Seq<char>>),
    ResultsRead { expected: Result<Seq<u8>, Seq<char>>, actual: Result<Seq<u8>, Seq<char>> },
    OutputRemoved(Result<(), Seq<char>>),
    BackendStopped(Result<(), Seq<char>>),
}

/// Whether something was done, as mathematical values.
pub open spec fn done_view(done: Result<(), String>) -> Result<(), Seq<char>> {
    match done {
        Ok(()) => Ok(()),
        Err(reason) => Err(reason@),
    }
}

/// A listing as mathematical values.
pub open spec fn listing_view(listing: Result<Vec<DirEntry>, String>) -> Result<
    Seq<DirEntryView>,
    Seq<char>,
> {
    match listing {
        Ok(entries) => Ok(entries.deep_view()),
        Err(reason) => Err(reason@),
    }
}

impl View for Event {
    type V = EventView;

    open spec fn view(&self) -> EventView {
        match self {
            Event::Environments(listing) => EventView::Environments(listing_view(*listing)),
            Event::ConfigProbed(exists) => EventView::ConfigProbed(*exists),
            Event::BackendStarted(done) => EventView::BackendStarted(done_view(*done)),
            Event::CasesWalked(entries) => EventView::CasesWalked(entries.deep_view()),
            Event::CaseExecuted(done) => EventView::CaseExecuted(done_view(*done)),
            Event::ResultsRead { expected, actual } => EventView::ResultsRead {
                expected: read_view(*expected),
                actual: read_view(*actual),
            },
            Event::OutputRemoved(done) => EventView::OutputRemoved(done_view(*done)),
            Event::BackendStopped(done) => EventView::BackendStopped(done_view(*done)),
        }
    }
}

/// The milliseconds from `started` to `now`; none where the clock has gone
/// back.
pub open spec fn elapsed(started: u64, now: u64) -> u64 {
    if now >= started {
        (now - started) as u64
    } else {
        0
    }
}

/// A `Run` as mathematical values.
#[verifier::ext_equal]
pub struct RunView {
    /// What the run is configured with.
    pub config: ConfigView,
    /// Where the run stands.
    pub phase: Phase,
    /// The environments, in the order in which they run.
    pub envs: Seq<Seq<char>>,
    /// The index of the current environment.
    pub env_index: nat,
    /// The backend configuration file of the current environment.
    pub env_config: Option<Seq<char>>,
    /// The cases of the current environment, in the order in which they run.
    pub cases: Seq<Seq<char>>,
    /// The index of the current case: the number of cases of the current
    /// environment that have ended.
    pub case_index: nat,
    /// The clock's reading when the cases of the current environment began.
    pub started_ms: u64,
    /// The cases of the current environment that have diverged so far.
    pub diverged: Seq<Seq<char>>,
    /// The cases of the current environment that have failed so far.
    pub failed: Seq<FailureView>,
    /// The reports of the environments whose cases are over.
    pub reports: Seq<ReportView>,
    /// The error that ended the run before any environment ran.
    pub fatal: Option<ErrorView>,
}

/// The cases that count against the environments of `reports`, all together.
pub open spec fn total_errors(reports: Seq<ReportView>) -> nat
    decreases reports.len(),
{
    if reports.len() == 0 {
        0
    } else {
        total_errors(reports.drop_last()) + reports.last().error_count()
    }
}

impl RunView {
    /// A run that has not begun.
    pub open spec fn initial(config: ConfigView) -> RunView {
        RunView {
            config,
            phase: Phase::Listing,
            envs: Seq::empty(),
            env_index: 0,
            env_config: None,
            cases: Seq::empty(),
            case_index: 0,
            started_ms: 0,
            diverged: Seq::empty(),
            failed: Seq::empty(),
            reports: Seq::empty(),
            fatal: None,
        }
    }

    /// The current environment.
    pub open spec fn env(self) -> Seq<char> {
        self.envs[self.env_index as int]
    }

    /// The current case.
    pub open spec fn case(self) -> Seq<char> {
        self.cases[self.case_index as int]
    }

    /// A case is under way.
    pub open spec fn in_case(self) -> bool {
        self.phase == Phase::Executing || self.phase == Phase::Reading || self.phase
            == Phase::Removing
    }

    /// The backend of the current environment is up and has not been asked
    /// to stop.
    pub open spec fn backend_in_use(self) -> bool {
        self.phase == Phase::Walking || self.in_case()
    }

    /// An environment is under way.
    pub open spec fn in_environment(self) -> bool {
        self.phase == Phase::Probing || self.phase == Phase::Starting || self.backend_in_use()
            || self.phase == Phase::Stopping
    }

    /// What holds of every run, from its beginning on.
    pub open spec fn wf(self) -> bool {
        &&& self.diverged.len() + self.failed.len() <= self.case_index <= self.cases.len()
        &&& self.in_case() ==> self.case_index < self.cases.len()
        &&& !self.in_case() ==> self.diverged.len() == 0 && self.failed.len() == 0
        &&& self.in_environment() ==> self.env_index < self.envs.len()
        &&& self.phase == Phase::Listing ==> self.env_index == 0
        &&& self.reports.len() == if self.phase == Phase::Stopping {
            self.env_index + 1
        } else {
            self.env_index
        }
        &&& self.env_index <= self.envs.len()
    }

    /// The action that is pending.
    pub open spec fn pending(self) -> ActionView {
        match self.phase {
            Phase::Listing => ActionView::ListEnvironments { root: self.config.case_dir },
            Phase::Probing => ActionView::ProbeEnvConfig {
                path: self.config.env_config_path(self.env()),
            },
            Phase::Starting => ActionView::StartBackend {
                env: self.env(),
                config: self.env_config,
            },
            Phase::Walking => ActionView::WalkCases { root: self.config.env_dir(self.env()) },
            Phase::Executing => ActionView::ExecuteCase {
                case_file: self.config.case_file(self.case()),
                output_file: self.config.output_file(self.case()),
            },
            Phase::Reading => ActionView::ReadResults {
                expected_file: self.config.expect_file(self.case()),
                output_file: self.config.output_file(self.case()),
            },
            Phase::Removing => ActionView::RemoveOutput {
                output_file: self.config.output_file(self.case()),
            },
            Phase::Stopping => ActionView::StopBackend { env: self.env() },
            Phase::Finished => ActionView::Finished,
        }
    }

    /// The run turns to the environment at `index`, or is over where there
    /// is none.
    pub open spec fn enter_environment(self, index: nat) -> RunView {
        RunView {
            phase: if index < self.envs.len() {
                Phase::Probing
            } else {
                Phase::Finished
            },
            env_index: index,
            env_config: None,
            cases: Seq::empty(),
            case_index: 0,
            diverged: Seq::empty(),
            failed: Seq::empty(),
            ..self
        }
    }

    /// The report of the current environment, whose cases ended at `now`.
    pub open spec fn report(self, aborted: Option<FailureView>, now: u64) -> ReportView {
        ReportView {
            env: self.env(),
            diverged: self.diverged,
            failed: self.failed,
            aborted,
            backend_error: None,
            elapsed_ms: elapsed(self.started_ms, now),
        }
    }

    /// The cases of the current environment are over: its report is made,
    /// and its backend is to be stopped.
    pub open spec fn finish_cases(self, aborted: Option<FailureView>, now: u64) -> RunView {
        RunView {
            phase: Phase::Stopping,
            diverged: Seq::empty(),
            failed: Seq::empty(),
            reports: self.reports.push(self.report(aborted, now)),
            ..self
        }
    }

    /// The current case is over: the next one is executed, or the cases are
    /// over.
    pub open spec fn next_case(self, now: u64) -> RunView {
        if self.case_index + 1 < self.cases.len() {
            RunView { phase: Phase::Executing, case_index: self.case_index + 1, ..self }
        } else {
            RunView { case_index: self.case_index + 1, ..self }.finish_cases(None, now)
        }
    }

    /// The current case has ended with `outcome`. A case that diverged or
    /// failed is noted among the cases that did. A failure ends the cases of
    /// the environment where the run is configured to fail fast: the case is
    /// then the one that the report names as having ended them.
    pub open spec fn record(self, outcome: OutcomeView, now: u64) -> RunView {
        match outcome {
            OutcomeView::Matched => self.next_case(now),
            OutcomeView::Diverged => RunView {
                diverged: self.diverged.push(self.case()),
                ..self
            }.next_case(now),
            OutcomeView::Failed(error) => {
                let failure = FailureView { case: self.case(), error };
                let noted = RunView { failed: self.failed.push(failure), ..self };
                if self.config.fail_fast {
                    RunView { case_index: self.case_index + 1, ..noted }.finish_cases(
                        Some(failure),
                        now,
                    )
                } else {
                    noted.next_case(now)
                }
            },
        }
    }

    /// The outcome with which `event` ends the current case; `None` where it
    /// does not end it.
    pub open spec fn case_outcome(self, event: EventView) -> Option<OutcomeView> {
        match (self.phase, event) {
            (Phase::Executing, EventView::CaseExecuted(Err(reason))) => Some(
                OutcomeView::Failed(ErrorView::CaseExecutionFailed { reason }),
            ),
            (Phase::Reading, EventView::ResultsRead { expected, actual }) => match comparison(
                expected,
                actual,
            ) {
                Err(error) => Some(OutcomeView::Failed(error)),
                Ok(true) => Some(OutcomeView::Diverged),
                Ok(false) => None,
            },
            (Phase::Removing, EventView::OutputRemoved(Ok(()))) => Some(OutcomeView::Matched),
            (Phase::Removing, EventView::OutputRemoved(Err(reason))) => Some(
                OutcomeView::Failed(ErrorView::OutputRemovalFailed { reason }),
            ),
            _ => None,
        }
    }

    /// The backend of the current environment did not start: the environment
    /// is reported with that error and without cases, and the run turns to
    /// the next one.
    pub open spec fn start_failed(self, reason: Seq<char>) -> RunView {
        RunView {
            reports: self.reports.push(
                ReportView {
                    env: self.env(),
                    diverged: Seq::empty(),
                    failed: Seq::empty(),
                    aborted: None,
                    backend_error: Some(ErrorView::BackendStartFailed { reason }),
                    elapsed_ms: 0,
                },
            ),
            ..self
        }.enter_environment(self.env_index + 1)
    }

    /// The backend of the current environment did not stop: the error is
    /// added to the environment's report.
    pub open spec fn stop_failed(self, reason: Seq<char>) -> RunView {
        RunView {
            reports: self.reports.drop_last().push(
                ReportView {
                    backend_error: Some(ErrorView::BackendStopFailed { reason }),
                    ..self.reports.last()
                },
            ),
            ..self
        }
    }

    /// The run after `event`, which came at `now`.
    pub open spec fn step(self, event: EventView, now: u64) -> RunView {
        match self.case_outcome(event) {
            Some(outcome) => self.record(outcome, now),
            None => match (self.phase, event) {
                (Phase::Listing, EventView::Environments(Ok(entries))) => RunView {
                    envs: environments(entries),
                    ..self
                }.enter_environment(0),
                (Phase::Listing, EventView::Environments(Err(reason))) => RunView {
                    phase: Phase::Finished,
                    fatal: Some(ErrorView::EnvironmentRootUnreadable { reason }),
                    ..self
                },
                (Phase::Probing, EventView::ConfigProbed(exists)) => RunView {
                    phase: Phase::Starting,
                    env_config: if exists {
                        Some(self.config.env_config_path(self.env()))
                    } else {
                        None
                    },
                    ..self
                },
                (Phase::Starting, EventView::BackendStarted(Ok(()))) => RunView {
                    phase: Phase::Walking,
                    ..self
                },
                (Phase::Starting, EventView::BackendStarted(Err(reason))) => self.start_failed(
                    reason,
                ),
                (Phase::Walking, EventView::CasesWalked(entries)) => {
                    let walked = RunView {
                        phase: Phase::Executing,
                        cases: cases_of(
                            run_order(
                                found_cases(
                                    entries,
                                    self.config.test_case_extension,
                                    self.config.test_filter,
                                ),
                            ),
                        ),
                        case_index: 0,
                        started_ms: now,
                        diverged: Seq::empty(),
                        failed: Seq::empty(),
                        ..self
                    };
                    if walked.cases.len() == 0 {
                        walked.finish_cases(None, now)
                    } else {
                        walked
                    }
                },
                (Phase::Executing, EventView::CaseExecuted(Ok(()))) => RunView {
                    phase: Phase::Reading,
                    ..self
                },
                (Phase::Reading, EventView::ResultsRead { expected, actual }) => RunView {
                    phase: Phase::Removing,
                    ..self
                },
                (Phase::Stopping, EventView::BackendStopped(Ok(()))) => self.enter_environment(
                    self.env_index + 1,
                ),
                (
                    Phase::Stopping,
                    EventView::BackendStopped(Err(reason)),
                ) => self.stop_failed(reason).enter_environment(self.env_index + 1),
                _ => self,
            },
        }
    }

    /// How the run ended: with the error that kept it from running; else,
    /// where cases diverged or failed, with `RunFailed` and the number of
    /// those cases over all environments; else well.
    pub open spec fn result(self) -> Result<(), ErrorView> {
        match self.fatal {
            Some(error) => Err(error),
            None => if total_errors(self.reports) == 0 {
                Ok(())
            } else {
                Err(ErrorView::RunFailed { count: total_errors(self.reports) })
            },
        }
    }
}

/// The total of a sequence of reports with one more report at its end.
pub proof fn lemma_total_errors_push(reports: Seq<ReportView>, report: ReportView)
    ensures
        total_errors(reports.push(report)) == total_errors(reports) + report.error_count(),
{
    assert(reports.push(report).drop_last() =~= reports);
}

/// No report counts more cases than a `usize` holds.
pub open spec fn counts_fit(reports: Seq<ReportView>) -> bool {
    forall|i: int| 0 <= i < reports.len() ==> (#[trigger] reports[i]).error_count() <= usize::MAX
}

/// Reports whose counts fit still do with one more such report at their end.
proof fn lemma_counts_fit_push(reports: Seq<ReportView>, report: ReportView)
    requires
        counts_fit(reports),
        report.error_count() <= usize::MAX,
    ensures
        counts_fit(reports.push(report)),
{
    assert forall|i: int| 0 <= i < reports.push(report).len() implies (#[trigger] reports.push(
        report,
    )[i]).error_count() <= usize::MAX by {
        if i < reports.len() {
            assert(reports.push(report)[i] == reports[i]);
        }
    }
}

/// Reports whose counts fit still do without the last of them, whose count
/// fits too.
proof fn lemma_counts_fit_drop_last(reports: Seq<ReportView>)
    requires
        counts_fit(reports),
        reports.len() > 0,
    ensures
        counts_fit(reports.drop_last()),
        reports.last().error_count() <= usize::MAX,
{
    assert forall|i: int| 0 <= i < reports.drop_last().len() implies (
    #[trigger] reports.drop_last()[i]).error_count() <= usize::MAX by {
        assert(reports.drop_last()[i] == reports[i]);
    }
    assert(reports[reports.len() - 1].error_count() <= usize::MAX);
}

/// Reports whose counts fit count, all together, no more than their number
/// times what a `usize` holds.
proof fn lemma_total_errors_bound(reports: Seq<ReportView>)
    requires
        counts_fit(reports),
    ensures
        total_errors(reports) <= reports.len() * usize::MAX,
    decreases reports.len(),
{
    if reports.len() > 0 {
        let rest = reports.drop_last();
        lemma_counts_fit_drop_last(reports);
        lemma_total_errors_bound(rest);
        assert(rest.len() * usize::MAX + usize::MAX == reports.len() * usize::MAX)
            by (nonlinear_arith)
            requires
                rest.len() + 1 == reports.len(),
        ;
    }
}

/// What was found at the place where the configuration is kept.
#[derive(Debug, PartialEq, Eq)]
pub enum ConfigFile {
    /// The file could not be read.
    Unreadable { reason: String },
    /// The file was read and does not hold a configuration.
    Malformed { reason: String },
    /// The configuration that the file holds.
    Parsed(Config),
}

/// The entry point: a configuration, and the controller of the backends
/// against which the cases run. The runner keeps the controller for its
/// driver, which starts and stops the backends with it.
pub struct Runner<E> {
    config: Config,
    env_controller: E,
}

impl<E> Runner<E> {
    /// The configuration of the runner.
    pub closed spec fn config_view(&self) -> ConfigView {
        self.config@
    }

    /// The controller that the runner keeps.
    pub closed spec fn controller(&self) -> E {
        self.env_controller
    }

    /// A runner for the configuration found at `config_path`. A file that
    /// could not be read gives `ConfigUnreadable`, one that holds no
    /// configuration gives `ConfigMalformed`, each with the path and the
    /// reason.
    pub fn try_new(config_path: String, loaded: ConfigFile, env: E) -> (r: Result<
        Self,
        SqlnessError,
    >)
        ensures
            match loaded {
                ConfigFile::Parsed(config) => r matches Ok(runner) && runner.config_view()
                    == config@ && runner.controller() == env,
                ConfigFile::Unreadable { reason } => r matches Err(error) && error@
                    == (ErrorView::ConfigUnreadable { path: config_path@, reason: reason@ }),
                ConfigFile::Malformed { reason } => r matches Err(error) && error@
                    == (ErrorView::ConfigMalformed { file: config_path@, reason: reason@ }),
            },
    {
        match loaded {
            ConfigFile::Parsed(config) => Self::new_with_config(config, env),
            ConfigFile::Unreadable { reason } => Err(
                SqlnessError::ConfigUnreadable { path: config_path, reason },
            ),
            ConfigFile::Malformed { reason } => Err(
                SqlnessError::ConfigMalformed { file: config_path, reason },
            ),
        }
    }

    /// A runner for `config`, with `env` as its controller. It always
    /// succeeds.
    pub fn new_with_config(config: Config, env: E) -> (r: Result<Self, SqlnessError>)
        ensures
            r matches Ok(runner) && runner.config_view() == config@ && runner.controller() == env,
    {
        Ok(Runner { config, env_controller: env })
    }

    /// The configuration of the runner.
    pub fn config(&self) -> (config: &Config)
        ensures
            config@ == self.config_view(),
    {
        &self.config
    }

    /// The controller that the runner keeps.
    pub fn env_controller(&self) -> (controller: &E)
        ensures
            *controller == self.controller(),
    {
        &self.env_controller
    }

    /// Begins a run: its first pending action is to list the environments.
    pub fn run(&self) -> (run: Run<'_>)
        ensures
            run.wf(),
            run@ == RunView::initial(self.config_view()),
    {
        let run = Run {
            config: &self.config,
            phase: Phase::Listing,
            envs: Vec::new(),
            env_index: 0,
            env_config: None,
            cases: Vec::new(),
            case_index: 0,
            started_ms: 0,
            diverged: Vec::new(),
            failed: Vec::new(),
            reports: Vec::new(),
            errors: 0,
            fatal: None,
        };
        assert(run@ =~= RunView::initial(self.config_view()));
        run
    }
}

/// A run under way.
pub struct Run<'a> {
    config: &'a Config,
    phase: Phase,
    envs: Vec<String>,
    env_index: usize,
    env_config: Option<String>,
    cases: Vec<String>,
    case_index: usize,
    started_ms: u64,
    diverged: Vec<String>,
    failed: Vec<CaseFailure>,
    reports: Vec<RunReport>,
    errors: u128,
    fatal: Option<SqlnessError>,
}

impl<'a> View for Run<'a> {
    type V = RunView;

    closed spec fn view(&self) -> RunView {
        RunView {
            config: self.config@,
            phase: self.phase,
            envs: self.envs.deep_view(),
            env_index: self.env_index as nat,
            env_config: self.env_config.deep_view(),
            cases: self.cases.deep_view(),
            case_index: self.case_index as nat,
            started_ms: self.started_ms,
            diverged: self.diverged.deep_view(),
            failed: self.failed.deep_view(),
            reports: self.reports.deep_view(),
            fatal: self.fatal.deep_view(),
        }
    }
}

impl<'a> Run<'a> {
    /// The run is in order: `RunView::wf` holds of it, and it has counted
    /// the cases that diverged or failed.
    pub closed spec fn wf(&self) -> bool {
        &&& self@.wf()
        &&& self.errors == total_errors(self@.reports)
        &&& counts_fit(self@.reports)
    }

    /// The current environment has a backend, no report yet, and the count
    /// of the cases that diverged or failed is right.
    spec fn env_in_order(&self) -> bool {
        &&& self.env_index < self.envs.len()
        &&& self.reports.len() == self.env_index
        &&& self.errors == total_errors(self@.reports)
        &&& counts_fit(self@.reports)
    }

    /// What `finish_cases` asks of the run.
    spec fn can_finish_cases(&self) -> bool {
        &&& self.env_in_order()
        &&& self.diverged.len() + self.failed.len() <= self.case_index <= self.cases.len()
    }

    /// What is in order in a run that is in order.
    pub proof fn lemma_wf(&self)
        requires
            self.wf(),
        ensures
            self@.wf(),
    {
    }

    /// Where the run stands.
    pub fn phase(&self) -> (phase: Phase)
        ensures
            phase == self@.phase,
    {
        self.phase
    }

    /// Whether the run is over.
    pub fn is_finished(&self) -> (finished: bool)
        ensures
            finished == (self@.phase == Phase::Finished),
    {
        self.phase == Phase::Finished
    }

    /// The environment that is under way.
    pub fn current_env(&self) -> (env: Option<&String>)
        requires
            self.wf(),
        ensures
            env.deep_view() == if self@.in_environment() {
                Some(self@.env())
            } else {
                None
            },
    {
        match self.phase {
            Phase::Listing | Phase::Finished => None,
            _ => Some(&self.envs[self.env_index]),
        }
    }

    /// The case that is under way.
    pub fn current_case(&self) -> (case: Option<&String>)
        requires
            self.wf(),
        ensures
            case.deep_view() == if self@.in_case() {
                Some(self@.case())
            } else {
                None
            },
    {
        match self.phase {
            Phase::Executing | Phase::Reading | Phase::Removing => Some(
                &self.cases[self.case_index],
            ),
            _ => None,
        }
    }

    /// The reports of the environments whose cases are over, in the order in
    /// which the environments ran.
    pub fn reports(&self) -> (reports: &Vec<RunReport>)
        ensures
            reports.deep_view() == self@.reports,
    {
        &self.reports
    }

    /// The number of cases that have diverged or failed in the environments
    /// whose cases are over.
    pub fn error_count(&self) -> (count: u128)
        requires
            self.wf(),
        ensures
            count == total_errors(self@.reports),
    {
        self.errors
    }

    /// How the run ended, or would end if nothing more came.
    pub fn result(&self) -> (r: Result<(), SqlnessError>)
        requires
            self.wf(),
        ensures
            status_view(r) == self@.result(),
    {
        match &self.fatal {
            Some(error) => Err(error.duplicate()),
            None => if self.errors == 0 {
                Ok(())
            } else {
                Err(SqlnessError::RunFailed { count: self.errors })
            },
        }
    }

    /// The action that is pending.
    pub fn action(&self) -> (action: Action)
        requires
            self.wf(),
        ensures
            action@ == self@.pending(),
    {
        match self.phase {
            Phase::Listing => Action::ListEnvironments { root: self.config.case_dir.clone() },
            Phase::Probing => Action::ProbeEnvConfig {
                path: self.config.read_env_config(self.envs[self.env_index].as_str()),
            },
            Phase::Starting => Action::StartBackend {
                env: self.envs[self.env_index].clone(),
                config: self.env_config.clone(),
            },
            Phase::Walking => Action::WalkCases {
                root: self.config.env_dir(self.envs[self.env_index].as_str()),
            },
            Phase::Executing => Action::ExecuteCase {
                case_file: self.config.case_file(self.cases[self.case_index].as_str()),
                output_file: self.config.output_file(self.cases[self.case_index].as_str()),
            },
            Phase::Reading => Action::ReadResults {
                expected_file: self.config.expect_file(self.cases[self.case_index].as_str()),
                output_file: self.config.output_file(self.cases[self.case_index].as_str()),
            },
            Phase::Removing => Action::RemoveOutput {
                output_file: self.config.output_file(self.cases[self.case_index].as_str()),
            },
            Phase::Stopping => Action::StopBackend { env: self.envs[self.env_index].clone() },
            Phase::Finished => Action::Finished,
        }
    }

    /// Turns to the environment at `index`.
    fn enter_environment(&mut self, index: usize)
        requires
            index <= old(self).envs.len(),
            old(self).reports.len() == index,
            old(self).errors == total_errors(old(self)@.reports),
            counts_fit(old(self)@.reports),
        ensures
            final(self)@ == old(self)@.enter_environment(index as nat),
            final(self).wf(),
    {
        self.phase = if index < self.envs.len() {
            Phase::Probing
        } else {
            Phase::Finished
        };
        self.env_index = index;
        self.env_config = None;
        self.cases = Vec::new();
        self.case_index = 0;
        self.diverged = Vec::new();
        self.failed = Vec::new();
        assert(self@ =~= old(self)@.enter_environment(index as nat));
    }

    /// Ends the cases of the current environment.
    fn finish_cases(&mut self, aborted: Option<CaseFailure>, now_ms: u64)
        requires
            old(self).can_finish_cases(),
        ensures
            final(self)@ == old(self)@.finish_cases(aborted.deep_view(), now_ms),
            final(self).wf(),
    {
        let ghost before = self@;
        let mut diverged: Vec<String> = Vec::new();
        let mut failed: Vec<CaseFailure> = Vec::new();
        core::mem::swap(&mut self.diverged, &mut diverged);
        core::mem::swap(&mut self.failed, &mut failed);
        let elapsed_ms: u64 = if now_ms >= self.started_ms {
            now_ms - self.started_ms
        } else {
            0
        };
        let report = RunReport {
            env: self.envs[self.env_index].clone(),
            diverged,
            failed,
            aborted,
            backend_error: None,
            elapsed_ms,
        };
        assert(report@ == before.report(aborted.deep_view(), now_ms));
        let count = report.error_count();
        proof {
            lemma_total_errors_bound(before.reports);
            lemma_total_errors_push(before.reports, report@);
            assert(before.reports.len() * usize::MAX + usize::MAX <= usize::MAX * usize::MAX)
                by (nonlinear_arith)
                requires
                    before.reports.len() + 1 <= usize::MAX,
            ;
            assert(usize::MAX * usize::MAX <= u128::MAX) by (nonlinear_arith)
                requires
                    usize::MAX <= 0xffff_ffff_ffff_ffff,
            ;
        }
        self.errors = self.errors + count;
        self.reports.push(report);
        self.phase = Phase::Stopping;
        proof {
            assert(self.reports.deep_view() =~= before.reports.push(report@));
            assert(self@ =~= before.finish_cases(aborted.deep_view(), now_ms));
            lemma_counts_fit_push(before.reports, report@);
        }
    }

    /// Turns to the case after the current one.
    fn next_case(&mut self, now_ms: u64)
        requires
            old(self).env_in_order(),
            old(self).case_index < old(self).cases.len(),
            old(self).diverged.len() + old(self).failed.len() <= old(self).case_index + 1,
            old(self)@.in_case(),
        ensures
            final(self)@ == old(self)@.next_case(now_ms),
            final(self).wf(),
    {
        self.case_index = self.case_index + 1;
        if self.case_index < self.cases.len() {
            self.phase = Phase::Executing;
            assert(self@ =~= old(self)@.next_case(now_ms));
        } else {
            self.finish_cases(None, now_ms);
        }
    }

    /// Notes that the current case has ended with `outcome`.
    fn record(&mut self, outcome: CaseOutcome, now_ms: u64)
        requires
            old(self).wf(),
            old(self)@.in_case(),
        ensures
            final(self)@ == old(self)@.record(outcome@, now_ms),
            final(self).wf(),
    {
        let ghost before = self@;
        match outcome {
            CaseOutcome::Matched => {
                self.next_case(now_ms);
            },
            CaseOutcome::Diverged => {
                self.diverged.push(self.cases[self.case_index].clone());
                assert(self.diverged.deep_view() =~= before.diverged.push(before.case()));
                assert(self@ =~= RunView {
                    diverged: before.diverged.push(before.case()),
                    ..before
                });
                self.next_case(now_ms);
            },
            CaseOutcome::Failed(error) => {
                let failure = CaseFailure { case: self.cases[self.case_index].clone(), error };
                let ended = if self.config.fail_fast {
                    Some(CaseFailure { case: failure.case.clone(), error: failure.error.duplicate() })
                } else {
                    None
                };
                self.failed.push(failure);
                assert(self.failed.deep_view() =~= before.failed.push(failure@));
                let ghost noted = RunView { failed: before.failed.push(failure@), ..before };
                assert(self@ =~= noted);
                match ended {
                    Some(last) => {
                        assert(self.case_index < self.cases.len());
                        self.case_index = self.case_index + 1;
                        assert(self@ =~= RunView { case_index: before.case_index + 1, ..noted });
                        self.finish_cases(Some(last), now_ms);
                    },
                    None => {
                        self.next_case(now_ms);
                    },
                }
            },
        }
    }

    /// `advance` where the environments are being listed.
    fn on_listing(&mut self, event: Event, now_ms: u64)
        requires
            old(self).wf(),
            old(self)@.phase == Phase::Listing,
        ensures
            final(self).wf(),
            final(self)@ == old(self)@.step(event@, now_ms),
    {
        let ghost before = self@;
        match event {
            Event::Environments(Ok(entries)) => {
                self.envs = collect_env(&entries);
                self.enter_environment(0);
            },
            Event::Environments(Err(reason)) => {
                self.phase = Phase::Finished;
                self.fatal = Some(SqlnessError::EnvironmentRootUnreadable { reason });
                assert(self@ =~= before.step(event@, now_ms));
            },
            _ => {},
        }
    }

    /// `advance` where the backend configuration is looked for.
    fn on_probing(&mut self, event: Event, now_ms: u64)
        requires
            old(self).wf(),
            old(self)@.phase == Phase::Probing,
        ensures
            final(self).wf(),
            final(self)@ == old(self)@.step(event@, now_ms),
    {
        let ghost before = self@;
        match event {
            Event::ConfigProbed(exists) => {
                self.env_config = if exists {
                    Some(self.config.read_env_config(self.envs[self.env_index].as_str()))
                } else {
                    None
                };
                self.phase = Phase::Starting;
                assert(self@ =~= before.step(event@, now_ms));
            },
            _ => {},
        }
    }

    /// `advance` where the backend is being started.
    fn on_starting(&mut self, event: Event, now_ms: u64)
        requires
            old(self).wf(),
            old(self)@.phase == Phase::Starting,
        ensures
            final(self).wf(),
            final(self)@ == old(self)@.step(event@, now_ms),
    {
        let ghost before = self@;
        match event {
            Event::BackendStarted(Ok(())) => {
                self.phase = Phase::Walking;
                assert(self@ =~= before.step(event@, now_ms));
            },
            Event::BackendStarted(Err(reason)) => {
                let report = RunReport {
                    env: self.envs[self.env_index].clone(),
                    diverged: Vec::new(),
                    failed: Vec::new(),
                    aborted: None,
                    backend_error: Some(SqlnessError::BackendStartFailed { reason }),
                    elapsed_ms: 0,
                };
                proof {
                    lemma_total_errors_push(before.reports, report@);
                    assert(report@.diverged =~= Seq::empty());
                    assert(report@.failed =~= Seq::empty());
                }
                self.reports.push(report);
                proof {
                    assert(self.reports.deep_view() =~= before.reports.push(report@));
                    lemma_counts_fit_push(before.reports, report@);
                }
                assert(self.env_index < self.envs.len());
                self.enter_environment(self.env_index + 1);
                assert(self@ =~= before.step(event@, now_ms));
            },
            _ => {},
        }
    }

    /// `advance` where the cases are being looked for.
    fn on_walking(&mut self, event: Event, now_ms: u64)
        requires
            old(self).wf(),
            old(self)@.phase == Phase::Walking,
        ensures
            final(self).wf(),
            final(self)@ == old(self)@.step(event@, now_ms),
    {
        let ghost before = self@;
        match event {
            Event::CasesWalked(entries) => {
                self.cases = collect_case_paths(&entries, self.config);
                self.case_index = 0;
                self.started_ms = now_ms;
                self.diverged = Vec::new();
                self.failed = Vec::new();
                self.phase = Phase::Executing;
                let ghost walked = self@;
                assert(walked =~= RunView {
                    phase: Phase::Executing,
                    cases: cases_of(
                        run_order(
                            found_cases(
                                entries.deep_view(),
                                before.config.test_case_extension,
                                before.config.test_filter,
                            ),
                        ),
                    ),
                    case_index: 0,
                    started_ms: now_ms,
                    diverged: Seq::empty(),
                    failed: Seq::empty(),
                    ..before
                });
                if self.cases.len() == 0 {
                    self.finish_cases(None, now_ms);
                }
            },
            _ => {},
        }
    }

    /// `advance` where a case is being executed.
    fn on_executing(&mut self, event: Event, now_ms: u64) -> (done: Option<CaseOutcome>)
        requires
            old(self).wf(),
            old(self)@.phase == Phase::Executing,
        ensures
            final(self).wf(),
            final(self)@ == old(self)@.step(event@, now_ms),
            done.deep_view() == old(self)@.case_outcome(event@),
    {
        let ghost before = self@;
        match event {
            Event::CaseExecuted(Ok(())) => {
                self.phase = Phase::Reading;
                assert(self@ =~= before.step(event@, now_ms));
                None
            },
            Event::CaseExecuted(Err(reason)) => {
                let error = SqlnessError::CaseExecutionFailed { reason };
                let done = CaseOutcome::Failed(error.duplicate());
                self.record(CaseOutcome::Failed(error), now_ms);
                Some(done)
            },
            _ => None,
        }
    }

    /// `advance` where the outputs of a case are being read.
    fn on_reading(&mut self, event: Event, now_ms: u64) -> (done: Option<CaseOutcome>)
        requires
            old(self).wf(),
            old(self)@.phase == Phase::Reading,
        ensures
            final(self).wf(),
            final(self)@ == old(self)@.step(event@, now_ms),
            done.deep_view() == old(self)@.case_outcome(event@),
    {
        let ghost before = self@;
        match event {
            Event::ResultsRead { expected, actual } => {
                match compare(expected, actual) {
                    Ok(false) => {
                        self.phase = Phase::Removing;
                        assert(self@ =~= before.step(event@, now_ms));
                        None
                    },
                    Ok(true) => {
                        self.record(CaseOutcome::Diverged, now_ms);
                        Some(CaseOutcome::Diverged)
                    },
                    Err(error) => {
                        let done = CaseOutcome::Failed(error.duplicate());
                        self.record(CaseOutcome::Failed(error), now_ms);
                        Some(done)
                    },
                }
            },
            _ => None,
        }
    }

    /// `advance` where the output of a case is being removed.
    fn on_removing(&mut self, event: Event, now_ms: u64) -> (done: Option<CaseOutcome>)
        requires
            old(self).wf(),
            old(self)@.phase == Phase::Removing,
        ensures
            final(self).wf(),
            final(self)@ == old(self)@.step(event@, now_ms),
            done.deep_view() == old(self)@.case_outcome(event@),
    {
        match event {
            Event::OutputRemoved(Ok(())) => {
                self.record(CaseOutcome::Matched, now_ms);
                Some(CaseOutcome::Matched)
            },
            Event::OutputRemoved(Err(reason)) => {
                let error = SqlnessError::OutputRemovalFailed { reason };
                let done = CaseOutcome::Failed(error.duplicate());
                self.record(CaseOutcome::Failed(error), now_ms);
                Some(done)
            },
            _ => None,
        }
    }

    /// `advance` where the backend is being stopped.
    fn on_stopping(&mut self, event: Event, now_ms: u64)
        requires
            old(self).wf(),
            old(self)@.phase == Phase::Stopping,
        ensures
            final(self).wf(),
            final(self)@ == old(self)@.step(event@, now_ms),
    {
        let ghost before = self@;
        match event {
            Event::BackendStopped(Ok(())) => {
                assert(self.env_index < self.envs.len());
                self.enter_environment(self.env_index + 1);
            },
            Event::BackendStopped(Err(reason)) => {
                let mut report = self.reports.pop().unwrap();
                let ghost last = report@;
                report.backend_error = Some(SqlnessError::BackendStopFailed { reason });
                proof {
                    assert(self.reports.deep_view() =~= before.reports.drop_last());
                    assert(last == before.reports.last());
                    lemma_total_errors_push(before.reports.drop_last(), report@);
                    lemma_total_errors_push(before.reports.drop_last(), last);
                    assert(before.reports =~= before.reports.drop_last().push(last));
                }
                self.reports.push(report);
                proof {
                    assert(self.reports.deep_view() =~= before.stop_failed(reason@).reports);
                    assert(self@ =~= before.stop_failed(reason@));
                    lemma_counts_fit_drop_last(before.reports);
                    lemma_counts_fit_push(before.reports.drop_last(), report@);
                }
                assert(self.env_index < self.envs.len());
                self.enter_environment(self.env_index + 1);
            },
            _ => {},
        }
    }

    /// Takes the event `event`, which came when the clock read `now_ms`
    /// milliseconds, and decides what comes next. Where the event ends a
    /// case, the case's outcome is returned.
    pub fn advance(&mut self, event: Event, now_ms: u64) -> (done: Option<CaseOutcome>)
        requires
            old(self).wf(),
        ensures
            final(self).wf(),
            final(self)@.wf(),
            final(self)@ == old(self)@.step(event@, now_ms),
            done.deep_view() == old(self)@.case_outcome(event@),
    {
        match self.phase {
            Phase::Listing => {
                self.on_listing(event, now_ms);
                None
            },
            Phase::Probing => {
                self.on_probing(event, now_ms);
                None
            },
            Phase::Starting => {
                self.on_starting(event, now_ms);
                None
            },
            Phase::Walking => {
                self.on_walking(event, now_ms);
                None
            },
            Phase::Executing => self.on_executing(event, now_ms),
            Phase::Reading => self.on_reading(event, now_ms),
            Phase::Removing => self.on_removing(event, now_ms),
            Phase::Stopping => {
                self.on_stopping(event, now_ms);
                None
            },
            Phase::Finished => None,
        }
    }
}

} // verus!
