//! What holds of every run, whatever its driver reports.

use vstd::prelude::*;
use vstd::utf8::{decode_utf8, valid_utf8};
use crate::compare::texts_diverge;
use crate::config::ConfigView;
use crate::discovery::{case_of, found_cases, law_run_order_exists, WalkEntryView};
use crate::error::ErrorView;
use crate::report::{FailureView, OutcomeView, ReportView};
use crate::runner::{
    lemma_total_errors_push, total_errors, ActionView, EventView, Phase, RunView,
};

verus! {

/// The cases of the current environment that have diverged: as its report
/// has them once its cases are over, as the run has them before.
pub open spec fn noted_diverged(s: RunView) -> Seq<Seq<char>> {
    if s.phase == Phase::Stopping {
        s.reports.last().diverged
    } else {
        s.diverged
    }
}

/// The cases of the current environment that have failed: as its report has
/// them once its cases are over, as the run has them before.
pub open spec fn noted_failed(s: RunView) -> Seq<FailureView> {
    if s.phase == Phase::Stopping {
        s.reports.last().failed
    } else {
        s.failed
    }
}

/// A run that is in order stays in order, whatever event comes.
pub proof fn law_step_keeps_order(s: RunView, event: EventView, now: u64)
    requires
        s.wf(),
    ensures
        s.step(event, now).wf(),
{
}

/// An environment in which no case is found is reported without a case that
/// diverged or failed, and its backend is stopped next.
pub proof fn law_no_cases_clean_report(s: RunView, entries: Seq<WalkEntryView>, now: u64)
    requires
        s.wf(),
        s.phase == Phase::Walking,
        found_cases(entries, s.config.test_case_extension, s.config.test_filter).len() == 0,
    ensures
        ({
            let t = s.step(EventView::CasesWalked(entries), now);
            &&& t.pending() == ActionView::StopBackend { env: s.env() }
            &&& t.reports == s.reports.push(
                ReportView {
                    env: s.env(),
                    diverged: Seq::empty(),
                    failed: Seq::empty(),
                    aborted: None,
                    backend_error: None,
                    elapsed_ms: 0,
                },
            )
            &&& t.reports.last().error_count() == 0
            &&& t.reports.last().status() == Ok::<(), ErrorView>(())
        }),
{
    law_run_order_exists(
        found_cases(entries, s.config.test_case_extension, s.config.test_filter),
    );
}

/// A case whose actual output is, byte for byte, the output expected of it,
/// and is UTF-8 text, does not diverge: the removal of its actual output is
/// asked for next, and once that is done the case has matched and stands
/// neither among the cases that diverged nor among those that failed.
pub proof fn law_matching_output_is_removed(s: RunView, output: Seq<u8>, now: u64, later: u64)
    requires
        s.wf(),
        s.phase == Phase::Reading,
        valid_utf8(output),
    ensures
        ({
            let read = EventView::ResultsRead { expected: Ok(output), actual: Ok(output) };
            let removed = EventView::OutputRemoved(Ok(()));
            let t = s.step(read, now);
            let u = t.step(removed, later);
            &&& s.case_outcome(read) is None
            &&& t.pending() == ActionView::RemoveOutput {
                output_file: s.config.output_file(s.case()),
            }
            &&& t.case_outcome(removed) == Some(OutcomeView::Matched)
            &&& noted_diverged(u) == s.diverged
            &&& noted_failed(u) == s.failed
        }),
{
}

/// A case whose actual output diverges from the output expected of it is
/// added, once, to the cases that diverged, and the removal of its actual
/// output is not asked for: the next case or the end of the cases follows.
pub proof fn law_diverging_output_is_kept(
    s: RunView,
    expected: Seq<u8>,
    actual: Seq<u8>,
    now: u64,
)
    requires
        s.wf(),
        s.phase == Phase::Reading,
        valid_utf8(expected),
        valid_utf8(actual),
        texts_diverge(decode_utf8(expected), decode_utf8(actual)),
    ensures
        ({
            let read = EventView::ResultsRead { expected: Ok(expected), actual: Ok(actual) };
            let t = s.step(read, now);
            &&& s.case_outcome(read) == Some(OutcomeView::Diverged)
            &&& noted_diverged(t) == s.diverged.push(s.case())
            &&& noted_failed(t) == s.failed
            &&& t.phase == Phase::Executing || t.phase == Phase::Stopping
            &&& t.phase == Phase::Executing ==> t.case_index == s.case_index + 1
        }),
{
}

/// Where the run fails fast, a case that fails ends the cases of its
/// environment: the backend is stopped next. The case stands last among the
/// cases that failed, the report names it as the one that ended the cases,
/// and the environment is reported as failed.
pub proof fn law_fail_fast_ends_the_cases(
    s: RunView,
    event: EventView,
    error: ErrorView,
    now: u64,
)
    requires
        s.wf(),
        s.config.fail_fast,
        s.case_outcome(event) == Some(OutcomeView::Failed(error)),
    ensures
        ({
            let t = s.step(event, now);
            let failure = FailureView { case: s.case(), error };
            let report = t.reports.last();
            &&& t.pending() == ActionView::StopBackend { env: s.env() }
            &&& t.env_index == s.env_index
            &&& report.diverged == s.diverged
            &&& report.failed == s.failed.push(failure)
            &&& report.aborted == Some(failure)
            &&& report.error_count() == s.diverged.len() + s.failed.len() + 1
            &&& report.status() == Err::<(), ErrorView>(
                ErrorView::RunFailed { count: report.error_count() },
            )
        }),
{
}

/// The case that is found in a file is run from that file: the definition
/// file of the case is the path of the entry that stands for it.
pub proof fn law_case_is_run_from_the_file_found(
    config: ConfigView,
    entry: WalkEntryView,
    case: Seq<char>,
)
    requires
        case_of(entry, config.test_case_extension, config.test_filter) == Some(case),
    ensures
        entry.path == Some(config.case_file(case)),
        entry.is_file,
{
    crate::path::law_add_extension_undoes_strip(entry.path->0, config.test_case_extension);
}

/// Where the run does not fail fast, the end of a case, whatever its
/// outcome, is followed by the execution of the next case, or by the end of
/// the cases after the last one.
pub proof fn law_without_fail_fast_the_next_case_runs(
    s: RunView,
    event: EventView,
    now: u64,
)
    requires
        s.wf(),
        !s.config.fail_fast,
        s.case_outcome(event) is Some,
    ensures
        ({
            let t = s.step(event, now);
            &&& t.case_index == s.case_index + 1
            &&& t.cases == s.cases
            &&& s.case_index + 1 < s.cases.len() ==> t.pending() == ActionView::ExecuteCase {
                case_file: s.config.case_file(s.cases[(s.case_index + 1) as int]),
                output_file: s.config.output_file(s.cases[(s.case_index + 1) as int]),
            }
            &&& s.case_index + 1 == s.cases.len() ==> t.pending() == ActionView::StopBackend {
                env: s.env(),
            }
        }),
{
}

/// Once the backend of an environment has been stopped, or has failed to
/// stop, the run turns to the next environment, or is over after the last
/// one.
pub proof fn law_stop_turns_to_the_next_environment(
    s: RunView,
    done: Result<(), Seq<char>>,
    now: u64,
)
    requires
        s.wf(),
        s.phase == Phase::Stopping,
    ensures
        ({
            let t = s.step(EventView::BackendStopped(done), now);
            &&& t.envs == s.envs
            &&& t.env_index == s.env_index + 1
            &&& t.phase == if s.env_index + 1 < s.envs.len() {
                Phase::Probing
            } else {
                Phase::Finished
            }
        }),
{
}

/// The event tells how the action went.
pub open spec fn answers(action: ActionView, event: EventView) -> bool {
    match (action, event) {
        (ActionView::ListEnvironments { .. }, EventView::Environments(_)) => true,
        (ActionView::ProbeEnvConfig { .. }, EventView::ConfigProbed(_)) => true,
        (ActionView::StartBackend { .. }, EventView::BackendStarted(_)) => true,
        (ActionView::WalkCases { .. }, EventView::CasesWalked(_)) => true,
        (ActionView::ExecuteCase { .. }, EventView::CaseExecuted(_)) => true,
        (ActionView::ReadResults { .. }, EventView::ResultsRead { .. }) => true,
        (ActionView::RemoveOutput { .. }, EventView::OutputRemoved(_)) => true,
        (ActionView::StopBackend { .. }, EventView::BackendStopped(_)) => true,
        _ => false,
    }
}

/// An event that does not answer the pending action changes nothing: the
/// action stays pending until the driver tells how it went. So no case
/// begins before the case before it has ended, and its output has been
/// removed or is to stay.
pub proof fn law_unanswered_event_changes_nothing(s: RunView, event: EventView, now: u64)
    requires
        !answers(s.pending(), event),
    ensures
        s.step(event, now) == s,
        s.case_outcome(event) is None,
{
}

/// The run after the events `events`, each with the clock's reading at
/// which it came.
pub open spec fn run_events(s: RunView, events: Seq<(EventView, u64)>) -> RunView
    decreases events.len(),
{
    if events.len() == 0 {
        s
    } else {
        run_events(s, events.drop_last()).step(events.last().0, events.last().1)
    }
}

/// The event tells that a backend has started.
pub open spec fn started_well(event: EventView) -> bool {
    event matches EventView::BackendStarted(done) && done is Ok
}

/// How often, in the course of `events`, the backend of the environment at
/// `env` was started with success.
pub open spec fn starts_of(s: RunView, events: Seq<(EventView, u64)>, env: nat) -> nat
    decreases events.len(),
{
    if events.len() == 0 {
        0
    } else {
        let before = run_events(s, events.drop_last());
        let here: nat = if before.phase == Phase::Starting && before.env_index == env
            && started_well(events.last().0) {
            1
        } else {
            0
        };
        starts_of(s, events.drop_last(), env) + here
    }
}

/// How often, in the course of `events`, the driver answered the request to
/// stop the backend of the environment at `env`.
pub open spec fn stops_of(s: RunView, events: Seq<(EventView, u64)>, env: nat) -> nat
    decreases events.len(),
{
    if events.len() == 0 {
        0
    } else {
        let before = run_events(s, events.drop_last());
        let here: nat = if before.phase == Phase::Stopping && before.env_index == env
            && events.last().0 is BackendStopped {
            1
        } else {
            0
        };
        stops_of(s, events.drop_last(), env) + here
    }
}

/// The backend of the environment at `env` is up in the run `s`.
pub open spec fn backend_up(s: RunView, env: nat) -> bool {
    s.env_index == env && (s.backend_in_use() || s.phase == Phase::Stopping)
}

/// What links the starts and stops of one environment's backend to where
/// the run stands.
spec fn balanced(s: RunView, events: Seq<(EventView, u64)>, env: nat) -> bool {
    let t = run_events(s, events);
    let starts = starts_of(s, events, env);
    let stops = stops_of(s, events, env);
    &&& t.wf()
    &&& t.env_index < env ==> starts == 0 && stops == 0
    &&& t.env_index == env ==> stops == 0 && starts == if backend_up(t, env) {
        1nat
    } else {
        0nat
    }
    &&& t.env_index > env ==> starts == stops && starts <= 1
    &&& t.phase == Phase::Listing ==> t.env_index == 0 && starts == 0 && stops == 0
}

/// From its beginning on, a run keeps the starts and stops of every
/// environment's backend in balance.
proof fn lemma_balanced(config: ConfigView, events: Seq<(EventView, u64)>, env: nat)
    ensures
        balanced(RunView::initial(config), events, env),
    decreases events.len(),
{
    let s = RunView::initial(config);
    if events.len() > 0 {
        lemma_balanced(config, events.drop_last(), env);
        let before = run_events(s, events.drop_last());
        let event = events.last().0;
        let now = events.last().1;
        law_step_keeps_order(before, event, now);
        let t = before.step(event, now);
        assert(t == run_events(s, events));
        if before.case_outcome(event) is Some {
            assert(before.in_case());
        }
    }
}

/// From the beginning of a run on, whatever events come: the backend of an
/// environment is started with success at most once; the request to stop it
/// is answered at most once, and only after such a start; and once the run
/// has turned to a later environment, or is over, a backend that was started
/// has been stopped.
pub proof fn law_started_backend_is_stopped_once(
    config: ConfigView,
    events: Seq<(EventView, u64)>,
    env: nat,
)
    ensures
        ({
            let s = RunView::initial(config);
            let t = run_events(s, events);
            &&& stops_of(s, events, env) <= starts_of(s, events, env) <= 1
            &&& t.env_index > env ==> stops_of(s, events, env) == starts_of(s, events, env)
            &&& t.phase == Phase::Finished && t.fatal is None ==> t.env_index == t.envs.len()
        }),
{
    lemma_balanced(config, events, env);
    lemma_finished_after_all(config, events);
}

/// A run that is over without an error that kept it from running has gone
/// through all its environments.
proof fn lemma_finished_after_all(config: ConfigView, events: Seq<(EventView, u64)>)
    ensures
        ({
            let t = run_events(RunView::initial(config), events);
            &&& t.wf()
            &&& t.phase == Phase::Finished && t.fatal is None ==> t.env_index == t.envs.len()
            &&& t.phase != Phase::Finished ==> t.fatal is None
        }),
    decreases events.len(),
{
    let s = RunView::initial(config);
    if events.len() > 0 {
        lemma_finished_after_all(config, events.drop_last());
        let before = run_events(s, events.drop_last());
        law_step_keeps_order(before, events.last().0, events.last().1);
    }
}

/// Once the cases of an environment are over, no case of it is executed
/// again: whatever events come, the run still waits for that environment's
/// backend to stop, or has turned to a later environment.
pub proof fn law_ended_environment_runs_no_case(s: RunView, events: Seq<(EventView, u64)>)
    requires
        s.wf(),
        s.phase == Phase::Stopping,
    ensures
        ({
            let t = run_events(s, events);
            &&& t.wf()
            &&& t.env_index >= s.env_index
            &&& t.env_index == s.env_index ==> t == s
        }),
    decreases events.len(),
{
    if events.len() > 0 {
        law_ended_environment_runs_no_case(s, events.drop_last());
        let before = run_events(s, events.drop_last());
        law_step_keeps_order(before, events.last().0, events.last().1);
        lemma_step_goes_forward(before, events.last().0, events.last().1);
    }
}

/// No event takes a run back to an earlier environment.
proof fn lemma_step_goes_forward(s: RunView, event: EventView, now: u64)
    requires
        s.wf(),
    ensures
        s.step(event, now).env_index >= s.env_index,
{
}

/// How many cases of the environment in which `s` stands diverged in the
/// course of `events`.
pub open spec fn diverged_in(s: RunView, events: Seq<(EventView, u64)>) -> nat
    decreases events.len(),
{
    if events.len() == 0 {
        0
    } else {
        let before = run_events(s, events.drop_last());
        let here: nat = if before.env_index == s.env_index && before.case_outcome(
            events.last().0,
        ) == Some(OutcomeView::Diverged) {
            1
        } else {
            0
        };
        diverged_in(s, events.drop_last()) + here
    }
}

/// How many cases of the environment in which `s` stands failed in the
/// course of `events`.
pub open spec fn failed_in(s: RunView, events: Seq<(EventView, u64)>) -> nat
    decreases events.len(),
{
    if events.len() == 0 {
        0
    } else {
        let before = run_events(s, events.drop_last());
        let here: nat = if before.env_index == s.env_index && (before.case_outcome(
            events.last().0,
        ) matches Some(outcome) && outcome is Failed) {
            1
        } else {
            0
        };
        failed_in(s, events.drop_last()) + here
    }
}

/// How many cases of the environment in which `s` stands ended, with
/// whatever outcome, in the course of `events`.
pub open spec fn ended_in(s: RunView, events: Seq<(EventView, u64)>) -> nat
    decreases events.len(),
{
    if events.len() == 0 {
        0
    } else {
        let before = run_events(s, events.drop_last());
        let here: nat = if before.env_index == s.env_index && before.case_outcome(
            events.last().0,
        ) is Some {
            1
        } else {
            0
        };
        ended_in(s, events.drop_last()) + here
    }
}

/// What the counts of the cases that ended say of where the run stands, as
/// long as it stands in the same environment.
spec fn counted(s: RunView, events: Seq<(EventView, u64)>) -> bool {
    let t = run_events(s, events);
    &&& t.wf()
    &&& t.env_index >= s.env_index
    &&& t.env_index == s.env_index ==> {
        &&& t.in_case() || t.phase == Phase::Stopping
        &&& t.cases == s.cases
        &&& t.config == s.config
        &&& noted_diverged(t).len() == s.diverged.len() + diverged_in(s, events)
        &&& noted_failed(t).len() == s.failed.len() + failed_in(s, events)
        &&& t.case_index == s.case_index + ended_in(s, events)
        &&& t.in_case() ==> t.reports == s.reports
        &&& t.phase == Phase::Stopping ==> {
            &&& t.reports.len() == s.reports.len() + 1
            &&& t.reports.last().aborted is None ==> t.case_index == t.cases.len()
            &&& !s.config.fail_fast ==> t.reports.last().aborted is None
        }
    }
}

/// The counts of the cases that ended tell where the run stands.
proof fn lemma_counted(s: RunView, events: Seq<(EventView, u64)>)
    requires
        s.wf(),
        s.in_case(),
    ensures
        counted(s, events),
    decreases events.len(),
{
    if events.len() > 0 {
        lemma_counted(s, events.drop_last());
        let before = run_events(s, events.drop_last());
        let event = events.last().0;
        let now = events.last().1;
        law_step_keeps_order(before, event, now);
        lemma_step_goes_forward(before, event, now);
        let t = before.step(event, now);
        assert(t == run_events(s, events));
        if before.env_index == s.env_index && before.case_outcome(event) is Some {
            assert(before.in_case());
        }
    }
}

/// The report of an environment counts against it the cases that diverged
/// and the cases that failed, whether the run fails fast or not: no case
/// that failed is left out, and an environment in which a case diverged or
/// failed is not reported as a success. Here `s` is a run at the first case
/// of an environment, and `events` lead to the end of that environment's
/// cases.
pub proof fn law_report_counts_diverged_and_failed(s: RunView, events: Seq<(EventView, u64)>)
    requires
        s.wf(),
        s.in_case(),
        s.case_index == 0,
        run_events(s, events).env_index == s.env_index,
        run_events(s, events).phase == Phase::Stopping,
    ensures
        ({
            let report = run_events(s, events).reports.last();
            let count = diverged_in(s, events) + failed_in(s, events);
            &&& report.diverged.len() == diverged_in(s, events)
            &&& report.failed.len() == failed_in(s, events)
            &&& report.error_count() == count
            &&& (report.status() is Ok) == (count == 0)
        }),
{
    lemma_counted(s, events);
}

/// Where the run does not fail fast, every case of an environment is run,
/// whatever became of the cases before it. Here `s` is a run at the first
/// case of an environment, and `events` lead to the end of that
/// environment's cases.
pub proof fn law_without_fail_fast_all_cases_run(s: RunView, events: Seq<(EventView, u64)>)
    requires
        s.wf(),
        s.in_case(),
        s.case_index == 0,
        !s.config.fail_fast,
        run_events(s, events).env_index == s.env_index,
        run_events(s, events).phase == Phase::Stopping,
    ensures
        ended_in(s, events) == s.cases.len(),
        run_events(s, events).reports.last().aborted is None,
{
    lemma_counted(s, events);
}

/// How many cases diverged or failed in the course of `events`, in whatever
/// environment.
pub open spec fn errors_in(s: RunView, events: Seq<(EventView, u64)>) -> nat
    decreases events.len(),
{
    if events.len() == 0 {
        0
    } else {
        let before = run_events(s, events.drop_last());
        let here: nat = match before.case_outcome(events.last().0) {
            Some(OutcomeView::Diverged) => 1,
            Some(OutcomeView::Failed(_)) => 1,
            _ => 0,
        };
        errors_in(s, events.drop_last()) + here
    }
}

/// The cases that the reports and the current environment count, together,
/// are the cases that diverged or failed since the run began.
proof fn lemma_errors_add_up(config: ConfigView, events: Seq<(EventView, u64)>)
    ensures
        ({
            let s = RunView::initial(config);
            let t = run_events(s, events);
            &&& t.wf()
            &&& total_errors(t.reports) + t.diverged.len() + t.failed.len() == errors_in(s, events)
            &&& t.phase != Phase::Finished ==> t.fatal is None
        }),
    decreases events.len(),
{
    let s = RunView::initial(config);
    if events.len() > 0 {
        lemma_errors_add_up(config, events.drop_last());
        let before = run_events(s, events.drop_last());
        let event = events.last().0;
        let now = events.last().1;
        law_step_keeps_order(before, event, now);
        let t = before.step(event, now);
        assert(t == run_events(s, events));
        if t.reports != before.reports {
            if before.phase == Phase::Stopping {
                let rest = before.reports.drop_last();
                assert(before.reports =~= rest.push(before.reports.last()));
                lemma_total_errors_push(rest, before.reports.last());
                lemma_total_errors_push(rest, t.reports.last());
                assert(t.reports =~= rest.push(t.reports.last()));
            } else {
                lemma_total_errors_push(before.reports, t.reports.last());
                assert(t.reports =~= before.reports.push(t.reports.last()));
            }
        }
    } else {
        assert(total_errors(s.reports) == 0);
    }
}

/// A run that has gone through its environments ends well exactly where no
/// case diverged or failed in any of them; else it ends with one `RunFailed`
/// that carries the number of the cases that did.
pub proof fn law_run_fails_with_the_count_of_all(config: ConfigView, events: Seq<(EventView, u64)>)
    requires
        run_events(RunView::initial(config), events).phase == Phase::Finished,
        run_events(RunView::initial(config), events).fatal is None,
    ensures
        ({
            let s = RunView::initial(config);
            let t = run_events(s, events);
            t.result() == if errors_in(s, events) == 0 {
                Ok::<(), ErrorView>(())
            } else {
                Err::<(), ErrorView>(ErrorView::RunFailed { count: errors_in(s, events) })
            }
        }),
{
    lemma_errors_add_up(config, events);
}

} // verus!
