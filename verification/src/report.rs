//! What a run reports: the outcome of each case and, for each environment,
//! the cases that diverged and those that failed.

use vstd::prelude::*;
use crate::error::{ErrorView, SqlnessError};

verus! {

impl SqlnessError {
    /// A copy of the error.
    pub fn duplicate(&self) -> (r: SqlnessError)
        ensures
            r@ == self@,
    {
        match self {
            SqlnessError::ConfigUnreadable { path, reason } => SqlnessError::ConfigUnreadable {
                path: path.clone(),
                reason: reason.clone(),
            },
            SqlnessError::ConfigMalformed { file, reason } => SqlnessError::ConfigMalformed {
                file: file.clone(),
                reason: reason.clone(),
            },
            SqlnessError::EnvironmentRootUnreadable {
                reason,
            } => SqlnessError::EnvironmentRootUnreadable { reason: reason.clone() },
            SqlnessError::BackendStartFailed { reason } => SqlnessError::BackendStartFailed {
                reason: reason.clone(),
            },
            SqlnessError::BackendStopFailed { reason } => SqlnessError::BackendStopFailed {
                reason: reason.clone(),
            },
            SqlnessError::CaseExecutionFailed { reason } => SqlnessError::CaseExecutionFailed {
                reason: reason.clone(),
            },
            SqlnessError::ComparisonIOFailed { reason } => SqlnessError::ComparisonIOFailed {
                reason: reason.clone(),
            },
            SqlnessError::NonUTF8Output => SqlnessError::NonUTF8Output,
            SqlnessError::OutputRemovalFailed { reason } => SqlnessError::OutputRemovalFailed {
                reason: reason.clone(),
            },
            SqlnessError::RunFailed { count } => SqlnessError::RunFailed { count: *count },
        }
    }
}

/// How a case ended.
#[derive(Debug, PartialEq, Eq)]
pub enum CaseOutcome {
    /// The case wrote what was expected of it.
    Matched,
    /// The case wrote something else than was expected of it.
    Diverged,
    /// The case gave no output that could be compared.
    Failed(SqlnessError),
}

/// A `CaseOutcome` as mathematical values.
pub enum OutcomeView {
    Matched,
    Diverged,
    Failed(ErrorView),
}

impl View for CaseOutcome {
    type V = OutcomeView;

    open spec fn view(&self) -> OutcomeView {
        match self {
            CaseOutcome::Matched => OutcomeView::Matched,
            CaseOutcome::Diverged => OutcomeView::Diverged,
            CaseOutcome::Failed(error) => OutcomeView::Failed(error@),
        }
    }
}

impl DeepView for CaseOutcome {
    type V = OutcomeView;

    open spec fn deep_view(&self) -> OutcomeView {
        self@
    }
}

/// A case that failed, with the error that it failed with.
#[derive(Debug, PartialEq, Eq)]
pub struct CaseFailure {
    pub case: String,
    pub error: SqlnessError,
}

/// A `CaseFailure` as mathematical values.
pub struct FailureView {
    pub case: Seq<char>,
    pub error: ErrorView,
}

impl View for CaseFailure {
    type V = FailureView;

    open spec fn view(&self) -> FailureView {
        FailureView { case: self.case@, error: self.error@ }
    }
}

impl DeepView for CaseFailure {
    type V = FailureView;

    open spec fn deep_view(&self) -> FailureView {
        self@
    }
}

/// What the run of one environment gave.
#[derive(Debug, PartialEq, Eq)]
pub struct RunReport {
    /// The environment.
    pub env: String,
    /// The cases that diverged, in the order in which they ran.
    pub diverged: Vec<String>,
    /// The cases that failed, in the order in which they ran.
    pub failed: Vec<CaseFailure>,
    /// The case whose failure ended the cases of the environment before the
    /// last of them. It is the last of `failed` too.
    pub aborted: Option<CaseFailure>,
    /// The error with which the backend failed to start or to stop.
    pub backend_error: Option<SqlnessError>,
    /// The milliseconds that running the cases took.
    pub elapsed_ms: u64,
}

/// A `RunReport` as mathematical values.
#[verifier::ext_equal]
pub struct ReportView {
    pub env: Seq<char>,
    pub diverged: Seq<Seq<char>>,
    pub failed: Seq<FailureView>,
    pub aborted: Option<FailureView>,
    pub backend_error: Option<ErrorView>,
    pub elapsed_ms: u64,
}

impl View for RunReport {
    type V = ReportView;

    open spec fn view(&self) -> ReportView {
        ReportView {
            env: self.env@,
            diverged: self.diverged.deep_view(),
            failed: self.failed.deep_view(),
            aborted: self.aborted.deep_view(),
            backend_error: self.backend_error.deep_view(),
            elapsed_ms: self.elapsed_ms,
        }
    }
}

impl DeepView for RunReport {
    type V = ReportView;

    open spec fn deep_view(&self) -> ReportView {
        self@
    }
}

impl ReportView {
    /// The number of cases that count against the environment: those that
    /// diverged and those that failed.
    pub open spec fn error_count(self) -> nat {
        self.diverged.len() + self.failed.len()
    }

    /// The verdict on the environment: no error where no case counts against
    /// it, else `RunFailed` with their number.
    pub open spec fn status(self) -> Result<(), ErrorView> {
        if self.error_count() == 0 {
            Ok(())
        } else {
            Err(ErrorView::RunFailed { count: self.error_count() })
        }
    }
}

/// A verdict as mathematical values.
pub open spec fn status_view(status: Result<(), SqlnessError>) -> Result<(), ErrorView> {
    match status {
        Ok(()) => Ok(()),
        Err(error) => Err(error@),
    }
}

impl RunReport {
    /// The number of cases that diverged or failed.
    pub fn error_count(&self) -> (count: u128)
        ensures
            count == self@.error_count(),
    {
        let diverged: u128 = self.diverged.len() as u128;
        let failed: u128 = self.failed.len() as u128;
        diverged + failed
    }

    /// The verdict on the environment.
    pub fn status(&self) -> (r: Result<(), SqlnessError>)
        ensures
            status_view(r) == self@.status(),
    {
        let count = self.error_count();
        if count == 0 {
            Ok(())
        } else {
            Err(SqlnessError::RunFailed { count })
        }
    }
}

} // verus!
