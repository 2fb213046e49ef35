//! What can go wrong in a run.

use vstd::prelude::*;

verus! {

/// A failure of a run or of a part of it. A `reason` is the text in which the
/// outside world reported the failure.
#[derive(Debug, PartialEq, Eq)]
pub enum SqlnessError {
    /// The configuration file at `path` could not be read.
    ConfigUnreadable { path: String, reason: String },
    /// The configuration file `file` does not hold a configuration.
    ConfigMalformed { file: String, reason: String },
    /// The case root directory could not be listed.
    EnvironmentRootUnreadable { reason: String },
    /// A backend could not be started.
    BackendStartFailed { reason: String },
    /// A backend could not be stopped.
    BackendStopFailed { reason: String },
    /// A case could not be executed.
    CaseExecutionFailed { reason: String },
    /// The expected or the actual output of a case could not be read.
    ComparisonIOFailed { reason: String },
    /// The expected or the actual output of a case is not UTF-8 text.
    NonUTF8Output,
    /// The actual output of a case that matched could not be removed.
    OutputRemovalFailed { reason: String },
    /// `count` cases diverged or failed.
    RunFailed { count: u128 },
}

/// A `SqlnessError` as mathematical values.
pub enum ErrorView {
    ConfigUnreadable { path: Seq<char>, reason: Seq<char> },
    ConfigMalformed { file: Seq<char>, reason: Seq<char> },
    EnvironmentRootUnreadable { reason: Seq<char> },
    BackendStartFailed { reason: Seq<char> },
    BackendStopFailed { reason: Seq<char> },
    CaseExecutionFailed { reason: Seq<char> },
    ComparisonIOFailed { reason: Seq<char> },
    NonUTF8Output,
    OutputRemovalFailed { reason: Seq<char> },
    RunFailed { count: nat },
}

impl View for SqlnessError {
    type V = ErrorView;

    open spec fn view(&self) -> ErrorView {
        match self {
            SqlnessError::ConfigUnreadable { path, reason } => ErrorView::ConfigUnreadable {
                path: path@,
                reason: reason@,
            },
            SqlnessError::ConfigMalformed { file, reason } => ErrorView::ConfigMalformed {
                file: file@,
                reason: reason@,
            },
            SqlnessError::EnvironmentRootUnreadable {
                reason,
            } => ErrorView::EnvironmentRootUnreadable { reason: reason@ },
            SqlnessError::BackendStartFailed { reason } => ErrorView::BackendStartFailed {
                reason: reason@,
            },
            SqlnessError::BackendStopFailed { reason } => ErrorView::BackendStopFailed {
                reason: reason@,
            },
            SqlnessError::CaseExecutionFailed { reason } => ErrorView::CaseExecutionFailed {
                reason: reason@,
            },
            SqlnessError::ComparisonIOFailed { reason } => ErrorView::ComparisonIOFailed {
                reason: reason@,
            },
            SqlnessError::NonUTF8Output => ErrorView::NonUTF8Output,
            SqlnessError::OutputRemovalFailed { reason } => ErrorView::OutputRemovalFailed {
                reason: reason@,
            },
            SqlnessError::RunFailed { count } => ErrorView::RunFailed { count: *count as nat },
        }
    }
}

impl DeepView for SqlnessError {
    type V = ErrorView;

    open spec fn deep_view(&self) -> ErrorView {
        self@
    }
}

} // verus!
