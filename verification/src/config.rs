//! What a run is configured with.

use vstd::prelude::*;
use crate::path::{add_extension, join, join_paths, with_added_extension};

verus! {

/// The settings of a run.
#[derive(Debug, PartialEq, Eq)]
pub struct Config {
    /// The directory under which each environment has a directory of its own.
    pub case_dir: String,
    /// The name of the file, inside an environment's directory, that
    /// configures the environment's backend.
    pub env_config_file: String,
    /// Whether the first case that fails ends its environment's run.
    pub fail_fast: bool,
    /// The extension of a case definition file.
    pub test_case_extension: String,
    /// The extension of a file that holds the output expected of a case.
    pub expect_result_extension: String,
    /// The extension of the file into which a case's output is written.
    pub output_result_extension: String,
    /// The text that the file name of a case must contain to be run.
    pub test_filter: String,
}

/// A `Config` as mathematical values.
pub struct ConfigView {
    pub case_dir: Seq<char>,
    pub env_config_file: Seq<char>,
    pub fail_fast: bool,
    pub test_case_extension: Seq<char>,
    pub expect_result_extension: Seq<char>,
    pub output_result_extension: Seq<char>,
    pub test_filter: Seq<char>,
}

impl View for Config {
    type V = ConfigView;

    open spec fn view(&self) -> ConfigView {
        ConfigView {
            case_dir: self.case_dir@,
            env_config_file: self.env_config_file@,
            fail_fast: self.fail_fast,
            test_case_extension: self.test_case_extension@,
            expect_result_extension: self.expect_result_extension@,
            output_result_extension: self.output_result_extension@,
            test_filter: self.test_filter@,
        }
    }
}

impl ConfigView {
    /// The directory of the environment `env`.
    pub open spec fn env_dir(self, env: Seq<char>) -> Seq<char> {
        join(self.case_dir, env)
    }

    /// Where the backend configuration of the environment `env` is looked for.
    pub open spec fn env_config_path(self, env: Seq<char>) -> Seq<char> {
        join(self.env_dir(env), self.env_config_file)
    }

    /// The definition file of the case `case`: the case with the case
    /// extension put after it.
    pub open spec fn case_file(self, case: Seq<char>) -> Seq<char> {
        add_extension(case, self.test_case_extension)
    }

    /// The file that holds the output expected of the case `case`.
    pub open spec fn expect_file(self, case: Seq<char>) -> Seq<char> {
        add_extension(case, self.expect_result_extension)
    }

    /// The file into which the output of the case `case` is written.
    pub open spec fn output_file(self, case: Seq<char>) -> Seq<char> {
        add_extension(case, self.output_result_extension)
    }
}

impl Config {
    /// The directory of the environment `env`.
    pub fn env_dir(&self, env: &str) -> (r: String)
        ensures
            r@ == self@.env_dir(env@),
    {
        join_paths(self.case_dir.as_str(), env)
    }

    /// Where the backend configuration of the environment `env` is looked for.
    pub fn read_env_config(&self, env: &str) -> (r: String)
        ensures
            r@ == self@.env_config_path(env@),
    {
        let dir = self.env_dir(env);
        join_paths(dir.as_str(), self.env_config_file.as_str())
    }

    /// The definition file of the case `case`.
    pub fn case_file(&self, case: &str) -> (r: String)
        ensures
            r@ == self@.case_file(case@),
    {
        with_added_extension(case, self.test_case_extension.as_str())
    }

    /// The file that holds the output expected of the case `case`.
    pub fn expect_file(&self, case: &str) -> (r: String)
        ensures
            r@ == self@.expect_file(case@),
    {
        with_added_extension(case, self.expect_result_extension.as_str())
    }

    /// The file into which the output of the case `case` is written.
    pub fn output_file(&self, case: &str) -> (r: String)
        ensures
            r@ == self@.output_file(case@),
    {
        with_added_extension(case, self.output_result_extension.as_str())
    }
}

} // verus!
