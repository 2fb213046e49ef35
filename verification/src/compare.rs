//! Telling whether what a case wrote is what was expected of it.

use vstd::prelude::*;
use vstd::utf8::{decode_utf8, valid_utf8};
use crate::config::{Config, ConfigView};
use crate::error::{ErrorView, SqlnessError};
use crate::text::append_text;

verus! {

/// One step of a line diff: what it says of a run of lines.
#[derive(Clone, Copy, Debug, PartialEq, Eq, Structural)]
pub enum LineOp {
    /// The lines are in the second text only.
    Insert,
    /// The lines of the first text stand changed in the second.
    Replace,
    /// The lines are in the first text only.
    Remove,
    /// The lines are the same in both texts.
    Equal,
}

/// The steps of the line diff that leads from the text `expected` to the text
/// `actual`, in order. The diff is a function of the two texts.
pub uninterp spec fn line_ops(expected: Seq<char>, actual: Seq<char>) -> Seq<LineOp>;

/// Calls `prettydiff::diff_lines` on the two texts and `LineChangeset::diff`
/// on what it returns, and keeps of each step which of the four kinds it is.
/// The contract only gives that sequence of kinds its name, `line_ops`:
/// nothing is claimed of what the diff finds.
#[verifier::external_body]
pub(crate) fn line_diff(expected: &str, actual: &str) -> (ops: Vec<LineOp>)
    ensures
        ops@ == line_ops(expected@, actual@),
{
    prettydiff::diff_lines(expected, actual).diff().iter().map(
        |op| match op {
            prettydiff::basic::DiffOp::Insert(_) => LineOp::Insert,
            prettydiff::basic::DiffOp::Replace(_, _) => LineOp::Replace,
            prettydiff::basic::DiffOp::Remove(_) => LineOp::Remove,
            prettydiff::basic::DiffOp::Equal(_) => LineOp::Equal,
        },
    ).collect()
}

/// Some step of the diff is not `Equal`.
pub open spec fn has_change(ops: Seq<LineOp>) -> bool {
    exists|i: int| 0 <= i < ops.len() && #[trigger] ops[i] != LineOp::Equal
}

/// Whether a diff holds a step other than `Equal`.
pub fn any_change(ops: &Vec<LineOp>) -> (r: bool)
    ensures
        r == has_change(ops@),
{
    let mut i: usize = 0;
    while i < ops.len()
        invariant
            i <= ops.len(),
            forall|j: int| 0 <= j < i ==> ops@[j] == LineOp::Equal,
        decreases ops.len() - i,
    {
        if ops[i] != LineOp::Equal {
            return true;
        }
        i = i + 1;
    }
    false
}

/// The text `actual` diverges from the text `expected`: the two are not the
/// same text, and their line diff holds a step other than `Equal`.
pub open spec fn texts_diverge(expected: Seq<char>, actual: Seq<char>) -> bool {
    expected != actual && has_change(line_ops(expected, actual))
}

/// Whether `actual` diverges from `expected`. The same text never diverges
/// from itself; two different texts are handed to the line diff.
pub fn diverges(expected: &String, actual: &String) -> (r: bool)
    ensures
        r == texts_diverge(expected@, actual@),
{
    if *expected == *actual {
        false
    } else {
        let ops = line_diff(expected.as_str(), actual.as_str());
        any_change(&ops)
    }
}

/// Calls `String::from_utf8` and drops the error's details. Bytes that are a
/// UTF-8 encoding give the text that they encode; any other bytes give
/// `None`.
#[verifier::external_body]
pub(crate) fn decode(bytes: Vec<u8>) -> (r: Option<String>)
    ensures
        r is Some <==> valid_utf8(bytes@),
        r matches Some(text) ==> text@ == decode_utf8(bytes@),
{
    String::from_utf8(bytes).ok()
}

/// What reading a file gave, as mathematical values: its bytes, or the reason
/// why it could not be read.
pub open spec fn read_view(read: Result<Vec<u8>, String>) -> Result<Seq<u8>, Seq<char>> {
    match read {
        Ok(bytes) => Ok(bytes@),
        Err(reason) => Err(reason@),
    }
}

/// A verdict as mathematical values.
pub open spec fn verdict_view(verdict: Result<bool, SqlnessError>) -> Result<bool, ErrorView> {
    match verdict {
        Ok(diverged) => Ok(diverged),
        Err(error) => Err(error@),
    }
}

/// The verdict on a case from what reading its two files gave: whether the
/// actual output diverges from the expected one. The expected output is
/// looked at first: a file that could not be read gives
/// `ComparisonIOFailed` with its reason, bytes that are no UTF-8 text give
/// `NonUTF8Output`.
pub open spec fn comparison(
    expected: Result<Seq<u8>, Seq<char>>,
    actual: Result<Seq<u8>, Seq<char>>,
) -> Result<bool, ErrorView> {
    match expected {
        Err(reason) => Err(ErrorView::ComparisonIOFailed { reason }),
        Ok(e) => if !valid_utf8(e) {
            Err(ErrorView::NonUTF8Output)
        } else {
            match actual {
                Err(reason) => Err(ErrorView::ComparisonIOFailed { reason }),
                Ok(a) => if !valid_utf8(a) {
                    Err(ErrorView::NonUTF8Output)
                } else {
                    Ok(texts_diverge(decode_utf8(e), decode_utf8(a)))
                },
            }
        },
    }
}

/// Compares the expected output of a case with its actual output, each given
/// as what reading its file gave. `Ok(true)` says that the case diverged.
pub fn compare(expected: Result<Vec<u8>, String>, actual: Result<Vec<u8>, String>) -> (r: Result<
    bool,
    SqlnessError,
>)
    ensures
        verdict_view(r) == comparison(read_view(expected), read_view(actual)),
{
    let expected_bytes = match expected {
        Ok(bytes) => bytes,
        Err(reason) => {
            return Err(SqlnessError::ComparisonIOFailed { reason });
        },
    };
    let expected_text = match decode(expected_bytes) {
        Some(text) => text,
        None => {
            return Err(SqlnessError::NonUTF8Output);
        },
    };
    let actual_bytes = match actual {
        Ok(bytes) => bytes,
        Err(reason) => {
            return Err(SqlnessError::ComparisonIOFailed { reason });
        },
    };
    let actual_text = match decode(actual_bytes) {
        Some(text) => text,
        None => {
            return Err(SqlnessError::NonUTF8Output);
        },
    };
    Ok(diverges(&expected_text, &actual_text))
}

/// What is said of a case that diverged: the case, and a `diff` command on
/// its two files, the actual output first.
pub open spec fn divergence_notice(config: ConfigView, case: Seq<char>) -> Seq<char> {
    "Result unexpected, path:\""@ + case + "\"\nHint: compare them with \"diff "@
        + config.output_file(case) + " "@ + config.expect_file(case) + "\"\n"@
}

/// The notice for the case `case`, which diverged.
pub fn divergence_hint(config: &Config, case: &str) -> (r: String)
    ensures
        r@ == divergence_notice(config@, case@),
{
    let output_file = config.output_file(case);
    let expect_file = config.expect_file(case);
    let r = append_text("Result unexpected, path:\"", case);
    let r = append_text(r.as_str(), "\"\nHint: compare them with \"diff ");
    let r = append_text(r.as_str(), output_file.as_str());
    let r = append_text(r.as_str(), " ");
    let r = append_text(r.as_str(), expect_file.as_str());
    append_text(r.as_str(), "\"\n")
}

} // verus!
