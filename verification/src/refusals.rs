//! Which lines end the reading of a store, and with which error.

use crate::category::{
    category_fields, category_parsed, CategoryFields, CategoryView, UNCLASSIFIED,
};
use crate::color::color_named;
use crate::deadline::{timestamp_shape, NO_DEADLINE};
use crate::error::{Error, ParseError};
use crate::probability::{in_unit_range, is_numeral, lemma_probability_range};
use crate::store::{loaded, store_read, with_line, Lists};
use crate::task::{task_fields, task_parsed, TaskFields, TaskView};
use crate::text::{lemma_lines_count, lines_of};
use vstd::prelude::*;

verus! {

/// What `line` fails on wherever it stands: the error of a category line that
/// writes no category, or of a task line that writes no task.
pub open spec fn refusal(line: Seq<char>) -> Option<Error> {
    match with_line(Lists { tasks: Seq::empty(), categories: Seq::empty() }, line) {
        Ok(_) => None,
        Err(kind) => Some(kind),
    }
}

/// A category line whose colour names one of the eight and whose probability is a
/// numeral with a value outside 0 to 1 writes no category: `InvalidProbability`.
pub proof fn lemma_outside_unit_range(fields: CategoryFields)
    requires
        color_named(fields.color) is Some,
        is_numeral(fields.probability),
        !in_unit_range(fields.probability),
    ensures
        category_parsed(fields) == Err::<CategoryView, Error>(Error::InvalidProbability),
{
    lemma_probability_range(fields.probability);
}

/// A task line whose deadline is not the word `none` and has not the shape of a
/// deadline writes no task: `InvalidDeadline`.
pub proof fn lemma_misshapen_deadline(fields: TaskFields, category: Seq<char>)
    requires
        fields.deadline != NO_DEADLINE@,
        !timestamp_shape(fields.deadline),
    ensures
        task_parsed(fields, category) == Err::<TaskView, Error>(Error::InvalidDeadline),
{
}

/// A line fails or not whatever was read before it.
pub proof fn lemma_refusal(so_far: Lists, line: Seq<char>)
    ensures
        match refusal(line) {
            Some(kind) => with_line(so_far, line) == Err::<Lists, Error>(kind),
            None => with_line(so_far, line) is Ok,
        },
{
}

/// Lines are read where none of them fails, and there alone; where some fail, the
/// reading ends at the first of them, with its error.
pub proof fn lemma_loaded_fails_first(lines: Seq<Seq<char>>)
    requires
        lines.len() <= usize::MAX,
    ensures
        match loaded(lines) {
            Ok(_) => forall|i: int| 0 <= i < lines.len() ==> refusal(#[trigger] lines[i]) is None,
            Err(error) => error.line < lines.len() && refusal(lines[error.line as int]) == Some(
                error.kind,
            ) && forall|i: int| 0 <= i < error.line ==> refusal(#[trigger] lines[i]) is None,
        },
    decreases lines.len(),
{
    if lines.len() > 0 {
        let front = lines.drop_last();
        lemma_loaded_fails_first(front);
        assert forall|i: int| 0 <= i < front.len() implies front[i] == lines[i] by {}
        match loaded(front) {
            Ok(so_far) => {
                lemma_refusal(so_far, lines.last());
                assert(lines[lines.len() - 1] == lines.last());
                match loaded(lines) {
                    Ok(_) => {
                        assert forall|i: int| 0 <= i < lines.len() implies refusal(
                            #[trigger] lines[i],
                        ) is None by {
                            if i < front.len() {
                                assert(front[i] == lines[i]);
                            }
                        }
                    },
                    Err(error) => {
                        assert forall|i: int| 0 <= i < error.line implies refusal(
                            #[trigger] lines[i],
                        ) is None by {
                            assert(front[i] == lines[i]);
                        }
                    },
                }
            },
            Err(error) => {
                assert(front[error.line as int] == lines[error.line as int]);
                assert forall|i: int| 0 <= i < error.line implies refusal(
                    #[trigger] lines[i],
                ) is None by {
                    assert(front[i] == lines[i]);
                }
            },
        }
    }
}

/// The text of a store is read where none of its lines fails, and there alone;
/// where some fail, the reading ends at the first of them, with its error.
pub proof fn lemma_read_fails_first(text: Seq<char>)
    requires
        text.len() <= usize::MAX,
    ensures
        match store_read(text) {
            Ok(_) => forall|i: int|
                0 <= i < lines_of(text).len() ==> refusal(#[trigger] lines_of(text)[i]) is None,
            Err(error) => error.line < lines_of(text).len() && refusal(
                lines_of(text)[error.line as int],
            ) == Some(error.kind) && forall|i: int|
                0 <= i < error.line ==> refusal(#[trigger] lines_of(text)[i]) is None,
        },
{
    lemma_lines_count(text);
    lemma_loaded_fails_first(lines_of(text));
}

/// A text with a category line whose colour names one of the eight and whose
/// probability is a numeral with a value outside 0 to 1 is not read; where no line
/// above that one fails, the reading ends there with `InvalidProbability`.
pub proof fn lemma_probability_refused(text: Seq<char>, at: int)
    requires
        text.len() <= usize::MAX,
        0 <= at < lines_of(text).len(),
        category_fields(lines_of(text)[at]) is Some,
        color_named(category_fields(lines_of(text)[at])->0.color) is Some,
        is_numeral(category_fields(lines_of(text)[at])->0.probability),
        !in_unit_range(category_fields(lines_of(text)[at])->0.probability),
    ensures
        store_read(text) is Err,
        store_read(text)->Err_0.line <= at,
        (forall|i: int| 0 <= i < at ==> refusal(#[trigger] lines_of(text)[i]) is None)
            ==> store_read(text) == Err::<Lists, ParseError>(
            ParseError { kind: Error::InvalidProbability, line: at as usize },
        ),
{
    lemma_outside_unit_range(category_fields(lines_of(text)[at])->0);
    lemma_read_fails_first(text);
    lemma_lines_count(text);
    assert(refusal(lines_of(text)[at]) == Some(Error::InvalidProbability));
}

/// A text with a task line whose deadline is not the word `none` and has not the
/// shape of a deadline is not read; where no line above that one fails, the
/// reading ends there with `InvalidDeadline`.
pub proof fn lemma_deadline_refused(text: Seq<char>, at: int)
    requires
        text.len() <= usize::MAX,
        0 <= at < lines_of(text).len(),
        category_fields(lines_of(text)[at]) is None,
        task_fields(lines_of(text)[at]) is Some,
        task_fields(lines_of(text)[at])->0.deadline != NO_DEADLINE@,
        !timestamp_shape(task_fields(lines_of(text)[at])->0.deadline),
    ensures
        store_read(text) is Err,
        store_read(text)->Err_0.line <= at,
        (forall|i: int| 0 <= i < at ==> refusal(#[trigger] lines_of(text)[i]) is None)
            ==> store_read(text) == Err::<Lists, ParseError>(
            ParseError { kind: Error::InvalidDeadline, line: at as usize },
        ),
{
    lemma_misshapen_deadline(task_fields(lines_of(text)[at])->0, UNCLASSIFIED@);
    lemma_read_fails_first(text);
    lemma_lines_count(text);
    assert(refusal(lines_of(text)[at]) == Some(Error::InvalidDeadline));
}

} // verus!
