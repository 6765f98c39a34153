//! A task: a named item with a deadline or none, in one category.

use crate::category::{valid_name, Category};
use crate::deadline::{
    deadline_named, deadline_of, deadline_text, lemma_deadline_named, lemma_deadline_text,
    valid_minute, Deadline, Minute, NO_DEADLINE,
};
use crate::error::Error;
use crate::text::{
    after_piece, append_str, chars_of, free_of, free_of_char, labelled_piece,
    lemma_free_of_joined, lemma_piece_after, lemma_piece_is_free, piece_after, starts_with,
    string_of, tail, whole_line,
};
use vstd::prelude::*;

verus! {

/// What a task line begins with, before the name.
pub const TASK_LABEL: &'static str = "    Task name: ";

/// What stands between the name and the deadline of a task line.
pub const DEADLINE_LABEL: &'static str = "\tdeadline: ";

/// A task as the contracts speak of it.
pub struct TaskView {
    pub task: Seq<char>,
    pub deadline: Option<Minute>,
    /// The name of the task's category.
    pub category: Seq<char>,
}

/// The two pieces of a task line, as they stand in it.
pub struct TaskFields {
    pub name: Seq<char>,
    pub deadline: Seq<char>,
}

/// A named item of the list.
#[derive(Clone, Debug)]
pub struct Task {
    task: String,
    deadline: Option<Deadline>,
    category: String,
}

/// A change to one field of a task.
#[derive(Clone, Debug)]
pub enum TaskEdit {
    Name(String),
    Deadline(Option<Deadline>),
    /// The place, in the list of categories, of the task's new category.
    Category(usize),
}

/// The minute of a deadline, or none.
pub open spec fn minute_view(deadline: Option<Deadline>) -> Option<Minute> {
    match deadline {
        Some(at) => Some(at@),
        None => None,
    }
}

impl View for Task {
    type V = TaskView;

    closed spec fn view(&self) -> TaskView {
        TaskView {
            task: self.task@,
            deadline: minute_view(self.deadline),
            category: self.category@,
        }
    }
}

/// The tasks of a list as the contracts speak of them.
pub open spec fn task_views(tasks: Seq<Task>) -> Seq<TaskView> {
    Seq::new(tasks.len(), |i: int| tasks[i]@)
}

/// The pieces of a task line: the label of the name, a name without a tab, the label
/// of the deadline, and a deadline that runs to the end of the line. Neither piece is
/// empty. `None` where `line` is no task line.
pub open spec fn task_fields(line: Seq<char>) -> Option<TaskFields> {
    let name = piece_after(line, TASK_LABEL@);
    let after_name = after_piece(line, TASK_LABEL@);
    let deadline = after_name.skip(DEADLINE_LABEL@.len() as int);
    if TASK_LABEL@.is_prefix_of(line) && name.len() > 0 && DEADLINE_LABEL@.is_prefix_of(
        after_name,
    ) && deadline.len() > 0 && free_of(deadline, '\n') {
        Some(TaskFields { name, deadline })
    } else {
        None
    }
}

/// The task of the category `category` that the pieces of a task line write:
/// `InvalidDeadline` where the deadline is neither the word `none` nor a deadline.
pub open spec fn task_parsed(fields: TaskFields, category: Seq<char>) -> Result<TaskView, Error> {
    match deadline_named(fields.deadline) {
        None => Err(Error::InvalidDeadline),
        Some(deadline) => Ok(TaskView { task: fields.name, deadline, category }),
    }
}

/// The line that a store holds for a task, below the line of its category.
pub open spec fn task_line(task: TaskView) -> Seq<char> {
    TASK_LABEL@ + task.task + DEADLINE_LABEL@ + deadline_text(task.deadline)
}

/// A task whose name a line can hold and whose deadline, if it has one, is a minute
/// of the calendar.
pub open spec fn valid_task(task: TaskView) -> bool {
    &&& valid_name(task.task)
    &&& task.deadline is Some ==> valid_minute(task.deadline->0)
}

/// A task after `change`: the one field is new, the others are as they were. A new
/// category is given by its place in `categories`.
pub open spec fn edited_task(
    task: TaskView,
    categories: Seq<Category>,
    change: TaskEdit,
) -> TaskView {
    match change {
        TaskEdit::Name(name) => TaskView { task: name@, ..task },
        TaskEdit::Deadline(deadline) => TaskView { deadline: minute_view(deadline), ..task },
        TaskEdit::Category(index) => TaskView { category: categories[index as int]@.name, ..task },
    }
}

/// The labels of a task line: the first begins with a space, the second with a tab,
/// and neither holds a line feed.
proof fn lemma_task_labels()
    ensures
        TASK_LABEL@.len() > 0,
        TASK_LABEL@[0] == ' ',
        free_of(TASK_LABEL@, '\n'),
        DEADLINE_LABEL@.len() > 0,
        DEADLINE_LABEL@[0] == '\t',
        free_of(DEADLINE_LABEL@, '\n'),
{
    reveal_strlit("    Task name: ");
    reveal_strlit("\tdeadline: ");
}

/// The line of a valid task is a task line that writes that task, and a whole line
/// that begins with a space.
pub proof fn lemma_task_line(task: TaskView)
    requires
        valid_task(task),
    ensures
        task_fields(task_line(task)) is Some,
        task_parsed(task_fields(task_line(task))->0, task.category) == Ok::<TaskView, Error>(
            task,
        ),
        whole_line(task_line(task)),
        task_line(task)[0] == ' ',
{
    lemma_task_labels();
    lemma_deadline_text(task.deadline);
    let line = task_line(task);
    let deadline = deadline_text(task.deadline);
    let after_name = DEADLINE_LABEL@ + deadline;
    assert(line =~= TASK_LABEL@ + task.task + after_name);
    assert(after_name[0] == '\t');
    lemma_piece_after(TASK_LABEL@, task.task, after_name);
    assert(after_name.subrange(0, DEADLINE_LABEL@.len() as int) =~= DEADLINE_LABEL@);
    assert(after_name.skip(DEADLINE_LABEL@.len() as int) =~= deadline);
    assert(free_of(deadline, '\n'));
    lemma_free_of_joined(TASK_LABEL@, task.task, '\n');
    lemma_free_of_joined(DEADLINE_LABEL@, deadline, '\n');
    lemma_free_of_joined(TASK_LABEL@ + task.task, after_name, '\n');
    assert(line =~= (TASK_LABEL@ + task.task) + after_name);
    assert(line.last() == deadline.last());
    assert(line[0] == TASK_LABEL@[0]);
}

/// The task that a task line without a line feed writes is valid.
pub proof fn lemma_task_fields(line: Seq<char>, category: Seq<char>)
    requires
        free_of(line, '\n'),
    ensures
        task_fields(line) matches Some(fields) ==> (task_parsed(fields, category) matches Ok(
            task,
        ) ==> valid_task(task) && task.category == category),
{
    if task_fields(line) is Some {
        let fields = task_fields(line)->0;
        lemma_piece_is_free(line, TASK_LABEL@, '\n');
        lemma_deadline_named(fields.deadline);
    }
}

/// What `line` writes where it is a task line: the task, in the category `category`,
/// or why it writes none. Nothing where it is no task line.
pub(crate) fn task_in(line: &[char], category: &str) -> (r: Option<Result<Task, Error>>)
    ensures
        r is Some <==> task_fields(line@) is Some,
        r is Some ==> match task_parsed(task_fields(line@)->0, category@) {
            Ok(task) => r->0 is Ok && r->0->Ok_0@ == task,
            Err(error) => r->0 is Err && r->0->Err_0 == error,
        },
{
    let name_label = chars_of(TASK_LABEL);
    let deadline_label = chars_of(DEADLINE_LABEL);
    let (name, after_name) = match labelled_piece(line, name_label.as_slice()) {
        Some(found) => found,
        None => {
            return None;
        },
    };
    if !starts_with(after_name, deadline_label.as_slice()) {
        return None;
    }
    let deadline = tail(after_name, deadline_label.len());
    if deadline.len() == 0 || !free_of_char(deadline, '\n') {
        return None;
    }
    match deadline_of(deadline) {
        Ok(deadline) => Some(
            Ok(Task { task: string_of(name), deadline, category: category.to_owned() }),
        ),
        Err(error) => Some(Err(error)),
    }
}

/// Whether `line` is a task line.
pub fn is_task_line(line: &str) -> (r: bool)
    ensures
        r == task_fields(line@) is Some,
{
    let chars = chars_of(line);
    task_in(chars.as_slice(), NO_DEADLINE).is_some()
}

/// The names of the tasks, in their order.
pub fn get_task_names(tasks: &[Task]) -> (names: Vec<&str>)
    ensures
        names@.len() == tasks@.len(),
        forall|i: int| 0 <= i < names@.len() ==> (#[trigger] names@[i])@ == tasks@[i]@.task,
{
    let mut names: Vec<&str> = Vec::with_capacity(tasks.len());
    let mut i: usize = 0;
    while i < tasks.len()
        invariant
            i <= tasks@.len(),
            names@.len() == i,
            forall|j: int| 0 <= j < i ==> (#[trigger] names@[j])@ == tasks@[j]@.task,
        decreases tasks@.len() - i,
    {
        names.push(tasks[i].task.as_str());
        i += 1;
    }
    names
}

impl Task {
    /// A task of the given name and deadline in the category named `category`.
    pub fn new(task: String, deadline: Option<Deadline>, category: String) -> (r: Task)
        ensures
            r@ == (TaskView { task: task@, deadline: minute_view(deadline), category: category@ }),
    {
        Task { task, deadline, category }
    }

    /// The task's name.
    pub fn task(&self) -> (task: &String)
        ensures
            task@ == self@.task,
    {
        &self.task
    }

    /// The task's deadline, or none.
    pub fn deadline(&self) -> (deadline: Option<Deadline>)
        ensures
            minute_view(deadline) == self@.deadline,
    {
        self.deadline
    }

    /// The name of the task's category.
    pub fn category(&self) -> (category: &String)
        ensures
            category@ == self@.category,
    {
        &self.category
    }

    /// The task of the category `category` that the task line `line` writes:
    /// `InvalidDeadline` where its deadline is neither the word `none` nor a deadline.
    pub fn parse(line: &str, category: &str) -> (r: Result<Task, Error>)
        requires
            task_fields(line@) is Some,
        ensures
            match task_parsed(task_fields(line@)->0, category@) {
                Ok(task) => r is Ok && r->Ok_0@ == task,
                Err(error) => r is Err && r->Err_0 == error,
            },
    {
        let chars = chars_of(line);
        match task_in(chars.as_slice(), category) {
            Some(r) => r,
            None => Err(Error::InvalidDeadline),
        }
    }

    /// The line that a store holds for the task.
    pub fn line(&self) -> (line: String)
        ensures
            line@ == task_line(self@),
    {
        let mut line = String::new();
        append_str(&mut line, TASK_LABEL);
        append_str(&mut line, self.task.as_str());
        append_str(&mut line, DEADLINE_LABEL);
        match &self.deadline {
            Some(at) => {
                let text = at.text();
                append_str(&mut line, text.as_str());
            },
            None => {
                append_str(&mut line, NO_DEADLINE);
            },
        }
        assert(line@ =~= task_line(self@));
        line
    }

    /// Makes `change`: the one field is new, the others stay. A new category is one
    /// of `categories`, given by its place there.
    pub fn edit(&mut self, categories: &[Category], change: TaskEdit)
        requires
            change matches TaskEdit::Category(index) ==> index < categories@.len(),
        ensures
            final(self)@ == edited_task(old(self)@, categories@, change),
    {
        match change {
            TaskEdit::Name(name) => {
                self.task = name;
            },
            TaskEdit::Deadline(deadline) => {
                self.deadline = deadline;
            },
            TaskEdit::Category(index) => {
                self.category = categories[index].name().clone();
            },
        }
    }

    /// Moves the task to the category named `category`.
    pub fn move_to(&mut self, category: String)
        ensures
            final(self)@ == (TaskView { category: category@, ..old(self)@ }),
    {
        self.category = category;
    }
}

} // verus!
