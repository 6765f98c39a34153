//! The edits of the two lists: adding, changing and deleting a category or a task.

use crate::category::{
    category_views, edited_category, unclassified, Category, CategoryEdit, CategoryView,
    UNCLASSIFIED,
};
use crate::color::Color;
use crate::deadline::Deadline;
use crate::error::Error;
use crate::probability::Probability;
use crate::store::{completed, has_category, has_unclassified, save, store_text, Lists};
use crate::task::{edited_task, minute_view, task_views, Task, TaskEdit, TaskView};
use vstd::prelude::*;

verus! {

/// An edit of the list of categories.
#[derive(Clone, Debug)]
pub enum CategoryAction {
    /// Puts a new category behind the others.
    Add { name: String, probability: Probability, color: Color },
    /// Changes one field of the category at the place `index`.
    Edit { index: usize, change: CategoryEdit },
    /// Deletes the category at the place `index` and moves its tasks to
    /// `Unclassified`.
    Delete { index: usize },
}

/// An edit of the list of tasks.
#[derive(Clone, Debug)]
pub enum TaskAction {
    /// Puts a new task behind the others, in the category at the place `category`.
    Add { task: String, deadline: Option<Deadline>, category: usize },
    /// Changes one field of the task at the place `index`.
    Edit { index: usize, change: TaskEdit },
    /// Deletes the task at the place `index`.
    Delete { index: usize },
}

/// The place that `action` names is one of `categories`.
pub open spec fn category_action_fits(categories: Seq<Category>, action: CategoryAction) -> bool {
    match action {
        CategoryAction::Add { .. } => true,
        CategoryAction::Edit { index, .. } => index < categories.len(),
        CategoryAction::Delete { index } => index < categories.len(),
    }
}

/// The places that `action` names are among `tasks` and `categories`.
pub open spec fn task_action_fits(
    tasks: Seq<Task>,
    categories: Seq<Category>,
    action: TaskAction,
) -> bool {
    match action {
        TaskAction::Add { category, .. } => category < categories.len(),
        TaskAction::Edit { index, change } => {
            &&& index < tasks.len()
            &&& change matches TaskEdit::Category(place) ==> place < categories.len()
        },
        TaskAction::Delete { index } => index < tasks.len(),
    }
}

/// The tasks with each task of the category `from` moved to `Unclassified`.
pub open spec fn moved_out(tasks: Seq<TaskView>, from: Seq<char>) -> Seq<TaskView> {
    Seq::new(
        tasks.len(),
        |i: int|
            if tasks[i].category == from {
                TaskView { category: UNCLASSIFIED@, ..tasks[i] }
            } else {
                tasks[i]
            },
    )
}

/// The two lists after an edit of the categories. To delete `Unclassified` is
/// `ProtectedCategory`. To delete another category moves its tasks to
/// `Unclassified`, puts `Unclassified` behind the categories where it is not among
/// them, and takes the category out.
pub open spec fn after_category_action(
    categories: Seq<Category>,
    tasks: Seq<Task>,
    action: CategoryAction,
) -> Result<Lists, Error> {
    let all = category_views(categories);
    let items = task_views(tasks);
    match action {
        CategoryAction::Add { name, probability, color } => Ok(
            Lists {
                tasks: items,
                categories: all.push(
                    CategoryView { name: name@, probability: probability@, color },
                ),
            },
        ),
        CategoryAction::Edit { index, change } => Ok(
            Lists {
                tasks: items,
                categories: all.update(index as int, edited_category(all[index as int], change)),
            },
        ),
        CategoryAction::Delete { index } => if all[index as int].name == UNCLASSIFIED@ {
            Err(Error::ProtectedCategory)
        } else {
            Ok(
                Lists {
                    tasks: moved_out(items, all[index as int].name),
                    categories: completed(all).remove(index as int),
                },
            )
        },
    }
}

/// The tasks after an edit of them.
pub open spec fn after_task_action(
    tasks: Seq<Task>,
    categories: Seq<Category>,
    action: TaskAction,
) -> Seq<TaskView> {
    let items = task_views(tasks);
    match action {
        TaskAction::Add { task, deadline, category } => items.push(
            TaskView {
                task: task@,
                deadline: minute_view(deadline),
                category: categories[category as int]@.name,
            },
        ),
        TaskAction::Edit { index, change } => items.update(
            index as int,
            edited_task(items[index as int], categories, change),
        ),
        TaskAction::Delete { index } => items.remove(index as int),
    }
}

/// After a category other than `Unclassified` is deleted, `Unclassified` is among
/// the categories, every task that named the deleted category names `Unclassified`
/// and is as it was otherwise, every other task is as it was, and no task names the
/// deleted category. Where no two categories had one name, the deleted one is no
/// longer among them.
pub proof fn lemma_category_deleted(
    categories: Seq<CategoryView>,
    tasks: Seq<TaskView>,
    index: int,
)
    requires
        0 <= index < categories.len(),
        categories[index].name != UNCLASSIFIED@,
    ensures
        has_category(completed(categories).remove(index), UNCLASSIFIED@),
        moved_out(tasks, categories[index].name).len() == tasks.len(),
        forall|i: int|
            0 <= i < tasks.len() ==> (#[trigger] moved_out(tasks, categories[index].name)[i])
                == if tasks[i].category == categories[index].name {
                TaskView { category: UNCLASSIFIED@, ..tasks[i] }
            } else {
                tasks[i]
            },
        forall|i: int|
            0 <= i < tasks.len() ==> (#[trigger] moved_out(
                tasks,
                categories[index].name,
            )[i]).category != categories[index].name,
        (forall|i: int, j: int|
            0 <= i < j < categories.len() ==> (#[trigger] categories[i]).name != (
            #[trigger] categories[j]).name) ==> !has_category(
            completed(categories).remove(index),
            categories[index].name,
        ),
{
    let all = completed(categories);
    let left = all.remove(index);
    let name = categories[index].name;
    assert(has_category(all, UNCLASSIFIED@)) by {
        if !has_category(categories, UNCLASSIFIED@) {
            assert(all[categories.len() as int].name == UNCLASSIFIED@);
        }
    }
    let at = choose|i: int| 0 <= i < all.len() && (#[trigger] all[i]).name == UNCLASSIFIED@;
    assert(all[index] == categories[index]);
    if at < index {
        assert(left[at] == all[at]);
    } else {
        assert(left[at - 1] == all[at]);
    }
    if forall|i: int, j: int|
        0 <= i < j < categories.len() ==> (#[trigger] categories[i]).name != (
        #[trigger] categories[j]).name {
        if has_category(left, name) {
            let k = choose|k: int| 0 <= k < left.len() && (#[trigger] left[k]).name == name;
            if k < index {
                assert(left[k] == categories[k]);
            } else {
                assert(left[k] == all[k + 1]);
                if k + 1 < categories.len() {
                    assert(all[k + 1] == categories[k + 1]);
                }
            }
        }
    }
}

/// After `Unclassified` is asked to be deleted, nothing is deleted.
pub proof fn lemma_unclassified_stays(
    categories: Seq<Category>,
    tasks: Seq<Task>,
    index: usize,
)
    requires
        index < categories.len(),
        categories[index as int]@.name == UNCLASSIFIED@,
    ensures
        after_category_action(categories, tasks, CategoryAction::Delete { index }) == Err::<
            Lists,
            Error,
        >(Error::ProtectedCategory),
{
}

fn move_tasks(tasks: &mut [Task], from: &String)
    ensures
        task_views(final(tasks)@) == moved_out(task_views(old(tasks)@), from@),
{
    let ghost before = task_views(tasks@);
    let mut i: usize = 0;
    while i < tasks.len()
        invariant
            i <= tasks@.len(),
            tasks@.len() == before.len(),
            forall|j: int| 0 <= j < i ==> (#[trigger] tasks@[j])@ == moved_out(before, from@)[j],
            forall|j: int| i <= j < tasks@.len() ==> (#[trigger] tasks@[j])@ == before[j],
        decreases tasks@.len() - i,
    {
        if *tasks[i].category() == *from {
            tasks[i].move_to(UNCLASSIFIED.to_owned());
        }
        i += 1;
    }
    assert(task_views(tasks@) =~= moved_out(before, from@));
}

/// Makes one edit of the categories. A new category goes behind the others. A
/// change of a category touches its one field and no task. To delete
/// `Unclassified` fails with `ProtectedCategory` and leaves both lists as they
/// were; to delete another category moves its tasks to `Unclassified`, which is put
/// behind the categories where it is not among them, and takes the category out.
pub fn edit_categories(
    categories: &mut Vec<Category>,
    tasks: &mut [Task],
    action: CategoryAction,
) -> (r: Result<(), Error>)
    requires
        category_action_fits(old(categories)@, action),
    ensures
        match after_category_action(old(categories)@, old(tasks)@, action) {
            Ok(lists) => r is Ok && category_views(final(categories)@) == lists.categories
                && task_views(final(tasks)@) == lists.tasks,
            Err(error) => r == Err::<(), Error>(error) && final(categories)@ == old(categories)@
                && final(tasks)@ == old(tasks)@,
        },
{
    let ghost all = category_views(categories@);
    match action {
        CategoryAction::Add { name, probability, color } => {
            let category = Category::new(name, probability, color);
            categories.push(category);
            assert(category_views(categories@) =~= all.push(category@));
            Ok(())
        },
        CategoryAction::Edit { index, change } => {
            categories[index].edit(change);
            assert(category_views(categories@) =~= all.update(
                index as int,
                edited_category(all[index as int], change),
            ));
            Ok(())
        },
        CategoryAction::Delete { index } => {
            let name = categories[index].name().clone();
            let protected = UNCLASSIFIED.to_owned();
            if name == protected {
                return Err(Error::ProtectedCategory);
            }
            move_tasks(tasks, &name);
            if !has_unclassified(categories) {
                categories.push(Category::unclassified());
                assert(category_views(categories@) =~= all.push(unclassified()));
            }
            let ghost full = category_views(categories@);
            categories.remove(index);
            assert(category_views(categories@) =~= full.remove(index as int));
            Ok(())
        },
    }
}

/// Makes one edit of the tasks. A new task goes behind the others, in the category
/// at the given place. A change of a task touches its one field. A deleted task
/// leaves the others in their order.
pub fn edit_tasks(tasks: &mut Vec<Task>, categories: &[Category], action: TaskAction)
    requires
        task_action_fits(old(tasks)@, categories@, action),
    ensures
        task_views(final(tasks)@) == after_task_action(old(tasks)@, categories@, action),
{
    let ghost items = task_views(tasks@);
    match action {
        TaskAction::Add { task, deadline, category } => {
            let added = Task::new(task, deadline, categories[category].name().clone());
            tasks.push(added);
            assert(task_views(tasks@) =~= items.push(added@));
        },
        TaskAction::Edit { index, change } => {
            tasks[index].edit(categories, change);
            assert(task_views(tasks@) =~= items.update(
                index as int,
                edited_task(items[index as int], categories@, change),
            ));
        },
        TaskAction::Delete { index } => {
            tasks.remove(index);
            assert(task_views(tasks@) =~= items.remove(index as int));
        },
    }
}

/// What one round of the edit mode is asked to do.
#[derive(Clone, Debug)]
pub enum Request {
    /// Make an edit of the categories.
    Category(CategoryAction),
    /// Make an edit of the tasks.
    Task(TaskAction),
    /// Stop editing.
    Finish,
}

/// The places that `request` names are among `categories` and `tasks`.
pub open spec fn request_fits(
    categories: Seq<Category>,
    tasks: Seq<Task>,
    request: Request,
) -> bool {
    match request {
        Request::Category(action) => category_action_fits(categories, action),
        Request::Task(action) => task_action_fits(tasks, categories, action),
        Request::Finish => true,
    }
}

/// The two lists after one round of the edit mode.
pub open spec fn after_request(
    categories: Seq<Category>,
    tasks: Seq<Task>,
    request: Request,
) -> Result<Lists, Error> {
    match request {
        Request::Category(action) => after_category_action(categories, tasks, action),
        Request::Task(action) => Ok(
            Lists {
                tasks: after_task_action(tasks, categories, action),
                categories: category_views(categories),
            },
        ),
        Request::Finish => Ok(
            Lists { tasks: task_views(tasks), categories: category_views(categories) },
        ),
    }
}

/// One round of the edit mode: makes the edit that is asked for, or, asked to stop,
/// leaves the lists as they are and gives the text to write for them. An edit that
/// fails leaves both lists as they were.
pub fn edit_mode(categories: &mut Vec<Category>, tasks: &mut Vec<Task>, request: Request) -> (r:
    Result<Option<String>, Error>)
    requires
        request_fits(old(categories)@, old(tasks)@, request),
    ensures
        match after_request(old(categories)@, old(tasks)@, request) {
            Ok(lists) => category_views(final(categories)@) == lists.categories && task_views(
                final(tasks)@,
            ) == lists.tasks && match r {
                Ok(Some(text)) => request is Finish && text@ == store_text(
                    lists.categories,
                    lists.tasks,
                ),
                Ok(None) => !(request is Finish),
                Err(_) => false,
            },
            Err(error) => r == Err::<Option<String>, Error>(error) && final(categories)@ == old(
                categories,
            )@ && final(tasks)@ == old(tasks)@,
        },
{
    match request {
        Request::Category(action) => {
            match edit_categories(categories, tasks.as_mut_slice(), action) {
                Ok(()) => Ok(None),
                Err(error) => Err(error),
            }
        },
        Request::Task(action) => {
            edit_tasks(tasks, categories.as_slice(), action);
            Ok(None)
        },
        Request::Finish => Ok(Some(save(categories.as_slice(), tasks.as_slice()))),
    }
}

} // verus!
