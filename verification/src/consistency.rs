//! The two lists agree with each other, and the edits keep it so.

use crate::category::{
    category_views, edited_category, Category, CategoryEdit, CategoryView, UNCLASSIFIED,
};
use crate::edit::{
    after_category_action, after_task_action, category_action_fits, lemma_category_deleted,
    moved_out, task_action_fits, CategoryAction, TaskAction,
};
use crate::reading_back::{all_placed, distinct_names, lemma_has_category_pushed};
use crate::store::{completed, has_category};
use crate::task::{edited_task, task_views, Task, TaskEdit, TaskView};
use vstd::prelude::*;

verus! {

/// The two lists agree: no two categories have one name, `Unclassified` is among
/// the categories, and every task names one of them.
pub open spec fn consistent(categories: Seq<CategoryView>, tasks: Seq<TaskView>) -> bool {
    &&& distinct_names(categories)
    &&& has_category(categories, UNCLASSIFIED@)
    &&& all_placed(categories, tasks)
}

/// `action` gives no category a name that another has, and takes no name away that
/// a task names or that is `Unclassified`.
pub open spec fn keeps_names(
    categories: Seq<CategoryView>,
    tasks: Seq<TaskView>,
    action: CategoryAction,
) -> bool {
    match action {
        CategoryAction::Add { name, .. } => !has_category(categories, name@),
        CategoryAction::Edit { index, change: CategoryEdit::Name(name) } => {
            &&& !has_category(categories, name@)
            &&& categories[index as int].name != UNCLASSIFIED@
            &&& forall|i: int|
                0 <= i < tasks.len() ==> (#[trigger] tasks[i]).category
                    != categories[index as int].name
        },
        _ => true,
    }
}

/// Lists that agree still agree after an edit of the categories that keeps the
/// names.
pub proof fn lemma_category_action_keeps(
    categories: Seq<Category>,
    tasks: Seq<Task>,
    action: CategoryAction,
)
    requires
        category_action_fits(categories, action),
        consistent(category_views(categories), task_views(tasks)),
        keeps_names(category_views(categories), task_views(tasks), action),
    ensures
        after_category_action(categories, tasks, action) matches Ok(lists) ==> consistent(
            lists.categories,
            lists.tasks,
        ),
{
    let all = category_views(categories);
    let items = task_views(tasks);
    let unclassified = choose|i: int|
        0 <= i < all.len() && (#[trigger] all[i]).name == UNCLASSIFIED@;
    match action {
        CategoryAction::Add { name, probability, color } => {
            let added = CategoryView { name: name@, probability: probability@, color };
            let after = all.push(added);
            assert forall|i: int, j: int| 0 <= i < j < after.len() implies (
            #[trigger] after[i]).name != (#[trigger] after[j]).name by {
                if j < all.len() {
                    assert(after[i] == all[i] && after[j] == all[j]);
                } else {
                    assert(after[i] == all[i]);
                }
            }
            lemma_has_category_pushed(all, added, UNCLASSIFIED@);
            assert forall|i: int| 0 <= i < items.len() implies has_category(
                after,
                (#[trigger] items[i]).category,
            ) by {
                lemma_has_category_pushed(all, added, items[i].category);
            }
        },
        CategoryAction::Edit { index, change } => {
            let after = all.update(index as int, edited_category(all[index as int], change));
            assert forall|k: int| 0 <= k < all.len() && k != index implies #[trigger] after[k]
                == all[k] by {}
            if change is Name {
                assert(after[unclassified].name == UNCLASSIFIED@);
                assert forall|i: int| 0 <= i < items.len() implies has_category(
                    after,
                    (#[trigger] items[i]).category,
                ) by {
                    let k = choose|k: int|
                        0 <= k < all.len() && (#[trigger] all[k]).name == items[i].category;
                    assert(after[k].name == items[i].category);
                }
                assert forall|i: int, j: int| 0 <= i < j < after.len() implies (
                #[trigger] after[i]).name != (#[trigger] after[j]).name by {
                    if i != index && j != index {
                        assert(after[i] == all[i] && after[j] == all[j]);
                    } else if i == index {
                        assert(after[j] == all[j]);
                    } else {
                        assert(after[i] == all[i]);
                    }
                }
            } else {
                assert forall|k: int| 0 <= k < all.len() implies (#[trigger] after[k]).name
                    == all[k].name by {}
                assert(after[unclassified].name == UNCLASSIFIED@);
                assert forall|i: int| 0 <= i < items.len() implies has_category(
                    after,
                    (#[trigger] items[i]).category,
                ) by {
                    let k = choose|k: int|
                        0 <= k < all.len() && (#[trigger] all[k]).name == items[i].category;
                    assert(after[k].name == items[i].category);
                }
                assert forall|i: int, j: int| 0 <= i < j < after.len() implies (
                #[trigger] after[i]).name != (#[trigger] after[j]).name by {
                    assert(after[i].name == all[i].name && after[j].name == all[j].name);
                }
            }
        },
        CategoryAction::Delete { index } => {
            if all[index as int].name != UNCLASSIFIED@ {
                let name = all[index as int].name;
                let after = all.remove(index as int);
                let moved = moved_out(items, name);
                assert(completed(all) == all);
                lemma_category_deleted(all, items, index as int);
                assert forall|i: int, j: int| 0 <= i < j < after.len() implies (
                #[trigger] after[i]).name != (#[trigger] after[j]).name by {
                    let from = if i < index {
                        i
                    } else {
                        i + 1
                    };
                    let to = if j < index {
                        j
                    } else {
                        j + 1
                    };
                    assert(after[i] == all[from] && after[j] == all[to]);
                }
                assert forall|i: int| 0 <= i < moved.len() implies has_category(
                    after,
                    (#[trigger] moved[i]).category,
                ) by {
                    if items[i].category != name {
                        let k = choose|k: int|
                            0 <= k < all.len() && (#[trigger] all[k]).name == items[i].category;
                        if k < index {
                            assert(after[k] == all[k]);
                        } else {
                            assert(after[k - 1] == all[k]);
                        }
                    }
                }
            }
        },
    }
}

/// Lists that agree still agree after an edit of the tasks.
pub proof fn lemma_task_action_keeps(
    tasks: Seq<Task>,
    categories: Seq<Category>,
    action: TaskAction,
)
    requires
        task_action_fits(tasks, categories, action),
        consistent(category_views(categories), task_views(tasks)),
    ensures
        consistent(category_views(categories), after_task_action(tasks, categories, action)),
{
    let all = category_views(categories);
    let items = task_views(tasks);
    let after = after_task_action(tasks, categories, action);
    match action {
        TaskAction::Add { task, deadline, category } => {
            assert(all[category as int].name == categories[category as int]@.name);
            assert forall|i: int| 0 <= i < after.len() implies has_category(
                all,
                (#[trigger] after[i]).category,
            ) by {
                if i < items.len() {
                    assert(after[i] == items[i]);
                }
            }
        },
        TaskAction::Edit { index, change } => {
            let edited = edited_task(items[index as int], categories, change);
            match change {
                TaskEdit::Category(place) => {
                    assert(all[place as int].name == categories[place as int]@.name);
                },
                _ => {},
            }
            assert(has_category(all, items[index as int].category));
            assert forall|i: int| 0 <= i < after.len() implies has_category(
                all,
                (#[trigger] after[i]).category,
            ) by {
                if i != index {
                    assert(after[i] == items[i]);
                }
            }
        },
        TaskAction::Delete { index } => {
            assert forall|i: int| 0 <= i < after.len() implies has_category(
                all,
                (#[trigger] after[i]).category,
            ) by {
                if i < index {
                    assert(after[i] == items[i]);
                } else {
                    assert(after[i] == items[i + 1]);
                }
            }
        },
    }
}

} // verus!
