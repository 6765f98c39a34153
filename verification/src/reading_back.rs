//! What is read back from the text that was written for two lists.

use crate::category::{
    category_fields, category_line, category_parsed, lemma_category_fields,
    lemma_category_line, unclassified, valid_name, CategoryView, UNCLASSIFIED,
};
use crate::error::{Error, ParseError};
use crate::store::{
    completed, has_category, loaded, owner, store_lines, store_read, store_text, task_lines,
    tasks_in, with_line, Lists,
};
use crate::task::{
    lemma_task_fields, lemma_task_line, task_fields, task_line, task_parsed, valid_task,
    TaskView,
};
use crate::text::{
    free_of, lemma_lines_hold_no_feed, lemma_lines_of_lines_text, lines_of, whole_line,
};
use vstd::prelude::*;

verus! {

/// A category whose name a line can hold and whose probability is at most 1.
pub open spec fn valid_category(category: CategoryView) -> bool {
    valid_name(category.name) && category.probability <= 100
}

/// Every category and every task of the two lists is valid.
pub open spec fn valid_lists(categories: Seq<CategoryView>, tasks: Seq<TaskView>) -> bool {
    &&& forall|i: int| 0 <= i < categories.len() ==> valid_category(#[trigger] categories[i])
    &&& forall|i: int| 0 <= i < tasks.len() ==> valid_task(#[trigger] tasks[i])
}

/// The tasks as a store holds them: category by category in the order of the
/// categories, and within a category in the order of the tasks.
pub open spec fn grouped(categories: Seq<CategoryView>, tasks: Seq<TaskView>) -> Seq<TaskView>
    decreases categories.len(),
{
    if categories.len() == 0 {
        Seq::empty()
    } else {
        grouped(categories.drop_last(), tasks) + tasks_in(tasks, categories.last().name)
    }
}

/// Each of the tasks of one category is one of the tasks and names that category.
pub proof fn lemma_tasks_in(tasks: Seq<TaskView>, category: Seq<char>)
    ensures
        forall|k: int|
            0 <= k < tasks_in(tasks, category).len() ==> (#[trigger] tasks_in(
                tasks,
                category,
            )[k]).category == category && tasks.contains(tasks_in(tasks, category)[k]),
    decreases tasks.len(),
{
    if tasks.len() > 0 {
        let front = tasks.drop_last();
        lemma_tasks_in(front, category);
        assert forall|k: int| 0 <= k < tasks_in(tasks, category).len() implies (
        #[trigger] tasks_in(tasks, category)[k]).category == category && tasks.contains(
            tasks_in(tasks, category)[k],
        ) by {
            let found = tasks_in(tasks, category)[k];
            if k < tasks_in(front, category).len() {
                assert(found == tasks_in(front, category)[k]);
                let j = choose|j: int| 0 <= j < front.len() && front[j] == found;
                assert(tasks[j] == found);
            } else {
                assert(found == tasks[tasks.len() - 1]);
            }
        }
    }
}

/// A category line begins with a C, and a task line with a space.
pub proof fn lemma_line_starts(line: Seq<char>)
    ensures
        category_fields(line) is Some ==> line.len() > 0 && line[0] == 'C',
        task_fields(line) is Some ==> line.len() > 0 && line[0] == ' ',
{
    reveal_strlit("Category name: ");
    reveal_strlit("    Task name: ");
    if category_fields(line) is Some {
        assert(line.subrange(0, 15)[0] == line[0]);
    }
    if task_fields(line) is Some {
        assert(line.subrange(0, 15)[0] == line[0]);
    }
}

/// Behind lines that read as `so_far`, the line of a valid category and the lines of
/// valid tasks of that category read as `so_far` with that category and those tasks.
pub proof fn lemma_loaded_block(
    before: Seq<Seq<char>>,
    so_far: Lists,
    category: CategoryView,
    tasks: Seq<TaskView>,
)
    requires
        loaded(before) == Ok::<Lists, ParseError>(so_far),
        valid_category(category),
        forall|k: int|
            0 <= k < tasks.len() ==> valid_task(#[trigger] tasks[k]) && tasks[k].category
                == category.name,
    ensures
        loaded(before.push(category_line(category)) + task_lines(tasks)) == Ok::<
            Lists,
            ParseError,
        >(
            Lists {
                tasks: so_far.tasks + tasks,
                categories: so_far.categories.push(category),
            },
        ),
    decreases tasks.len(),
{
    let heading = category_line(category);
    let lines = before.push(heading) + task_lines(tasks);
    if tasks.len() == 0 {
        assert(lines =~= before.push(heading));
        assert(lines.drop_last() =~= before);
        lemma_category_line(category);
        assert(so_far.tasks + tasks =~= so_far.tasks);
    } else {
        let front = tasks.drop_last();
        let task = tasks.last();
        assert forall|k: int| 0 <= k < front.len() implies valid_task(#[trigger] front[k])
            && front[k].category == category.name by {
            assert(front[k] == tasks[k]);
        }
        lemma_loaded_block(before, so_far, category, front);
        assert(lines.drop_last() =~= before.push(heading) + task_lines(front));
        assert(lines.last() == task_line(task));
        assert(valid_task(task) && task.category == category.name);
        lemma_task_line(task);
        lemma_line_starts(task_line(task));
        assert((so_far.tasks + front).push(task) =~= so_far.tasks + tasks);
    }
}

/// The lines of valid lists are whole lines.
pub proof fn lemma_store_lines_whole(categories: Seq<CategoryView>, tasks: Seq<TaskView>)
    requires
        valid_lists(categories, tasks),
    ensures
        forall|k: int|
            0 <= k < store_lines(categories, tasks).len() ==> whole_line(
                #[trigger] store_lines(categories, tasks)[k],
            ),
    decreases categories.len(),
{
    if categories.len() > 0 {
        let front = categories.drop_last();
        let category = categories.last();
        let own = tasks_in(tasks, category.name);
        assert forall|i: int| 0 <= i < front.len() implies valid_category(#[trigger] front[i]) by {
            assert(front[i] == categories[i]);
        }
        lemma_store_lines_whole(front, tasks);
        lemma_tasks_in(tasks, category.name);
        lemma_category_line(category);
        let lines = store_lines(categories, tasks);
        let before = store_lines(front, tasks);
        assert forall|k: int| 0 <= k < lines.len() implies whole_line(#[trigger] lines[k]) by {
            if k < before.len() {
                assert(lines[k] == before[k]);
            } else if k == before.len() {
                assert(lines[k] == category_line(category));
            } else {
                let task = own[k - before.len() - 1];
                assert(lines[k] == task_line(task));
                assert(tasks.contains(task));
                lemma_task_line(task);
            }
        }
    }
}

/// The lines of valid lists read as the same categories, and the tasks category by
/// category.
pub proof fn lemma_loaded_store_lines(categories: Seq<CategoryView>, tasks: Seq<TaskView>)
    requires
        valid_lists(categories, tasks),
    ensures
        loaded(store_lines(categories, tasks)) == Ok::<Lists, ParseError>(
            Lists { tasks: grouped(categories, tasks), categories },
        ),
    decreases categories.len(),
{
    if categories.len() == 0 {
        assert(categories =~= Seq::<CategoryView>::empty());
    } else {
        let front = categories.drop_last();
        let category = categories.last();
        let own = tasks_in(tasks, category.name);
        assert forall|i: int| 0 <= i < front.len() implies valid_category(#[trigger] front[i]) by {
            assert(front[i] == categories[i]);
        }
        lemma_loaded_store_lines(front, tasks);
        lemma_tasks_in(tasks, category.name);
        assert forall|k: int| 0 <= k < own.len() implies valid_task(#[trigger] own[k])
            && own[k].category == category.name by {
            assert(tasks.contains(own[k]));
        }
        lemma_loaded_block(
            store_lines(front, tasks),
            Lists { tasks: grouped(front, tasks), categories: front },
            category,
            own,
        );
        assert(front.push(category) =~= categories);
    }
}

/// Reading the text that is written for valid lists gives the same categories, with
/// `Unclassified` behind them where it was not among them, and the same tasks,
/// category by category.
pub proof fn lemma_read_written(categories: Seq<CategoryView>, tasks: Seq<TaskView>)
    requires
        valid_lists(categories, tasks),
    ensures
        store_read(store_text(categories, tasks)) == Ok::<Lists, ParseError>(
            Lists { tasks: grouped(categories, tasks), categories: completed(categories) },
        ),
{
    lemma_store_lines_whole(categories, tasks);
    lemma_lines_of_lines_text(store_lines(categories, tasks));
    lemma_loaded_store_lines(categories, tasks);
}

/// Every task names one of the categories.
pub open spec fn all_placed(categories: Seq<CategoryView>, tasks: Seq<TaskView>) -> bool {
    forall|i: int| 0 <= i < tasks.len() ==> has_category(categories, (#[trigger] tasks[i]).category)
}

/// No two of the categories have one name.
pub open spec fn distinct_names(categories: Seq<CategoryView>) -> bool {
    forall|i: int, j: int|
        0 <= i < j < categories.len() ==> (#[trigger] categories[i]).name != (
        #[trigger] categories[j]).name
}

/// Every task line stands below a category line.
pub open spec fn headed(lines: Seq<Seq<char>>) -> bool {
    forall|i: int|
        0 <= i < lines.len() && category_fields(#[trigger] lines[i]) is None && task_fields(
            lines[i],
        ) is Some ==> exists|j: int| 0 <= j < i && category_fields(#[trigger] lines[j]) is Some
}

/// The name `Unclassified` is one that a line can hold.
pub proof fn lemma_unclassified_valid()
    ensures
        valid_category(unclassified()),
{
    reveal_strlit("Unclassified");
}

/// A category stays among the categories when another is put behind them.
pub proof fn lemma_has_category_pushed(
    categories: Seq<CategoryView>,
    category: CategoryView,
    name: Seq<char>,
)
    ensures
        has_category(categories, name) ==> has_category(categories.push(category), name),
        has_category(categories.push(category), category.name),
{
    let longer = categories.push(category);
    if has_category(categories, name) {
        let i = choose|i: int| 0 <= i < categories.len() && (#[trigger] categories[i]).name == name;
        assert(longer[i].name == name);
    }
    assert(longer[categories.len() as int].name == category.name);
}

/// What lines without a line feed read as is valid, and each task names one of the
/// categories or `Unclassified`.
pub proof fn lemma_loaded_valid(lines: Seq<Seq<char>>)
    requires
        forall|k: int| 0 <= k < lines.len() ==> free_of(#[trigger] lines[k], '\n'),
    ensures
        loaded(lines) matches Ok(lists) ==> valid_lists(lists.categories, lists.tasks)
            && all_placed(completed(lists.categories), lists.tasks),
    decreases lines.len(),
{
    if lines.len() == 0 {
    } else {
        let front = lines.drop_last();
        let line = lines.last();
        assert forall|k: int| 0 <= k < front.len() implies free_of(#[trigger] front[k], '\n') by {
            assert(front[k] == lines[k]);
        }
        lemma_loaded_valid(front);
        if loaded(lines) is Ok {
            let so_far = loaded(front)->Ok_0;
            let lists = loaded(lines)->Ok_0;
            lemma_category_fields(line);
            lemma_task_fields(line, owner(so_far.categories));
            assert(with_line(so_far, line) == Ok::<Lists, Error>(lists));
            if category_fields(line) is Some {
                let category = category_parsed(category_fields(line)->0)->Ok_0;
                assert(lists.categories == so_far.categories.push(category));
                assert forall|i: int| 0 <= i < lists.tasks.len() implies has_category(
                    completed(lists.categories),
                    (#[trigger] lists.tasks[i]).category,
                ) by {
                    lemma_placed_pushed(so_far.categories, category, lists.tasks[i].category);
                }
            } else if task_fields(line) is Some {
                let task = task_parsed(task_fields(line)->0, owner(so_far.categories))->Ok_0;
                assert(lists.tasks == so_far.tasks.push(task));
                lemma_owner_completed(so_far.categories);
                assert forall|i: int| 0 <= i < lists.tasks.len() implies has_category(
                    completed(lists.categories),
                    (#[trigger] lists.tasks[i]).category,
                ) by {
                    if i < so_far.tasks.len() {
                        assert(lists.tasks[i] == so_far.tasks[i]);
                    }
                }
            }
        }
    }
}

/// The owner of a task line is among the categories once `Unclassified` is.
proof fn lemma_owner_completed(categories: Seq<CategoryView>)
    ensures
        has_category(completed(categories), owner(categories)),
        has_category(completed(categories), UNCLASSIFIED@),
{
    if !has_category(categories, UNCLASSIFIED@) {
        lemma_has_category_pushed(categories, unclassified(), UNCLASSIFIED@);
    }
    if categories.len() > 0 {
        assert(categories[categories.len() - 1].name == owner(categories));
        assert(has_category(categories, owner(categories)));
        if !has_category(categories, UNCLASSIFIED@) {
            lemma_has_category_pushed(categories, unclassified(), owner(categories));
        }
    }
}

/// A name among the completed categories stays among them when a category is put
/// behind the categories first.
proof fn lemma_placed_pushed(categories: Seq<CategoryView>, category: CategoryView, name: Seq<char>)
    requires
        has_category(completed(categories), name),
    ensures
        has_category(completed(categories.push(category)), name),
{
    let longer = categories.push(category);
    lemma_owner_completed(longer);
    if has_category(categories, name) {
        lemma_has_category_pushed(categories, category, name);
        if !has_category(longer, UNCLASSIFIED@) {
            lemma_has_category_pushed(longer, unclassified(), name);
        }
    } else {
        let i = choose|i: int|
            0 <= i < completed(categories).len() && (#[trigger] completed(categories)[i]).name
                == name;
        assert(i == categories.len());
        assert(name == UNCLASSIFIED@);
    }
}

/// What the text of a store reads as is valid: each name is one that a line can
/// hold, each probability is at most 1, each deadline is a minute of the calendar,
/// `Unclassified` is among the categories, and each task names one of them.
pub proof fn lemma_read_valid(text: Seq<char>)
    ensures
        store_read(text) matches Ok(lists) ==> valid_lists(lists.categories, lists.tasks)
            && has_category(lists.categories, UNCLASSIFIED@) && all_placed(
            lists.categories,
            lists.tasks,
        ),
{
    lemma_lines_hold_no_feed(text);
    lemma_loaded_valid(lines_of(text));
    if store_read(text) is Ok {
        let found = loaded(lines_of(text))->Ok_0;
        lemma_unclassified_valid();
        lemma_owner_completed(found.categories);
    }
}

/// Writing what a text reads as, and reading that, gives the same categories, and
/// the same tasks category by category.
pub proof fn lemma_written_reads_back(text: Seq<char>)
    requires
        store_read(text) is Ok,
    ensures
        store_read(store_text(store_read(text)->Ok_0.categories, store_read(text)->Ok_0.tasks))
            == Ok::<Lists, ParseError>(
            Lists {
                tasks: grouped(store_read(text)->Ok_0.categories, store_read(text)->Ok_0.tasks),
                categories: store_read(text)->Ok_0.categories,
            },
        ),
{
    let lists = store_read(text)->Ok_0;
    lemma_read_valid(text);
    lemma_read_written(lists.categories, lists.tasks);
}

/// Tasks of which none names `category` hold no task of that category.
pub proof fn lemma_tasks_in_none(tasks: Seq<TaskView>, category: Seq<char>)
    requires
        forall|i: int| 0 <= i < tasks.len() ==> (#[trigger] tasks[i]).category != category,
    ensures
        tasks_in(tasks, category) == Seq::<TaskView>::empty(),
    decreases tasks.len(),
{
    if tasks.len() > 0 {
        let front = tasks.drop_last();
        assert forall|i: int| 0 <= i < front.len() implies (#[trigger] front[i]).category
            != category by {
            assert(front[i] == tasks[i]);
        }
        lemma_tasks_in_none(front, category);
        assert(tasks[tasks.len() - 1].category != category);
    }
}

/// A task that names none of the categories adds nothing to the tasks as a store
/// holds them.
pub proof fn lemma_grouped_unplaced(
    categories: Seq<CategoryView>,
    tasks: Seq<TaskView>,
    task: TaskView,
)
    requires
        !has_category(categories, task.category),
    ensures
        grouped(categories, tasks.push(task)) == grouped(categories, tasks),
    decreases categories.len(),
{
    if categories.len() > 0 {
        let front = categories.drop_last();
        if has_category(front, task.category) {
            let i = choose|i: int|
                0 <= i < front.len() && (#[trigger] front[i]).name == task.category;
            assert(categories[i].name == task.category);
        }
        lemma_grouped_unplaced(front, tasks, task);
        assert(categories[categories.len() - 1].name != task.category);
        assert(tasks.push(task).drop_last() =~= tasks);
    }
}

/// A task of the last category, put behind the tasks, comes last among the tasks as
/// a store holds them, where no two categories have one name.
pub proof fn lemma_grouped_last(
    categories: Seq<CategoryView>,
    tasks: Seq<TaskView>,
    task: TaskView,
)
    requires
        categories.len() > 0,
        distinct_names(categories),
        task.category == categories.last().name,
    ensures
        grouped(categories, tasks.push(task)) == grouped(categories, tasks).push(task),
{
    let front = categories.drop_last();
    if has_category(front, task.category) {
        let i = choose|i: int| 0 <= i < front.len() && (#[trigger] front[i]).name == task.category;
        assert(categories[i].name == categories[categories.len() - 1].name);
    }
    lemma_grouped_unplaced(front, tasks, task);
    assert(tasks.push(task).drop_last() =~= tasks);
    assert(grouped(categories, tasks.push(task)) =~= grouped(categories, tasks).push(task));
}

/// Lines that are read and hold a category line give at least one category.
pub proof fn lemma_loaded_has_category(lines: Seq<Seq<char>>, at: int)
    requires
        loaded(lines) is Ok,
        0 <= at < lines.len(),
        category_fields(lines[at]) is Some,
    ensures
        loaded(lines)->Ok_0.categories.len() > 0,
    decreases lines.len(),
{
    let front = lines.drop_last();
    if at < lines.len() - 1 {
        assert(front[at] == lines[at]);
        lemma_loaded_has_category(front, at);
    }
}

/// Where every task line stands below a category line and no two categories have
/// one name, the tasks are read category by category, and each names one of the
/// categories.
pub proof fn lemma_loaded_in_order(lines: Seq<Seq<char>>)
    requires
        loaded(lines) is Ok,
        distinct_names(loaded(lines)->Ok_0.categories),
        headed(lines),
    ensures
        grouped(loaded(lines)->Ok_0.categories, loaded(lines)->Ok_0.tasks) == loaded(
            lines,
        )->Ok_0.tasks,
        all_placed(loaded(lines)->Ok_0.categories, loaded(lines)->Ok_0.tasks),
    decreases lines.len(),
{
    let lists = loaded(lines)->Ok_0;
    if lines.len() == 0 {
        assert(grouped(lists.categories, lists.tasks) =~= lists.tasks);
    } else {
        let front = lines.drop_last();
        let line = lines.last();
        let so_far = loaded(front)->Ok_0;
        assert(with_line(so_far, line) == Ok::<Lists, Error>(lists));
        assert forall|i: int|
            0 <= i < front.len() && category_fields(#[trigger] front[i]) is None && task_fields(
                front[i],
            ) is Some implies exists|j: int|
            0 <= j < i && category_fields(#[trigger] front[j]) is Some by {
            assert(front[i] == lines[i]);
            let j = choose|j: int| 0 <= j < i && category_fields(#[trigger] lines[j]) is Some;
            assert(front[j] == lines[j]);
        }
        if category_fields(line) is Some {
            let category = category_parsed(category_fields(line)->0)->Ok_0;
            assert(lists.categories == so_far.categories.push(category));
            assert(lists.categories.drop_last() =~= so_far.categories);
            assert forall|i: int, j: int| 0 <= i < j < so_far.categories.len() implies (
            #[trigger] so_far.categories[i]).name != (#[trigger] so_far.categories[j]).name by {
                assert(lists.categories[i] == so_far.categories[i]);
                assert(lists.categories[j] == so_far.categories[j]);
            }
            lemma_loaded_in_order(front);
            assert forall|i: int| 0 <= i < lists.tasks.len() implies (
            #[trigger] lists.tasks[i]).category != category.name by {
                let k = choose|k: int|
                    0 <= k < so_far.categories.len() && (#[trigger] so_far.categories[k]).name
                        == lists.tasks[i].category;
                assert(lists.categories[k] == so_far.categories[k]);
                assert(lists.categories[so_far.categories.len() as int] == category);
            }
            lemma_tasks_in_none(lists.tasks, category.name);
            assert(grouped(lists.categories, lists.tasks) =~= lists.tasks);
            assert forall|i: int| 0 <= i < lists.tasks.len() implies has_category(
                lists.categories,
                (#[trigger] lists.tasks[i]).category,
            ) by {
                lemma_has_category_pushed(so_far.categories, category, lists.tasks[i].category);
            }
        } else if task_fields(line) is Some {
            let task = task_parsed(task_fields(line)->0, owner(so_far.categories))->Ok_0;
            assert(lists.tasks == so_far.tasks.push(task));
            lemma_loaded_in_order(front);
            let j = choose|j: int|
                0 <= j < lines.len() - 1 && category_fields(#[trigger] lines[j]) is Some;
            assert(front[j] == lines[j]);
            lemma_loaded_has_category(front, j);
            lemma_grouped_last(so_far.categories, so_far.tasks, task);
            assert(so_far.categories[so_far.categories.len() - 1].name == task.category);
            assert forall|i: int| 0 <= i < lists.tasks.len() implies has_category(
                lists.categories,
                (#[trigger] lists.tasks[i]).category,
            ) by {
                if i < so_far.tasks.len() {
                    assert(lists.tasks[i] == so_far.tasks[i]);
                }
            }
        } else {
            lemma_loaded_in_order(front);
        }
    }
}

/// A text in which every task line stands below a category line and no two
/// categories have one name is read, written and read again as the same lists:
/// the same categories with the same names, colours and probabilities, and the same
/// tasks with the same names and deadlines in the same categories and order.
pub proof fn lemma_reading_back(text: Seq<char>)
    requires
        store_read(text) is Ok,
        distinct_names(store_read(text)->Ok_0.categories),
        headed(lines_of(text)),
    ensures
        store_read(store_text(store_read(text)->Ok_0.categories, store_read(text)->Ok_0.tasks))
            == store_read(text),
{
    let lists = store_read(text)->Ok_0;
    let found = loaded(lines_of(text))->Ok_0;
    lemma_written_reads_back(text);
    assert forall|i: int, j: int| 0 <= i < j < found.categories.len() implies (
    #[trigger] found.categories[i]).name != (#[trigger] found.categories[j]).name by {
        assert(lists.categories[i] == found.categories[i]);
        assert(lists.categories[j] == found.categories[j]);
    }
    lemma_loaded_in_order(lines_of(text));
    if !has_category(found.categories, UNCLASSIFIED@) {
        assert(lists.categories.drop_last() =~= found.categories);
        assert forall|i: int| 0 <= i < found.tasks.len() implies (
        #[trigger] found.tasks[i]).category != UNCLASSIFIED@ by {
            assert(has_category(found.categories, found.tasks[i].category));
        }
        lemma_tasks_in_none(found.tasks, UNCLASSIFIED@);
        assert(grouped(lists.categories, lists.tasks) =~= lists.tasks);
    }
}

/// No task is among the tasks of an empty list as a store holds them.
pub proof fn lemma_grouped_none(categories: Seq<CategoryView>)
    ensures
        grouped(categories, Seq::<TaskView>::empty()) == Seq::<TaskView>::empty(),
    decreases categories.len(),
{
    if categories.len() > 0 {
        lemma_grouped_none(categories.drop_last());
        assert(grouped(categories, Seq::<TaskView>::empty()) =~= Seq::<TaskView>::empty());
    }
}

/// A task that names one of the categories, put behind the tasks, is once more
/// among the tasks as a store holds them, where no two categories have one name.
pub proof fn lemma_grouped_placed(
    categories: Seq<CategoryView>,
    tasks: Seq<TaskView>,
    task: TaskView,
)
    requires
        distinct_names(categories),
        has_category(categories, task.category),
    ensures
        grouped(categories, tasks.push(task)).to_multiset() == grouped(
            categories,
            tasks,
        ).to_multiset().insert(task),
    decreases categories.len(),
{
    broadcast use vstd::seq_lib::group_to_multiset_ensures;

    let front = categories.drop_last();
    let last = categories.last();
    assert(categories.len() > 0);
    assert(tasks.push(task).drop_last() =~= tasks);
    assert forall|i: int, j: int| 0 <= i < j < front.len() implies (#[trigger] front[i]).name
        != (#[trigger] front[j]).name by {
        assert(front[i] == categories[i] && front[j] == categories[j]);
    }
    if last.name == task.category {
        lemma_grouped_last(categories, tasks, task);
    } else {
        let k = choose|k: int|
            0 <= k < categories.len() && (#[trigger] categories[k]).name == task.category;
        assert(front[k] == categories[k]);
        lemma_grouped_placed(front, tasks, task);
        let own = tasks_in(tasks, last.name);
        vstd::seq_lib::lemma_multiset_commutative(grouped(front, tasks.push(task)), own);
        vstd::seq_lib::lemma_multiset_commutative(grouped(front, tasks), own);
        assert(grouped(categories, tasks.push(task)).to_multiset() =~= grouped(
            categories,
            tasks,
        ).to_multiset().insert(task));
    }
}

/// Where every task names one of the categories and no two categories have one
/// name, a store holds every task once: none is left out, and none stands twice.
pub proof fn lemma_grouped_holds_all(categories: Seq<CategoryView>, tasks: Seq<TaskView>)
    requires
        distinct_names(categories),
        all_placed(categories, tasks),
    ensures
        grouped(categories, tasks).to_multiset() == tasks.to_multiset(),
    decreases tasks.len(),
{
    broadcast use vstd::seq_lib::group_to_multiset_ensures;

    if tasks.len() == 0 {
        assert(tasks =~= Seq::<TaskView>::empty());
        lemma_grouped_none(categories);
    } else {
        let front = tasks.drop_last();
        let task = tasks.last();
        assert forall|i: int| 0 <= i < front.len() implies has_category(
            categories,
            (#[trigger] front[i]).category,
        ) by {
            assert(front[i] == tasks[i]);
        }
        lemma_grouped_holds_all(categories, front);
        assert(has_category(categories, tasks[tasks.len() - 1].category));
        lemma_grouped_placed(categories, front, task);
        assert(front.push(task) =~= tasks);
    }
}

} // verus!
