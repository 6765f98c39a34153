//! A store's text: what reading it gives, and what is written for two lists.

use crate::category::{
    category_fields, category_in, category_line, category_parsed, category_views, unclassified,
    Category, CategoryView, UNCLASSIFIED,
};
use crate::error::{Error, ParseError};
use crate::task::{task_fields, task_in, task_line, task_parsed, task_views, Task, TaskView};
use crate::text::{append_char, append_str, chars_of, line_ranges, lines_of, lines_text, pieces};
use vstd::prelude::*;
use vstd::slice::slice_subrange;

verus! {

/// The two lists of a store as the contracts speak of them.
pub struct Lists {
    pub tasks: Seq<TaskView>,
    pub categories: Seq<CategoryView>,
}

/// The name of the category that a task line belongs to, below the lines of
/// `categories`: the last of them, or `Unclassified` where there is none yet.
pub open spec fn owner(categories: Seq<CategoryView>) -> Seq<char> {
    if categories.len() == 0 {
        UNCLASSIFIED@
    } else {
        categories.last().name
    }
}

/// `line` is neither a category line nor a task line.
pub open spec fn unrecognized(line: Seq<char>) -> bool {
    category_fields(line) is None && task_fields(line) is None
}

/// The lists `so_far` with what `line` adds: a category line adds its category, a
/// task line adds its task to the category of the last category line, and any other
/// line adds nothing. The error of a line that writes no category or no task.
pub open spec fn with_line(so_far: Lists, line: Seq<char>) -> Result<Lists, Error> {
    if category_fields(line) is Some {
        match category_parsed(category_fields(line)->0) {
            Ok(category) => Ok(Lists { categories: so_far.categories.push(category), ..so_far }),
            Err(error) => Err(error),
        }
    } else if task_fields(line) is Some {
        match task_parsed(task_fields(line)->0, owner(so_far.categories)) {
            Ok(task) => Ok(Lists { tasks: so_far.tasks.push(task), ..so_far }),
            Err(error) => Err(error),
        }
    } else {
        Ok(so_far)
    }
}

/// What `lines` hold, read from the first to the last; the first line that fails,
/// with its error, where one does.
pub open spec fn loaded(lines: Seq<Seq<char>>) -> Result<Lists, ParseError>
    decreases lines.len(),
{
    if lines.len() == 0 {
        Ok(Lists { tasks: Seq::empty(), categories: Seq::empty() })
    } else {
        match loaded(lines.drop_last()) {
            Err(error) => Err(error),
            Ok(so_far) => match with_line(so_far, lines.last()) {
                Ok(lists) => Ok(lists),
                Err(kind) => Err(ParseError { kind, line: (lines.len() - 1) as usize }),
            },
        }
    }
}

/// One of `categories` has the name `name`.
pub open spec fn has_category(categories: Seq<CategoryView>, name: Seq<char>) -> bool {
    exists|i: int| 0 <= i < categories.len() && (#[trigger] categories[i]).name == name
}

/// `categories`, with `Unclassified` behind them where none of them has that name.
pub open spec fn completed(categories: Seq<CategoryView>) -> Seq<CategoryView> {
    if has_category(categories, UNCLASSIFIED@) {
        categories
    } else {
        categories.push(unclassified())
    }
}

/// What the text of a store holds: the tasks and categories of its lines, and the
/// category `Unclassified` where no line gave it.
pub open spec fn store_read(text: Seq<char>) -> Result<Lists, ParseError> {
    match loaded(lines_of(text)) {
        Ok(lists) => Ok(Lists { categories: completed(lists.categories), ..lists }),
        Err(error) => Err(error),
    }
}

/// The places of the lines among `lines` that are neither category lines nor task
/// lines, in rising order.
pub open spec fn skipped(lines: Seq<Seq<char>>) -> Seq<usize>
    decreases lines.len(),
{
    if lines.len() == 0 {
        Seq::empty()
    } else if unrecognized(lines.last()) {
        skipped(lines.drop_last()).push((lines.len() - 1) as usize)
    } else {
        skipped(lines.drop_last())
    }
}

/// The tasks among `tasks` whose category is named `category`, in their order.
pub open spec fn tasks_in(tasks: Seq<TaskView>, category: Seq<char>) -> Seq<TaskView>
    decreases tasks.len(),
{
    if tasks.len() == 0 {
        Seq::empty()
    } else if tasks.last().category == category {
        tasks_in(tasks.drop_last(), category).push(tasks.last())
    } else {
        tasks_in(tasks.drop_last(), category)
    }
}

/// The lines of `tasks`, one for each.
pub open spec fn task_lines(tasks: Seq<TaskView>) -> Seq<Seq<char>> {
    Seq::new(tasks.len(), |i: int| task_line(tasks[i]))
}

/// The lines that a store holds: for each category in its order, its line, then the
/// lines of the tasks of that name in their order. A task that names none of the
/// categories has no line.
pub open spec fn store_lines(categories: Seq<CategoryView>, tasks: Seq<TaskView>) -> Seq<
    Seq<char>,
>
    decreases categories.len(),
{
    if categories.len() == 0 {
        Seq::empty()
    } else {
        store_lines(categories.drop_last(), tasks).push(category_line(categories.last()))
            + task_lines(tasks_in(tasks, categories.last().name))
    }
}

/// The text that a store holds for the two lists.
pub open spec fn store_text(categories: Seq<CategoryView>, tasks: Seq<TaskView>) -> Seq<char> {
    lines_text(store_lines(categories, tasks))
}

/// `skipped` lists, in rising order, the places of the lines that are neither
/// category lines nor task lines, and no other place.
pub proof fn lemma_skipped(lines: Seq<Seq<char>>)
    requires
        lines.len() <= usize::MAX,
    ensures
        forall|k: int|
            0 <= k < skipped(lines).len() ==> (#[trigger] skipped(lines)[k]) < lines.len()
                && unrecognized(lines[skipped(lines)[k] as int]),
        forall|k: int, l: int|
            0 <= k < l < skipped(lines).len() ==> (#[trigger] skipped(lines)[k]) < (
            #[trigger] skipped(lines)[l]),
        forall|i: usize|
            i < lines.len() && unrecognized(lines[i as int]) ==> #[trigger] skipped(
                lines,
            ).contains(i),
    decreases lines.len(),
{
    if lines.len() > 0 {
        let front = lines.drop_last();
        let places = skipped(lines);
        let before = skipped(front);
        lemma_skipped(front);
        assert forall|k: int| 0 <= k < places.len() implies (#[trigger] places[k]) < lines.len()
            && unrecognized(lines[places[k] as int]) by {
            if k < before.len() {
                assert(places[k] == before[k]);
                assert(front[before[k] as int] == lines[before[k] as int]);
            }
        }
        assert forall|k: int, l: int| 0 <= k < l < places.len() implies (#[trigger] places[k]) < (
        #[trigger] places[l]) by {
            assert(places[k] == before[k]);
            if l < before.len() {
                assert(places[l] == before[l]);
            }
        }
        assert forall|i: usize|
            i < lines.len() && unrecognized(lines[i as int]) implies #[trigger] places.contains(
            i,
        ) by {
            if i < front.len() {
                assert(front[i as int] == lines[i as int]);
                assert(before.contains(i));
                let k = choose|k: int| 0 <= k < before.len() && before[k] == i;
                assert(places[k] == i);
            } else {
                assert(places[places.len() - 1] == i);
            }
        }
    }
}

/// Lines that fail at some line fail there however many lines follow.
pub proof fn lemma_loaded_fails(lines: Seq<Seq<char>>, upto: int)
    requires
        0 <= upto <= lines.len(),
        loaded(lines.take(upto)) is Err,
    ensures
        loaded(lines) == loaded(lines.take(upto)),
    decreases lines.len() - upto,
{
    if upto < lines.len() {
        assert(lines.take(upto + 1).drop_last() =~= lines.take(upto));
        lemma_loaded_fails(lines, upto + 1);
    } else {
        assert(lines.take(upto) =~= lines);
    }
}

pub(crate) fn has_unclassified(categories: &Vec<Category>) -> (r: bool)
    ensures
        r == has_category(category_views(categories@), UNCLASSIFIED@),
{
    let name = UNCLASSIFIED.to_owned();
    let mut i: usize = 0;
    while i < categories.len()
        invariant
            i <= categories@.len(),
            name@ == UNCLASSIFIED@,
            forall|j: int| 0 <= j < i ==> (#[trigger] categories@[j])@.name != UNCLASSIFIED@,
        decreases categories@.len() - i,
    {
        if *categories[i].name() == name {
            assert(category_views(categories@)[i as int].name == UNCLASSIFIED@);
            return true;
        }
        i += 1;
    }
    assert forall|j: int| 0 <= j < category_views(categories@).len() implies (
    #[trigger] category_views(categories@)[j]).name != UNCLASSIFIED@ by {
        assert(categories@[j]@.name != UNCLASSIFIED@);
    }
    false
}

/// Reads the text of a store. Each category line gives a category and each task line
/// a task of the category whose line stands last above it, or of `Unclassified`
/// where none does; other lines are passed over. The category `Unclassified` is
/// added behind the others where no line gave it. The first line that names no
/// colour, writes no probability or writes no deadline ends the reading with its
/// error and its place.
pub fn read(text: &str) -> (r: Result<(Vec<Task>, Vec<Category>), ParseError>)
    ensures
        match store_read(text@) {
            Ok(lists) => r matches Ok((tasks, categories)) && task_views(tasks@) == lists.tasks
                && category_views(categories@) == lists.categories,
            Err(error) => r matches Err(found) && found == error,
        },
{
    let chars = chars_of(text);
    let ranges = line_ranges(chars.as_slice());
    let ghost lines = lines_of(text@);
    let mut tasks: Vec<Task> = Vec::new();
    let mut categories: Vec<Category> = Vec::new();
    let mut i: usize = 0;
    assert(lines.take(0) =~= Seq::<Seq<char>>::empty());
    assert(task_views(tasks@) =~= Seq::<TaskView>::empty());
    assert(category_views(categories@) =~= Seq::<CategoryView>::empty());
    while i < ranges.len()
        invariant
            i <= ranges@.len(),
            chars@ == text@,
            lines == lines_of(text@),
            pieces(chars@, ranges@) == lines,
            forall|k: int|
                0 <= k < ranges@.len() ==> (#[trigger] ranges@[k]).0 <= ranges@[k].1
                    <= chars@.len(),
            loaded(lines.take(i as int)) == Ok::<Lists, ParseError>(
                Lists { tasks: task_views(tasks@), categories: category_views(categories@) },
            ),
        decreases ranges@.len() - i,
    {
        let range = ranges[i];
        let line = slice_subrange(chars.as_slice(), range.0, range.1);
        assert(line@ == lines[i as int]);
        assert(lines.take(i + 1).drop_last() =~= lines.take(i as int));
        assert(lines.take(i + 1).last() == line@);
        let ghost so_far = Lists {
            tasks: task_views(tasks@),
            categories: category_views(categories@),
        };
        match category_in(line) {
            Some(Ok(category)) => {
                categories.push(category);
                assert(category_views(categories@) =~= so_far.categories.push(category@));
            },
            Some(Err(kind)) => {
                proof {
                    lemma_loaded_fails(lines, i + 1);
                }
                return Err(ParseError { kind, line: i });
            },
            None => {
                let found = if categories.len() == 0 {
                    task_in(line, UNCLASSIFIED)
                } else {
                    assert(category_views(categories@).last() == categories@.last()@);
                    task_in(line, categories[categories.len() - 1].name().as_str())
                };
                match found {
                    Some(Ok(task)) => {
                        tasks.push(task);
                        assert(task_views(tasks@) =~= so_far.tasks.push(task@));
                    },
                    Some(Err(kind)) => {
                        proof {
                            lemma_loaded_fails(lines, i + 1);
                        }
                        return Err(ParseError { kind, line: i });
                    },
                    None => {},
                }
            },
        }
        i += 1;
    }
    assert(lines.take(i as int) =~= lines);
    if !has_unclassified(&categories) {
        let ghost before = category_views(categories@);
        categories.push(Category::unclassified());
        assert(category_views(categories@) =~= before.push(unclassified()));
    }
    Ok((tasks, categories))
}

/// The places, among the lines of `text`, of those that are neither category lines
/// nor task lines: the lines that reading passes over.
pub fn unrecognized_lines(text: &str) -> (places: Vec<usize>)
    ensures
        places@ == skipped(lines_of(text@)),
{
    let chars = chars_of(text);
    let ranges = line_ranges(chars.as_slice());
    let ghost lines = lines_of(text@);
    let mut places: Vec<usize> = Vec::new();
    let mut i: usize = 0;
    assert(lines.take(0) =~= Seq::<Seq<char>>::empty());
    while i < ranges.len()
        invariant
            i <= ranges@.len(),
            chars@ == text@,
            lines == lines_of(text@),
            pieces(chars@, ranges@) == lines,
            forall|k: int|
                0 <= k < ranges@.len() ==> (#[trigger] ranges@[k]).0 <= ranges@[k].1
                    <= chars@.len(),
            places@ == skipped(lines.take(i as int)),
        decreases ranges@.len() - i,
    {
        let range = ranges[i];
        let line = slice_subrange(chars.as_slice(), range.0, range.1);
        assert(line@ == lines[i as int]);
        assert(lines.take(i + 1).drop_last() =~= lines.take(i as int));
        assert(lines.take(i + 1).last() == line@);
        if category_in(line).is_none() && task_in(line, UNCLASSIFIED).is_none() {
            places.push(i);
        }
        i += 1;
    }
    assert(lines.take(i as int) =~= lines);
    places
}

/// The text that a store holds for the two lists: for each category in its order,
/// its line, then the lines of the tasks of that name in their order, each line
/// followed by a line feed. A task that names none of the categories is left out.
pub fn save(categories: &[Category], tasks: &[Task]) -> (text: String)
    ensures
        text@ == store_text(category_views(categories@), task_views(tasks@)),
{
    let ghost all = category_views(categories@);
    let ghost items = task_views(tasks@);
    let mut text = String::new();
    let mut i: usize = 0;
    assert(all.take(0) =~= Seq::<CategoryView>::empty());
    while i < categories.len()
        invariant
            i <= categories@.len(),
            all == category_views(categories@),
            items == task_views(tasks@),
            text@ == lines_text(store_lines(all.take(i as int), items)),
        decreases categories@.len() - i,
    {
        let category = &categories[i];
        let ghost done = store_lines(all.take(i as int), items);
        let ghost name = category@.name;
        assert(all.take(i + 1).drop_last() =~= all.take(i as int));
        assert(all.take(i + 1).last() == category@);
        let heading = category.line();
        append_str(&mut text, heading.as_str());
        append_char(&mut text, '\n');
        assert(done.push(category_line(category@)).drop_last() =~= done);
        assert(text@ =~= lines_text(done.push(category_line(category@))));
        let mut j: usize = 0;
        assert(items.take(0) =~= Seq::<TaskView>::empty());
        assert(done.push(category_line(category@)) + task_lines(tasks_in(items.take(0), name))
            =~= done.push(category_line(category@)));
        while j < tasks.len()
            invariant
                j <= tasks@.len(),
                items == task_views(tasks@),
                name == category@.name,
                text@ == lines_text(
                    done.push(category_line(category@)) + task_lines(
                        tasks_in(items.take(j as int), name),
                    ),
                ),
            decreases tasks@.len() - j,
        {
            let task = &tasks[j];
            assert(items.take(j + 1).drop_last() =~= items.take(j as int));
            assert(items.take(j + 1).last() == task@);
            if *task.category() == *category.name() {
                let ghost before = done.push(category_line(category@)) + task_lines(
                    tasks_in(items.take(j as int), name),
                );
                let entry = task.line();
                append_str(&mut text, entry.as_str());
                append_char(&mut text, '\n');
                assert(before.push(task_line(task@)).drop_last() =~= before);
                assert(before.push(task_line(task@)) =~= done.push(category_line(category@))
                    + task_lines(tasks_in(items.take(j + 1), name)));
                assert(text@ =~= lines_text(before.push(task_line(task@))));
            }
            j += 1;
        }
        assert(items.take(j as int) =~= items);
        i += 1;
    }
    assert(all.take(i as int) =~= all);
    text
}

} // verus!
