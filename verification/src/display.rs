//! What is shown of the two lists: which categories, and their tasks in which order.

use crate::category::{category_views, Category, CategoryView};
use crate::color::Color;
use crate::deadline::{
    clock_reading, earlier, minute_text, now, past, Deadline, Minute, Moment,
};
use crate::probability::{admits, DRAW_STEPS};
use crate::task::{minute_view, task_views, Task, TaskView};
use crate::text::append_str;
use vstd::prelude::*;

verus! {

/// What an entry begins with.
pub const ENTRY_INDENT: &'static str = "    ";

/// What an entry holds in place of a deadline where the task has none.
pub const NO_DEADLINE_SHOWN: &'static str = "No deadline";

/// What stands between the deadline and the name of an entry.
pub const ENTRY_COLON: &'static str = ": ";

/// What follows the name of a task whose deadline has passed.
pub const BACKLOG_MARK: &'static str = " [BACKLOG]";

/// A category as it is shown: its name, its colour, and one entry for each of its
/// tasks.
#[derive(Debug)]
pub struct Block {
    pub name: String,
    pub color: Color,
    pub entries: Vec<String>,
}

/// A shown category as the contracts speak of it.
pub struct BlockView {
    pub name: Seq<char>,
    pub color: Color,
    pub entries: Seq<Seq<char>>,
}

/// The characters of each of `strings`.
pub open spec fn texts(strings: Seq<String>) -> Seq<Seq<char>> {
    Seq::new(strings.len(), |i: int| strings[i]@)
}

impl View for Block {
    type V = BlockView;

    open spec fn view(&self) -> BlockView {
        BlockView { name: self.name@, color: self.color, entries: texts(self.entries@) }
    }
}

/// The shown categories of a list as the contracts speak of them.
pub open spec fn block_views(blocks: Seq<Block>) -> Seq<BlockView> {
    Seq::new(blocks.len(), |i: int| blocks[i]@)
}

/// The deadline `a` is due sooner than `b`: both are minutes and `a` is the earlier
/// one, or only `a` is a minute. No deadline is due last.
pub open spec fn due_sooner(a: Option<Minute>, b: Option<Minute>) -> bool {
    match a {
        Some(first) => match b {
            Some(second) => earlier(first, second),
            None => true,
        },
        None => false,
    }
}

/// The task at place `i` is shown before the task at place `j`: it is due sooner,
/// or the two are due alike and `i` is the lower place.
pub open spec fn shown_before(tasks: Seq<TaskView>, i: int, j: int) -> bool {
    due_sooner(tasks[i].deadline, tasks[j].deadline) || (tasks[i].deadline == tasks[j].deadline
        && i < j)
}

/// `order` lists the places of all of `tasks` as they are shown: by deadline, a task
/// without one last, and tasks that are due alike in the order of the list.
pub open spec fn is_due_order(tasks: Seq<TaskView>, order: Seq<usize>) -> bool {
    &&& order.len() == tasks.len()
    &&& forall|k: int| 0 <= k < order.len() ==> #[trigger] order[k] < tasks.len()
    &&& forall|k: int, l: int|
        0 <= k < l < order.len() ==> shown_before(
            tasks,
            (#[trigger] order[k]) as int,
            (#[trigger] order[l]) as int,
        )
}

/// Where the task at place `index` goes among `order`: behind the last of them that
/// is not due later than it.
pub open spec fn slot(tasks: Seq<TaskView>, order: Seq<usize>, index: int) -> int
    decreases order.len(),
{
    if order.len() > 0 && due_sooner(tasks[index].deadline, tasks[order.last() as int].deadline) {
        slot(tasks, order.drop_last(), index)
    } else {
        order.len() as int
    }
}

/// The places of `tasks` in the order in which they are shown: each task in turn
/// goes behind the last of the tasks before it that is not due later.
pub open spec fn due_order(tasks: Seq<TaskView>) -> Seq<usize>
    decreases tasks.len(),
{
    if tasks.len() == 0 {
        Seq::empty()
    } else {
        let before = due_order(tasks.drop_last());
        before.insert(slot(tasks, before, tasks.len() - 1), (tasks.len() - 1) as usize)
    }
}

/// Some task names the category `name`.
pub open spec fn has_task(tasks: Seq<TaskView>, name: Seq<char>) -> bool {
    exists|i: int| 0 <= i < tasks.len() && (#[trigger] tasks[i]).category == name
}

/// Whether a category is shown on the draw `draw`: its probability is at least the
/// draw, and some task names it.
pub open spec fn shown(category: CategoryView, tasks: Seq<TaskView>, draw: nat) -> bool {
    admits(category.probability, draw) && has_task(tasks, category.name)
}

/// The entry of a task at the time `now`: the indent, the deadline or the words for
/// none, a colon, the name, and the mark of the backlog where the deadline has
/// passed.
pub open spec fn entry_text(task: TaskView, now: Moment) -> Seq<char> {
    ENTRY_INDENT@ + match task.deadline {
        Some(at) => minute_text(at),
        None => NO_DEADLINE_SHOWN@,
    } + ENTRY_COLON@ + task.task + if task.deadline is Some && past(task.deadline->0, now) {
        BACKLOG_MARK@
    } else {
        Seq::empty()
    }
}

/// The entries of the tasks of the category `name`, for the places in `order`.
pub open spec fn entries(
    tasks: Seq<TaskView>,
    order: Seq<usize>,
    name: Seq<char>,
    now: Moment,
) -> Seq<Seq<char>>
    decreases order.len(),
{
    if order.len() == 0 {
        Seq::empty()
    } else {
        let before = entries(tasks, order.drop_last(), name, now);
        let task = tasks[order.last() as int];
        if task.category == name {
            before.push(entry_text(task, now))
        } else {
            before
        }
    }
}

/// What is shown on the draw `draw` at the time `now`: the categories that are shown,
/// in their order, each with the entries of its tasks in the order of their
/// deadlines.
pub open spec fn blocks(
    categories: Seq<CategoryView>,
    tasks: Seq<TaskView>,
    draw: nat,
    now: Moment,
) -> Seq<BlockView>
    decreases categories.len(),
{
    if categories.len() == 0 {
        Seq::empty()
    } else {
        let before = blocks(categories.drop_last(), tasks, draw, now);
        let category = categories.last();
        if shown(category, tasks, draw) {
            before.push(block_of(category, tasks, now))
        } else {
            before
        }
    }
}

/// Of any two deadlines one is due sooner or they are alike, and to be due sooner
/// carries over a chain.
pub proof fn lemma_due_sooner(a: Option<Minute>, b: Option<Minute>, c: Option<Minute>)
    ensures
        !due_sooner(a, a),
        due_sooner(a, b) || due_sooner(b, a) || a == b,
        due_sooner(a, b) && due_sooner(b, c) ==> due_sooner(a, c),
        due_sooner(a, b) ==> !due_sooner(b, a),
{
}

/// Where a task goes among the tasks before it: every place from there on is due
/// later than it, and the place before is not.
pub proof fn lemma_slot(tasks: Seq<TaskView>, order: Seq<usize>, index: int)
    ensures
        0 <= slot(tasks, order, index) <= order.len(),
        forall|l: int|
            slot(tasks, order, index) <= l < order.len() ==> due_sooner(
                tasks[index].deadline,
                tasks[(#[trigger] order[l]) as int].deadline,
            ),
        slot(tasks, order, index) > 0 ==> !due_sooner(
            tasks[index].deadline,
            tasks[order[slot(tasks, order, index) - 1] as int].deadline,
        ),
    decreases order.len(),
{
    if order.len() > 0 && due_sooner(tasks[index].deadline, tasks[order.last() as int].deadline) {
        let front = order.drop_last();
        lemma_slot(tasks, front, index);
        assert forall|l: int| slot(tasks, order, index) <= l < order.len() implies due_sooner(
            tasks[index].deadline,
            tasks[(#[trigger] order[l]) as int].deadline,
        ) by {
            if l < front.len() {
                assert(order[l] == front[l]);
            }
        }
        if slot(tasks, order, index) > 0 {
            assert(front[slot(tasks, order, index) - 1] == order[slot(tasks, order, index) - 1]);
        }
    }
}

/// `due_order` lists the places of all the tasks as they are shown, each place once.
pub proof fn lemma_due_order(tasks: Seq<TaskView>)
    requires
        tasks.len() <= usize::MAX,
    ensures
        is_due_order(tasks, due_order(tasks)),
        forall|i: usize| i < tasks.len() ==> #[trigger] due_order(tasks).contains(i),
    decreases tasks.len(),
{
    if tasks.len() > 0 {
        let front = tasks.drop_last();
        let before = due_order(front);
        let index = tasks.len() - 1;
        let at = slot(tasks, before, index);
        let order = due_order(tasks);
        lemma_due_order(front);
        lemma_slot(tasks, before, index);
        before.insert_ensures(at, index as usize);
        assert forall|k: int| 0 <= k < before.len() implies tasks[(#[trigger] before[k]) as int]
            == front[before[k] as int] by {}
        assert forall|k: int, l: int| 0 <= k < l < order.len() implies shown_before(
            tasks,
            (#[trigger] order[k]) as int,
            (#[trigger] order[l]) as int,
        ) by {
            if l < at {
                assert(order[k] == before[k] && order[l] == before[l]);
                assert(shown_before(front, before[k] as int, before[l] as int));
            } else if l == at {
                assert(order[k] == before[k]);
                let last = before[at - 1] as int;
                if k < at - 1 {
                    assert(shown_before(front, before[k] as int, before[at - 1] as int));
                }
                lemma_due_sooner(tasks[index].deadline, tasks[last].deadline, None);
                lemma_due_sooner(
                    tasks[before[k] as int].deadline,
                    tasks[last].deadline,
                    tasks[index].deadline,
                );
                lemma_due_sooner(
                    tasks[before[k] as int].deadline,
                    tasks[index].deadline,
                    tasks[last].deadline,
                );
            } else if k < at {
                assert(order[k] == before[k] && order[l] == before[l - 1]);
                assert(shown_before(front, before[k] as int, before[l - 1] as int));
            } else if k == at {
                assert(order[l] == before[l - 1]);
            } else {
                assert(order[k] == before[k - 1] && order[l] == before[l - 1]);
                assert(shown_before(front, before[k - 1] as int, before[l - 1] as int));
            }
        }
        assert forall|k: int| 0 <= k < order.len() implies #[trigger] order[k] < tasks.len() by {
            if k < at {
                assert(order[k] == before[k]);
            } else if k > at {
                assert(order[k] == before[k - 1]);
            }
        }
        assert forall|i: usize| i < tasks.len() implies #[trigger] order.contains(i) by {
            if i < index {
                assert(before.contains(i));
                let k = choose|k: int| 0 <= k < before.len() && before[k] == i;
                if k < at {
                    assert(order[k] == i);
                } else {
                    assert(order[k + 1] == before[k]);
                }
            } else {
                assert(order[at] == i);
            }
        }
    }
}

/// The places below a bound, listed without any of them twice and as many as the
/// bound, are all there.
proof fn lemma_all_places(order: Seq<usize>, bound: nat)
    requires
        order.len() == bound,
        forall|k: int| 0 <= k < order.len() ==> #[trigger] order[k] < bound,
        forall|k: int, l: int|
            0 <= k < l < order.len() ==> (#[trigger] order[k]) != (#[trigger] order[l]),
    ensures
        forall|i: usize| i < bound ==> #[trigger] order.contains(i),
    decreases bound,
{
    if bound > 0 {
        let top = (bound - 1) as usize;
        if exists|p: int| 0 <= p < order.len() && order[p] == top {
            let p = choose|p: int| 0 <= p < order.len() && order[p] == top;
            let rest = order.remove(p);
            assert forall|k: int| 0 <= k < rest.len() implies #[trigger] rest[k] < bound - 1 by {
                if k < p {
                    assert(rest[k] == order[k]);
                } else {
                    assert(rest[k] == order[k + 1]);
                }
            }
            assert forall|k: int, l: int| 0 <= k < l < rest.len() implies (#[trigger] rest[k]) != (
            #[trigger] rest[l]) by {
                let from = if k < p {
                    k
                } else {
                    k + 1
                };
                let to = if l < p {
                    l
                } else {
                    l + 1
                };
                assert(rest[k] == order[from] && rest[l] == order[to]);
            }
            lemma_all_places(rest, (bound - 1) as nat);
            assert forall|i: usize| i < bound implies #[trigger] order.contains(i) by {
                if i < bound - 1 {
                    assert(rest.contains(i));
                    let k = choose|k: int| 0 <= k < rest.len() && rest[k] == i;
                    if k < p {
                        assert(order[k] == i);
                    } else {
                        assert(order[k + 1] == i);
                    }
                }
            }
        } else {
            let rest = order.drop_last();
            assert forall|k: int| 0 <= k < rest.len() implies #[trigger] rest[k] < bound - 1 by {
                assert(rest[k] == order[k]);
            }
            assert forall|k: int, l: int| 0 <= k < l < rest.len() implies (#[trigger] rest[k]) != (
            #[trigger] rest[l]) by {
                assert(rest[k] == order[k] && rest[l] == order[l]);
            }
            lemma_all_places(rest, (bound - 1) as nat);
            let last = order[bound - 1];
            assert(last < bound - 1);
            assert(rest.contains(last));
            let k = choose|k: int| 0 <= k < rest.len() && rest[k] == last;
            assert(order[k] == order[bound - 1]);
        }
    }
}

/// Of two tasks one is shown before the other, and never each before the other.
proof fn lemma_shown_before(tasks: Seq<TaskView>, i: int, j: int)
    ensures
        !shown_before(tasks, i, i),
        shown_before(tasks, i, j) ==> !shown_before(tasks, j, i),
        i != j ==> shown_before(tasks, i, j) || shown_before(tasks, j, i),
{
    lemma_due_sooner(tasks[i].deadline, tasks[j].deadline, None);
}

/// Two orders in which the tasks are shown agree up to any place.
proof fn lemma_due_orders_agree(tasks: Seq<TaskView>, a: Seq<usize>, b: Seq<usize>, upto: int)
    requires
        tasks.len() <= usize::MAX,
        is_due_order(tasks, a),
        is_due_order(tasks, b),
        0 <= upto <= tasks.len(),
    ensures
        forall|k: int| 0 <= k < upto ==> a[k] == b[k],
    decreases upto,
{
    if upto > 0 {
        let k = upto - 1;
        lemma_due_orders_agree(tasks, a, b, k);
        assert forall|p: int, q: int| 0 <= p < q < a.len() implies (#[trigger] a[p]) != (
        #[trigger] a[q]) by {
            lemma_shown_before(tasks, a[p] as int, a[q] as int);
        }
        assert forall|p: int, q: int| 0 <= p < q < b.len() implies (#[trigger] b[p]) != (
        #[trigger] b[q]) by {
            lemma_shown_before(tasks, b[p] as int, b[q] as int);
        }
        lemma_all_places(a, tasks.len());
        lemma_all_places(b, tasks.len());
        assert(b.contains(a[k]));
        assert(a.contains(b[k]));
        let m = choose|m: int| 0 <= m < b.len() && b[m] == a[k];
        let n = choose|n: int| 0 <= n < a.len() && a[n] == b[k];
        lemma_shown_before(tasks, a[k] as int, b[k] as int);
        if m < k {
            assert(a[m] == b[m]);
        } else if n < k {
            assert(a[n] == b[n]);
        } else if m > k && n > k {
            assert(shown_before(tasks, b[k] as int, b[m] as int));
            assert(shown_before(tasks, a[k] as int, a[n] as int));
        }
    }
}

/// There is one order in which the tasks are shown: a list of places that is
/// ordered as `is_due_order` asks is `due_order`.
pub proof fn lemma_due_order_is_one(tasks: Seq<TaskView>, order: Seq<usize>)
    requires
        tasks.len() <= usize::MAX,
        is_due_order(tasks, order),
    ensures
        order == due_order(tasks),
{
    lemma_due_order(tasks);
    lemma_due_orders_agree(tasks, order, due_order(tasks), tasks.len() as int);
    assert(order =~= due_order(tasks));
}

/// A category of probability 1 is shown on every draw where some task names it; one
/// of probability 0 on the draw 0 alone; and one that no task names on no draw.
pub proof fn lemma_shown_at_bounds(category: CategoryView, tasks: Seq<TaskView>, draw: nat)
    ensures
        category.probability == 100 && draw < DRAW_STEPS ==> shown(category, tasks, draw)
            == has_task(tasks, category.name),
        category.probability == 0 ==> shown(category, tasks, draw) == (draw == 0 && has_task(
            tasks,
            category.name,
        )),
        draw == 0 ==> shown(category, tasks, draw) == has_task(tasks, category.name),
        !has_task(tasks, category.name) ==> !shown(category, tasks, draw),
{
}

/// A category as it is shown at the time `now`.
pub open spec fn block_of(category: CategoryView, tasks: Seq<TaskView>, now: Moment) -> BlockView {
    BlockView {
        name: category.name,
        color: category.color,
        entries: entries(tasks, due_order(tasks), category.name, now),
    }
}

/// What is shown holds every category that is shown, and nothing else.
pub proof fn lemma_blocks(
    categories: Seq<CategoryView>,
    tasks: Seq<TaskView>,
    draw: nat,
    now: Moment,
)
    ensures
        forall|i: int|
            0 <= i < categories.len() && shown(#[trigger] categories[i], tasks, draw) ==> blocks(
                categories,
                tasks,
                draw,
                now,
            ).contains(block_of(categories[i], tasks, now)),
        forall|k: int|
            0 <= k < blocks(categories, tasks, draw, now).len() ==> exists|i: int|
                0 <= i < categories.len() && shown(#[trigger] categories[i], tasks, draw) && (
                #[trigger] blocks(categories, tasks, draw, now)[k]) == block_of(
                    categories[i],
                    tasks,
                    now,
                ),
    decreases categories.len(),
{
    if categories.len() > 0 {
        let front = categories.drop_last();
        let last = categories.last();
        let before = blocks(front, tasks, draw, now);
        let all = blocks(categories, tasks, draw, now);
        lemma_blocks(front, tasks, draw, now);
        assert forall|i: int|
            0 <= i < categories.len() && shown(
                #[trigger] categories[i],
                tasks,
                draw,
            ) implies all.contains(block_of(categories[i], tasks, now)) by {
            if i < front.len() {
                assert(front[i] == categories[i]);
                let block = block_of(categories[i], tasks, now);
                assert(before.contains(block));
                let k = choose|k: int| 0 <= k < before.len() && before[k] == block;
                assert(all[k] == block);
            } else {
                assert(all[all.len() - 1] == block_of(last, tasks, now));
            }
        }
        assert forall|k: int| 0 <= k < all.len() implies exists|i: int|
            0 <= i < categories.len() && shown(#[trigger] categories[i], tasks, draw) && (
            #[trigger] all[k]) == block_of(categories[i], tasks, now) by {
            if k < before.len() {
                assert(all[k] == before[k]);
                let i = choose|i: int|
                    0 <= i < front.len() && shown(#[trigger] front[i], tasks, draw) && (
                    #[trigger] before[k]) == block_of(front[i], tasks, now);
                assert(categories[i] == front[i]);
            } else {
                assert(categories[categories.len() - 1] == last);
                assert(shown(categories[categories.len() - 1], tasks, draw));
            }
        }
    }
}

fn sooner(a: Option<Deadline>, b: Option<Deadline>) -> (r: bool)
    ensures
        r == due_sooner(minute_view(a), minute_view(b)),
{
    match a {
        Some(first) => match b {
            Some(second) => first.before(&second),
            None => true,
        },
        None => false,
    }
}

/// The places of `tasks` in the order in which they are shown: by deadline, a task
/// without one last, and tasks that are due alike in the order of the list.
pub fn order_by_deadline(tasks: &[Task]) -> (order: Vec<usize>)
    ensures
        order@ == due_order(task_views(tasks@)),
        is_due_order(task_views(tasks@), order@),
{
    let ghost items = task_views(tasks@);
    let mut order: Vec<usize> = Vec::new();
    let mut i: usize = 0;
    assert(items.take(0) =~= Seq::<TaskView>::empty());
    while i < tasks.len()
        invariant
            i <= tasks@.len(),
            items == task_views(tasks@),
            order@ == due_order(items.take(i as int)),
        decreases tasks@.len() - i,
    {
        let ghost upto = items.take(i + 1);
        proof {
            lemma_due_order(items.take(i as int));
            assert(upto.drop_last() =~= items.take(i as int));
        }
        let deadline = tasks[i].deadline();
        let mut at: usize = order.len();
        assert(order@.take(at as int) =~= order@);
        while at > 0 && sooner(deadline, tasks[order[at - 1]].deadline())
            invariant
                at <= order@.len(),
                i < tasks@.len(),
                items == task_views(tasks@),
                upto == items.take(i + 1),
                minute_view(deadline) == items[i as int].deadline,
                forall|k: int| 0 <= k < order@.len() ==> #[trigger] order@[k] < i,
                slot(upto, order@, i as int) == slot(upto, order@.take(at as int), i as int),
            decreases at,
        {
            assert(order@.take(at as int).drop_last() =~= order@.take(at - 1));
            assert(upto[order@[at - 1] as int] == items[order@[at - 1] as int]);
            at -= 1;
        }
        proof {
            if at > 0 {
                assert(upto[order@[at - 1] as int] == items[order@[at - 1] as int]);
                assert(order@.take(at as int).last() == order@[at - 1]);
            }
        }
        order.insert(at, i);
        i += 1;
    }
    assert(items.take(i as int) =~= items);
    proof {
        lemma_due_order(items);
    }
    order
}

fn names_task(tasks: &[Task], name: &String) -> (r: bool)
    ensures
        r == has_task(task_views(tasks@), name@),
{
    let mut i: usize = 0;
    while i < tasks.len()
        invariant
            i <= tasks@.len(),
            forall|j: int| 0 <= j < i ==> (#[trigger] tasks@[j])@.category != name@,
        decreases tasks@.len() - i,
    {
        if *tasks[i].category() == *name {
            assert(task_views(tasks@)[i as int].category == name@);
            return true;
        }
        i += 1;
    }
    assert forall|j: int| 0 <= j < task_views(tasks@).len() implies (#[trigger] task_views(
        tasks@,
    )[j]).category != name@ by {
        assert(tasks@[j]@.category != name@);
    }
    false
}

/// The entry of `task` at the time `now`.
pub fn entry(task: &Task, now: &Moment) -> (line: String)
    ensures
        line@ == entry_text(task@, *now),
{
    let mut line = String::new();
    append_str(&mut line, ENTRY_INDENT);
    let mut late = false;
    match task.deadline() {
        Some(at) => {
            let text = at.text();
            append_str(&mut line, text.as_str());
            late = at.is_past(now);
        },
        None => {
            append_str(&mut line, NO_DEADLINE_SHOWN);
        },
    }
    append_str(&mut line, ENTRY_COLON);
    append_str(&mut line, task.task().as_str());
    if late {
        append_str(&mut line, BACKLOG_MARK);
    }
    assert(line@ =~= entry_text(task@, *now));
    line
}

fn entries_of(tasks: &[Task], order: &Vec<usize>, name: &String, now: &Moment) -> (lines: Vec<
    String,
>)
    requires
        forall|k: int| 0 <= k < order@.len() ==> #[trigger] order@[k] < tasks@.len(),
    ensures
        texts(lines@) == entries(task_views(tasks@), order@, name@, *now),
{
    let ghost items = task_views(tasks@);
    let mut lines: Vec<String> = Vec::new();
    let mut k: usize = 0;
    assert(order@.take(0) =~= Seq::<usize>::empty());
    assert(texts(lines@) =~= Seq::<Seq<char>>::empty());
    while k < order.len()
        invariant
            k <= order@.len(),
            items == task_views(tasks@),
            forall|l: int| 0 <= l < order@.len() ==> #[trigger] order@[l] < tasks@.len(),
            texts(lines@) == entries(items, order@.take(k as int), name@, *now),
        decreases order@.len() - k,
    {
        let task = &tasks[order[k]];
        assert(order@.take(k + 1).drop_last() =~= order@.take(k as int));
        assert(order@.take(k + 1).last() == order@[k as int]);
        assert(items[order@[k as int] as int] == task@);
        if *task.category() == *name {
            let ghost before = texts(lines@);
            let line = entry(task, now);
            lines.push(line);
            assert(texts(lines@) =~= before.push(entry_text(task@, *now)));
        }
        k += 1;
    }
    assert(order@.take(k as int) =~= order@);
    lines
}

/// What is shown of the two lists on the draw `draw`, which stands for
/// `draw / DRAW_STEPS`, at the time `now`: each category whose probability is at
/// least the draw and that some task names, in the order of the categories, with
/// the entries of its tasks in the order of their deadlines.
pub fn render(categories: &[Category], tasks: &[Task], draw: u32, now: &Moment) -> (shown: Vec<
    Block,
>)
    ensures
        block_views(shown@) == blocks(
            category_views(categories@),
            task_views(tasks@),
            draw as nat,
            *now,
        ),
{
    let ghost all = category_views(categories@);
    let ghost items = task_views(tasks@);
    let order = order_by_deadline(tasks);
    let mut shown: Vec<Block> = Vec::new();
    let mut i: usize = 0;
    assert(all.take(0) =~= Seq::<CategoryView>::empty());
    assert(block_views(shown@) =~= Seq::<BlockView>::empty());
    while i < categories.len()
        invariant
            i <= categories@.len(),
            all == category_views(categories@),
            items == task_views(tasks@),
            order@ == due_order(items),
            is_due_order(items, order@),
            block_views(shown@) == blocks(all.take(i as int), items, draw as nat, *now),
        decreases categories@.len() - i,
    {
        let category = &categories[i];
        assert(all.take(i + 1).drop_last() =~= all.take(i as int));
        assert(all.take(i + 1).last() == category@);
        if category.probability().admits(draw) && names_task(tasks, category.name()) {
            let ghost before = block_views(shown@);
            let lines = entries_of(tasks, &order, category.name(), now);
            let block = Block {
                name: category.name().clone(),
                color: category.color(),
                entries: lines,
            };
            shown.push(block);
            assert(block_views(shown@) =~= before.push(block@));
        }
        i += 1;
    }
    assert(all.take(i as int) =~= all);
    shown
}

/// A random word of 32 bits, each word as likely as any other: `fastrand::u32` over
/// its whole range. Nothing is claimed of what comes back.
#[verifier::external_body]
fn random_word() -> u32 {
    fastrand::u32(..)
}

/// The draw that a word of 32 bits stands for: the number that its upper 23 bits
/// write.
pub open spec fn word_draw(word: u32) -> nat {
    (word / 512) as nat
}

/// The draw that `word` stands for: the number that its upper 23 bits write.
pub fn draw_of(word: u32) -> (draw: u32)
    ensures
        draw == word_draw(word),
        draw < DRAW_STEPS,
{
    let draw: u32 = word >> 9;
    assert(draw == word / 512 && draw < 8_388_608) by (bit_vector)
        requires
            draw == word >> 9,
    ;
    draw
}

/// A random draw, each of the `DRAW_STEPS` draws as likely as any other.
pub fn random_draw() -> (draw: u32)
    ensures
        draw < DRAW_STEPS,
{
    draw_of(random_word())
}

/// What is shown of the two lists now. With `probability`, a random draw decides
/// which categories are shown; without it the draw is 0, and every category that
/// some task names is shown.
pub fn display(categories: &[Category], tasks: Vec<Task>, probability: bool) -> (shown: Vec<
    Block,
>)
    ensures
        exists|draw: nat, now: Moment|
            draw < DRAW_STEPS && (!probability ==> draw == 0) && clock_reading(now)
                && block_views(shown@) == blocks(
                category_views(categories@),
                task_views(tasks@),
                draw,
                now,
            ),
{
    let draw = if probability {
        random_draw()
    } else {
        0
    };
    let now = now();
    render(categories, tasks.as_slice(), draw, &now)
}

} // verus!
