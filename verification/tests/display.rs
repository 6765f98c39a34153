use todo_cras::deadline::now;
use todo_cras::{
    display, draw_of, order_by_deadline, random_draw, read, render, Category, Color, Deadline,
    Moment, Probability, Task,
};

fn long_ago() -> Moment {
    Moment { year: 1999, month: 1, day: 1, hour: 0, minute: 0, second: 0, nanosecond: 0 }
}

fn far_ahead() -> Moment {
    Moment { year: 2999, month: 1, day: 1, hour: 0, minute: 0, second: 0, nanosecond: 0 }
}

fn task(name: &str, deadline: &str, category: &str) -> Task {
    let deadline = if deadline == "none" { None } else { Some(Deadline::parse(deadline).unwrap()) };
    Task::new(name.to_string(), deadline, category.to_string())
}

fn category(name: &str, hundredths: u8, color: Color) -> Category {
    Category::new(name.to_string(), Probability::new(hundredths).unwrap(), color)
}

#[test]
fn tasks_without_deadline_keep_their_order_behind_the_others() {
    let tasks = vec![
        task("A", "none", "Work"),
        task("B", "2024-01-01 10:00", "Work"),
        task("C", "none", "Work"),
    ];
    assert_eq!(order_by_deadline(&tasks), vec![1, 0, 2]);
    let shown = render(&[category("Work", 100, Color::Red)], &tasks, 0, &long_ago());
    assert_eq!(
        shown[0].entries,
        vec!["    2024-01-01 10:00: B", "    No deadline: A", "    No deadline: C"]
    );
}

#[test]
fn tasks_are_ordered_by_deadline() {
    let tasks = vec![
        task("d", "2024-03-01 10:00", "Work"),
        task("a", "2023-01-01 10:00", "Work"),
        task("n", "none", "Work"),
        task("c", "2024-01-01 10:01", "Work"),
        task("b", "2024-01-01 10:00", "Work"),
        task("b2", "2024-01-01 10:00", "Work"),
        task("a0", "2023-01-01 09:59", "Work"),
    ];
    assert_eq!(order_by_deadline(&tasks), vec![6, 1, 4, 5, 3, 0, 2]);
    assert_eq!(order_by_deadline(&[]), Vec::<usize>::new());
}

#[test]
fn category_without_tasks_is_not_shown() {
    let text = "Category name: Work\tcolor: Red\tprobability: 1.00\n    Task name: Report\tdeadline: 2024-01-01 10:00\n";
    let (tasks, categories) = read(text).unwrap();
    let shown = render(&categories, &tasks, 0, &long_ago());
    assert_eq!(shown.len(), 1);
    assert_eq!(shown[0].name, "Work");
    assert_eq!(shown[0].color, Color::Red);
    assert_eq!(shown[0].entries, vec!["    2024-01-01 10:00: Report"]);
}

#[test]
fn passed_deadline_is_marked() {
    let tasks = vec![task("Report", "2024-01-01 10:00", "Work"), task("Call", "none", "Work")];
    let shown = render(&[category("Work", 100, Color::Red)], &tasks, 0, &far_ahead());
    assert_eq!(
        shown[0].entries,
        vec!["    2024-01-01 10:00: Report [BACKLOG]", "    No deadline: Call"]
    );
    let on_time = Moment { year: 2024, month: 1, day: 1, hour: 10, minute: 0, second: 0, nanosecond: 0 };
    let shown = render(&[category("Work", 100, Color::Red)], &tasks, 0, &on_time);
    assert_eq!(shown[0].entries[0], "    2024-01-01 10:00: Report");
    let just_late = Moment { second: 1, ..on_time };
    let shown = render(&[category("Work", 100, Color::Red)], &tasks, 0, &just_late);
    assert_eq!(shown[0].entries[0], "    2024-01-01 10:00: Report [BACKLOG]");
}

#[test]
fn certain_category_is_shown_on_every_draw() {
    let categories = [category("Work", 100, Color::Red)];
    let tasks = vec![task("Report", "none", "Work")];
    for draw in [0, 1, 4_194_304, 8_388_606, 8_388_607] {
        assert_eq!(render(&categories, &tasks, draw, &long_ago()).len(), 1);
    }
}

#[test]
fn impossible_category_is_shown_on_the_draw_zero_alone() {
    let categories = [category("Never", 0, Color::Red)];
    let tasks = vec![task("Report", "none", "Never")];
    assert_eq!(render(&categories, &tasks, 0, &long_ago()).len(), 1);
    for draw in [1, 2, 4_194_304, 8_388_607] {
        assert!(render(&categories, &tasks, draw, &long_ago()).is_empty());
    }
}

#[test]
fn category_is_shown_while_its_probability_is_at_least_the_draw() {
    let categories = [
        category("Often", 90, Color::Green),
        category("Empty", 100, Color::Black),
        category("Seldom", 30, Color::Blue),
        category("Always", 100, Color::White),
    ];
    let tasks = vec![
        task("s", "none", "Seldom"),
        task("a", "none", "Always"),
        task("o", "none", "Often"),
        task("x", "none", "Nowhere"),
    ];
    let names = |draw: u32| -> Vec<String> {
        render(&categories, &tasks, draw, &long_ago()).into_iter().map(|b| b.name).collect()
    };
    assert_eq!(names(0), vec!["Often", "Seldom", "Always"]);
    assert_eq!(names(2_516_582), vec!["Often", "Seldom", "Always"]);
    assert_eq!(names(2_516_583), vec!["Often", "Always"]);
    assert_eq!(names(7_549_747), vec!["Often", "Always"]);
    assert_eq!(names(7_549_748), vec!["Always"]);
}

#[test]
fn each_category_holds_its_own_tasks_in_order() {
    let categories = [category("A", 100, Color::Green), category("B", 100, Color::Blue)];
    let tasks = vec![
        task("a2", "2024-01-02 00:00", "A"),
        task("b-", "none", "B"),
        task("a1", "2024-01-01 00:00", "A"),
        task("b1", "2024-01-01 00:00", "B"),
    ];
    let shown = render(&categories, &tasks, 0, &long_ago());
    assert_eq!(shown.len(), 2);
    assert_eq!(shown[0].name, "A");
    assert_eq!(shown[0].color, Color::Green);
    assert_eq!(shown[0].entries, vec!["    2024-01-01 00:00: a1", "    2024-01-02 00:00: a2"]);
    assert_eq!(shown[1].name, "B");
    assert_eq!(shown[1].color, Color::Blue);
    assert_eq!(shown[1].entries, vec!["    2024-01-01 00:00: b1", "    No deadline: b-"]);
}

#[test]
fn display_without_probability_shows_every_category_with_tasks() {
    let categories = [category("Never", 0, Color::Red), category("Empty", 100, Color::Red)];
    let tasks = vec![task("Report", "none", "Never")];
    for _ in 0..20 {
        let shown = display(&categories, tasks.clone(), false);
        assert_eq!(shown.len(), 1);
        assert_eq!(shown[0].name, "Never");
        assert_eq!(shown[0].entries, vec!["    No deadline: Report"]);
    }
}

#[test]
fn display_with_probability_shows_the_certain_categories() {
    let categories = [category("Always", 100, Color::Red), category("Empty", 100, Color::Red)];
    let tasks = vec![task("Report", "none", "Always")];
    for _ in 0..50 {
        let shown = display(&categories, tasks.clone(), true);
        assert_eq!(shown.len(), 1);
        assert_eq!(shown[0].name, "Always");
    }
}

#[test]
fn draws_stay_below_the_number_of_steps() {
    for _ in 0..1000 {
        assert!(random_draw() < 8_388_608);
    }
}

#[test]
fn draw_is_the_upper_part_of_a_word() {
    assert_eq!(draw_of(0), 0);
    assert_eq!(draw_of(511), 0);
    assert_eq!(draw_of(512), 1);
    assert_eq!(draw_of(1023), 1);
    assert_eq!(draw_of(1024), 2);
    assert_eq!(draw_of(0x8000_0000), 4_194_304);
    assert_eq!(draw_of(u32::MAX - 512), 8_388_606);
    assert_eq!(draw_of(u32::MAX), 8_388_607);
}

#[test]
fn clock_shows_a_moment_of_the_calendar() {
    for _ in 0..100 {
        let moment = now();
        assert!((1..=12).contains(&moment.month));
        assert!((1..=31).contains(&moment.day));
        assert!(moment.hour <= 23);
        assert!(moment.minute <= 59);
        assert!(moment.second <= 59);
        assert!(moment.nanosecond <= 1_999_999_999);
        assert!(moment.year >= 2024);
    }
}
