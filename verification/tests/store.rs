use todo_cras::{lines, read, save, unrecognized_lines, Color, Error, ParseError};

#[test]
fn reads_one_category_with_one_task() {
    let text = "Category name: Work\tcolor: Red\tprobability: 1.00\n    Task name: Report\tdeadline: 2024-01-01 10:00\n";
    let (tasks, categories) = read(text).unwrap();
    assert_eq!(categories.len(), 2);
    assert_eq!(categories[0].name(), "Work");
    assert_eq!(categories[0].color(), Color::Red);
    assert_eq!(categories[0].probability().hundredths(), 100);
    assert_eq!(categories[1].name(), "Unclassified");
    assert_eq!(categories[1].color(), Color::White);
    assert_eq!(categories[1].probability().hundredths(), 100);
    assert_eq!(tasks.len(), 1);
    assert_eq!(tasks[0].task(), "Report");
    assert_eq!(tasks[0].category(), "Work");
    assert_eq!(tasks[0].deadline().unwrap().text(), "2024-01-01 10:00");
}

#[test]
fn writes_what_it_read() {
    let text = "Category name: Work\tcolor: Red\tprobability: 0.30\n    Task name: Report\tdeadline: 2024-01-01 10:00\n    Task name: Call\tdeadline: none\nCategory name: Unclassified\tcolor: White\tprobability: 1.00\n";
    let (tasks, categories) = read(text).unwrap();
    assert_eq!(save(&categories, &tasks), text);
}

#[test]
fn reads_again_what_it_wrote() {
    let text = "Category name: Home\tcolor: green\tprobability: 0.5\n    Task name: Dishes\tdeadline: none\nCategory name: Work\tcolor: BLUE\tprobability: 1\n    Task name: Report\tdeadline: 2024-01-01 10:00\n";
    let (tasks, categories) = read(text).unwrap();
    let written = save(&categories, &tasks);
    assert_eq!(
        written,
        "Category name: Home\tcolor: Green\tprobability: 0.50\n    Task name: Dishes\tdeadline: none\nCategory name: Work\tcolor: Blue\tprobability: 1.00\n    Task name: Report\tdeadline: 2024-01-01 10:00\nCategory name: Unclassified\tcolor: White\tprobability: 1.00\n"
    );
    let (tasks_again, categories_again) = read(&written).unwrap();
    assert_eq!(categories_again.len(), categories.len());
    for (again, first) in categories_again.iter().zip(categories.iter()) {
        assert_eq!(again.name(), first.name());
        assert_eq!(again.color(), first.color());
        assert_eq!(again.probability(), first.probability());
    }
    assert_eq!(tasks_again.len(), tasks.len());
    for (again, first) in tasks_again.iter().zip(tasks.iter()) {
        assert_eq!(again.task(), first.task());
        assert_eq!(again.deadline(), first.deadline());
        assert_eq!(again.category(), first.category());
    }
    assert_eq!(save(&categories_again, &tasks_again), written);
}

#[test]
fn quoted_deadline_is_refused() {
    let text = "Category name: Work\tcolor: Red\tprobability: 1.00\n    Task name: Report\tdeadline: \"2024-01-01 10:00\"\n";
    assert_eq!(read(text).unwrap_err(), ParseError { kind: Error::InvalidDeadline, line: 1 });
}

#[test]
fn passes_over_other_lines() {
    let text = "# my tasks\nCategory name: Work\tcolor: Red\tprobability: 1.00\n\n    Task name: Report\tdeadline: none\nTask name: Lost\tdeadline: none\n";
    let (tasks, categories) = read(text).unwrap();
    assert_eq!(categories.len(), 2);
    assert_eq!(tasks.len(), 1);
    assert_eq!(unrecognized_lines(text), vec![0, 2, 4]);
}

#[test]
fn empty_text_gives_unclassified_alone() {
    let (tasks, categories) = read("").unwrap();
    assert!(tasks.is_empty());
    assert_eq!(categories.len(), 1);
    assert_eq!(categories[0].name(), "Unclassified");
    assert_eq!(categories[0].probability().hundredths(), 100);
    assert_eq!(categories[0].color(), Color::White);
    assert!(unrecognized_lines("").is_empty());
}

#[test]
fn unclassified_is_not_added_twice() {
    let text = "Category name: Unclassified\tcolor: Cyan\tprobability: 0.20\nCategory name: Work\tcolor: Red\tprobability: 1.00\n";
    let (_, categories) = read(text).unwrap();
    assert_eq!(categories.len(), 2);
    assert_eq!(categories[0].name(), "Unclassified");
    assert_eq!(categories[0].color(), Color::Cyan);
    assert_eq!(categories[0].probability().hundredths(), 20);
    assert_eq!(categories[1].name(), "Work");
}

#[test]
fn task_belongs_to_the_category_last_above_it() {
    let text = "Category name: A\tcolor: Red\tprobability: 1.00\n    Task name: one\tdeadline: none\nnoise\nCategory name: B\tcolor: Blue\tprobability: 1.00\n    Task name: two\tdeadline: none\n    Task name: three\tdeadline: none\n";
    let (tasks, _) = read(text).unwrap();
    assert_eq!(tasks.len(), 3);
    assert_eq!(tasks[0].category(), "A");
    assert_eq!(tasks[1].category(), "B");
    assert_eq!(tasks[2].category(), "B");
}

#[test]
fn task_above_every_category_goes_to_unclassified() {
    let text = "    Task name: early\tdeadline: none\nCategory name: A\tcolor: Red\tprobability: 1.00\n";
    let (tasks, categories) = read(text).unwrap();
    assert_eq!(tasks.len(), 1);
    assert_eq!(tasks[0].category(), "Unclassified");
    assert_eq!(categories.len(), 2);
    assert_eq!(categories[1].name(), "Unclassified");
}

#[test]
fn carriage_return_before_line_feed_ends_a_line() {
    let text = "Category name: Work\tcolor: Red\tprobability: 1.00\r\n    Task name: Report\tdeadline: none\r\n";
    let (tasks, categories) = read(text).unwrap();
    assert_eq!(categories[0].probability().hundredths(), 100);
    assert_eq!(tasks.len(), 1);
    assert!(tasks[0].deadline().is_none());
}

#[test]
fn last_line_needs_no_line_feed() {
    let text = "Category name: Work\tcolor: Red\tprobability: 1.00\n    Task name: Report\tdeadline: none";
    let (tasks, _) = read(text).unwrap();
    assert_eq!(tasks.len(), 1);
    assert_eq!(tasks[0].task(), "Report");
}

#[test]
fn unknown_color_is_invalid_color() {
    let text = "Category name: Work\tcolor: Purple\tprobability: 1.00\n";
    assert_eq!(read(text).unwrap_err(), ParseError { kind: Error::InvalidColor, line: 0 });
}

#[test]
fn color_is_judged_before_probability() {
    let text = "Category name: Work\tcolor: Purple\tprobability: 7\n";
    assert_eq!(read(text).unwrap_err(), ParseError { kind: Error::InvalidColor, line: 0 });
}

#[test]
fn probability_above_one_is_invalid_probability() {
    for probability in ["1.5", "1.01", "2", "1.001", "100", "10.0"] {
        let text = format!("Category name: Work\tcolor: Red\tprobability: {}\n", probability);
        assert_eq!(
            read(&text).unwrap_err(),
            ParseError { kind: Error::InvalidProbability, line: 0 }
        );
    }
}

#[test]
fn probability_below_zero_is_invalid_probability() {
    for probability in ["-0.1", "-1", "-0.001", "-0.5"] {
        let text = format!("Category name: Work\tcolor: Red\tprobability: {}\n", probability);
        assert_eq!(
            read(&text).unwrap_err(),
            ParseError { kind: Error::InvalidProbability, line: 0 }
        );
    }
}

#[test]
fn probability_that_is_no_numeral_is_invalid_probability() {
    for probability in ["high", ".", "0.5 ", " 0.5", "0,5", "1.0.0", "+", "-", "0.5x", "1\t2"] {
        let text = format!("Category name: Work\tcolor: Red\tprobability: {}\n", probability);
        assert_eq!(
            read(&text).unwrap_err(),
            ParseError { kind: Error::InvalidProbability, line: 0 }
        );
    }
}

#[test]
fn deadline_of_another_shape_is_invalid_deadline() {
    for deadline in [
        "tomorrow",
        "2024-1-01 10:00",
        "2024-01-01",
        "2024-01-01 10:00:00",
        "2024/01/01 10:00",
        "2024-01-01T10:00",
        "24-01-01 10:00",
        " none",
        "none ",
        "None",
        " 2024-01-01 10:00",
        "2024-01-01 10:00 ",
    ] {
        let text = format!(
            "Category name: Work\tcolor: Red\tprobability: 1.00\n    Task name: Report\tdeadline: {}\n",
            deadline
        );
        assert_eq!(
            read(&text).unwrap_err(),
            ParseError { kind: Error::InvalidDeadline, line: 1 }
        );
    }
}

#[test]
fn deadline_off_the_calendar_is_invalid_deadline() {
    for deadline in [
        "2024-13-01 10:00",
        "2024-00-10 10:00",
        "2024-02-30 10:00",
        "2023-02-29 10:00",
        "2024-01-32 10:00",
        "2024-01-01 24:00",
        "2024-01-01 10:60",
    ] {
        let text = format!(
            "Category name: Work\tcolor: Red\tprobability: 1.00\n    Task name: Report\tdeadline: {}\n",
            deadline
        );
        assert_eq!(
            read(&text).unwrap_err(),
            ParseError { kind: Error::InvalidDeadline, line: 1 }
        );
    }
}

#[test]
fn leap_day_is_a_deadline() {
    let text = "Category name: Work\tcolor: Red\tprobability: 1.00\n    Task name: Report\tdeadline: 2024-02-29 23:59\n";
    let (tasks, _) = read(text).unwrap();
    assert_eq!(tasks[0].deadline().unwrap().text(), "2024-02-29 23:59");
}

#[test]
fn the_first_failing_line_is_reported() {
    let text = "junk\nCategory name: Work\tcolor: Red\tprobability: 1.00\n    Task name: a\tdeadline: never\nCategory name: Home\tcolor: Mauve\tprobability: 1.00\n";
    assert_eq!(read(text).unwrap_err(), ParseError { kind: Error::InvalidDeadline, line: 2 });
}

#[test]
fn line_with_an_empty_piece_is_passed_over() {
    let text = "Category name: \tcolor: Red\tprobability: 1.00\nCategory name: Work\tcolor: \tprobability: 1.00\nCategory name: Work\tcolor: Red\tprobability: \n    Task name: \tdeadline: none\n    Task name: a\tdeadline: \n";
    let (tasks, categories) = read(text).unwrap();
    assert!(tasks.is_empty());
    assert_eq!(categories.len(), 1);
    assert_eq!(unrecognized_lines(text), vec![0, 1, 2, 3, 4]);
}

#[test]
fn name_may_hold_anything_but_a_tab() {
    let text = "Category name: Work: color: Red\tcolor: Red\tprobability: 1.00\n    Task name:  Task name: x \tdeadline: none\n";
    let (tasks, categories) = read(text).unwrap();
    assert_eq!(categories[0].name(), "Work: color: Red");
    assert_eq!(tasks[0].task(), " Task name: x ");
    assert_eq!(tasks[0].category(), "Work: color: Red");
}

#[test]
fn save_lists_tasks_under_their_categories() {
    let text = "Category name: A\tcolor: Red\tprobability: 1.00\n    Task name: one\tdeadline: none\nCategory name: B\tcolor: Blue\tprobability: 1.00\n    Task name: two\tdeadline: none\n";
    let (mut tasks, categories) = read(text).unwrap();
    tasks.reverse();
    assert_eq!(
        save(&categories, &tasks),
        "Category name: A\tcolor: Red\tprobability: 1.00\n    Task name: one\tdeadline: none\nCategory name: B\tcolor: Blue\tprobability: 1.00\n    Task name: two\tdeadline: none\nCategory name: Unclassified\tcolor: White\tprobability: 1.00\n"
    );
}

#[test]
fn save_leaves_out_a_task_of_no_category() {
    let text = "Category name: A\tcolor: Red\tprobability: 1.00\n    Task name: one\tdeadline: none\n";
    let (tasks, _) = read(text).unwrap();
    assert_eq!(save(&[], &tasks), "");
    let (_, categories) = read("Category name: B\tcolor: Red\tprobability: 0.07\n").unwrap();
    assert_eq!(
        save(&categories, &tasks),
        "Category name: B\tcolor: Red\tprobability: 0.07\nCategory name: Unclassified\tcolor: White\tprobability: 1.00\n"
    );
}

#[test]
fn text_is_cut_into_lines_at_line_feeds() {
    assert_eq!(lines(""), Vec::<String>::new());
    assert_eq!(lines("\n"), vec![""]);
    assert_eq!(lines("a"), vec!["a"]);
    assert_eq!(lines("a\n"), vec!["a"]);
    assert_eq!(lines("a\n\nb"), vec!["a", "", "b"]);
    assert_eq!(lines("a\r\nb\r\n"), vec!["a", "b"]);
    assert_eq!(lines("a\rb\r"), vec!["a\rb\r"]);
    assert_eq!(lines("a\r\r\nb"), vec!["a\r", "b"]);
    assert_eq!(lines("\r\n\r\n"), vec!["", ""]);
    assert_eq!(lines("gr\u{fc}n\nbl\u{e5}"), vec!["gr\u{fc}n", "bl\u{e5}"]);
    for text in ["", "\n", "a\r\nb", "a\n\n\nb\n", "x\r", "\r\n", "a\r\r\nb"] {
        let expected: Vec<String> = text.lines().map(str::to_string).collect();
        assert_eq!(lines(text), expected);
    }
}
