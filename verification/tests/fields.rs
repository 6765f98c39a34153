use todo_cras::deadline::deadline_from;
use todo_cras::{
    get_deadline, is_category_line, is_task_line, is_valid_name, parse_color, Category, Color,
    Deadline, Error, Moment, Probability, Task,
};

#[test]
fn every_color_is_read_by_its_name() {
    let colors = [
        ("Black", Color::Black),
        ("Blue", Color::Blue),
        ("Green", Color::Green),
        ("Red", Color::Red),
        ("Cyan", Color::Cyan),
        ("Magenta", Color::Magenta),
        ("Yellow", Color::Yellow),
        ("White", Color::White),
    ];
    for (name, color) in colors {
        assert_eq!(parse_color(name), Ok(color));
        assert_eq!(parse_color(&name.to_uppercase()), Ok(color));
        assert_eq!(parse_color(&name.to_lowercase()), Ok(color));
        assert_eq!(color.label(), name);
    }
}

#[test]
fn other_words_name_no_color() {
    for name in ["", "Purple", "Re", "Redd", " Red", "Red ", "Blu e", "gr\u{e9}en"] {
        assert_eq!(parse_color(name), Err(Error::InvalidColor));
    }
}

#[test]
fn probability_is_read_in_hundredths() {
    let values = [
        ("0", 0),
        ("1", 100),
        ("0.5", 50),
        ("0.50", 50),
        ("0.500", 50),
        ("1.00", 100),
        ("1.", 100),
        (".5", 50),
        ("0.07", 7),
        ("+0.25", 25),
        ("-0", 0),
        ("-0.00", 0),
        ("000.30", 30),
        ("001", 100),
        ("0.3", 30),
    ];
    for (text, hundredths) in values {
        assert_eq!(Probability::parse(text).unwrap().hundredths(), hundredths);
    }
}

#[test]
fn probability_is_rounded_half_up() {
    let values = [
        ("0.124", 12),
        ("0.125", 13),
        ("0.1249999", 12),
        ("0.994", 99),
        ("0.995", 100),
        ("0.999", 100),
        ("0.004", 0),
        ("0.005", 1),
        ("0.333", 33),
        ("0.666", 67),
    ];
    for (text, hundredths) in values {
        assert_eq!(Probability::parse(text).unwrap().hundredths(), hundredths);
    }
}

#[test]
fn probability_outside_zero_to_one_is_refused() {
    for text in ["1.01", "1.001", "2", "-0.01", "-1", "11", "1e-1", "inf", "nan", "", "0x1"] {
        assert_eq!(Probability::parse(text), Err(Error::InvalidProbability));
    }
}

#[test]
fn probability_is_written_with_two_places() {
    assert_eq!(Probability::new(0).unwrap().text(), "0.00");
    assert_eq!(Probability::new(7).unwrap().text(), "0.07");
    assert_eq!(Probability::new(30).unwrap().text(), "0.30");
    assert_eq!(Probability::new(99).unwrap().text(), "0.99");
    assert_eq!(Probability::new(100).unwrap().text(), "1.00");
    assert_eq!(Probability::certain().text(), "1.00");
    assert!(Probability::new(101).is_none());
    assert!(Probability::new(255).is_none());
}

#[test]
fn every_probability_is_read_back_from_its_text() {
    for hundredths in 0..=100u8 {
        let probability = Probability::new(hundredths).unwrap();
        assert_eq!(Probability::parse(&probability.text()), Ok(probability));
    }
}

#[test]
fn probability_admits_a_draw_up_to_itself() {
    let third = Probability::new(30).unwrap();
    assert!(third.admits(0));
    assert!(third.admits(2_516_582));
    assert!(!third.admits(2_516_583));
    let half = Probability::new(50).unwrap();
    assert!(half.admits(4_194_304));
    assert!(!half.admits(4_194_305));
    assert!(Probability::certain().admits(8_388_607));
    assert!(Probability::new(0).unwrap().admits(0));
    assert!(!Probability::new(0).unwrap().admits(1));
}

#[test]
fn deadline_is_read_and_written() {
    let deadline = Deadline::parse("2024-01-01 10:00").unwrap();
    assert_eq!(deadline.text(), "2024-01-01 10:00");
    assert_eq!(Deadline::parse("0999-12-31 23:59").unwrap().text(), "0999-12-31 23:59");
    assert_eq!(Deadline::parse("none"), Err(Error::InvalidDeadline));
    assert_eq!(Deadline::parse("2024-01-01 10:0"), Err(Error::InvalidDeadline));
    assert_eq!(Deadline::parse("2024-02-30 10:00"), Err(Error::InvalidDeadline));
    assert_eq!(Deadline::parse("2024-01-01\t10:00"), Err(Error::InvalidDeadline));
}

#[test]
fn deadlines_are_ordered_by_time() {
    let early = Deadline::parse("2023-12-31 23:59").unwrap();
    let late = Deadline::parse("2024-01-01 00:00").unwrap();
    assert!(early.before(&late));
    assert!(!late.before(&early));
    assert!(!early.before(&early));
    assert_eq!(early, early);
    assert_ne!(early, late);
    let later = Deadline::parse("2024-01-01 00:01").unwrap();
    assert!(late.before(&later));
    let hour = Deadline::parse("2024-01-01 01:00").unwrap();
    assert!(later.before(&hour));
    let day = Deadline::parse("2024-01-02 00:00").unwrap();
    assert!(hour.before(&day));
    let month = Deadline::parse("2024-02-01 00:00").unwrap();
    assert!(day.before(&month));
}

#[test]
fn deadline_is_past_once_its_minute_has_begun() {
    let deadline = Deadline::parse("2024-01-01 10:00").unwrap();
    let at = |hour, minute, second, nanosecond| Moment {
        year: 2024,
        month: 1,
        day: 1,
        hour,
        minute,
        second,
        nanosecond,
    };
    assert!(!deadline.is_past(&at(9, 59, 59, 999_999_999)));
    assert!(!deadline.is_past(&at(10, 0, 0, 0)));
    assert!(deadline.is_past(&at(10, 0, 0, 1)));
    assert!(deadline.is_past(&at(10, 0, 1, 0)));
    assert!(deadline.is_past(&at(10, 1, 0, 0)));
    assert!(deadline.is_past(&Moment { year: 2025, ..at(0, 0, 0, 0) }));
    assert!(!deadline.is_past(&Moment { year: 2023, month: 12, day: 31, ..at(23, 59, 59, 0) }));
    assert!(!deadline.is_past(&Moment { year: -1, ..at(23, 59, 59, 0) }));
}

#[test]
fn answer_for_a_deadline_may_be_blank() {
    assert_eq!(get_deadline(""), Ok(None));
    assert_eq!(get_deadline("   "), Ok(None));
    assert_eq!(get_deadline(" \t\r\n"), Ok(None));
    assert_eq!(get_deadline("\u{a0}\u{3000}"), Ok(None));
    assert_eq!(
        get_deadline("  2024-01-01 10:00\n").unwrap().unwrap().text(),
        "2024-01-01 10:00"
    );
    assert_eq!(get_deadline("2024-01-01 10:00").unwrap().unwrap().text(), "2024-01-01 10:00");
    assert_eq!(get_deadline("none"), Err(Error::InvalidDeadline));
    assert_eq!(get_deadline("soon"), Err(Error::InvalidDeadline));
    assert_eq!(get_deadline("2024-01-01  10:00"), Err(Error::InvalidDeadline));
    assert_eq!(get_deadline("2024-02-31 10:00"), Err(Error::InvalidDeadline));
}

#[test]
fn category_line_is_told_from_other_lines() {
    assert!(is_category_line("Category name: Work\tcolor: Red\tprobability: 1.00"));
    assert!(is_category_line("Category name: Work\tcolor: nothing\tprobability: much"));
    assert!(is_category_line("Category name: Work\tcolor: Red\tprobability: 1\t2"));
    assert!(!is_category_line("category name: Work\tcolor: Red\tprobability: 1.00"));
    assert!(!is_category_line(" Category name: Work\tcolor: Red\tprobability: 1.00"));
    assert!(!is_category_line("Category name: Work\tcolor: Red"));
    assert!(!is_category_line("Category name: Work\tcolor: Red\tprobability: "));
    assert!(!is_category_line("Category name: Work color: Red probability: 1.00"));
    assert!(!is_category_line("Category name: Work\t\tcolor: Red\tprobability: 1.00"));
    assert!(!is_category_line("Category name: Work\tcolor: Red\tprobability: 1.00\nmore"));
    assert!(!is_category_line("    Task name: Report\tdeadline: none"));
    assert!(!is_category_line(""));
}

#[test]
fn task_line_is_told_from_other_lines() {
    assert!(is_task_line("    Task name: Report\tdeadline: none"));
    assert!(is_task_line("    Task name: Report\tdeadline: whenever"));
    assert!(!is_task_line("   Task name: Report\tdeadline: none"));
    assert!(!is_task_line("\tTask name: Report\tdeadline: none"));
    assert!(!is_task_line("    Task name: Report\tdeadline: "));
    assert!(!is_task_line("    Task name: Report"));
    assert!(!is_task_line("    Task name: \tdeadline: none"));
    assert!(!is_task_line("Category name: Work\tcolor: Red\tprobability: 1.00"));
    assert!(!is_task_line(""));
}

#[test]
fn category_is_read_from_its_line_and_written_back() {
    let category = Category::parse("Category name: Work\tcolor: red\tprobability: 0.3").unwrap();
    assert_eq!(category.name(), "Work");
    assert_eq!(category.color(), Color::Red);
    assert_eq!(category.probability().hundredths(), 30);
    assert_eq!(category.line(), "Category name: Work\tcolor: Red\tprobability: 0.30");
    assert_eq!(
        Category::parse("Category name: Work\tcolor: pink\tprobability: 0.3").unwrap_err(),
        Error::InvalidColor
    );
    assert_eq!(
        Category::parse("Category name: Work\tcolor: red\tprobability: 3").unwrap_err(),
        Error::InvalidProbability
    );
    assert_eq!(
        Category::unclassified().line(),
        "Category name: Unclassified\tcolor: White\tprobability: 1.00"
    );
}

#[test]
fn task_is_read_from_its_line_and_written_back() {
    let task = Task::parse("    Task name: Report\tdeadline: 2024-01-01 10:00", "Work").unwrap();
    assert_eq!(task.task(), "Report");
    assert_eq!(task.category(), "Work");
    assert_eq!(task.deadline().unwrap().text(), "2024-01-01 10:00");
    assert_eq!(task.line(), "    Task name: Report\tdeadline: 2024-01-01 10:00");
    let open = Task::parse("    Task name: Call\tdeadline: none", "Home").unwrap();
    assert!(open.deadline().is_none());
    assert_eq!(open.line(), "    Task name: Call\tdeadline: none");
    assert_eq!(
        Task::parse("    Task name: Call\tdeadline: later", "Home").unwrap_err(),
        Error::InvalidDeadline
    );
}

#[test]
fn deadline_is_the_minute_of_its_digits_where_the_calendar_holds_it() {
    let text: Vec<char> = "2024-01-01 10:00".chars().collect();
    assert_eq!(deadline_from(&text, true).unwrap().text(), "2024-01-01 10:00");
    assert!(deadline_from(&text, false).is_none());
    let odd: Vec<char> = "2099-99-99 99:99".chars().collect();
    assert_eq!(deadline_from(&odd, true).unwrap().text(), "2099-99-99 99:99");
    let short: Vec<char> = "2024-01-01 10:0".chars().collect();
    assert!(deadline_from(&short, true).is_none());
    let wide: Vec<char> = "2024-01-01 10:00 ".chars().collect();
    assert!(deadline_from(&wide, true).is_none());
    let other: Vec<char> = "2024-01-01 10.00".chars().collect();
    assert!(deadline_from(&other, true).is_none());
    let arabic: Vec<char> = "2024-01-01 10:0\u{661}".chars().collect();
    assert!(deadline_from(&arabic, true).is_none());
}

#[test]
fn names_that_a_line_can_hold() {
    assert!(is_valid_name("Work"));
    assert!(is_valid_name(" "));
    assert!(is_valid_name("Work: color: Red"));
    assert!(!is_valid_name(""));
    assert!(!is_valid_name("Wo\trk"));
    assert!(!is_valid_name("Wo\nrk"));
}
