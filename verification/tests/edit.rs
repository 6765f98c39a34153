use todo_cras::{
    edit_categories, edit_mode, edit_tasks, get_category_names, get_task_names, read, save,
    Category, CategoryAction, CategoryEdit, Color, Deadline, Error, Probability, Request, Task,
    TaskAction, TaskEdit,
};

fn lists() -> (Vec<Task>, Vec<Category>) {
    read("Category name: Work\tcolor: Red\tprobability: 0.30\n    Task name: Report\tdeadline: 2024-01-01 10:00\n    Task name: Call\tdeadline: none\nCategory name: Unclassified\tcolor: White\tprobability: 1.00\n    Task name: Stray\tdeadline: none\nCategory name: Home\tcolor: Green\tprobability: 0.50\n    Task name: Dishes\tdeadline: none\n").unwrap()
}

#[test]
fn deleting_unclassified_is_refused_and_changes_nothing() {
    let (mut tasks, mut categories) = lists();
    let before = save(&categories, &tasks);
    let r = edit_categories(&mut categories, &mut tasks, CategoryAction::Delete { index: 1 });
    assert_eq!(r, Err(Error::ProtectedCategory));
    assert_eq!(save(&categories, &tasks), before);
    assert_eq!(get_category_names(&categories), vec!["Work", "Unclassified", "Home"]);
    assert_eq!(get_task_names(&tasks), vec!["Report", "Call", "Stray", "Dishes"]);
}

#[test]
fn deleting_a_category_moves_its_tasks_to_unclassified() {
    let (mut tasks, mut categories) = lists();
    let r = edit_categories(&mut categories, &mut tasks, CategoryAction::Delete { index: 0 });
    assert_eq!(r, Ok(()));
    assert_eq!(get_category_names(&categories), vec!["Unclassified", "Home"]);
    assert_eq!(get_task_names(&tasks), vec!["Report", "Call", "Stray", "Dishes"]);
    assert_eq!(tasks[0].category(), "Unclassified");
    assert_eq!(tasks[1].category(), "Unclassified");
    assert_eq!(tasks[2].category(), "Unclassified");
    assert_eq!(tasks[3].category(), "Home");
    assert_eq!(tasks[0].deadline().unwrap().text(), "2024-01-01 10:00");
    assert_eq!(
        save(&categories, &tasks),
        "Category name: Unclassified\tcolor: White\tprobability: 1.00\n    Task name: Report\tdeadline: 2024-01-01 10:00\n    Task name: Call\tdeadline: none\n    Task name: Stray\tdeadline: none\nCategory name: Home\tcolor: Green\tprobability: 0.50\n    Task name: Dishes\tdeadline: none\n"
    );
}

#[test]
fn deleting_a_category_adds_unclassified_where_it_is_missing() {
    let mut categories = vec![
        Category::new("Work".to_string(), Probability::new(30).unwrap(), Color::Red),
        Category::new("Home".to_string(), Probability::new(50).unwrap(), Color::Green),
    ];
    let mut tasks = vec![
        Task::new("Report".to_string(), None, "Work".to_string()),
        Task::new("Dishes".to_string(), None, "Home".to_string()),
    ];
    let r = edit_categories(&mut categories, &mut tasks, CategoryAction::Delete { index: 0 });
    assert_eq!(r, Ok(()));
    assert_eq!(get_category_names(&categories), vec!["Home", "Unclassified"]);
    assert_eq!(categories[1].probability().hundredths(), 100);
    assert_eq!(categories[1].color(), Color::White);
    assert_eq!(tasks[0].category(), "Unclassified");
    assert_eq!(tasks[1].category(), "Home");
}

#[test]
fn deleting_the_last_category_takes_it_out() {
    let (mut tasks, mut categories) = lists();
    let r = edit_categories(&mut categories, &mut tasks, CategoryAction::Delete { index: 2 });
    assert_eq!(r, Ok(()));
    assert_eq!(get_category_names(&categories), vec!["Work", "Unclassified"]);
    assert_eq!(tasks[3].category(), "Unclassified");
    assert_eq!(tasks[0].category(), "Work");
}

#[test]
fn a_new_category_goes_behind_the_others() {
    let (mut tasks, mut categories) = lists();
    let r = edit_categories(
        &mut categories,
        &mut tasks,
        CategoryAction::Add {
            name: "Garden".to_string(),
            probability: Probability::new(25).unwrap(),
            color: Color::Yellow,
        },
    );
    assert_eq!(r, Ok(()));
    assert_eq!(get_category_names(&categories), vec!["Work", "Unclassified", "Home", "Garden"]);
    assert_eq!(categories[3].probability().hundredths(), 25);
    assert_eq!(categories[3].color(), Color::Yellow);
    assert_eq!(tasks.len(), 4);
}

#[test]
fn a_category_is_changed_in_one_field() {
    let (mut tasks, mut categories) = lists();
    let change = |categories: &mut Vec<Category>, tasks: &mut Vec<Task>, change| {
        edit_categories(categories, tasks, CategoryAction::Edit { index: 0, change })
    };
    assert_eq!(change(&mut categories, &mut tasks, CategoryEdit::Color(Color::Magenta)), Ok(()));
    assert_eq!(categories[0].color(), Color::Magenta);
    assert_eq!(categories[0].name(), "Work");
    assert_eq!(categories[0].probability().hundredths(), 30);
    assert_eq!(
        change(&mut categories, &mut tasks, CategoryEdit::Probability(Probability::certain())),
        Ok(())
    );
    assert_eq!(categories[0].probability().hundredths(), 100);
    assert_eq!(categories[0].color(), Color::Magenta);
    assert_eq!(change(&mut categories, &mut tasks, CategoryEdit::Name("Job".to_string())), Ok(()));
    assert_eq!(get_category_names(&categories), vec!["Job", "Unclassified", "Home"]);
    assert_eq!(tasks[0].category(), "Work");
    assert_eq!(tasks[1].category(), "Work");
}

#[test]
fn a_new_task_goes_behind_the_others() {
    let (mut tasks, categories) = lists();
    edit_tasks(
        &mut tasks,
        &categories,
        TaskAction::Add {
            task: "Sweep".to_string(),
            deadline: Some(Deadline::parse("2030-06-15 08:30").unwrap()),
            category: 2,
        },
    );
    assert_eq!(get_task_names(&tasks), vec!["Report", "Call", "Stray", "Dishes", "Sweep"]);
    assert_eq!(tasks[4].category(), "Home");
    assert_eq!(tasks[4].deadline().unwrap().text(), "2030-06-15 08:30");
}

#[test]
fn a_task_is_changed_in_one_field() {
    let (mut tasks, categories) = lists();
    edit_tasks(
        &mut tasks,
        &categories,
        TaskAction::Edit { index: 1, change: TaskEdit::Name("Ring".to_string()) },
    );
    assert_eq!(get_task_names(&tasks), vec!["Report", "Ring", "Stray", "Dishes"]);
    assert_eq!(tasks[1].category(), "Work");
    edit_tasks(
        &mut tasks,
        &categories,
        TaskAction::Edit {
            index: 1,
            change: TaskEdit::Deadline(Some(Deadline::parse("2024-05-05 05:05").unwrap())),
        },
    );
    assert_eq!(tasks[1].deadline().unwrap().text(), "2024-05-05 05:05");
    assert_eq!(tasks[1].task(), "Ring");
    edit_tasks(
        &mut tasks,
        &categories,
        TaskAction::Edit { index: 0, change: TaskEdit::Deadline(None) },
    );
    assert!(tasks[0].deadline().is_none());
    edit_tasks(&mut tasks, &categories, TaskAction::Edit { index: 0, change: TaskEdit::Category(2) });
    assert_eq!(tasks[0].category(), "Home");
    assert_eq!(tasks[0].task(), "Report");
    assert_eq!(tasks[2].category(), "Unclassified");
}

#[test]
fn a_deleted_task_leaves_the_others_in_order() {
    let (mut tasks, categories) = lists();
    edit_tasks(&mut tasks, &categories, TaskAction::Delete { index: 1 });
    assert_eq!(get_task_names(&tasks), vec!["Report", "Stray", "Dishes"]);
    edit_tasks(&mut tasks, &categories, TaskAction::Delete { index: 2 });
    assert_eq!(get_task_names(&tasks), vec!["Report", "Stray"]);
    edit_tasks(&mut tasks, &categories, TaskAction::Delete { index: 0 });
    assert_eq!(get_task_names(&tasks), vec!["Stray"]);
}

#[test]
fn fields_are_changed_on_the_value_itself() {
    let mut category = Category::unclassified();
    category.edit(CategoryEdit::Color(Color::Black));
    assert_eq!(category.color(), Color::Black);
    assert_eq!(category.name(), "Unclassified");
    let categories = vec![category];
    let mut task = Task::new("Report".to_string(), None, "Work".to_string());
    task.edit(&categories, TaskEdit::Category(0));
    assert_eq!(task.category(), "Unclassified");
    task.move_to("Elsewhere".to_string());
    assert_eq!(task.category(), "Elsewhere");
    assert_eq!(task.task(), "Report");
}

#[test]
fn a_round_of_the_edit_mode_makes_one_edit() {
    let (mut tasks, mut categories) = lists();
    let r = edit_mode(
        &mut categories,
        &mut tasks,
        Request::Task(TaskAction::Delete { index: 0 }),
    );
    assert_eq!(r, Ok(None));
    assert_eq!(get_task_names(&tasks), vec!["Call", "Stray", "Dishes"]);
    let r = edit_mode(
        &mut categories,
        &mut tasks,
        Request::Category(CategoryAction::Delete { index: 2 }),
    );
    assert_eq!(r, Ok(None));
    assert_eq!(get_category_names(&categories), vec!["Work", "Unclassified"]);
    let r = edit_mode(
        &mut categories,
        &mut tasks,
        Request::Category(CategoryAction::Delete { index: 1 }),
    );
    assert_eq!(r, Err(Error::ProtectedCategory));
    assert_eq!(get_category_names(&categories), vec!["Work", "Unclassified"]);
    let r = edit_mode(&mut categories, &mut tasks, Request::Finish);
    assert_eq!(
        r,
        Ok(Some(
            "Category name: Work\tcolor: Red\tprobability: 0.30\n    Task name: Call\tdeadline: none\nCategory name: Unclassified\tcolor: White\tprobability: 1.00\n    Task name: Stray\tdeadline: none\n    Task name: Dishes\tdeadline: none\n"
                .to_string()
        ))
    );
    assert_eq!(get_task_names(&tasks), vec!["Call", "Stray", "Dishes"]);
}
