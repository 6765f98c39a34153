//! A personal task list kept in a flat text file: the store's text format,
//! the order and choice of what is shown, and the edits of the two lists.

pub mod category;
pub mod color;
pub mod consistency;
pub mod deadline;
pub mod display;
pub mod edit;
pub mod error;
pub mod probability;
pub mod reading_back;
pub mod refusals;
pub mod store;
pub mod task;
pub mod text;

pub use category::{
    get_category_names, is_category_line, is_valid_name, Category, CategoryEdit,
};
pub use color::{parse_color, Color};
pub use deadline::{get_deadline, Deadline, Moment};
pub use display::{display, draw_of, order_by_deadline, random_draw, render, Block};
pub use edit::{edit_categories, edit_mode, edit_tasks, CategoryAction, Request, TaskAction};
pub use error::{Error, ParseError};
pub use probability::Probability;
pub use store::{read, save, unrecognized_lines};
pub use task::{get_task_names, is_task_line, Task, TaskEdit};
pub use text::lines;
