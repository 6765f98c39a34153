//! A category: a named group of tasks with a colour and a probability of being shown.

use crate::color::{color_named, color_of, lemma_color_name, Color};
use crate::error::Error;
use crate::probability::{
    lemma_probability_text, lemma_probability_value, probability_of, probability_text,
    probability_value, Probability,
};
use crate::text::{
    after_piece, append_str, chars_of, free_of, free_of_char, labelled_piece,
    lemma_free_of_joined, lemma_piece_after, lemma_piece_is_free, piece_after, starts_with,
    string_of, tail, whole_line,
};
use vstd::prelude::*;

verus! {

/// What a category line begins with, before the name.
pub const CATEGORY_LABEL: &'static str = "Category name: ";

/// What stands between the name and the colour of a category line.
pub const COLOR_LABEL: &'static str = "\tcolor: ";

/// What stands between the colour and the probability of a category line.
pub const PROBABILITY_LABEL: &'static str = "\tprobability: ";

/// The name of the category that is always there, cannot be deleted, and takes the
/// tasks that have lost their own.
pub const UNCLASSIFIED: &'static str = "Unclassified";

/// A category as the contracts speak of it.
pub struct CategoryView {
    pub name: Seq<char>,
    /// In hundredths.
    pub probability: nat,
    pub color: Color,
}

/// The three pieces of a category line, as they stand in it.
pub struct CategoryFields {
    pub name: Seq<char>,
    pub color: Seq<char>,
    pub probability: Seq<char>,
}

/// A named group of tasks.
#[derive(Clone, Debug)]
pub struct Category {
    name: String,
    probability: Probability,
    color: Color,
}

/// A change to one field of a category.
#[derive(Clone, Debug)]
pub enum CategoryEdit {
    Name(String),
    Probability(Probability),
    Color(Color),
}

impl View for Category {
    type V = CategoryView;

    closed spec fn view(&self) -> CategoryView {
        CategoryView { name: self.name@, probability: self.probability@, color: self.color }
    }
}

/// The categories of a list as the contracts speak of them.
pub open spec fn category_views(categories: Seq<Category>) -> Seq<CategoryView> {
    Seq::new(categories.len(), |i: int| categories[i]@)
}

/// A name that a line can hold: it is not empty and holds no tab and no line feed.
pub open spec fn valid_name(name: Seq<char>) -> bool {
    &&& name.len() > 0
    &&& free_of(name, '\t')
    &&& free_of(name, '\n')
}

/// The pieces of a category line: the label of the name, a name without a tab, the
/// label of the colour, a colour without a tab, the label of the probability, and a
/// probability that runs to the end of the line. None of the pieces is empty. `None`
/// where `line` is no category line.
pub open spec fn category_fields(line: Seq<char>) -> Option<CategoryFields> {
    let name = piece_after(line, CATEGORY_LABEL@);
    let after_name = after_piece(line, CATEGORY_LABEL@);
    let color = piece_after(after_name, COLOR_LABEL@);
    let after_color = after_piece(after_name, COLOR_LABEL@);
    let probability = after_color.skip(PROBABILITY_LABEL@.len() as int);
    if CATEGORY_LABEL@.is_prefix_of(line) && name.len() > 0 && COLOR_LABEL@.is_prefix_of(
        after_name,
    ) && color.len() > 0 && PROBABILITY_LABEL@.is_prefix_of(after_color) && probability.len() > 0
        && free_of(probability, '\n') {
        Some(CategoryFields { name, color, probability })
    } else {
        None
    }
}

/// The category that the pieces of a category line write: `InvalidColor` where the
/// colour names none, else `InvalidProbability` where the probability writes none.
pub open spec fn category_parsed(fields: CategoryFields) -> Result<CategoryView, Error> {
    match color_named(fields.color) {
        None => Err(Error::InvalidColor),
        Some(color) => match probability_value(fields.probability) {
            None => Err(Error::InvalidProbability),
            Some(probability) => Ok(CategoryView { name: fields.name, probability, color }),
        },
    }
}

/// The line that a store holds for a category.
pub open spec fn category_line(category: CategoryView) -> Seq<char> {
    CATEGORY_LABEL@ + category.name + COLOR_LABEL@ + category.color.name() + PROBABILITY_LABEL@
        + probability_text(category.probability)
}

/// The category `Unclassified`: shown on every draw, in white.
pub open spec fn unclassified() -> CategoryView {
    CategoryView { name: UNCLASSIFIED@, probability: 100, color: Color::White }
}

/// A category after `change`: the one field is new, the others are as they were.
pub open spec fn edited_category(category: CategoryView, change: CategoryEdit) -> CategoryView {
    match change {
        CategoryEdit::Name(name) => CategoryView { name: name@, ..category },
        CategoryEdit::Probability(probability) => CategoryView {
            probability: probability@,
            ..category
        },
        CategoryEdit::Color(color) => CategoryView { color, ..category },
    }
}

/// The labels of a category line: the first begins with a C, the others with a tab,
/// and none holds a line feed.
proof fn lemma_category_labels()
    ensures
        CATEGORY_LABEL@.len() > 0,
        CATEGORY_LABEL@[0] == 'C',
        free_of(CATEGORY_LABEL@, '\n'),
        COLOR_LABEL@.len() > 0,
        COLOR_LABEL@[0] == '\t',
        free_of(COLOR_LABEL@, '\n'),
        PROBABILITY_LABEL@.len() > 0,
        PROBABILITY_LABEL@[0] == '\t',
        free_of(PROBABILITY_LABEL@, '\n'),
{
    reveal_strlit("Category name: ");
    reveal_strlit("\tcolor: ");
    reveal_strlit("\tprobability: ");
}

/// The line of a category with a valid name is a category line that writes that
/// category, and a whole line that begins with a C.
pub proof fn lemma_category_line(category: CategoryView)
    requires
        valid_name(category.name),
        category.probability <= 100,
    ensures
        category_fields(category_line(category)) is Some,
        category_parsed(category_fields(category_line(category))->0) == Ok::<
            CategoryView,
            Error,
        >(category),
        whole_line(category_line(category)),
        category_line(category)[0] == 'C',
{
    lemma_category_labels();
    lemma_color_name(category.color);
    lemma_probability_text(category.probability);
    let line = category_line(category);
    let color = category.color.name();
    let probability = probability_text(category.probability);
    let after_color = PROBABILITY_LABEL@ + probability;
    let after_name = COLOR_LABEL@ + color + after_color;
    assert(line =~= CATEGORY_LABEL@ + category.name + after_name);
    assert(after_name[0] == '\t');
    assert(after_color[0] == '\t');
    lemma_piece_after(CATEGORY_LABEL@, category.name, after_name);
    lemma_piece_after(COLOR_LABEL@, color, after_color);
    assert(after_color.subrange(0, PROBABILITY_LABEL@.len() as int) =~= PROBABILITY_LABEL@);
    assert(after_color.skip(PROBABILITY_LABEL@.len() as int) =~= probability);
    assert(free_of(probability, '\n'));
    assert(free_of(color, '\n'));
    lemma_free_of_joined(CATEGORY_LABEL@, category.name, '\n');
    lemma_free_of_joined(PROBABILITY_LABEL@, probability, '\n');
    lemma_free_of_joined(COLOR_LABEL@, color, '\n');
    lemma_free_of_joined(COLOR_LABEL@ + color, after_color, '\n');
    lemma_free_of_joined(CATEGORY_LABEL@ + category.name, after_name, '\n');
    assert(line =~= (CATEGORY_LABEL@ + category.name) + after_name);
    assert(line.last() == probability[3]);
    assert(line[0] == CATEGORY_LABEL@[0]);
}

/// The category that a category line without a line feed writes has a name that a
/// line can hold and a probability of at most 1.
pub proof fn lemma_category_fields(line: Seq<char>)
    requires
        free_of(line, '\n'),
    ensures
        category_fields(line) matches Some(fields) ==> valid_name(fields.name) && (
        category_parsed(fields) matches Ok(category) ==> category.name == fields.name
            && category.probability <= 100),
{
    if category_fields(line) is Some {
        let fields = category_fields(line)->0;
        lemma_piece_is_free(line, CATEGORY_LABEL@, '\n');
        lemma_probability_value(fields.probability);
    }
}

/// What `line` writes where it is a category line: the category, or why it writes
/// none. Nothing where it is no category line.
pub(crate) fn category_in(line: &[char]) -> (r: Option<Result<Category, Error>>)
    ensures
        r is Some <==> category_fields(line@) is Some,
        r is Some ==> match category_parsed(category_fields(line@)->0) {
            Ok(category) => r->0 is Ok && r->0->Ok_0@ == category,
            Err(error) => r->0 is Err && r->0->Err_0 == error,
        },
{
    let name_label = chars_of(CATEGORY_LABEL);
    let color_label = chars_of(COLOR_LABEL);
    let probability_label = chars_of(PROBABILITY_LABEL);
    let (name, after_name) = match labelled_piece(line, name_label.as_slice()) {
        Some(found) => found,
        None => {
            return None;
        },
    };
    let (color, after_color) = match labelled_piece(after_name, color_label.as_slice()) {
        Some(found) => found,
        None => {
            return None;
        },
    };
    if !starts_with(after_color, probability_label.as_slice()) {
        return None;
    }
    let probability = tail(after_color, probability_label.len());
    if probability.len() == 0 || !free_of_char(probability, '\n') {
        return None;
    }
    let color = match color_of(color) {
        Ok(color) => color,
        Err(error) => {
            return Some(Err(error));
        },
    };
    let probability = match probability_of(probability) {
        Ok(probability) => probability,
        Err(error) => {
            return Some(Err(error));
        },
    };
    Some(Ok(Category { name: string_of(name), probability, color }))
}

/// Whether `name` is a name that a line can hold: not empty, and without a tab or a
/// line feed.
pub fn is_valid_name(name: &str) -> (r: bool)
    ensures
        r == valid_name(name@),
{
    let chars = chars_of(name);
    chars.len() > 0 && free_of_char(chars.as_slice(), '\t') && free_of_char(
        chars.as_slice(),
        '\n',
    )
}

/// Whether `line` is a category line.
pub fn is_category_line(line: &str) -> (r: bool)
    ensures
        r == category_fields(line@) is Some,
{
    let chars = chars_of(line);
    category_in(chars.as_slice()).is_some()
}

/// The names of the categories, in their order.
pub fn get_category_names(categories: &[Category]) -> (names: Vec<&str>)
    ensures
        names@.len() == categories@.len(),
        forall|i: int| 0 <= i < names@.len() ==> (#[trigger] names@[i])@ == categories@[i]@.name,
{
    let mut names: Vec<&str> = Vec::with_capacity(categories.len());
    let mut i: usize = 0;
    while i < categories.len()
        invariant
            i <= categories@.len(),
            names@.len() == i,
            forall|j: int| 0 <= j < i ==> (#[trigger] names@[j])@ == categories@[j]@.name,
        decreases categories@.len() - i,
    {
        names.push(categories[i].name.as_str());
        i += 1;
    }
    names
}

impl Category {
    /// A category of the given name, probability and colour.
    pub fn new(name: String, probability: Probability, color: Color) -> (category: Category)
        ensures
            category@ == (CategoryView { name: name@, probability: probability@, color }),
    {
        Category { name, probability, color }
    }

    /// The category `Unclassified`.
    pub fn unclassified() -> (category: Category)
        ensures
            category@ == unclassified(),
    {
        Category {
            name: UNCLASSIFIED.to_owned(),
            probability: Probability::certain(),
            color: Color::White,
        }
    }

    /// The category's name.
    pub fn name(&self) -> (name: &String)
        ensures
            name@ == self@.name,
    {
        &self.name
    }

    /// The category's probability of being shown.
    pub fn probability(&self) -> (probability: Probability)
        ensures
            probability@ == self@.probability,
    {
        self.probability
    }

    /// The category's colour.
    pub fn color(&self) -> (color: Color)
        ensures
            color == self@.color,
    {
        self.color
    }

    /// The category that the category line `line` writes: `InvalidColor` where its
    /// colour names none of the eight, else `InvalidProbability` where its probability
    /// writes none.
    pub fn parse(line: &str) -> (r: Result<Category, Error>)
        requires
            category_fields(line@) is Some,
        ensures
            match category_parsed(category_fields(line@)->0) {
                Ok(category) => r is Ok && r->Ok_0@ == category,
                Err(error) => r is Err && r->Err_0 == error,
            },
    {
        let chars = chars_of(line);
        match category_in(chars.as_slice()) {
            Some(r) => r,
            None => Err(Error::InvalidColor),
        }
    }

    /// The line that a store holds for this category.
    pub fn line(&self) -> (line: String)
        ensures
            line@ == category_line(self@),
            self@.probability <= 100,
    {
        let mut line = String::new();
        append_str(&mut line, CATEGORY_LABEL);
        append_str(&mut line, self.name.as_str());
        append_str(&mut line, COLOR_LABEL);
        append_str(&mut line, self.color.label());
        append_str(&mut line, PROBABILITY_LABEL);
        let probability = self.probability.text();
        append_str(&mut line, probability.as_str());
        assert(line@ =~= category_line(self@));
        line
    }

    /// Makes `change`: the one field is new, the others stay. A new name reaches no
    /// task: the tasks of the category keep the old one.
    pub fn edit(&mut self, change: CategoryEdit)
        ensures
            final(self)@ == edited_category(old(self)@, change),
    {
        match change {
            CategoryEdit::Name(name) => {
                self.name = name;
            },
            CategoryEdit::Probability(probability) => {
                self.probability = probability;
            },
            CategoryEdit::Color(color) => {
                self.color = color;
            },
        }
    }
}

} // verus!
