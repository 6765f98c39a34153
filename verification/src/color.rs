//! The eight colours a category can be shown in.

use crate::error::Error;
use crate::text::chars_of;
use vstd::prelude::*;

verus! {

/// The colour of a category's heading and entries.
#[derive(Clone, Copy, Debug, PartialEq, Eq, Structural)]
pub enum Color {
    Black,
    Blue,
    Green,
    Red,
    Cyan,
    Magenta,
    Yellow,
    White,
}

impl Color {
    /// The colour's name as a store holds it.
    pub open spec fn name(self) -> Seq<char> {
        match self {
            Color::Black => "Black"@,
            Color::Blue => "Blue"@,
            Color::Green => "Green"@,
            Color::Red => "Red"@,
            Color::Cyan => "Cyan"@,
            Color::Magenta => "Magenta"@,
            Color::Yellow => "Yellow"@,
            Color::White => "White"@,
        }
    }

    /// The colour's name as a store holds it.
    pub fn label(&self) -> (label: &'static str)
        ensures
            label@ == self.name(),
    {
        match self {
            Color::Black => "Black",
            Color::Blue => "Blue",
            Color::Green => "Green",
            Color::Red => "Red",
            Color::Cyan => "Cyan",
            Color::Magenta => "Magenta",
            Color::Yellow => "Yellow",
            Color::White => "White",
        }
    }
}

/// A character's code, with the capital letters A to Z counted as their small letters.
pub open spec fn folded(c: char) -> int {
    if 'A' <= c && c <= 'Z' {
        c as int + 32
    } else {
        c as int
    }
}

/// `a` and `b` are the same but for the case of the letters A to Z.
pub open spec fn same_but_case(a: Seq<char>, b: Seq<char>) -> bool {
    &&& a.len() == b.len()
    &&& forall|i: int| 0 <= i < a.len() ==> folded(a[i]) == folded(b[i])
}

/// The colour that `text` names, whatever the case of its letters.
pub open spec fn color_named(text: Seq<char>) -> Option<Color> {
    if same_but_case(text, Color::Black.name()) {
        Some(Color::Black)
    } else if same_but_case(text, Color::Blue.name()) {
        Some(Color::Blue)
    } else if same_but_case(text, Color::Green.name()) {
        Some(Color::Green)
    } else if same_but_case(text, Color::Red.name()) {
        Some(Color::Red)
    } else if same_but_case(text, Color::Cyan.name()) {
        Some(Color::Cyan)
    } else if same_but_case(text, Color::Magenta.name()) {
        Some(Color::Magenta)
    } else if same_but_case(text, Color::Yellow.name()) {
        Some(Color::Yellow)
    } else if same_but_case(text, Color::White.name()) {
        Some(Color::White)
    } else {
        None
    }
}

/// A colour's name is not empty, holds no tab and no line feed, and names that colour.
pub proof fn lemma_color_name(color: Color)
    ensures
        color.name().len() > 0,
        forall|i: int|
            0 <= i < color.name().len() ==> color.name()[i] != '\t' && color.name()[i] != '\n'
                && color.name()[i] != '\r',
        color_named(color.name()) == Some(color),
{
    reveal_strlit("Black");
    reveal_strlit("Blue");
    reveal_strlit("Green");
    reveal_strlit("Red");
    reveal_strlit("Cyan");
    reveal_strlit("Magenta");
    reveal_strlit("Yellow");
    reveal_strlit("White");
    let name = color.name();
    assert(same_but_case(name, name));
    if color != Color::Black {
        assert(folded(name[1]) != folded(Color::Black.name()[1]) || name.len()
            != Color::Black.name().len());
    }
    if color != Color::Blue && color != Color::Black {
        assert(folded(name[0]) != folded(Color::Blue.name()[0]));
    }
    if color != Color::Green {
        assert(folded(name[0]) != folded(Color::Green.name()[0]));
    }
    if color != Color::Red {
        assert(folded(name[0]) != folded(Color::Red.name()[0]));
    }
    if color != Color::Cyan {
        assert(folded(name[0]) != folded(Color::Cyan.name()[0]));
    }
    if color != Color::Magenta {
        assert(folded(name[0]) != folded(Color::Magenta.name()[0]));
    }
    if color != Color::Yellow {
        assert(folded(name[0]) != folded(Color::Yellow.name()[0]));
    }
}

fn fold(c: char) -> (code: u32)
    ensures
        code == folded(c),
{
    if c >= 'A' && c <= 'Z' {
        c as u32 + 32
    } else {
        c as u32
    }
}

fn names(text: &[char], color: Color) -> (r: bool)
    ensures
        r == same_but_case(text@, color.name()),
{
    let name = chars_of(color.label());
    if text.len() != name.len() {
        return false;
    }
    let mut i: usize = 0;
    while i < text.len()
        invariant
            i <= text@.len(),
            text@.len() == name@.len(),
            name@ == color.name(),
            forall|j: int| 0 <= j < i ==> folded(text@[j]) == folded(name@[j]),
        decreases text@.len() - i,
    {
        if fold(text[i]) != fold(name[i]) {
            return false;
        }
        i += 1;
    }
    true
}

/// The colour that `text` names, whatever the case of its letters.
pub(crate) fn color_of(text: &[char]) -> (r: Result<Color, Error>)
    ensures
        match color_named(text@) {
            Some(color) => r == Ok::<Color, Error>(color),
            None => r == Err::<Color, Error>(Error::InvalidColor),
        },
{
    if names(text, Color::Black) {
        Ok(Color::Black)
    } else if names(text, Color::Blue) {
        Ok(Color::Blue)
    } else if names(text, Color::Green) {
        Ok(Color::Green)
    } else if names(text, Color::Red) {
        Ok(Color::Red)
    } else if names(text, Color::Cyan) {
        Ok(Color::Cyan)
    } else if names(text, Color::Magenta) {
        Ok(Color::Magenta)
    } else if names(text, Color::Yellow) {
        Ok(Color::Yellow)
    } else if names(text, Color::White) {
        Ok(Color::White)
    } else {
        Err(Error::InvalidColor)
    }
}

/// The colour that `color` names, whatever the case of its letters; `InvalidColor`
/// where it names none of the eight.
pub fn parse_color(color: &str) -> (r: Result<Color, Error>)
    ensures
        match color_named(color@) {
            Some(found) => r == Ok::<Color, Error>(found),
            None => r == Err::<Color, Error>(Error::InvalidColor),
        },
{
    let chars = chars_of(color);
    color_of(chars.as_slice())
}

} // verus!
