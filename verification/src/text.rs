//! Characters, literal pieces and lines of a store's text.

use vstd::prelude::*;
use vstd::slice::slice_subrange;
use vstd::std_specs::iter::IteratorSpec;
use vstd::string::StringExecFns;

verus! {

/// `i` is where the first `mark` of `s` stands, or the length of `s` where it has none.
pub open spec fn is_first_index(s: Seq<char>, mark: char, i: int) -> bool {
    &&& 0 <= i <= s.len()
    &&& i < s.len() ==> s[i] == mark
    &&& forall|j: int| 0 <= j < i ==> s[j] != mark
}

/// The position of the first `mark` in `s`, or the length of `s` where it has none.
pub open spec fn first_index(s: Seq<char>, mark: char) -> int
    decreases s.len(),
{
    if s.len() == 0 || s[0] == mark {
        0
    } else {
        1 + first_index(s.drop_first(), mark)
    }
}

/// `first_index` is the first position of `mark`.
pub proof fn lemma_first_index(s: Seq<char>, mark: char)
    ensures
        is_first_index(s, mark, first_index(s, mark)),
    decreases s.len(),
{
    if s.len() == 0 || s[0] == mark {
    } else {
        let rest = s.drop_first();
        lemma_first_index(rest, mark);
        let k = first_index(rest, mark);
        assert forall|j: int| 0 <= j < k + 1 implies s[j] != mark by {
            if j > 0 {
                assert(s[j] == rest[j - 1]);
            }
        }
        if k + 1 < s.len() {
            assert(s[k + 1] == rest[k]);
        }
    }
}

/// A position that is the first of `mark` is `first_index`.
pub proof fn lemma_first_index_is(s: Seq<char>, mark: char, i: int)
    requires
        is_first_index(s, mark, i),
    ensures
        first_index(s, mark) == i,
{
    lemma_first_index(s, mark);
    let k = first_index(s, mark);
    if k < i {
        assert(s[k] != mark);
    } else if i < k {
        assert(s[i] != mark);
    }
}

/// No character of `s` is `mark`.
pub open spec fn free_of(s: Seq<char>, mark: char) -> bool {
    forall|i: int| 0 <= i < s.len() ==> s[i] != mark
}

/// Two pieces without `mark` joined hold no `mark`.
pub proof fn lemma_free_of_joined(a: Seq<char>, b: Seq<char>, mark: char)
    requires
        free_of(a, mark),
        free_of(b, mark),
    ensures
        free_of(a + b, mark),
{
    assert forall|i: int| 0 <= i < (a + b).len() implies (a + b)[i] != mark by {
        if i < a.len() {
            assert((a + b)[i] == a[i]);
        } else {
            assert((a + b)[i] == b[i - a.len()]);
        }
    }
}

/// The first line of a text that is not empty, without its line ending: the characters
/// before the first line feed, less a carriage return that stands directly before it.
pub open spec fn first_line(text: Seq<char>) -> Seq<char> {
    let end = first_index(text, '\n');
    if 0 < end < text.len() && text[end - 1] == '\r' {
        text.take(end - 1)
    } else {
        text.take(end)
    }
}

/// What follows the first line and its line feed.
pub open spec fn after_first_line(text: Seq<char>) -> Seq<char> {
    let end = first_index(text, '\n');
    if end < text.len() {
        text.skip(end + 1)
    } else {
        Seq::empty()
    }
}

/// The lines of a text. A line ends at a line feed, or at a carriage return directly
/// followed by a line feed; neither belongs to the line. The last line needs no ending,
/// and an empty text has no line.
pub open spec fn lines_of(text: Seq<char>) -> Seq<Seq<char>>
    decreases text.len(),
    via lines_of_decreases
{
    if text.len() == 0 {
        Seq::empty()
    } else {
        seq![first_line(text)] + lines_of(after_first_line(text))
    }
}

#[via_fn]
proof fn lines_of_decreases(text: Seq<char>) {
    lemma_first_index(text, '\n');
}

/// A text has at most as many lines as characters.
pub proof fn lemma_lines_count(text: Seq<char>)
    ensures
        lines_of(text).len() <= text.len(),
    decreases text.len(),
{
    if text.len() > 0 {
        lemma_first_index(text, '\n');
        lemma_lines_count(after_first_line(text));
    }
}

/// No line of a text holds a line feed.
pub proof fn lemma_lines_hold_no_feed(text: Seq<char>)
    ensures
        forall|k: int|
            0 <= k < lines_of(text).len() ==> free_of(#[trigger] lines_of(text)[k], '\n'),
    decreases text.len(),
{
    if text.len() > 0 {
        lemma_first_index(text, '\n');
        let rest = after_first_line(text);
        lemma_lines_hold_no_feed(rest);
        let first = first_line(text);
        assert forall|j: int| 0 <= j < first.len() implies first[j] != '\n' by {
            assert(first[j] == text[j]);
        }
        assert forall|k: int| 0 <= k < lines_of(text).len() implies free_of(
            #[trigger] lines_of(text)[k],
            '\n',
        ) by {
            if k > 0 {
                assert(lines_of(text)[k] == lines_of(rest)[k - 1]);
            }
        }
    }
}

/// The piece behind a label holds no tab, and no character that the whole holds
/// nowhere.
pub proof fn lemma_piece_is_free(s: Seq<char>, label: Seq<char>, mark: char)
    requires
        label.is_prefix_of(s),
    ensures
        free_of(piece_after(s, label), '\t'),
        free_of(s, mark) ==> free_of(piece_after(s, label), mark) && free_of(
            after_piece(s, label),
            mark,
        ),
        label.len() + piece_after(s, label).len() <= s.len(),
{
    let rest = s.skip(label.len() as int);
    lemma_first_index(rest, '\t');
    let piece = piece_after(s, label);
    assert forall|j: int| 0 <= j < piece.len() implies piece[j] != '\t' by {
        assert(piece[j] == rest[j]);
    }
    if free_of(s, mark) {
        assert forall|j: int| 0 <= j < piece.len() implies piece[j] != mark by {
            assert(piece[j] == s[j + label.len()]);
        }
        let after = after_piece(s, label);
        assert forall|j: int| 0 <= j < after.len() implies after[j] != mark by {
            assert(after[j] == s[j + label.len() + piece.len()]);
        }
    }
}

/// The text that holds `lines`, each followed by a line feed.
pub open spec fn lines_text(lines: Seq<Seq<char>>) -> Seq<char>
    decreases lines.len(),
{
    if lines.len() == 0 {
        Seq::empty()
    } else {
        lines_text(lines.drop_last()) + lines.last() + seq!['\n']
    }
}

/// A line that the line splitter hands back as it is: it holds no line feed and does
/// not end in a carriage return.
pub open spec fn whole_line(line: Seq<char>) -> bool {
    &&& free_of(line, '\n')
    &&& line.len() > 0 ==> line.last() != '\r'
}

/// A whole line, its line feed and more text split into that line and the lines of the
/// rest.
pub proof fn lemma_lines_of_line(line: Seq<char>, rest: Seq<char>)
    requires
        whole_line(line),
    ensures
        lines_of(line + seq!['\n'] + rest) == seq![line] + lines_of(rest),
{
    let text = line + seq!['\n'] + rest;
    let end = line.len() as int;
    assert(text[end] == '\n');
    assert forall|j: int| 0 <= j < end implies text[j] != '\n' by {
        assert(text[j] == line[j]);
    }
    lemma_first_index_is(text, '\n', end);
    if end > 0 {
        assert(text[end - 1] == line.last());
    }
    assert(text.take(end) =~= line);
    assert(text.skip(end + 1) =~= rest);
}

/// The lines of `lines_text(lines)` are `lines`, where each of them is a whole line.
pub proof fn lemma_lines_of_lines_text(lines: Seq<Seq<char>>)
    requires
        forall|i: int| 0 <= i < lines.len() ==> whole_line(#[trigger] lines[i]),
    ensures
        lines_of(lines_text(lines)) == lines,
    decreases lines.len(),
{
    lemma_lines_text_from_front(lines);
    if lines.len() > 0 {
        let rest = lines.drop_first();
        assert forall|i: int| 0 <= i < rest.len() implies whole_line(#[trigger] rest[i]) by {
            assert(rest[i] == lines[i + 1]);
        }
        lemma_lines_of_lines_text(rest);
        lemma_lines_of_line(lines[0], lines_text(rest));
        assert(seq![lines[0]] + rest =~= lines);
    } else {
        assert(lines =~= Seq::empty());
    }
}

/// `lines_text` read from the front: the first line, its line feed, then the rest.
pub proof fn lemma_lines_text_from_front(lines: Seq<Seq<char>>)
    ensures
        lines.len() > 0 ==> lines_text(lines) == lines[0] + seq!['\n'] + lines_text(
            lines.drop_first(),
        ),
    decreases lines.len(),
{
    if lines.len() > 1 {
        let front = lines.drop_last();
        lemma_lines_text_from_front(front);
        assert(front[0] == lines[0]);
        assert(front.drop_first() =~= lines.drop_first().drop_last());
        assert(lines.drop_first().last() == lines.last());
        assert(lines_text(lines) =~= lines[0] + seq!['\n'] + lines_text(lines.drop_first()));
    } else if lines.len() == 1 {
        assert(lines.drop_last() =~= Seq::empty());
        assert(lines.drop_first() =~= Seq::empty());
        assert(lines_text(lines) =~= lines[0] + seq!['\n'] + lines_text(lines.drop_first()));
    }
}

/// `c` is one of the ten digits.
pub open spec fn is_digit(c: char) -> bool {
    '0' <= c && c <= '9'
}

/// The number that the digit `c` stands for.
pub open spec fn digit_value(c: char) -> nat {
    (c as int - '0' as int) as nat
}

/// The digit that stands for `d`, a number below ten.
pub open spec fn digit_char(d: nat) -> char {
    if d == 0 {
        '0'
    } else if d == 1 {
        '1'
    } else if d == 2 {
        '2'
    } else if d == 3 {
        '3'
    } else if d == 4 {
        '4'
    } else if d == 5 {
        '5'
    } else if d == 6 {
        '6'
    } else if d == 7 {
        '7'
    } else if d == 8 {
        '8'
    } else {
        '9'
    }
}

/// Every character of `s` is a digit.
pub open spec fn all_digits(s: Seq<char>) -> bool {
    forall|i: int| 0 <= i < s.len() ==> is_digit(#[trigger] s[i])
}

/// Every character of `s` is the digit 0.
pub open spec fn all_zeros(s: Seq<char>) -> bool {
    forall|i: int| 0 <= i < s.len() ==> #[trigger] s[i] == '0'
}

/// A digit and its number are two ways to write one thing.
pub proof fn lemma_digit_char(d: nat)
    requires
        d < 10,
    ensures
        is_digit(digit_char(d)),
        digit_value(digit_char(d)) == d,
        digit_char(d) != '\t',
        digit_char(d) != '\n',
        digit_char(d) != '\r',
{
}

/// The digit of a number is the digit it was read from.
pub proof fn lemma_digit_value(c: char)
    requires
        is_digit(c),
    ensures
        digit_value(c) < 10,
        digit_char(digit_value(c)) == c,
{
}

/// The number that `c` stands for, where it is a digit.
pub(crate) fn digit(c: char) -> (d: Option<u8>)
    ensures
        d is Some <==> is_digit(c),
        d is Some ==> d->0 == digit_value(c) && d->0 < 10,
{
    if c >= '0' && c <= '9' {
        Some((c as u32 - '0' as u32) as u8)
    } else {
        None
    }
}

/// The digit that stands for the last decimal place of `n`.
pub(crate) fn last_digit(n: u16) -> (c: char)
    ensures
        c == digit_char((n % 10) as nat),
{
    let d: u16 = n % 10;
    if d == 0 {
        '0'
    } else if d == 1 {
        '1'
    } else if d == 2 {
        '2'
    } else if d == 3 {
        '3'
    } else if d == 4 {
        '4'
    } else if d == 5 {
        '5'
    } else if d == 6 {
        '6'
    } else if d == 7 {
        '7'
    } else if d == 8 {
        '8'
    } else {
        '9'
    }
}

/// Whether every character of `s` lies from `low` to `high`.
pub(crate) fn all_within(s: &[char], low: char, high: char) -> (r: bool)
    ensures
        r == forall|i: int| 0 <= i < s@.len() ==> low <= #[trigger] s@[i] && s@[i] <= high,
{
    let mut i: usize = 0;
    while i < s.len()
        invariant
            i <= s@.len(),
            forall|j: int| 0 <= j < i ==> low <= #[trigger] s@[j] && s@[j] <= high,
        decreases s@.len() - i,
    {
        if !(low <= s[i] && s[i] <= high) {
            return false;
        }
        i += 1;
    }
    true
}

/// Appends one character: `String::push` of std.
#[verifier::external_body]
fn push_char(s: &mut String, c: char)
    ensures
        final(s)@ == old(s)@.push(c),
{
    s.push(c)
}

/// Appends one character to `s`.
pub(crate) fn append_char(s: &mut String, c: char)
    ensures
        final(s)@ == old(s)@.push(c),
{
    push_char(s, c);
}

/// Appends the characters of `chars` to `s`.
pub(crate) fn append_chars(s: &mut String, chars: &[char])
    ensures
        final(s)@ == old(s)@ + chars@,
{
    let mut i: usize = 0;
    while i < chars.len()
        invariant
            i <= chars@.len(),
            s@ == old(s)@ + chars@.take(i as int),
        decreases chars@.len() - i,
    {
        push_char(s, chars[i]);
        i += 1;
        assert(s@ =~= old(s)@ + chars@.take(i as int));
    }
    assert(chars@.take(chars@.len() as int) =~= chars@);
}

/// Appends `piece` to `s`.
pub(crate) fn append_str(s: &mut String, piece: &str)
    ensures
        final(s)@ == old(s)@ + piece@,
{
    s.append(piece);
}

/// The characters of `text`, in order.
pub(crate) fn chars_of(text: &str) -> (chars: Vec<char>)
    ensures
        chars@ == text@,
{
    let mut chars: Vec<char> = Vec::new();
    for c in rest: text.chars()
        invariant
            chars@ == rest.seq().take(rest.index() as int),
            rest.seq() == text@,
    {
        chars.push(c);
    }
    chars
}

/// The characters of `chars`, as a string.
pub(crate) fn string_of(chars: &[char]) -> (s: String)
    ensures
        s@ == chars@,
{
    let mut s = String::new();
    append_chars(&mut s, chars);
    assert(s@ =~= chars@);
    s
}

/// The position of the first `mark` in `s`, or the length of `s` where it has none.
pub(crate) fn find_first(s: &[char], mark: char) -> (i: usize)
    ensures
        i == first_index(s@, mark),
        is_first_index(s@, mark, i as int),
{
    let mut i: usize = 0;
    while i < s.len() && s[i] != mark
        invariant
            i <= s@.len(),
            forall|j: int| 0 <= j < i ==> s@[j] != mark,
        decreases s@.len() - i,
    {
        i += 1;
    }
    proof {
        lemma_first_index_is(s@, mark, i as int);
    }
    i
}

/// Whether no character of `s` is `mark`.
pub(crate) fn free_of_char(s: &[char], mark: char) -> (r: bool)
    ensures
        r == free_of(s@, mark),
{
    let mut i: usize = 0;
    while i < s.len()
        invariant
            i <= s@.len(),
            forall|j: int| 0 <= j < i ==> s@[j] != mark,
        decreases s@.len() - i,
    {
        if s[i] == mark {
            return false;
        }
        i += 1;
    }
    true
}

/// Whether `a` and `b` hold the same characters.
pub(crate) fn same_chars(a: &[char], b: &[char]) -> (r: bool)
    ensures
        r == (a@ == b@),
{
    if a.len() != b.len() {
        return false;
    }
    let mut i: usize = 0;
    while i < a.len()
        invariant
            i <= a@.len(),
            a@.len() == b@.len(),
            forall|j: int| 0 <= j < i ==> a@[j] == b@[j],
        decreases a@.len() - i,
    {
        if a[i] != b[i] {
            return false;
        }
        i += 1;
    }
    assert(a@ =~= b@);
    true
}

/// Whether `s` begins with `piece`.
pub(crate) fn starts_with(s: &[char], piece: &[char]) -> (r: bool)
    ensures
        r == piece@.is_prefix_of(s@),
{
    if piece.len() > s.len() {
        return false;
    }
    same_chars(slice_subrange(s, 0, piece.len()), piece)
}

/// The part of `s` from `from` on.
pub(crate) fn tail(s: &[char], from: usize) -> (r: &[char])
    requires
        from <= s@.len(),
    ensures
        r@ == s@.skip(from as int),
{
    slice_subrange(s, from, s.len())
}

/// The part of `s` before `to`.
pub(crate) fn head(s: &[char], to: usize) -> (r: &[char])
    requires
        to <= s@.len(),
    ensures
        r@ == s@.take(to as int),
{
    slice_subrange(s, 0, to)
}

/// The piece of `s` that stands behind `label` and before the next tab, where `s`
/// begins with `label`.
pub open spec fn piece_after(s: Seq<char>, label: Seq<char>) -> Seq<char> {
    let rest = s.skip(label.len() as int);
    rest.take(first_index(rest, '\t'))
}

/// What follows the piece of `s` that stands behind `label`.
pub open spec fn after_piece(s: Seq<char>, label: Seq<char>) -> Seq<char> {
    s.skip((label.len() + piece_after(s, label).len()) as int)
}

/// In `label + piece + rest`, where `piece` holds no tab and `rest` is empty or
/// begins with one, the piece behind `label` is `piece`, and `rest` follows it.
pub proof fn lemma_piece_after(label: Seq<char>, piece: Seq<char>, rest: Seq<char>)
    requires
        free_of(piece, '\t'),
        rest.len() > 0 ==> rest[0] == '\t',
    ensures
        label.is_prefix_of(label + piece + rest),
        piece_after(label + piece + rest, label) == piece,
        after_piece(label + piece + rest, label) == rest,
{
    let s = label + piece + rest;
    assert(s.subrange(0, label.len() as int) =~= label);
    let tail = s.skip(label.len() as int);
    assert(tail =~= piece + rest);
    assert forall|j: int| 0 <= j < piece.len() implies tail[j] != '\t' by {
        assert(tail[j] == piece[j]);
    }
    if rest.len() > 0 {
        assert(tail[piece.len() as int] == rest[0]);
    }
    lemma_first_index_is(tail, '\t', piece.len() as int);
    assert(tail.take(piece.len() as int) =~= piece);
    assert(s.skip((label.len() + piece.len()) as int) =~= rest);
}

/// The piece of `s` behind `label` and before the next tab, and what follows the
/// piece; nothing where `s` does not begin with `label` or the piece is empty.
pub(crate) fn labelled_piece<'a>(s: &'a [char], label: &[char]) -> (r: Option<
    (&'a [char], &'a [char]),
>)
    ensures
        r is Some <==> label@.is_prefix_of(s@) && piece_after(s@, label@).len() > 0,
        r matches Some((piece, rest)) ==> piece@ == piece_after(s@, label@) && rest@
            == after_piece(s@, label@),
{
    if !starts_with(s, label) {
        return None;
    }
    let rest = tail(s, label.len());
    let end = find_first(rest, '\t');
    if end == 0 {
        return None;
    }
    let piece = head(rest, end);
    let after = tail(rest, end);
    assert(after@ =~= s@.skip((label@.len() + end) as int));
    Some((piece, after))
}

/// Where the line of `text` that begins at `from` ends, and where the next one begins.
fn line_bounds(text: &[char], from: usize) -> (r: (usize, usize))
    requires
        from < text@.len(),
    ensures
        from <= r.0 < r.1 <= text@.len() || from <= r.0 == r.1 == text@.len(),
        text@.subrange(from as int, r.0 as int) == first_line(text@.skip(from as int)),
        text@.skip(r.1 as int) == after_first_line(text@.skip(from as int)),
        from < r.1,
{
    let rest = tail(text, from);
    let end = find_first(rest, '\n');
    let len = text.len();
    assert(rest@.len() == len - from);
    let stop: usize = if 0 < end && end < rest.len() && rest[end - 1] == '\r' {
        end - 1
    } else {
        end
    };
    let next: usize = if end < rest.len() {
        from + end + 1
    } else {
        len
    };
    assert(text@.subrange(from as int, from + stop) =~= rest@.take(stop as int));
    assert(end < rest@.len() ==> text@.skip(next as int) =~= rest@.skip(end + 1));
    assert(end == rest@.len() ==> text@.skip(next as int) =~= Seq::<char>::empty());
    (from + stop, next)
}

/// What `ranges` cut out of `text`, one piece for each pair of a start and an end.
pub open spec fn pieces(text: Seq<char>, ranges: Seq<(usize, usize)>) -> Seq<Seq<char>> {
    Seq::new(ranges.len(), |i: int| text.subrange(ranges[i].0 as int, ranges[i].1 as int))
}

/// Where the lines of `text` start and end.
pub(crate) fn line_ranges(text: &[char]) -> (ranges: Vec<(usize, usize)>)
    ensures
        forall|i: int|
            0 <= i < ranges@.len() ==> (#[trigger] ranges@[i]).0 <= ranges@[i].1 <= text@.len(),
        pieces(text@, ranges@) == lines_of(text@),
{
    let mut ranges: Vec<(usize, usize)> = Vec::new();
    let mut from: usize = 0;
    assert(text@.skip(0) =~= text@);
    assert(pieces(text@, ranges@) =~= Seq::<Seq<char>>::empty());
    while from < text.len()
        invariant
            from <= text@.len(),
            forall|i: int|
                0 <= i < ranges@.len() ==> (#[trigger] ranges@[i]).0 <= ranges@[i].1
                    <= text@.len(),
            pieces(text@, ranges@) + lines_of(text@.skip(from as int)) == lines_of(text@),
        decreases text@.len() - from,
    {
        let (stop, next) = line_bounds(text, from);
        let ghost before = ranges@;
        ranges.push((from, stop));
        assert(pieces(text@, ranges@) =~= pieces(text@, before) + seq![
            first_line(text@.skip(from as int)),
        ]);
        assert(pieces(text@, ranges@) + lines_of(text@.skip(next as int)) =~= pieces(
            text@,
            before,
        ) + lines_of(text@.skip(from as int)));
        from = next;
    }
    assert(text@.skip(from as int).len() == 0);
    assert(pieces(text@, ranges@) =~= lines_of(text@));
    ranges
}

/// The lines of `text`. A line ends at a line feed, or at a carriage return directly
/// followed by a line feed; neither belongs to the line.
pub fn lines(text: &str) -> (lines: Vec<String>)
    ensures
        lines@.len() == lines_of(text@).len(),
        forall|i: int| 0 <= i < lines@.len() ==> (#[trigger] lines@[i])@ == lines_of(text@)[i],
{
    let chars = chars_of(text);
    let ranges = line_ranges(chars.as_slice());
    let mut lines: Vec<String> = Vec::new();
    let mut i: usize = 0;
    while i < ranges.len()
        invariant
            i <= ranges@.len(),
            chars@ == text@,
            pieces(chars@, ranges@) == lines_of(text@),
            forall|k: int|
                0 <= k < ranges@.len() ==> (#[trigger] ranges@[k]).0 <= ranges@[k].1
                    <= chars@.len(),
            lines@.len() == i,
            forall|k: int| 0 <= k < i ==> (#[trigger] lines@[k])@ == lines_of(text@)[k],
        decreases ranges@.len() - i,
    {
        let range = ranges[i];
        let line = string_of(slice_subrange(chars.as_slice(), range.0, range.1));
        assert(line@ == pieces(chars@, ranges@)[i as int]);
        lines.push(line);
        i += 1;
    }
    lines
}

} // verus!
