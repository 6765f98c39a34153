//! How likely a category is to be shown, kept in hundredths.

use crate::error::Error;
use crate::text::{
    all_digits, all_within, all_zeros, append_char, chars_of, digit, digit_char, digit_value,
    find_first, first_index, head, is_digit, last_digit, lemma_digit_char, lemma_first_index_is,
    tail,
};
use vstd::prelude::*;

verus! {

/// The number of equal steps from 0 to 1 that a draw is counted in.
pub const DRAW_STEPS: u32 = 8_388_608;

/// A probability from 0.00 to 1.00, in steps of one hundredth.
#[derive(Clone, Copy, Debug, PartialEq, Eq)]
pub struct Probability {
    hundredths: u8,
}

impl View for Probability {
    type V = nat;

    /// The probability in hundredths.
    closed spec fn view(&self) -> nat {
        self.hundredths as nat
    }
}

/// The number that the digit at place `i` of `s` stands for, 0 beyond the end of `s`.
pub open spec fn digit_at(s: Seq<char>, i: int) -> nat {
    if 0 <= i < s.len() {
        digit_value(s[i])
    } else {
        0
    }
}

/// The digits `s` write the number one: a 1, with nothing but zeros before it.
pub open spec fn writes_one(s: Seq<char>) -> bool {
    &&& s.len() > 0
    &&& s.last() == '1'
    &&& all_zeros(s.drop_last())
}

/// The hundredths that the decimal places `fraction` come to, rounded half up.
pub open spec fn rounded_hundredths(fraction: Seq<char>) -> nat {
    10 * digit_at(fraction, 0) + digit_at(fraction, 1) + if digit_at(fraction, 2) >= 5 {
        1nat
    } else {
        0nat
    }
}

/// `text` begins with a sign.
pub open spec fn has_sign(text: Seq<char>) -> bool {
    text.len() > 0 && (text[0] == '+' || text[0] == '-')
}

/// The digits and the point of a numeral: what follows its sign.
pub open spec fn unsigned_part(text: Seq<char>) -> Seq<char> {
    if has_sign(text) {
        text.skip(1)
    } else {
        text
    }
}

/// The digits before the point of a numeral.
pub open spec fn whole_part(text: Seq<char>) -> Seq<char> {
    let body = unsigned_part(text);
    body.take(first_index(body, '.'))
}

/// The digits after the point of a numeral: none where it has no point.
pub open spec fn fraction_part(text: Seq<char>) -> Seq<char> {
    let body = unsigned_part(text);
    let point = first_index(body, '.');
    if point < body.len() {
        body.skip(point + 1)
    } else {
        Seq::empty()
    }
}

/// `text` is a decimal numeral: a sign or none, then digits, a point among them or
/// none, and at least one digit.
pub open spec fn is_numeral(text: Seq<char>) -> bool {
    &&& all_digits(whole_part(text))
    &&& all_digits(fraction_part(text))
    &&& whole_part(text).len() + fraction_part(text).len() > 0
}

/// The probability that `text` writes, in hundredths: `text` is a decimal numeral
/// whose value lies from 0 to 1, and the value is rounded half up to hundredths.
/// `None` where `text` is no such numeral.
pub open spec fn probability_value(text: Seq<char>) -> Option<nat> {
    let negative = text.len() > 0 && text[0] == '-';
    let whole = whole_part(text);
    let fraction = fraction_part(text);
    if !is_numeral(text) {
        None
    } else if all_zeros(whole) {
        if negative && !all_zeros(fraction) {
            None
        } else {
            Some(rounded_hundredths(fraction))
        }
    } else if writes_one(whole) && all_zeros(fraction) && !negative {
        Some(100nat)
    } else {
        None
    }
}

/// A probability as a store holds it: the whole, a point, and two decimal places.
pub open spec fn probability_text(hundredths: nat) -> Seq<char> {
    seq![
        digit_char(hundredths / 100),
        '.',
        digit_char(hundredths / 10 % 10),
        digit_char(hundredths % 10),
    ]
}

/// Whether a category of probability `hundredths` is shown on the draw `draw`, which
/// stands for `draw / DRAW_STEPS`: the probability is at least the draw.
pub open spec fn admits(hundredths: nat, draw: nat) -> bool {
    hundredths * DRAW_STEPS >= 100 * draw
}

/// The whole number that the digits `s` write.
pub open spec fn digits_value(s: Seq<char>) -> nat
    decreases s.len(),
{
    if s.len() == 0 {
        0
    } else {
        10 * digits_value(s.drop_last()) + digit_value(s.last())
    }
}

/// Ten to the power of `places`.
pub open spec fn tenfold(places: nat) -> nat
    decreases places,
{
    if places == 0 {
        1
    } else {
        10 * tenfold((places - 1) as nat)
    }
}

/// The value of a numeral without its sign, counted in units of its last decimal
/// place: the value times ten to the number of its decimal places.
pub open spec fn scaled_value(text: Seq<char>) -> nat {
    digits_value(whole_part(text)) * tenfold(fraction_part(text).len()) + digits_value(
        fraction_part(text),
    )
}

/// The value of a numeral lies from 0 to 1: without its sign it is at most 1, and
/// under a minus sign it is 0.
pub open spec fn in_unit_range(text: Seq<char>) -> bool {
    &&& scaled_value(text) <= tenfold(fraction_part(text).len())
    &&& text[0] == '-' ==> scaled_value(text) == 0
}

/// Digits write a number below ten to their count; they write 0 where all of them
/// are zeros, and 1 where they are zeros and a last 1.
pub proof fn lemma_digits_value(s: Seq<char>)
    requires
        all_digits(s),
    ensures
        digits_value(s) < tenfold(s.len()),
        digits_value(s) == 0 <==> all_zeros(s),
        digits_value(s) == 1 <==> writes_one(s),
    decreases s.len(),
{
    if s.len() > 0 {
        let front = s.drop_last();
        assert forall|i: int| 0 <= i < front.len() implies is_digit(#[trigger] front[i]) by {
            assert(front[i] == s[i]);
        }
        lemma_digits_value(front);
        assert(is_digit(s[s.len() - 1]));
        if all_zeros(s) {
            assert forall|i: int| 0 <= i < front.len() implies #[trigger] front[i] == '0' by {
                assert(front[i] == s[i]);
            }
            assert(s[s.len() - 1] == '0');
        }
        if all_zeros(front) && s.last() == '0' {
            assert forall|i: int| 0 <= i < s.len() implies #[trigger] s[i] == '0' by {
                if i < front.len() {
                    assert(front[i] == s[i]);
                }
            }
        }
    }
}

/// A numeral writes a probability where its value lies from 0 to 1, and there
/// alone.
pub proof fn lemma_probability_range(text: Seq<char>)
    requires
        is_numeral(text),
    ensures
        probability_value(text) is Some <==> in_unit_range(text),
{
    let whole = whole_part(text);
    let fraction = fraction_part(text);
    let unit = tenfold(fraction.len());
    lemma_digits_value(whole);
    lemma_digits_value(fraction);
    let units = digits_value(whole);
    if units >= 2 {
        assert(units * unit >= 2 * unit) by (nonlinear_arith)
            requires
                units >= 2,
                unit >= 1,
        ;
    } else {
        assert(units * unit == if units == 1 {
            unit
        } else {
            0
        }) by (nonlinear_arith)
            requires
                units <= 1,
        ;
    }
}

/// Digits write their first digit times ten to the count of the others, and what
/// the others write.
proof fn lemma_first_digit(s: Seq<char>)
    requires
        s.len() > 0,
    ensures
        digits_value(s) == digit_value(s[0]) * tenfold((s.len() - 1) as nat) + digits_value(
            s.drop_first(),
        ),
    decreases s.len(),
{
    let front = s.drop_last();
    let rest = s.drop_first();
    if s.len() == 1 {
        assert(front =~= Seq::<char>::empty());
        assert(rest =~= Seq::<char>::empty());
        assert(digit_value(s[0]) * tenfold(0) == digit_value(s[0])) by (nonlinear_arith)
            requires
                tenfold(0) == 1,
        ;
    } else {
        lemma_first_digit(front);
        assert(front[0] == s[0]);
        assert(rest.drop_last() =~= front.drop_first());
        assert(rest.last() == s.last());
        let high = digit_value(s[0]);
        let unit = tenfold((s.len() - 2) as nat);
        assert(tenfold((s.len() - 1) as nat) == 10 * unit);
        assert(10 * (high * unit) == high * (10 * unit)) by (nonlinear_arith);
    }
}

/// The first three decimal places decide the value of a fraction but for less than
/// one unit of the third place.
proof fn lemma_three_places(fraction: Seq<char>)
    requires
        all_digits(fraction),
    ensures
        fraction.len() >= 3 ==> digits_value(fraction) == (100 * digit_at(fraction, 0) + 10
            * digit_at(fraction, 1) + digit_at(fraction, 2)) * tenfold(
            (fraction.len() - 3) as nat,
        ) + digits_value(fraction.skip(3)) && digits_value(fraction.skip(3)) < tenfold(
            (fraction.len() - 3) as nat,
        ),
        fraction.len() < 3 ==> digits_value(fraction) * tenfold((3 - fraction.len()) as nat)
            == 100 * digit_at(fraction, 0) + 10 * digit_at(fraction, 1) + digit_at(fraction, 2),
        digit_at(fraction, 0) <= 9 && digit_at(fraction, 1) <= 9 && digit_at(fraction, 2) <= 9,
{
    reveal_with_fuel(tenfold, 4);
    reveal_with_fuel(digits_value, 4);
    let len = fraction.len();
    if len > 0 {
        assert(is_digit(fraction[0]));
    }
    if len > 1 {
        assert(is_digit(fraction[1]));
    }
    if len > 2 {
        assert(is_digit(fraction[2]));
    }
    if len >= 3 {
        let one = fraction.drop_first();
        let two = one.drop_first();
        let three = two.drop_first();
        lemma_first_digit(fraction);
        lemma_first_digit(one);
        lemma_first_digit(two);
        assert(one[0] == fraction[1] && two[0] == fraction[2]);
        assert(three =~= fraction.skip(3));
        assert forall|i: int| 0 <= i < three.len() implies is_digit(#[trigger] three[i]) by {
            assert(three[i] == fraction[i + 3]);
        }
        lemma_digits_value(three);
        let unit = tenfold((len - 3) as nat);
        let a = digit_value(fraction[0]);
        let b = digit_value(fraction[1]);
        let c = digit_value(fraction[2]);
        assert(tenfold((len - 1) as nat) == 100 * unit);
        assert(tenfold((len - 2) as nat) == 10 * unit);
        assert(a * (100 * unit) + b * (10 * unit) + c * unit == (100 * a + 10 * b + c) * unit)
            by (nonlinear_arith);
    } else if len == 2 {
        let front = fraction.drop_last();
        assert(front.drop_last() =~= Seq::<char>::empty());
        assert(front.last() == fraction[0]);
        assert(fraction.last() == fraction[1]);
        assert(digits_value(front) == digit_value(fraction[0]));
        let value = digits_value(fraction);
        assert(value == 10 * digit_value(fraction[0]) + digit_value(fraction[1]));
        let pad = tenfold((3 - len) as nat);
        assert(pad == 10);
        assert(value * pad == 10 * value) by (nonlinear_arith)
            requires
                pad == 10,
        ;
    } else if len == 1 {
        assert(fraction.drop_last() =~= Seq::<char>::empty());
        assert(fraction.last() == fraction[0]);
        let value = digits_value(fraction);
        assert(value == digit_value(fraction[0]));
        let pad = tenfold((3 - len) as nat);
        assert(pad == 100);
        assert(value * pad == 100 * value) by (nonlinear_arith)
            requires
                pad == 100,
        ;
    } else {
        let value = digits_value(fraction);
        let pad = tenfold((3 - len) as nat);
        assert(value * pad == 0) by (nonlinear_arith)
            requires
                value == 0,
        ;
    }
}

/// The probability that a numeral writes is its value rounded half up to
/// hundredths: with `v` for the value and `h` for the probability in hundredths,
/// `h <= 100 v + 1/2 < h + 1`. The value is counted in units of the numeral's last
/// decimal place, and both sides are doubled, so that the claim is one of whole
/// numbers.
pub proof fn lemma_rounded_half_up(text: Seq<char>)
    requires
        probability_value(text) is Some,
    ensures
        2 * tenfold(fraction_part(text).len()) * probability_value(text)->0 <= 200 * scaled_value(
            text,
        ) + tenfold(fraction_part(text).len()) < 2 * tenfold(fraction_part(text).len()) * (
        probability_value(text)->0 + 1),
{
    reveal_with_fuel(tenfold, 4);
    let whole = whole_part(text);
    let fraction = fraction_part(text);
    let unit = tenfold(fraction.len());
    let value = scaled_value(text);
    let hundredths = probability_value(text)->0;
    lemma_digits_value(whole);
    lemma_digits_value(fraction);
    lemma_three_places(fraction);
    let units = digits_value(whole);
    if all_zeros(whole) {
        assert(units * unit == 0) by (nonlinear_arith)
            requires
                units == 0,
        ;
        let a = digit_at(fraction, 0);
        let b = digit_at(fraction, 1);
        let c = digit_at(fraction, 2);
        let up: nat = if c >= 5 {
            1
        } else {
            0
        };
        assert(hundredths == 10 * a + b + up);
        if fraction.len() >= 3 {
            let small = tenfold((fraction.len() - 3) as nat);
            let rest = digits_value(fraction.skip(3));
            assert(unit == 1000 * small);
            assert(value == (100 * a + 10 * b + c) * small + rest);
            assert(c * small <= 9 * small && (c >= 5 ==> c * small >= 5 * small) && (c < 5 ==> c
                * small <= 4 * small)) by (nonlinear_arith)
                requires
                    c <= 9,
            ;
            assert((100 * a + 10 * b + c) * small == 100 * (a * small) + 10 * (b * small) + c
                * small) by (nonlinear_arith);
            assert(2 * unit * hundredths == 20000 * (a * small) + 2000 * (b * small) + 2000 * (up
                * small)) by (nonlinear_arith)
                requires
                    unit == 1000 * small,
                    hundredths == 10 * a + b + up,
            ;
            assert(up * small == if c >= 5 {
                small
            } else {
                0
            }) by (nonlinear_arith)
                requires
                    up == if c >= 5 {
                        1nat
                    } else {
                        0nat
                    },
            ;
            assert(2 * unit * (hundredths + 1) == 2 * unit * hundredths + 2000 * small)
                by (nonlinear_arith)
                requires
                    unit == 1000 * small,
            ;
            assert(200 * value + unit == 20000 * (a * small) + 2000 * (b * small) + 200 * (c
                * small) + 200 * rest + 1000 * small);
            assert(2 * unit * hundredths <= 200 * value + unit);
            assert(200 * value + unit < 2 * unit * (hundredths + 1));
        } else {
            let pad = tenfold((3 - fraction.len()) as nat);
            assert(c == 0);
            assert(unit * pad == 1000) by {
                if fraction.len() == 0 {
                    assert(unit == 1 && pad == 1000);
                } else if fraction.len() == 1 {
                    assert(unit == 10 && pad == 100);
                } else {
                    assert(unit == 100 && pad == 10);
                }
            }
            assert(value * pad == 100 * a + 10 * b);
            assert(hundredths == 10 * a + b);
            if fraction.len() == 0 {
                assert(unit == 1 && pad == 1000);
                assert(value * 1000 == 100 * a + 10 * b);
                assert(2 * unit * hundredths == 2 * hundredths && 2 * unit * (hundredths + 1) == 2
                    * hundredths + 2) by (nonlinear_arith)
                    requires
                        unit == 1,
                ;
            } else if fraction.len() == 1 {
                assert(unit == 10 && pad == 100);
                assert(value * 100 == 100 * a + 10 * b);
                assert(2 * unit * hundredths == 20 * hundredths && 2 * unit * (hundredths + 1)
                    == 20 * hundredths + 20) by (nonlinear_arith)
                    requires
                        unit == 10,
                ;
            } else {
                assert(unit == 100 && pad == 10);
                assert(value * 10 == 100 * a + 10 * b);
                assert(2 * unit * hundredths == 200 * hundredths && 2 * unit * (hundredths + 1)
                    == 200 * hundredths + 200) by (nonlinear_arith)
                    requires
                        unit == 100,
                ;
            }
            assert(2 * unit * hundredths <= 200 * value + unit);
            assert(200 * value + unit < 2 * unit * (hundredths + 1));
        }
    } else {
        assert(units * unit == unit) by (nonlinear_arith)
            requires
                units == 1,
        ;
        assert(2 * unit * 100 == 200 * unit && 2 * unit * 101 == 202 * unit) by (nonlinear_arith);
        assert(hundredths == 100);
        assert(digits_value(fraction) == 0);
        assert(value == unit);
    }
}

/// A probability that a text writes is at most 1.
pub proof fn lemma_probability_value(text: Seq<char>)
    ensures
        probability_value(text) is Some ==> probability_value(text)->0 <= 100,
{
    let fraction = fraction_part(text);
    if probability_value(text) is Some {
        assert(all_digits(fraction));
        assert(digit_at(fraction, 0) <= 9) by {
            if fraction.len() > 0 {
                assert(is_digit(fraction[0]));
            }
        }
        assert(digit_at(fraction, 1) <= 9) by {
            if fraction.len() > 1 {
                assert(is_digit(fraction[1]));
            }
        }
    }
}

/// What `probability_text` writes is read back as the same probability, and is a
/// piece of a line that holds no tab and no line ending.
pub proof fn lemma_probability_text(hundredths: nat)
    requires
        hundredths <= 100,
    ensures
        probability_value(probability_text(hundredths)) == Some(hundredths),
        probability_text(hundredths).len() == 4,
        forall|i: int|
            0 <= i < 4 ==> #[trigger] probability_text(hundredths)[i] != '\t' && probability_text(
                hundredths,
            )[i] != '\n' && probability_text(hundredths)[i] != '\r',
{
    let text = probability_text(hundredths);
    lemma_digit_char(hundredths / 100);
    lemma_digit_char(hundredths / 10 % 10);
    lemma_digit_char(hundredths % 10);
    assert(!has_sign(text));
    assert(unsigned_part(text) == text);
    lemma_first_index_is(text, '.', 1);
    let whole = whole_part(text);
    let fraction = fraction_part(text);
    assert(whole =~= seq![digit_char(hundredths / 100)]);
    assert(fraction =~= seq![digit_char(hundredths / 10 % 10), digit_char(hundredths % 10)]);
    assert(all_digits(whole));
    assert(all_digits(fraction));
    assert(digit_at(fraction, 2) == 0);
    if hundredths == 100 {
        assert(whole.drop_last() =~= Seq::<char>::empty());
        assert(writes_one(whole));
        assert(whole[0] != '0');
        assert(all_zeros(fraction));
    } else {
        assert(all_zeros(whole));
        assert(digit_at(fraction, 0) == hundredths / 10 % 10);
        assert(digit_at(fraction, 1) == hundredths % 10);
    }
}

/// The number that the digit at place `i` of `s` stands for, 0 beyond the end of `s`.
fn place(s: &[char], i: usize) -> (d: u8)
    requires
        all_digits(s@),
    ensures
        d == digit_at(s@, i as int),
        d < 10,
{
    if i < s.len() {
        match digit(s[i]) {
            Some(d) => d,
            None => 0,
        }
    } else {
        0
    }
}

fn is_one(s: &[char]) -> (r: bool)
    ensures
        r == writes_one(s@),
{
    let len = s.len();
    if len == 0 || s[len - 1] != '1' {
        return false;
    }
    let front = head(s, len - 1);
    assert(front@ == s@.drop_last());
    all_within(front, '0', '0')
}

/// The probability that `text` writes.
pub(crate) fn probability_of(text: &[char]) -> (r: Result<Probability, Error>)
    ensures
        match probability_value(text@) {
            Some(hundredths) => r is Ok && r->Ok_0@ == hundredths,
            None => r == Err::<Probability, Error>(Error::InvalidProbability),
        },
{
    let signed = text.len() > 0 && (text[0] == '+' || text[0] == '-');
    let negative = text.len() > 0 && text[0] == '-';
    let body = if signed {
        tail(text, 1)
    } else {
        text
    };
    let point = find_first(body, '.');
    let whole = head(body, point);
    let fraction = if point < body.len() {
        tail(body, point + 1)
    } else {
        tail(body, body.len())
    };
    assert(body@ == unsigned_part(text@));
    assert(whole@ == whole_part(text@));
    assert(fraction@ =~= fraction_part(text@));
    if !all_within(whole, '0', '9') || !all_within(fraction, '0', '9') {
        return Err(Error::InvalidProbability);
    }
    if whole.len() == 0 && fraction.len() == 0 {
        return Err(Error::InvalidProbability);
    }
    let no_fraction = all_within(fraction, '0', '0');
    if all_within(whole, '0', '0') {
        if negative && !no_fraction {
            Err(Error::InvalidProbability)
        } else {
            let tenths = place(fraction, 0);
            let hundredths = place(fraction, 1);
            let next = place(fraction, 2);
            let up: u8 = if next >= 5 {
                1
            } else {
                0
            };
            Ok(Probability { hundredths: 10 * tenths + hundredths + up })
        }
    } else if is_one(whole) && no_fraction && !negative {
        Ok(Probability { hundredths: 100 })
    } else {
        Err(Error::InvalidProbability)
    }
}

impl Probability {
    #[verifier::type_invariant]
    spec fn bounded(self) -> bool {
        self.hundredths <= 100
    }

    /// The probability of so many hundredths, where they are at most 100.
    pub fn new(hundredths: u8) -> (r: Option<Probability>)
        ensures
            r is Some <==> hundredths <= 100,
            r is Some ==> r->0@ == hundredths,
    {
        if hundredths <= 100 {
            Some(Probability { hundredths })
        } else {
            None
        }
    }

    /// The probability 1.00, under which a category is shown on every draw.
    pub fn certain() -> (r: Probability)
        ensures
            r@ == 100,
    {
        Probability { hundredths: 100 }
    }

    /// The probability in hundredths.
    pub fn hundredths(&self) -> (h: u8)
        ensures
            h == self@,
            h <= 100,
    {
        proof {
            use_type_invariant(self);
        }
        self.hundredths
    }

    /// The probability that `text` writes: a decimal numeral from 0 to 1, rounded half
    /// up to hundredths. `InvalidProbability` for any other text.
    pub fn parse(text: &str) -> (r: Result<Probability, Error>)
        ensures
            match probability_value(text@) {
                Some(hundredths) => r is Ok && r->Ok_0@ == hundredths,
                None => r == Err::<Probability, Error>(Error::InvalidProbability),
            },
    {
        let chars = chars_of(text);
        probability_of(chars.as_slice())
    }

    /// The probability as a store holds it, with two decimal places.
    pub fn text(&self) -> (s: String)
        ensures
            s@ == probability_text(self@),
            self@ <= 100,
    {
        proof {
            use_type_invariant(self);
        }
        let h: u16 = self.hundredths as u16;
        let mut s = String::new();
        append_char(&mut s, last_digit(h / 100));
        append_char(&mut s, '.');
        append_char(&mut s, last_digit(h / 10));
        append_char(&mut s, last_digit(h));
        assert(s@ =~= probability_text(self@));
        s
    }

    /// Whether a category of this probability is shown on the draw `draw`, which
    /// stands for `draw / DRAW_STEPS`.
    pub fn admits(&self, draw: u32) -> (shown: bool)
        ensures
            shown == admits(self@, draw as nat),
    {
        proof {
            use_type_invariant(self);
        }
        let steps: u64 = DRAW_STEPS as u64;
        assert(steps == 8_388_608);
        let scaled: u64 = self.hundredths as u64 * steps;
        scaled >= 100 * (draw as u64)
    }
}

} // verus!
