//! Exact decimal numbers with eighteen fractional digits, and their text
//! form.
//!
//! A [`Decimal`] counts units of 10^-18, so sums, differences and
//! comparisons of amounts are exact integer operations. It holds every
//! number below 10^18 in magnitude that has at most eighteen digits
//! after the point.
//!
//! A decimal is read from a literal such as `12`, `-0.5` or `.25`, which
//! may carry an exponent, as in `-2e3` or `25E-1`. It is read exactly or
//! not at all: a number that a `Decimal` cannot hold is not rounded.

use vstd::prelude::*;
use crate::digits::{
    all_digits, digit_value, digits_fit, digits_of, digits_units, integer_text, is_digit,
    is_digit_char,
    lemma_digits_of, lemma_digits_units_below, lemma_digits_units_bound,
    lemma_digits_units_concat, lemma_digits_units_number, lemma_digits_units_term,
    lemma_number_of_prefix, lemma_number_of_push, lemma_padded_digits, lemma_places_limit,
    lemma_pow10_grows, lemma_pow10_positive, lemma_without_trailing_zeros,
    lemma_zeros_count_nothing, number_of, padded_digits, place_fits, positional_units, pow10,
    push_digits, push_padded, without_trailing_zeros, PLACES, PLACES_LIMIT,
};
use crate::text::{chars_between, chars_of, string_of};

verus! {

/// How many digits a decimal keeps after the point.
pub const FRACTION_DIGITS: usize = 18;

/// How many units make one: 10^18.
pub const UNIT: u128 = 1_000_000_000_000_000_000;

/// Whether `s` begins with a sign.
pub open spec fn has_sign(s: Seq<char>) -> bool {
    s.len() > 0 && (s[0] == '-' || s[0] == '+')
}

/// The position of the first decimal point in `s`, or the length of `s`
/// where it has none.
pub open spec fn point_position(s: Seq<char>) -> nat
    decreases s.len(),
{
    if s.len() == 0 || s.first() == '.' {
        0
    } else {
        1 + point_position(s.drop_first())
    }
}

/// The parts of a decimal literal: its sign, the digits before the point
/// and the digits after it.
pub struct Literal {
    pub negative: bool,
    pub whole: Seq<char>,
    pub fraction: Seq<char>,
}

/// Splits `s` at its sign and its first decimal point.
pub open spec fn split_literal(s: Seq<char>) -> Literal {
    let body = if has_sign(s) { s.drop_first() } else { s };
    let p = point_position(body) as int;
    Literal {
        negative: has_sign(s) && s[0] == '-',
        whole: body.take(p),
        fraction: if p < body.len() { body.skip(p + 1) } else { Seq::empty() },
    }
}

/// Whether `s` is a decimal literal: an optional sign, digits, and
/// optionally a point followed by digits, with at least one digit in all.
/// `12`, `-0.5`, `+7.`, `.25` are literals; `.`, `1.2.3`, `inf` are not.
pub open spec fn is_decimal_literal(s: Seq<char>) -> bool {
    let l = split_literal(s);
    &&& all_digits(l.whole)
    &&& all_digits(l.fraction)
    &&& l.whole.len() + l.fraction.len() > 0
}

/// Whether the fraction digits `f` fit: every digit after the eighteenth
/// is a zero.
pub open spec fn fraction_fits(f: Seq<char>) -> bool {
    forall|i: int| FRACTION_DIGITS <= i < f.len() ==> #[trigger] f[i] == '0'
}

/// The units that the fraction digits `f` stand for: the first digit
/// counts 10^17 units, the second 10^16, and so on.
pub open spec fn fraction_units(f: Seq<char>) -> nat {
    if f.len() <= FRACTION_DIGITS {
        number_of(f) * pow10((FRACTION_DIGITS - f.len()) as nat)
    } else {
        number_of(f.take(FRACTION_DIGITS as int))
    }
}

/// The units of the literal `l`, where a `Decimal` can hold it: the whole
/// part is below 10^18 and the fraction fits.
pub open spec fn literal_units(l: Literal) -> Option<int> {
    if number_of(l.whole) < UNIT && fraction_fits(l.fraction) {
        let magnitude = number_of(l.whole) * UNIT + fraction_units(l.fraction);
        Some(if l.negative { -magnitude } else { magnitude })
    } else {
        None
    }
}

/// The decimal that the text `s` without an exponent denotes: `None`
/// where `s` is no decimal literal or denotes a number that a `Decimal`
/// cannot hold.
pub open spec fn plain_decimal(s: Seq<char>) -> Option<Decimal> {
    if is_decimal_literal(s) {
        match literal_units(split_literal(s)) {
            Some(units) => Some(Decimal { units: units as i128 }),
            None => None,
        }
    } else {
        None
    }
}

/// Whether `c` marks an exponent: the letter `e`, small or capital.
pub open spec fn is_exponent_mark(c: char) -> bool {
    c == 'e' || c == 'E'
}

/// The position of the first exponent mark in `s`, or the length of `s`
/// where it has none.
pub open spec fn mark_position(s: Seq<char>) -> nat
    decreases s.len(),
{
    if s.len() == 0 || is_exponent_mark(s.first()) {
        0
    } else {
        1 + mark_position(s.drop_first())
    }
}

/// The digits of an exponent: what follows its sign.
pub open spec fn exponent_digits(x: Seq<char>) -> Seq<char> {
    if has_sign(x) {
        x.drop_first()
    } else {
        x
    }
}

/// Whether `x` is an exponent: an optional sign and at least one digit.
pub open spec fn is_exponent(x: Seq<char>) -> bool {
    exponent_digits(x).len() > 0 && all_digits(exponent_digits(x))
}

/// The whole number that the exponent `x` writes.
pub open spec fn exponent_value(x: Seq<char>) -> int {
    if has_sign(x) && x[0] == '-' {
        -(number_of(exponent_digits(x)) as int)
    } else {
        number_of(exponent_digits(x)) as int
    }
}

/// The units of the literal `l` times ten to the power `exponent`, where
/// a `Decimal` can hold that number: every digit other than zero stands
/// at one of the thirty-six places of a decimal. The last digit of the
/// whole part stands `exponent` places above the ones.
pub open spec fn scaled_units(l: Literal, exponent: int) -> Option<int> {
    let digits = l.whole + l.fraction;
    let top = l.whole.len() - 1 + exponent + FRACTION_DIGITS;
    if digits_fit(digits, top) {
        let magnitude = digits_units(digits, top) as int;
        Some(if l.negative { -magnitude } else { magnitude })
    } else {
        None
    }
}

/// The decimal that the literal `mantissa` with the exponent `exponent`
/// denotes: `None` where either is malformed or a `Decimal` cannot hold
/// the number.
pub open spec fn scaled_decimal(mantissa: Seq<char>, exponent: Seq<char>) -> Option<Decimal> {
    if is_decimal_literal(mantissa) && is_exponent(exponent) {
        match scaled_units(split_literal(mantissa), exponent_value(exponent)) {
            Some(units) => Some(Decimal { units: units as i128 }),
            None => None,
        }
    } else {
        None
    }
}

/// The decimal that the text `s` denotes: a decimal literal, optionally
/// followed by an exponent mark and an exponent, as in `1.5`, `-2e3` or
/// `25E-1`. `None` where `s` has another form or denotes a number that a
/// `Decimal` cannot hold.
pub open spec fn decimal_of_text(s: Seq<char>) -> Option<Decimal> {
    let p = mark_position(s) as int;
    if p == s.len() {
        plain_decimal(s)
    } else {
        scaled_decimal(s.take(p), s.skip(p + 1))
    }
}

/// The text of the decimal of `units` units: a minus sign where it is
/// negative, the whole part, and, where the fraction is not zero, a point
/// and the fraction digits up to the last that is not a zero.
pub open spec fn decimal_text(units: int) -> Seq<char> {
    let magnitude = if units < 0 { -units } else { units };
    let sign = if units < 0 { seq!['-'] } else { Seq::<char>::empty() };
    let whole = digits_of((magnitude / UNIT as int) as nat);
    let fraction = (magnitude % UNIT as int) as nat;
    if fraction == 0 {
        sign + whole
    } else {
        sign + whole + seq!['.'] + without_trailing_zeros(
            padded_digits(fraction, FRACTION_DIGITS as nat),
        )
    }
}

/// An exact decimal number, held as a count of units of 10^-18.
#[derive(Clone, Copy, Debug, PartialEq, Eq, Structural)]
pub struct Decimal {
    pub units: i128,
}

/// The bound on the units of a decimal: 10^36, strict on both sides.
pub const UNITS_LIMIT: i128 = 1_000_000_000_000_000_000_000_000_000_000_000_000;

impl Decimal {
    /// Whether the decimal is in range: below 10^18 in magnitude.
    pub open spec fn wf(self) -> bool {
        -UNITS_LIMIT < self.units < UNITS_LIMIT
    }

    /// The greatest whole number that is not above the decimal.
    pub open spec fn spec_floor(self) -> int {
        self.units as int / UNIT as int
    }

    /// The text of the decimal.
    pub open spec fn text(self) -> Seq<char> {
        decimal_text(self.units as int)
    }
}

/// Ten to the eighteenth power is the unit, and the powers of ten grow.
pub proof fn lemma_pow10_bounds(n: nat)
    ensures
        pow10(n) >= 1,
        pow10(18) == UNIT,
        n <= 18 ==> pow10(n) <= UNIT,
    decreases 18 - n,
{
    reveal_with_fuel(pow10, 19);
    if n < 18 {
        lemma_pow10_bounds(n + 1);
    } else if n > 18 {
        lemma_pow10_positive(n);
    }
}

/// The first decimal point of `s` stands at `point_position(s)`, and no
/// point stands before it.
pub proof fn lemma_point_position(s: Seq<char>)
    ensures
        point_position(s) <= s.len(),
        forall|i: int| 0 <= i < point_position(s) ==> #[trigger] s[i] != '.',
        point_position(s) < s.len() ==> s[point_position(s) as int] == '.',
    decreases s.len(),
{
    if s.len() == 0 || s.first() == '.' {
    } else {
        let r = s.drop_first();
        lemma_point_position(r);
        assert forall|i: int| 0 <= i < point_position(s) implies #[trigger] s[i] != '.' by {
            if i > 0 {
                assert(s[i] == r[i - 1]);
            }
        }
    }
}

/// The first exponent mark of `s` stands at `mark_position(s)`, and no
/// mark stands before it.
pub proof fn lemma_mark_position(s: Seq<char>)
    ensures
        mark_position(s) <= s.len(),
        forall|i: int| 0 <= i < mark_position(s) ==> !is_exponent_mark(#[trigger] s[i]),
        mark_position(s) < s.len() ==> is_exponent_mark(s[mark_position(s) as int]),
    decreases s.len(),
{
    if s.len() == 0 || is_exponent_mark(s.first()) {
    } else {
        let r = s.drop_first();
        lemma_mark_position(r);
        assert forall|i: int| 0 <= i < mark_position(s) implies !is_exponent_mark(
            #[trigger] s[i],
        ) by {
            if i > 0 {
                assert(s[i] == r[i - 1]);
            }
        }
    }
}

/// A text without an exponent mark denotes what it denotes as a plain
/// literal.
pub proof fn lemma_no_mark(s: Seq<char>)
    requires
        forall|i: int| 0 <= i < s.len() ==> !is_exponent_mark(#[trigger] s[i]),
    ensures
        mark_position(s) == s.len(),
        decimal_of_text(s) == plain_decimal(s),
{
    lemma_mark_position(s);
}

/// A literal with the exponent zero denotes what it denotes without an
/// exponent: the two ways of reading a number agree.
pub proof fn lemma_exponent_zero(l: Literal)
    requires
        all_digits(l.whole),
        all_digits(l.fraction),
    ensures
        scaled_units(l, 0) == literal_units(l),
{
    let whole = l.whole;
    let fraction = l.fraction;
    let digits = whole + fraction;
    let top: int = whole.len() as int + 17;
    lemma_pow10_bounds(0);
    lemma_places_limit();
    lemma_digits_units_concat(whole, fraction, top);
    lemma_digits_units_number(whole, 18);
    assert(digits_units(whole, top) == number_of(whole) * UNIT);
    if fraction.len() <= FRACTION_DIGITS {
        lemma_digits_units_number(fraction, (18 - fraction.len()) as nat);
    } else {
        let head = fraction.take(18);
        assert(all_digits(head)) by {
            assert forall|i: int| 0 <= i < head.len() implies is_digit(#[trigger] head[i]) by {
                assert(head[i] == fraction[i]);
            }
        }
        lemma_digits_units_below(fraction, 17, 18);
        lemma_digits_units_number(head, 0);
        assert(pow10(0) == 1);
        assert(number_of(head) * 1 == number_of(head));
    }
    assert(digits_units(fraction, 17) == fraction_units(fraction));
    assert(digits_fit(fraction, 17) == fraction_fits(fraction)) by {
        if fraction_fits(fraction) {
            assert forall|j: int| 0 <= j < fraction.len() implies place_fits(
                #[trigger] fraction[j],
                17 - j,
            ) by {}
        }
        if digits_fit(fraction, 17) {
            assert forall|j: int| FRACTION_DIGITS <= j < fraction.len() implies #[trigger] fraction[j]
                == '0' by {
                assert(place_fits(fraction[j], 17 - j));
            }
        }
    }
    assert(digits_fit(whole, top) == (number_of(whole) < UNIT)) by {
        if digits_fit(whole, top) {
            lemma_digits_units_bound(whole, top);
            assert(number_of(whole) < UNIT) by (nonlinear_arith)
                requires
                    number_of(whole) * UNIT < PLACES_LIMIT,
                    UNIT == 1_000_000_000_000_000_000,
                    PLACES_LIMIT == 1_000_000_000_000_000_000_000_000_000_000_000_000,
            ;
        } else {
            let i = choose|i: int| 0 <= i < whole.len() && !place_fits(#[trigger] whole[i], top - i);
            let weight = top - i;
            assert(is_digit(whole[i]));
            assert(weight >= PLACES);
            lemma_digits_units_term(whole, top, i);
            lemma_pow10_grows(PLACES as nat, weight as nat);
            let d = digit_value(whole[i]);
            assert(d * pow10(weight as nat) >= pow10(weight as nat)) by (nonlinear_arith)
                requires
                    d >= 1,
            ;
            assert(number_of(whole) >= UNIT) by (nonlinear_arith)
                requires
                    number_of(whole) * UNIT >= PLACES_LIMIT,
                    UNIT == 1_000_000_000_000_000_000,
                    PLACES_LIMIT == 1_000_000_000_000_000_000_000_000_000_000_000_000,
            ;
        }
    }
    assert(digits_fit(digits, top) == (digits_fit(whole, top) && digits_fit(fraction, 17))) by {
        if digits_fit(digits, top) {
            assert forall|i: int| 0 <= i < whole.len() implies place_fits(
                #[trigger] whole[i],
                top - i,
            ) by {
                assert(digits[i] == whole[i]);
            }
            assert forall|j: int| 0 <= j < fraction.len() implies place_fits(
                #[trigger] fraction[j],
                17 - j,
            ) by {
                assert(digits[whole.len() + j] == fraction[j]);
            }
        }
        if digits_fit(whole, top) && digits_fit(fraction, 17) {
            assert forall|k: int| 0 <= k < digits.len() implies place_fits(
                #[trigger] digits[k],
                top - k,
            ) by {
                if k < whole.len() {
                    assert(digits[k] == whole[k]);
                } else {
                    assert(digits[k] == fraction[k - whole.len()]);
                }
            }
        }
    }
}

/// A text without an exponent denotes the same number with `e0` written
/// behind it.
pub proof fn lemma_exponent_zero_text(s: Seq<char>)
    requires
        forall|i: int| 0 <= i < s.len() ==> !is_exponent_mark(#[trigger] s[i]),
    ensures
        decimal_of_text(s + seq!['e', '0']) == decimal_of_text(s),
{
    let t = s + seq!['e', '0'];
    let x = seq!['0'];
    lemma_no_mark(s);
    lemma_mark_position(t);
    let q = mark_position(t) as int;
    assert(q == s.len()) by {
        if q < s.len() {
            assert(t[q] == s[q]);
        } else if q > s.len() {
            assert(t[s.len() as int] == 'e');
        }
    }
    assert(t.take(q) == s);
    assert(t.skip(q + 1) == x);
    assert(exponent_digits(x) == x);
    assert(is_digit(x[0]));
    assert(x.drop_last() == Seq::<char>::empty());
    assert(number_of(x.drop_last()) == 0);
    assert(exponent_value(x) == 0);
    if is_decimal_literal(s) {
        lemma_exponent_zero(split_literal(s));
    }
}

/// A point position is determined by what stands before and at it.
pub proof fn lemma_point_position_is(s: Seq<char>, p: int)
    requires
        0 <= p <= s.len(),
        forall|i: int| 0 <= i < p ==> #[trigger] s[i] != '.',
        p < s.len() ==> s[p] == '.',
    ensures
        point_position(s) == p,
{
    lemma_point_position(s);
    let q = point_position(s) as int;
    if q < p {
        assert(s[q] == '.');
    } else if q > p {
        assert(s[p] != '.');
    }
}

/// The text made of an optional minus sign, the digits `whole`, and
/// optionally a point with the digits `fraction`.
pub open spec fn literal_text(negative: bool, whole: Seq<char>, point: bool, fraction: Seq<char>) -> Seq<
    char,
> {
    let sign = if negative { seq!['-'] } else { Seq::<char>::empty() };
    let tail = if point { seq!['.'] + fraction } else { Seq::<char>::empty() };
    sign + whole + tail
}

/// A text built from a sign, digits and fraction digits is a decimal
/// literal, and splits into the parts it was built from.
pub proof fn lemma_literal_text(negative: bool, whole: Seq<char>, point: bool, fraction: Seq<char>)
    requires
        all_digits(whole),
        all_digits(fraction),
        whole.len() > 0,
        !point ==> fraction.len() == 0,
    ensures
        is_decimal_literal(literal_text(negative, whole, point, fraction)),
        split_literal(literal_text(negative, whole, point, fraction)) == (Literal {
            negative,
            whole,
            fraction,
        }),
        decimal_of_text(literal_text(negative, whole, point, fraction)) == plain_decimal(
            literal_text(negative, whole, point, fraction),
        ),
{
    let t = literal_text(negative, whole, point, fraction);
    assert forall|i: int| 0 <= i < t.len() implies !is_exponent_mark(#[trigger] t[i]) by {
        let sign = if negative { seq!['-'] } else { Seq::<char>::empty() };
        let j = i - sign.len();
        if j >= 0 && j < whole.len() {
            assert(t[i] == whole[j]);
            assert(is_digit(whole[j]));
        } else if j > whole.len() {
            assert(t[i] == fraction[j - whole.len() - 1]);
            assert(is_digit(fraction[j - whole.len() - 1]));
        }
    }
    lemma_no_mark(t);
    let sign = if negative { seq!['-'] } else { Seq::<char>::empty() };
    let tail = if point { seq!['.'] + fraction } else { Seq::<char>::empty() };
    let body = whole + tail;
    assert(t == sign + body);
    assert(is_digit(whole[0]));
    assert(body[0] == whole[0]);
    if negative {
        assert(t[0] == '-');
        assert(t.drop_first() == body);
    } else {
        assert(t == body);
    }
    let lit = split_literal(t);
    assert forall|i: int| 0 <= i < whole.len() implies #[trigger] body[i] != '.' by {
        assert(body[i] == whole[i]);
        assert(is_digit(whole[i]));
    }
    lemma_point_position_is(body, whole.len() as int);
    assert(lit.whole == whole);
    if point {
        assert(body.skip(whole.len() as int + 1) == fraction);
    }
    assert(lit.fraction == fraction);
}

/// Reading the text of a decimal gives the decimal back.
pub proof fn lemma_text_round_trip(d: Decimal)
    requires
        d.wf(),
    ensures
        decimal_of_text(d.text()) == Some(d),
{
    let units = d.units as int;
    let magnitude = if units < 0 { -units } else { units };
    let w = (magnitude / UNIT as int) as nat;
    let f = (magnitude % UNIT as int) as nat;
    let wd = digits_of(w);
    let pf = padded_digits(f, 18);
    let g = without_trailing_zeros(pf);
    lemma_digits_of(w);
    lemma_padded_digits(f, 18);
    lemma_without_trailing_zeros(pf);
    lemma_pow10_bounds((pf.len() - g.len()) as nat);
    let fraction = if f == 0 { Seq::<char>::empty() } else { g };
    lemma_literal_text(units < 0, wd, f != 0, fraction);
    assert(d.text() == literal_text(units < 0, wd, f != 0, fraction));
    if f == 0 {
        assert(number_of(fraction) == 0);
        assert(fraction_units(fraction) == 0) by (nonlinear_arith)
            requires
                number_of(fraction) == 0,
                fraction_units(fraction) == number_of(fraction) * pow10(18),
        ;
    } else {
        assert(pow10(18) == UNIT);
        assert(number_of(pf) == f % pow10(18));
        assert(f % (UNIT as nat) == f);
        assert(fraction_units(g) == number_of(g) * pow10((18 - g.len()) as nat));
    }
    assert(fraction_units(fraction) == f);
    assert(number_of(wd) * UNIT + f == magnitude);
}

/// The text of a decimal holds digits, at most one point and at most one
/// minus sign, and nothing else.
pub proof fn lemma_text_characters(d: Decimal)
    requires
        d.wf(),
    ensures
        d.text().len() > 0,
        forall|i: int|
            0 <= i < d.text().len() ==> is_digit(#[trigger] d.text()[i]) || d.text()[i] == '.'
                || d.text()[i] == '-',
        is_digit(d.text().first()) || d.text().first() == '-',
        is_digit(d.text().last()),
{
    let units = d.units as int;
    let magnitude = if units < 0 { -units } else { units };
    let w = (magnitude / UNIT as int) as nat;
    let f = (magnitude % UNIT as int) as nat;
    let wd = digits_of(w);
    let pf = padded_digits(f, 18);
    let g = without_trailing_zeros(pf);
    lemma_digits_of(w);
    lemma_padded_digits(f, 18);
    lemma_without_trailing_zeros(pf);
    let sign = if units < 0 { seq!['-'] } else { Seq::<char>::empty() };
    let t = d.text();
    assert(is_digit(wd[0]));
    assert(is_digit(wd[wd.len() - 1]));
    if f == 0 {
        assert(t == sign + wd);
        assert forall|i: int| 0 <= i < t.len() implies is_digit(#[trigger] t[i]) || t[i] == '.'
            || t[i] == '-' by {
            if i >= sign.len() {
                assert(t[i] == wd[i - sign.len()]);
            }
        }
        assert(t.last() == wd.last());
    } else {
        assert(g.len() > 0) by {
            if g.len() == 0 {
                assert(number_of(g) == 0);
                assert(number_of(g) * pow10((pf.len() - g.len()) as nat) == 0) by (nonlinear_arith)
                    requires
                        number_of(g) == 0,
                ;
                lemma_pow10_bounds(18);
                assert(number_of(pf) == f % pow10(18));
                assert(f % (UNIT as nat) == f);
            }
        }
        assert(is_digit(g[g.len() - 1]));
        assert(t == sign + wd + seq!['.'] + g);
        assert forall|i: int| 0 <= i < t.len() implies is_digit(#[trigger] t[i]) || t[i] == '.'
            || t[i] == '-' by {
            if i >= sign.len() + wd.len() + 1 {
                assert(t[i] == g[i - sign.len() - wd.len() - 1]);
            } else if i >= sign.len() && i < sign.len() + wd.len() {
                assert(t[i] == wd[i - sign.len()]);
            }
        }
        assert(t.last() == g.last());
    }
    if units < 0 {
        assert(t.first() == '-');
    } else {
        assert(t.first() == wd[0]);
    }
}

/// Rounding down gives the greatest whole number that is not above the
/// decimal: for a negative decimal with a fraction that is the next whole
/// number away from zero.
pub proof fn lemma_floor_bounds(d: Decimal)
    ensures
        d.spec_floor() * UNIT <= d.units < (d.spec_floor() + 1) * UNIT,
{
    vstd::arithmetic::div_mod::lemma_fundamental_div_mod(d.units as int, UNIT as int);
    vstd::arithmetic::div_mod::lemma_mod_bound(d.units as int, UNIT as int);
}

/// A whole number is written as the decimal of the same value is.
pub proof fn lemma_integer_text(n: int)
    ensures
        integer_text(n) == decimal_text(n * UNIT),
{
    let units = n * UNIT;
    let magnitude = if units < 0 { -units } else { units };
    let m = if n < 0 { -n } else { n };
    assert(magnitude == m * UNIT);
    vstd::arithmetic::div_mod::lemma_fundamental_div_mod_converse(magnitude, UNIT as int, m, 0);
    if n < 0 {
    } else {
        assert(Seq::<char>::empty() + digits_of(m as nat) == digits_of(m as nat));
    }
}

/// The index of the first character at or after `start` that is no digit,
/// or the length of `v`.
fn digits_end(v: &Vec<char>, start: usize) -> (end: usize)
    requires
        start <= v.len(),
    ensures
        start <= end <= v.len(),
        all_digits(v@.subrange(start as int, end as int)),
        end < v.len() ==> !is_digit(v@[end as int]),
{
    let mut end: usize = start;
    while end < v.len() && is_digit_char(v[end])
        invariant
            start <= end <= v.len(),
            all_digits(v@.subrange(start as int, end as int)),
        decreases v.len() - end,
    {
        end += 1;
        assert forall|i: int| 0 <= i < end - start implies is_digit(
            #[trigger] v@.subrange(start as int, end as int)[i],
        ) by {
            if i < end - start - 1 {
                assert(v@.subrange(start as int, end as int)[i] == v@.subrange(
                    start as int,
                    end - 1,
                )[i]);
            }
        }
    }
    end
}

/// The number written by the digits `v[lo..hi]`, where it is below 10^18.
fn whole_units(v: &Vec<char>, lo: usize, hi: usize) -> (r: Option<u128>)
    requires
        lo <= hi <= v.len(),
        all_digits(v@.subrange(lo as int, hi as int)),
    ensures
        match r {
            Some(n) => n == number_of(v@.subrange(lo as int, hi as int)) && n < UNIT,
            None => number_of(v@.subrange(lo as int, hi as int)) >= UNIT,
        },
{
    let ghost s = v@.subrange(lo as int, hi as int);
    let mut acc: u128 = 0;
    let mut i: usize = lo;
    assert(s.take(0) == Seq::<char>::empty());
    while i < hi
        invariant
            lo <= i <= hi <= v.len(),
            s == v@.subrange(lo as int, hi as int),
            all_digits(s),
            acc == number_of(s.take(i - lo)),
            acc < UNIT,
        decreases hi - i,
    {
        let c = v[i];
        assert(c == s[i - lo]);
        assert(is_digit(c));
        let d: u128 = (c as u32 - 0x30) as u128;
        proof {
            assert(s.take(i - lo + 1) == s.take(i - lo).push(c));
            lemma_number_of_push(s.take(i - lo), c);
        }
        acc = acc * 10 + d;
        i += 1;
        if acc >= UNIT {
            proof {
                lemma_number_of_prefix(s, i - lo);
            }
            return None;
        }
    }
    assert(s.take(hi - lo) == s);
    Some(acc)
}

/// The units that the fraction digits `v[lo..hi]` stand for, where they
/// fit.
fn fraction_part(v: &Vec<char>, lo: usize, hi: usize) -> (r: Option<u128>)
    requires
        lo <= hi <= v.len(),
        all_digits(v@.subrange(lo as int, hi as int)),
    ensures
        match r {
            Some(n) => fraction_fits(v@.subrange(lo as int, hi as int)) && n == fraction_units(
                v@.subrange(lo as int, hi as int),
            ) && n < UNIT,
            None => !fraction_fits(v@.subrange(lo as int, hi as int)),
        },
{
    let ghost s = v@.subrange(lo as int, hi as int);
    let len: usize = hi - lo;
    let mut acc: u128 = 0;
    let mut k: usize = 0;
    assert(s.take(0) == Seq::<char>::empty());
    proof {
        lemma_pow10_bounds(0);
    }
    while k < FRACTION_DIGITS
        invariant
            lo <= hi <= v.len(),
            len == hi - lo,
            s == v@.subrange(lo as int, hi as int),
            all_digits(s),
            k <= FRACTION_DIGITS,
            k <= len ==> acc == number_of(s.take(k as int)),
            k > len ==> acc == number_of(s) * pow10((k - len) as nat),
            acc < pow10(k as nat),
        decreases FRACTION_DIGITS - k,
    {
        proof {
            lemma_pow10_bounds(k as nat);
            lemma_pow10_bounds((k + 1) as nat);
        }
        if k < len {
            let c = v[lo + k];
            assert(c == s[k as int]);
            assert(is_digit(c));
            let d: u128 = (c as u32 - 0x30) as u128;
            proof {
                assert(s.take(k + 1) == s.take(k as int).push(c));
                lemma_number_of_push(s.take(k as int), c);
            }
            acc = acc * 10 + d;
        } else {
            proof {
                if k == len {
                    assert(s.take(k as int) == s);
                }
                assert(pow10((k + 1 - len) as nat) == 10 * pow10((k - len) as nat));
                assert(number_of(s) * pow10((k + 1 - len) as nat) == 10 * (number_of(s) * pow10(
                    (k - len) as nat,
                ))) by (nonlinear_arith)
                    requires
                        pow10((k + 1 - len) as nat) == 10 * pow10((k - len) as nat),
                ;
            }
            acc = acc * 10;
        }
        k += 1;
    }
    proof {
        lemma_pow10_bounds(18);
        if len == FRACTION_DIGITS {
            assert(s.take(len as int) == s);
            assert(pow10(0) == 1);
            assert(number_of(s) * 1 == number_of(s));
            assert(acc == fraction_units(s));
        } else if len < FRACTION_DIGITS {
            assert(acc == number_of(s) * pow10((FRACTION_DIGITS - len) as nat));
            assert(acc == fraction_units(s));
        } else {
            assert(acc == number_of(s.take(FRACTION_DIGITS as int)));
            assert(acc == fraction_units(s));
        }
    }
    assert(acc < UNIT);
    let mut j: usize = if len > FRACTION_DIGITS { lo + FRACTION_DIGITS } else { hi };
    while j < hi
        invariant
            lo <= j <= hi <= v.len(),
            len == hi - lo,
            j >= lo + FRACTION_DIGITS || j == hi,
            s == v@.subrange(lo as int, hi as int),
            forall|i: int| FRACTION_DIGITS <= i < j - lo ==> #[trigger] s[i] == '0',
        decreases hi - j,
    {
        if v[j] != '0' {
            assert(s[j - lo] != '0');
            return None;
        }
        j += 1;
    }
    assert(fraction_fits(s));
    Some(acc)
}

impl Decimal {
    /// The decimal zero.
    pub fn zero() -> (d: Decimal)
        ensures
            d.units == 0,
            d.wf(),
    {
        Decimal { units: 0 }
    }

    /// Reads a decimal literal from text, as [`Decimal::from_chars`] does.
    pub fn from_text(s: &str) -> (r: Option<Decimal>)
        ensures
            r == decimal_of_text(s@),
            r matches Some(d) ==> d.wf(),
    {
        Decimal::from_chars(&chars_of(s))
    }

    /// The greatest whole number that is not above the decimal.
    pub fn floor(&self) -> (r: i64)
        requires
            self.wf(),
        ensures
            r == self.spec_floor(),
    {
        if self.units >= 0 {
            let m: u128 = self.units as u128;
            (m / UNIT) as i64
        } else {
            let m: u128 = (-self.units) as u128;
            let q: i64 = (m / UNIT) as i64;
            if m % UNIT == 0 {
                -q
            } else {
                -q - 1
            }
        }
    }

    /// The characters of the decimal's text.
    pub fn to_chars(&self) -> (out: Vec<char>)
        ensures
            out@ == self.text(),
    {
        let mut out: Vec<char> = Vec::new();
        let m: u128 = if self.units < 0 {
            out.push('-');
            (-(self.units + 1)) as u128 + 1
        } else {
            self.units as u128
        };
        push_digits(m / UNIT, &mut out);
        let f: u128 = m % UNIT;
        if f != 0 {
            out.push('.');
            let ghost head = out@;
            push_padded(f, FRACTION_DIGITS, &mut out);
            let ghost digits = padded_digits(f as nat, FRACTION_DIGITS as nat);
            let ghost mut k: int = digits.len() as int;
            assert(digits.take(k) == digits);
            while out.len() > 0 && out[out.len() - 1] == '0'
                invariant
                    head.len() > 0,
                    head.last() == '.',
                    0 <= k <= digits.len(),
                    out@ == head + digits.take(k),
                    without_trailing_zeros(digits) == without_trailing_zeros(digits.take(k)),
                decreases out.len(),
            {
                assert(k > 0) by {
                    if k == 0 {
                        assert(out@.last() == head.last());
                    }
                }
                assert(out@.last() == digits.take(k).last());
                assert(digits.take(k).drop_last() == digits.take(k - 1));
                out.pop();
                proof {
                    k = k - 1;
                }
                assert(out@ == head + digits.take(k));
            }
            proof {
                if k > 0 {
                    assert(out@.last() == digits.take(k).last());
                }
                assert(without_trailing_zeros(digits.take(k)) == digits.take(k));
                let sign = if self.units < 0 { seq!['-'] } else { Seq::<char>::empty() };
                assert(head == sign + digits_of((m / UNIT) as nat) + seq!['.']);
            }
        } else {
            proof {
                let sign = if self.units < 0 { seq!['-'] } else { Seq::<char>::empty() };
                assert(out@ == sign + digits_of((m / UNIT) as nat));
            }
        }
        out
    }

    /// The decimal's text.
    pub fn to_text(&self) -> (s: String)
        ensures
            s@ == self.text(),
    {
        string_of(&self.to_chars())
    }

    /// Reads a decimal: the number that `v` denotes, or `None` where `v`
    /// has another form or its number is out of range.
    pub fn from_chars(v: &Vec<char>) -> (r: Option<Decimal>)
        ensures
            r == decimal_of_text(v@),
            r matches Some(d) ==> d.wf(),
    {
        let p = mark_index(v);
        if p == v.len() {
            plain_from_chars(v)
        } else {
            let mantissa = chars_between(v, 0, p);
            let exponent = chars_between(v, p + 1, v.len());
            assert(v@.take(p as int) == v@.subrange(0, p as int));
            assert(v@.skip(p + 1) == v@.subrange(p + 1, v.len() as int));
            scaled_from_chars(&mantissa, &exponent)
        }
    }
}

/// Where the parts of a decimal literal stand in its text.
struct LiteralBounds {
    negative: bool,
    start: usize,
    whole_end: usize,
    fraction_start: usize,
}

/// Whether `b` gives the places of the parts of the literal `s`: the whole
/// part from `start` up to `whole_end`, the fraction from
/// `fraction_start` to the end.
spec fn bounds_of(b: LiteralBounds, s: Seq<char>) -> bool {
    let lit = split_literal(s);
    &&& b.start <= b.whole_end <= b.fraction_start <= s.len()
    &&& lit.negative == b.negative
    &&& lit.whole == s.subrange(b.start as int, b.whole_end as int)
    &&& lit.fraction == s.subrange(b.fraction_start as int, s.len() as int)
    &&& all_digits(lit.whole)
    &&& all_digits(lit.fraction)
}

/// Finds the parts of a decimal literal; `None` where `v` is none.
fn scan_literal(v: &Vec<char>) -> (r: Option<LiteralBounds>)
    ensures
        r is Some <==> is_decimal_literal(v@),
        r matches Some(b) ==> bounds_of(b, v@),
{
    let ghost lit = split_literal(v@);
    let signed = v.len() > 0 && (v[0] == '-' || v[0] == '+');
    let negative = signed && v[0] == '-';
    let start: usize = if signed { 1 } else { 0 };
    let ghost body = v@.skip(start as int);
    assert(body == if has_sign(v@) { v@.drop_first() } else { v@ });
    proof {
        lemma_point_position(body);
    }
    let ghost p = point_position(body) as int;
    let whole_end = digits_end(v, start);
    assert forall|i: int| 0 <= i < whole_end - start implies #[trigger] body[i] != '.' by {
        assert(is_digit(v@.subrange(start as int, whole_end as int)[i]));
    }
    if whole_end < v.len() && v[whole_end] != '.' {
        proof {
            assert(body[whole_end - start] == v@[whole_end as int]);
            assert(p > whole_end - start);
            assert(lit.whole[whole_end - start] == v@[whole_end as int]);
        }
        return None;
    }
    assert(p == whole_end - start) by {
        if whole_end < v.len() {
            assert(body[whole_end - start] == '.');
        }
    }
    assert(lit.whole == v@.subrange(start as int, whole_end as int));
    let fraction_start: usize = if whole_end < v.len() { whole_end + 1 } else { whole_end };
    let fraction_end = digits_end(v, fraction_start);
    assert(lit.fraction == v@.subrange(fraction_start as int, v.len() as int));
    if fraction_end < v.len() {
        assert(lit.fraction[fraction_end - fraction_start] == v@[fraction_end as int]);
        return None;
    }
    if (whole_end - start) + (fraction_end - fraction_start) == 0 {
        return None;
    }
    Some(LiteralBounds { negative, start, whole_end, fraction_start })
}

/// Reads a decimal literal without an exponent.
fn plain_from_chars(v: &Vec<char>) -> (r: Option<Decimal>)
    ensures
        r == plain_decimal(v@),
        r matches Some(d) ==> d.wf(),
{
    let b = match scan_literal(v) {
        Some(b) => b,
        None => { return None; },
    };
    let whole = match whole_units(v, b.start, b.whole_end) {
        Some(n) => n,
        None => { return None; },
    };
    let fraction = match fraction_part(v, b.fraction_start, v.len()) {
        Some(n) => n,
        None => { return None; },
    };
    let magnitude: u128 = whole * UNIT + fraction;
    let units: i128 = if b.negative { -(magnitude as i128) } else { magnitude as i128 };
    Some(Decimal { units })
}

/// The index of the first exponent mark of `v`, or its length.
fn mark_index(v: &Vec<char>) -> (p: usize)
    ensures
        p == mark_position(v@),
        p <= v.len(),
{
    let mut p: usize = 0;
    while p < v.len() && v[p] != 'e' && v[p] != 'E'
        invariant
            p <= v.len(),
            forall|i: int| 0 <= i < p ==> !is_exponent_mark(#[trigger] v@[i]),
        decreases v.len() - p,
    {
        p += 1;
    }
    proof {
        lemma_mark_position(v@);
        let q = mark_position(v@) as int;
        if q < p {
            assert(is_exponent_mark(v@[q]));
        } else if q > p {
            assert(!is_exponent_mark(v@[p as int]));
        }
    }
    p
}

/// The bound from which on an exponent is too great for any digit other
/// than zero to stand at a place of a decimal.
pub const EXPONENT_LIMIT: u128 = 10_000_000_000_000_000_000_000_000;

/// An exponent as it was read: its sign, and its magnitude where that is
/// below `EXPONENT_LIMIT`.
struct Exponent {
    negative: bool,
    magnitude: u128,
    beyond: bool,
}

/// Whether `e` is what the exponent `x` writes.
spec fn exponent_of(e: Exponent, x: Seq<char>) -> bool {
    &&& e.negative == (has_sign(x) && x[0] == '-')
    &&& !e.beyond ==> e.magnitude == number_of(exponent_digits(x)) && e.magnitude < EXPONENT_LIMIT
    &&& e.beyond ==> number_of(exponent_digits(x)) >= EXPONENT_LIMIT
}

/// Reads an exponent; `None` where `x` is none.
fn read_exponent(x: &Vec<char>) -> (r: Option<Exponent>)
    ensures
        r is Some <==> is_exponent(x@),
        r matches Some(e) ==> exponent_of(e, x@),
{
    let signed = x.len() > 0 && (x[0] == '-' || x[0] == '+');
    let negative = signed && x[0] == '-';
    let start: usize = if signed { 1 } else { 0 };
    let ghost digits = exponent_digits(x@);
    assert(digits == x@.subrange(start as int, x.len() as int));
    let end = digits_end(x, start);
    if end < x.len() {
        assert(digits[end - start] == x@[end as int]);
        return None;
    }
    if end == start {
        return None;
    }
    let mut magnitude: u128 = 0;
    let mut beyond = false;
    let mut i: usize = start;
    assert(digits.take(0) == Seq::<char>::empty());
    while i < end
        invariant
            start <= i <= end,
            end == x.len(),
            digits == x@.subrange(start as int, x.len() as int),
            all_digits(digits),
            !beyond ==> magnitude == number_of(digits.take(i - start)) && magnitude
                < EXPONENT_LIMIT,
            beyond ==> number_of(digits) >= EXPONENT_LIMIT,
        decreases end - i,
    {
        if !beyond {
            let c = x[i];
            assert(c == digits[i - start]);
            assert(is_digit(c));
            let d: u128 = (c as u32 - 0x30) as u128;
            proof {
                assert(digits.take(i - start + 1) == digits.take(i - start).push(c));
                lemma_number_of_push(digits.take(i - start), c);
            }
            magnitude = magnitude * 10 + d;
            if magnitude >= EXPONENT_LIMIT {
                beyond = true;
                proof {
                    lemma_number_of_prefix(digits, i - start + 1);
                }
            }
        }
        i += 1;
    }
    assert(digits.take(end - start) == digits);
    Some(Exponent { negative, magnitude, beyond })
}

/// Reads a decimal literal with an exponent.
fn scaled_from_chars(mantissa: &Vec<char>, exponent: &Vec<char>) -> (r: Option<Decimal>)
    ensures
        r == scaled_decimal(mantissa@, exponent@),
        r matches Some(d) ==> d.wf(),
{
    let b = match scan_literal(mantissa) {
        Some(b) => b,
        None => { return None; },
    };
    let e = match read_exponent(exponent) {
        Some(e) => e,
        None => { return None; },
    };
    let ghost lit = split_literal(mantissa@);
    let ghost power = exponent_value(exponent@);
    let ghost top = lit.whole.len() - 1 + power + FRACTION_DIGITS;
    let mut digits = chars_between(mantissa, b.start, b.whole_end);
    let mut fraction = chars_between(mantissa, b.fraction_start, mantissa.len());
    digits.append(&mut fraction);
    assert(digits@ == lit.whole + lit.fraction);
    assert(all_digits(digits@)) by {
        assert forall|i: int| 0 <= i < digits@.len() implies is_digit(#[trigger] digits@[i]) by {
            if i < lit.whole.len() {
                assert(digits@[i] == lit.whole[i]);
            } else {
                assert(digits@[i] == lit.fraction[i - lit.whole.len()]);
            }
        }
    }
    if e.beyond {
        let mut k: usize = 0;
        while k < digits.len()
            invariant
                k <= digits.len(),
                forall|i: int| 0 <= i < k ==> #[trigger] digits@[i] == '0',
                is_decimal_literal(mantissa@),
                is_exponent(exponent@),
                lit == split_literal(mantissa@),
                digits@ == lit.whole + lit.fraction,
                power >= EXPONENT_LIMIT || power <= -EXPONENT_LIMIT,
                top == lit.whole.len() - 1 + power + FRACTION_DIGITS,
                power == exponent_value(exponent@),
            decreases digits.len() - k,
        {
            if digits[k] != '0' {
                assert(!place_fits(digits@[k as int], top - k));
                assert(!digits_fit(digits@, top));
                return None;
            }
            k += 1;
        }
        proof {
            lemma_zeros_count_nothing(digits@, top);
        }
        return Some(Decimal { units: 0 });
    }
    let shift: i128 = if e.negative { -(e.magnitude as i128) } else { e.magnitude as i128 };
    let first: i128 = (b.whole_end - b.start) as i128 - 1 + shift + FRACTION_DIGITS as i128;
    assert(first == top);
    match positional_units(&digits, first) {
        Some(n) => {
            let units: i128 = if b.negative { -(n as i128) } else { n as i128 };
            Some(Decimal { units })
        },
        None => None,
    }
}

} // verus!
