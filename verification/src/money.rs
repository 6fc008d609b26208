//! Reading an amount of money from a cell.
//!
//! Currency glyphs and thousands separators are removed wherever they
//! stand, the rest is trimmed, and what is left is either nothing, the null
//! marker, a number or something else. A number is read exactly or not at
//! all: it is never rounded to fit.

use vstd::prelude::*;
use crate::decimal::{
    decimal_of_text, fraction_fits, fraction_units, lemma_integer_text, lemma_literal_text,
    lemma_text_characters, lemma_text_round_trip, literal_text, Decimal, UNIT, UNITS_LIMIT,
};
use crate::digits::{all_digits, integer_text, is_digit, number_of};
use crate::text::{
    all_space, chars_of, is_null_marker, is_space, lemma_trimmed_fixed, lemma_trimmed_padded,
    null_marker, trim_chars, trimmed,
};

verus! {

/// What a cell that should hold a number was found to hold.
#[derive(Clone, Copy, Debug, PartialEq, Eq, Structural)]
pub enum ParsedValue {
    /// A number.
    Number(Decimal),
    /// Nothing: the cell is empty or holds the null marker.
    Absent,
    /// Something that is neither missing nor a number.
    Malformed,
}

/// Whether `c` is removed before a number is read: the dollar sign, the
/// pound sign and the comma.
pub open spec fn is_glyph(c: char) -> bool {
    c == '$' || c == '\u{a3}' || c == ','
}

/// `s` without its glyphs, wherever they stand.
pub open spec fn without_glyphs(s: Seq<char>) -> Seq<char>
    decreases s.len(),
{
    if s.len() == 0 {
        s
    } else if is_glyph(s.last()) {
        without_glyphs(s.drop_last())
    } else {
        without_glyphs(s.drop_last()).push(s.last())
    }
}

/// What is left of a cell once glyphs and surrounding white space are gone.
pub open spec fn cleaned(s: Seq<char>) -> Seq<char> {
    trimmed(without_glyphs(s))
}

/// What the cell `s` holds: nothing where the cleaned text is empty or the
/// null marker, otherwise the number it denotes, otherwise malformed.
pub open spec fn money_of_text(s: Seq<char>) -> ParsedValue {
    let c = cleaned(s);
    if c.len() == 0 || c == null_marker() {
        ParsedValue::Absent
    } else {
        match decimal_of_text(c) {
            Some(d) => ParsedValue::Number(d),
            None => ParsedValue::Malformed,
        }
    }
}

/// Whether every character of `s` is a glyph or white space.
pub open spec fn is_padding(s: Seq<char>) -> bool {
    forall|i: int| 0 <= i < s.len() ==> is_glyph(#[trigger] s[i]) || is_space(s[i])
}

/// Whether no character of `s` is a glyph.
pub open spec fn no_glyph(s: Seq<char>) -> bool {
    forall|i: int| 0 <= i < s.len() ==> !is_glyph(#[trigger] s[i])
}

/// Removing glyphs from two texts put together removes them from each.
pub proof fn lemma_without_glyphs_concat(a: Seq<char>, b: Seq<char>)
    ensures
        without_glyphs(a + b) == without_glyphs(a) + without_glyphs(b),
    decreases b.len(),
{
    if b.len() == 0 {
        assert(a + b == a);
        assert(without_glyphs(a) + without_glyphs(b) == without_glyphs(a));
    } else {
        assert((a + b).drop_last() == a + b.drop_last());
        assert((a + b).last() == b.last());
        lemma_without_glyphs_concat(a, b.drop_last());
        if !is_glyph(b.last()) {
            assert((without_glyphs(a) + without_glyphs(b.drop_last())).push(b.last())
                == without_glyphs(a) + without_glyphs(b.drop_last()).push(b.last()));
        }
    }
}

/// A text without glyphs loses nothing when glyphs are removed.
pub proof fn lemma_without_glyphs_plain(s: Seq<char>)
    requires
        no_glyph(s),
    ensures
        without_glyphs(s) == s,
    decreases s.len(),
{
    if s.len() > 0 {
        let r = s.drop_last();
        assert(no_glyph(r)) by {
            assert forall|i: int| 0 <= i < r.len() implies !is_glyph(#[trigger] r[i]) by {
                assert(r[i] == s[i]);
            }
        }
        lemma_without_glyphs_plain(r);
        assert(!is_glyph(s[s.len() - 1]));
        assert(r.push(s.last()) == s);
    }
}

/// Of a text of glyphs and white space only white space is left when
/// glyphs are removed.
pub proof fn lemma_without_glyphs_padding(s: Seq<char>)
    requires
        is_padding(s),
    ensures
        all_space(without_glyphs(s)),
    decreases s.len(),
{
    if s.len() > 0 {
        let r = s.drop_last();
        assert(is_padding(r)) by {
            assert forall|i: int| 0 <= i < r.len() implies is_glyph(#[trigger] r[i]) || is_space(
                r[i],
            ) by {
                assert(r[i] == s[i]);
            }
        }
        lemma_without_glyphs_padding(r);
        assert(is_glyph(s[s.len() - 1]) || is_space(s[s.len() - 1]));
    }
}

/// An unsigned decimal literal, with glyphs and white space in any number
/// and order before and after it, is never taken for missing. Where a
/// `Decimal` can hold it, it is read as the number that its digits write,
/// exactly; where not, it is malformed.
pub proof fn lemma_amount_in_padding(
    left: Seq<char>,
    whole: Seq<char>,
    fraction: Seq<char>,
    right: Seq<char>,
)
    requires
        is_padding(left),
        is_padding(right),
        all_digits(whole),
        whole.len() > 0,
        all_digits(fraction),
    ensures
        money_of_text(left + literal_text(false, whole, fraction.len() > 0, fraction) + right) == (
        if number_of(whole) < UNIT && fraction_fits(fraction) {
            ParsedValue::Number(
                Decimal { units: (number_of(whole) * UNIT + fraction_units(fraction)) as i128 },
            )
        } else {
            ParsedValue::Malformed
        }),
{
    let point = fraction.len() > 0;
    let core = literal_text(false, whole, point, fraction);
    let tail = if point { seq!['.'] + fraction } else { Seq::<char>::empty() };
    assert(core == whole + tail);
    assert(is_digit(whole[0]));
    assert(is_digit(whole[whole.len() - 1]));
    assert(core.first() == whole[0]);
    if point {
        assert(is_digit(fraction[fraction.len() - 1]));
        assert(core.last() == fraction.last());
    } else {
        assert(core == whole);
    }
    assert(no_glyph(core)) by {
        assert forall|i: int| 0 <= i < core.len() implies !is_glyph(#[trigger] core[i]) by {
            if i < whole.len() {
                assert(core[i] == whole[i]);
                assert(is_digit(whole[i]));
            } else if i > whole.len() {
                assert(core[i] == fraction[i - whole.len() - 1]);
                assert(is_digit(fraction[i - whole.len() - 1]));
            }
        }
    }
    lemma_without_glyphs_concat(left + core, right);
    lemma_without_glyphs_concat(left, core);
    lemma_without_glyphs_plain(core);
    lemma_without_glyphs_padding(left);
    lemma_without_glyphs_padding(right);
    lemma_trimmed_padded(without_glyphs(left), core, without_glyphs(right));
    assert(cleaned(left + core + right) == core);
    assert(core[0] != 'n');
    lemma_literal_text(false, whole, point, fraction);
}

/// The text of a decimal is read as that decimal: cleaning leaves it as it
/// is, and reading it gives the decimal back.
pub proof fn lemma_money_round_trip(d: Decimal)
    requires
        d.wf(),
    ensures
        cleaned(d.text()) == d.text(),
        money_of_text(d.text()) == ParsedValue::Number(d),
{
    let t = d.text();
    lemma_text_characters(d);
    lemma_text_round_trip(d);
    assert(no_glyph(t)) by {
        assert forall|i: int| 0 <= i < t.len() implies !is_glyph(#[trigger] t[i]) by {
            assert(is_digit(t[i]) || t[i] == '.' || t[i] == '-');
        }
    }
    lemma_without_glyphs_plain(t);
    lemma_trimmed_fixed(t);
    assert(t[0] != 'n');
}

/// The text of a whole number below 10^18 in magnitude is read as that
/// number, and rounding it down changes nothing.
pub proof fn lemma_integer_round_trip(n: int)
    requires
        -(UNIT as int) < n < UNIT as int,
    ensures
        cleaned(integer_text(n)) == integer_text(n),
        money_of_text(integer_text(n)) matches ParsedValue::Number(d) && d.spec_floor() == n,
{
    let d = Decimal { units: (n * UNIT) as i128 };
    assert(-UNITS_LIMIT < n * UNIT < UNITS_LIMIT) by (nonlinear_arith)
        requires
            -(UNIT as int) < n < UNIT as int,
            UNIT == 1_000_000_000_000_000_000,
            UNITS_LIMIT == 1_000_000_000_000_000_000_000_000_000_000_000_000,
    ;
    lemma_integer_text(n);
    lemma_money_round_trip(d);
    vstd::arithmetic::div_mod::lemma_fundamental_div_mod_converse(n * UNIT, UNIT as int, n, 0);
}

/// Whether `c` is a glyph.
pub fn is_glyph_char(c: char) -> (b: bool)
    ensures
        b == is_glyph(c),
{
    c == '$' || c == '\u{a3}' || c == ','
}

/// A copy of `v` without its glyphs.
pub fn strip_glyphs(v: &Vec<char>) -> (out: Vec<char>)
    ensures
        out@ == without_glyphs(v@),
{
    let mut out: Vec<char> = Vec::new();
    let mut i: usize = 0;
    assert(v@.take(0) == Seq::<char>::empty());
    while i < v.len()
        invariant
            i <= v.len(),
            out@ == without_glyphs(v@.take(i as int)),
        decreases v.len() - i,
    {
        let c = v[i];
        assert(v@.take(i + 1).drop_last() == v@.take(i as int));
        if !is_glyph_char(c) {
            out.push(c);
        }
        i += 1;
    }
    assert(v@.take(v.len() as int) == v@);
    out
}

/// Reads an amount of money from a cell.
///
/// A number is a decimal literal, with or without an exponent, that a
/// [`Decimal`] can hold: below 10^18 in magnitude and with no digit other
/// than zero beyond the eighteenth place after the point. A literal
/// outside that range is malformed, as is any other text, the words for
/// infinity and for what is no number among them.
pub fn parse_money(text: &str) -> (r: ParsedValue)
    ensures
        r == money_of_text(text@),
        r matches ParsedValue::Number(d) ==> d.wf(),
{
    let c = trim_chars(&strip_glyphs(&chars_of(text)));
    if c.len() == 0 || is_null_marker(&c) {
        ParsedValue::Absent
    } else {
        match Decimal::from_chars(&c) {
            Some(d) => ParsedValue::Number(d),
            None => ParsedValue::Malformed,
        }
    }
}

} // verus!
