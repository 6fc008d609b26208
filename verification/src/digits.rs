//! Decimal digits: the number that a run of digits writes, and the digits
//! that write a number.

use vstd::prelude::*;

verus! {

/// Ten to the power `n`.
pub open spec fn pow10(n: nat) -> nat
    decreases n,
{
    if n == 0 {
        1
    } else {
        10 * pow10((n - 1) as nat)
    }
}

/// Whether `c` is one of the ten decimal digits.
pub open spec fn is_digit(c: char) -> bool {
    '0' <= c <= '9'
}

/// The number that the digit `c` stands for; 0 for any other character.
pub open spec fn digit_value(c: char) -> nat {
    if is_digit(c) {
        (c as u32 - 0x30) as nat
    } else {
        0
    }
}

/// The character of the digit `d`, for `d` from 0 to 9.
pub open spec fn digit_char(d: int) -> char {
    (d + 0x30) as u8 as char
}

/// Whether every character of `s` is a decimal digit.
pub open spec fn all_digits(s: Seq<char>) -> bool {
    forall|i: int| 0 <= i < s.len() ==> is_digit(#[trigger] s[i])
}

/// The number written by the digits `s`, most significant first; 0 for the
/// empty text.
pub open spec fn number_of(s: Seq<char>) -> nat
    decreases s.len(),
{
    if s.len() == 0 {
        0
    } else {
        number_of(s.drop_last()) * 10 + digit_value(s.last())
    }
}

/// The digits of `n`, most significant first, without leading zeros; `0`
/// for zero.
pub open spec fn digits_of(n: nat) -> Seq<char>
    decreases n,
{
    if n < 10 {
        seq![digit_char(n as int)]
    } else {
        digits_of(n / 10).push(digit_char((n % 10) as int))
    }
}

/// The last `width` digits of `n`, most significant first, with leading
/// zeros.
pub open spec fn padded_digits(n: nat, width: nat) -> Seq<char>
    decreases width,
{
    if width == 0 {
        Seq::empty()
    } else {
        padded_digits(n / 10, (width - 1) as nat).push(digit_char((n % 10) as int))
    }
}

/// `s` without the zeros at its end.
pub open spec fn without_trailing_zeros(s: Seq<char>) -> Seq<char>
    decreases s.len(),
{
    if s.len() > 0 && s.last() == '0' {
        without_trailing_zeros(s.drop_last())
    } else {
        s
    }
}

/// The text of the whole number `n`: a minus sign where it is negative,
/// then its digits.
pub open spec fn integer_text(n: int) -> Seq<char> {
    if n < 0 {
        seq!['-'] + digits_of((-n) as nat)
    } else {
        digits_of(n as nat)
    }
}

/// Every power of ten is at least one.
pub proof fn lemma_pow10_positive(n: nat)
    ensures
        pow10(n) >= 1,
    decreases n,
{
    if n > 0 {
        lemma_pow10_positive((n - 1) as nat);
    }
}

/// Digits written after a number multiply it by ten and add.
pub proof fn lemma_number_of_push(s: Seq<char>, c: char)
    ensures
        number_of(s.push(c)) == number_of(s) * 10 + digit_value(c),
{
    assert(s.push(c).drop_last() == s);
}

/// The number written by the first `k` digits of `s` is not above the
/// number written by all of them.
pub proof fn lemma_number_of_prefix(s: Seq<char>, k: int)
    requires
        all_digits(s),
        0 <= k <= s.len(),
    ensures
        number_of(s.take(k)) <= number_of(s),
    decreases s.len() - k,
{
    if k == s.len() {
        assert(s.take(k) == s);
    } else {
        let r = s.drop_last();
        assert(all_digits(r)) by {
            assert forall|i: int| 0 <= i < r.len() implies is_digit(#[trigger] r[i]) by {
                assert(r[i] == s[i]);
            }
        }
        assert(r.take(k) == s.take(k));
        lemma_number_of_prefix(r, k);
        assert(is_digit(s[s.len() - 1]));
    }
}

/// The digits of a number are digits, begin with no sign or point, and
/// write that number.
pub proof fn lemma_digits_of(n: nat)
    ensures
        digits_of(n).len() >= 1,
        all_digits(digits_of(n)),
        number_of(digits_of(n)) == n,
    decreases n,
{
    let s = digits_of(n);
    if n < 10 {
        assert(s.drop_last() == Seq::<char>::empty());
        assert(s.last() == digit_char(n as int));
        assert(number_of(s.drop_last()) == 0);
        assert(digit_value(digit_char(n as int)) == n);
    } else {
        lemma_digits_of(n / 10);
        let r = digits_of(n / 10);
        let c = digit_char((n % 10) as int);
        lemma_number_of_push(r, c);
        assert forall|i: int| 0 <= i < s.len() implies is_digit(#[trigger] s[i]) by {
            if i < r.len() {
                assert(s[i] == r[i]);
            }
        }
    }
}

/// Padded digits are `width` digits that write `n` modulo ten to the power
/// `width`.
pub proof fn lemma_padded_digits(n: nat, width: nat)
    ensures
        padded_digits(n, width).len() == width,
        all_digits(padded_digits(n, width)),
        number_of(padded_digits(n, width)) == n % pow10(width),
    decreases width,
{
    let s = padded_digits(n, width);
    if width > 0 {
        let w = (width - 1) as nat;
        lemma_padded_digits(n / 10, w);
        lemma_pow10_positive(w);
        let r = padded_digits(n / 10, w);
        let c = digit_char((n % 10) as int);
        lemma_number_of_push(r, c);
        assert forall|i: int| 0 <= i < s.len() implies is_digit(#[trigger] s[i]) by {
            if i < r.len() {
                assert(s[i] == r[i]);
            }
        }
        let p = pow10(w) as int;
        let q = (n / 10) as int;
        let a = q / p;
        let b = q % p;
        assert(q == p * a + b) by {
            vstd::arithmetic::div_mod::lemma_fundamental_div_mod(q, p);
        }
        assert(n == a * (10 * p) + (10 * b + n % 10)) by (nonlinear_arith)
            requires
                q == p * a + b,
                n == 10 * q + n % 10,
        ;
        vstd::arithmetic::div_mod::lemma_fundamental_div_mod_converse(
            n as int,
            10 * p,
            a,
            10 * b + (n % 10) as int,
        );
    }
}

/// Dropping trailing zeros leaves a prefix made of digits, at most as
/// long, which writes the same number once the dropped places are
/// counted.
pub proof fn lemma_without_trailing_zeros(s: Seq<char>)
    requires
        all_digits(s),
    ensures
        without_trailing_zeros(s).len() <= s.len(),
        all_digits(without_trailing_zeros(s)),
        number_of(s) == number_of(without_trailing_zeros(s)) * pow10(
            (s.len() - without_trailing_zeros(s).len()) as nat,
        ),
    decreases s.len(),
{
    if s.len() > 0 && s.last() == '0' {
        let r = s.drop_last();
        assert(all_digits(r)) by {
            assert forall|i: int| 0 <= i < r.len() implies is_digit(#[trigger] r[i]) by {
                assert(r[i] == s[i]);
            }
        }
        lemma_without_trailing_zeros(r);
        let g = without_trailing_zeros(r);
        let k = (r.len() - g.len()) as nat;
        assert(pow10(k + 1) == 10 * pow10(k));
        assert(number_of(g) * pow10(k) * 10 == number_of(g) * (10 * pow10(k))) by (nonlinear_arith);
        assert(digit_value('0') == 0);
        assert(number_of(s) == number_of(r) * 10);
        assert(without_trailing_zeros(s) == g);
    } else {
        assert(pow10(0) == 1);
        assert(number_of(s) * 1 == number_of(s));
    }
}

/// The digits of `n`, appended to `out`.
pub fn push_digits(n: u128, out: &mut Vec<char>)
    ensures
        final(out)@ == old(out)@ + digits_of(n as nat),
    decreases n,
{
    if n >= 10 {
        push_digits(n / 10, out);
    }
    let d: u8 = (n % 10) as u8;
    out.push((d + 0x30) as char);
}

/// The last `width` digits of `n`, appended to `out`.
pub fn push_padded(n: u128, width: usize, out: &mut Vec<char>)
    ensures
        final(out)@ == old(out)@ + padded_digits(n as nat, width as nat),
    decreases width,
{
    if width > 0 {
        push_padded(n / 10, width - 1, out);
        let d: u8 = (n % 10) as u8;
        out.push((d + 0x30) as char);
    }
}

/// Whether `c` is a decimal digit.
pub fn is_digit_char(c: char) -> (b: bool)
    ensures
        b == is_digit(c),
{
    c >= '0' && c <= '9'
}

/// The characters of the text of the whole number `n`.
pub fn integer_chars(n: i128) -> (out: Vec<char>)
    ensures
        out@ == integer_text(n as int),
{
    let mut out: Vec<char> = Vec::new();
    let magnitude: u128 = if n < 0 {
        out.push('-');
        (-(n + 1)) as u128 + 1
    } else {
        n as u128
    };
    push_digits(magnitude, &mut out);
    out
}

/// How many places a decimal spans: eighteen before the point and
/// eighteen after it.
pub const PLACES: usize = 36;

/// Ten to the power of `PLACES`.
pub const PLACES_LIMIT: u128 = 1_000_000_000_000_000_000_000_000_000_000_000_000;

/// Whether the digit `c` may stand `weight` places above the last place:
/// a zero may stand anywhere, any other digit only at one of the places.
pub open spec fn place_fits(c: char, weight: int) -> bool {
    c == '0' || 0 <= weight < PLACES
}

/// What the digit `c` counts where it stands `weight` places above the
/// last place: its value times ten to the power `weight`.
pub open spec fn place_units(c: char, weight: int) -> nat {
    if c == '0' || weight < 0 {
        0
    } else {
        digit_value(c) * pow10(weight as nat)
    }
}

/// Whether every digit of `digits` fits at its place, where the first
/// stands `top` places above the last place and each next one a place
/// lower.
pub open spec fn digits_fit(digits: Seq<char>, top: int) -> bool {
    forall|k: int| 0 <= k < digits.len() ==> place_fits(#[trigger] digits[k], top - k)
}

/// What the digits count together, where the first stands `top` places
/// above the last place and each next one a place lower.
pub open spec fn digits_units(digits: Seq<char>, top: int) -> nat
    decreases digits.len(),
{
    if digits.len() == 0 {
        0
    } else {
        digits_units(digits.drop_last(), top) + place_units(digits.last(), top - (digits.len() - 1))
    }
}

/// `weight` held between 0 and `PLACES`.
pub open spec fn held(weight: int) -> nat {
    if weight < 0 {
        0
    } else if weight > PLACES {
        PLACES as nat
    } else {
        weight as nat
    }
}

/// The powers of ten grow with the exponent.
pub proof fn lemma_pow10_grows(a: nat, b: nat)
    requires
        a <= b,
    ensures
        pow10(a) <= pow10(b),
    decreases b - a,
{
    if a < b {
        lemma_pow10_grows(a, (b - 1) as nat);
    }
}

/// Ten to the power of `PLACES` is `PLACES_LIMIT`.
pub proof fn lemma_places_limit()
    ensures
        pow10(PLACES as nat) == PLACES_LIMIT,
{
    reveal_with_fuel(pow10, 37);
}

/// Digits that are all zero count nothing, wherever they stand.
pub proof fn lemma_zeros_count_nothing(digits: Seq<char>, top: int)
    requires
        forall|k: int| 0 <= k < digits.len() ==> #[trigger] digits[k] == '0',
    ensures
        digits_fit(digits, top),
        digits_units(digits, top) == 0,
    decreases digits.len(),
{
    if digits.len() > 0 {
        let rest = digits.drop_last();
        assert forall|k: int| 0 <= k < rest.len() implies #[trigger] rest[k] == '0' by {
            assert(rest[k] == digits[k]);
        }
        lemma_zeros_count_nothing(rest, top);
        assert(digits[digits.len() - 1] == '0');
    }
}

/// What two runs of digits count that stand one behind the other is the
/// sum of what each counts at its places.
pub proof fn lemma_digits_units_concat(a: Seq<char>, b: Seq<char>, top: int)
    ensures
        digits_units(a + b, top) == digits_units(a, top) + digits_units(b, top - a.len()),
    decreases b.len(),
{
    if b.len() == 0 {
        assert(a + b == a);
    } else {
        assert((a + b).drop_last() == a + b.drop_last());
        assert((a + b).last() == b.last());
        lemma_digits_units_concat(a, b.drop_last(), top);
    }
}

/// Digits whose last stands `low` places above the last place, with
/// `low` not negative, count the number they write times ten to the
/// power `low`.
pub proof fn lemma_digits_units_number(digits: Seq<char>, low: nat)
    requires
        all_digits(digits),
    ensures
        digits_units(digits, low + digits.len() - 1) == number_of(digits) * pow10(low),
    decreases digits.len(),
{
    if digits.len() == 0 {
        assert(number_of(digits) * pow10(low) == 0) by (nonlinear_arith)
            requires
                number_of(digits) == 0,
        ;
    } else {
        let rest = digits.drop_last();
        let top = low + digits.len() - 1;
        assert(all_digits(rest)) by {
            assert forall|i: int| 0 <= i < rest.len() implies is_digit(#[trigger] rest[i]) by {
                assert(rest[i] == digits[i]);
            }
        }
        lemma_digits_units_number(rest, low + 1);
        let d = digit_value(digits.last());
        assert(is_digit(digits[digits.len() - 1]));
        assert(place_units(digits.last(), low as int) == d * pow10(low)) by {
            if digits.last() == '0' {
                assert(d == 0);
                assert(d * pow10(low) == 0) by (nonlinear_arith)
                    requires
                        d == 0,
                ;
            }
        }
        assert(pow10(low + 1) == 10 * pow10(low));
        assert(number_of(rest) * pow10(low + 1) + d * pow10(low) == (number_of(rest) * 10 + d)
            * pow10(low)) by (nonlinear_arith)
            requires
                pow10(low + 1) == 10 * pow10(low),
        ;
    }
}

/// Digits that stand below the last place count nothing.
pub proof fn lemma_digits_units_below(digits: Seq<char>, top: int, keep: int)
    requires
        0 <= keep <= digits.len(),
        keep >= top + 1,
    ensures
        digits_units(digits, top) == digits_units(digits.take(keep), top),
    decreases digits.len(),
{
    if keep == digits.len() {
        assert(digits.take(keep) == digits);
    } else {
        let rest = digits.drop_last();
        assert(rest.take(keep) == digits.take(keep));
        lemma_digits_units_below(rest, top, keep);
    }
}

/// Digits that fit at their places count less than ten to the power of
/// `PLACES`.
pub proof fn lemma_digits_units_bound(digits: Seq<char>, top: int)
    requires
        all_digits(digits),
        digits_fit(digits, top),
    ensures
        digits_units(digits, top) + pow10(held(top - digits.len() + 1)) <= PLACES_LIMIT,
        digits_units(digits, top) < PLACES_LIMIT,
    decreases digits.len(),
{
    lemma_places_limit();
    lemma_pow10_positive(held(top - digits.len() + 1));
    if digits.len() == 0 {
        lemma_pow10_grows(held(top + 1), PLACES as nat);
    } else {
        let rest = digits.drop_last();
        let weight = top - (digits.len() - 1);
        let c = digits.last();
        assert(all_digits(rest) && digits_fit(rest, top)) by {
            assert forall|i: int| 0 <= i < rest.len() implies is_digit(#[trigger] rest[i])
                && place_fits(rest[i], top - i) by {
                assert(rest[i] == digits[i]);
            }
        }
        lemma_digits_units_bound(rest, top);
        lemma_pow10_grows(held(weight), held(weight + 1));
        assert(is_digit(digits[digits.len() - 1]));
        assert(place_fits(digits[digits.len() - 1], weight));
        if c != '0' {
            let d = digit_value(c);
            let p = pow10(weight as nat);
            assert(pow10((weight + 1) as nat) == 10 * p);
            assert(d * p + p <= 10 * p) by (nonlinear_arith)
                requires
                    d <= 9,
            ;
        }
    }
}

/// Digits count at least what any one of them counts.
pub proof fn lemma_digits_units_term(digits: Seq<char>, top: int, k: int)
    requires
        0 <= k < digits.len(),
    ensures
        digits_units(digits, top) >= place_units(digits[k], top - k),
    decreases digits.len(),
{
    if k < digits.len() - 1 {
        let rest = digits.drop_last();
        assert(rest[k] == digits[k]);
        lemma_digits_units_term(rest, top, k);
    }
}

/// Ten to the power `n`, for `n` up to `PLACES`.
pub fn power_of_ten(n: usize) -> (r: u128)
    requires
        n <= PLACES,
    ensures
        r == pow10(n as nat),
        r <= PLACES_LIMIT,
{
    let mut r: u128 = 1;
    let mut i: usize = 0;
    proof {
        lemma_places_limit();
    }
    while i < n
        invariant
            i <= n <= PLACES,
            r == pow10(i as nat),
            pow10(PLACES as nat) == PLACES_LIMIT,
        decreases n - i,
    {
        proof {
            lemma_pow10_grows((i + 1) as nat, PLACES as nat);
        }
        r = r * 10;
        i += 1;
    }
    proof {
        lemma_pow10_grows(n as nat, PLACES as nat);
    }
    r
}

/// What `digits` count together, where the first stands `top` places
/// above the last place; `None` where a digit does not fit at its place.
pub fn positional_units(digits: &Vec<char>, top: i128) -> (r: Option<u128>)
    requires
        all_digits(digits@),
        -0x1_0000_0000_0000_0000_0000_0000 < top < 0x1_0000_0000_0000_0000_0000_0000,
    ensures
        match r {
            Some(n) => digits_fit(digits@, top as int) && n == digits_units(digits@, top as int) && n
                < PLACES_LIMIT,
            None => !digits_fit(digits@, top as int),
        },
{
    let mut acc: u128 = 0;
    let mut k: usize = 0;
    proof {
        lemma_places_limit();
        lemma_pow10_grows(held(top + 1), PLACES as nat);
        assert(digits@.take(0) == Seq::<char>::empty());
    }
    while k < digits.len()
        invariant
            k <= digits.len(),
            all_digits(digits@),
            -0x1_0000_0000_0000_0000_0000_0000 < top < 0x1_0000_0000_0000_0000_0000_0000,
            pow10(PLACES as nat) == PLACES_LIMIT,
            digits_fit(digits@.take(k as int), top as int),
            acc == digits_units(digits@.take(k as int), top as int),
            acc + pow10(held(top - k + 1)) <= PLACES_LIMIT,
        decreases digits.len() - k,
    {
        let c = digits[k];
        let weight: i128 = top - k as i128;
        let ghost before = digits@.take(k as int);
        let ghost after = digits@.take(k + 1);
        proof {
            assert(after.drop_last() == before);
            assert(after.last() == c);
            assert(is_digit(c));
            lemma_pow10_grows(held(weight as int), held(weight + 1));
        }
        if c != '0' {
            if weight < 0 || weight >= PLACES as i128 {
                assert(!place_fits(digits@[k as int], top - k));
                return None;
            }
            let d: u128 = (c as u32 - 0x30) as u128;
            let p: u128 = power_of_ten(weight as usize);
            proof {
                assert(pow10((weight + 1) as nat) == 10 * pow10(weight as nat));
                assert(d * p + p <= 10 * p) by (nonlinear_arith)
                    requires
                        d <= 9,
                ;
                assert(place_units(c, weight as int) == d * p);
            }
            acc = acc + d * p;
        }
        proof {
            assert forall|i: int| 0 <= i < after.len() implies place_fits(
                #[trigger] after[i],
                top - i,
            ) by {
                if i < k {
                    assert(after[i] == before[i]);
                }
            }
        }
        k += 1;
    }
    proof {
        assert(digits@.take(digits.len() as int) == digits@);
        lemma_pow10_positive(held(top - k + 1));
    }
    Some(acc)
}

} // verus!
