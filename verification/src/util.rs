//! Sizes written as text: a percentage, a fraction, or a plain decimal.

use vstd::prelude::*;
use vstd::string::*;
use crate::natural::Natural;
use crate::ratio::{Fraction, Ratio};

verus! {

/// Whether a character is one of the digits `0` to `9`.
pub open spec fn is_digit(c: char) -> bool {
    '0' <= c <= '9'
}

/// The number that a digit stands for.
pub open spec fn digit_value(c: char) -> nat {
    (c as u8 - '0' as u8) as nat
}

/// Ten raised to a power.
pub open spec fn pow10(exponent: nat) -> nat
    decreases exponent,
{
    if exponent == 0 {
        1
    } else {
        10 * pow10((exponent - 1) as nat)
    }
}

/// How many decimal points a text holds.
pub open spec fn point_count(text: Seq<char>) -> nat
    decreases text.len(),
{
    if text.len() == 0 {
        0
    } else if text.last() == '.' {
        point_count(text.drop_last()) + 1
    } else {
        point_count(text.drop_last())
    }
}

/// How many digits a text holds.
pub open spec fn digit_count(text: Seq<char>) -> nat
    decreases text.len(),
{
    if text.len() == 0 {
        0
    } else if is_digit(text.last()) {
        digit_count(text.drop_last()) + 1
    } else {
        digit_count(text.drop_last())
    }
}

/// Whether a text is an unsigned decimal: digits, at least one of them, with
/// at most one decimal point before, among or after them.
pub open spec fn is_decimal(text: Seq<char>) -> bool {
    &&& forall|i: int| 0 <= i < text.len() ==> is_digit(#[trigger] text[i]) || text[i] == '.'
    &&& point_count(text) <= 1
    &&& digit_count(text) >= 1
}

/// The digits of a text read as one whole number, the decimal point left out.
pub open spec fn digits_number(text: Seq<char>) -> nat
    decreases text.len(),
{
    if text.len() == 0 {
        0
    } else if is_digit(text.last()) {
        digits_number(text.drop_last()) * 10 + digit_value(text.last())
    } else {
        digits_number(text.drop_last())
    }
}

/// How many digits follow the decimal point of a text; none where it has no point.
pub open spec fn digits_after_point(text: Seq<char>) -> nat
    decreases text.len(),
{
    if text.len() == 0 || text.last() == '.' {
        0
    } else if point_count(text.drop_last()) > 0 {
        digits_after_point(text.drop_last()) + 1
    } else {
        0
    }
}

/// The value of an unsigned decimal: its digits over the power of ten that
/// the place of its decimal point gives.
pub open spec fn decimal_value(text: Seq<char>) -> Fraction {
    Fraction { num: digits_number(text), den: pow10(digits_after_point(text)) }
}

/// The value of a percentage: an unsigned decimal and `%`, which stands for
/// the hundredth part of the decimal.
pub open spec fn percent_value(text: Seq<char>) -> Option<Fraction> {
    if text.len() > 0 && text.last() == '%' && is_decimal(text.drop_last()) {
        let number = decimal_value(text.drop_last());
        Some(Fraction { num: number.num, den: number.den * 100 })
    } else {
        None
    }
}

/// Whether a text is two unsigned decimals with a `/` between them at `position`.
pub open spec fn is_fraction_at(text: Seq<char>, position: int) -> bool {
    &&& 0 <= position < text.len()
    &&& text[position] == '/'
    &&& is_decimal(text.take(position))
    &&& is_decimal(text.skip(position + 1))
}

/// The value of a fraction: two unsigned decimals with a `/` between them,
/// which stands for the first divided by the second. A fraction whose second
/// decimal is zero has no value.
pub open spec fn fraction_value(text: Seq<char>) -> Option<Fraction> {
    if exists|position: int| is_fraction_at(text, position) {
        let position = choose|position: int| is_fraction_at(text, position);
        let above = decimal_value(text.take(position));
        let below = decimal_value(text.skip(position + 1));
        if below.num == 0 {
            None
        } else {
            Some(Fraction { num: above.num * below.den, den: above.den * below.num })
        }
    } else {
        None
    }
}

/// A text without the sign that it may start with.
pub open spec fn unsigned(text: Seq<char>) -> Seq<char> {
    if text.len() > 0 && (text[0] == '+' || text[0] == '-') {
        text.skip(1)
    } else {
        text
    }
}

/// Whether a text starts with `-`.
pub open spec fn is_negative(text: Seq<char>) -> bool {
    text.len() > 0 && text[0] == '-'
}

/// Whether a text is a whole number: digits, at least one of them.
pub open spec fn is_whole(text: Seq<char>) -> bool {
    &&& text.len() > 0
    &&& forall|i: int| 0 <= i < text.len() ==> is_digit(#[trigger] text[i])
}

/// Whether a text is a decimal with a power of ten: a decimal with or
/// without a sign, `e` or `E` at `position`, and a whole number with or
/// without a sign.
pub open spec fn is_power_at(text: Seq<char>, position: int) -> bool {
    &&& 0 <= position < text.len()
    &&& (text[position] == 'e' || text[position] == 'E')
    &&& is_decimal(unsigned(text.take(position)))
    &&& is_whole(unsigned(text.skip(position + 1)))
}

/// A fraction times ten to the power that a whole number with or without a
/// sign names.
pub open spec fn times_power(value: Fraction, exponent: Seq<char>) -> Fraction {
    let power = pow10(digits_number(unsigned(exponent)));
    if is_negative(exponent) {
        Fraction { num: value.num, den: value.den * power }
    } else {
        Fraction { num: value.num * power, den: value.den }
    }
}

/// The value of a plain decimal: a decimal with or without a sign, which may
/// be followed by `e` or `E` and the power of ten that it is to be taken
/// times. With `-` only zero has a value, since no size is below zero.
pub open spec fn plain_value(text: Seq<char>) -> Option<Fraction> {
    if exists|position: int| is_power_at(text, position) {
        let position = choose|position: int| is_power_at(text, position);
        let number = text.take(position);
        if is_negative(number) && digits_number(unsigned(number)) > 0 {
            None
        } else {
            Some(times_power(decimal_value(unsigned(number)), text.skip(position + 1)))
        }
    } else if is_decimal(unsigned(text)) && !(is_negative(text) && digits_number(unsigned(text)) > 0) {
        Some(decimal_value(unsigned(text)))
    } else {
        None
    }
}

/// The value of a size: that of a percentage if the text is one, else that of
/// a fraction if it is one, else that of a plain decimal.
pub open spec fn size_value(text: Seq<char>) -> Option<Fraction> {
    if percent_value(text) is Some {
        percent_value(text)
    } else if fraction_value(text) is Some {
        fraction_value(text)
    } else {
        plain_value(text)
    }
}

/// Whether a result holds the given value, or none where there is none.
pub open spec fn holds(result: Option<Ratio>, value: Option<Fraction>) -> bool {
    match result {
        Some(ratio) => value == Some(ratio@) && ratio@.den > 0,
        None => value is None,
    }
}

/// No power of ten is zero.
proof fn lemma_pow10_positive(exponent: nat)
    ensures
        pow10(exponent) > 0,
    decreases exponent,
{
    if exponent > 0 {
        lemma_pow10_positive((exponent - 1) as nat);
    }
}

/// A text with a character that is neither a digit nor a point is no decimal.
proof fn lemma_decimal_characters(text: Seq<char>, position: int)
    requires
        0 <= position < text.len(),
        !is_digit(text[position]),
        text[position] != '.',
    ensures
        !is_decimal(text),
{
}

/// Reads the characters from `from` up to `to` as an unsigned decimal and
/// gives its digits as a number and the power of ten under them.
fn read_decimal(text: &str, from: usize, to: usize) -> (parts: Option<(Natural, Natural)>)
    requires
        is_ascii(text),
        from <= to <= text@.len(),
    ensures
        parts is Some <==> is_decimal(text@.subrange(from as int, to as int)),
        parts matches Some((num, den)) ==> {
            &&& num@ == digits_number(text@.subrange(from as int, to as int))
            &&& den@ == pow10(digits_after_point(text@.subrange(from as int, to as int)))
            &&& den@ > 0
        },
{
    let bytes = text.as_bytes();
    proof {
        is_ascii_spec_bytes(text);
    }
    let ghost whole = text@.subrange(from as int, to as int);
    let mut num = Natural::zero();
    let mut den = Natural::from_u64(1);
    let mut points: usize = 0;
    let mut digits: usize = 0;
    let mut i: usize = from;
    proof {
        assert(text@.subrange(from as int, from as int) =~= Seq::<char>::empty());
    }
    while i < to
        invariant
            from <= i <= to <= text@.len(),
            bytes@.len() == text@.len(),
            forall|j: int| 0 <= j < bytes@.len() ==> bytes@[j] == text@[j] as u8,
            forall|j: int| 0 <= j < text@.len() ==> '\0' <= #[trigger] text@[j] <= '\u{7f}',
            whole == text@.subrange(from as int, to as int),
            forall|j: int| from <= j < i ==> is_digit(#[trigger] text@[j]) || text@[j] == '.',
            points == point_count(text@.subrange(from as int, i as int)),
            digits == digit_count(text@.subrange(from as int, i as int)),
            points <= 1,
            digits <= i - from,
            num@ == digits_number(text@.subrange(from as int, i as int)),
            den@ == pow10(digits_after_point(text@.subrange(from as int, i as int))),
        decreases to - i,
    {
        let byte = bytes[i];
        let ghost before = text@.subrange(from as int, i as int);
        let ghost after = text@.subrange(from as int, i + 1);
        proof {
            assert(after.drop_last() =~= before);
            assert(after.last() == text@[i as int]);
        }
        if byte >= 48 && byte <= 57 {
            num = num.mul_small_add(10, (byte - 48) as u32);
            if points > 0 {
                den = den.mul_small_add(10, 0);
            }
            digits += 1;
        } else if byte == 46 {
            if points > 0 {
                proof {
                    lemma_point_count_grows(whole, i - from + 1);
                    assert(whole.take(i - from + 1) =~= after);
                }
                return None;
            }
            points = 1;
        } else {
            proof {
                lemma_decimal_characters(whole, i - from);
            }
            return None;
        }
        i += 1;
    }
    proof {
        assert(text@.subrange(from as int, i as int) =~= whole);
        lemma_pow10_positive(digits_after_point(whole));
    }
    if digits == 0 {
        None
    } else {
        Some((num, den))
    }
}

/// A text holds at least as many points as any part at its start.
proof fn lemma_point_count_grows(text: Seq<char>, length: int)
    requires
        0 <= length <= text.len(),
    ensures
        point_count(text.take(length)) <= point_count(text),
    decreases text.len() - length,
{
    if length < text.len() {
        lemma_point_count_grows(text, length + 1);
        assert(text.take(length + 1).drop_last() =~= text.take(length));
    } else {
        assert(text.take(length) =~= text);
    }
}

/// A decimal holds none of the characters that mark the other forms.
proof fn lemma_decimal_has_no_mark(text: Seq<char>, position: int)
    requires
        is_decimal(text),
        0 <= position < text.len(),
    ensures
        text[position] != '/',
        text[position] != '%',
        text[position] != '+',
        text[position] != '-',
        text[position] != 'e',
        text[position] != 'E',
        '\0' <= text[position] <= '\u{7f}',
{
}

/// A decimal or a whole number with or without a sign holds digits and
/// points, but for a sign at its start.
proof fn lemma_signed_characters(text: Seq<char>, position: int)
    requires
        is_decimal(unsigned(text)) || is_whole(unsigned(text)),
        0 <= position < text.len(),
    ensures
        is_digit(text[position]) || text[position] == '.' || (position == 0 && (text[0] == '+' || text[0]
            == '-')),
{
    if text[0] == '+' || text[0] == '-' {
        if position > 0 {
            assert(unsigned(text)[position - 1] == text[position]);
        }
    } else {
        assert(unsigned(text)[position] == text[position]);
    }
}

/// A text with a character that stands in no decimal with a power of ten is none.
proof fn lemma_power_characters(text: Seq<char>, position: int, at: int)
    requires
        0 <= position < text.len(),
        !is_digit(text[position]),
        text[position] != '.',
        text[position] != '+',
        text[position] != '-',
        text[position] != 'e',
        text[position] != 'E',
    ensures
        !is_power_at(text, at),
{
    if is_power_at(text, at) {
        if position < at {
            lemma_signed_characters(text.take(at), position);
        } else {
            lemma_signed_characters(text.skip(at + 1), position - at - 1);
        }
    }
}

/// A text is a decimal with a power of ten at no other place than its first `e` or `E`.
proof fn lemma_power_position(text: Seq<char>, first: int, position: int)
    requires
        0 <= first < text.len(),
        text[first] == 'e' || text[first] == 'E',
        forall|j: int| 0 <= j < first ==> text[j] != 'e' && text[j] != 'E',
        is_power_at(text, position),
    ensures
        position == first,
{
    if position > first {
        lemma_signed_characters(text.take(position), first);
    }
}

/// A text without `e` and `E` is a decimal with a power of ten nowhere.
proof fn lemma_power_needs_mark(text: Seq<char>, position: int)
    requires
        forall|j: int| 0 <= j < text.len() ==> text[j] != 'e' && text[j] != 'E',
    ensures
        !is_power_at(text, position),
{
}

/// A text is a fraction at no other place than its first `/`.
proof fn lemma_fraction_position(text: Seq<char>, first: int, position: int)
    requires
        0 <= first < text.len(),
        text[first] == '/',
        forall|j: int| 0 <= j < first ==> text[j] != '/',
        is_fraction_at(text, position),
    ensures
        position == first,
{
    if position < first {
        assert(text[position] == '/');
    } else if position > first {
        lemma_decimal_has_no_mark(text.take(position), first);
    }
}

/// A text without `/` is a fraction nowhere.
proof fn lemma_fraction_needs_slash(text: Seq<char>, position: int)
    requires
        forall|j: int| 0 <= j < text.len() ==> text[j] != '/',
    ensures
        !is_fraction_at(text, position),
{
}

/// A size that is not plain text of the basic Latin alphabet has no value.
proof fn lemma_values_need_ascii(text: Seq<char>, position: int)
    requires
        0 <= position < text.len(),
        !('\0' <= text[position] <= '\u{7f}'),
    ensures
        percent_value(text) is None,
        fraction_value(text) is None,
        plain_value(text) is None,
{
    if text.len() > 0 && text.last() == '%' && is_decimal(text.drop_last()) {
        lemma_decimal_has_no_mark(text.drop_last(), position);
    }
    if exists|k: int| is_fraction_at(text, k) {
        let k = choose|k: int| is_fraction_at(text, k);
        if position < k {
            lemma_decimal_has_no_mark(text.take(k), position);
        } else if position > k {
            lemma_decimal_has_no_mark(text.skip(k + 1), position - k - 1);
        }
    }
    assert forall|k: int| !is_power_at(text, k) by {
        lemma_power_characters(text, position, k);
    }
    if is_decimal(unsigned(text)) {
        lemma_signed_characters(text, position);
    }
}

/// A character of a text that is not of the basic Latin alphabet.
proof fn lemma_not_ascii_position(text: Seq<char>) -> (position: int)
    requires
        !vstd::utf8::is_ascii_chars(text),
    ensures
        0 <= position < text.len(),
        !('\0' <= text[position] <= '\u{7f}'),
{
    choose|i: int| 0 <= i < text.len() && !('\0' <= #[trigger] text[i] <= '\u{7f}')
}

/// The value of a text as a percentage: an unsigned decimal followed by `%`.
pub fn percent_to_float(string: &str) -> (value: Option<Ratio>)
    ensures
        holds(value, percent_value(string@)),
{
    if !string.is_ascii() {
        proof {
            let position = lemma_not_ascii_position(string@);
            lemma_values_need_ascii(string@, position);
        }
        return None;
    }
    let bytes = string.as_bytes();
    proof {
        is_ascii_spec_bytes(string);
    }
    let length = bytes.len();
    if length == 0 || bytes[length - 1] != 37 {
        return None;
    }
    proof {
        assert(string@.subrange(0, length - 1) =~= string@.drop_last());
    }
    match read_decimal(string, 0, length - 1) {
        Some((num, den)) => {
            let hundredfold = den.mul_small_add(100, 0);
            Ratio::new(num, hundredfold)
        },
        None => None,
    }
}

/// The value of a text as a fraction: two unsigned decimals with `/` between
/// them, the second of which is not zero.
pub fn fraction_to_float(string: &str) -> (value: Option<Ratio>)
    ensures
        holds(value, fraction_value(string@)),
{
    if !string.is_ascii() {
        proof {
            let position = lemma_not_ascii_position(string@);
            lemma_values_need_ascii(string@, position);
        }
        return None;
    }
    let bytes = string.as_bytes();
    proof {
        is_ascii_spec_bytes(string);
    }
    let length = bytes.len();
    let mut slash: usize = 0;
    while slash < length && bytes[slash] != 47
        invariant
            slash <= length,
            length == bytes@.len() == string@.len(),
            forall|j: int| 0 <= j < bytes@.len() ==> bytes@[j] == string@[j] as u8,
            forall|j: int| 0 <= j < string@.len() ==> '\0' <= #[trigger] string@[j] <= '\u{7f}',
            forall|j: int| 0 <= j < slash ==> string@[j] != '/',
        decreases length - slash,
    {
        slash += 1;
    }
    if slash == length {
        proof {
            assert forall|k: int| !is_fraction_at(string@, k) by {
                lemma_fraction_needs_slash(string@, k);
            }
        }
        return None;
    }
    proof {
        assert(string@[slash as int] == '/');
        assert(string@.subrange(0, slash as int) =~= string@.take(slash as int));
        assert(string@.subrange(slash + 1, length as int) =~= string@.skip(slash + 1));
        assert forall|k: int| is_fraction_at(string@, k) implies k == slash by {
            lemma_fraction_position(string@, slash as int, k);
        }
    }
    let above = read_decimal(string, 0, slash);
    let below = read_decimal(string, slash + 1, length);
    match (above, below) {
        (Some((above_num, above_den)), Some((below_num, below_den))) => {
            assert(is_fraction_at(string@, slash as int));
            let num = above_num.mul(&below_den);
            let den = above_den.mul(&below_num);
            proof {
                assert(below_num@ != 0 ==> above_den@ * below_num@ != 0) by (nonlinear_arith)
                    requires
                        above_den@ > 0,
                ;
                assert(below_num@ == 0 ==> above_den@ * below_num@ == 0) by (nonlinear_arith);
            }
            Ratio::new(num, den)
        },
        _ => None,
    }
}

/// Reads the characters from `from` up to `to` as a whole number.
fn read_whole(text: &str, from: usize, to: usize) -> (number: Option<Natural>)
    requires
        is_ascii(text),
        from <= to <= text@.len(),
    ensures
        number is Some <==> is_whole(text@.subrange(from as int, to as int)),
        number matches Some(n) ==> n@ == digits_number(text@.subrange(from as int, to as int)),
{
    let bytes = text.as_bytes();
    proof {
        is_ascii_spec_bytes(text);
    }
    let ghost whole = text@.subrange(from as int, to as int);
    if from == to {
        return None;
    }
    let mut number = Natural::zero();
    let mut i: usize = from;
    proof {
        assert(text@.subrange(from as int, from as int) =~= Seq::<char>::empty());
    }
    while i < to
        invariant
            from <= i <= to <= text@.len(),
            from < to,
            bytes@.len() == text@.len(),
            forall|j: int| 0 <= j < bytes@.len() ==> bytes@[j] == text@[j] as u8,
            forall|j: int| 0 <= j < text@.len() ==> '\0' <= #[trigger] text@[j] <= '\u{7f}',
            whole == text@.subrange(from as int, to as int),
            forall|j: int| from <= j < i ==> is_digit(#[trigger] text@[j]),
            number@ == digits_number(text@.subrange(from as int, i as int)),
        decreases to - i,
    {
        let byte = bytes[i];
        proof {
            let before = text@.subrange(from as int, i as int);
            let after = text@.subrange(from as int, i + 1);
            assert(after.drop_last() =~= before);
            assert(after.last() == text@[i as int]);
        }
        if byte >= 48 && byte <= 57 {
            number = number.mul_small_add(10, (byte - 48) as u32);
        } else {
            assert(!is_digit(whole[i - from]));
            return None;
        }
        i += 1;
    }
    proof {
        assert(text@.subrange(from as int, i as int) =~= whole);
        assert forall|j: int| 0 <= j < whole.len() implies is_digit(#[trigger] whole[j]) by {
            assert(is_digit(text@[from + j]));
        }
    }
    Some(number)
}

/// Ten raised to a power.
fn power_of_ten(exponent: &Natural) -> (power: Natural)
    ensures
        power@ == pow10(exponent@),
{
    let mut power = Natural::from_u64(1);
    let mut count = Natural::zero();
    while !exponent.le(&count)
        invariant
            count@ <= exponent@,
            power@ == pow10(count@),
        decreases exponent@ - count@,
    {
        power = power.mul_small_add(10, 0);
        count = count.mul_small_add(1, 1);
    }
    power
}

/// Whether the character at a place of a text is a sign.
fn sign_at(text: &str, place: usize, end: usize) -> (sign: bool)
    requires
        is_ascii(text),
        place <= end <= text@.len(),
    ensures
        sign == (place < end && (text@[place as int] == '+' || text@[place as int] == '-')),
{
    let bytes = text.as_bytes();
    proof {
        is_ascii_spec_bytes(text);
    }
    place < end && (bytes[place] == 43 || bytes[place] == 45)
}

/// The value of a text as a plain decimal: a decimal with or without a
/// sign, which a power of ten may follow.
pub fn decimal_to_float(string: &str) -> (value: Option<Ratio>)
    ensures
        holds(value, plain_value(string@)),
{
    if !string.is_ascii() {
        proof {
            let position = lemma_not_ascii_position(string@);
            lemma_values_need_ascii(string@, position);
        }
        return None;
    }
    let bytes = string.as_bytes();
    proof {
        is_ascii_spec_bytes(string);
    }
    let length = bytes.len();
    let mut mark: usize = 0;
    while mark < length && bytes[mark] != 101 && bytes[mark] != 69
        invariant
            mark <= length,
            length == bytes@.len() == string@.len(),
            forall|j: int| 0 <= j < bytes@.len() ==> bytes@[j] == string@[j] as u8,
            forall|j: int| 0 <= j < string@.len() ==> '\0' <= #[trigger] string@[j] <= '\u{7f}',
            forall|j: int| 0 <= j < mark ==> string@[j] != 'e' && string@[j] != 'E',
        decreases length - mark,
    {
        mark += 1;
    }
    let ghost number = string@.take(mark as int);
    let signed = sign_at(string, 0, mark);
    let start: usize = if signed {
        1
    } else {
        0
    };
    proof {
        assert(string@.subrange(start as int, mark as int) =~= unsigned(number));
        assert(is_negative(number) == (signed && string@[0] == '-'));
        if mark == length {
            assert(number =~= string@);
            assert forall|k: int| !is_power_at(string@, k) by {
                lemma_power_needs_mark(string@, k);
            }
        } else {
            assert(string@[mark as int] == 'e' || string@[mark as int] == 'E');
            assert forall|k: int| is_power_at(string@, k) implies k == mark by {
                lemma_power_position(string@, mark as int, k);
            }
        }
    }
    let parts = read_decimal(string, start, mark);
    if mark == length {
        return match parts {
            Some((num, den)) => {
                if signed && bytes[0] == 45 && !num.is_zero() {
                    None
                } else {
                    Ratio::new(num, den)
                }
            },
            None => None,
        };
    }
    let ghost exponent = string@.skip(mark + 1);
    let lowering = sign_at(string, mark + 1, length) && bytes[mark + 1] == 45;
    let first: usize = if sign_at(string, mark + 1, length) {
        mark + 2
    } else {
        mark + 1
    };
    proof {
        assert(string@.subrange(first as int, length as int) =~= unsigned(exponent));
        assert(is_negative(exponent) == lowering);
    }
    let steps = read_whole(string, first, length);
    match (parts, steps) {
        (Some((num, den)), Some(steps)) => {
            assert(is_power_at(string@, mark as int));
            if signed && bytes[0] == 45 && !num.is_zero() {
                None
            } else {
                let power = power_of_ten(&steps);
                proof {
                    lemma_pow10_positive(steps@);
                    assert(den@ * power@ > 0) by (nonlinear_arith)
                        requires
                            den@ > 0,
                            power@ > 0,
                    ;
                }
                if lowering {
                    Ratio::new(num, den.mul(&power))
                } else {
                    Ratio::new(num.mul(&power), den)
                }
            }
        },
        _ => {
            proof {
                assert(!is_power_at(string@, mark as int));
                assert(!is_decimal(unsigned(string@))) by {
                    if is_decimal(unsigned(string@)) {
                        lemma_signed_characters(string@, mark as int);
                    }
                }
            }
            None
        },
    }
}

/// A size relative to another, written as a percentage (`50%`), a fraction
/// (`1/3`) or a plain decimal (`0.5`).
#[derive(Debug)]
pub struct PartialSize(pub String);

impl PartialSize {
    /// The value of the size, if its text has one.
    pub fn as_number(&self) -> (value: Option<Ratio>)
        ensures
            holds(value, size_value(self.0@)),
    {
        let text = self.0.as_str();
        match percent_to_float(text) {
            Some(value) => Some(value),
            None => match fraction_to_float(text) {
                Some(value) => Some(value),
                None => decimal_to_float(text),
            },
        }
    }
}

/// A text holds at least as many characters as digits.
proof fn lemma_digit_count_within(text: Seq<char>)
    ensures
        digit_count(text) <= text.len(),
    decreases text.len(),
{
    if text.len() > 0 {
        lemma_digit_count_within(text.drop_last());
    }
}

/// The digits of two texts put together are those of the one and those of the other.
proof fn lemma_digit_count_adds(first: Seq<char>, second: Seq<char>)
    ensures
        digit_count(first + second) == digit_count(first) + digit_count(second),
    decreases second.len(),
{
    if second.len() == 0 {
        assert(first + second =~= first);
    } else {
        lemma_digit_count_adds(first, second.drop_last());
        assert((first + second).drop_last() =~= first + second.drop_last());
    }
}

/// A percentage has the value of its decimal divided by one hundred.
pub proof fn lemma_percent_value(number: Seq<char>)
    requires
        is_decimal(number),
    ensures
        size_value(number.push('%')) == Some(
            Fraction { num: decimal_value(number).num, den: decimal_value(number).den * 100 },
        ),
{
    assert(number.push('%').drop_last() =~= number);
}

/// A fraction has the value of its first decimal divided by its second, and
/// none where the second is zero.
pub proof fn lemma_fraction_value(above: Seq<char>, below: Seq<char>)
    requires
        is_decimal(above),
        is_decimal(below),
    ensures
        decimal_value(below).num > 0 ==> size_value(above.push('/') + below) == Some(
            Fraction {
                num: decimal_value(above).num * decimal_value(below).den,
                den: decimal_value(above).den * decimal_value(below).num,
            },
        ),
        decimal_value(below).num == 0 ==> size_value(above.push('/') + below) is None,
{
    let text = above.push('/') + below;
    let slash = above.len() as int;
    lemma_digit_count_within(above);
    lemma_digit_count_within(below);
    assert(text.take(slash) =~= above);
    assert(text.skip(slash + 1) =~= below);
    assert(text[slash] == '/');
    assert(is_fraction_at(text, slash));
    assert forall|j: int| 0 <= j < slash implies text[j] != '/' by {
        lemma_decimal_has_no_mark(above, j);
    }
    assert forall|k: int| is_fraction_at(text, k) implies k == slash by {
        lemma_fraction_position(text, slash, k);
    }
    assert(text.last() == below.last());
    lemma_decimal_has_no_mark(below, below.len() - 1);
    assert(percent_value(text) is None);
    assert forall|k: int| !is_power_at(text, k) by {
        lemma_power_characters(text, slash, k);
    }
    assert(!is_decimal(unsigned(text))) by {
        if is_decimal(unsigned(text)) {
            lemma_signed_characters(text, slash);
        }
    }
    assert(plain_value(text) is None);
}

/// A decimal below zero has no value as a size.
pub proof fn lemma_negative_has_no_value(number: Seq<char>)
    requires
        is_decimal(number),
        decimal_value(number).num > 0,
    ensures
        size_value(seq!['-'] + number) is None,
{
    let text = seq!['-'] + number;
    lemma_digit_count_within(number);
    assert(text.skip(1) =~= number);
    assert(text[0] == '-');
    assert(text.last() == number.last());
    lemma_decimal_has_no_mark(number, number.len() - 1);
    assert(percent_value(text) is None);
    assert forall|k: int| !is_fraction_at(text, k) by {
        if is_fraction_at(text, k) {
            if k == 0 {
                lemma_digit_count_within(text.take(0));
            } else {
                lemma_decimal_has_no_mark(text.take(k), 0);
            }
        }
    }
    assert forall|k: int| !is_power_at(text, k) by {
        if 0 < k < text.len() {
            lemma_decimal_has_no_mark(number, k - 1);
        }
    }
    assert(unsigned(text) =~= number);
}

/// A text without a digit has no value as a size; the empty text is one such.
pub proof fn lemma_no_digit_no_value(text: Seq<char>)
    requires
        digit_count(text) == 0,
    ensures
        size_value(text) is None,
{
    if text.len() > 0 {
        assert(digit_count(text.drop_last()) == 0);
        assert(percent_value(text) is None);
        assert forall|k: int| !is_fraction_at(text, k) by {
            if 0 <= k < text.len() {
                lemma_digit_count_adds(text.take(k), text.skip(k));
                assert(text.take(k) + text.skip(k) =~= text);
            }
        }
        lemma_digit_count_adds(text.take(1), text.skip(1));
        assert(text.take(1) + text.skip(1) =~= text);
        assert forall|k: int| !is_power_at(text, k) by {
            if is_power_at(text, k) {
                let number = text.take(k);
                lemma_digit_count_adds(number, text.skip(k));
                assert(number + text.skip(k) =~= text);
                if number.len() > 0 {
                    lemma_digit_count_adds(number.take(1), number.skip(1));
                    assert(number.take(1) + number.skip(1) =~= number);
                }
            }
        }
    }
}

/// A text with a character that no size is written with has no value as a size.
pub proof fn lemma_foreign_character_no_value(text: Seq<char>, position: int)
    requires
        0 <= position < text.len(),
        !is_digit(text[position]),
        text[position] != '.',
        text[position] != '%',
        text[position] != '/',
        text[position] != '+',
        text[position] != '-',
        text[position] != 'e',
        text[position] != 'E',
    ensures
        size_value(text) is None,
{
    if text.last() == '%' && is_decimal(text.drop_last()) {
        lemma_decimal_characters(text.drop_last(), position);
    }
    assert forall|k: int| !is_fraction_at(text, k) by {
        if is_fraction_at(text, k) {
            if position < k {
                lemma_decimal_characters(text.take(k), position);
            } else {
                lemma_decimal_characters(text.skip(k + 1), position - k - 1);
            }
        }
    }
    assert forall|k: int| !is_power_at(text, k) by {
        lemma_power_characters(text, position, k);
    }
    if is_decimal(unsigned(text)) {
        lemma_signed_characters(text, position);
    }
}

/// A size with a value is a fraction with a denominator that is not zero.
pub proof fn lemma_size_value_is_fraction(text: Seq<char>)
    ensures
        size_value(text) matches Some(value) ==> value.den > 0,
{
    if percent_value(text) is Some {
        lemma_pow10_positive(digits_after_point(text.drop_last()));
    } else if fraction_value(text) is Some {
        let position = choose|position: int| is_fraction_at(text, position);
        let above = decimal_value(text.take(position));
        let below = decimal_value(text.skip(position + 1));
        lemma_pow10_positive(digits_after_point(text.take(position)));
        assert(above.den * below.num > 0) by (nonlinear_arith)
            requires
                above.den > 0,
                below.num > 0,
        ;
    } else if plain_value(text) is Some {
        if exists|position: int| is_power_at(text, position) {
            let position = choose|position: int| is_power_at(text, position);
            let value = decimal_value(unsigned(text.take(position)));
            let power = pow10(digits_number(unsigned(text.skip(position + 1))));
            lemma_pow10_positive(digits_after_point(unsigned(text.take(position))));
            lemma_pow10_positive(digits_number(unsigned(text.skip(position + 1))));
            assert(value.den * power > 0) by (nonlinear_arith)
                requires
                    value.den > 0,
                    power > 0,
            ;
        } else {
            lemma_pow10_positive(digits_after_point(unsigned(text)));
        }
    }
}

} // verus!
