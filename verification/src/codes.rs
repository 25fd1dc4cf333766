//! The integer codes under which the keyboards look words up: serial codes
//! of letters, keypad codes of the nine-key layout, decimal codes of digit
//! sequences, and the abbreviations of Cangjie codes.

use vstd::prelude::*;
use vstd::wrapping::i64_specs;
use crate::error::{DataError, DataErrorView, IntegerErrorKind};
use crate::text::{chars_of, string_of};

verus! {

/// One step of a code that wraps at 64 bits: `value * base + digit` in
/// two's complement arithmetic.
pub open spec fn wrap_step(value: i64, base: i64, digit: i64) -> i64 {
    i64_specs::wrapping_add(i64_specs::wrapping_mul(value, base), digit)
}

/// The digits read in order as a number in `base`, wrapping at 64 bits.
pub open spec fn fold_digits(digits: Seq<i64>, base: i64) -> i64
    decreases digits.len(),
{
    if digits.len() == 0 {
        0
    } else {
        wrap_step(fold_digits(digits.drop_last(), base), base, digits.last())
    }
}

/// The code of a lowercase ASCII letter: `a` is 20, `b` 21, up to `z` at 45;
/// other characters have none.
pub open spec fn spec_letter_code(c: char) -> Option<i64> {
    if 'a' <= c && c <= 'z' {
        Some((c as int - 'a' as int + 20) as i64)
    } else {
        None
    }
}

/// The codes of the lowercase ASCII letters of `s`, in order.
pub open spec fn letter_codes(s: Seq<char>) -> Seq<i64>
    decreases s.len(),
{
    if s.len() == 0 {
        Seq::empty()
    } else {
        match spec_letter_code(s.last()) {
            Some(code) => letter_codes(s.drop_last()).push(code),
            None => letter_codes(s.drop_last()),
        }
    }
}

/// The serial code of a text: the codes of its lowercase ASCII letters read
/// as base-100 digits, wrapping at 64 bits; other characters are skipped.
pub open spec fn spec_serial_code(s: Seq<char>) -> i64 {
    fold_digits(letter_codes(s), 100)
}

/// The key of a lowercase ASCII letter on a phone's nine-key pad; other
/// characters have none.
pub open spec fn spec_keypad_digit(c: char) -> Option<i64> {
    if 'a' <= c && c <= 'c' {
        Some(2)
    } else if 'd' <= c && c <= 'f' {
        Some(3)
    } else if 'g' <= c && c <= 'i' {
        Some(4)
    } else if 'j' <= c && c <= 'l' {
        Some(5)
    } else if 'm' <= c && c <= 'o' {
        Some(6)
    } else if 'p' <= c && c <= 's' {
        Some(7)
    } else if 't' <= c && c <= 'v' {
        Some(8)
    } else if 'w' <= c && c <= 'z' {
        Some(9)
    } else {
        None
    }
}

/// The keys of the lowercase ASCII letters of `s`, in order.
pub open spec fn keypad_digits(s: Seq<char>) -> Seq<i64>
    decreases s.len(),
{
    if s.len() == 0 {
        Seq::empty()
    } else {
        match spec_keypad_digit(s.last()) {
            Some(digit) => keypad_digits(s.drop_last()).push(digit),
            None => keypad_digits(s.drop_last()),
        }
    }
}

/// The keypad code of a text: the keys of its lowercase ASCII letters read
/// as decimal digits, wrapping at 64 bits; other characters are skipped.
pub open spec fn spec_keypad_code(s: Seq<char>) -> i64 {
    fold_digits(keypad_digits(s), 10)
}

/// The decimal code of a sequence of values: the values read as decimal
/// digits, wrapping at 64 bits.
pub open spec fn spec_decimal_code(values: Seq<i64>) -> i64 {
    fold_digits(values, 10)
}

/// The code of a lowercase ASCII letter (see [`spec_letter_code`]).
pub fn letter_code(character: char) -> (result: Option<i64>)
    ensures
        result == spec_letter_code(character),
{
    if 'a' <= character && character <= 'z' {
        Some((character as u32 - 'a' as u32 + 20) as i64)
    } else {
        None
    }
}

/// The key of a lowercase ASCII letter (see [`spec_keypad_digit`]).
pub fn keypad_digit(character: char) -> (result: Option<i64>)
    ensures
        result == spec_keypad_digit(character),
{
    if 'a' <= character && character <= 'c' {
        Some(2)
    } else if 'd' <= character && character <= 'f' {
        Some(3)
    } else if 'g' <= character && character <= 'i' {
        Some(4)
    } else if 'j' <= character && character <= 'l' {
        Some(5)
    } else if 'm' <= character && character <= 'o' {
        Some(6)
    } else if 'p' <= character && character <= 's' {
        Some(7)
    } else if 't' <= character && character <= 'v' {
        Some(8)
    } else if 'w' <= character && character <= 'z' {
        Some(9)
    } else {
        None
    }
}

/// The serial code of a text (see [`spec_serial_code`]).
pub fn serial_code_chars(text: &[char]) -> (result: i64)
    ensures
        result == spec_serial_code(text@),
{
    let mut value: i64 = 0;
    let mut i: usize = 0;
    while i < text.len()
        invariant
            i <= text.len(),
            value == spec_serial_code(text@.take(i as int)),
        decreases text.len() - i,
    {
        assert(text@.take(i + 1).drop_last() =~= text@.take(i as int));
        if let Some(code) = letter_code(text[i]) {
            assert(letter_codes(text@.take(i + 1)).drop_last() =~= letter_codes(
                text@.take(i as int),
            ));
            value = value.wrapping_mul(100).wrapping_add(code);
        }
        i = i + 1;
    }
    assert(text@.take(text.len() as int) =~= text@);
    value
}

/// The serial code of a text: the codes of its lowercase ASCII letters
/// (`a` is 20 up to `z` at 45) read as base-100 digits, wrapping at 64 bits.
pub fn serial_code(text: &str) -> (result: i64)
    ensures
        result == spec_serial_code(text@),
{
    serial_code_chars(&chars_of(text))
}

/// The keypad code of a text (see [`spec_keypad_code`]).
pub fn keypad_code_chars(text: &[char]) -> (result: i64)
    ensures
        result == spec_keypad_code(text@),
{
    let mut value: i64 = 0;
    let mut i: usize = 0;
    while i < text.len()
        invariant
            i <= text.len(),
            value == spec_keypad_code(text@.take(i as int)),
        decreases text.len() - i,
    {
        assert(text@.take(i + 1).drop_last() =~= text@.take(i as int));
        if let Some(digit) = keypad_digit(text[i]) {
            assert(keypad_digits(text@.take(i + 1)).drop_last() =~= keypad_digits(
                text@.take(i as int),
            ));
            value = value.wrapping_mul(10).wrapping_add(digit);
        }
        i = i + 1;
    }
    assert(text@.take(text.len() as int) =~= text@);
    value
}

/// The keypad code of a text: the nine-key pad keys of its lowercase ASCII
/// letters read as decimal digits, wrapping at 64 bits.
pub fn keypad_code(text: &str) -> (result: i64)
    ensures
        result == spec_keypad_code(text@),
{
    keypad_code_chars(&chars_of(text))
}

/// The values read as decimal digits, wrapping at 64 bits.
pub fn decimal_code(values: &[i64]) -> (result: i64)
    ensures
        result == spec_decimal_code(values@),
{
    let mut value: i64 = 0;
    let mut i: usize = 0;
    while i < values.len()
        invariant
            i <= values.len(),
            value == spec_decimal_code(values@.take(i as int)),
        decreases values.len() - i,
    {
        assert(values@.take(i + 1).drop_last() =~= values@.take(i as int));
        value = value.wrapping_mul(10).wrapping_add(values[i]);
        i = i + 1;
    }
    assert(values@.take(values.len() as int) =~= values@);
    value
}

/// The number of characters of a text.
pub fn count_chars(text: &[char]) -> (result: i64)
    requires
        text@.len() <= i64::MAX,
    ensures
        result == text@.len(),
{
    text.len() as i64
}

/// The number of characters of a text.
pub fn character_count(text: &str) -> (result: i64)
    requires
        text@.len() <= i64::MAX,
    ensures
        result == text@.len(),
{
    count_chars(&chars_of(text))
}

/// The abbreviation of a Cangjie code: codes of one or two letters stay as
/// they are, longer ones keep their first and last letters.
pub open spec fn spec_quick_code(cangjie: Seq<char>) -> Seq<char> {
    if cangjie.len() > 2 {
        seq![cangjie[0], cangjie.last()]
    } else {
        cangjie
    }
}

/// The abbreviation of a Cangjie code (see [`spec_quick_code`]).
pub fn quick_code_chars(cangjie: &[char]) -> (result: Vec<char>)
    ensures
        result@ == spec_quick_code(cangjie@),
{
    if cangjie.len() > 2 {
        let mut result: Vec<char> = Vec::new();
        result.push(cangjie[0]);
        result.push(cangjie[cangjie.len() - 1]);
        assert(result@ =~= spec_quick_code(cangjie@));
        result
    } else {
        let mut result: Vec<char> = Vec::new();
        let mut i: usize = 0;
        while i < cangjie.len()
            invariant
                i <= cangjie.len(),
                result@ == cangjie@.take(i as int),
            decreases cangjie.len() - i,
        {
            result.push(cangjie[i]);
            i = i + 1;
            assert(result@ =~= cangjie@.take(i as int));
        }
        assert(cangjie@.take(cangjie.len() as int) =~= cangjie@);
        result
    }
}

/// The abbreviation of a Cangjie code: codes of one or two letters stay as
/// they are, longer ones keep their first and last letters.
pub fn quick_code(cangjie: &str) -> (result: String)
    ensures
        result@ == spec_quick_code(cangjie@),
{
    string_of(&quick_code_chars(&chars_of(cangjie)))
}

/// A definition with each ASCII apostrophe replaced by a right single
/// quotation mark.
pub open spec fn curly_apostrophes(definition: Seq<char>) -> Seq<char> {
    definition.map_values(|c: char| if c == '\'' { '\u{2019}' } else { c })
}

/// A definition with each ASCII apostrophe replaced by a right single
/// quotation mark.
pub fn normalize_definition_chars(definition: &[char]) -> (result: Vec<char>)
    ensures
        result@ == curly_apostrophes(definition@),
{
    let mut result: Vec<char> = Vec::new();
    let mut i: usize = 0;
    while i < definition.len()
        invariant
            i <= definition.len(),
            result@ == curly_apostrophes(definition@.take(i as int)),
        decreases definition.len() - i,
    {
        let character = definition[i];
        if character == '\'' {
            result.push('\u{2019}');
        } else {
            result.push(character);
        }
        i = i + 1;
        assert(result@ =~= curly_apostrophes(definition@.take(i as int)));
    }
    assert(definition@.take(definition.len() as int) =~= definition@);
    result
}

/// A definition with each ASCII apostrophe replaced by a right single
/// quotation mark.
pub fn normalize_definition(definition: &str) -> (result: String)
    ensures
        result@ == curly_apostrophes(definition@),
{
    string_of(&normalize_definition_chars(&chars_of(definition)))
}

/// Whether a code point is a CJK unified or compatibility ideograph, a
/// radical, or the ideographic number zero.
pub open spec fn spec_is_generic_cjkv(code: u32) -> bool {
    ||| (0x4E00 <= code <= 0x9FFF)
    ||| (0x3400 <= code <= 0x4DBF)
    ||| (0x20000 <= code <= 0x2A6DF)
    ||| (0x2A700 <= code <= 0x2B73F)
    ||| (0x2B740 <= code <= 0x2B81F)
    ||| (0x2B820 <= code <= 0x2CEAF)
    ||| (0x2CEB0 <= code <= 0x2EBEF)
    ||| (0x30000 <= code <= 0x3134F)
    ||| (0x31350 <= code <= 0x323AF)
    ||| (0x2EBF0 <= code <= 0x2EE5F)
    ||| (0x323B0 <= code <= 0x33479)
    ||| code == 0x3007
    ||| (0x2E80 <= code <= 0x2E99)
    ||| (0x2E9B <= code <= 0x2EF3)
    ||| (0x2F00 <= code <= 0x2FD5)
    ||| (0xF900 <= code <= 0xFA6D)
    ||| (0xFA70 <= code <= 0xFAD9)
    ||| (0x2F800 <= code <= 0x2FA1D)
}

/// Whether a code point is a CJK unified or compatibility ideograph, a
/// radical, or the ideographic number zero (see [`spec_is_generic_cjkv`]).
pub fn is_generic_cjkv(code: u32) -> (result: bool)
    ensures
        result == spec_is_generic_cjkv(code),
{
    (0x4E00 <= code && code <= 0x9FFF) || (0x3400 <= code && code <= 0x4DBF) || (0x20000 <= code
        && code <= 0x2A6DF) || (0x2A700 <= code && code <= 0x2B73F) || (0x2B740 <= code && code
        <= 0x2B81F) || (0x2B820 <= code && code <= 0x2CEAF) || (0x2CEB0 <= code && code
        <= 0x2EBEF) || (0x30000 <= code && code <= 0x3134F) || (0x31350 <= code && code
        <= 0x323AF) || (0x2EBF0 <= code && code <= 0x2EE5F) || (0x323B0 <= code && code
        <= 0x33479) || code == 0x3007 || (0x2E80 <= code && code <= 0x2E99) || (0x2E9B <= code
        && code <= 0x2EF3) || (0x2F00 <= code && code <= 0x2FD5) || (0xF900 <= code && code
        <= 0xFA6D) || (0xFA70 <= code && code <= 0xFAD9) || (0x2F800 <= code && code <= 0x2FA1D)
}


/// The code point of the first character of a word, as an integer; an
/// empty word has none.
pub open spec fn spec_first_code_point(word: Seq<char>) -> Option<i64> {
    if word.len() > 0 {
        Some((word[0] as u32) as i64)
    } else {
        None
    }
}

/// The code point of the first character of a word of `file_name`; an
/// empty word is an error.
pub fn first_code_point(word: &[char], file_name: &str) -> (result: Result<i64, DataError>)
    ensures
        match spec_first_code_point(word@) {
            Some(code) => result == Ok::<i64, DataError>(code),
            None => result matches Err(error) && error@ == (DataErrorView::EmptyWord {
                file: file_name@,
            }),
        },
{
    if word.len() > 0 {
        Ok((word[0] as u32) as i64)
    } else {
        Err(DataError::EmptyWord { file: file_name.to_owned() })
    }
}

/// Whether every character of `s` is an ASCII digit.
pub open spec fn all_ascii_digits(s: Seq<char>) -> bool {
    forall|i: int| 0 <= i < s.len() ==> '0' <= #[trigger] s[i] && s[i] <= '9'
}

/// The ASCII digits of `s` read as a decimal number.
pub open spec fn digits_value(s: Seq<char>) -> int
    decreases s.len(),
{
    if s.len() == 0 {
        0
    } else {
        10 * digits_value(s.drop_last()) + (s.last() as int - '0' as int)
    }
}

/// The integer that a text writes in decimal (`i64::from_str`): an optional
/// `+` or `-` sign, then one or more ASCII digits, nothing else, and a value
/// that an `i64` holds.
pub open spec fn spec_parse_integer(s: Seq<char>) -> Option<i64> {
    let negative = s.len() > 0 && s[0] == '-';
    let digits = if s.len() > 0 && (s[0] == '-' || s[0] == '+') {
        s.drop_first()
    } else {
        s
    };
    let value = if negative {
        -digits_value(digits)
    } else {
        digits_value(digits)
    };
    if digits.len() == 0 || !all_ascii_digits(digits) || value < i64::MIN || value > i64::MAX {
        None
    } else {
        Some(value as i64)
    }
}

proof fn lemma_digits_value_nonnegative(s: Seq<char>)
    requires
        all_ascii_digits(s),
    ensures
        digits_value(s) >= 0,
    decreases s.len(),
{
    if s.len() > 0 {
        assert(all_ascii_digits(s.drop_last())) by {
            assert forall|i: int| 0 <= i < s.drop_last().len() implies '0' <= #[trigger] s.drop_last()[i]
                && s.drop_last()[i] <= '9' by {
                assert(s.drop_last()[i] == s[i]);
            }
        }
        lemma_digits_value_nonnegative(s.drop_last());
        assert('0' <= s[s.len() - 1]);
    }
}

/// The integer that a text writes in decimal (see [`spec_parse_integer`]);
/// any other text is an error.
pub fn parse_integer(text: &[char]) -> (result: Result<i64, DataError>)
    ensures
        match spec_parse_integer(text@) {
            Some(value) => result == Ok::<i64, DataError>(value),
            None => result matches Err(error) && error@ == (DataErrorView::InvalidInteger {
                text: text@,
            }),
        },
{
    let negative = text.len() > 0 && text[0] == '-';
    let start: usize = if text.len() > 0 && (text[0] == '-' || text[0] == '+') {
        1
    } else {
        0
    };
    let ghost digits = text@.skip(start as int);
    assert(digits =~= if text@.len() > 0 && (text@[0] == '-' || text@[0] == '+') {
        text@.drop_first()
    } else {
        text@
    });
    // The magnitude, exact while it stays at most 2^63; once above, only
    // known to be above.
    let limit: u128 = 0x8000_0000_0000_0000;
    let mut magnitude: u128 = 0;
    let mut valid = start < text.len();
    let mut i: usize = start;
    while i < text.len()
        invariant
            start <= i <= text.len(),
            digits == text@.skip(start as int),
            limit == 0x8000_0000_0000_0000u128,
            valid ==> all_ascii_digits(text@.subrange(start as int, i as int)),
            valid ==> magnitude <= limit ==> magnitude == digits_value(
                text@.subrange(start as int, i as int),
            ),
            valid ==> magnitude > limit ==> digits_value(text@.subrange(start as int, i as int))
                > limit,
            valid ==> magnitude <= limit * 10 + 9,
            !valid ==> (digits.len() == 0 || !all_ascii_digits(digits)),
            start < text.len() || !valid,
        decreases text.len() - i,
    {
        let character = text[i];
        let ghost before = text@.subrange(start as int, i as int);
        let ghost after = text@.subrange(start as int, i + 1);
        assert(after.drop_last() =~= before);
        if '0' <= character && character <= '9' {
            if valid {
                proof {
                    lemma_digits_value_nonnegative(before);
                    assert(all_ascii_digits(after));
                }
                if magnitude <= limit {
                    magnitude = magnitude * 10 + (character as u32 - '0' as u32) as u128;
                }
            }
        } else {
            if valid {
                assert(digits[i - start] == character);
            }
            valid = false;
        }
        i = i + 1;
    }
    assert(text@.subrange(start as int, text.len() as int) =~= digits);
    if !valid {
        return Err(DataError::InvalidInteger { text: string_of(text) });
    }
    proof {
        lemma_digits_value_nonnegative(digits);
    }
    if negative {
        if magnitude > limit {
            Err(DataError::InvalidInteger { text: string_of(text) })
        } else if magnitude == limit {
            Ok(i64::MIN)
        } else {
            Ok(-(magnitude as i64))
        }
    } else {
        if magnitude >= limit {
            Err(DataError::InvalidInteger { text: string_of(text) })
        } else {
            Ok(magnitude as i64)
        }
    }
}

/// Why digits after an optional sign are no integer, as `i64::from_str`
/// finds it reading them in order: the first character that is no ASCII
/// digit, or the first digit after which the magnitude leaves the range
/// (above `i64::MAX`, or for a negative number above 2^63); none when they
/// are an integer.
pub open spec fn digits_failure(digits: Seq<char>, negative: bool) -> Option<IntegerErrorKind>
    decreases digits.len(),
{
    if digits.len() == 0 {
        None
    } else {
        match digits_failure(digits.drop_last(), negative) {
            Some(kind) => Some(kind),
            None => if !('0' <= digits.last() && digits.last() <= '9') {
                Some(IntegerErrorKind::InvalidDigit)
            } else if negative && digits_value(digits) > 0x8000_0000_0000_0000 {
                Some(IntegerErrorKind::NegOverflow)
            } else if !negative && digits_value(digits) > i64::MAX {
                Some(IntegerErrorKind::PosOverflow)
            } else {
                None
            },
        }
    }
}

/// Why a text is no integer for `i64::from_str`: it is empty; it is a sign
/// alone; or its digits fail (see [`digits_failure`]). None when it is an
/// integer.
pub open spec fn integer_error(s: Seq<char>) -> Option<IntegerErrorKind> {
    if s.len() == 0 {
        Some(IntegerErrorKind::Empty)
    } else {
        let negative = s[0] == '-';
        let digits = if s[0] == '-' || s[0] == '+' {
            s.drop_first()
        } else {
            s
        };
        if digits.len() == 0 {
            Some(IntegerErrorKind::InvalidDigit)
        } else {
            digits_failure(digits, negative)
        }
    }
}

proof fn lemma_digits_failure(digits: Seq<char>, negative: bool)
    ensures
        digits_failure(digits, negative) is None <==> all_ascii_digits(digits) && digits_value(digits)
            <= (if negative {
            0x8000_0000_0000_0000
        } else {
            i64::MAX as int
        }),
    decreases digits.len(),
{
    if digits.len() > 0 {
        let previous = digits.drop_last();
        lemma_digits_failure(previous, negative);
        if all_ascii_digits(digits) {
            assert(all_ascii_digits(previous)) by {
                assert forall|i: int| 0 <= i < previous.len() implies '0' <= #[trigger] previous[i]
                    && previous[i] <= '9' by {
                    assert(previous[i] == digits[i]);
                }
            }
            lemma_digits_value_nonnegative(previous);
            assert('0' <= digits[digits.len() - 1]);
        }
        if all_ascii_digits(previous) && '0' <= digits.last() && digits.last() <= '9' {
            assert forall|i: int| 0 <= i < digits.len() implies '0' <= #[trigger] digits[i] && digits[i]
                <= '9' by {
                if i < previous.len() {
                    assert(previous[i] == digits[i]);
                }
            }
        }
        if !('0' <= digits.last() && digits.last() <= '9') {
            assert(!all_ascii_digits(digits)) by {
                assert(digits[digits.len() - 1] == digits.last());
            }
        }
        if !all_ascii_digits(previous) {
            assert(!all_ascii_digits(digits)) by {
                let i = choose|i: int| 0 <= i < previous.len() && !('0' <= #[trigger] previous[i] && previous[i] <= '9');
                assert(previous[i] == digits[i]);
            }
        }
    }
}

/// A text is no integer exactly when it has a reason (see
/// [`integer_error`]).
pub proof fn lemma_integer_error(s: Seq<char>)
    ensures
        spec_parse_integer(s) is None <==> integer_error(s) is Some,
{
    if s.len() > 0 {
        let negative = s[0] == '-';
        let digits = if s[0] == '-' || s[0] == '+' {
            s.drop_first()
        } else {
            s
        };
        lemma_digits_failure(digits, negative);
        if all_ascii_digits(digits) {
            lemma_digits_value_nonnegative(digits);
        }
    }
}

/// Why a text is no integer (see [`integer_error`]).
pub fn integer_error_kind(text: &[char]) -> (result: Option<IntegerErrorKind>)
    ensures
        result == integer_error(text@),
{
    if text.len() == 0 {
        return Some(IntegerErrorKind::Empty);
    }
    let negative = text[0] == '-';
    let start: usize = if text[0] == '-' || text[0] == '+' {
        1
    } else {
        0
    };
    let ghost digits = text@.skip(start as int);
    assert(digits =~= if text@[0] == '-' || text@[0] == '+' {
        text@.drop_first()
    } else {
        text@
    });
    if start == text.len() {
        return Some(IntegerErrorKind::InvalidDigit);
    }
    let limit: u128 = if negative {
        0x8000_0000_0000_0000
    } else {
        0x7FFF_FFFF_FFFF_FFFF
    };
    let mut magnitude: u128 = 0;
    let mut i: usize = start;
    assert(digits.take(0) =~= Seq::<char>::empty());
    assert(integer_error(text@) == digits_failure(digits, negative));
    while i < text.len()
        invariant
            start <= i <= text.len(),
            integer_error(text@) == digits_failure(digits, negative),
            digits == text@.skip(start as int),
            limit == (if negative {
                0x8000_0000_0000_0000u128
            } else {
                0x7FFF_FFFF_FFFF_FFFFu128
            }),
            digits_failure(digits.take(i - start), negative) is None,
            magnitude == digits_value(digits.take(i - start)),
            magnitude <= limit,
        decreases text.len() - i,
    {
        let ghost before = digits.take(i - start);
        let ghost after = digits.take(i - start + 1);
        assert(after.drop_last() =~= before);
        assert(after.last() == text@[i as int]);
        let character = text[i];
        if !('0' <= character && character <= '9') {
            assert(digits_failure(after, negative) == Some(IntegerErrorKind::InvalidDigit));
            proof {
                lemma_digits_failure_stays(digits, negative, i - start + 1);
            }
            return Some(IntegerErrorKind::InvalidDigit);
        }
        magnitude = magnitude * 10 + (character as u32 - '0' as u32) as u128;
        assert(magnitude == digits_value(after));
        if magnitude > limit {
            assert(digits_failure(after, negative) is Some);
            proof {
                lemma_digits_failure_stays(digits, negative, i - start + 1);
            }
            if negative {
                return Some(IntegerErrorKind::NegOverflow);
            } else {
                return Some(IntegerErrorKind::PosOverflow);
            }
        }
        i = i + 1;
    }
    assert(digits.take(i - start) =~= digits);
    None
}

proof fn lemma_digits_failure_stays(digits: Seq<char>, negative: bool, k: int)
    requires
        0 <= k <= digits.len(),
        digits_failure(digits.take(k), negative) is Some,
    ensures
        digits_failure(digits, negative) == digits_failure(digits.take(k), negative),
    decreases digits.len() - k,
{
    if k < digits.len() {
        assert(digits.take(k + 1).drop_last() =~= digits.take(k));
        lemma_digits_failure_stays(digits, negative, k + 1);
    } else {
        assert(digits.take(k) =~= digits);
    }
}

} // verus!
