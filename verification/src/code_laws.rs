//! What the codes are: the digits read positionally, reduced to 64 bits in
//! two's complement; the exact positional value whenever it fits.

use vstd::prelude::*;
use vstd::arithmetic::div_mod::{lemma_fundamental_div_mod, lemma_mod_bound, lemma_mod_multiples_basic, lemma_small_mod};
use vstd::arithmetic::power::{lemma_pow0, lemma_pow1, lemma_pow_adds, lemma_pow_increases, lemma_pow_positive, pow};
use vstd::wrapping::i64_specs;
use crate::lexicon::ascii_lowercase_letters;
use crate::codes::{
    curly_apostrophes, fold_digits, keypad_digits, letter_codes, spec_decimal_code, spec_keypad_code,
    spec_is_generic_cjkv, spec_keypad_digit, spec_quick_code, spec_letter_code, spec_serial_code, wrap_step,
};

verus! {

/// The number of values of a 64-bit integer.
pub open spec fn two_to_64() -> int {
    0x1_0000_0000_0000_0000
}

/// The digits read in order as a number in `base`, exactly.
pub open spec fn positional(digits: Seq<i64>, base: int) -> int
    decreases digits.len(),
{
    if digits.len() == 0 {
        0
    } else {
        positional(digits.drop_last(), base) * base + digits.last()
    }
}

proof fn lemma_crop(x: int) -> (j: int)
    ensures
        i64_specs::signed_crop(x) as int == x - j * two_to_64(),
{
    let m = two_to_64();
    lemma_fundamental_div_mod(x, m);
    lemma_mod_bound(x, m);
    let r = x % m;
    assert(x == m * (x / m) + r);
    assert(m * (x / m) == (x / m) * m) by (nonlinear_arith);
    if r > i64::MAX {
        assert(i64_specs::signed_crop(x) as int == r - m);
        x / m + 1
    } else {
        assert(i64_specs::signed_crop(x) as int == r);
        x / m
    }
}

proof fn lemma_fold_digits_congruent(digits: Seq<i64>, base: i64) -> (k: int)
    ensures
        fold_digits(digits, base) as int == positional(digits, base as int) + k * two_to_64(),
    decreases digits.len(),
{
    if digits.len() == 0 {
        0
    } else {
        let m = two_to_64();
        let previous = fold_digits(digits.drop_last(), base);
        let value = positional(digits.drop_last(), base as int);
        let k0 = lemma_fold_digits_congruent(digits.drop_last(), base);
        let product = previous as int * base as int;
        let j = lemma_crop(product);
        let cropped = i64_specs::wrapping_mul(previous, base);
        let digit = digits.last();
        let sum = cropped as int + digit as int;
        let result = wrap_step(previous, base, digit);
        let t: int = if sum > i64::MAX {
            -1
        } else if sum < i64::MIN {
            1
        } else {
            0
        };
        assert(result as int == sum + t * m);
        assert(product == value * base + (k0 * base) * m) by (nonlinear_arith)
            requires
                previous as int == value + k0 * m,
                product == previous as int * base as int,
        ;
        k0 * base - j + t
    }
}

/// The digits' wrapped code differs from their exact value by a multiple
/// of 2^64.
pub proof fn lemma_fold_digits_modulo(digits: Seq<i64>, base: i64)
    ensures
        (fold_digits(digits, base) as int - positional(digits, base as int)) % two_to_64() == 0,
{
    let k = lemma_fold_digits_congruent(digits, base);
    lemma_mod_multiples_basic(k, two_to_64());
    assert(fold_digits(digits, base) as int - positional(digits, base as int) == k * two_to_64());
}

proof fn lemma_positional_nonnegative(digits: Seq<i64>, base: int)
    requires
        base >= 1,
        forall|i: int| 0 <= i < digits.len() ==> #[trigger] digits[i] >= 0,
    ensures
        positional(digits, base) >= 0,
        digits.len() > 0 ==> positional(digits.drop_last(), base) <= positional(digits, base),
    decreases digits.len(),
{
    if digits.len() > 0 {
        assert forall|i: int| 0 <= i < digits.drop_last().len() implies #[trigger] digits.drop_last()[i]
            >= 0 by {
            assert(digits.drop_last()[i] == digits[i]);
        }
        lemma_positional_nonnegative(digits.drop_last(), base);
        let previous = positional(digits.drop_last(), base);
        assert(previous * base >= previous) by (nonlinear_arith)
            requires
                previous >= 0,
                base >= 1,
        ;
        assert(digits.last() >= 0);
    }
}

/// Non-negative digits whose exact value fits in an `i64` have that value
/// as their code: nothing wraps.
pub proof fn lemma_fold_digits_exact(digits: Seq<i64>, base: i64)
    requires
        base >= 1,
        forall|i: int| 0 <= i < digits.len() ==> #[trigger] digits[i] >= 0,
        positional(digits, base as int) <= i64::MAX,
    ensures
        fold_digits(digits, base) as int == positional(digits, base as int),
    decreases digits.len(),
{
    if digits.len() > 0 {
        lemma_positional_nonnegative(digits, base as int);
        assert forall|i: int| 0 <= i < digits.drop_last().len() implies #[trigger] digits.drop_last()[i]
            >= 0 by {
            assert(digits.drop_last()[i] == digits[i]);
        }
        lemma_positional_nonnegative(digits.drop_last(), base as int);
        lemma_fold_digits_exact(digits.drop_last(), base);
        let previous = fold_digits(digits.drop_last(), base);
        let value = positional(digits.drop_last(), base as int);
        let product = previous as int * base as int;
        assert(product >= 0 && product <= value * base) by (nonlinear_arith)
            requires
                previous as int == value,
                value >= 0,
                product == previous as int * base as int,
                base >= 1,
        ;
        assert(product < two_to_64());
        lemma_small_mod(product as nat, two_to_64() as nat);
        assert(i64_specs::wrapping_mul(previous, base) as int == product);
    }
}

/// The exact value of the serial code of a text: its letter codes as
/// base-100 digits.
pub open spec fn serial_value(s: Seq<char>) -> int {
    positional(letter_codes(s), 100)
}

/// The exact value of the keypad code of a text: its keys as decimal
/// digits.
pub open spec fn keypad_value(s: Seq<char>) -> int {
    positional(keypad_digits(s), 10)
}

proof fn lemma_letter_codes_range(s: Seq<char>)
    ensures
        forall|i: int| 0 <= i < letter_codes(s).len() ==> 20 <= #[trigger] letter_codes(s)[i] <= 45,
    decreases s.len(),
{
    if s.len() > 0 {
        lemma_letter_codes_range(s.drop_last());
        let previous = letter_codes(s.drop_last());
        let current = letter_codes(s);
        assert forall|i: int| 0 <= i < current.len() implies 20 <= #[trigger] current[i] <= 45 by {
            if i < previous.len() {
                assert(current[i] == previous[i]);
            }
        }
    }
}

proof fn lemma_keypad_digits_range(s: Seq<char>)
    ensures
        forall|i: int| 0 <= i < keypad_digits(s).len() ==> 2 <= #[trigger] keypad_digits(s)[i] <= 9,
    decreases s.len(),
{
    if s.len() > 0 {
        lemma_keypad_digits_range(s.drop_last());
        let previous = keypad_digits(s.drop_last());
        let current = keypad_digits(s);
        assert forall|i: int| 0 <= i < current.len() implies 2 <= #[trigger] current[i] <= 9 by {
            if i < previous.len() {
                assert(current[i] == previous[i]);
            }
        }
    }
}

/// A serial code is its exact value reduced to 64 bits in two's
/// complement, and is that value whenever it fits in an `i64`.
pub proof fn lemma_serial_code_wraps(s: Seq<char>)
    ensures
        (spec_serial_code(s) as int - serial_value(s)) % two_to_64() == 0,
        serial_value(s) <= i64::MAX ==> spec_serial_code(s) as int == serial_value(s),
{
    lemma_fold_digits_modulo(letter_codes(s), 100);
    lemma_letter_codes_range(s);
    if serial_value(s) <= i64::MAX {
        lemma_fold_digits_exact(letter_codes(s), 100);
    }
}

/// A keypad code is its exact value reduced to 64 bits in two's
/// complement, and is that value whenever it fits in an `i64`.
pub proof fn lemma_keypad_code_wraps(s: Seq<char>)
    ensures
        (spec_keypad_code(s) as int - keypad_value(s)) % two_to_64() == 0,
        keypad_value(s) <= i64::MAX ==> spec_keypad_code(s) as int == keypad_value(s),
{
    lemma_fold_digits_modulo(keypad_digits(s), 10);
    lemma_keypad_digits_range(s);
    if keypad_value(s) <= i64::MAX {
        lemma_fold_digits_exact(keypad_digits(s), 10);
    }
}

/// A decimal code is the values' exact decimal reading reduced to 64 bits
/// in two's complement, and, for non-negative values, is that reading
/// whenever it fits in an `i64`.
pub proof fn lemma_decimal_code_wraps(values: Seq<i64>)
    ensures
        (spec_decimal_code(values) as int - positional(values, 10)) % two_to_64() == 0,
        (forall|i: int| 0 <= i < values.len() ==> #[trigger] values[i] >= 0) && positional(values, 10)
            <= i64::MAX ==> spec_decimal_code(values) as int == positional(values, 10),
{
    lemma_fold_digits_modulo(values, 10);
    if (forall|i: int| 0 <= i < values.len() ==> #[trigger] values[i] >= 0) && positional(values, 10)
        <= i64::MAX {
        lemma_fold_digits_exact(values, 10);
    }
}


/// Whether every character of `s` is a lowercase ASCII letter.
pub open spec fn all_lowercase(s: Seq<char>) -> bool {
    forall|i: int| 0 <= i < s.len() ==> 'a' <= #[trigger] s[i] && s[i] <= 'z'
}

proof fn lemma_letter_codes_of_lowercase(s: Seq<char>)
    requires
        all_lowercase(s),
    ensures
        letter_codes(s).len() == s.len(),
        forall|i: int| 0 <= i < s.len() ==> #[trigger] letter_codes(s)[i] == s[i] as int - 'a' as int
            + 20,
    decreases s.len(),
{
    if s.len() > 0 {
        assert(all_lowercase(s.drop_last())) by {
            assert forall|i: int| 0 <= i < s.drop_last().len() implies 'a' <= #[trigger] s.drop_last()[i]
                && s.drop_last()[i] <= 'z' by {
                assert(s.drop_last()[i] == s[i]);
            }
        }
        lemma_letter_codes_of_lowercase(s.drop_last());
        assert('a' <= s[s.len() - 1] && s[s.len() - 1] <= 'z');
        let previous = letter_codes(s.drop_last());
        let current = letter_codes(s);
        assert forall|i: int| 0 <= i < s.len() implies #[trigger] current[i] == s[i] as int - 'a' as int
            + 20 by {
            if i < s.len() - 1 {
                assert(current[i] == previous[i]);
                assert(s.drop_last()[i] == s[i]);
            }
        }
    }
}

proof fn lemma_positional_bound(digits: Seq<i64>, bound: int)
    requires
        forall|i: int| 0 <= i < digits.len() ==> 0 <= #[trigger] digits[i] < 100,
        digits.len() <= bound,
        bound >= 0,
    ensures
        0 <= positional(digits, 100),
        positional(digits, 100) < vstd::arithmetic::power::pow(100, digits.len()),
    decreases digits.len(),
{
    vstd::arithmetic::power::lemma_pow0(100);
    if digits.len() > 0 {
        assert forall|i: int| 0 <= i < digits.drop_last().len() implies 0 <= #[trigger] digits.drop_last()[i]
            < 100 by {
            assert(digits.drop_last()[i] == digits[i]);
        }
        lemma_positional_bound(digits.drop_last(), bound);
        let previous = positional(digits.drop_last(), 100);
        let limit = vstd::arithmetic::power::pow(100, (digits.len() - 1) as nat);
        vstd::arithmetic::power::lemma_pow_adds(100, (digits.len() - 1) as nat, 1);
        vstd::arithmetic::power::lemma_pow1(100);
        let last = digits.last();
        assert(0 <= last < 100);
        assert(previous * 100 + last < limit * 100) by (nonlinear_arith)
            requires
                0 <= previous < limit,
                0 <= last < 100,
        ;
        assert(previous * 100 + last >= 0) by (nonlinear_arith)
            requires
                0 <= previous,
                0 <= last,
        ;
    }
}

proof fn lemma_positional_injective(a: Seq<i64>, b: Seq<i64>)
    requires
        forall|i: int| 0 <= i < a.len() ==> 20 <= #[trigger] a[i] <= 45,
        forall|i: int| 0 <= i < b.len() ==> 20 <= #[trigger] b[i] <= 45,
        positional(a, 100) == positional(b, 100),
    ensures
        a == b,
    decreases a.len() + b.len(),
{
    lemma_positional_bound(a, a.len() as int);
    lemma_positional_bound(b, b.len() as int);
    if a.len() == 0 && b.len() == 0 {
        assert(a =~= b);
    } else if a.len() == 0 {
        let previous = positional(b.drop_last(), 100);
        assert forall|i: int| 0 <= i < b.drop_last().len() implies 20 <= #[trigger] b.drop_last()[i]
            <= 45 by {
            assert(b.drop_last()[i] == b[i]);
        }
        lemma_positional_bound(b.drop_last(), b.len() as int);
        assert(b.last() >= 20);
        assert(previous * 100 >= 0) by (nonlinear_arith)
            requires
                previous >= 0,
        ;
    } else if b.len() == 0 {
        let previous = positional(a.drop_last(), 100);
        assert forall|i: int| 0 <= i < a.drop_last().len() implies 20 <= #[trigger] a.drop_last()[i]
            <= 45 by {
            assert(a.drop_last()[i] == a[i]);
        }
        lemma_positional_bound(a.drop_last(), a.len() as int);
        assert(a.last() >= 20);
        assert(previous * 100 >= 0) by (nonlinear_arith)
            requires
                previous >= 0,
        ;
    } else {
        let pa = positional(a.drop_last(), 100);
        let pb = positional(b.drop_last(), 100);
        let la = a.last() as int;
        let lb = b.last() as int;
        assert(20 <= la <= 45);
        assert(20 <= lb <= 45);
        assert(pa * 100 + la == pb * 100 + lb);
        assert(la == lb && pa == pb) by (nonlinear_arith)
            requires
                pa * 100 + la == pb * 100 + lb,
                0 <= la < 100,
                0 <= lb < 100,
        ;
        assert forall|i: int| 0 <= i < a.drop_last().len() implies 20 <= #[trigger] a.drop_last()[i]
            <= 45 by {
            assert(a.drop_last()[i] == a[i]);
        }
        assert forall|i: int| 0 <= i < b.drop_last().len() implies 20 <= #[trigger] b.drop_last()[i]
            <= 45 by {
            assert(b.drop_last()[i] == b[i]);
        }
        lemma_positional_injective(a.drop_last(), b.drop_last());
        assert(a =~= a.drop_last().push(a.last()));
        assert(b =~= b.drop_last().push(b.last()));
    }
}

/// Words of at most nine lowercase ASCII letters have distinct serial
/// codes: every letter takes exactly two decimal digits and nothing wraps.
pub proof fn lemma_serial_code_injective(a: Seq<char>, b: Seq<char>)
    requires
        all_lowercase(a),
        all_lowercase(b),
        a.len() <= 9,
        b.len() <= 9,
        spec_serial_code(a) == spec_serial_code(b),
    ensures
        a == b,
{
    lemma_letter_codes_of_lowercase(a);
    lemma_letter_codes_of_lowercase(b);
    lemma_letter_codes_range(a);
    lemma_letter_codes_range(b);
    let codes_a = letter_codes(a);
    let codes_b = letter_codes(b);
    lemma_positional_bound(codes_a, 9);
    lemma_positional_bound(codes_b, 9);
    vstd::arithmetic::power::lemma_pow_increases(100, codes_a.len(), 9);
    vstd::arithmetic::power::lemma_pow_increases(100, codes_b.len(), 9);
    assert(vstd::arithmetic::power::pow(100, 9) == 1_000_000_000_000_000_000) by {
        reveal_with_fuel(vstd::arithmetic::power::pow, 10);
    }
    lemma_serial_code_wraps(a);
    lemma_serial_code_wraps(b);
    lemma_positional_injective(codes_a, codes_b);
    assert forall|i: int| 0 <= i < a.len() implies a[i] == b[i] by {
        assert(codes_a[i] == codes_b[i]);
    }
    assert(a =~= b);
}


/// The letter codes and keys of a text are those of its lowercase ASCII
/// letters alone.
proof fn lemma_digits_of_letters(s: Seq<char>)
    ensures
        letter_codes(ascii_lowercase_letters(s)) == letter_codes(s),
        keypad_digits(ascii_lowercase_letters(s)) == keypad_digits(s),
    decreases s.len(),
{
    if s.len() > 0 {
        lemma_digits_of_letters(s.drop_last());
        let letters = ascii_lowercase_letters(s);
        let c = s.last();
        if 'a' <= c && c <= 'z' {
            assert(letters.drop_last() =~= ascii_lowercase_letters(s.drop_last()));
            assert(letters.last() == c);
        } else {
            assert(letters == ascii_lowercase_letters(s.drop_last()));
        }
    }
}

/// Serial and keypad codes see only the lowercase ASCII letters of a text:
/// a text and its letters have the same codes.
pub proof fn lemma_codes_of_letters(s: Seq<char>)
    ensures
        spec_serial_code(ascii_lowercase_letters(s)) == spec_serial_code(s),
        spec_keypad_code(ascii_lowercase_letters(s)) == spec_keypad_code(s),
{
    lemma_digits_of_letters(s);
}

/// A normalized definition has the length of the definition, keeps every
/// character but the ASCII apostrophe, and holds no ASCII apostrophe.
pub proof fn lemma_curly_apostrophes(definition: Seq<char>)
    ensures
        curly_apostrophes(definition).len() == definition.len(),
        forall|i: int| 0 <= i < definition.len() ==> #[trigger] curly_apostrophes(definition)[i] != '\'',
        forall|i: int|
            0 <= i < definition.len() && definition[i] != '\'' ==> #[trigger] curly_apostrophes(
                definition,
            )[i] == definition[i],
{
}


/// An integer reduced to 64 bits in two's complement: the `i64` that
/// `wrapping_mul` and `wrapping_add` give for it.
pub open spec fn wrap64(x: int) -> i64 {
    i64_specs::signed_crop(x)
}

proof fn lemma_crop_unique(x: int, y: i64, q: int)
    requires
        y as int == x + q * two_to_64(),
    ensures
        wrap64(x) == y,
{
    let j = lemma_crop(x);
    let c = i64_specs::signed_crop(x) as int;
    let t = -(j + q);
    assert(c - y as int == t * two_to_64()) by (nonlinear_arith)
        requires
            c == x - j * two_to_64(),
            y as int == x + q * two_to_64(),
            t == -(j + q),
    ;
    assert(t == 0);
}

proof fn lemma_positional_concat(xs: Seq<i64>, ys: Seq<i64>, base: int)
    ensures
        positional(xs + ys, base) == positional(xs, base) * pow(base, ys.len()) + positional(ys, base),
    decreases ys.len(),
{
    lemma_pow0(base);
    if ys.len() == 0 {
        assert(xs + ys =~= xs);
    } else {
        lemma_positional_concat(xs, ys.drop_last(), base);
        assert((xs + ys).drop_last() =~= xs + ys.drop_last());
        assert((xs + ys).last() == ys.last());
        lemma_pow_adds(base, (ys.len() - 1) as nat, 1);
        lemma_pow1(base);
        let px = positional(xs, base);
        let py = positional(ys.drop_last(), base);
        let p = pow(base, (ys.len() - 1) as nat);
        let l = ys.last() as int;
        assert((px * p + py) * base + l == px * (p * base) + (py * base + l)) by (nonlinear_arith);
    }
}

/// Digits read after other digits: the code of the two together is the
/// first code shifted by one place for each further digit, plus the second
/// code, in 64-bit two's complement.
pub proof fn lemma_fold_digits_concat(xs: Seq<i64>, ys: Seq<i64>, base: i64)
    ensures
        fold_digits(xs + ys, base) == wrap64(
            fold_digits(xs, base) as int * pow(base as int, ys.len()) + fold_digits(ys, base) as int,
        ),
{
    let m = two_to_64();
    let k0 = lemma_fold_digits_congruent(xs + ys, base);
    let k1 = lemma_fold_digits_congruent(xs, base);
    let k2 = lemma_fold_digits_congruent(ys, base);
    lemma_positional_concat(xs, ys, base as int);
    let p = pow(base as int, ys.len());
    let fx = fold_digits(xs, base) as int;
    let fy = fold_digits(ys, base) as int;
    let f = fold_digits(xs + ys, base) as int;
    let px = positional(xs, base as int);
    let py = positional(ys, base as int);
    let x = fx * p + fy;
    assert(f == x + (k0 - k1 * p - k2) * m) by (nonlinear_arith)
        requires
            f == px * p + py + k0 * m,
            fx == px + k1 * m,
            fy == py + k2 * m,
            x == fx * p + fy,
    ;
    lemma_crop_unique(x, fold_digits(xs + ys, base), k0 - k1 * p - k2);
}

proof fn lemma_letter_codes_concat(a: Seq<char>, b: Seq<char>)
    ensures
        letter_codes(a + b) == letter_codes(a) + letter_codes(b),
        keypad_digits(a + b) == keypad_digits(a) + keypad_digits(b),
    decreases b.len(),
{
    if b.len() == 0 {
        assert(a + b =~= a);
        assert(letter_codes(a) + letter_codes(b) =~= letter_codes(a));
        assert(keypad_digits(a) + keypad_digits(b) =~= keypad_digits(a));
    } else {
        lemma_letter_codes_concat(a, b.drop_last());
        assert((a + b).drop_last() =~= a + b.drop_last());
        assert((a + b).last() == b.last());
        assert(letter_codes(a) + letter_codes(b) =~= match spec_letter_code(b.last()) {
            Some(code) => (letter_codes(a) + letter_codes(b.drop_last())).push(code),
            None => letter_codes(a) + letter_codes(b.drop_last()),
        });
        assert(keypad_digits(a) + keypad_digits(b) =~= match spec_keypad_digit(b.last()) {
            Some(digit) => (keypad_digits(a) + keypad_digits(b.drop_last())).push(digit),
            None => keypad_digits(a) + keypad_digits(b.drop_last()),
        });
    }
}

proof fn lemma_code_lengths(s: Seq<char>)
    ensures
        letter_codes(s).len() == ascii_lowercase_letters(s).len(),
        keypad_digits(s).len() == ascii_lowercase_letters(s).len(),
    decreases s.len(),
{
    if s.len() > 0 {
        lemma_code_lengths(s.drop_last());
    }
}

/// The serial code of two texts together is the first text's code shifted
/// by two decimal places for each lowercase ASCII letter of the second,
/// plus the second text's code, in 64-bit two's complement; the empty text
/// has code 0.
pub proof fn lemma_serial_code_concat(a: Seq<char>, b: Seq<char>)
    ensures
        spec_serial_code(a + b) == wrap64(
            spec_serial_code(a) as int * pow(100, ascii_lowercase_letters(b).len())
                + spec_serial_code(b) as int,
        ),
        spec_serial_code(Seq::<char>::empty()) == 0,
{
    lemma_letter_codes_concat(a, b);
    lemma_code_lengths(b);
    lemma_fold_digits_concat(letter_codes(a), letter_codes(b), 100);
}

/// The keypad code of a text is the decimal code of its keys. The keypad
/// code of two texts together is the first text's code shifted by one
/// decimal place for each lowercase ASCII letter of the second, plus the
/// second text's code, in 64-bit two's complement; the empty text has
/// code 0.
pub proof fn lemma_keypad_code_concat(a: Seq<char>, b: Seq<char>)
    ensures
        spec_keypad_code(a) == spec_decimal_code(keypad_digits(a)),
        spec_keypad_code(a + b) == wrap64(
            spec_keypad_code(a) as int * pow(10, ascii_lowercase_letters(b).len())
                + spec_keypad_code(b) as int,
        ),
        spec_keypad_code(Seq::<char>::empty()) == 0,
{
    lemma_letter_codes_concat(a, b);
    lemma_code_lengths(b);
    lemma_fold_digits_concat(keypad_digits(a), keypad_digits(b), 10);
}

/// The decimal code of two sequences of values together is the first code
/// shifted by one decimal place for each value of the second, plus the
/// second code, in 64-bit two's complement. A single value is its own
/// code; no values make 0.
pub proof fn lemma_decimal_code_concat(a: Seq<i64>, b: Seq<i64>, d: i64)
    ensures
        spec_decimal_code(a + b) == wrap64(
            spec_decimal_code(a) as int * pow(10, b.len()) + spec_decimal_code(b) as int,
        ),
        spec_decimal_code(seq![d]) == d,
        spec_decimal_code(Seq::<i64>::empty()) == 0,
{
    lemma_fold_digits_concat(a, b, 10);
    assert(seq![d].drop_last() =~= Seq::<i64>::empty());
    lemma_crop_unique(0, 0, 0);
    assert(i64_specs::wrapping_mul(0, 10) == 0);
    assert(fold_digits(Seq::<i64>::empty(), 10) == 0);
    assert(seq![d].last() == d);
    assert(fold_digits(seq![d], 10) == wrap_step(0, 10, d));
    assert(i64_specs::wrapping_add(0, d) == d);
}

proof fn lemma_positional_below(digits: Seq<i64>, base: int)
    requires
        base >= 1,
        forall|i: int| 0 <= i < digits.len() ==> 0 <= #[trigger] digits[i] < base,
    ensures
        0 <= positional(digits, base) < pow(base, digits.len()),
    decreases digits.len(),
{
    lemma_pow0(base);
    if digits.len() > 0 {
        assert forall|i: int| 0 <= i < digits.drop_last().len() implies 0 <= #[trigger] digits.drop_last()[i]
            < base by {
            assert(digits.drop_last()[i] == digits[i]);
        }
        lemma_positional_below(digits.drop_last(), base);
        let previous = positional(digits.drop_last(), base);
        let limit = pow(base, (digits.len() - 1) as nat);
        lemma_pow_adds(base, (digits.len() - 1) as nat, 1);
        lemma_pow1(base);
        let last = digits.last() as int;
        assert(0 <= last < base);
        assert(0 <= previous * base + last < limit * base) by (nonlinear_arith)
            requires
                0 <= previous < limit,
                0 <= last < base,
        ;
    }
}

proof fn lemma_positional_above(digits: Seq<i64>, base: int)
    requires
        base >= 1,
        digits.len() >= 1,
        forall|i: int| 0 <= i < digits.len() ==> 0 <= #[trigger] digits[i],
    ensures
        digits[0] * pow(base, (digits.len() - 1) as nat) <= positional(digits, base),
    decreases digits.len(),
{
    lemma_pow0(base);
    if digits.len() == 1 {
        assert(digits.drop_last() =~= Seq::<i64>::empty());
        assert(digits.last() == digits[0]);
        assert(positional(digits, base) == digits[0] as int);
        assert(digits[0] * pow(base, 0) == digits[0] as int);
    } else {
        assert forall|i: int| 0 <= i < digits.drop_last().len() implies 0 <= #[trigger] digits.drop_last()[i] by {
            assert(digits.drop_last()[i] == digits[i]);
        }
        lemma_positional_above(digits.drop_last(), base);
        lemma_positional_nonnegative(digits.drop_last(), base);
        assert(digits.drop_last()[0] == digits[0]);
        let previous = positional(digits.drop_last(), base);
        let p = pow(base, (digits.len() - 2) as nat);
        lemma_pow_adds(base, (digits.len() - 2) as nat, 1);
        lemma_pow1(base);
        let first = digits[0] as int;
        let last = digits.last() as int;
        assert(last >= 0);
        assert(first * (p * base) <= previous * base + last) by (nonlinear_arith)
            requires
                first * p <= previous,
                base >= 1,
                last >= 0,
        ;
    }
}

/// A text of one to nine lowercase ASCII letters has as serial code the
/// exact base-100 reading of its letters' codes (20 to 45, two decimal
/// digits each, in order): at least 20 followed by two zeros for each
/// further letter, and below 100 to the power of its length.
pub proof fn lemma_serial_code_bounds(s: Seq<char>)
    requires
        all_lowercase(s),
        1 <= s.len() <= 9,
    ensures
        spec_serial_code(s) as int == serial_value(s),
        forall|i: int| 0 <= i < s.len() ==> #[trigger] letter_codes(s)[i] == s[i] as int - 'a' as int
            + 20,
        20 * pow(100, (s.len() - 1) as nat) <= spec_serial_code(s),
        spec_serial_code(s) < pow(100, s.len()),
{
    lemma_letter_codes_of_lowercase(s);
    lemma_letter_codes_range(s);
    let codes = letter_codes(s);
    lemma_positional_below(codes, 100);
    lemma_positional_above(codes, 100);
    lemma_pow_increases(100, s.len(), 9);
    assert(pow(100, 9) == 1_000_000_000_000_000_000) by {
        reveal_with_fuel(pow, 10);
    }
    lemma_pow_positive(100, (s.len() - 1) as nat);
    let p = pow(100, (s.len() - 1) as nat);
    assert(20 * p <= codes[0] * p) by (nonlinear_arith)
        requires
            20 <= codes[0],
            p > 0,
    ;
    lemma_serial_code_wraps(s);
}

/// A text with at most eighteen lowercase ASCII letters has as keypad code
/// the exact decimal reading of its keys (2 to 9, one decimal digit each,
/// in order), which is not negative.
pub proof fn lemma_keypad_code_digits(s: Seq<char>)
    requires
        ascii_lowercase_letters(s).len() <= 18,
    ensures
        keypad_digits(s).len() == ascii_lowercase_letters(s).len(),
        forall|i: int| 0 <= i < keypad_digits(s).len() ==> 2 <= #[trigger] keypad_digits(s)[i] <= 9,
        spec_keypad_code(s) as int == keypad_value(s),
        0 <= spec_keypad_code(s),
{
    lemma_code_lengths(s);
    lemma_keypad_digits_range(s);
    let digits = keypad_digits(s);
    lemma_positional_below(digits, 10);
    lemma_pow_increases(10, digits.len(), 18);
    assert(pow(10, 18) == 1_000_000_000_000_000_000) by {
        reveal_with_fuel(pow, 19);
    }
    lemma_keypad_code_wraps(s);
}

/// The keys of the letters follow the phone pad: a to c on 2, d to f on 3,
/// g to i on 4, j to l on 5, m to o on 6, p to s on 7, t to v on 8, w to z
/// on 9; no other character has a key.
pub proof fn lemma_keypad_layout()
    ensures
        forall|c: char| #[trigger] spec_keypad_digit(c) is Some <==> 'a' <= c <= 'z',
        forall|c: char| 'a' <= c <= 'c' ==> #[trigger] spec_keypad_digit(c) == Some(2i64),
        forall|c: char| 'd' <= c <= 'f' ==> #[trigger] spec_keypad_digit(c) == Some(3i64),
        forall|c: char| 'g' <= c <= 'i' ==> #[trigger] spec_keypad_digit(c) == Some(4i64),
        forall|c: char| 'j' <= c <= 'l' ==> #[trigger] spec_keypad_digit(c) == Some(5i64),
        forall|c: char| 'm' <= c <= 'o' ==> #[trigger] spec_keypad_digit(c) == Some(6i64),
        forall|c: char| 'p' <= c <= 's' ==> #[trigger] spec_keypad_digit(c) == Some(7i64),
        forall|c: char| 't' <= c <= 'v' ==> #[trigger] spec_keypad_digit(c) == Some(8i64),
        forall|c: char| 'w' <= c <= 'z' ==> #[trigger] spec_keypad_digit(c) == Some(9i64),
{
}

/// The letter codes run from 20 for `a` to 45 for `z`, one apart in
/// alphabetical order; no other character has one.
pub proof fn lemma_letter_code_layout()
    ensures
        forall|c: char|
            'a' <= c <= 'z' ==> #[trigger] spec_letter_code(c) == Some((c as int - 'a' as int + 20) as i64),
        forall|c: char| !('a' <= c <= 'z') ==> #[trigger] spec_letter_code(c) is None,
{
}

/// The generic CJKV characters are those of the CJK Unified Ideographs
/// block and its extensions A to I, the CJK Compatibility Ideographs and
/// their supplement, the CJK and Kangxi radicals, and the ideographic
/// number zero.
pub proof fn lemma_generic_cjkv_blocks(code: u32)
    ensures
        spec_is_generic_cjkv(code) <==> {
            ||| 0x4E00 <= code <= 0x9FFF
            ||| 0x3400 <= code <= 0x4DBF
            ||| 0x20000 <= code <= 0x2A6DF
            ||| 0x2A700 <= code <= 0x2B73F
            ||| 0x2B740 <= code <= 0x2B81F
            ||| 0x2B820 <= code <= 0x2CEAF
            ||| 0x2CEB0 <= code <= 0x2EBEF
            ||| 0x2EBF0 <= code <= 0x2EE5F
            ||| 0x30000 <= code <= 0x3134F
            ||| 0x31350 <= code <= 0x323AF
            ||| 0x323B0 <= code <= 0x33479
            ||| 0xF900 <= code <= 0xFA6D
            ||| 0xFA70 <= code <= 0xFAD9
            ||| 0x2F800 <= code <= 0x2FA1D
            ||| 0x2E80 <= code <= 0x2E99
            ||| 0x2E9B <= code <= 0x2EF3
            ||| 0x2F00 <= code <= 0x2FD5
            ||| code == 0x3007
        },
{
}

/// A Quick code keeps a Cangjie code of at most two characters as it is,
/// and abbreviates a longer one to its first and last characters: it is
/// never longer than two characters, and a non-empty code keeps its first
/// and last characters.
pub proof fn lemma_quick_code_ends(cangjie: Seq<char>)
    ensures
        spec_quick_code(cangjie).len() == if cangjie.len() > 2 {
            2
        } else {
            cangjie.len()
        },
        cangjie.len() <= 2 ==> spec_quick_code(cangjie) == cangjie,
        cangjie.len() > 0 ==> spec_quick_code(cangjie)[0] == cangjie[0]
            && spec_quick_code(cangjie).last() == cangjie.last(),
{
}

} // verus!
