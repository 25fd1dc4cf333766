use lib::codes::{
    character_count, decimal_code, first_code_point, is_generic_cjkv, keypad_code, keypad_digit,
    letter_code, normalize_definition, parse_integer, quick_code, serial_code, count_chars,
    keypad_code_chars, normalize_definition_chars, quick_code_chars, serial_code_chars,
};
use lib::codes::integer_error_kind;
use lib::error::{DataError, IntegerErrorKind};
use std::num::IntErrorKind;

#[test]
fn serial_codes_match_swift_encoding() {
    assert_eq!(serial_code("abc"), 202122);
    assert_eq!(serial_code("a-b C!"), 2021);
    assert_eq!(serial_code("activitykit"), -6749006824106374921);
}

#[test]
fn keypad_codes_match_mobile_encoding() {
    assert_eq!(keypad_code("abc"), 222);
    assert_eq!(keypad_code("gwong"), 49664);
    assert_eq!(keypad_code("a-b C!"), 22);
}

#[test]
fn decimal_codes_wrap_at_64_bits() {
    assert_eq!(decimal_code(&[2, 3, 4]), 234);
    assert_eq!(decimal_code(&[]), 0);
}

#[test]
fn quick_codes_keep_short_codes_and_abbreviate_long_ones() {
    assert_eq!(quick_code("a"), "a");
    assert_eq!(quick_code("ab"), "ab");
    assert_eq!(quick_code("abcde"), "ae");
}

#[test]
fn definitions_use_curly_apostrophes() {
    assert_eq!(normalize_definition("one's definition"), "one\u{2019}s definition");
}

#[test]
fn letter_codes_run_from_twenty() {
    assert_eq!(letter_code('a'), Some(20));
    assert_eq!(letter_code('z'), Some(45));
    assert_eq!(letter_code('A'), None);
    assert_eq!(letter_code('1'), None);
}

#[test]
fn keypad_digits_follow_the_phone_pad() {
    assert_eq!(keypad_digit('a'), Some(2));
    assert_eq!(keypad_digit('f'), Some(3));
    assert_eq!(keypad_digit('i'), Some(4));
    assert_eq!(keypad_digit('l'), Some(5));
    assert_eq!(keypad_digit('o'), Some(6));
    assert_eq!(keypad_digit('s'), Some(7));
    assert_eq!(keypad_digit('v'), Some(8));
    assert_eq!(keypad_digit('z'), Some(9));
    assert_eq!(keypad_digit('!'), None);
}

#[test]
fn serial_code_of_a_nine_letter_word_is_exact() {
    assert_eq!(serial_code("zzzzzzzzz"), 454545454545454545);
    assert_eq!(serial_code(""), 0);
}

#[test]
fn decimal_code_wraps_like_two_complement() {
    let digits = [9i64; 20];
    let mut expected: i64 = 0;
    for digit in digits {
        expected = expected.wrapping_mul(10).wrapping_add(digit);
    }
    assert_eq!(decimal_code(&digits), expected);
    assert_eq!(decimal_code(&[1, 2, 3, 4, 5]), 12345);
}

#[test]
fn keypad_code_wraps_at_sixty_four_bits() {
    let long = "z".repeat(25);
    let mut expected: i64 = 0;
    for _ in 0..25 {
        expected = expected.wrapping_mul(10).wrapping_add(9);
    }
    assert_eq!(keypad_code(&long), expected);
}

#[test]
fn quick_code_of_three_letters_keeps_the_ends() {
    assert_eq!(quick_code("abc"), "ac");
    assert_eq!(quick_code(""), "");
}

#[test]
fn normalize_definition_replaces_every_apostrophe() {
    assert_eq!(normalize_definition("'a' 'b'"), "\u{2019}a\u{2019} \u{2019}b\u{2019}");
    assert_eq!(normalize_definition("none"), "none");
}

#[test]
fn character_count_counts_characters_not_bytes() {
    assert_eq!(character_count("粵語"), 2);
    assert_eq!(character_count(""), 0);
}

#[test]
fn first_code_point_of_a_word() {
    let word: Vec<char> = "粵語".chars().collect();
    assert_eq!(first_code_point(&word, "jyutping.txt").ok(), Some(0x7CB5));
    match first_code_point(&[], "jyutping.txt") {
        Err(DataError::EmptyWord { file }) => assert_eq!(file, "jyutping.txt"),
        _ => panic!("an empty word has no code point"),
    }
}

#[test]
fn generic_cjkv_ranges() {
    assert!(is_generic_cjkv(0x4E00));
    assert!(is_generic_cjkv(0x3007));
    assert!(is_generic_cjkv(0x2F800));
    assert!(!is_generic_cjkv(0x2E9A));
    assert!(!is_generic_cjkv(0x41));
    assert!(!is_generic_cjkv(0xFA6E));
}

fn chars(text: &str) -> Vec<char> {
    text.chars().collect()
}

#[test]
fn parse_integer_follows_from_str() {
    assert_eq!(parse_integer(&chars("42")).ok(), Some(42));
    assert_eq!(parse_integer(&chars("+7")).ok(), Some(7));
    assert_eq!(parse_integer(&chars("-15")).ok(), Some(-15));
    assert_eq!(parse_integer(&chars("9223372036854775807")).ok(), Some(i64::MAX));
    assert_eq!(parse_integer(&chars("-9223372036854775808")).ok(), Some(i64::MIN));
    for bad in ["", "-", "+", "9223372036854775808", "1 2", " 3", "x", "--1", "99999999999999999999999"] {
        assert_eq!(bad.parse::<i64>().ok(), None);
        match parse_integer(&chars(bad)) {
            Err(DataError::InvalidInteger { text }) => assert_eq!(text, bad),
            _ => panic!("{bad:?} is no integer"),
        }
    }
}

fn exact_serial(text: &str) -> i128 {
    text.chars()
        .filter(char::is_ascii_lowercase)
        .fold(0_i128, |value, letter| (value * 100 + (letter as i128 - 'a' as i128 + 20)) % (1_i128 << 64))
}

fn to_i64(value: i128) -> i64 {
    value as u128 as u64 as i64
}

#[test]
fn serial_codes_are_exact_values_modulo_two_to_the_64() {
    for text in ["activitykit", "abc", "zzzzzzzzzzzz", "a-b C!", "jyutjyu"] {
        assert_eq!(serial_code(text), to_i64(exact_serial(text)), "{text}");
    }
}

#[test]
fn short_lowercase_words_have_distinct_serial_codes() {
    let words = ["a", "b", "ab", "ba", "zzzzzzzzz", "zzzzzzzzy", "jyut", "jyu", "aaaaaaaaa"];
    for first in words {
        for second in words {
            assert_eq!(serial_code(first) == serial_code(second), first == second, "{first} {second}");
        }
    }
}

#[test]
fn codes_of_character_slices_match_codes_of_strings() {
    for text in ["gwong", "a-b C!", "粵語 jyut6", ""] {
        assert_eq!(serial_code_chars(&chars(text)), serial_code(text));
        assert_eq!(keypad_code_chars(&chars(text)), keypad_code(text));
        assert_eq!(count_chars(&chars(text)), character_count(text));
    }
    assert_eq!(quick_code_chars(&chars("abcde")), chars("ae"));
    assert_eq!(normalize_definition_chars(&chars("it's")), chars("it\u{2019}s"));
}

#[test]
fn integer_errors_follow_from_str() {
    let texts = [
        "", "+", "-", "x", "12x", "9223372036854775807", "9223372036854775808", "-9223372036854775808",
        "-9223372036854775809", "99999999999999999999x", "1x99999999999999999999", "+-1", "--1", " 3",
        "-99999999999999999999999", "42", "+7", "字",
    ];
    for text in texts {
        let expected = match text.parse::<i64>() {
            Ok(_) => None,
            Err(error) => Some(match error.kind() {
                IntErrorKind::Empty => IntegerErrorKind::Empty,
                IntErrorKind::InvalidDigit => IntegerErrorKind::InvalidDigit,
                IntErrorKind::PosOverflow => IntegerErrorKind::PosOverflow,
                IntErrorKind::NegOverflow => IntegerErrorKind::NegOverflow,
                _ => panic!("no other kind for i64"),
            }),
        };
        assert_eq!(integer_error_kind(&chars(text)), expected, "{text:?}");
        if let Err(error) = text.parse::<i64>() {
            assert_eq!(DataError::InvalidInteger { text: text.to_owned() }.message(), error.to_string(), "{text:?}");
            match parse_integer(&chars(text)) {
                Err(DataError::InvalidInteger { text: reported }) => assert_eq!(reported, text),
                _ => panic!("{text:?} is no integer"),
            }
        }
    }
}

#[test]
fn codes_of_joined_texts_shift_the_first_code() {
    let pairs = [("ab", "cd"), ("jyut", "jyu"), ("activity", "kit"), ("a-b", "C!d"), ("", "xyz"), ("abc", "")];
    for (first, second) in pairs {
        let joined = format!("{first}{second}");
        let letters = second.chars().filter(char::is_ascii_lowercase).count() as u32;
        assert_eq!(
            serial_code(&joined),
            serial_code(first).wrapping_mul(100_i64.wrapping_pow(letters)).wrapping_add(serial_code(second)),
            "{joined}"
        );
        assert_eq!(
            keypad_code(&joined),
            keypad_code(first).wrapping_mul(10_i64.wrapping_pow(letters)).wrapping_add(keypad_code(second)),
            "{joined}"
        );
    }
    let first = [9i64; 12];
    let second = [7i64, -3, 12, 9, 9, 9, 9, 9, 9, 9];
    let joined: Vec<i64> = first.iter().chain(second.iter()).copied().collect();
    assert_eq!(
        decimal_code(&joined),
        decimal_code(&first).wrapping_mul(10_i64.wrapping_pow(second.len() as u32)).wrapping_add(decimal_code(&second))
    );
    assert_eq!(decimal_code(&[-5]), -5);
    assert_eq!(decimal_code(&[i64::MAX]), i64::MAX);
}

#[test]
fn serial_codes_of_short_words_are_pairs_of_digits() {
    for word in ["a", "z", "ab", "jyutjyu", "zzzzzzzzz", "aaaaaaaaa"] {
        let code = serial_code(word);
        let n = word.len() as u32;
        assert!(20 * 100_i128.pow(n - 1) <= code as i128 && (code as i128) < 100_i128.pow(n), "{word}");
        let expected: String = word.chars().map(|letter| (letter as u32 - 'a' as u32 + 20).to_string()).collect();
        assert_eq!(code.to_string(), expected);
    }
}

#[test]
fn keypad_codes_of_short_texts_are_their_keys() {
    let text = "abcdefghijklmnopqr";
    let code = keypad_code(text);
    assert!(code >= 0);
    let expected: String = text.chars().map(|letter| keypad_digit(letter).unwrap().to_string()).collect();
    assert_eq!(code.to_string(), expected);
}
