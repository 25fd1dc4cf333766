use lib::maps::{definition_map, source_map, TextMap};
use lib::text::{
    append_str, chars_equal, chars_of, contains_text, nonempty_source_lines_of, push_char,
    source_lines_of, split_chars, split_fields_chars, string_of, trim_chars, white_space,
};
use lib::text_index::TextIndex;
use lib::words::jyutping_words;

fn chars(text: &str) -> Vec<char> {
    text.chars().collect()
}

fn texts(items: &[&str]) -> Vec<Vec<char>> {
    items.iter().map(|item| chars(item)).collect()
}

#[test]
fn push_char_appends_one_character() {
    let mut text = String::from("ab");
    push_char(&mut text, 'c');
    assert_eq!(text, "abc");
    push_char(&mut text, '字');
    assert_eq!(text, "abc字");
}

#[test]
fn append_str_appends_the_suffix() {
    let mut text = String::from("INSERT INTO ");
    append_str(&mut text, "lexicon_core");
    assert_eq!(text, "INSERT INTO lexicon_core");
    append_str(&mut text, "");
    assert_eq!(text, "INSERT INTO lexicon_core");
}

#[test]
fn characters_and_strings_convert_both_ways() {
    assert_eq!(chars_of("粵語 ab"), vec!['粵', '語', ' ', 'a', 'b']);
    assert_eq!(string_of(&['粵', '語']), "粵語");
    assert_eq!(string_of(&[]), "");
    assert_eq!(string_of(&chars_of("jyut6 jyu5")), "jyut6 jyu5");
}

#[test]
fn character_comparisons() {
    assert!(chars_equal(&chars("abc"), &chars("abc")));
    assert!(!chars_equal(&chars("abc"), &chars("abd")));
    assert!(!chars_equal(&chars("ab"), &chars("abc")));
    let list = texts(&["一", "二"]);
    assert!(contains_text(&list, &chars("二")));
    assert!(!contains_text(&list, &chars("三")));
}

#[test]
fn white_space_follows_unicode() {
    for character in [' ', '\t', '\n', '\r', '\u{0B}', '\u{0C}', '\u{85}', '\u{A0}', '\u{2003}', '\u{3000}'] {
        assert!(white_space(character), "{character:?}");
        assert!(character.is_whitespace());
    }
    for character in ['a', '字', '\u{200B}', '_'] {
        assert!(!white_space(character), "{character:?}");
        assert!(!character.is_whitespace());
    }
}

#[test]
fn trimming_removes_white_space_at_both_ends() {
    assert_eq!(trim_chars(&chars("  a b \t\r\n")), chars("a b"));
    assert_eq!(trim_chars(&chars("\u{3000}字\u{3000}")), chars("字"));
    assert_eq!(trim_chars(&chars(" \t ")), chars(""));
    assert_eq!(trim_chars(&chars("")), chars(""));
}

#[test]
fn trimming_twice_changes_nothing_more() {
    for text in ["  a b  ", "x", "", "\t\t", " \u{A0}字 y\n"] {
        let once = trim_chars(&chars(text));
        assert_eq!(trim_chars(&once), once);
        assert_eq!(once, chars(text.trim()));
    }
}

#[test]
fn splitting_keeps_empty_pieces() {
    assert_eq!(split_chars(&chars("a\t\tb"), '\t'), texts(&["a", "", "b"]));
    assert_eq!(split_chars(&chars(""), '\t'), texts(&[""]));
    assert_eq!(split_chars(&chars("a,"), ','), texts(&["a", ""]));
}

#[test]
fn splitting_then_joining_gives_the_line_back() {
    for line in ["a,b,,c", ",", "", "東,東,德紅", "no separator"] {
        let pieces = split_chars(&chars(line), ',');
        let joined = pieces.iter().map(|piece| string_of(piece)).collect::<Vec<_>>().join(",");
        assert_eq!(joined, line);
        assert_eq!(pieces.len(), line.split(',').count());
        assert!(pieces.iter().all(|piece| !piece.contains(&',')));
    }
}

#[test]
fn fields_are_trimmed_and_empty_ones_dropped() {
    assert_eq!(split_fields_chars(&chars(" a \t\t b "), '\t'), texts(&["a", "b"]));
    assert_eq!(split_fields_chars(&chars("\t \t"), '\t'), Vec::<Vec<char>>::new());
    assert_eq!(split_fields_chars(&chars("1\t15\tU+1F600"), '\t'), texts(&["1", "15", "U+1F600"]));
}

#[test]
fn source_lines_trim_the_text_and_carriage_returns() {
    assert_eq!(source_lines_of("\n a\r\nb\n\n"), texts(&["a", "b"]));
    assert_eq!(source_lines_of("x\r\r\ny"), texts(&["x", "y"]));
    assert_eq!(source_lines_of("a\n\n  \nb"), texts(&["a", "", "  ", "b"]));
    assert_eq!(source_lines_of(""), Vec::<Vec<char>>::new());
    assert_eq!(source_lines_of(" \n "), Vec::<Vec<char>>::new());
    assert_eq!(source_lines_of("a\rb\nc"), texts(&["a\rb", "c"]));
    for content in ["a\r\nb\r\n", " x\ty \n\n z\r\r\n", "\u{3000}字\n\t詞\u{3000}"] {
        let expected = content.trim().lines().map(|line| chars(line.trim_end_matches('\r'))).collect::<Vec<_>>();
        assert_eq!(source_lines_of(content), expected, "{content:?}");
    }
}

#[test]
fn nonempty_source_lines_drop_blank_lines() {
    assert_eq!(nonempty_source_lines_of("a\n  \n\t\nb"), texts(&["a", "b"]));
    assert_eq!(nonempty_source_lines_of(" a \n"), texts(&["a"]));
}

#[test]
fn jyutping_words_are_distinct_and_in_order() {
    let lines = texts(&["你\tnei5", "你好\tnei5 hou2", "你\tnei2", " 好 \thou2", "你好\tnei5 hou3"]);
    assert_eq!(jyutping_words(&lines, true), texts(&["你", "好"]));
    assert_eq!(jyutping_words(&lines, false), texts(&["你", "你好", "好"]));
    assert_eq!(jyutping_words(&Vec::new(), false), Vec::<Vec<char>>::new());
}

fn values(map: &TextMap, key: &str) -> Option<Vec<String>> {
    map.get(&chars(key)).map(|list| list.iter().map(|value| string_of(value)).collect())
}

#[test]
fn source_maps_keep_every_value_in_order() {
    let map = source_map("a\tx\nb\ty\na\tz\nbad line\nc\td\te\n");
    assert_eq!(values(&map, "a"), Some(vec!["x".to_owned(), "z".to_owned()]));
    assert_eq!(values(&map, "b"), Some(vec!["y".to_owned()]));
    assert_eq!(values(&map, "c"), None);
    assert_eq!(values(&map, "bad line"), None);
}

#[test]
fn text_maps_from_pairs() {
    let pairs = vec![(chars("日"), chars("a")), (chars("月"), chars("b")), (chars("日"), chars("ab"))];
    let map = TextMap::from_pairs(&pairs);
    assert_eq!(values(&map, "日"), Some(vec!["a".to_owned(), "ab".to_owned()]));
    assert_eq!(values(&map, "月"), Some(vec!["b".to_owned()]));
    assert_eq!(values(&map, "星"), None);
}

#[test]
fn definition_maps_make_apostrophes_curly() {
    let map = definition_map("好\thou2\tgood's\n好\thou2\tsecond\n人\tjan4\n");
    assert_eq!(values(&map, "好").map(|list| list[0].clone()), Some("good’s".to_owned()));
    assert_eq!(values(&map, "人"), None);
}

#[test]
fn text_indexes_find_what_was_added() {
    let mut index = TextIndex::new();
    assert_eq!(index.find(&chars("粵")), None);
    index.push(chars("粵"));
    index.push(chars("語"));
    index.push(chars(""));
    assert_eq!(index.find(&chars("粵")), Some(0));
    assert_eq!(index.find(&chars("語")), Some(1));
    assert_eq!(index.find(&chars("")), Some(2));
    assert_eq!(index.find(&chars("粵語")), None);
}

#[test]
fn many_distinct_words_are_collected_quickly() {
    let lines: Vec<Vec<char>> = (0..60_000u32)
        .map(|n| chars(&format!("{}{}\tjyut6", char::from_u32(0x4E00 + n % 20_000).unwrap(), n / 20_000)))
        .collect();
    let words = jyutping_words(&lines, false);
    assert_eq!(words.len(), 60_000);
    let map = source_map(&lines.iter().map(|line| string_of(line)).collect::<Vec<_>>().join("\n"));
    assert_eq!(values(&map, "一0"), Some(vec!["jyut6".to_owned()]));
}
