use lib::cangjie::{
    cangjie_entries, first_quick_code, insert_cangjie, insert_quick, push_quick_entry, quick_entries,
    CangjieEntry, QuickEntry, CANGJIE_INSERT, QUICK_INSERT,
};
use lib::error::DataError;
use lib::maps::source_map;
use lib::plan::{DatabasePlan, SqlValue, Step};
use lib::strokes::{insert_strokes, stroke_entries, StrokeEntry, STROKE_INSERT};
use lib::text_tables::{
    insert_plain_text, insert_skin_tone_map, insert_syllables, insert_symbols, syllable_pairs,
    PLAIN_TEXT_INSERT, SKIN_TONE_INSERT, SYLLABLE_CORE_INSERT, SYLLABLE_NINE_KEY_INSERT,
    SYLLABLE_PINYIN_INSERT, SYMBOL_INSERT,
};
use lib::variants::{
    character_variants, insert_variants, skipped_variant_warnings, variant_insertion, variant_warnings_of_files,
    VARIANT_TABLES,
};

fn chars(text: &str) -> Vec<char> {
    text.chars().collect()
}

fn texts(items: &[&str]) -> Vec<Vec<char>> {
    items.iter().map(|item| chars(item)).collect()
}

fn text(value: &str) -> SqlValue {
    SqlValue::Text(value.to_owned())
}

fn integer(value: i64) -> SqlValue {
    SqlValue::Integer(value)
}

fn insert(statement: &str, rows: Vec<Vec<SqlValue>>) -> Step {
    Step::Insert { statement: statement.to_owned(), rows }
}

fn bad(file: &str, line: &str) -> DataError {
    DataError::BadLineFormat { file: file.to_owned(), line: line.to_owned() }
}

fn cangjie(word: &str, code5: &str, c5: [i64; 2], code3: &str, c3: [i64; 2]) -> CangjieEntry {
    CangjieEntry {
        word: word.to_owned(),
        cangjie5: code5.to_owned(),
        c5complex: c5[0],
        c5code: c5[1],
        cangjie3: code3.to_owned(),
        c3complex: c3[0],
        c3code: c3[1],
    }
}

fn quick(word: &str, code5: &str, q5: [i64; 2], code3: &str, q3: [i64; 2]) -> QuickEntry {
    QuickEntry {
        word: word.to_owned(),
        quick5: code5.to_owned(),
        q5complex: q5[0],
        q5code: q5[1],
        quick3: code3.to_owned(),
        q3complex: q3[0],
        q3code: q3[1],
    }
}

#[test]
fn cangjie_codes_pair_by_position_and_fill_with_x() {
    let cangjie5 = source_map("日\ta\n日\tab\n月\tb\n");
    let cangjie3 = source_map("日\ta\n");
    let words = texts(&["日", "月", "星"]);
    assert_eq!(
        cangjie_entries(&words, &cangjie5, &cangjie3),
        vec![
            cangjie("日", "a", [1, 20], "a", [1, 20]),
            cangjie("日", "ab", [2, 2021], "X", [1, 0]),
            cangjie("月", "b", [1, 21], "X", [1, 0]),
        ]
    );
}

#[test]
fn cangjie_entries_appear_once() {
    let cangjie5 = source_map("日\ta\n日\ta\n");
    let cangjie3 = source_map("日\ta\n日\ta\n");
    let entries = cangjie_entries(&texts(&["日", "日"]), &cangjie5, &cangjie3);
    assert_eq!(entries, vec![cangjie("日", "a", [1, 20], "a", [1, 20])]);
}

#[test]
fn cangjie_table_uses_single_character_words() {
    let cangjie5 = source_map("日\ta\n月\tb\n日月\tab\n");
    let cangjie3 = source_map("");
    let lines = texts(&["日\tjat6", "日月\tjat6 jyut6", "月\tjyut6", "日\tjat9"]);
    let mut plan = DatabasePlan::new();
    insert_cangjie(&mut plan, &lines, &cangjie5, &cangjie3);
    assert_eq!(
        plan.steps,
        vec![insert(
            CANGJIE_INSERT,
            vec![
                vec![text("日"), text("a"), integer(1), integer(20), text("X"), integer(1), integer(0)],
                vec![text("月"), text("b"), integer(1), integer(21), text("X"), integer(1), integer(0)],
            ],
        )]
    );
}

#[test]
fn quick_codes_of_characters() {
    let map = source_map("明\tabcd\n明\tx\n日\ta\n");
    assert_eq!(first_quick_code(&map, '明'), chars("ad"));
    assert_eq!(first_quick_code(&map, '日'), chars("a"));
    assert_eq!(first_quick_code(&map, '星'), chars("X"));
}

#[test]
fn quick_entries_abbreviate_single_characters_and_join_words() {
    let cangjie5 = source_map("日\ta\n月\tb\n明\tabcd\n");
    let cangjie3 = source_map("日\ta\n");
    let words = texts(&["明", "日月", "明"]);
    assert_eq!(
        quick_entries(&words, &cangjie5, &cangjie3),
        vec![quick("明", "ad", [2, 2023], "X", [1, 0]), quick("日月", "ab", [2, 2021], "aX", [2, 20])]
    );
}

#[test]
fn quick_entries_are_added_once() {
    let mut entries = Vec::new();
    push_quick_entry(&mut entries, &chars("明"), chars("ad"), chars("X"));
    push_quick_entry(&mut entries, &chars("明"), chars("ad"), chars("X"));
    push_quick_entry(&mut entries, &chars("明"), chars("ab"), chars("X"));
    assert_eq!(entries, vec![quick("明", "ad", [2, 2023], "X", [1, 0]), quick("明", "ab", [2, 2021], "X", [1, 0])]);
}

#[test]
fn quick_table_covers_every_word() {
    let cangjie5 = source_map("日\ta\n月\tb\n");
    let cangjie3 = source_map("");
    let lines = texts(&["日\tjat6", "日月\tjat6 jyut6"]);
    let mut plan = DatabasePlan::new();
    insert_quick(&mut plan, &lines, &cangjie5, &cangjie3);
    assert_eq!(
        plan.steps,
        vec![insert(
            QUICK_INSERT,
            vec![
                vec![text("日"), text("a"), integer(1), integer(20), text("X"), integer(1), integer(0)],
                vec![text("日月"), text("ab"), integer(2), integer(2021), text("XX"), integer(2), integer(0)],
            ],
        )]
    );
}

fn stroke(word: &str, digits: &str, complex: i64, code: i64) -> StrokeEntry {
    StrokeEntry { word: word.to_owned(), stroke: digits.to_owned(), complex, code }
}

#[test]
fn stroke_letters_and_digits_become_stroke_numbers() {
    let map = source_map("日\tsnhh\n日\t2411\n月\tpnhh\n口\twsad5z\n");
    let words = texts(&["日", "月", "口", "星"]);
    assert_eq!(
        stroke_entries(&words, &map),
        Ok(vec![stroke("日", "2411", 4, 2411), stroke("月", "3411", 4, 3411), stroke("口", "123455", 6, 123455)])
    );
}

#[test]
fn stroke_sequences_over_thirty_are_skipped() {
    let long = "h".repeat(31);
    let fitting = "h".repeat(30);
    let map = source_map(&format!("一\t{long}\n一\t{fitting}\n"));
    let entries = stroke_entries(&texts(&["一"]), &map).unwrap();
    assert_eq!(entries.len(), 1);
    assert_eq!(entries[0].stroke, "1".repeat(30));
    assert_eq!(entries[0].complex, 30);
    let exact: i128 = (0..30).fold(0_i128, |value, _| value * 10 + 1);
    assert_eq!(entries[0].code, (exact as u128 as u64) as i64);
}

#[test]
fn unknown_strokes_are_an_error() {
    let map = source_map("日\tsxq\n");
    assert_eq!(
        stroke_entries(&texts(&["日"]), &map),
        Err(DataError::BadStrokeFormat { word: "日".to_owned(), stroke: "sxq".to_owned() })
    );
    let mut plan = DatabasePlan::new();
    let outcome = insert_strokes(&mut plan, "日\tsxq\n", &texts(&["日\tjat6"]));
    assert_eq!(outcome, Err(DataError::BadStrokeFormat { word: "日".to_owned(), stroke: "sxq".to_owned() }));
    assert!(plan.steps.is_empty());
}

#[test]
fn stroke_table_uses_single_character_words() {
    let mut plan = DatabasePlan::new();
    let lines = texts(&["日\tjat6", "日月\tjat6 jyut6"]);
    assert_eq!(insert_strokes(&mut plan, "日\tsnhh\n日月\tsnhh\n", &lines), Ok(()));
    assert_eq!(plan.steps, vec![insert(STROKE_INSERT, vec![vec![text("日"), text("2411"), integer(4), integer(2411)]])]);
}

#[test]
fn symbols_have_codes_of_their_romanization() {
    let mut plan = DatabasePlan::new();
    let symbol = "1\t15\tU+1F600\t笑\tsiu3 jung4\nshort\tline\n";
    assert_eq!(insert_symbols(&mut plan, symbol), Ok(()));
    assert_eq!(
        plan.steps,
        vec![insert(
            SYMBOL_INSERT,
            vec![vec![
                integer(1),
                integer(15),
                text("U+1F600"),
                text("笑"),
                text("siu3 jung4"),
                integer(34),
                integer(38284029403326),
                integer(7485864),
            ]],
        )]
    );
}

#[test]
fn symbols_reject_bad_numbers() {
    let mut plan = DatabasePlan::new();
    assert_eq!(
        insert_symbols(&mut plan, "one\t15\tU+1F600\t笑\tsiu3"),
        Err(DataError::InvalidInteger { text: "one".to_owned() })
    );
    assert_eq!(
        insert_symbols(&mut plan, "1\t1.5\tU+1F600\t笑\tsiu3"),
        Err(DataError::InvalidInteger { text: "1.5".to_owned() })
    );
    assert!(plan.steps.is_empty());
}

#[test]
fn skin_tone_map_keeps_pairs() {
    let mut plan = DatabasePlan::new();
    insert_skin_tone_map(&mut plan, "👍\t👍🏻\nbad\n👋 \t 👋🏽\n");
    assert_eq!(
        plan.steps,
        vec![insert(SKIN_TONE_INSERT, vec![vec![text("👍"), text("👍🏻")], vec![text("👋"), text("👋🏽")]])]
    );
}

#[test]
fn plain_text_skips_comments_and_repeats() {
    let mut plan = DatabasePlan::new();
    assert_eq!(insert_plain_text(&mut plan, "# comment\n ab \t AB \nab\tAB\n\nab\tAb\n"), Ok(()));
    assert_eq!(
        plan.steps,
        vec![insert(
            PLAIN_TEXT_INSERT,
            vec![
                vec![text("ab"), text("AB"), integer(2), integer(2021), integer(22)],
                vec![text("ab"), text("Ab"), integer(2), integer(2021), integer(22)],
            ],
        )]
    );
}

#[test]
fn plain_text_needs_two_fields() {
    let mut plan = DatabasePlan::new();
    assert_eq!(insert_plain_text(&mut plan, "ab\tAB\n  xyz  \n"), Err(bad("text.txt", "xyz")));
    assert!(plan.steps.is_empty());
}

#[test]
fn syllable_pairs_need_two_fields() {
    assert_eq!(
        syllable_pairs("nei\tnei\n lei\tnei \n", "syllable-core.txt"),
        Ok(vec![(chars("nei"), chars("nei")), (chars("lei"), chars("nei"))])
    );
    assert_eq!(syllable_pairs("nei\nlei\tnei", "syllable-core.txt"), Err(bad("syllable-core.txt", "nei")));
}

#[test]
fn syllable_tables_have_serial_and_keypad_codes() {
    let mut plan = DatabasePlan::new();
    assert_eq!(insert_syllables(&mut plan, "nei\tnei\nlei\tnei", "lei\tnei", " ni \nhao"), Ok(()));
    assert_eq!(
        plan.steps,
        vec![
            insert(
                SYLLABLE_CORE_INSERT,
                vec![
                    vec![integer(332428), integer(332428), text("nei"), text("nei")],
                    vec![integer(312428), integer(332428), text("lei"), text("nei")],
                ],
            ),
            insert(SYLLABLE_NINE_KEY_INSERT, vec![vec![integer(312428), integer(332428), integer(534), integer(634), text("lei"), text("nei")]]),
            insert(SYLLABLE_PINYIN_INSERT, vec![vec![integer(3328), integer(64), text("ni")], vec![integer(272034), integer(426), text("hao")]]),
        ]
    );
    assert_eq!(insert_syllables(&mut plan, "", "lei", ""), Err(bad("syllable-9key.txt", "lei")));
    assert_eq!(plan.steps.len(), 3);
}

#[test]
fn character_variants_are_sorted_and_first_wins() {
    let content = "# comment\n丟\t丢\n丟\t丢\n乾\t乾 干\nA\tB\n丟\t丙\n一\t弌\n";
    assert_eq!(character_variants(content, "v.txt"), Ok(vec![(0x4E00, 0x5F0C), (0x4E1F, 0x4E22)]));
}

#[test]
fn character_variant_errors() {
    assert_eq!(
        character_variants("一\t弌\n丟\t丟\n", "v.txt"),
        Err(DataError::SelfMapping { file: "v.txt".to_owned(), line: "丟\t丟".to_owned() })
    );
    assert_eq!(character_variants("丟丟\t丢", "v.txt"), Err(bad("v.txt", "丟丟\t丢")));
    assert_eq!(character_variants("丟", "v.txt"), Err(bad("v.txt", "丟")));
}

#[test]
fn variant_tables_are_named_in_the_statement() {
    let step = variant_insertion("一\t弌", "v.txt", "variant_hk").unwrap();
    assert_eq!(step, insert("INSERT INTO variant_hk (source, target) VALUES (?, ?)", vec![vec![integer(0x4E00), integer(0x5F0C)]]));
    assert_eq!(
        variant_insertion("丟\t丟", "v.txt", "variant_hk"),
        Err(DataError::SelfMapping { file: "v.txt".to_owned(), line: "丟\t丟".to_owned() })
    );
}

#[test]
fn all_variant_tables_are_filled_in_order() {
    let contents: [String; 6] = ["".to_owned(), "一\t弌".to_owned(), "".to_owned(), "".to_owned(), "".to_owned(), "".to_owned()];
    let mut plan = DatabasePlan::new();
    assert_eq!(insert_variants(&mut plan, &contents), Ok(()));
    assert_eq!(plan.steps.len(), 6);
    for (step, (_, table)) in plan.steps.iter().zip(VARIANT_TABLES.iter()) {
        let rows = if *table == "variant_hk" { vec![vec![integer(0x4E00), integer(0x5F0C)]] } else { Vec::new() };
        assert_eq!(*step, insert(&format!("INSERT INTO {table} (source, target) VALUES (?, ?)"), rows));
    }
    let broken: [String; 6] = ["".to_owned(), "".to_owned(), "丟\t丟".to_owned(), "".to_owned(), "".to_owned(), "".to_owned()];
    let mut plan = DatabasePlan::new();
    assert_eq!(
        insert_variants(&mut plan, &broken),
        Err(DataError::SelfMapping { file: "CharacterVariant.Inherited.txt".to_owned(), line: "丟\t丟".to_owned() })
    );
    assert!(plan.steps.is_empty());
}

#[test]
fn non_cjkv_variants_are_reported_once_up_to_the_first_error() {
    let content = "# note\n丟\t丟 丢\n丟\t丢\nA\tB\n丟\t丢\nA\tB\n 丟\tx\n";
    assert_eq!(character_variants(content, "v.txt"), Ok(vec![(0x4E1F, 0x4E22)]));
    assert_eq!(
        skipped_variant_warnings(content, "v.txt"),
        vec![
            "Skipping non-CJKV character variant in v.txt: A\tB".to_owned(),
            "Skipping non-CJKV character variant in v.txt: 丟\tx".to_owned(),
        ]
    );
    assert_eq!(
        skipped_variant_warnings("A\tB\n丟\t丟\nC\tD\n", "v.txt"),
        vec!["Skipping non-CJKV character variant in v.txt: A\tB".to_owned()]
    );
    let contents: [String; 6] = [
        "A\tB".to_owned(),
        "".to_owned(),
        "C\tD\n丟\t丟\nE\tF".to_owned(),
        "G\tH".to_owned(),
        "".to_owned(),
        "".to_owned(),
    ];
    assert_eq!(
        variant_warnings_of_files(&contents),
        vec![
            format!("Skipping non-CJKV character variant in {}: A\tB", VARIANT_TABLES[0].0),
            format!("Skipping non-CJKV character variant in {}: C\tD", VARIANT_TABLES[2].0),
        ]
    );
}
