use lib::app_tables::{
    insert_app_jyutping, insert_chohok, insert_definitions, insert_fanwan, insert_gwongwan,
    insert_tabular_app_table, insert_yingwaa, line_row, RowFormat, CHOHOK_CREATE, CHOHOK_INSERT,
    COLLOCATION_CREATE, COLLOCATION_INSERT, DEFINITION_CREATE, DEFINITION_INSERT, FANWAN_CREATE,
    FANWAN_INSERT, GWONGWAN_CREATE, GWONGWAN_INSERT, JYUTPING_CREATE, JYUTPING_INSERT,
    YINGWAA_CREATE, YINGWAA_INSERT,
};
use lib::error::{bad_line, DataError};
use lib::ime_lexicons::{insert_lexicon, insert_lexicon_file, insert_pinyin, insert_structure, STRUCTURE_INSERT};
use lib::lexicon::{convert_lexicon, parse_lexicon_line, phone_lengths_and_initials, LexiconEntry};
use lib::plan::{bind_texts, execute_all, DatabasePlan, SqlValue, Step};

fn chars(text: &str) -> Vec<char> {
    text.chars().collect()
}

fn texts(items: &[&str]) -> Vec<Vec<char>> {
    items.iter().map(|item| chars(item)).collect()
}

fn text(value: &str) -> SqlValue {
    SqlValue::Text(value.to_owned())
}

fn integer(value: i64) -> SqlValue {
    SqlValue::Integer(value)
}

fn execute(statement: &str) -> Step {
    Step::Execute(statement.to_owned())
}

fn insert(statement: &str, rows: Vec<Vec<SqlValue>>) -> Step {
    Step::Insert { statement: statement.to_owned(), rows }
}

fn bad(file: &str, line: &str) -> DataError {
    DataError::BadLineFormat { file: file.to_owned(), line: line.to_owned() }
}

#[test]
fn plans_collect_steps_in_order() {
    let mut plan = DatabasePlan::new();
    assert!(plan.steps.is_empty());
    plan.execute("BEGIN");
    plan.insert("INSERT INTO t (a) VALUES (?)", vec![vec![integer(1)], vec![text("x")]]);
    plan.push_step(execute("END"));
    plan.append_steps(vec![execute("A"), execute("B")]);
    assert_eq!(
        plan.steps,
        vec![
            execute("BEGIN"),
            insert("INSERT INTO t (a) VALUES (?)", vec![vec![integer(1)], vec![text("x")]]),
            execute("END"),
            execute("A"),
            execute("B"),
        ]
    );
}

#[test]
fn execute_all_adds_each_statement() {
    let mut plan = DatabasePlan::new();
    execute_all(&mut plan, &["CREATE TABLE a (x)", "CREATE TABLE b (y)"]);
    assert_eq!(plan.steps, vec![execute("CREATE TABLE a (x)"), execute("CREATE TABLE b (y)")]);
    execute_all(&mut plan, &[]);
    assert_eq!(plan.steps.len(), 2);
}

#[test]
fn bind_texts_appends_text_values() {
    let mut row = vec![integer(7)];
    bind_texts(&mut row, &texts(&["a", "字"]));
    assert_eq!(row, vec![integer(7), text("a"), text("字")]);
}

#[test]
fn bad_line_names_the_file_and_line() {
    assert_eq!(bad_line("jyutping.txt", &chars("x y")), bad("jyutping.txt", "x y"));
}

#[test]
fn app_jyutping_table_holds_each_reading() {
    let mut plan = DatabasePlan::new();
    assert_eq!(insert_app_jyutping(&mut plan, "你\tnei5\n\n好\thou2\n"), Ok(()));
    assert_eq!(
        plan.steps,
        vec![
            execute(JYUTPING_CREATE),
            insert(JYUTPING_INSERT, vec![vec![text("你"), text("nei5")], vec![text("好"), text("hou2")]]),
        ]
    );
}

#[test]
fn app_jyutping_rejects_a_line_without_two_fields() {
    let mut plan = DatabasePlan::new();
    plan.execute("BEGIN");
    assert_eq!(insert_app_jyutping(&mut plan, "你\tnei5\n你 nei5\n"), Err(bad("jyutping.txt", "你 nei5")));
    assert_eq!(plan.steps, vec![execute("BEGIN")]);
}

#[test]
fn tabular_tables_keep_empty_fields() {
    let mut plan = DatabasePlan::new();
    let outcome = insert_tabular_app_table(&mut plan, "好\t\thou2\n", "collocation.txt", 3, COLLOCATION_CREATE, COLLOCATION_INSERT);
    assert_eq!(outcome, Ok(()));
    assert_eq!(
        plan.steps,
        vec![execute(COLLOCATION_CREATE), insert(COLLOCATION_INSERT, vec![vec![text("好"), text(""), text("hou2")]])]
    );
    let outcome = insert_tabular_app_table(&mut plan, "好\thou2\n", "wordshk.txt", 3, "C", "I");
    assert_eq!(outcome, Err(bad("wordshk.txt", "好\thou2")));
    assert_eq!(plan.steps.len(), 2);
}

#[test]
fn coded_tables_start_with_the_code_point() {
    let mut plan = DatabasePlan::new();
    assert_eq!(insert_yingwaa(&mut plan, "乜\tmat1\tm\tnote\tinterp"), Ok(()));
    assert_eq!(
        plan.steps,
        vec![
            execute(YINGWAA_CREATE),
            insert(YINGWAA_INSERT, vec![vec![integer(0x4E5C), text("乜"), text("mat1"), text("m"), text("note"), text("interp")]]),
        ]
    );
}

#[test]
fn coded_tables_reject_an_empty_word() {
    let mut plan = DatabasePlan::new();
    assert_eq!(
        insert_chohok(&mut plan, "乜\ta\tb\tc\td\n\tmat1\tm\tn\ti"),
        Err(DataError::EmptyWord { file: "chohok.txt".to_owned() })
    );
    assert!(plan.steps.is_empty());
    assert_eq!(insert_chohok(&mut plan, "乜\tmat1\tm\tn"), Err(bad("chohok.txt", "乜\tmat1\tm\tn")));
    assert_eq!(insert_chohok(&mut plan, "乜\ta\tb\tc\td"), Ok(()));
    assert_eq!(plan.steps[0], execute(CHOHOK_CREATE));
    assert_eq!(plan.steps[1], insert(CHOHOK_INSERT, vec![vec![integer(0x4E5C), text("乜"), text("a"), text("b"), text("c"), text("d")]]));
}

#[test]
fn fanwan_rows_have_eight_texts() {
    let mut plan = DatabasePlan::new();
    assert_eq!(insert_fanwan(&mut plan, "東\t1\t2\t3\t4\t5\t6\t7"), Ok(()));
    let mut row = vec![integer(0x6771), text("東")];
    row.extend(["1", "2", "3", "4", "5", "6", "7"].into_iter().map(text));
    assert_eq!(plan.steps, vec![execute(FANWAN_CREATE), insert(FANWAN_INSERT, vec![row])]);
}

#[test]
fn gwongwan_rows_parse_their_numbers() {
    let mut plan = DatabasePlan::new();
    assert_eq!(insert_gwongwan(&mut plan, "東,東,德紅,1,+2,a,b,c,d,e,f,g,h,i\n"), Ok(()));
    let mut row = vec![integer(0x6771), text("東"), text("東"), text("德紅"), integer(1), integer(2)];
    row.extend(["a", "b", "c", "d", "e", "f", "g", "h", "i"].into_iter().map(text));
    assert_eq!(plan.steps, vec![execute(GWONGWAN_CREATE), insert(GWONGWAN_INSERT, vec![row])]);
}

#[test]
fn gwongwan_rejects_bad_numbers_and_field_counts() {
    let mut plan = DatabasePlan::new();
    assert_eq!(
        insert_gwongwan(&mut plan, "東,東,德紅,x,2,a,b,c,d,e,f,g,h,i"),
        Err(DataError::InvalidInteger { text: "x".to_owned() })
    );
    assert_eq!(
        insert_gwongwan(&mut plan, "東,東,德紅,1,99999999999999999999,a,b,c,d,e,f,g,h,i"),
        Err(DataError::InvalidInteger { text: "99999999999999999999".to_owned() })
    );
    assert_eq!(insert_gwongwan(&mut plan, "東,東"), Err(bad("gwongwan.txt", "東,東")));
    assert!(plan.steps.is_empty());
}

#[test]
fn line_rows_follow_their_format() {
    assert_eq!(line_row(&RowFormat::Texts(2), &chars("a\tb"), "f.txt"), Ok(vec![text("a"), text("b")]));
    assert_eq!(line_row(&RowFormat::Texts(2), &chars("a"), "f.txt"), Err(bad("f.txt", "a")));
    assert_eq!(line_row(&RowFormat::CodedTexts(1), &chars("一"), "f.txt"), Ok(vec![integer(0x4E00), text("一")]));
}

#[test]
fn definitions_cover_single_characters_with_a_definition() {
    let mut plan = DatabasePlan::new();
    let definition = "好\thou2\tgood's\n好\thou2\tsecond\n人\tjan4\n";
    let jyutping = "好\thou2\n好人\thou2 jan4\n人\tjan4\n好\thou3\n";
    assert_eq!(insert_definitions(&mut plan, definition, jyutping), Ok(()));
    assert_eq!(
        plan.steps,
        vec![execute(DEFINITION_CREATE), insert(DEFINITION_INSERT, vec![vec![integer(0x597D), text("good’s")]])]
    );
}

fn lexicon_entry(word: &str, romanization: &str, values: [i64; 6]) -> LexiconEntry {
    LexiconEntry {
        word: word.to_owned(),
        romanization: romanization.to_owned(),
        char_count: values[0],
        complexity: values[1],
        anchors: values[2],
        spell: values[3],
        anchors_9key: values[4],
        spell_9key: values[5],
    }
}

#[test]
fn lexicon_lines_give_their_codes() {
    let expected = lexicon_entry("粵語", "jyut6 jyu5", [2, 43, 2929, 29444039294440, 55, 5988598]);
    assert_eq!(parse_lexicon_line(&chars("粵語\tjyut6 jyu5")), Some(expected.clone()));
    assert_eq!(parse_lexicon_line(&chars(" 粵語 \t jyut6  jyu5 ")), Some(lexicon_entry("粵語", "jyut6  jyu5", [2, 43, 2929, 29444039294440, 55, 5988598])));
    assert_eq!(parse_lexicon_line(&chars("粵語")), None);
    assert_eq!(parse_lexicon_line(&chars("粵語\t123")), None);
    assert_eq!(parse_lexicon_line(&chars("a\tb\tc")), None);
    let lines = texts(&["粵語\tjyut6 jyu5", "好\thou2"]);
    assert_eq!(
        convert_lexicon(&lines, "jyutping.txt"),
        Ok(vec![expected, lexicon_entry("好", "hou2", [1, 3, 27, 273440, 4, 468])])
    );
}

#[test]
fn lexicon_errors_name_the_first_bad_line() {
    let lines = texts(&["好\thou2", "粵語", "x\t1"]);
    assert_eq!(convert_lexicon(&lines, "pinyin.txt"), Err(bad("pinyin.txt", "粵語")));
    let lines = texts(&["好\thou2", "x\t1"]);
    assert_eq!(convert_lexicon(&lines, "pinyin.txt"), Err(bad("pinyin.txt", "x\t1")));
}

#[test]
fn phones_give_lengths_and_initials() {
    let pieces = texts(&["jyut", "", "jyu", "a"]);
    assert_eq!(phone_lengths_and_initials(&pieces), (vec![4, 3, 1], vec!['j', 'j', 'a']));
}

#[test]
fn lexicon_tables_are_named_in_the_statement() {
    let mut plan = DatabasePlan::new();
    let entries = vec![lexicon_entry("好", "hou2", [1, 3, 27, 273440, 4, 468])];
    insert_lexicon(&mut plan, "lexicon_core", &entries);
    assert_eq!(
        plan.steps,
        vec![insert(
            "INSERT INTO lexicon_core (word, romanization, char_count, complexity, anchors, spell, anchors_9key, spell_9key) VALUES (?, ?, ?, ?, ?, ?, ?, ?)",
            vec![vec![text("好"), text("hou2"), integer(1), integer(3), integer(27), integer(273440), integer(4), integer(468)]],
        )]
    );
}

#[test]
fn pinyin_lexicon_comes_from_its_file() {
    let mut plan = DatabasePlan::new();
    assert_eq!(insert_pinyin(&mut plan, "好\thao3\n\n"), Ok(()));
    assert_eq!(
        plan.steps,
        vec![insert(
            "INSERT INTO pinyin_lexicon (word, romanization, char_count, complexity, anchors, spell, anchors_9key, spell_9key) VALUES (?, ?, ?, ?, ?, ?, ?, ?)",
            vec![vec![text("好"), text("hao3"), integer(1), integer(3), integer(27), integer(272034), integer(4), integer(426)]],
        )]
    );
    assert_eq!(insert_pinyin(&mut plan, "好"), Err(bad("pinyin.txt", "好")));
    assert_eq!(insert_lexicon_file(&mut plan, "好 hao3", "x.txt", "t"), Err(bad("x.txt", "好 hao3")));
    assert_eq!(plan.steps.len(), 1);
}

#[test]
fn structure_entries_are_distinct() {
    let mut plan = DatabasePlan::new();
    assert_eq!(insert_structure(&mut plan, "好\tx\thou2\n好\ty\thou2\n人\tz\tjan4"), Ok(()));
    assert_eq!(
        plan.steps,
        vec![insert(
            STRUCTURE_INSERT,
            vec![
                vec![text("好"), text("hou2"), integer(1), integer(3), integer(273440), integer(468)],
                vec![text("人"), text("jan4"), integer(1), integer(3), integer(292033), integer(526)],
            ],
        )]
    );
    assert_eq!(insert_structure(&mut plan, "好\thou2"), Err(bad("structure.txt", "好\thou2")));
    assert_eq!(insert_structure(&mut plan, "好\tx\t1"), Err(bad("structure.txt", "好\t1")));
    assert_eq!(plan.steps.len(), 1);
}

#[test]
fn error_messages_name_what_went_wrong() {
    assert_eq!(bad("text.txt", "xyz").message(), "bad line format in text.txt: xyz");
    assert_eq!(
        DataError::BadStrokeFormat { word: "日".to_owned(), stroke: "sxq".to_owned() }.message(),
        "bad stroke format: 日 = sxq"
    );
    assert_eq!(
        DataError::SelfMapping { file: "v.txt".to_owned(), line: "丟\t丟".to_owned() }.message(),
        "self-mapping character variant in v.txt: 丟\t丟"
    );
    assert_eq!(DataError::EmptyWord { file: "chohok.txt".to_owned() }.message(), "empty word in chohok.txt");
    assert_eq!(DataError::InvalidInteger { text: "x".to_owned() }.message(), "invalid digit found in string");
}
