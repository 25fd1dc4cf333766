use lib::app_tables::{
    CHOHOK_CREATE, COLLOCATION_CREATE, DEFINITION_CREATE, DEFINITION_INSERT, DICTIONARY_CREATE,
    FANWAN_CREATE, GWONGWAN_CREATE, JYUTPING_CREATE, JYUTPING_INSERT, YINGWAA_CREATE,
};
use lib::codes::{decimal_code, keypad_code, serial_code};
use lib::error::DataError;
use lib::generator::{generate_app, generate_ime, AppSources, ImeSources, APP_INDEXES, IME_INDEXES, IME_TABLES};
use lib::plan::{SqlValue, Step};

fn execute(statement: &str) -> Step {
    Step::Execute(statement.to_owned())
}

fn app_sources() -> AppSources {
    AppSources {
        jyutping: "好\thou2\n好人\thou2 jan4\n".to_owned(),
        collocation: "好\thou2\t好人\n".to_owned(),
        wordshk: "好\thou2\tgood\n".to_owned(),
        yingwaa: "好\thou2\th\tn\ti\n".to_owned(),
        chohok: "好\thou2\th\tt\tf\n".to_owned(),
        fanwan: "好\thou2\th\tou\ty\tt\tr\ti\n".to_owned(),
        gwongwan: "好,皓,晧,1,2,呼,晧,曉,開,一,效,獨,上,善也\n".to_owned(),
        definition: "好\thou2\tit's good\n".to_owned(),
    }
}

#[test]
fn app_plan_creates_fills_and_indexes_every_table() {
    let plan = generate_app(&app_sources()).unwrap();
    assert_eq!(plan.steps.len(), 8 * 2 + APP_INDEXES.len());
    let creates = [
        JYUTPING_CREATE,
        COLLOCATION_CREATE,
        DICTIONARY_CREATE,
        YINGWAA_CREATE,
        CHOHOK_CREATE,
        FANWAN_CREATE,
        GWONGWAN_CREATE,
        DEFINITION_CREATE,
    ];
    for (index, create) in creates.iter().enumerate() {
        assert_eq!(plan.steps[2 * index], execute(create));
        assert!(matches!(&plan.steps[2 * index + 1], Step::Insert { rows, .. } if rows.len() == 1 || index == 0));
    }
    assert_eq!(
        plan.steps[1],
        Step::Insert {
            statement: JYUTPING_INSERT.to_owned(),
            rows: vec![
                vec![SqlValue::Text("好".to_owned()), SqlValue::Text("hou2".to_owned())],
                vec![SqlValue::Text("好人".to_owned()), SqlValue::Text("hou2 jan4".to_owned())],
            ],
        }
    );
    assert_eq!(
        plan.steps[15],
        Step::Insert {
            statement: DEFINITION_INSERT.to_owned(),
            rows: vec![vec![SqlValue::Integer(0x597D), SqlValue::Text("it’s good".to_owned())]],
        }
    );
    for (index, statement) in APP_INDEXES.iter().enumerate() {
        assert_eq!(plan.steps[16 + index], execute(statement));
    }
}

#[test]
fn app_plan_stops_at_the_first_bad_source() {
    let mut sources = app_sources();
    sources.collocation = "好\thou2\n".to_owned();
    sources.gwongwan = "bad".to_owned();
    assert_eq!(
        generate_app(&sources).unwrap_err(),
        DataError::BadLineFormat { file: "collocation.txt".to_owned(), line: "好\thou2".to_owned() }
    );
    let mut sources = app_sources();
    sources.gwongwan = "好,皓,晧,one,2,呼,晧,曉,開,一,效,獨,上,善也".to_owned();
    assert_eq!(generate_app(&sources).unwrap_err(), DataError::InvalidInteger { text: "one".to_owned() });
}

#[test]
fn app_plan_of_empty_sources_has_empty_tables() {
    let empty = AppSources {
        jyutping: String::new(),
        collocation: String::new(),
        wordshk: String::new(),
        yingwaa: String::new(),
        chohok: String::new(),
        fanwan: String::new(),
        gwongwan: String::new(),
        definition: String::new(),
    };
    let plan = generate_app(&empty).unwrap();
    assert_eq!(plan.steps.len(), 27);
    for index in 0..8 {
        assert!(matches!(&plan.steps[2 * index + 1], Step::Insert { rows, .. } if rows.is_empty()));
    }
}

fn ime_sources() -> ImeSources {
    ImeSources {
        jyutping: "日\tjat6\n日月\tjat6 jyut6\n".to_owned(),
        structure: "日\tx\tjat6\n".to_owned(),
        pinyin: "日\tri4\n".to_owned(),
        cangjie5: "日\ta\n月\tb\n".to_owned(),
        cangjie3: "日\ta\n".to_owned(),
        stroke: "日\tsnhh\n".to_owned(),
        symbol: "1\t15\tU+1F600\t笑\tsiu3\n".to_owned(),
        skin_tone_map: "👍\t👍🏻\n".to_owned(),
        text: "ab\tAB\n".to_owned(),
        syllable_core: "nei\tnei\n".to_owned(),
        syllable_9key: "lei\tnei\n".to_owned(),
        syllable_pinyin: "ni\n".to_owned(),
        variants: ["一\t弌".to_owned(), String::new(), String::new(), String::new(), String::new(), String::new()],
    }
}

#[test]
fn ime_plan_creates_fills_and_indexes_every_table() {
    let plan = generate_ime(&ime_sources()).unwrap();
    let fills = 1 + 1 + 1 + 1 + 1 + 1 + 1 + 1 + 1 + 3 + 6;
    assert_eq!(plan.steps.len(), IME_TABLES.len() + fills + IME_INDEXES.len());
    for (index, statement) in IME_TABLES.iter().enumerate() {
        assert_eq!(plan.steps[index], execute(statement));
    }
    let fill_steps = &plan.steps[IME_TABLES.len()..IME_TABLES.len() + fills];
    assert!(fill_steps.iter().all(|step| matches!(step, Step::Insert { rows, .. } if rows.len() == 1 || rows.len() == 2 || rows.is_empty())));
    assert_eq!(
        fill_steps[0],
        Step::Insert {
            statement: "INSERT INTO lexicon_core (word, romanization, char_count, complexity, anchors, spell, anchors_9key, spell_9key) VALUES (?, ?, ?, ?, ?, ?, ?, ?)".to_owned(),
            rows: vec![
                vec![
                    SqlValue::Text("日".to_owned()),
                    SqlValue::Text("jat6".to_owned()),
                    SqlValue::Integer(1),
                    SqlValue::Integer(3),
                    SqlValue::Integer(serial_code("j")),
                    SqlValue::Integer(serial_code("jat")),
                    SqlValue::Integer(keypad_code("j")),
                    SqlValue::Integer(keypad_code("jat")),
                ],
                vec![
                    SqlValue::Text("日月".to_owned()),
                    SqlValue::Text("jat6 jyut6".to_owned()),
                    SqlValue::Integer(2),
                    SqlValue::Integer(decimal_code(&[3, 4])),
                    SqlValue::Integer(serial_code("jj")),
                    SqlValue::Integer(serial_code("jatjyut")),
                    SqlValue::Integer(keypad_code("jj")),
                    SqlValue::Integer(keypad_code("jatjyut")),
                ],
            ],
        }
    );
    for (index, statement) in IME_INDEXES.iter().enumerate() {
        assert_eq!(plan.steps[IME_TABLES.len() + fills + index], execute(statement));
    }
}

#[test]
fn ime_plan_stops_at_the_first_bad_source() {
    let mut sources = ime_sources();
    sources.stroke = "日\tsq".to_owned();
    sources.text = "bad".to_owned();
    assert_eq!(
        generate_ime(&sources).unwrap_err(),
        DataError::BadStrokeFormat { word: "日".to_owned(), stroke: "sq".to_owned() }
    );
    let mut sources = ime_sources();
    sources.jyutping = "日".to_owned();
    assert_eq!(
        generate_ime(&sources).unwrap_err(),
        DataError::BadLineFormat { file: "jyutping.txt".to_owned(), line: "日".to_owned() }
    );
    let mut sources = ime_sources();
    sources.variants[5] = "丟\t丟".to_owned();
    assert_eq!(
        generate_ime(&sources).unwrap_err(),
        DataError::SelfMapping { file: "CharacterVariant.Taiwan.txt".to_owned(), line: "丟\t丟".to_owned() }
    );
}
