//! The plans of the two databases: the dictionary app's and the input
//! method's, each computed from the texts of its source files.

use vstd::prelude::*;
use crate::app_tables::{
    definitions_outcome, format_rows, insert_app_jyutping, insert_chohok, insert_definitions,
    insert_fanwan, insert_gwongwan, insert_tabular_app_table, insert_yingwaa, RowFormat,
    CHOHOK_CREATE, CHOHOK_INSERT, COLLOCATION_CREATE, COLLOCATION_INSERT, DEFINITION_CREATE,
    DEFINITION_INSERT, DICTIONARY_CREATE, DICTIONARY_INSERT, FANWAN_CREATE, FANWAN_INSERT,
    GWONGWAN_CREATE, GWONGWAN_INSERT, JYUTPING_CREATE, JYUTPING_INSERT, YINGWAA_CREATE,
    YINGWAA_INSERT,
};
use crate::error::{DataError, DataErrorView};
use crate::plan::{
    execute_all, executions, in_turn, lemma_in_turn_step, table_outcome, DatabasePlan, StepView,
};
use crate::cangjie::{cangjie_step, insert_cangjie, insert_quick, quick_step};
use crate::ime_lexicons::{
    insert_lexicon, insert_pinyin, insert_structure, lexicon_step, lexicon_table_outcome,
    structure_outcome,
};
use crate::lexicon::{convert_lexicon, entries_view};
use crate::maps::{lemma_source_lookup_bounded, source_lookup, source_map};
use crate::strokes::{insert_strokes, strokes_outcome};
use crate::text::{nonempty_source_lines, nonempty_source_lines_of};
use crate::text_tables::{
    insert_plain_text, insert_skin_tone_map, insert_symbols, insert_syllables,
    plain_text_outcome, skin_tone_step, symbols_outcome, syllables_outcome,
};
use crate::variants::{insert_variants, variants_outcome};

verus! {

/// The model of the outcome of a plan's computation.
pub open spec fn plan_result_view(result: Result<DatabasePlan, DataError>) -> Result<
    Seq<StepView>,
    DataErrorView,
> {
    match result {
        Ok(plan) => Ok(plan@),
        Err(error) => Err(error@),
    }
}

/// The texts of the source files of the dictionary app's database.
pub struct AppSources {
    pub jyutping: String,
    pub collocation: String,
    pub wordshk: String,
    pub yingwaa: String,
    pub chohok: String,
    pub fanwan: String,
    pub gwongwan: String,
    pub definition: String,
}

/// The indexes of the dictionary app's database.
pub const APP_INDEXES: [&'static str; 11] = [
    "CREATE INDEX ix_jyutping_word ON jyutping_table (word)",
    "CREATE INDEX ix_jyutping_romanization ON jyutping_table (romanization)",
    "CREATE INDEX ix_collocation_unified ON collocation_table (word, romanization)",
    "CREATE INDEX ix_dictionary_unified ON dictionary_table (word, romanization)",
    "CREATE INDEX ix_yingwaa_code ON yingwaa_table (code)",
    "CREATE INDEX ix_yingwaa_romanization ON yingwaa_table (romanization)",
    "CREATE INDEX ix_chohok_code ON chohok_table (code)",
    "CREATE INDEX ix_chohok_romanization ON chohok_table (romanization)",
    "CREATE INDEX ix_fanwan_code ON fanwan_table (code)",
    "CREATE INDEX ix_fanwan_romanization ON fanwan_table (romanization)",
    "CREATE INDEX ix_gwongwan_code ON gwongwan_table (code)",
];

/// The steps of the dictionary app's database, or the first error in its
/// sources: the Jyutping, collocation, dictionary, Yingwaa, Chohok, Fanwan,
/// Guangyun and definition tables, then the indexes.
pub open spec fn app_outcome(sources: AppSources) -> Result<Seq<StepView>, DataErrorView> {
    in_turn(app_groups(sources))
}

/// The groups of steps of the dictionary app's database, each with the
/// error that stops it (see [`app_outcome`]).
pub open spec fn app_groups(sources: AppSources) -> Seq<Result<Seq<StepView>, DataErrorView>> {
    let jyutping = table_outcome(
        JYUTPING_CREATE@,
        JYUTPING_INSERT@,
        format_rows(RowFormat::Texts(2), nonempty_source_lines(sources.jyutping@), "jyutping.txt"@),
    );
    let collocation = table_outcome(
        COLLOCATION_CREATE@,
        COLLOCATION_INSERT@,
        format_rows(
            RowFormat::Texts(3),
            nonempty_source_lines(sources.collocation@),
            "collocation.txt"@,
        ),
    );
    let dictionary = table_outcome(
        DICTIONARY_CREATE@,
        DICTIONARY_INSERT@,
        format_rows(RowFormat::Texts(3), nonempty_source_lines(sources.wordshk@), "wordshk.txt"@),
    );
    let yingwaa = table_outcome(
        YINGWAA_CREATE@,
        YINGWAA_INSERT@,
        format_rows(RowFormat::CodedTexts(5), nonempty_source_lines(sources.yingwaa@), "yingwaa.txt"@),
    );
    let chohok = table_outcome(
        CHOHOK_CREATE@,
        CHOHOK_INSERT@,
        format_rows(RowFormat::CodedTexts(5), nonempty_source_lines(sources.chohok@), "chohok.txt"@),
    );
    let fanwan = table_outcome(
        FANWAN_CREATE@,
        FANWAN_INSERT@,
        format_rows(RowFormat::CodedTexts(8), nonempty_source_lines(sources.fanwan@), "fanwan.txt"@),
    );
    let gwongwan = table_outcome(
        GWONGWAN_CREATE@,
        GWONGWAN_INSERT@,
        format_rows(RowFormat::Gwongwan, nonempty_source_lines(sources.gwongwan@), "gwongwan.txt"@),
    );
    let definitions = table_outcome(
        DEFINITION_CREATE@,
        DEFINITION_INSERT@,
        definitions_outcome(sources.definition@, sources.jyutping@),
    );
    seq![
            jyutping,
            collocation,
            dictionary,
            yingwaa,
            chohok,
            fanwan,
            gwongwan,
            definitions,
            Ok(executions(APP_INDEXES@)),
        ]
}

/// The plan of the dictionary app's database (see [`app_outcome`]).
pub fn generate_app(sources: &AppSources) -> (result: Result<DatabasePlan, DataError>)
    ensures
        plan_result_view(result) == app_outcome(*sources),
{
    let ghost groups = app_groups(*sources);
    let mut plan = DatabasePlan::new();
    assert(groups.take(0) =~= Seq::<Result<Seq<StepView>, DataErrorView>>::empty());
    let ghost before = plan@;
    let outcome = insert_app_jyutping(&mut plan, sources.jyutping.as_str());
    proof {
        lemma_in_turn_step(groups, 0, before, plan@, outcome);
    }
    if let Err(error) = outcome {
        return Err(error);
    }
    let ghost before = plan@;
    let outcome = insert_tabular_app_table(
        &mut plan,
        sources.collocation.as_str(),
        "collocation.txt",
        3,
        COLLOCATION_CREATE,
        COLLOCATION_INSERT,
    );
    proof {
        lemma_in_turn_step(groups, 1, before, plan@, outcome);
    }
    if let Err(error) = outcome {
        return Err(error);
    }
    let ghost before = plan@;
    let outcome = insert_tabular_app_table(
        &mut plan,
        sources.wordshk.as_str(),
        "wordshk.txt",
        3,
        DICTIONARY_CREATE,
        DICTIONARY_INSERT,
    );
    proof {
        lemma_in_turn_step(groups, 2, before, plan@, outcome);
    }
    if let Err(error) = outcome {
        return Err(error);
    }
    let ghost before = plan@;
    let outcome = insert_yingwaa(&mut plan, sources.yingwaa.as_str());
    proof {
        lemma_in_turn_step(groups, 3, before, plan@, outcome);
    }
    if let Err(error) = outcome {
        return Err(error);
    }
    let ghost before = plan@;
    let outcome = insert_chohok(&mut plan, sources.chohok.as_str());
    proof {
        lemma_in_turn_step(groups, 4, before, plan@, outcome);
    }
    if let Err(error) = outcome {
        return Err(error);
    }
    let ghost before = plan@;
    let outcome = insert_fanwan(&mut plan, sources.fanwan.as_str());
    proof {
        lemma_in_turn_step(groups, 5, before, plan@, outcome);
    }
    if let Err(error) = outcome {
        return Err(error);
    }
    let ghost before = plan@;
    let outcome = insert_gwongwan(&mut plan, sources.gwongwan.as_str());
    proof {
        lemma_in_turn_step(groups, 6, before, plan@, outcome);
    }
    if let Err(error) = outcome {
        return Err(error);
    }
    let ghost before = plan@;
    let outcome = insert_definitions(&mut plan, sources.definition.as_str(), sources.jyutping.as_str());
    proof {
        lemma_in_turn_step(groups, 7, before, plan@, outcome);
    }
    if let Err(error) = outcome {
        return Err(error);
    }
    let ghost before = plan@;
    execute_all(&mut plan, &APP_INDEXES);
    proof {
        lemma_in_turn_step(groups, 8, before, plan@, Ok(()));
        assert(groups.take(9) =~= groups);
    }
    Ok(plan)
}


/// The texts of the source files of the input method's database; the
/// variant files in the order of [`crate::variants::VARIANT_TABLES`].
pub struct ImeSources {
    pub jyutping: String,
    pub structure: String,
    pub pinyin: String,
    pub cangjie5: String,
    pub cangjie3: String,
    pub stroke: String,
    pub symbol: String,
    pub skin_tone_map: String,
    pub text: String,
    pub syllable_core: String,
    pub syllable_9key: String,
    pub syllable_pinyin: String,
    pub variants: [String; 6],
}

/// Whether the source texts fit what the codes' lengths can count: each
/// no longer than `i64::MAX` characters, the lexicon's no longer than half
/// of that (its Quick codes have up to two characters for each of its
/// characters). Every text that memory can hold satisfies it.
pub open spec fn ime_sources_fit(sources: ImeSources) -> bool {
    &&& sources.jyutping@.len() <= i64::MAX / 2
    &&& sources.structure@.len() <= i64::MAX
    &&& sources.pinyin@.len() <= i64::MAX
    &&& sources.cangjie5@.len() <= i64::MAX
    &&& sources.cangjie3@.len() <= i64::MAX
    &&& sources.symbol@.len() <= i64::MAX
    &&& sources.text@.len() <= i64::MAX
}

/// The tables of the input method's database.
pub const IME_TABLES: [&'static str; 18] = [
    "CREATE TABLE lexicon_core (id INTEGER PRIMARY KEY AUTOINCREMENT, word TEXT NOT NULL, romanization TEXT NOT NULL, char_count INTEGER NOT NULL, complexity INTEGER NOT NULL, anchors INTEGER NOT NULL, spell INTEGER NOT NULL, anchors_9key INTEGER NOT NULL, spell_9key INTEGER NOT NULL)",
    "CREATE TABLE structure_table (id INTEGER PRIMARY KEY AUTOINCREMENT, word TEXT NOT NULL, romanization TEXT NOT NULL, char_count INTEGER NOT NULL, complexity INTEGER NOT NULL, spell INTEGER NOT NULL, spell_9key INTEGER NOT NULL)",
    "CREATE TABLE pinyin_lexicon (id INTEGER PRIMARY KEY AUTOINCREMENT, word TEXT NOT NULL, romanization TEXT NOT NULL, char_count INTEGER NOT NULL, complexity INTEGER NOT NULL, anchors INTEGER NOT NULL, spell INTEGER NOT NULL, anchors_9key INTEGER NOT NULL, spell_9key INTEGER NOT NULL)",
    "CREATE TABLE cangjie_table (id INTEGER PRIMARY KEY AUTOINCREMENT, word TEXT NOT NULL, cangjie5 TEXT NOT NULL, c5complex INTEGER NOT NULL, c5code INTEGER NOT NULL, cangjie3 TEXT NOT NULL, c3complex INTEGER NOT NULL, c3code INTEGER NOT NULL)",
    "CREATE TABLE quick_table (id INTEGER PRIMARY KEY AUTOINCREMENT, word TEXT NOT NULL, quick5 TEXT NOT NULL, q5complex INTEGER NOT NULL, q5code INTEGER NOT NULL, quick3 TEXT NOT NULL, q3complex INTEGER NOT NULL, q3code INTEGER NOT NULL)",
    "CREATE TABLE stroke_table (id INTEGER PRIMARY KEY AUTOINCREMENT, word TEXT NOT NULL, stroke TEXT NOT NULL, complex INTEGER NOT NULL, code INTEGER NOT NULL)",
    "CREATE TABLE symbol_table (id INTEGER PRIMARY KEY AUTOINCREMENT, category INTEGER NOT NULL, unicode_version INTEGER NOT NULL, code_point TEXT NOT NULL, cantonese TEXT NOT NULL, romanization TEXT NOT NULL, complexity INTEGER NOT NULL, spell INTEGER NOT NULL, spell_9key INTEGER NOT NULL)",
    "CREATE TABLE emoji_skin_map (id INTEGER PRIMARY KEY AUTOINCREMENT, source TEXT NOT NULL, target TEXT NOT NULL)",
    "CREATE TABLE plain_text_table (id INTEGER PRIMARY KEY AUTOINCREMENT, input TEXT NOT NULL, word TEXT NOT NULL, letter_count INTEGER NOT NULL, spell INTEGER NOT NULL, spell_9key INTEGER NOT NULL)",
    "CREATE TABLE syllable_core_table (alias_code INTEGER PRIMARY KEY, origin_code INTEGER NOT NULL, alias TEXT NOT NULL, origin TEXT NOT NULL)",
    "CREATE TABLE syllable_9key_table (alias_code INTEGER PRIMARY KEY, origin_code INTEGER NOT NULL, alias_9key_code INTEGER NOT NULL, origin_9key_code INTEGER NOT NULL, alias TEXT NOT NULL, origin TEXT NOT NULL)",
    "CREATE TABLE syllable_pinyin_table (code INTEGER PRIMARY KEY, code_9key INTEGER NOT NULL, syllable TEXT NOT NULL)",
    "CREATE TABLE variant_abp (source INTEGER PRIMARY KEY, target INTEGER NOT NULL)",
    "CREATE TABLE variant_hk (source INTEGER PRIMARY KEY, target INTEGER NOT NULL)",
    "CREATE TABLE variant_old (source INTEGER PRIMARY KEY, target INTEGER NOT NULL)",
    "CREATE TABLE variant_prc (source INTEGER PRIMARY KEY, target INTEGER NOT NULL)",
    "CREATE TABLE variant_sim (source INTEGER PRIMARY KEY, target INTEGER NOT NULL)",
    "CREATE TABLE variant_tw (source INTEGER PRIMARY KEY, target INTEGER NOT NULL)",
];

/// The indexes of the input method's database.
pub const IME_INDEXES: [&'static str; 26] = [
    "CREATE INDEX ix_lexicon_core_anchors ON lexicon_core (anchors, char_count)",
    "CREATE INDEX ix_lexicon_core_spell ON lexicon_core (spell, complexity)",
    "CREATE INDEX ix_lexicon_core_anchors_9key ON lexicon_core (anchors_9key, char_count)",
    "CREATE INDEX ix_lexicon_core_spell_9key ON lexicon_core (spell_9key, complexity)",
    "CREATE INDEX ix_lexicon_core_word ON lexicon_core (word)",
    "CREATE INDEX ix_structure_spell ON structure_table (spell, complexity)",
    "CREATE INDEX ix_structure_spell_9key ON structure_table (spell_9key, complexity)",
    "CREATE INDEX ix_pinyin_anchors ON pinyin_lexicon (anchors, char_count)",
    "CREATE INDEX ix_pinyin_spell ON pinyin_lexicon (spell, complexity)",
    "CREATE INDEX ix_pinyin_anchors_9key ON pinyin_lexicon (anchors_9key, char_count)",
    "CREATE INDEX ix_pinyin_spell_9key ON pinyin_lexicon (spell_9key, complexity)",
    "CREATE INDEX ix_cangjie_cangjie5 ON cangjie_table (cangjie5, c5complex)",
    "CREATE INDEX ix_cangjie_c5code ON cangjie_table (c5code)",
    "CREATE INDEX ix_cangjie_cangjie3 ON cangjie_table (cangjie3, c3complex)",
    "CREATE INDEX ix_cangjie_c3code ON cangjie_table (c3code)",
    "CREATE INDEX ix_quick_quick5 ON quick_table (quick5, q5complex)",
    "CREATE INDEX ix_quick_q5code ON quick_table (q5code)",
    "CREATE INDEX ix_quick_quick3 ON quick_table (quick3, q3complex)",
    "CREATE INDEX ix_quick_q3code ON quick_table (q3code)",
    "CREATE INDEX ix_stroke_stroke ON stroke_table (stroke, complex)",
    "CREATE INDEX ix_stroke_code ON stroke_table (code, complex)",
    "CREATE INDEX ix_symbol_spell ON symbol_table (spell, complexity)",
    "CREATE INDEX ix_symbol_spell_9key ON symbol_table (spell_9key, complexity)",
    "CREATE INDEX ix_emoji_skin_map_source ON emoji_skin_map (source)",
    "CREATE INDEX ix_plain_text_spell ON plain_text_table (spell, letter_count)",
    "CREATE INDEX ix_plain_text_spell_9key ON plain_text_table (spell_9key, letter_count)",
];

/// The groups of steps of the input method's database, each with the
/// error that stops it: the tables; the Jyutping core lexicon, the
/// structure and Pinyin lexicons; the Cangjie, Quick and stroke tables of
/// the lexicon's words; the symbols, skin tones, plain text, syllables and
/// character variants; then the indexes.
pub open spec fn ime_groups(sources: ImeSources) -> Seq<Result<Seq<StepView>, DataErrorView>> {
    let jyutping_lines = nonempty_source_lines(sources.jyutping@);
    let cangjie5 = source_lookup(sources.cangjie5@);
    let cangjie3 = source_lookup(sources.cangjie3@);
    seq![
        Ok(executions(IME_TABLES@)),
        lexicon_table_outcome(jyutping_lines, "jyutping.txt"@, "lexicon_core"@),
        structure_outcome(sources.structure@),
        lexicon_table_outcome(
            nonempty_source_lines(sources.pinyin@),
            "pinyin.txt"@,
            "pinyin_lexicon"@,
        ),
        Ok(seq![cangjie_step(jyutping_lines, cangjie5, cangjie3)]),
        Ok(seq![quick_step(jyutping_lines, cangjie5, cangjie3)]),
        strokes_outcome(sources.stroke@, jyutping_lines),
        symbols_outcome(sources.symbol@),
        Ok(seq![skin_tone_step(sources.skin_tone_map@)]),
        plain_text_outcome(sources.text@),
        syllables_outcome(
            sources.syllable_core@,
            sources.syllable_9key@,
            sources.syllable_pinyin@,
        ),
        variants_outcome(sources.variants@),
        Ok(executions(IME_INDEXES@)),
    ]
}

/// The steps of the input method's database, or the first error in its
/// sources (see [`ime_groups`]).
pub open spec fn ime_outcome(sources: ImeSources) -> Result<Seq<StepView>, DataErrorView> {
    in_turn(ime_groups(sources))
}

/// The plan of the input method's database (see [`ime_outcome`]).
pub fn generate_ime(sources: &ImeSources) -> (result: Result<DatabasePlan, DataError>)
    requires
        ime_sources_fit(*sources),
    ensures
        plan_result_view(result) == ime_outcome(*sources),
{
    let ghost groups = ime_groups(*sources);
    let mut plan = DatabasePlan::new();
    assert(groups.take(0) =~= Seq::<Result<Seq<StepView>, DataErrorView>>::empty());
    let ghost before = plan@;
    execute_all(&mut plan, &IME_TABLES);
    proof {
        lemma_in_turn_step(groups, 0, before, plan@, Ok(()));
    }
    let jyutping_lines = nonempty_source_lines_of(sources.jyutping.as_str());
    let ghost before = plan@;
    let outcome = match convert_lexicon(&jyutping_lines, "jyutping.txt") {
        Ok(entries) => {
            insert_lexicon(&mut plan, "lexicon_core", &entries);
            assert(plan@ =~= before + seq![lexicon_step("lexicon_core"@, entries_view(entries@))]);
            Ok(())
        },
        Err(error) => Err(error),
    };
    proof {
        lemma_in_turn_step(groups, 1, before, plan@, outcome);
    }
    if let Err(error) = outcome {
        return Err(error);
    }
    let ghost before = plan@;
    let outcome = insert_structure(&mut plan, sources.structure.as_str());
    proof {
        lemma_in_turn_step(groups, 2, before, plan@, outcome);
    }
    if let Err(error) = outcome {
        return Err(error);
    }
    let ghost before = plan@;
    let outcome = insert_pinyin(&mut plan, sources.pinyin.as_str());
    proof {
        lemma_in_turn_step(groups, 3, before, plan@, outcome);
    }
    if let Err(error) = outcome {
        return Err(error);
    }
    let cangjie5 = source_map(sources.cangjie5.as_str());
    let cangjie3 = source_map(sources.cangjie3.as_str());
    proof {
        assert(cangjie5.lookup() =~= source_lookup(sources.cangjie5@));
        assert(cangjie3.lookup() =~= source_lookup(sources.cangjie3@));
        assert forall|key: Seq<char>, i: int|
            0 <= i < cangjie5.values_of(key).len() implies #[trigger] cangjie5.values_of(key)[i].len()
            <= i64::MAX by {
            lemma_source_lookup_bounded(sources.cangjie5@, key);
            assert(source_lookup(sources.cangjie5@)(key) == cangjie5.values_of(key));
        }
        assert forall|key: Seq<char>, i: int|
            0 <= i < cangjie3.values_of(key).len() implies #[trigger] cangjie3.values_of(key)[i].len()
            <= i64::MAX by {
            lemma_source_lookup_bounded(sources.cangjie3@, key);
            assert(source_lookup(sources.cangjie3@)(key) == cangjie3.values_of(key));
        }
    }
    let ghost before = plan@;
    insert_cangjie(&mut plan, &jyutping_lines, &cangjie5, &cangjie3);
    assert(plan@ =~= before + seq![
        cangjie_step(
            nonempty_source_lines(sources.jyutping@),
            source_lookup(sources.cangjie5@),
            source_lookup(sources.cangjie3@),
        ),
    ]);
    proof {
        lemma_in_turn_step(groups, 4, before, plan@, Ok(()));
    }
    let ghost before = plan@;
    insert_quick(&mut plan, &jyutping_lines, &cangjie5, &cangjie3);
    assert(plan@ =~= before + seq![
        quick_step(
            nonempty_source_lines(sources.jyutping@),
            source_lookup(sources.cangjie5@),
            source_lookup(sources.cangjie3@),
        ),
    ]);
    proof {
        lemma_in_turn_step(groups, 5, before, plan@, Ok(()));
    }
    let ghost before = plan@;
    let outcome = insert_strokes(&mut plan, sources.stroke.as_str(), &jyutping_lines);
    proof {
        lemma_in_turn_step(groups, 6, before, plan@, outcome);
    }
    if let Err(error) = outcome {
        return Err(error);
    }
    let ghost before = plan@;
    let outcome = insert_symbols(&mut plan, sources.symbol.as_str());
    proof {
        lemma_in_turn_step(groups, 7, before, plan@, outcome);
    }
    if let Err(error) = outcome {
        return Err(error);
    }
    let ghost before = plan@;
    insert_skin_tone_map(&mut plan, sources.skin_tone_map.as_str());
    assert(plan@ =~= before + seq![skin_tone_step(sources.skin_tone_map@)]);
    proof {
        lemma_in_turn_step(groups, 8, before, plan@, Ok(()));
    }
    let ghost before = plan@;
    let outcome = insert_plain_text(&mut plan, sources.text.as_str());
    proof {
        lemma_in_turn_step(groups, 9, before, plan@, outcome);
    }
    if let Err(error) = outcome {
        return Err(error);
    }
    let ghost before = plan@;
    let outcome = insert_syllables(
        &mut plan,
        sources.syllable_core.as_str(),
        sources.syllable_9key.as_str(),
        sources.syllable_pinyin.as_str(),
    );
    proof {
        lemma_in_turn_step(groups, 10, before, plan@, outcome);
    }
    if let Err(error) = outcome {
        return Err(error);
    }
    let ghost before = plan@;
    let outcome = insert_variants(&mut plan, &sources.variants);
    proof {
        lemma_in_turn_step(groups, 11, before, plan@, outcome);
    }
    if let Err(error) = outcome {
        return Err(error);
    }
    let ghost before = plan@;
    execute_all(&mut plan, &IME_INDEXES);
    proof {
        lemma_in_turn_step(groups, 12, before, plan@, Ok(()));
        assert(groups.take(13) =~= groups);
    }
    Ok(plan)
}

} // verus!
