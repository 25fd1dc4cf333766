//! The tables of the dictionary app's database, each filled from one
//! source file.

use vstd::prelude::*;
use crate::codes::{first_code_point, parse_integer, spec_first_code_point, spec_parse_integer};
use crate::maps::{definition_map, definition_pairs, pair_values};
use crate::words::{jyutping_words, spec_jyutping_words};
use crate::error::{bad_line, DataError, DataErrorView};
use crate::plan::{
    bind_texts, plan_extended, row_view, rows_view, table_outcome, text_values, DatabasePlan,
    SqlValue, SqlValueView, StepView,
};
use crate::text::{
    nonempty_source_lines, nonempty_source_lines_of, source_lines, split, split_chars, string_of,
    texts_view,
};

verus! {

/// How the fields of a line become a row.
pub enum RowFormat {
    /// Exactly this many tab-separated fields, each a text value.
    Texts(usize),
    /// Exactly this many tab-separated fields, each a text value, after the
    /// code point of the first field's first character.
    CodedTexts(usize),
    /// The fourteen comma-separated fields of the Guangyun rhyme table: the
    /// code point of the first field's first character, three texts, two
    /// integers, eight texts.
    Gwongwan,
}

/// The row of one line in the given format, or the error that it makes.
pub open spec fn format_row(format: RowFormat, line: Seq<char>, file: Seq<char>) -> Result<
    Seq<SqlValueView>,
    DataErrorView,
> {
    match format {
        RowFormat::Texts(count) => {
            let parts = split(line, '\t');
            if parts.len() != count {
                Err(DataErrorView::BadLineFormat { file, line })
            } else {
                Ok(text_values(parts))
            }
        },
        RowFormat::CodedTexts(count) => {
            let parts = split(line, '\t');
            if parts.len() != count {
                Err(DataErrorView::BadLineFormat { file, line })
            } else {
                match spec_first_code_point(parts[0]) {
                    None => Err(DataErrorView::EmptyWord { file }),
                    Some(code) => Ok(seq![SqlValueView::Integer(code)] + text_values(parts)),
                }
            }
        },
        RowFormat::Gwongwan => {
            let parts = split(line, ',');
            if parts.len() != 14 {
                Err(DataErrorView::BadLineFormat { file, line })
            } else {
                match spec_first_code_point(parts[0]) {
                    None => Err(DataErrorView::EmptyWord { file }),
                    Some(code) => match spec_parse_integer(parts[3]) {
                        None => Err(DataErrorView::InvalidInteger { text: parts[3] }),
                        Some(serial) => match spec_parse_integer(parts[4]) {
                            None => Err(DataErrorView::InvalidInteger { text: parts[4] }),
                            Some(number) => Ok(
                                seq![
                                    SqlValueView::Integer(code),
                                    SqlValueView::Text(parts[0]),
                                    SqlValueView::Text(parts[1]),
                                    SqlValueView::Text(parts[2]),
                                    SqlValueView::Integer(serial),
                                    SqlValueView::Integer(number),
                                ] + text_values(parts.skip(5)),
                            ),
                        },
                    },
                }
            }
        },
    }
}

/// The rows of the lines in the given format, in order, or the error of
/// the first line that makes one.
pub open spec fn format_rows(format: RowFormat, lines: Seq<Seq<char>>, file: Seq<char>) -> Result<
    Seq<Seq<SqlValueView>>,
    DataErrorView,
>
    decreases lines.len(),
{
    if lines.len() == 0 {
        Ok(Seq::empty())
    } else {
        match format_rows(format, lines.drop_last(), file) {
            Err(error) => Err(error),
            Ok(rows) => match format_row(format, lines.last(), file) {
                Err(error) => Err(error),
                Ok(row) => Ok(rows.push(row)),
            },
        }
    }
}

/// The row of one line in the given format (see [`format_row`]).
pub fn line_row(format: &RowFormat, line: &[char], file_name: &str) -> (result: Result<
    Vec<SqlValue>,
    DataError,
>)
    ensures
        match format_row(*format, line@, file_name@) {
            Ok(row) => result matches Ok(values) && row_view(values@) == row,
            Err(error) => result matches Err(e) && e@ == error,
        },
{
    match format {
        RowFormat::Texts(count) => {
            let parts = split_chars(line, '\t');
            if parts.len() != *count {
                return Err(bad_line(file_name, line));
            }
            let mut row: Vec<SqlValue> = Vec::new();
            bind_texts(&mut row, &parts);
            assert(row_view(row@) =~= text_values(texts_view(parts@)));
            Ok(row)
        },
        RowFormat::CodedTexts(count) => {
            let parts = split_chars(line, '\t');
            if parts.len() != *count {
                return Err(bad_line(file_name, line));
            }
            assert(texts_view(parts@)[0] == parts@[0]@);
            let code = first_code_point(&parts[0], file_name)?;
            let mut row: Vec<SqlValue> = Vec::new();
            row.push(SqlValue::Integer(code));
            assert(row_view(row@) =~= seq![SqlValueView::Integer(code)]);
            bind_texts(&mut row, &parts);
            Ok(row)
        },
        RowFormat::Gwongwan => {
            let parts = split_chars(line, ',');
            if parts.len() != 14 {
                return Err(bad_line(file_name, line));
            }
            let ghost texts = texts_view(parts@);
            assert(texts[0] == parts@[0]@);
            assert(texts[1] == parts@[1]@);
            assert(texts[2] == parts@[2]@);
            assert(texts[3] == parts@[3]@);
            assert(texts[4] == parts@[4]@);
            let code = first_code_point(&parts[0], file_name)?;
            let serial = parse_integer(&parts[3])?;
            let number = parse_integer(&parts[4])?;
            let mut row: Vec<SqlValue> = Vec::new();
            row.push(SqlValue::Integer(code));
            row.push(SqlValue::Text(string_of(&parts[0])));
            row.push(SqlValue::Text(string_of(&parts[1])));
            row.push(SqlValue::Text(string_of(&parts[2])));
            row.push(SqlValue::Integer(serial));
            row.push(SqlValue::Integer(number));
            let ghost head = row_view(row@);
            let mut rest: Vec<Vec<char>> = Vec::new();
            let mut k: usize = 5;
            while k < 14
                invariant
                    5 <= k <= 14,
                    parts@.len() == 14,
                    texts == texts_view(parts@),
                    texts_view(rest@) == texts.subrange(5, k as int),
                decreases 14 - k,
            {
                let piece = parts[k].clone();
                assert(piece@ == texts[k as int]);
                let ghost previous = rest@;
                rest.push(piece);
                assert(texts_view(rest@) =~= texts_view(previous).push(piece@));
                k = k + 1;
                assert(texts_view(rest@) =~= texts.subrange(5, k as int));
            }
            assert(texts.subrange(5, 14) =~= texts.skip(5));
            bind_texts(&mut row, &rest);
            Ok(row)
        },
    }
}

/// The rows of the lines in the given format (see [`format_rows`]).
pub fn format_lines(format: &RowFormat, lines: &Vec<Vec<char>>, file_name: &str) -> (result: Result<
    Vec<Vec<SqlValue>>,
    DataError,
>)
    ensures
        match format_rows(*format, texts_view(lines@), file_name@) {
            Ok(rows) => result matches Ok(values) && rows_view(values@) == rows,
            Err(error) => result matches Err(e) && e@ == error,
        },
{
    let ghost all = texts_view(lines@);
    let mut rows: Vec<Vec<SqlValue>> = Vec::new();
    let mut i: usize = 0;
    assert(all.take(0) =~= Seq::<Seq<char>>::empty());
    assert(rows_view(rows@) =~= Seq::<Seq<SqlValueView>>::empty());
    while i < lines.len()
        invariant
            i <= lines.len(),
            all == texts_view(lines@),
            format_rows(*format, all.take(i as int), file_name@) == Ok::<
                Seq<Seq<SqlValueView>>,
                DataErrorView,
            >(rows_view(rows@)),
        decreases lines.len() - i,
    {
        assert(all.take(i + 1).drop_last() =~= all.take(i as int));
        assert(all[i as int] == lines@[i as int]@);
        match line_row(format, &lines[i], file_name) {
            Ok(row) => {
                let ghost previous = rows@;
                rows.push(row);
                assert(rows_view(rows@) =~= rows_view(previous).push(row_view(row@)));
            },
            Err(error) => {
                proof {
                    lemma_format_rows_error_stays(*format, all, i as int + 1, file_name@);
                }
                return Err(error);
            },
        }
        i = i + 1;
    }
    assert(all.take(lines.len() as int) =~= all);
    Ok(rows)
}

proof fn lemma_format_rows_error_stays(
    format: RowFormat,
    lines: Seq<Seq<char>>,
    k: int,
    file: Seq<char>,
)
    requires
        0 <= k <= lines.len(),
        format_rows(format, lines.take(k), file) is Err,
    ensures
        format_rows(format, lines, file) == format_rows(format, lines.take(k), file),
    decreases lines.len() - k,
{
    if k < lines.len() {
        assert(lines.take(k + 1).drop_last() =~= lines.take(k));
        lemma_format_rows_error_stays(format, lines, k + 1, file);
    } else {
        assert(lines.take(k) =~= lines);
    }
}


/// Creates a table and fills it with the rows of the non-blank lines of a
/// source file in the given format (see [`format_rows`]).
pub fn insert_formatted_table(
    plan: &mut DatabasePlan,
    content: &str,
    file_name: &str,
    format: RowFormat,
    create_sql: &str,
    insert_sql: &str,
) -> (result: Result<(), DataError>)
    ensures
        plan_extended(
            old(plan)@,
            final(plan)@,
            result,
            table_outcome(
                create_sql@,
                insert_sql@,
                format_rows(format, nonempty_source_lines(content@), file_name@),
            ),
        ),
{
    let lines = nonempty_source_lines_of(content);
    let rows = match format_lines(&format, &lines, file_name) {
        Ok(rows) => rows,
        Err(error) => return Err(error),
    };
    let ghost before = plan@;
    plan.execute(create_sql);
    plan.insert(insert_sql, rows);
    assert(plan@ =~= before + seq![
        StepView::Execute(create_sql@),
        StepView::Insert { statement: insert_sql@, rows: rows_view(rows@) },
    ]);
    Ok(())
}

/// The statement that creates the table of Jyutping readings.
pub const JYUTPING_CREATE: &'static str = "CREATE TABLE jyutping_table (id INTEGER PRIMARY KEY AUTOINCREMENT, word TEXT NOT NULL, romanization TEXT NOT NULL)";

/// The statement that inserts a Jyutping reading.
pub const JYUTPING_INSERT: &'static str = "INSERT INTO jyutping_table (word, romanization) VALUES (?, ?)";

/// Creates the table of Jyutping readings and fills it with the word and
/// romanization of each non-blank line of `jyutping.txt`.
pub fn insert_app_jyutping(plan: &mut DatabasePlan, jyutping: &str) -> (result: Result<(), DataError>)
    ensures
        plan_extended(
            old(plan)@,
            final(plan)@,
            result,
            table_outcome(
                JYUTPING_CREATE@,
                JYUTPING_INSERT@,
                format_rows(RowFormat::Texts(2), nonempty_source_lines(jyutping@), "jyutping.txt"@),
            ),
        ),
{
    insert_formatted_table(plan, jyutping, "jyutping.txt", RowFormat::Texts(2), JYUTPING_CREATE, JYUTPING_INSERT)
}


/// Creates a table and fills it with the fields of each non-blank line of a
/// source file of `field_count` tab-separated text fields.
pub fn insert_tabular_app_table(
    plan: &mut DatabasePlan,
    content: &str,
    file_name: &str,
    field_count: usize,
    create_sql: &str,
    insert_sql: &str,
) -> (result: Result<(), DataError>)
    ensures
        plan_extended(
            old(plan)@,
            final(plan)@,
            result,
            table_outcome(
                create_sql@,
                insert_sql@,
                format_rows(RowFormat::Texts(field_count), nonempty_source_lines(content@), file_name@),
            ),
        ),
{
    insert_formatted_table(plan, content, file_name, RowFormat::Texts(field_count), create_sql, insert_sql)
}

/// The statement that creates the table of collocations.
pub const COLLOCATION_CREATE: &'static str = "CREATE TABLE collocation_table (id INTEGER PRIMARY KEY AUTOINCREMENT, word TEXT NOT NULL, romanization TEXT NOT NULL, collocation TEXT NOT NULL, UNIQUE (word, romanization))";

/// The statement that inserts a collocation.
pub const COLLOCATION_INSERT: &'static str = "INSERT INTO collocation_table (word, romanization, collocation) VALUES (?, ?, ?)";

/// The statement that creates the table of dictionary entries.
pub const DICTIONARY_CREATE: &'static str = "CREATE TABLE dictionary_table (id INTEGER PRIMARY KEY AUTOINCREMENT, word TEXT NOT NULL, romanization TEXT NOT NULL, description TEXT NOT NULL)";

/// The statement that inserts a dictionary entry.
pub const DICTIONARY_INSERT: &'static str = "INSERT INTO dictionary_table (word, romanization, description) VALUES (?, ?, ?)";

/// The statement that creates the table of the Yingwaa dictionary.
pub const YINGWAA_CREATE: &'static str = "CREATE TABLE yingwaa_table(code INTEGER NOT NULL, word TEXT NOT NULL, romanization TEXT NOT NULL, pronunciation TEXT NOT NULL, note TEXT NOT NULL, interpretation TEXT NOT NULL)";

/// The statement that inserts a Yingwaa entry.
pub const YINGWAA_INSERT: &'static str = "INSERT INTO yingwaa_table (code, word, romanization, pronunciation, note, interpretation) VALUES (?, ?, ?, ?, ?, ?)";

/// The statement that creates the table of the Chohok dictionary.
pub const CHOHOK_CREATE: &'static str = "CREATE TABLE chohok_table(code INTEGER NOT NULL, word TEXT NOT NULL, romanization TEXT NOT NULL, phone TEXT NOT NULL, tone TEXT NOT NULL, faancit TEXT NOT NULL)";

/// The statement that inserts a Chohok entry.
pub const CHOHOK_INSERT: &'static str = "INSERT INTO chohok_table (code, word, romanization, phone, tone, faancit) VALUES (?, ?, ?, ?, ?, ?)";

/// The statement that creates the table of the Fanwan dictionary.
pub const FANWAN_CREATE: &'static str = "CREATE TABLE fanwan_table(code INTEGER NOT NULL, word TEXT NOT NULL, romanization TEXT NOT NULL, initial TEXT NOT NULL, final TEXT NOT NULL, yamyeung TEXT NOT NULL, tone TEXT NOT NULL, rhyme TEXT NOT NULL, interpretation TEXT NOT NULL)";

/// The statement that inserts a Fanwan entry.
pub const FANWAN_INSERT: &'static str = "INSERT INTO fanwan_table (code, word, romanization, initial, final, yamyeung, tone, rhyme, interpretation) VALUES (?, ?, ?, ?, ?, ?, ?, ?, ?)";

/// The statement that creates the table of the Guangyun rhyme dictionary.
pub const GWONGWAN_CREATE: &'static str = "CREATE TABLE gwongwan_table(code INTEGER NOT NULL, word TEXT NOT NULL, rhyme TEXT NOT NULL, subrhyme TEXT NOT NULL, subrhymeserial INTEGER NOT NULL, subrhymenumber INTEGER NOT NULL, upper TEXT NOT NULL, lower TEXT NOT NULL, initial TEXT NOT NULL, rounding TEXT NOT NULL, division TEXT NOT NULL, rhymeclass TEXT NOT NULL, repeating TEXT NOT NULL, tone TEXT NOT NULL, interpretation TEXT NOT NULL)";

/// The statement that inserts a Guangyun entry.
pub const GWONGWAN_INSERT: &'static str = "INSERT INTO gwongwan_table (code, word, rhyme, subrhyme, subrhymeserial, subrhymenumber, upper, lower, initial, rounding, division, rhymeclass, repeating, tone, interpretation) VALUES (?, ?, ?, ?, ?, ?, ?, ?, ?, ?, ?, ?, ?, ?, ?)";

/// The statement that creates the table of definitions.
pub const DEFINITION_CREATE: &'static str = "CREATE TABLE definition_table (code INTEGER PRIMARY KEY, definition TEXT NOT NULL)";

/// The statement that inserts a definition.
pub const DEFINITION_INSERT: &'static str = "INSERT INTO definition_table (code, definition) VALUES (?, ?)";

/// Creates the Yingwaa table: for each non-blank line of five tab-separated
/// fields, the first character's code point and the five fields.
pub fn insert_yingwaa(plan: &mut DatabasePlan, yingwaa: &str) -> (result: Result<(), DataError>)
    ensures
        plan_extended(
            old(plan)@,
            final(plan)@,
            result,
            table_outcome(
                YINGWAA_CREATE@,
                YINGWAA_INSERT@,
                format_rows(RowFormat::CodedTexts(5), nonempty_source_lines(yingwaa@), "yingwaa.txt"@),
            ),
        ),
{
    insert_formatted_table(plan, yingwaa, "yingwaa.txt", RowFormat::CodedTexts(5), YINGWAA_CREATE, YINGWAA_INSERT)
}

/// Creates the Chohok table: for each non-blank line of five tab-separated
/// fields, the first character's code point and the five fields.
pub fn insert_chohok(plan: &mut DatabasePlan, chohok: &str) -> (result: Result<(), DataError>)
    ensures
        plan_extended(
            old(plan)@,
            final(plan)@,
            result,
            table_outcome(
                CHOHOK_CREATE@,
                CHOHOK_INSERT@,
                format_rows(RowFormat::CodedTexts(5), nonempty_source_lines(chohok@), "chohok.txt"@),
            ),
        ),
{
    insert_formatted_table(plan, chohok, "chohok.txt", RowFormat::CodedTexts(5), CHOHOK_CREATE, CHOHOK_INSERT)
}

/// Creates the Fanwan table: for each non-blank line of eight tab-separated
/// fields, the first character's code point and the eight fields.
pub fn insert_fanwan(plan: &mut DatabasePlan, fanwan: &str) -> (result: Result<(), DataError>)
    ensures
        plan_extended(
            old(plan)@,
            final(plan)@,
            result,
            table_outcome(
                FANWAN_CREATE@,
                FANWAN_INSERT@,
                format_rows(RowFormat::CodedTexts(8), nonempty_source_lines(fanwan@), "fanwan.txt"@),
            ),
        ),
{
    insert_formatted_table(plan, fanwan, "fanwan.txt", RowFormat::CodedTexts(8), FANWAN_CREATE, FANWAN_INSERT)
}

/// Creates the Guangyun table from the non-blank lines of fourteen
/// comma-separated fields (see [`RowFormat::Gwongwan`]).
pub fn insert_gwongwan(plan: &mut DatabasePlan, gwongwan: &str) -> (result: Result<(), DataError>)
    ensures
        plan_extended(
            old(plan)@,
            final(plan)@,
            result,
            table_outcome(
                GWONGWAN_CREATE@,
                GWONGWAN_INSERT@,
                format_rows(RowFormat::Gwongwan, nonempty_source_lines(gwongwan@), "gwongwan.txt"@),
            ),
        ),
{
    insert_formatted_table(plan, gwongwan, "gwongwan.txt", RowFormat::Gwongwan, GWONGWAN_CREATE, GWONGWAN_INSERT)
}

/// The definition rows of the words: for each word with a definition, the
/// code point of its first character and its first definition.
pub open spec fn definition_rows(words: Seq<Seq<char>>, definitions: Seq<(Seq<char>, Seq<char>)>) -> Result<
    Seq<Seq<SqlValueView>>,
    DataErrorView,
>
    decreases words.len(),
{
    if words.len() == 0 {
        Ok(Seq::empty())
    } else {
        match definition_rows(words.drop_last(), definitions) {
            Err(error) => Err(error),
            Ok(rows) => {
                let word = words.last();
                let found = pair_values(definitions, word);
                if found.len() == 0 {
                    Ok(rows)
                } else {
                    match spec_first_code_point(word) {
                        None => Err(DataErrorView::EmptyWord { file: "jyutping.txt"@ }),
                        Some(code) => Ok(
                            rows.push(seq![SqlValueView::Integer(code), SqlValueView::Text(found[0])]),
                        ),
                    }
                }
            },
        }
    }
}

proof fn lemma_definition_rows_error_stays(
    words: Seq<Seq<char>>,
    k: int,
    definitions: Seq<(Seq<char>, Seq<char>)>,
)
    requires
        0 <= k <= words.len(),
        definition_rows(words.take(k), definitions) is Err,
    ensures
        definition_rows(words, definitions) == definition_rows(words.take(k), definitions),
    decreases words.len() - k,
{
    if k < words.len() {
        assert(words.take(k + 1).drop_last() =~= words.take(k));
        lemma_definition_rows_error_stays(words, k + 1, definitions);
    } else {
        assert(words.take(k) =~= words);
    }
}

/// The definition rows of the single-character words of the Jyutping
/// lexicon, each word once, with the definitions of the definition file.
pub open spec fn definitions_outcome(definition: Seq<char>, jyutping: Seq<char>) -> Result<
    Seq<Seq<SqlValueView>>,
    DataErrorView,
> {
    definition_rows(
        spec_jyutping_words(nonempty_source_lines(jyutping), true),
        definition_pairs(source_lines(definition)),
    )
}

/// Creates the definition table: for each distinct single-character word of
/// the Jyutping lexicon that the definition file defines, the word's code
/// point and its first definition, apostrophes made curly.
pub fn insert_definitions(plan: &mut DatabasePlan, definition: &str, jyutping: &str) -> (result: Result<
    (),
    DataError,
>)
    ensures
        plan_extended(
            old(plan)@,
            final(plan)@,
            result,
            table_outcome(
                DEFINITION_CREATE@,
                DEFINITION_INSERT@,
                definitions_outcome(definition@, jyutping@),
            ),
        ),
{
    let definitions = definition_map(definition);
    let lines = nonempty_source_lines_of(jyutping);
    let words = jyutping_words(&lines, true);
    let ghost all = texts_view(words@);
    let ghost pairs = definition_pairs(source_lines(definition@));
    let mut rows: Vec<Vec<SqlValue>> = Vec::new();
    let mut i: usize = 0;
    assert(all.take(0) =~= Seq::<Seq<char>>::empty());
    assert(rows_view(rows@) =~= Seq::<Seq<SqlValueView>>::empty());
    while i < words.len()
        invariant
            i <= words.len(),
            all == texts_view(words@),
            all == spec_jyutping_words(nonempty_source_lines(jyutping@), true),
            pairs == definition_pairs(source_lines(definition@)),
            forall|key: Seq<char>| #[trigger] definitions.values_of(key) == pair_values(pairs, key),
            definition_rows(all.take(i as int), pairs) == Ok::<
                Seq<Seq<SqlValueView>>,
                DataErrorView,
            >(rows_view(rows@)),
        decreases words.len() - i,
    {
        assert(all.take(i + 1).drop_last() =~= all.take(i as int));
        assert(all[i as int] == words@[i as int]@);
        let word = &words[i];
        match definitions.get(word) {
            None => {},
            Some(found) => {
                let code = match first_code_point(word, "jyutping.txt") {
                    Ok(code) => code,
                    Err(error) => {
                        proof {
                            assert(pair_values(pairs, word@).len() > 0);
                            assert(all.take(i + 1).last() == word@);
                            assert(definition_rows(all.take(i + 1), pairs) == Err::<
                                Seq<Seq<SqlValueView>>,
                                DataErrorView,
                            >(DataErrorView::EmptyWord { file: "jyutping.txt"@ }));
                            lemma_definition_rows_error_stays(all, i as int + 1, pairs);
                        }
                        return Err(error);
                    },
                };
                assert(texts_view(found@)[0] == found@[0]@);
                let mut row: Vec<SqlValue> = Vec::new();
                row.push(SqlValue::Integer(code));
                row.push(SqlValue::Text(string_of(&found[0])));
                let ghost previous = rows@;
                let ghost expected = seq![
                    SqlValueView::Integer(code),
                    SqlValueView::Text(found@[0]@),
                ];
                assert(row_view(row@) =~= expected);
                rows.push(row);
                assert(rows_view(rows@) =~= rows_view(previous).push(expected));
            },
        }
        i = i + 1;
    }
    assert(all.take(words.len() as int) =~= all);
    let ghost before = plan@;
    plan.execute(DEFINITION_CREATE);
    plan.insert(DEFINITION_INSERT, rows);
    assert(plan@ =~= before + seq![
        StepView::Execute(DEFINITION_CREATE@),
        StepView::Insert { statement: DEFINITION_INSERT@, rows: rows_view(rows@) },
    ]);
    Ok(())
}

} // verus!
