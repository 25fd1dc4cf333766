//! The lexicon tables of the input method's database: the Jyutping core
//! lexicon, the character structure lexicon and the Pinyin lexicon.

use vstd::prelude::*;
use crate::error::{bad_line, DataError, DataErrorView};
use crate::lexicon::{
    convert_lexicon, entries_view, lexicon_outcome, LexiconEntry,
    LexiconEntryView,
};
use crate::plan::{plan_extended, row_view, rows_view, DatabasePlan, SqlValue, SqlValueView, StepView};
use crate::text::{
    append_str, lemma_split_three, nonempty_source_lines, nonempty_source_lines_of,
    source_lines, source_lines_of, split, split_chars, texts_view,
};
use crate::text_index::TextIndex;
use crate::words::first_occurrences;

verus! {

/// The statement that inserts a lexicon entry into `table`.
pub open spec fn lexicon_insert_sql(table: Seq<char>) -> Seq<char> {
    "INSERT INTO "@ + table
        + " (word, romanization, char_count, complexity, anchors, spell, anchors_9key, spell_9key) VALUES (?, ?, ?, ?, ?, ?, ?, ?)"@
}

/// The row of a lexicon entry.
pub open spec fn lexicon_row(entry: LexiconEntryView) -> Seq<SqlValueView> {
    seq![
        SqlValueView::Text(entry.word),
        SqlValueView::Text(entry.romanization),
        SqlValueView::Integer(entry.char_count),
        SqlValueView::Integer(entry.complexity),
        SqlValueView::Integer(entry.anchors),
        SqlValueView::Integer(entry.spell),
        SqlValueView::Integer(entry.anchors_9key),
        SqlValueView::Integer(entry.spell_9key),
    ]
}

/// The rows of lexicon entries.
pub open spec fn lexicon_rows(entries: Seq<LexiconEntryView>) -> Seq<Seq<SqlValueView>> {
    entries.map_values(|entry: LexiconEntryView| lexicon_row(entry))
}

/// The step that inserts the entries into the lexicon table `table`.
pub open spec fn lexicon_step(table: Seq<char>, entries: Seq<LexiconEntryView>) -> StepView {
    StepView::Insert { statement: lexicon_insert_sql(table), rows: lexicon_rows(entries) }
}

/// Adds the insertion of the entries into the lexicon table `table`.
pub fn insert_lexicon(plan: &mut DatabasePlan, table: &str, entries: &Vec<LexiconEntry>)
    ensures
        final(plan)@ == old(plan)@.push(lexicon_step(table@, entries_view(entries@))),
{
    let mut statement = String::new();
    append_str(&mut statement, "INSERT INTO ");
    append_str(&mut statement, table);
    append_str(
        &mut statement,
        " (word, romanization, char_count, complexity, anchors, spell, anchors_9key, spell_9key) VALUES (?, ?, ?, ?, ?, ?, ?, ?)",
    );
    let ghost all = entries_view(entries@);
    let mut rows: Vec<Vec<SqlValue>> = Vec::new();
    let mut i: usize = 0;
    while i < entries.len()
        invariant
            i <= entries.len(),
            all == entries_view(entries@),
            rows_view(rows@) == lexicon_rows(all.take(i as int)),
        decreases entries.len() - i,
    {
        let entry = &entries[i];
        let mut row: Vec<SqlValue> = Vec::new();
        row.push(SqlValue::Text(entry.word.clone()));
        row.push(SqlValue::Text(entry.romanization.clone()));
        row.push(SqlValue::Integer(entry.char_count));
        row.push(SqlValue::Integer(entry.complexity));
        row.push(SqlValue::Integer(entry.anchors));
        row.push(SqlValue::Integer(entry.spell));
        row.push(SqlValue::Integer(entry.anchors_9key));
        row.push(SqlValue::Integer(entry.spell_9key));
        assert(all[i as int] == entry@);
        assert(row_view(row@) =~= lexicon_row(entry@));
        let ghost previous = rows@;
        rows.push(row);
        i = i + 1;
        assert(rows_view(rows@) =~= rows_view(previous).push(lexicon_row(entry@)));
        assert(lexicon_rows(all.take(i as int)) =~= lexicon_rows(all.take(i - 1)).push(
            lexicon_row(entry@),
        ));
    }
    assert(all.take(entries.len() as int) =~= all);
    plan.insert(statement.as_str(), rows);
}

/// The outcome of the lexicon table `table` filled from the lexicon lines of
/// `file`: one insertion, or the error of the first bad line.
pub open spec fn lexicon_table_outcome(lines: Seq<Seq<char>>, file: Seq<char>, table: Seq<char>) -> Result<
    Seq<StepView>,
    DataErrorView,
> {
    match lexicon_outcome(lines, file) {
        Err(error) => Err(error),
        Ok(entries) => Ok(seq![lexicon_step(table, entries)]),
    }
}

/// Fills the lexicon table `table` from the non-blank lexicon lines of
/// `content`, read from `file_name`.
pub fn insert_lexicon_file(plan: &mut DatabasePlan, content: &str, file_name: &str, table: &str) -> (result: Result<
    (),
    DataError,
>)
    requires
        content@.len() <= i64::MAX,
    ensures
        plan_extended(
            old(plan)@,
            final(plan)@,
            result,
            lexicon_table_outcome(nonempty_source_lines(content@), file_name@, table@),
        ),
{
    let lines = nonempty_source_lines_of(content);
    let entries = match convert_lexicon(&lines, file_name) {
        Ok(entries) => entries,
        Err(error) => return Err(error),
    };
    let ghost before = plan@;
    insert_lexicon(plan, table, &entries);
    assert(plan@ =~= before + seq![lexicon_step(table@, entries_view(entries@))]);
    Ok(())
}

/// Fills the Pinyin lexicon from the non-blank lines of `pinyin.txt`.
pub fn insert_pinyin(plan: &mut DatabasePlan, pinyin: &str) -> (result: Result<(), DataError>)
    requires
        pinyin@.len() <= i64::MAX,
    ensures
        plan_extended(
            old(plan)@,
            final(plan)@,
            result,
            lexicon_table_outcome(nonempty_source_lines(pinyin@), "pinyin.txt"@, "pinyin_lexicon"@),
        ),
{
    insert_lexicon_file(plan, pinyin, "pinyin.txt", "pinyin_lexicon")
}

/// The statement that inserts a structure entry.
pub const STRUCTURE_INSERT: &'static str = "INSERT INTO structure_table (word, romanization, char_count, complexity, spell, spell_9key) VALUES (?, ?, ?, ?, ?, ?)";

/// The lexicon lines of the structure file: each line of exactly three
/// tab-separated fields gives its first and third fields joined by a tab;
/// any other line is an error.
pub open spec fn structure_values(lines: Seq<Seq<char>>) -> Result<Seq<Seq<char>>, DataErrorView>
    decreases lines.len(),
{
    if lines.len() == 0 {
        Ok(Seq::empty())
    } else {
        match structure_values(lines.drop_last()) {
            Err(error) => Err(error),
            Ok(values) => {
                let parts = split(lines.last(), '\t');
                if parts.len() != 3 {
                    Err(DataErrorView::BadLineFormat { file: "structure.txt"@, line: lines.last() })
                } else {
                    Ok(values.push(parts[0] + seq!['\t'] + parts[2]))
                }
            },
        }
    }
}

/// The row of a structure entry.
pub open spec fn structure_row(entry: LexiconEntryView) -> Seq<SqlValueView> {
    seq![
        SqlValueView::Text(entry.word),
        SqlValueView::Text(entry.romanization),
        SqlValueView::Integer(entry.char_count),
        SqlValueView::Integer(entry.complexity),
        SqlValueView::Integer(entry.spell),
        SqlValueView::Integer(entry.spell_9key),
    ]
}

/// The outcome of the structure table: the lexicon entries of the distinct
/// lexicon lines of the structure file, in the order of their first lines.
pub open spec fn structure_outcome(structure: Seq<char>) -> Result<Seq<StepView>, DataErrorView> {
    match structure_values(source_lines(structure)) {
        Err(error) => Err(error),
        Ok(values) => match lexicon_outcome(first_occurrences(values), "structure.txt"@) {
            Err(error) => Err(error),
            Ok(entries) => Ok(
                seq![
                    StepView::Insert {
                        statement: STRUCTURE_INSERT@,
                        rows: entries.map_values(|entry: LexiconEntryView| structure_row(entry)),
                    },
                ],
            ),
        },
    }
}

proof fn lemma_structure_values_error_stays(lines: Seq<Seq<char>>, k: int)
    requires
        0 <= k <= lines.len(),
        structure_values(lines.take(k)) is Err,
    ensures
        structure_values(lines) == structure_values(lines.take(k)),
    decreases lines.len() - k,
{
    if k < lines.len() {
        assert(lines.take(k + 1).drop_last() =~= lines.take(k));
        lemma_structure_values_error_stays(lines, k + 1);
    } else {
        assert(lines.take(k) =~= lines);
    }
}

/// Fills the structure table (see [`structure_outcome`]).
pub fn insert_structure(plan: &mut DatabasePlan, structure: &str) -> (result: Result<(), DataError>)
    requires
        structure@.len() <= i64::MAX,
    ensures
        plan_extended(old(plan)@, final(plan)@, result, structure_outcome(structure@)),
{
    let lines = source_lines_of(structure);
    let ghost all = texts_view(lines@);
    let mut transformed: Vec<Vec<char>> = Vec::new();
    let mut seen = TextIndex::new();
    let ghost mut values: Seq<Seq<char>> = Seq::empty();
    let mut i: usize = 0;
    assert(all.take(0) =~= Seq::<Seq<char>>::empty());
    assert(texts_view(transformed@) =~= Seq::<Seq<char>>::empty());
    while i < lines.len()
        invariant
            i <= lines.len(),
            all == texts_view(lines@),
            all == source_lines(structure@),
            forall|j: int| 0 <= j < lines@.len() ==> #[trigger] lines@[j]@.len() <= structure@.len(),
            structure_values(all.take(i as int)) == Ok::<Seq<Seq<char>>, DataErrorView>(values),
            texts_view(transformed@) == first_occurrences(values),
            seen.well_formed(),
            seen@ == texts_view(transformed@),
            forall|j: int| 0 <= j < transformed@.len() ==> #[trigger] transformed@[j]@.len()
                <= structure@.len(),
        decreases lines.len() - i,
    {
        assert(all.take(i + 1).drop_last() =~= all.take(i as int));
        let line = &lines[i];
        assert(all[i as int] == line@);
        let parts = split_chars(line, '\t');
        if parts.len() != 3 {
            proof {
                lemma_structure_values_error_stays(all, i as int + 1);
            }
            return Err(bad_line("structure.txt", line));
        }
        let mut value = parts[0].clone();
        value.push('\t');
        let mut k: usize = 0;
        let ghost head = value@;
        while k < parts[2].len()
            invariant
                parts@.len() == 3,
                k <= parts@[2]@.len(),
                value@ == head + parts@[2]@.take(k as int),
            decreases parts@[2]@.len() - k,
        {
            value.push(parts[2][k]);
            k = k + 1;
            assert(value@ =~= head + parts@[2]@.take(k as int));
        }
        proof {
            assert(parts@[2]@.take(parts@[2]@.len() as int) =~= parts@[2]@);
            assert(texts_view(parts@)[0] == parts@[0]@);
            assert(texts_view(parts@)[2] == parts@[2]@);
            assert(head =~= parts@[0]@.push('\t'));
            assert(value@ =~= parts@[0]@ + seq!['\t'] + parts@[2]@);
            lemma_split_three(line@, '\t');
            assert(texts_view(parts@)[1] == parts@[1]@);
        }
        let ghost previous_values = values;
        proof {
            values = values.push(value@);
        }
        assert(values.drop_last() =~= previous_values);
        if seen.find(&value).is_none() {
            let ghost previous = transformed@;
            seen.push(value.clone());
            transformed.push(value);
            assert(texts_view(transformed@) =~= texts_view(previous).push(values.last()));
        }
        i = i + 1;
    }
    assert(all.take(lines.len() as int) =~= all);
    let entries = match convert_lexicon(&transformed, "structure.txt") {
        Ok(entries) => entries,
        Err(error) => return Err(error),
    };
    let ghost converted = entries_view(entries@);
    let mut rows: Vec<Vec<SqlValue>> = Vec::new();
    let mut j: usize = 0;
    while j < entries.len()
        invariant
            j <= entries.len(),
            converted == entries_view(entries@),
            rows_view(rows@) == converted.take(j as int).map_values(
                |entry: LexiconEntryView| structure_row(entry),
            ),
        decreases entries.len() - j,
    {
        let entry = &entries[j];
        let mut row: Vec<SqlValue> = Vec::new();
        row.push(SqlValue::Text(entry.word.clone()));
        row.push(SqlValue::Text(entry.romanization.clone()));
        row.push(SqlValue::Integer(entry.char_count));
        row.push(SqlValue::Integer(entry.complexity));
        row.push(SqlValue::Integer(entry.spell));
        row.push(SqlValue::Integer(entry.spell_9key));
        assert(converted[j as int] == entry@);
        assert(row_view(row@) =~= structure_row(entry@));
        let ghost previous = rows@;
        rows.push(row);
        j = j + 1;
        assert(rows_view(rows@) =~= rows_view(previous).push(structure_row(entry@)));
        assert(converted.take(j as int).map_values(|entry: LexiconEntryView| structure_row(entry))
            =~= converted.take(j - 1).map_values(|entry: LexiconEntryView| structure_row(entry)).push(
            structure_row(entry@),
        ));
    }
    assert(converted.take(entries.len() as int) =~= converted);
    let ghost before = plan@;
    plan.insert(STRUCTURE_INSERT, rows);
    assert(plan@ =~= before + seq![
        StepView::Insert { statement: STRUCTURE_INSERT@, rows: rows_view(rows@) },
    ]);
    Ok(())
}

} // verus!
