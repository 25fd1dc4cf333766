//! The tables of the input method that come from line-based text files:
//! symbols, emoji skin tones, plain text entries and syllables.

use vstd::prelude::*;
use crate::codes::{
    count_chars, decimal_code, keypad_code_chars, parse_integer, serial_code_chars,
    spec_decimal_code, spec_keypad_code, spec_parse_integer, spec_serial_code,
};
use crate::error::{bad_line, DataError, DataErrorView};
use crate::lexicon::{nonempty_pieces, phone_lengths_and_initials, piece_lengths};
use crate::plan::{plan_extended, row_view, rows_view, DatabasePlan, SqlValue, SqlValueView, StepView};
use crate::text::{
    nonempty_source_lines, nonempty_source_lines_of, source_lines, source_lines_of, split,
    split_chars, split_fields, split_fields_chars, string_of, texts_view, trim, trim_chars,
};
use crate::words::first_occurrences;

verus! {

/// The complexities of the phones of a romanization: the number of
/// characters of each non-empty space-separated phone, less one.
pub open spec fn phone_complexities(romanization: Seq<char>) -> Seq<i64> {
    piece_lengths(nonempty_pieces(split(romanization, ' '))).map_values(|length: i64| (length - 1) as i64)
}

/// The row of a symbol line of exactly five non-empty tab-separated fields
/// (category, Unicode version, code point, Cantonese name, romanization);
/// other lines have none. A category or version that is not an integer is
/// an error.
pub open spec fn symbol_row(line: Seq<char>) -> Result<Option<Seq<SqlValueView>>, DataErrorView> {
    let parts = split_fields(line, '\t');
    if parts.len() != 5 {
        Ok(None)
    } else {
        let romanization = parts[4];
        match spec_parse_integer(parts[0]) {
            None => Err(DataErrorView::InvalidInteger { text: parts[0] }),
            Some(category) => match spec_parse_integer(parts[1]) {
                None => Err(DataErrorView::InvalidInteger { text: parts[1] }),
                Some(version) => Ok(
                    Some(
                        seq![
                            SqlValueView::Integer(category),
                            SqlValueView::Integer(version),
                            SqlValueView::Text(parts[2]),
                            SqlValueView::Text(parts[3]),
                            SqlValueView::Text(romanization),
                            SqlValueView::Integer(
                                spec_decimal_code(phone_complexities(romanization)),
                            ),
                            SqlValueView::Integer(spec_serial_code(romanization)),
                            SqlValueView::Integer(spec_keypad_code(romanization)),
                        ],
                    ),
                ),
            },
        }
    }
}

/// The rows of the symbol lines, in order, or the first error.
pub open spec fn symbol_rows(lines: Seq<Seq<char>>) -> Result<Seq<Seq<SqlValueView>>, DataErrorView>
    decreases lines.len(),
{
    if lines.len() == 0 {
        Ok(Seq::empty())
    } else {
        match symbol_rows(lines.drop_last()) {
            Err(error) => Err(error),
            Ok(rows) => match symbol_row(lines.last()) {
                Err(error) => Err(error),
                Ok(None) => Ok(rows),
                Ok(Some(row)) => Ok(rows.push(row)),
            },
        }
    }
}

proof fn lemma_symbol_rows_error_stays(lines: Seq<Seq<char>>, k: int)
    requires
        0 <= k <= lines.len(),
        symbol_rows(lines.take(k)) is Err,
    ensures
        symbol_rows(lines) == symbol_rows(lines.take(k)),
    decreases lines.len() - k,
{
    if k < lines.len() {
        assert(lines.take(k + 1).drop_last() =~= lines.take(k));
        lemma_symbol_rows_error_stays(lines, k + 1);
    } else {
        assert(lines.take(k) =~= lines);
    }
}

/// The statement that inserts a symbol.
pub const SYMBOL_INSERT: &'static str = "INSERT INTO symbol_table (category, unicode_version, code_point, cantonese, romanization, complexity, spell, spell_9key) VALUES (?, ?, ?, ?, ?, ?, ?, ?)";

/// The symbol table filled from the symbol file's lines, or the first
/// error.
pub open spec fn symbols_outcome(symbol: Seq<char>) -> Result<Seq<StepView>, DataErrorView> {
    match symbol_rows(source_lines(symbol)) {
        Err(error) => Err(error),
        Ok(rows) => Ok(seq![StepView::Insert { statement: SYMBOL_INSERT@, rows }]),
    }
}

/// The row of one symbol line (see [`symbol_row`]).
fn symbol_line_row(line: &[char]) -> (result: Result<Option<Vec<SqlValue>>, DataError>)
    requires
        line@.len() <= i64::MAX,
    ensures
        match symbol_row(line@) {
            Ok(None) => result matches Ok(None),
            Ok(Some(row)) => result matches Ok(Some(values)) && row_view(values@) == row,
            Err(error) => result matches Err(e) && e@ == error,
        },
{
    let parts = split_fields_chars(line, '\t');
    if parts.len() != 5 {
        return Ok(None);
    }
    let ghost texts = texts_view(parts@);
    assert(texts[0] == parts@[0]@);
    assert(texts[1] == parts@[1]@);
    assert(texts[2] == parts@[2]@);
    assert(texts[3] == parts@[3]@);
    assert(texts[4] == parts@[4]@);
    let romanization = &parts[4];
    let pieces = split_chars(romanization, ' ');
    let (lengths, _) = phone_lengths_and_initials(&pieces);
    let mut complexities: Vec<i64> = Vec::new();
    let mut k: usize = 0;
    proof {
        assert forall|j: int| 0 <= j < texts_view(pieces@).len() implies #[trigger] texts_view(
            pieces@,
        )[j].len() <= i64::MAX by {
            assert(texts_view(pieces@)[j] == pieces@[j]@);
        }
        crate::lexicon::lemma_nonempty_pieces_positive(texts_view(pieces@), i64::MAX as int);
        let phones = nonempty_pieces(texts_view(pieces@));
        assert forall|j: int| 0 <= j < lengths@.len() implies #[trigger] lengths@[j] >= 1 by {
            assert(lengths@[j] == phones[j].len() as i64);
            assert(phones[j].len() > 0);
        }
    }
    while k < lengths.len()
        invariant
            k <= lengths.len(),
            forall|j: int| 0 <= j < lengths@.len() ==> #[trigger] lengths@[j] >= 1,
            complexities@ == lengths@.take(k as int).map_values(|length: i64| (length - 1) as i64),
        decreases lengths.len() - k,
    {
        complexities.push(lengths[k] - 1);
        k = k + 1;
        assert(complexities@ =~= lengths@.take(k as int).map_values(
            |length: i64| (length - 1) as i64,
        ));
    }
    assert(lengths@.take(lengths.len() as int) =~= lengths@);
    let category = parse_integer(&parts[0])?;
    let version = parse_integer(&parts[1])?;
    let mut row: Vec<SqlValue> = Vec::new();
    row.push(SqlValue::Integer(category));
    row.push(SqlValue::Integer(version));
    row.push(SqlValue::Text(string_of(&parts[2])));
    row.push(SqlValue::Text(string_of(&parts[3])));
    row.push(SqlValue::Text(string_of(romanization)));
    row.push(SqlValue::Integer(decimal_code(&complexities)));
    row.push(SqlValue::Integer(serial_code_chars(romanization)));
    row.push(SqlValue::Integer(keypad_code_chars(romanization)));
    let ghost expected = seq![
        SqlValueView::Integer(category),
        SqlValueView::Integer(version),
        SqlValueView::Text(texts[2]),
        SqlValueView::Text(texts[3]),
        SqlValueView::Text(texts[4]),
        SqlValueView::Integer(spec_decimal_code(phone_complexities(texts[4]))),
        SqlValueView::Integer(spec_serial_code(texts[4])),
        SqlValueView::Integer(spec_keypad_code(texts[4])),
    ];
    assert(row_view(row@) =~= expected);
    Ok(Some(row))
}

/// Fills the symbol table (see [`symbols_outcome`]).
pub fn insert_symbols(plan: &mut DatabasePlan, symbol: &str) -> (result: Result<(), DataError>)
    requires
        symbol@.len() <= i64::MAX,
    ensures
        plan_extended(old(plan)@, final(plan)@, result, symbols_outcome(symbol@)),
{
    let lines = source_lines_of(symbol);
    let ghost all = texts_view(lines@);
    let mut rows: Vec<Vec<SqlValue>> = Vec::new();
    let mut i: usize = 0;
    assert(all.take(0) =~= Seq::<Seq<char>>::empty());
    assert(rows_view(rows@) =~= Seq::<Seq<SqlValueView>>::empty());
    while i < lines.len()
        invariant
            i <= lines.len(),
            all == texts_view(lines@),
            all == source_lines(symbol@),
            symbol@.len() <= i64::MAX,
            forall|j: int| 0 <= j < lines@.len() ==> #[trigger] lines@[j]@.len() <= symbol@.len(),
            symbol_rows(all.take(i as int)) == Ok::<Seq<Seq<SqlValueView>>, DataErrorView>(
                rows_view(rows@),
            ),
        decreases lines.len() - i,
    {
        assert(all.take(i + 1).drop_last() =~= all.take(i as int));
        assert(all[i as int] == lines@[i as int]@);
        match symbol_line_row(&lines[i]) {
            Ok(None) => {},
            Ok(Some(row)) => {
                let ghost previous = rows@;
                rows.push(row);
                assert(rows_view(rows@) =~= rows_view(previous).push(row_view(row@)));
            },
            Err(error) => {
                proof {
                    lemma_symbol_rows_error_stays(all, i as int + 1);
                }
                return Err(error);
            },
        }
        i = i + 1;
    }
    assert(all.take(lines.len() as int) =~= all);
    let ghost before = plan@;
    plan.insert(SYMBOL_INSERT, rows);
    assert(plan@ =~= before + seq![
        StepView::Insert { statement: SYMBOL_INSERT@, rows: rows_view(rows@) },
    ]);
    Ok(())
}


/// The rows of the skin tone map: each line of exactly two non-empty
/// tab-separated fields maps its first emoji to its second; other lines are
/// skipped.
pub open spec fn skin_tone_rows(lines: Seq<Seq<char>>) -> Seq<Seq<SqlValueView>>
    decreases lines.len(),
{
    if lines.len() == 0 {
        Seq::empty()
    } else if split_fields(lines.last(), '\t').len() == 2 {
        skin_tone_rows(lines.drop_last()).push(
            seq![
                SqlValueView::Text(split_fields(lines.last(), '\t')[0]),
                SqlValueView::Text(split_fields(lines.last(), '\t')[1]),
            ],
        )
    } else {
        skin_tone_rows(lines.drop_last())
    }
}

/// The statement that inserts a skin tone mapping.
pub const SKIN_TONE_INSERT: &'static str = "INSERT INTO emoji_skin_map (source, target) VALUES (?, ?)";

/// The insertion of the skin tone map of the file's text.
pub open spec fn skin_tone_step(skin_tone_map: Seq<char>) -> StepView {
    StepView::Insert {
        statement: SKIN_TONE_INSERT@,
        rows: skin_tone_rows(source_lines(skin_tone_map)),
    }
}

/// Fills the emoji skin tone map (see [`skin_tone_rows`]).
pub fn insert_skin_tone_map(plan: &mut DatabasePlan, skin_tone_map: &str)
    ensures
        final(plan)@ == old(plan)@.push(skin_tone_step(skin_tone_map@)),
{
    let lines = source_lines_of(skin_tone_map);
    let ghost all = texts_view(lines@);
    let mut rows: Vec<Vec<SqlValue>> = Vec::new();
    let mut i: usize = 0;
    assert(all.take(0) =~= Seq::<Seq<char>>::empty());
    assert(rows_view(rows@) =~= Seq::<Seq<SqlValueView>>::empty());
    while i < lines.len()
        invariant
            i <= lines.len(),
            all == texts_view(lines@),
            rows_view(rows@) == skin_tone_rows(all.take(i as int)),
        decreases lines.len() - i,
    {
        assert(all.take(i + 1).drop_last() =~= all.take(i as int));
        assert(all[i as int] == lines@[i as int]@);
        let parts = split_fields_chars(&lines[i], '\t');
        if parts.len() == 2 {
            assert(texts_view(parts@)[0] == parts@[0]@);
            assert(texts_view(parts@)[1] == parts@[1]@);
            let mut row: Vec<SqlValue> = Vec::new();
            row.push(SqlValue::Text(string_of(&parts[0])));
            row.push(SqlValue::Text(string_of(&parts[1])));
            let ghost expected = seq![
                SqlValueView::Text(parts@[0]@),
                SqlValueView::Text(parts@[1]@),
            ];
            assert(row_view(row@) =~= expected);
            let ghost previous = rows@;
            rows.push(row);
            assert(rows_view(rows@) =~= rows_view(previous).push(expected));
        }
        i = i + 1;
    }
    assert(all.take(lines.len() as int) =~= all);
    plan.insert(SKIN_TONE_INSERT, rows);
}

/// The (input, word) pair of a plain text line: blank lines and comments
/// (starting with `#`) have none; other lines need at least two non-empty
/// tab-separated fields.
pub open spec fn plain_text_pair(line: Seq<char>) -> Result<Option<(Seq<char>, Seq<char>)>, DataErrorView> {
    let trimmed = trim(line);
    if trimmed.len() == 0 || trimmed[0] == '#' {
        Ok(None)
    } else {
        let parts = split_fields(trimmed, '\t');
        if parts.len() < 2 {
            Err(DataErrorView::BadLineFormat { file: "text.txt"@, line: trimmed })
        } else {
            Ok(Some((parts[0], parts[1])))
        }
    }
}

/// The (input, word) pairs of the plain text lines, in order, or the first
/// error.
pub open spec fn plain_text_pairs(lines: Seq<Seq<char>>) -> Result<Seq<(Seq<char>, Seq<char>)>, DataErrorView>
    decreases lines.len(),
{
    if lines.len() == 0 {
        Ok(Seq::empty())
    } else {
        match plain_text_pairs(lines.drop_last()) {
            Err(error) => Err(error),
            Ok(pairs) => match plain_text_pair(lines.last()) {
                Err(error) => Err(error),
                Ok(None) => Ok(pairs),
                Ok(Some(pair)) => Ok(pairs.push(pair)),
            },
        }
    }
}

proof fn lemma_plain_text_pairs_error_stays(lines: Seq<Seq<char>>, k: int)
    requires
        0 <= k <= lines.len(),
        plain_text_pairs(lines.take(k)) is Err,
    ensures
        plain_text_pairs(lines) == plain_text_pairs(lines.take(k)),
    decreases lines.len() - k,
{
    if k < lines.len() {
        assert(lines.take(k + 1).drop_last() =~= lines.take(k));
        lemma_plain_text_pairs_error_stays(lines, k + 1);
    } else {
        assert(lines.take(k) =~= lines);
    }
}

/// The row of a plain text entry: the input, the word, and the input's
/// length, serial code and keypad code.
pub open spec fn plain_text_row(pair: (Seq<char>, Seq<char>)) -> Seq<SqlValueView> {
    seq![
        SqlValueView::Text(pair.0),
        SqlValueView::Text(pair.1),
        SqlValueView::Integer(pair.0.len() as i64),
        SqlValueView::Integer(spec_serial_code(pair.0)),
        SqlValueView::Integer(spec_keypad_code(pair.0)),
    ]
}

/// The statement that inserts a plain text entry.
pub const PLAIN_TEXT_INSERT: &'static str = "INSERT INTO plain_text_table (input, word, letter_count, spell, spell_9key) VALUES (?, ?, ?, ?, ?)";

/// The plain text table: the distinct (input, word) pairs of the text
/// file's lines in the order of their first lines, or the first error.
pub open spec fn plain_text_outcome(text: Seq<char>) -> Result<Seq<StepView>, DataErrorView> {
    match plain_text_pairs(source_lines(text)) {
        Err(error) => Err(error),
        Ok(pairs) => Ok(
            seq![
                StepView::Insert {
                    statement: PLAIN_TEXT_INSERT@,
                    rows: first_occurrences(pairs).map_values(
                        |pair: (Seq<char>, Seq<char>)| plain_text_row(pair),
                    ),
                },
            ],
        ),
    }
}

/// Whether the pair of texts is among `pairs`.
fn contains_pair(pairs: &Vec<(Vec<char>, Vec<char>)>, first: &[char], second: &[char]) -> (result: bool)
    ensures
        result == crate::maps::pairs_view(pairs@).contains((first@, second@)),
{
    let mut i: usize = 0;
    while i < pairs.len()
        invariant
            i <= pairs.len(),
            forall|j: int| 0 <= j < i ==> (pairs@[j].0@, pairs@[j].1@) != (first@, second@),
        decreases pairs.len() - i,
    {
        if crate::text::chars_equal(&pairs[i].0, first) && crate::text::chars_equal(&pairs[i].1, second) {
            assert(crate::maps::pairs_view(pairs@)[i as int] == (first@, second@));
            return true;
        }
        i = i + 1;
    }
    proof {
        if crate::maps::pairs_view(pairs@).contains((first@, second@)) {
            let j = choose|j: int| 0 <= j < pairs@.len() && crate::maps::pairs_view(pairs@)[j] == (
                first@,
                second@,
            );
            assert((pairs@[j].0@, pairs@[j].1@) == (first@, second@));
        }
    }
    false
}

/// Fills the plain text table (see [`plain_text_outcome`]).
pub fn insert_plain_text(plan: &mut DatabasePlan, text: &str) -> (result: Result<(), DataError>)
    requires
        text@.len() <= i64::MAX,
    ensures
        plan_extended(old(plan)@, final(plan)@, result, plain_text_outcome(text@)),
{
    let lines = source_lines_of(text);
    let ghost all = texts_view(lines@);
    let mut pairs: Vec<(Vec<char>, Vec<char>)> = Vec::new();
    let ghost mut listed: Seq<(Seq<char>, Seq<char>)> = Seq::empty();
    let mut i: usize = 0;
    assert(all.take(0) =~= Seq::<Seq<char>>::empty());
    assert(crate::maps::pairs_view(pairs@) =~= Seq::<(Seq<char>, Seq<char>)>::empty());
    while i < lines.len()
        invariant
            i <= lines.len(),
            all == texts_view(lines@),
            all == source_lines(text@),
            forall|j: int| 0 <= j < lines@.len() ==> #[trigger] lines@[j]@.len() <= text@.len(),
            text@.len() <= i64::MAX,
            plain_text_pairs(all.take(i as int)) == Ok::<
                Seq<(Seq<char>, Seq<char>)>,
                DataErrorView,
            >(listed),
            crate::maps::pairs_view(pairs@) == first_occurrences(listed),
            forall|j: int| 0 <= j < pairs@.len() ==> #[trigger] pairs@[j].0@.len() <= text@.len(),
        decreases lines.len() - i,
    {
        assert(all.take(i + 1).drop_last() =~= all.take(i as int));
        assert(all[i as int] == lines@[i as int]@);
        let line = trim_chars(&lines[i]);
        if line.len() == 0 || line[0] == '#' {
        } else {
            let parts = split_fields_chars(&line, '\t');
            if parts.len() < 2 {
                proof {
                    lemma_plain_text_pairs_error_stays(all, i as int + 1);
                }
                return Err(bad_line("text.txt", &line));
            }
            assert(texts_view(parts@)[0] == parts@[0]@);
            assert(texts_view(parts@)[1] == parts@[1]@);
            let ghost pair = (parts@[0]@, parts@[1]@);
            let ghost previous_listed = listed;
            proof {
                listed = listed.push(pair);
            }
            assert(listed.drop_last() =~= previous_listed);
            if !contains_pair(&pairs, &parts[0], &parts[1]) {
                let ghost previous = pairs@;
                pairs.push((parts[0].clone(), parts[1].clone()));
                assert(crate::maps::pairs_view(pairs@) =~= crate::maps::pairs_view(previous).push(
                    pair,
                ));
            }
        }
        i = i + 1;
    }
    assert(all.take(lines.len() as int) =~= all);
    let ghost distinct = first_occurrences(listed);
    let mut rows: Vec<Vec<SqlValue>> = Vec::new();
    let mut j: usize = 0;
    while j < pairs.len()
        invariant
            j <= pairs.len(),
            distinct == crate::maps::pairs_view(pairs@),
            forall|k: int| 0 <= k < pairs@.len() ==> #[trigger] pairs@[k].0@.len() <= i64::MAX,
            rows_view(rows@) == distinct.take(j as int).map_values(
                |pair: (Seq<char>, Seq<char>)| plain_text_row(pair),
            ),
        decreases pairs.len() - j,
    {
        let input = &pairs[j].0;
        let word = &pairs[j].1;
        let mut row: Vec<SqlValue> = Vec::new();
        row.push(SqlValue::Text(string_of(input)));
        row.push(SqlValue::Text(string_of(word)));
        row.push(SqlValue::Integer(count_chars(input)));
        row.push(SqlValue::Integer(serial_code_chars(input)));
        row.push(SqlValue::Integer(keypad_code_chars(input)));
        assert(distinct[j as int] == (input@, word@));
        assert(row_view(row@) =~= plain_text_row((input@, word@)));
        let ghost previous = rows@;
        rows.push(row);
        j = j + 1;
        assert(rows_view(rows@) =~= rows_view(previous).push(plain_text_row((input@, word@))));
        assert(distinct.take(j as int).map_values(|pair: (Seq<char>, Seq<char>)| plain_text_row(pair))
            =~= distinct.take(j - 1).map_values(
            |pair: (Seq<char>, Seq<char>)| plain_text_row(pair),
        ).push(plain_text_row((input@, word@))));
    }
    assert(distinct.take(pairs.len() as int) =~= distinct);
    let ghost before = plan@;
    plan.insert(PLAIN_TEXT_INSERT, rows);
    assert(plan@ =~= before + seq![
        StepView::Insert { statement: PLAIN_TEXT_INSERT@, rows: rows_view(rows@) },
    ]);
    Ok(())
}


/// The (alias, origin) pairs of the non-blank lines of a syllable file:
/// each trimmed line must have exactly two tab-separated fields.
pub open spec fn spec_syllable_pairs(lines: Seq<Seq<char>>, file: Seq<char>) -> Result<
    Seq<(Seq<char>, Seq<char>)>,
    DataErrorView,
>
    decreases lines.len(),
{
    if lines.len() == 0 {
        Ok(Seq::empty())
    } else {
        match spec_syllable_pairs(lines.drop_last(), file) {
            Err(error) => Err(error),
            Ok(pairs) => {
                let parts = split(trim(lines.last()), '\t');
                if parts.len() != 2 {
                    Err(DataErrorView::BadLineFormat { file, line: lines.last() })
                } else {
                    Ok(pairs.push((parts[0], parts[1])))
                }
            },
        }
    }
}

proof fn lemma_syllable_pairs_error_stays(lines: Seq<Seq<char>>, file: Seq<char>, k: int)
    requires
        0 <= k <= lines.len(),
        spec_syllable_pairs(lines.take(k), file) is Err,
    ensures
        spec_syllable_pairs(lines, file) == spec_syllable_pairs(lines.take(k), file),
    decreases lines.len() - k,
{
    if k < lines.len() {
        assert(lines.take(k + 1).drop_last() =~= lines.take(k));
        lemma_syllable_pairs_error_stays(lines, file, k + 1);
    } else {
        assert(lines.take(k) =~= lines);
    }
}

/// The model of the outcome of [`syllable_pairs`].
pub open spec fn pairs_result_view(result: Result<Vec<(Vec<char>, Vec<char>)>, DataError>) -> Result<
    Seq<(Seq<char>, Seq<char>)>,
    DataErrorView,
> {
    match result {
        Ok(pairs) => Ok(crate::maps::pairs_view(pairs@)),
        Err(error) => Err(error@),
    }
}

/// The (alias, origin) pairs of a syllable file's text (see
/// [`spec_syllable_pairs`]).
pub fn syllable_pairs(content: &str, file_name: &str) -> (result: Result<
    Vec<(Vec<char>, Vec<char>)>,
    DataError,
>)
    ensures
        pairs_result_view(result) == spec_syllable_pairs(nonempty_source_lines(content@), file_name@),
{
    let lines = nonempty_source_lines_of(content);
    let ghost all = texts_view(lines@);
    let mut pairs: Vec<(Vec<char>, Vec<char>)> = Vec::new();
    let mut i: usize = 0;
    assert(all.take(0) =~= Seq::<Seq<char>>::empty());
    assert(crate::maps::pairs_view(pairs@) =~= Seq::<(Seq<char>, Seq<char>)>::empty());
    while i < lines.len()
        invariant
            i <= lines.len(),
            all == texts_view(lines@),
            all == nonempty_source_lines(content@),
            spec_syllable_pairs(all.take(i as int), file_name@) == Ok::<
                Seq<(Seq<char>, Seq<char>)>,
                DataErrorView,
            >(crate::maps::pairs_view(pairs@)),
        decreases lines.len() - i,
    {
        assert(all.take(i + 1).drop_last() =~= all.take(i as int));
        assert(all[i as int] == lines@[i as int]@);
        let trimmed = trim_chars(&lines[i]);
        let parts = split_chars(&trimmed, '\t');
        if parts.len() != 2 {
            proof {
                lemma_syllable_pairs_error_stays(all, file_name@, i as int + 1);
            }
            return Err(bad_line(file_name, &lines[i]));
        }
        assert(texts_view(parts@)[0] == parts@[0]@);
        assert(texts_view(parts@)[1] == parts@[1]@);
        let ghost previous = pairs@;
        pairs.push((parts[0].clone(), parts[1].clone()));
        assert(crate::maps::pairs_view(pairs@) =~= crate::maps::pairs_view(previous).push(
            (parts@[0]@, parts@[1]@),
        ));
        i = i + 1;
    }
    assert(all.take(lines.len() as int) =~= all);
    Ok(pairs)
}

/// The row of a core syllable pair: the serial codes of alias and origin,
/// then both texts.
pub open spec fn core_syllable_row(pair: (Seq<char>, Seq<char>)) -> Seq<SqlValueView> {
    seq![
        SqlValueView::Integer(spec_serial_code(pair.0)),
        SqlValueView::Integer(spec_serial_code(pair.1)),
        SqlValueView::Text(pair.0),
        SqlValueView::Text(pair.1),
    ]
}

/// The row of a nine-key syllable pair: the serial and keypad codes of
/// alias and origin, then both texts.
pub open spec fn nine_key_syllable_row(pair: (Seq<char>, Seq<char>)) -> Seq<SqlValueView> {
    seq![
        SqlValueView::Integer(spec_serial_code(pair.0)),
        SqlValueView::Integer(spec_serial_code(pair.1)),
        SqlValueView::Integer(spec_keypad_code(pair.0)),
        SqlValueView::Integer(spec_keypad_code(pair.1)),
        SqlValueView::Text(pair.0),
        SqlValueView::Text(pair.1),
    ]
}

/// The row of a Pinyin syllable: its serial and keypad codes and the
/// syllable.
pub open spec fn pinyin_syllable_row(syllable: Seq<char>) -> Seq<SqlValueView> {
    seq![
        SqlValueView::Integer(spec_serial_code(syllable)),
        SqlValueView::Integer(spec_keypad_code(syllable)),
        SqlValueView::Text(syllable),
    ]
}

/// The statement that inserts a core syllable.
pub const SYLLABLE_CORE_INSERT: &'static str = "INSERT INTO syllable_core_table (alias_code, origin_code, alias, origin) VALUES (?, ?, ?, ?)";

/// The statement that inserts a nine-key syllable.
pub const SYLLABLE_NINE_KEY_INSERT: &'static str = "INSERT INTO syllable_9key_table (alias_code, origin_code, alias_9key_code, origin_9key_code, alias, origin) VALUES (?, ?, ?, ?, ?, ?)";

/// The statement that inserts a Pinyin syllable.
pub const SYLLABLE_PINYIN_INSERT: &'static str = "INSERT INTO syllable_pinyin_table (code, code_9key, syllable) VALUES (?, ?, ?)";

/// The three syllable tables: core pairs, nine-key pairs and Pinyin
/// syllables (each trimmed non-blank line), or the first error.
pub open spec fn syllables_outcome(core: Seq<char>, nine_key: Seq<char>, pinyin: Seq<char>) -> Result<
    Seq<StepView>,
    DataErrorView,
> {
    match spec_syllable_pairs(nonempty_source_lines(core), "syllable-core.txt"@) {
        Err(error) => Err(error),
        Ok(core_pairs) => match spec_syllable_pairs(
            nonempty_source_lines(nine_key),
            "syllable-9key.txt"@,
        ) {
            Err(error) => Err(error),
            Ok(nine_key_pairs) => Ok(
                seq![
                    StepView::Insert {
                        statement: SYLLABLE_CORE_INSERT@,
                        rows: core_pairs.map_values(
                            |pair: (Seq<char>, Seq<char>)| core_syllable_row(pair),
                        ),
                    },
                    StepView::Insert {
                        statement: SYLLABLE_NINE_KEY_INSERT@,
                        rows: nine_key_pairs.map_values(
                            |pair: (Seq<char>, Seq<char>)| nine_key_syllable_row(pair),
                        ),
                    },
                    StepView::Insert {
                        statement: SYLLABLE_PINYIN_INSERT@,
                        rows: nonempty_source_lines(pinyin).map_values(
                            |line: Seq<char>| pinyin_syllable_row(trim(line)),
                        ),
                    },
                ],
            ),
        },
    }
}

/// Fills the three syllable tables (see [`syllables_outcome`]).
pub fn insert_syllables(plan: &mut DatabasePlan, core: &str, nine_key: &str, pinyin: &str) -> (result: Result<
    (),
    DataError,
>)
    ensures
        plan_extended(
            old(plan)@,
            final(plan)@,
            result,
            syllables_outcome(core@, nine_key@, pinyin@),
        ),
{
    let core_pairs = match syllable_pairs(core, "syllable-core.txt") {
        Ok(pairs) => pairs,
        Err(error) => return Err(error),
    };
    let nine_key_pairs = match syllable_pairs(nine_key, "syllable-9key.txt") {
        Ok(pairs) => pairs,
        Err(error) => return Err(error),
    };
    let ghost core_view = crate::maps::pairs_view(core_pairs@);
    let mut core_rows: Vec<Vec<SqlValue>> = Vec::new();
    let mut i: usize = 0;
    while i < core_pairs.len()
        invariant
            i <= core_pairs.len(),
            core_view == crate::maps::pairs_view(core_pairs@),
            rows_view(core_rows@) == core_view.take(i as int).map_values(
                |pair: (Seq<char>, Seq<char>)| core_syllable_row(pair),
            ),
        decreases core_pairs.len() - i,
    {
        let alias = &core_pairs[i].0;
        let origin = &core_pairs[i].1;
        let mut row: Vec<SqlValue> = Vec::new();
        row.push(SqlValue::Integer(serial_code_chars(alias)));
        row.push(SqlValue::Integer(serial_code_chars(origin)));
        row.push(SqlValue::Text(string_of(alias)));
        row.push(SqlValue::Text(string_of(origin)));
        assert(core_view[i as int] == (alias@, origin@));
        assert(row_view(row@) =~= core_syllable_row((alias@, origin@)));
        let ghost previous = core_rows@;
        core_rows.push(row);
        i = i + 1;
        assert(rows_view(core_rows@) =~= rows_view(previous).push(core_syllable_row((alias@, origin@))));
        assert(core_view.take(i as int).map_values(|pair: (Seq<char>, Seq<char>)| core_syllable_row(pair))
            =~= core_view.take(i - 1).map_values(
            |pair: (Seq<char>, Seq<char>)| core_syllable_row(pair),
        ).push(core_syllable_row((alias@, origin@))));
    }
    assert(core_view.take(core_pairs.len() as int) =~= core_view);
    let ghost nine_view = crate::maps::pairs_view(nine_key_pairs@);
    let mut nine_key_rows: Vec<Vec<SqlValue>> = Vec::new();
    let mut i: usize = 0;
    while i < nine_key_pairs.len()
        invariant
            i <= nine_key_pairs.len(),
            nine_view == crate::maps::pairs_view(nine_key_pairs@),
            rows_view(nine_key_rows@) == nine_view.take(i as int).map_values(
                |pair: (Seq<char>, Seq<char>)| nine_key_syllable_row(pair),
            ),
        decreases nine_key_pairs.len() - i,
    {
        let alias = &nine_key_pairs[i].0;
        let origin = &nine_key_pairs[i].1;
        let mut row: Vec<SqlValue> = Vec::new();
        row.push(SqlValue::Integer(serial_code_chars(alias)));
        row.push(SqlValue::Integer(serial_code_chars(origin)));
        row.push(SqlValue::Integer(keypad_code_chars(alias)));
        row.push(SqlValue::Integer(keypad_code_chars(origin)));
        row.push(SqlValue::Text(string_of(alias)));
        row.push(SqlValue::Text(string_of(origin)));
        assert(nine_view[i as int] == (alias@, origin@));
        assert(row_view(row@) =~= nine_key_syllable_row((alias@, origin@)));
        let ghost previous = nine_key_rows@;
        nine_key_rows.push(row);
        i = i + 1;
        assert(rows_view(nine_key_rows@) =~= rows_view(previous).push(
            nine_key_syllable_row((alias@, origin@)),
        ));
        assert(nine_view.take(i as int).map_values(
            |pair: (Seq<char>, Seq<char>)| nine_key_syllable_row(pair),
        ) =~= nine_view.take(i - 1).map_values(
            |pair: (Seq<char>, Seq<char>)| nine_key_syllable_row(pair),
        ).push(nine_key_syllable_row((alias@, origin@))));
    }
    assert(nine_view.take(nine_key_pairs.len() as int) =~= nine_view);
    let syllables = nonempty_source_lines_of(pinyin);
    let ghost listed = texts_view(syllables@);
    let mut pinyin_rows: Vec<Vec<SqlValue>> = Vec::new();
    let mut i: usize = 0;
    while i < syllables.len()
        invariant
            i <= syllables.len(),
            listed == texts_view(syllables@),
            rows_view(pinyin_rows@) == listed.take(i as int).map_values(
                |line: Seq<char>| pinyin_syllable_row(trim(line)),
            ),
        decreases syllables.len() - i,
    {
        let syllable = trim_chars(&syllables[i]);
        let mut row: Vec<SqlValue> = Vec::new();
        row.push(SqlValue::Integer(serial_code_chars(&syllable)));
        row.push(SqlValue::Integer(keypad_code_chars(&syllable)));
        row.push(SqlValue::Text(string_of(&syllable)));
        assert(listed[i as int] == syllables@[i as int]@);
        assert(row_view(row@) =~= pinyin_syllable_row(syllable@));
        let ghost previous = pinyin_rows@;
        pinyin_rows.push(row);
        i = i + 1;
        assert(rows_view(pinyin_rows@) =~= rows_view(previous).push(pinyin_syllable_row(syllable@)));
        assert(listed.take(i as int).map_values(|line: Seq<char>| pinyin_syllable_row(trim(line)))
            =~= listed.take(i - 1).map_values(|line: Seq<char>| pinyin_syllable_row(trim(line))).push(
            pinyin_syllable_row(syllable@),
        ));
    }
    assert(listed.take(syllables.len() as int) =~= listed);
    let ghost before = plan@;
    plan.insert(SYLLABLE_CORE_INSERT, core_rows);
    plan.insert(SYLLABLE_NINE_KEY_INSERT, nine_key_rows);
    plan.insert(SYLLABLE_PINYIN_INSERT, pinyin_rows);
    assert(plan@ =~= before + seq![
        StepView::Insert { statement: SYLLABLE_CORE_INSERT@, rows: rows_view(core_rows@) },
        StepView::Insert { statement: SYLLABLE_NINE_KEY_INSERT@, rows: rows_view(nine_key_rows@) },
        StepView::Insert { statement: SYLLABLE_PINYIN_INSERT@, rows: rows_view(pinyin_rows@) },
    ]);
    Ok(())
}


/// The plain text table has each (input, word) pair once.
pub proof fn lemma_plain_text_distinct(lines: Seq<Seq<char>>)
    ensures
        plain_text_pairs(lines) matches Ok(pairs) ==> first_occurrences(pairs).no_duplicates(),
{
    if let Ok(pairs) = plain_text_pairs(lines) {
        crate::words::lemma_first_occurrences(pairs);
    }
}

} // verus!
