//! The stroke table of the input method: the stroke sequences of the
//! single-character words of the Jyutping lexicon.

use vstd::prelude::*;
use crate::codes::{decimal_code, spec_decimal_code};
use crate::error::{DataError, DataErrorView};
use crate::maps::{source_lookup, source_map, TextMap};
use crate::plan::{plan_extended, row_view, rows_view, DatabasePlan, SqlValue, SqlValueView, StepView};
use crate::text::{string_of, texts_view};
use crate::words::{first_occurrences, jyutping_words, lemma_first_occurrences, spec_jyutping_words};

verus! {

/// A word with one of its stroke sequences.
#[derive(Clone, Debug, PartialEq, Eq)]
pub struct StrokeEntry {
    pub word: String,
    pub stroke: String,
    pub complex: i64,
    pub code: i64,
}

/// The model of a [`StrokeEntry`].
pub struct StrokeEntryView {
    pub word: Seq<char>,
    pub stroke: Seq<char>,
    pub complex: i64,
    pub code: i64,
}

impl View for StrokeEntry {
    type V = StrokeEntryView;

    open spec fn view(&self) -> StrokeEntryView {
        StrokeEntryView {
            word: self.word@,
            stroke: self.stroke@,
            complex: self.complex,
            code: self.code,
        }
    }
}

/// The models of stroke entries.
pub open spec fn stroke_views(entries: Seq<StrokeEntry>) -> Seq<StrokeEntryView> {
    entries.map_values(|entry: StrokeEntry| entry@)
}

/// The stroke that a character of a stroke sequence names: 1 horizontal
/// (`w`, `h`), 2 vertical (`s`), 3 falling left (`a`, `p`), 4 dot or falling
/// right (`d`, `n`), 5 turning (`z`); the digits name themselves.
pub open spec fn spec_stroke_code(character: char) -> Option<i64> {
    if character == 'w' || character == 'h' || character == '1' {
        Some(1)
    } else if character == 's' || character == '2' {
        Some(2)
    } else if character == 'a' || character == 'p' || character == '3' {
        Some(3)
    } else if character == 'd' || character == 'n' || character == '4' {
        Some(4)
    } else if character == 'z' || character == '5' {
        Some(5)
    } else {
        None
    }
}

/// The strokes of a stroke sequence, when each of its characters names one.
pub open spec fn stroke_codes(sequence: Seq<char>) -> Option<Seq<i64>>
    decreases sequence.len(),
{
    if sequence.len() == 0 {
        Some(Seq::empty())
    } else {
        match stroke_codes(sequence.drop_last()) {
            None => None,
            Some(codes) => match spec_stroke_code(sequence.last()) {
                None => None,
                Some(code) => Some(codes.push(code)),
            },
        }
    }
}

/// The decimal digit of a stroke.
pub open spec fn stroke_digit(code: i64) -> char {
    (('0' as int) + code) as char
}

/// The entry of a word with a sequence of strokes: the strokes written as
/// digits, their number, and their decimal code.
pub open spec fn stroke_entry(word: Seq<char>, codes: Seq<i64>) -> StrokeEntryView {
    StrokeEntryView {
        word,
        stroke: codes.map_values(|code: i64| stroke_digit(code)),
        complex: codes.len() as i64,
        code: spec_decimal_code(codes),
    }
}

/// The stroke entries of one word: one for each of its stroke sequences of
/// at most thirty strokes; a sequence with a character that names no stroke
/// is an error.
pub open spec fn word_stroke_entries(word: Seq<char>, sequences: Seq<Seq<char>>) -> Result<
    Seq<StrokeEntryView>,
    DataErrorView,
>
    decreases sequences.len(),
{
    if sequences.len() == 0 {
        Ok(Seq::empty())
    } else {
        match word_stroke_entries(word, sequences.drop_last()) {
            Err(error) => Err(error),
            Ok(entries) => match stroke_codes(sequences.last()) {
                None => Err(DataErrorView::BadStrokeFormat { word, stroke: sequences.last() }),
                Some(codes) => if codes.len() > 30 {
                    Ok(entries)
                } else {
                    Ok(entries.push(stroke_entry(word, codes)))
                },
            },
        }
    }
}

/// The stroke entries of the words, word after word, or the first error.
pub open spec fn stroke_candidates(words: Seq<Seq<char>>, strokes: spec_fn(Seq<char>) -> Seq<Seq<char>>) -> Result<
    Seq<StrokeEntryView>,
    DataErrorView,
>
    decreases words.len(),
{
    if words.len() == 0 {
        Ok(Seq::empty())
    } else {
        match stroke_candidates(words.drop_last(), strokes) {
            Err(error) => Err(error),
            Ok(entries) => match word_stroke_entries(words.last(), strokes(words.last())) {
                Err(error) => Err(error),
                Ok(more) => Ok(entries + more),
            },
        }
    }
}

/// The distinct stroke entries of the words, in order, or the first error.
pub open spec fn spec_stroke_entries(words: Seq<Seq<char>>, strokes: spec_fn(Seq<char>) -> Seq<Seq<char>>) -> Result<
    Seq<StrokeEntryView>,
    DataErrorView,
> {
    match stroke_candidates(words, strokes) {
        Err(error) => Err(error),
        Ok(entries) => Ok(first_occurrences(entries)),
    }
}

proof fn lemma_word_stroke_entries_error_stays(word: Seq<char>, sequences: Seq<Seq<char>>, k: int)
    requires
        0 <= k <= sequences.len(),
        word_stroke_entries(word, sequences.take(k)) is Err,
    ensures
        word_stroke_entries(word, sequences) == word_stroke_entries(word, sequences.take(k)),
    decreases sequences.len() - k,
{
    if k < sequences.len() {
        assert(sequences.take(k + 1).drop_last() =~= sequences.take(k));
        lemma_word_stroke_entries_error_stays(word, sequences, k + 1);
    } else {
        assert(sequences.take(k) =~= sequences);
    }
}

proof fn lemma_stroke_candidates_error_stays(
    words: Seq<Seq<char>>,
    strokes: spec_fn(Seq<char>) -> Seq<Seq<char>>,
    k: int,
)
    requires
        0 <= k <= words.len(),
        stroke_candidates(words.take(k), strokes) is Err,
    ensures
        stroke_candidates(words, strokes) == stroke_candidates(words.take(k), strokes),
    decreases words.len() - k,
{
    if k < words.len() {
        assert(words.take(k + 1).drop_last() =~= words.take(k));
        lemma_stroke_candidates_error_stays(words, strokes, k + 1);
    } else {
        assert(words.take(k) =~= words);
    }
}

/// The stroke that a character names (see [`spec_stroke_code`]).
fn stroke_code(character: char) -> (result: Option<i64>)
    ensures
        result == spec_stroke_code(character),
{
    if character == 'w' || character == 'h' || character == '1' {
        Some(1)
    } else if character == 's' || character == '2' {
        Some(2)
    } else if character == 'a' || character == 'p' || character == '3' {
        Some(3)
    } else if character == 'd' || character == 'n' || character == '4' {
        Some(4)
    } else if character == 'z' || character == '5' {
        Some(5)
    } else {
        None
    }
}

/// The strokes of a stroke sequence (see [`stroke_codes`]).
fn parse_strokes(sequence: &[char]) -> (result: Option<Vec<i64>>)
    ensures
        match result {
            Some(codes) => stroke_codes(sequence@) == Some(codes@),
            None => stroke_codes(sequence@) is None,
        },
{
    let mut codes: Vec<i64> = Vec::new();
    let mut i: usize = 0;
    while i < sequence.len()
        invariant
            i <= sequence.len(),
            stroke_codes(sequence@.take(i as int)) == Some(codes@),
            forall|j: int| 0 <= j < codes@.len() ==> 1 <= #[trigger] codes@[j] <= 5,
        decreases sequence.len() - i,
    {
        assert(sequence@.take(i + 1).drop_last() =~= sequence@.take(i as int));
        match stroke_code(sequence[i]) {
            Some(code) => codes.push(code),
            None => {
                proof {
                    lemma_stroke_codes_none_stays(sequence@, i as int + 1);
                }
                return None;
            },
        }
        i = i + 1;
    }
    assert(sequence@.take(sequence.len() as int) =~= sequence@);
    Some(codes)
}

proof fn lemma_stroke_codes_none_stays(sequence: Seq<char>, k: int)
    requires
        0 <= k <= sequence.len(),
        stroke_codes(sequence.take(k)) is None,
    ensures
        stroke_codes(sequence) is None,
    decreases sequence.len() - k,
{
    if k < sequence.len() {
        assert(sequence.take(k + 1).drop_last() =~= sequence.take(k));
        lemma_stroke_codes_none_stays(sequence, k + 1);
    } else {
        assert(sequence.take(k) =~= sequence);
    }
}

proof fn lemma_stroke_codes_range(sequence: Seq<char>)
    ensures
        stroke_codes(sequence) matches Some(codes) ==> forall|j: int| 0 <= j < codes.len() ==> 1
            <= #[trigger] codes[j] <= 5,
    decreases sequence.len(),
{
    if sequence.len() > 0 {
        lemma_stroke_codes_range(sequence.drop_last());
    }
}

/// The digits of the strokes.
fn stroke_digits(codes: &Vec<i64>) -> (result: Vec<char>)
    requires
        forall|j: int| 0 <= j < codes@.len() ==> 1 <= #[trigger] codes@[j] <= 5,
    ensures
        result@ == codes@.map_values(|code: i64| stroke_digit(code)),
{
    let mut result: Vec<char> = Vec::new();
    let mut i: usize = 0;
    while i < codes.len()
        invariant
            i <= codes.len(),
            forall|j: int| 0 <= j < codes@.len() ==> 1 <= #[trigger] codes@[j] <= 5,
            result@ == codes@.take(i as int).map_values(|code: i64| stroke_digit(code)),
        decreases codes.len() - i,
    {
        let code = codes[i];
        let digit = if code == 1 {
            '1'
        } else if code == 2 {
            '2'
        } else if code == 3 {
            '3'
        } else if code == 4 {
            '4'
        } else {
            '5'
        };
        assert(digit == stroke_digit(code));
        result.push(digit);
        i = i + 1;
        assert(result@ =~= codes@.take(i as int).map_values(|code: i64| stroke_digit(code)));
    }
    assert(codes@.take(codes.len() as int) =~= codes@);
    result
}

/// Whether `entry` is among `entries`.
fn contains_stroke(entries: &Vec<StrokeEntry>, entry: &StrokeEntry) -> (result: bool)
    ensures
        result == stroke_views(entries@).contains(entry@),
{
    let mut i: usize = 0;
    while i < entries.len()
        invariant
            i <= entries.len(),
            forall|j: int| 0 <= j < i ==> entries@[j]@ != entry@,
        decreases entries.len() - i,
    {
        let other = &entries[i];
        if other.word == entry.word && other.stroke == entry.stroke && other.complex
            == entry.complex && other.code == entry.code {
            assert(stroke_views(entries@)[i as int] == entry@);
            return true;
        }
        i = i + 1;
    }
    proof {
        if stroke_views(entries@).contains(entry@) {
            let j = choose|j: int| 0 <= j < entries@.len() && stroke_views(entries@)[j] == entry@;
            assert(entries@[j]@ == entry@);
        }
    }
    false
}

/// The model of the outcome of [`stroke_entries`].
pub open spec fn stroke_result_view(result: Result<Vec<StrokeEntry>, DataError>) -> Result<
    Seq<StrokeEntryView>,
    DataErrorView,
> {
    match result {
        Ok(entries) => Ok(stroke_views(entries@)),
        Err(error) => Err(error@),
    }
}

/// The distinct stroke entries of the words, in order (see
/// [`spec_stroke_entries`]).
pub fn stroke_entries(words: &Vec<Vec<char>>, stroke_map: &TextMap) -> (result: Result<
    Vec<StrokeEntry>,
    DataError,
>)
    ensures
        stroke_result_view(result) == spec_stroke_entries(texts_view(words@), stroke_map.lookup()),
{
    let ghost all = texts_view(words@);
    let ghost strokes = stroke_map.lookup();
    let mut entries: Vec<StrokeEntry> = Vec::new();
    let ghost mut candidates: Seq<StrokeEntryView> = Seq::empty();
    let mut i: usize = 0;
    assert(all.take(0) =~= Seq::<Seq<char>>::empty());
    assert(stroke_views(entries@) =~= Seq::<StrokeEntryView>::empty());
    while i < words.len()
        invariant
            i <= words.len(),
            all == texts_view(words@),
            strokes == stroke_map.lookup(),
            stroke_candidates(all.take(i as int), strokes) == Ok::<
                Seq<StrokeEntryView>,
                DataErrorView,
            >(candidates),
            stroke_views(entries@) == first_occurrences(candidates),
        decreases words.len() - i,
    {
        let word = &words[i];
        assert(all[i as int] == word@);
        assert(all.take(i + 1).drop_last() =~= all.take(i as int));
        if let Some(sequences) = stroke_map.get(word) {
            let ghost listed = texts_view(sequences@);
            assert(strokes(word@) == listed);
            let ghost mut own: Seq<StrokeEntryView> = Seq::empty();
            let mut m: usize = 0;
            assert(listed.take(0) =~= Seq::<Seq<char>>::empty());
            assert(candidates + own =~= candidates);
            while m < sequences.len()
                invariant
                    m <= sequences.len(),
                    i < words.len(),
                    all == texts_view(words@),
                    all[i as int] == word@,
                    strokes == stroke_map.lookup(),
                    strokes(word@) == listed,
                    stroke_candidates(all.take(i as int), strokes) == Ok::<
                        Seq<StrokeEntryView>,
                        DataErrorView,
                    >(candidates),
                    listed == texts_view(sequences@),
                    word_stroke_entries(word@, listed.take(m as int)) == Ok::<
                        Seq<StrokeEntryView>,
                        DataErrorView,
                    >(own),
                    stroke_views(entries@) == first_occurrences(candidates + own),
                decreases sequences.len() - m,
            {
                let sequence = &sequences[m];
                assert(listed[m as int] == sequence@);
                assert(listed.take(m + 1).drop_last() =~= listed.take(m as int));
                let codes = match parse_strokes(sequence) {
                    Some(codes) => codes,
                    None => {
                        proof {
                            lemma_word_stroke_entries_error_stays(word@, listed, m as int + 1);
                            assert(all.take(i + 1).drop_last() =~= all.take(i as int));
                            assert(all.take(i + 1).last() == word@);
                            assert(stroke_candidates(all.take(i + 1), strokes) is Err);
                            lemma_stroke_candidates_error_stays(all, strokes, i as int + 1);
                        }
                        return Err(
                            DataError::BadStrokeFormat {
                                word: string_of(word),
                                stroke: string_of(sequence),
                            },
                        );
                    },
                };
                if codes.len() <= 30 {
                    proof {
                        lemma_stroke_codes_range(sequence@);
                    }
                    let entry = StrokeEntry {
                        word: string_of(word),
                        stroke: string_of(&stroke_digits(&codes)),
                        complex: codes.len() as i64,
                        code: decimal_code(&codes),
                    };
                    assert(entry@ == stroke_entry(word@, codes@));
                    let ghost previous_own = own;
                    proof {
                        own = own.push(entry@);
                    }
                    assert(candidates + own =~= (candidates + previous_own).push(entry@));
                    assert((candidates + previous_own).push(entry@).drop_last() =~= candidates
                        + previous_own);
                    if !contains_stroke(&entries, &entry) {
                        let ghost previous = entries@;
                        entries.push(entry);
                        assert(stroke_views(entries@) =~= stroke_views(previous).push(entry@));
                    }
                }
                m = m + 1;
            }
            assert(listed.take(sequences.len() as int) =~= listed);
            proof {
                candidates = candidates + own;
            }
        } else {
            assert(strokes(word@) =~= Seq::<Seq<char>>::empty());
            assert(word_stroke_entries(word@, strokes(word@)) == Ok::<
                Seq<StrokeEntryView>,
                DataErrorView,
            >(Seq::empty()));
            assert(candidates + Seq::<StrokeEntryView>::empty() =~= candidates);
        }
        i = i + 1;
    }
    assert(all.take(words.len() as int) =~= all);
    Ok(entries)
}

/// The statement that inserts a stroke entry.
pub const STROKE_INSERT: &'static str = "INSERT INTO stroke_table (word, stroke, complex, code) VALUES (?, ?, ?, ?)";

/// The row of a stroke entry.
pub open spec fn stroke_row(entry: StrokeEntryView) -> Seq<SqlValueView> {
    seq![
        SqlValueView::Text(entry.word),
        SqlValueView::Text(entry.stroke),
        SqlValueView::Integer(entry.complex),
        SqlValueView::Integer(entry.code),
    ]
}

/// The stroke table filled from the stroke file's text for the distinct
/// single-character words of the lexicon lines, or the first error.
pub open spec fn strokes_outcome(stroke: Seq<char>, jyutping_lines: Seq<Seq<char>>) -> Result<
    Seq<StepView>,
    DataErrorView,
> {
    match spec_stroke_entries(spec_jyutping_words(jyutping_lines, true), source_lookup(stroke)) {
        Err(error) => Err(error),
        Ok(entries) => Ok(
            seq![
                StepView::Insert {
                    statement: STROKE_INSERT@,
                    rows: entries.map_values(|entry: StrokeEntryView| stroke_row(entry)),
                },
            ],
        ),
    }
}

/// Fills the stroke table (see [`strokes_outcome`]).
pub fn insert_strokes(plan: &mut DatabasePlan, stroke: &str, jyutping_lines: &Vec<Vec<char>>) -> (result: Result<
    (),
    DataError,
>)
    ensures
        plan_extended(
            old(plan)@,
            final(plan)@,
            result,
            strokes_outcome(stroke@, texts_view(jyutping_lines@)),
        ),
{
    let stroke_map = source_map(stroke);
    assert(stroke_map.lookup() =~= source_lookup(stroke@));
    let words = jyutping_words(jyutping_lines, true);
    let entries = match stroke_entries(&words, &stroke_map) {
        Ok(entries) => entries,
        Err(error) => return Err(error),
    };
    let ghost all = stroke_views(entries@);
    let mut rows: Vec<Vec<SqlValue>> = Vec::new();
    let mut i: usize = 0;
    while i < entries.len()
        invariant
            i <= entries.len(),
            all == stroke_views(entries@),
            rows_view(rows@) == all.take(i as int).map_values(|entry: StrokeEntryView| stroke_row(entry)),
        decreases entries.len() - i,
    {
        let entry = &entries[i];
        let mut row: Vec<SqlValue> = Vec::new();
        row.push(SqlValue::Text(entry.word.clone()));
        row.push(SqlValue::Text(entry.stroke.clone()));
        row.push(SqlValue::Integer(entry.complex));
        row.push(SqlValue::Integer(entry.code));
        assert(all[i as int] == entry@);
        assert(row_view(row@) =~= stroke_row(entry@));
        let ghost previous = rows@;
        rows.push(row);
        i = i + 1;
        assert(rows_view(rows@) =~= rows_view(previous).push(stroke_row(entry@)));
        assert(all.take(i as int).map_values(|entry: StrokeEntryView| stroke_row(entry))
            =~= all.take(i - 1).map_values(|entry: StrokeEntryView| stroke_row(entry)).push(
            stroke_row(entry@),
        ));
    }
    assert(all.take(entries.len() as int) =~= all);
    let ghost before = plan@;
    plan.insert(STROKE_INSERT, rows);
    assert(plan@ =~= before + seq![
        StepView::Insert { statement: STROKE_INSERT@, rows: rows_view(rows@) },
    ]);
    Ok(())
}


/// The stroke table has each (word, stroke sequence) once.
pub proof fn lemma_stroke_entries_distinct(words: Seq<Seq<char>>, strokes: spec_fn(Seq<char>) -> Seq<Seq<char>>)
    ensures
        spec_stroke_entries(words, strokes) matches Ok(entries) ==> forall|i: int, j: int|
            0 <= i < j < entries.len() ==> (#[trigger] entries[i]).word != (#[trigger] entries[j]).word
                || entries[i].stroke != entries[j].stroke,
{
    if let Ok(candidates) = stroke_candidates(words, strokes) {
        lemma_first_occurrences(candidates);
        lemma_stroke_candidates_valid(words, strokes);
        let entries = first_occurrences(candidates);
        assert forall|i: int, j: int| 0 <= i < j < entries.len() implies (#[trigger] entries[i]).word
            != (#[trigger] entries[j]).word || entries[i].stroke != entries[j].stroke by {
            assert(entries.contains(entries[i]) && entries.contains(entries[j]));
            assert(candidates.contains(entries[i]) && candidates.contains(entries[j]));
            let ki = choose|k: int| 0 <= k < candidates.len() && candidates[k] == entries[i];
            let kj = choose|k: int| 0 <= k < candidates.len() && candidates[k] == entries[j];
            assert(is_stroke_entry(candidates[ki]));
            assert(is_stroke_entry(candidates[kj]));
            if entries[i].word == entries[j].word && entries[i].stroke == entries[j].stroke {
                lemma_stroke_entry_determined(entries[i], entries[j]);
            }
        }
    }
}

proof fn lemma_word_stroke_entries_valid(word: Seq<char>, sequences: Seq<Seq<char>>)
    ensures
        word_stroke_entries(word, sequences) matches Ok(entries) ==> forall|i: int|
            0 <= i < entries.len() ==> is_stroke_entry(#[trigger] entries[i]),
    decreases sequences.len(),
{
    if sequences.len() > 0 {
        lemma_word_stroke_entries_valid(word, sequences.drop_last());
        lemma_stroke_codes_range(sequences.last());
        if let Ok(entries) = word_stroke_entries(word, sequences) {
            if let Ok(previous) = word_stroke_entries(word, sequences.drop_last()) {
                assert forall|i: int| 0 <= i < entries.len() implies is_stroke_entry(
                    #[trigger] entries[i],
                ) by {
                    if i < previous.len() {
                        assert(entries[i] == previous[i]);
                    } else {
                        let codes = stroke_codes(sequences.last())->Some_0;
                        assert(entries[i] == stroke_entry(word, codes));
                        assert(entries[i].word == word);
                        assert(codes.len() <= 30 && (forall|k: int| 0 <= k < codes.len() ==> 1 <= #[trigger] codes[k] <= 5)
                            && entries[i] == stroke_entry(entries[i].word, codes));
                    }
                }
            }
        }
    }
}

proof fn lemma_stroke_candidates_valid(words: Seq<Seq<char>>, strokes: spec_fn(Seq<char>) -> Seq<Seq<char>>)
    ensures
        stroke_candidates(words, strokes) matches Ok(entries) ==> forall|i: int|
            0 <= i < entries.len() ==> is_stroke_entry(#[trigger] entries[i]),
    decreases words.len(),
{
    if words.len() > 0 {
        lemma_stroke_candidates_valid(words.drop_last(), strokes);
        lemma_word_stroke_entries_valid(words.last(), strokes(words.last()));
        if let Ok(entries) = stroke_candidates(words, strokes) {
            if let Ok(previous) = stroke_candidates(words.drop_last(), strokes) {
                if let Ok(more) = word_stroke_entries(words.last(), strokes(words.last())) {
                    assert forall|i: int| 0 <= i < entries.len() implies is_stroke_entry(
                        #[trigger] entries[i],
                    ) by {
                        if i < previous.len() {
                            assert(entries[i] == previous[i]);
                        } else {
                            assert(entries[i] == more[i - previous.len()]);
                        }
                    }
                }
            }
        }
    }
}

/// Each stroke entry is made from its word and at most thirty strokes:
/// the strokes (each 1 to 5) written as digits, their number, and their
/// decimal code.
pub open spec fn is_stroke_entry(entry: StrokeEntryView) -> bool {
    exists|codes: Seq<i64>|
        codes.len() <= 30 && (forall|k: int| 0 <= k < codes.len() ==> 1 <= #[trigger] codes[k] <= 5)
            && entry == stroke_entry(entry.word, codes)
}

/// Every entry of the stroke table is made from its word and at most
/// thirty strokes (see [`is_stroke_entry`]).
pub proof fn lemma_stroke_entries_valid(words: Seq<Seq<char>>, strokes: spec_fn(Seq<char>) -> Seq<Seq<char>>)
    ensures
        spec_stroke_entries(words, strokes) matches Ok(entries) ==> forall|i: int|
            0 <= i < entries.len() ==> is_stroke_entry(#[trigger] entries[i]),
{
    if let Ok(candidates) = stroke_candidates(words, strokes) {
        lemma_first_occurrences(candidates);
        lemma_stroke_candidates_valid(words, strokes);
        let entries = first_occurrences(candidates);
        assert forall|i: int| 0 <= i < entries.len() implies is_stroke_entry(#[trigger] entries[i]) by {
            assert(entries.contains(entries[i]));
            assert(candidates.contains(entries[i]));
            let k = choose|k: int| 0 <= k < candidates.len() && candidates[k] == entries[i];
            assert(is_stroke_entry(candidates[k]));
        }
    }
}

/// The stroke table fails only on a stroke sequence of one of the words
/// with a character that names no stroke, and names that word and
/// sequence.
pub proof fn lemma_stroke_entries_error(words: Seq<Seq<char>>, strokes: spec_fn(Seq<char>) -> Seq<Seq<char>>)
    ensures
        spec_stroke_entries(words, strokes) matches Err(error) ==> error matches DataErrorView::BadStrokeFormat {
            word,
            stroke,
        } && words.contains(word) && strokes(word).contains(stroke) && stroke_codes(stroke) is None,
    decreases words.len(),
{
    if words.len() > 0 {
        lemma_stroke_entries_error(words.drop_last(), strokes);
        lemma_word_stroke_entries_error(words.last(), strokes(words.last()));
        match stroke_candidates(words.drop_last(), strokes) {
            Err(error) => {
                if let DataErrorView::BadStrokeFormat { word, stroke } = error {
                    let k = choose|k: int| 0 <= k < words.drop_last().len() && words.drop_last()[k] == word;
                    assert(words[k] == word);
                }
            },
            Ok(_) => {
                assert(words[words.len() - 1] == words.last());
            },
        }
    }
}

proof fn lemma_word_stroke_entries_error(word: Seq<char>, sequences: Seq<Seq<char>>)
    ensures
        word_stroke_entries(word, sequences) matches Err(error) ==> error matches DataErrorView::BadStrokeFormat {
            word: w,
            stroke,
        } && w == word && sequences.contains(stroke) && stroke_codes(stroke) is None,
    decreases sequences.len(),
{
    if sequences.len() > 0 {
        lemma_word_stroke_entries_error(word, sequences.drop_last());
        match word_stroke_entries(word, sequences.drop_last()) {
            Err(error) => {
                if let DataErrorView::BadStrokeFormat { word: w, stroke } = error {
                    let k = choose|k: int| 0 <= k < sequences.drop_last().len() && sequences.drop_last()[k] == stroke;
                    assert(sequences[k] == stroke);
                }
            },
            Ok(_) => {
                assert(sequences[sequences.len() - 1] == sequences.last());
            },
        }
    }
}

proof fn lemma_stroke_entry_determined(a: StrokeEntryView, b: StrokeEntryView)
    requires
        is_stroke_entry(a),
        is_stroke_entry(b),
        a.word == b.word,
        a.stroke == b.stroke,
    ensures
        a == b,
{
    let ca = choose|codes: Seq<i64>|
        codes.len() <= 30 && (forall|k: int| 0 <= k < codes.len() ==> 1 <= #[trigger] codes[k] <= 5)
            && a == stroke_entry(a.word, codes);
    let cb = choose|codes: Seq<i64>|
        codes.len() <= 30 && (forall|k: int| 0 <= k < codes.len() ==> 1 <= #[trigger] codes[k] <= 5)
            && b == stroke_entry(b.word, codes);
    assert(ca.len() == a.stroke.len());
    assert(cb.len() == b.stroke.len());
    assert forall|k: int| 0 <= k < ca.len() implies ca[k] == cb[k] by {
        assert(a.stroke[k] == stroke_digit(ca[k]));
        assert(b.stroke[k] == stroke_digit(cb[k]));
    }
    assert(ca =~= cb);
}

/// The characters of stroke sequences name the five strokes: `w`, `h` and
/// `1` the horizontal (1); `s` and `2` the vertical (2); `a`, `p` and `3`
/// the falling left (3); `d`, `n` and `4` the dot or falling right (4); `z`
/// and `5` the turning (5); no other character names one. A sequence has
/// strokes exactly when each of its characters names one, and then they
/// are those, in order.
pub proof fn lemma_stroke_layout(sequence: Seq<char>)
    ensures
        forall|c: char| #[trigger] spec_stroke_code(c) == Some(1i64) <==> (c == 'w' || c == 'h' || c == '1'),
        forall|c: char| #[trigger] spec_stroke_code(c) == Some(2i64) <==> (c == 's' || c == '2'),
        forall|c: char| #[trigger] spec_stroke_code(c) == Some(3i64) <==> (c == 'a' || c == 'p' || c == '3'),
        forall|c: char| #[trigger] spec_stroke_code(c) == Some(4i64) <==> (c == 'd' || c == 'n' || c == '4'),
        forall|c: char| #[trigger] spec_stroke_code(c) == Some(5i64) <==> (c == 'z' || c == '5'),
        forall|c: char| #[trigger] spec_stroke_code(c) is Some ==> 1 <= spec_stroke_code(c)->0 <= 5,
        stroke_codes(sequence) is Some <==> forall|k: int|
            0 <= k < sequence.len() ==> #[trigger] spec_stroke_code(sequence[k]) is Some,
        stroke_codes(sequence) matches Some(codes) ==> codes.len() == sequence.len() && forall|k: int|
            0 <= k < sequence.len() ==> Some(#[trigger] codes[k]) == spec_stroke_code(sequence[k]),
    decreases sequence.len(),
{
    if sequence.len() > 0 {
        let previous = sequence.drop_last();
        lemma_stroke_layout(previous);
        let last = sequence.len() - 1;
        assert(sequence[last] == sequence.last());
        assert forall|k: int| 0 <= k < previous.len() implies previous[k] == sequence[k] by {}
        if stroke_codes(sequence) is None {
            if forall|k: int| 0 <= k < sequence.len() ==> #[trigger] spec_stroke_code(sequence[k]) is Some {
                assert forall|k: int| 0 <= k < previous.len() implies #[trigger] spec_stroke_code(previous[k]) is Some by {
                    assert(spec_stroke_code(sequence[k]) is Some);
                }
                assert(spec_stroke_code(sequence[last]) is Some);
            }
        } else {
            let codes = stroke_codes(sequence)->0;
            let before = stroke_codes(previous)->0;
            assert(codes == before.push(spec_stroke_code(sequence.last())->0));
            assert forall|k: int| 0 <= k < sequence.len() implies #[trigger] spec_stroke_code(sequence[k]) is Some
                && Some(codes[k]) == spec_stroke_code(sequence[k]) by {
                if k < last {
                    assert(previous[k] == sequence[k]);
                    assert(codes[k] == before[k]);
                    assert(Some(before[k]) == spec_stroke_code(previous[k]));
                }
            }
        }
    }
}

/// The entry of a word with a sequence of strokes, written out: the
/// strokes as the digits 1 to 5, their number, and their decimal code.
pub open spec fn stroke_row_of(word: Seq<char>, codes: Seq<i64>) -> StrokeEntryView {
    StrokeEntryView {
        word,
        stroke: codes.map_values(|code: i64| (('0' as int) + code) as char),
        complex: codes.len() as i64,
        code: spec_decimal_code(codes),
    }
}

proof fn lemma_word_stroke_entries_complete(word: Seq<char>, sequences: Seq<Seq<char>>, m: int)
    requires
        0 <= m < sequences.len(),
        stroke_codes(sequences[m]) is Some,
        stroke_codes(sequences[m])->0.len() <= 30,
    ensures
        word_stroke_entries(word, sequences) matches Ok(own) ==> own.contains(
            stroke_row_of(word, stroke_codes(sequences[m])->0),
        ),
    decreases sequences.len(),
{
    let codes = stroke_codes(sequences[m])->0;
    assert(codes.map_values(|code: i64| (('0' as int) + code) as char) =~= codes.map_values(
        |code: i64| stroke_digit(code),
    ));
    assert(stroke_row_of(word, codes) == stroke_entry(word, codes));
    if let Ok(own) = word_stroke_entries(word, sequences) {
        let previous = sequences.drop_last();
        if m < sequences.len() - 1 {
            assert(previous[m] == sequences[m]);
            lemma_word_stroke_entries_complete(word, previous, m);
            if let Ok(before) = word_stroke_entries(word, previous) {
                let k = choose|k: int| 0 <= k < before.len() && before[k] == stroke_row_of(word, codes);
                assert(own == before || own == before.push(stroke_entry(word, stroke_codes(sequences.last())->0)));
                if own != before {
                    assert(own[k] == before[k]);
                }
            }
        } else {
            assert(sequences.last() == sequences[m]);
            if let Ok(before) = word_stroke_entries(word, previous) {
                assert(own == before.push(stroke_entry(word, codes)));
                assert(own[before.len() as int] == stroke_entry(word, codes));
            }
        }
    }
}

proof fn lemma_stroke_candidates_complete(
    words: Seq<Seq<char>>,
    strokes: spec_fn(Seq<char>) -> Seq<Seq<char>>,
    j: int,
    entry: StrokeEntryView,
)
    requires
        0 <= j < words.len(),
        word_stroke_entries(words[j], strokes(words[j])) matches Ok(own) && own.contains(entry),
    ensures
        stroke_candidates(words, strokes) matches Ok(all) ==> all.contains(entry),
    decreases words.len(),
{
    if let Ok(all) = stroke_candidates(words, strokes) {
        let previous = words.drop_last();
        if let Ok(before) = stroke_candidates(previous, strokes) {
            if let Ok(more) = word_stroke_entries(words.last(), strokes(words.last())) {
                assert(all == before + more);
                if j < words.len() - 1 {
                    assert(previous[j] == words[j]);
                    lemma_stroke_candidates_complete(previous, strokes, j, entry);
                    let k = choose|k: int| 0 <= k < before.len() && before[k] == entry;
                    assert(all[k] == entry);
                } else {
                    assert(words.last() == words[j]);
                    let k = choose|k: int| 0 <= k < more.len() && more[k] == entry;
                    assert(all[before.len() + k] == entry);
                }
            }
        }
    }
}

/// The stroke table is complete: when it is made, it has, for every word
/// of the list and every stroke sequence listed for that word that names
/// at most thirty strokes, the entry of the word with those strokes.
pub proof fn lemma_stroke_entries_complete(words: Seq<Seq<char>>, strokes: spec_fn(Seq<char>) -> Seq<Seq<char>>)
    ensures
        forall|j: int, m: int|
            0 <= j < words.len() && 0 <= m < strokes(words[j]).len() && (#[trigger] stroke_codes(
                strokes(words[j])[m],
            )) is Some && stroke_codes(strokes(words[j])[m])->0.len() <= 30 ==> (spec_stroke_entries(
                words,
                strokes,
            ) matches Ok(entries) ==> entries.contains(
                stroke_row_of(words[j], stroke_codes(strokes(words[j])[m])->0),
            )),
{
    assert forall|j: int, m: int|
        0 <= j < words.len() && 0 <= m < strokes(words[j]).len() && (#[trigger] stroke_codes(
            strokes(words[j])[m],
        )) is Some && stroke_codes(strokes(words[j])[m])->0.len() <= 30 implies (
        spec_stroke_entries(words, strokes) matches Ok(entries) ==> entries.contains(
            stroke_row_of(words[j], stroke_codes(strokes(words[j])[m])->0),
        )) by {
        let entry = stroke_row_of(words[j], stroke_codes(strokes(words[j])[m])->0);
        if let Ok(entries) = spec_stroke_entries(words, strokes) {
            lemma_word_stroke_entries_complete(words[j], strokes(words[j]), m);
            lemma_stroke_entries_error(words, strokes);
            lemma_stroke_candidates_ok_words(words, strokes, j);
            lemma_stroke_candidates_complete(words, strokes, j, entry);
            let all = stroke_candidates(words, strokes)->Ok_0;
            lemma_first_occurrences(all);
        }
    }
}

proof fn lemma_stroke_candidates_ok_words(words: Seq<Seq<char>>, strokes: spec_fn(Seq<char>) -> Seq<Seq<char>>, j: int)
    requires
        0 <= j < words.len(),
        stroke_candidates(words, strokes) is Ok,
    ensures
        word_stroke_entries(words[j], strokes(words[j])) is Ok,
    decreases words.len(),
{
    let previous = words.drop_last();
    if j < words.len() - 1 {
        assert(previous[j] == words[j]);
        lemma_stroke_candidates_ok_words(previous, strokes, j);
    } else {
        assert(words.last() == words[j]);
    }
}

} // verus!
