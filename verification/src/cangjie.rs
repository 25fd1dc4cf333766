//! The Cangjie and Quick (abbreviated Cangjie) tables of the input method:
//! the codes of versions 5 and 3 of each word of the Jyutping lexicon.

use vstd::prelude::*;
use crate::codes::{count_chars, quick_code_chars, serial_code_chars, spec_quick_code, spec_serial_code};
use crate::maps::TextMap;
use crate::plan::{row_view, rows_view, DatabasePlan, SqlValue, SqlValueView, StepView};
use crate::text::{string_of, texts_view};
use crate::text_index::TextIndex;
use crate::words::{
    first_occurrences, jyutping_words, lemma_first_occurrences, lemma_first_occurrences_absorb,
    lemma_jyutping_words_bounded, spec_jyutping_words,
};

verus! {

/// A word with its Cangjie codes of versions 5 and 3.
#[derive(Clone, Debug, PartialEq, Eq)]
pub struct CangjieEntry {
    pub word: String,
    pub cangjie5: String,
    pub c5complex: i64,
    pub c5code: i64,
    pub cangjie3: String,
    pub c3complex: i64,
    pub c3code: i64,
}

/// The model of a [`CangjieEntry`].
pub struct CangjieEntryView {
    pub word: Seq<char>,
    pub cangjie5: Seq<char>,
    pub c5complex: i64,
    pub c5code: i64,
    pub cangjie3: Seq<char>,
    pub c3complex: i64,
    pub c3code: i64,
}

impl View for CangjieEntry {
    type V = CangjieEntryView;

    open spec fn view(&self) -> CangjieEntryView {
        CangjieEntryView {
            word: self.word@,
            cangjie5: self.cangjie5@,
            c5complex: self.c5complex,
            c5code: self.c5code,
            cangjie3: self.cangjie3@,
            c3complex: self.c3complex,
            c3code: self.c3code,
        }
    }
}

/// A word with its Quick codes of versions 5 and 3.
#[derive(Clone, Debug, PartialEq, Eq)]
pub struct QuickEntry {
    pub word: String,
    pub quick5: String,
    pub q5complex: i64,
    pub q5code: i64,
    pub quick3: String,
    pub q3complex: i64,
    pub q3code: i64,
}

/// The model of a [`QuickEntry`].
pub struct QuickEntryView {
    pub word: Seq<char>,
    pub quick5: Seq<char>,
    pub q5complex: i64,
    pub q5code: i64,
    pub quick3: Seq<char>,
    pub q3complex: i64,
    pub q3code: i64,
}

impl View for QuickEntry {
    type V = QuickEntryView;

    open spec fn view(&self) -> QuickEntryView {
        QuickEntryView {
            word: self.word@,
            quick5: self.quick5@,
            q5complex: self.q5complex,
            q5code: self.q5code,
            quick3: self.quick3@,
            q3complex: self.q3complex,
            q3code: self.q3code,
        }
    }
}

/// The models of Cangjie entries.
pub open spec fn cangjie_views(entries: Seq<CangjieEntry>) -> Seq<CangjieEntryView> {
    entries.map_values(|entry: CangjieEntry| entry@)
}

/// The models of Quick entries.
pub open spec fn quick_views(entries: Seq<QuickEntry>) -> Seq<QuickEntryView> {
    entries.map_values(|entry: QuickEntry| entry@)
}

/// The code at `index` among `codes`, or `X` past their end.
pub open spec fn pick_code(codes: Seq<Seq<char>>, index: int) -> Seq<char> {
    if 0 <= index < codes.len() {
        codes[index]
    } else {
        seq!['X']
    }
}

/// The larger of two lengths.
pub open spec fn larger(a: nat, b: nat) -> nat {
    if a >= b {
        a
    } else {
        b
    }
}

/// The Cangjie entry of a word with the given codes: each code with its
/// number of characters and its serial code.
pub open spec fn cangjie_entry(word: Seq<char>, code5: Seq<char>, code3: Seq<char>) -> CangjieEntryView {
    CangjieEntryView {
        word,
        cangjie5: code5,
        c5complex: code5.len() as i64,
        c5code: spec_serial_code(code5),
        cangjie3: code3,
        c3complex: code3.len() as i64,
        c3code: spec_serial_code(code3),
    }
}

/// The Cangjie entries of one word: the codes of the two versions paired by
/// position, the shorter list filled up with `X`.
pub open spec fn word_cangjie_entries(word: Seq<char>, codes5: Seq<Seq<char>>, codes3: Seq<Seq<char>>) -> Seq<
    CangjieEntryView,
> {
    Seq::new(
        larger(codes5.len(), codes3.len()),
        |index: int| cangjie_entry(word, pick_code(codes5, index), pick_code(codes3, index)),
    )
}

/// The Cangjie entries of the words, word after word.
pub open spec fn cangjie_candidates(
    words: Seq<Seq<char>>,
    cangjie5: spec_fn(Seq<char>) -> Seq<Seq<char>>,
    cangjie3: spec_fn(Seq<char>) -> Seq<Seq<char>>,
) -> Seq<CangjieEntryView>
    decreases words.len(),
{
    if words.len() == 0 {
        Seq::empty()
    } else {
        cangjie_candidates(words.drop_last(), cangjie5, cangjie3) + word_cangjie_entries(
            words.last(),
            cangjie5(words.last()),
            cangjie3(words.last()),
        )
    }
}

/// The distinct Cangjie entries of the words, in order.
pub open spec fn spec_cangjie_entries(
    words: Seq<Seq<char>>,
    cangjie5: spec_fn(Seq<char>) -> Seq<Seq<char>>,
    cangjie3: spec_fn(Seq<char>) -> Seq<Seq<char>>,
) -> Seq<CangjieEntryView> {
    first_occurrences(cangjie_candidates(words, cangjie5, cangjie3))
}

/// The row of a Cangjie entry.
pub open spec fn cangjie_row(entry: CangjieEntryView) -> Seq<SqlValueView> {
    seq![
        SqlValueView::Text(entry.word),
        SqlValueView::Text(entry.cangjie5),
        SqlValueView::Integer(entry.c5complex),
        SqlValueView::Integer(entry.c5code),
        SqlValueView::Text(entry.cangjie3),
        SqlValueView::Integer(entry.c3complex),
        SqlValueView::Integer(entry.c3code),
    ]
}

/// The Cangjie entry of a word with the given codes (see
/// [`cangjie_entry`]).
fn make_cangjie_entry(word: &[char], code5: &[char], code3: &[char]) -> (result: CangjieEntry)
    requires
        code5@.len() <= i64::MAX,
        code3@.len() <= i64::MAX,
    ensures
        result@ == cangjie_entry(word@, code5@, code3@),
{
    CangjieEntry {
        word: string_of(word),
        cangjie5: string_of(code5),
        c5complex: count_chars(code5),
        c5code: serial_code_chars(code5),
        cangjie3: string_of(code3),
        c3complex: count_chars(code3),
        c3code: serial_code_chars(code3),
    }
}

/// Whether `entry` is among the entries from position `start` on.
fn contains_cangjie_from(entries: &Vec<CangjieEntry>, start: usize, entry: &CangjieEntry) -> (result: bool)
    requires
        start <= entries@.len(),
    ensures
        result == cangjie_views(entries@).subrange(start as int, entries@.len() as int).contains(
            entry@,
        ),
{
    let ghost tail = cangjie_views(entries@).subrange(start as int, entries@.len() as int);
    let mut i: usize = start;
    while i < entries.len()
        invariant
            start <= i <= entries.len(),
            tail == cangjie_views(entries@).subrange(start as int, entries@.len() as int),
            forall|j: int| start <= j < i ==> entries@[j]@ != entry@,
        decreases entries.len() - i,
    {
        let other = &entries[i];
        if other.word == entry.word && other.cangjie5 == entry.cangjie5 && other.c5complex
            == entry.c5complex && other.c5code == entry.c5code && other.cangjie3 == entry.cangjie3
            && other.c3complex == entry.c3complex && other.c3code == entry.c3code {
            assert(tail[i - start] == entry@);
            return true;
        }
        i = i + 1;
    }
    proof {
        if tail.contains(entry@) {
            let j = choose|j: int| 0 <= j < tail.len() && tail[j] == entry@;
            assert(entries@[j + start]@ == entry@);
        }
    }
    false
}

/// The code at `index` among `codes`, or `X` past their end.
fn code_at(codes: &Vec<Vec<char>>, index: usize) -> (result: Vec<char>)
    ensures
        result@ == pick_code(texts_view(codes@), index as int),
{
    if index < codes.len() {
        assert(texts_view(codes@)[index as int] == codes@[index as int]@);
        codes[index].clone()
    } else {
        let mut code: Vec<char> = Vec::new();
        code.push('X');
        assert(code@ =~= seq!['X']);
        code
    }
}

/// The texts stored for a word, or none.
fn codes_for<'a>(map: &'a TextMap, word: &[char], none: &'a Vec<Vec<char>>) -> (result: &'a Vec<
    Vec<char>,
>)
    requires
        none@.len() == 0,
    ensures
        texts_view(result@) == map.values_of(word@),
{
    match map.get(word) {
        Some(codes) => codes,
        None => {
            assert(texts_view(none@) =~= Seq::<Seq<char>>::empty());
            none
        },
    }
}

/// The distinct Cangjie entries of the words, in order (see
/// [`spec_cangjie_entries`]).
pub fn cangjie_entries(words: &Vec<Vec<char>>, cangjie5: &TextMap, cangjie3: &TextMap) -> (result: Vec<
    CangjieEntry,
>)
    requires
        forall|key: Seq<char>, i: int|
            0 <= i < cangjie5.values_of(key).len() ==> #[trigger] cangjie5.values_of(key)[i].len()
                <= i64::MAX,
        forall|key: Seq<char>, i: int|
            0 <= i < cangjie3.values_of(key).len() ==> #[trigger] cangjie3.values_of(key)[i].len()
                <= i64::MAX,
    ensures
        cangjie_views(result@) == spec_cangjie_entries(
            texts_view(words@),
            cangjie5.lookup(),
            cangjie3.lookup(),
        ),
{
    let ghost all = texts_view(words@);
    let none: Vec<Vec<char>> = Vec::new();
    let mut entries: Vec<CangjieEntry> = Vec::new();
    let mut seen = TextIndex::new();
    let mut i: usize = 0;
    assert(all.take(0) =~= Seq::<Seq<char>>::empty());
    assert(cangjie_views(entries@) =~= Seq::<CangjieEntryView>::empty());
    while i < words.len()
        invariant
            i <= words.len(),
            all == texts_view(words@),
            none@.len() == 0,
            forall|key: Seq<char>, k: int|
                0 <= k < cangjie5.values_of(key).len() ==> #[trigger] cangjie5.values_of(key)[k].len()
                    <= i64::MAX,
            forall|key: Seq<char>, k: int|
                0 <= k < cangjie3.values_of(key).len() ==> #[trigger] cangjie3.values_of(key)[k].len()
                    <= i64::MAX,
            seen.well_formed(),
            seen@ == all.take(i as int),
            cangjie_views(entries@) == first_occurrences(
                cangjie_candidates(all.take(i as int), cangjie5.lookup(), cangjie3.lookup()),
            ),
        decreases words.len() - i,
    {
        let word = &words[i];
        assert(all[i as int] == word@);
        let codes5 = codes_for(cangjie5, word, &none);
        let codes3 = codes_for(cangjie3, word, &none);
        let ghost taken = all.take(i as int);
        let ghost before = cangjie_candidates(taken, cangjie5.lookup(), cangjie3.lookup());
        let ghost own = word_cangjie_entries(word@, texts_view(codes5@), texts_view(codes3@));
        assert(all.take(i + 1).drop_last() =~= taken);
        assert(all.take(i + 1).last() == word@);
        assert(cangjie5.lookup()(word@) == texts_view(codes5@));
        assert(cangjie3.lookup()(word@) == texts_view(codes3@));
        assert(cangjie_candidates(all.take(i + 1), cangjie5.lookup(), cangjie3.lookup()) == before
            + own);
        let start = entries.len();
        match seen.find(word) {
            Some(j) => {
                proof {
                    assert(taken[j as int] == word@);
                    assert forall|k: int| 0 <= k < own.len() implies before.contains(#[trigger] own[k]) by {
                        assert(own[k] == code_pair_entry(taken[j as int], cangjie5.lookup(), cangjie3.lookup(), k));
                        lemma_cangjie_candidates_members(taken, cangjie5.lookup(), cangjie3.lookup(), own[k]);
                    }
                    lemma_first_occurrences_absorb(before, own);
                }
            },
            None => {
                proof {
                    lemma_first_occurrences(before);
                    assert forall|k: int| 0 <= k < start implies (#[trigger] cangjie_views(entries@)[k]).word
                        != word@ by {
                        let entry = cangjie_views(entries@)[k];
                        assert(first_occurrences(before).contains(entry));
                        lemma_cangjie_candidates_members(taken, cangjie5.lookup(), cangjie3.lookup(), entry);
                        let (w, index) = choose|w: int, index: int|
                            0 <= w < taken.len() && 0 <= index < larger(
                                cangjie5.lookup()(taken[w]).len(),
                                cangjie3.lookup()(taken[w]).len(),
                            ) && entry == #[trigger] code_pair_entry(taken[w], cangjie5.lookup(), cangjie3.lookup(), index);
                        assert(entry.word == taken[w]);
                        assert(taken.contains(taken[w]));
                    }
                }
                let count = if codes5.len() >= codes3.len() {
                    codes5.len()
                } else {
                    codes3.len()
                };
                let mut index: usize = 0;
                assert(before + own.take(0) =~= before);
                assert forall|k: int| 0 <= k < codes5@.len() implies #[trigger] codes5@[k]@.len()
                    <= i64::MAX by {
                    assert(texts_view(codes5@)[k] == codes5@[k]@);
                    assert(cangjie5.values_of(word@)[k].len() <= i64::MAX);
                }
                assert forall|k: int| 0 <= k < codes3@.len() implies #[trigger] codes3@[k]@.len()
                    <= i64::MAX by {
                    assert(texts_view(codes3@)[k] == codes3@[k]@);
                    assert(cangjie3.values_of(word@)[k].len() <= i64::MAX);
                }
                while index < count
                    invariant
                        index <= count,
                        count == own.len(),
                        own == word_cangjie_entries(word@, texts_view(codes5@), texts_view(codes3@)),
                        forall|k: int| 0 <= k < codes5@.len() ==> #[trigger] codes5@[k]@.len() <= i64::MAX,
                        forall|k: int| 0 <= k < codes3@.len() ==> #[trigger] codes3@[k]@.len() <= i64::MAX,
                        start <= entries@.len(),
                        forall|k: int| 0 <= k < start ==> (#[trigger] cangjie_views(entries@)[k]).word
                            != word@,
                        cangjie_views(entries@) == first_occurrences(before + own.take(index as int)),
                    decreases count - index,
                {
                    let code5 = code_at(codes5, index);
                    let code3 = code_at(codes3, index);
                    proof {
                        if (index as int) < codes5@.len() {
                            assert(texts_view(codes5@)[index as int] == codes5@[index as int]@);
                        }
                        if (index as int) < codes3@.len() {
                            assert(texts_view(codes3@)[index as int] == codes3@[index as int]@);
                        }
                    }
                    let entry = make_cangjie_entry(word, &code5, &code3);
                    assert(entry@ == own[index as int]);
                    assert(before + own.take(index + 1) =~= (before + own.take(index as int)).push(entry@));
                    assert((before + own.take(index as int)).push(entry@).drop_last() =~= before + own.take(
                        index as int,
                    ));
                    let ghost previous = entries@;
                    let ghost views = cangjie_views(entries@);
                    let found = contains_cangjie_from(&entries, start, &entry);
                    proof {
                        let tail = views.subrange(start as int, views.len() as int);
                        if views.contains(entry@) {
                            let j = choose|j: int| 0 <= j < views.len() && views[j] == entry@;
                            if j < start {
                                assert(views[j].word == word@);
                            }
                            assert(tail[j - start] == entry@);
                        }
                        if tail.contains(entry@) {
                            let j = choose|j: int| 0 <= j < tail.len() && tail[j] == entry@;
                            assert(views[j + start] == entry@);
                        }
                    }
                    if !found {
                        entries.push(entry);
                        assert(cangjie_views(entries@) =~= cangjie_views(previous).push(entry@));
                        assert forall|k: int| 0 <= k < start implies (#[trigger] cangjie_views(entries@)[k]).word
                            != word@ by {
                            assert(cangjie_views(entries@)[k] == views[k]);
                        }
                    }
                    index = index + 1;
                }
                assert(own.take(count as int) =~= own);
            },
        }
        seen.push(word.clone());
        assert(seen@ =~= all.take(i + 1));
        i = i + 1;
    }
    assert(all.take(words.len() as int) =~= all);
    entries
}

/// The statement that inserts a Cangjie entry.
pub const CANGJIE_INSERT: &'static str = "INSERT INTO cangjie_table (word, cangjie5, c5complex, c5code, cangjie3, c3complex, c3code) VALUES (?, ?, ?, ?, ?, ?, ?)";

/// The insertion of the Cangjie entries of the distinct single-character
/// words of the lexicon lines.
pub open spec fn cangjie_step(
    lines: Seq<Seq<char>>,
    cangjie5: spec_fn(Seq<char>) -> Seq<Seq<char>>,
    cangjie3: spec_fn(Seq<char>) -> Seq<Seq<char>>,
) -> StepView {
    StepView::Insert {
        statement: CANGJIE_INSERT@,
        rows: spec_cangjie_entries(spec_jyutping_words(lines, true), cangjie5, cangjie3).map_values(
            |entry: CangjieEntryView| cangjie_row(entry),
        ),
    }
}

/// Fills the Cangjie table: for each distinct single-character word of the
/// lexicon lines, its codes of versions 5 and 3 paired by position (the
/// shorter list filled up with `X`), each distinct entry once.
pub fn insert_cangjie(
    plan: &mut DatabasePlan,
    jyutping_lines: &Vec<Vec<char>>,
    cangjie5: &TextMap,
    cangjie3: &TextMap,
)
    requires
        forall|key: Seq<char>, i: int|
            0 <= i < cangjie5.values_of(key).len() ==> #[trigger] cangjie5.values_of(key)[i].len()
                <= i64::MAX,
        forall|key: Seq<char>, i: int|
            0 <= i < cangjie3.values_of(key).len() ==> #[trigger] cangjie3.values_of(key)[i].len()
                <= i64::MAX,
    ensures
        final(plan)@ == old(plan)@.push(
            cangjie_step(texts_view(jyutping_lines@), cangjie5.lookup(), cangjie3.lookup()),
        ),
{
    let words = jyutping_words(jyutping_lines, true);
    let entries = cangjie_entries(&words, cangjie5, cangjie3);
    let ghost all = cangjie_views(entries@);
    let mut rows: Vec<Vec<SqlValue>> = Vec::new();
    let mut i: usize = 0;
    while i < entries.len()
        invariant
            i <= entries.len(),
            all == cangjie_views(entries@),
            rows_view(rows@) == all.take(i as int).map_values(
                |entry: CangjieEntryView| cangjie_row(entry),
            ),
        decreases entries.len() - i,
    {
        let entry = &entries[i];
        let mut row: Vec<SqlValue> = Vec::new();
        row.push(SqlValue::Text(entry.word.clone()));
        row.push(SqlValue::Text(entry.cangjie5.clone()));
        row.push(SqlValue::Integer(entry.c5complex));
        row.push(SqlValue::Integer(entry.c5code));
        row.push(SqlValue::Text(entry.cangjie3.clone()));
        row.push(SqlValue::Integer(entry.c3complex));
        row.push(SqlValue::Integer(entry.c3code));
        assert(all[i as int] == entry@);
        assert(row_view(row@) =~= cangjie_row(entry@));
        let ghost previous = rows@;
        rows.push(row);
        i = i + 1;
        assert(rows_view(rows@) =~= rows_view(previous).push(cangjie_row(entry@)));
        assert(all.take(i as int).map_values(|entry: CangjieEntryView| cangjie_row(entry))
            =~= all.take(i - 1).map_values(|entry: CangjieEntryView| cangjie_row(entry)).push(
            cangjie_row(entry@),
        ));
    }
    assert(all.take(entries.len() as int) =~= all);
    plan.insert(CANGJIE_INSERT, rows);
}


/// The Quick entry of a word with the given codes: each code with its
/// number of characters and its serial code.
pub open spec fn quick_entry(word: Seq<char>, quick5: Seq<char>, quick3: Seq<char>) -> QuickEntryView {
    QuickEntryView {
        word,
        quick5,
        q5complex: quick5.len() as i64,
        q5code: spec_serial_code(quick5),
        quick3,
        q3complex: quick3.len() as i64,
        q3code: spec_serial_code(quick3),
    }
}

/// The Quick code of a character: the abbreviation of its first Cangjie
/// code, or `X` when it has none.
pub open spec fn first_quick(codes: spec_fn(Seq<char>) -> Seq<Seq<char>>, character: char) -> Seq<char> {
    if codes(seq![character]).len() > 0 {
        spec_quick_code(codes(seq![character])[0])
    } else {
        seq!['X']
    }
}

/// The Quick codes of the characters of a word, joined.
pub open spec fn quick_concat(word: Seq<char>, codes: spec_fn(Seq<char>) -> Seq<Seq<char>>) -> Seq<char>
    decreases word.len(),
{
    if word.len() == 0 {
        Seq::empty()
    } else {
        quick_concat(word.drop_last(), codes) + first_quick(codes, word.last())
    }
}

/// The Quick entries of one word: for a single character, the
/// abbreviations of its codes of the two versions paired by position (the
/// shorter list filled up with `X`); for any other word, one entry with the
/// joined Quick codes of its characters.
pub open spec fn word_quick_entries(
    word: Seq<char>,
    cangjie5: spec_fn(Seq<char>) -> Seq<Seq<char>>,
    cangjie3: spec_fn(Seq<char>) -> Seq<Seq<char>>,
) -> Seq<QuickEntryView> {
    if word.len() == 1 {
        Seq::new(
            larger(cangjie5(word).len(), cangjie3(word).len()),
            |index: int|
                quick_entry(
                    word,
                    spec_quick_code(pick_code(cangjie5(word), index)),
                    spec_quick_code(pick_code(cangjie3(word), index)),
                ),
        )
    } else {
        seq![quick_entry(word, quick_concat(word, cangjie5), quick_concat(word, cangjie3))]
    }
}

/// The Quick entries of the words, word after word.
pub open spec fn quick_candidates(
    words: Seq<Seq<char>>,
    cangjie5: spec_fn(Seq<char>) -> Seq<Seq<char>>,
    cangjie3: spec_fn(Seq<char>) -> Seq<Seq<char>>,
) -> Seq<QuickEntryView>
    decreases words.len(),
{
    if words.len() == 0 {
        Seq::empty()
    } else {
        quick_candidates(words.drop_last(), cangjie5, cangjie3) + word_quick_entries(
            words.last(),
            cangjie5,
            cangjie3,
        )
    }
}

/// The distinct Quick entries of the words, in order.
pub open spec fn spec_quick_entries(
    words: Seq<Seq<char>>,
    cangjie5: spec_fn(Seq<char>) -> Seq<Seq<char>>,
    cangjie3: spec_fn(Seq<char>) -> Seq<Seq<char>>,
) -> Seq<QuickEntryView> {
    first_occurrences(quick_candidates(words, cangjie5, cangjie3))
}

/// The row of a Quick entry.
pub open spec fn quick_row(entry: QuickEntryView) -> Seq<SqlValueView> {
    seq![
        SqlValueView::Text(entry.word),
        SqlValueView::Text(entry.quick5),
        SqlValueView::Integer(entry.q5complex),
        SqlValueView::Integer(entry.q5code),
        SqlValueView::Text(entry.quick3),
        SqlValueView::Integer(entry.q3complex),
        SqlValueView::Integer(entry.q3code),
    ]
}

proof fn lemma_quick_code_short(cangjie: Seq<char>)
    ensures
        spec_quick_code(cangjie).len() <= 2,
{
}

/// The joined Quick codes of a word have at most two characters for each
/// of its characters.
pub proof fn lemma_quick_concat_len(word: Seq<char>, codes: spec_fn(Seq<char>) -> Seq<Seq<char>>)
    ensures
        quick_concat(word, codes).len() <= 2 * word.len(),
    decreases word.len(),
{
    if word.len() > 0 {
        lemma_quick_concat_len(word.drop_last(), codes);
        if codes(seq![word.last()]).len() > 0 {
            lemma_quick_code_short(codes(seq![word.last()])[0]);
        }
    }
}

/// The Quick code of a character: the abbreviation of its first Cangjie
/// code in `map`, or `X` when it has none.
pub fn first_quick_code(map: &TextMap, character: char) -> (result: Vec<char>)
    ensures
        result@ == first_quick(map.lookup(), character),
{
    let mut key: Vec<char> = Vec::new();
    key.push(character);
    assert(key@ =~= seq![character]);
    match map.get(&key) {
        Some(codes) => {
            assert(texts_view(codes@)[0] == codes@[0]@);
            quick_code_chars(&codes[0])
        },
        None => {
            let mut code: Vec<char> = Vec::new();
            code.push('X');
            assert(code@ =~= seq!['X']);
            code
        },
    }
}

/// The joined Quick codes of the characters of a word (see
/// [`quick_concat`]).
fn word_quick_concat(word: &[char], map: &TextMap) -> (result: Vec<char>)
    ensures
        result@ == quick_concat(word@, map.lookup()),
{
    let mut result: Vec<char> = Vec::new();
    let mut i: usize = 0;
    while i < word.len()
        invariant
            i <= word.len(),
            result@ == quick_concat(word@.take(i as int), map.lookup()),
        decreases word.len() - i,
    {
        let code = first_quick_code(map, word[i]);
        let ghost before = result@;
        let mut k: usize = 0;
        while k < code.len()
            invariant
                k <= code.len(),
                result@ == before + code@.take(k as int),
            decreases code.len() - k,
        {
            result.push(code[k]);
            k = k + 1;
            assert(result@ =~= before + code@.take(k as int));
        }
        assert(code@.take(code.len() as int) =~= code@);
        assert(word@.take(i + 1).drop_last() =~= word@.take(i as int));
        i = i + 1;
    }
    assert(word@.take(word.len() as int) =~= word@);
    result
}

/// Whether `entry` is among the entries from position `start` on.
fn contains_quick_from(entries: &Vec<QuickEntry>, start: usize, entry: &QuickEntry) -> (result: bool)
    requires
        start <= entries@.len(),
    ensures
        result == quick_views(entries@).subrange(start as int, entries@.len() as int).contains(entry@),
{
    let ghost tail = quick_views(entries@).subrange(start as int, entries@.len() as int);
    let mut i: usize = start;
    while i < entries.len()
        invariant
            start <= i <= entries.len(),
            tail == quick_views(entries@).subrange(start as int, entries@.len() as int),
            forall|j: int| start <= j < i ==> entries@[j]@ != entry@,
        decreases entries.len() - i,
    {
        let other = &entries[i];
        if other.word == entry.word && other.quick5 == entry.quick5 && other.q5complex
            == entry.q5complex && other.q5code == entry.q5code && other.quick3 == entry.quick3
            && other.q3complex == entry.q3complex && other.q3code == entry.q3code {
            assert(tail[i - start] == entry@);
            return true;
        }
        i = i + 1;
    }
    proof {
        if tail.contains(entry@) {
            let j = choose|j: int| 0 <= j < tail.len() && tail[j] == entry@;
            assert(entries@[j + start]@ == entry@);
        }
    }
    false
}

/// The Quick entry of a word with the given codes.
fn make_quick_entry(word: &[char], quick5: Vec<char>, quick3: Vec<char>) -> (result: QuickEntry)
    requires
        quick5@.len() <= i64::MAX,
        quick3@.len() <= i64::MAX,
    ensures
        result@ == quick_entry(word@, quick5@, quick3@),
{
    QuickEntry {
        word: string_of(word),
        q5complex: count_chars(&quick5),
        q5code: serial_code_chars(&quick5),
        q3complex: count_chars(&quick3),
        q3code: serial_code_chars(&quick3),
        quick5: string_of(&quick5),
        quick3: string_of(&quick3),
    }
}

/// Adds the Quick entry of a word with the given codes unless an equal
/// entry is there already, looking only from position `start` on: no
/// entry before it is of the same word.
fn push_quick_entry_after(
    entries: &mut Vec<QuickEntry>,
    start: usize,
    word: &[char],
    quick5: Vec<char>,
    quick3: Vec<char>,
)
    requires
        start <= old(entries)@.len(),
        forall|k: int| 0 <= k < start ==> (#[trigger] quick_views(old(entries)@)[k]).word != word@,
        quick5@.len() <= i64::MAX,
        quick3@.len() <= i64::MAX,
    ensures
        quick_views(final(entries)@) == if quick_views(old(entries)@).contains(
            quick_entry(word@, quick5@, quick3@),
        ) {
            quick_views(old(entries)@)
        } else {
            quick_views(old(entries)@).push(quick_entry(word@, quick5@, quick3@))
        },
{
    let entry = make_quick_entry(word, quick5, quick3);
    let ghost all = quick_views(entries@);
    let found = contains_quick_from(entries, start, &entry);
    proof {
        let tail = all.subrange(start as int, all.len() as int);
        if all.contains(entry@) {
            let j = choose|j: int| 0 <= j < all.len() && all[j] == entry@;
            if j < start {
                assert(all[j].word == word@);
            }
            assert(tail[j - start] == entry@);
        }
        if tail.contains(entry@) {
            let j = choose|j: int| 0 <= j < tail.len() && tail[j] == entry@;
            assert(all[j + start] == entry@);
        }
    }
    if !found {
        let ghost previous = entries@;
        entries.push(entry);
        assert(quick_views(entries@) =~= quick_views(previous).push(entry@));
    }
}

/// Adds the Quick entry of a word with the given codes, unless an equal
/// entry is there already.
pub fn push_quick_entry(entries: &mut Vec<QuickEntry>, word: &[char], quick5: Vec<char>, quick3: Vec<char>)
    requires
        quick5@.len() <= i64::MAX,
        quick3@.len() <= i64::MAX,
    ensures
        quick_views(final(entries)@) == if quick_views(old(entries)@).contains(
            quick_entry(word@, quick5@, quick3@),
        ) {
            quick_views(old(entries)@)
        } else {
            quick_views(old(entries)@).push(quick_entry(word@, quick5@, quick3@))
        },
{
    let entry = make_quick_entry(word, quick5, quick3);
    let found = contains_quick_from(entries, 0, &entry);
    assert(quick_views(entries@).subrange(0, entries@.len() as int) =~= quick_views(entries@));
    if !found {
        let ghost previous = entries@;
        entries.push(entry);
        assert(quick_views(entries@) =~= quick_views(previous).push(entry@));
    }
}

proof fn lemma_word_quick_entries_word(
    word: Seq<char>,
    cangjie5: spec_fn(Seq<char>) -> Seq<Seq<char>>,
    cangjie3: spec_fn(Seq<char>) -> Seq<Seq<char>>,
)
    ensures
        forall|k: int| 0 <= k < word_quick_entries(word, cangjie5, cangjie3).len()
            ==> (#[trigger] word_quick_entries(word, cangjie5, cangjie3)[k]).word == word,
{
}

proof fn lemma_quick_candidates_words(
    words: Seq<Seq<char>>,
    cangjie5: spec_fn(Seq<char>) -> Seq<Seq<char>>,
    cangjie3: spec_fn(Seq<char>) -> Seq<Seq<char>>,
)
    ensures
        forall|k: int| 0 <= k < quick_candidates(words, cangjie5, cangjie3).len() ==> words.contains(
            (#[trigger] quick_candidates(words, cangjie5, cangjie3)[k]).word,
        ),
    decreases words.len(),
{
    if words.len() > 0 {
        let previous = words.drop_last();
        lemma_quick_candidates_words(previous, cangjie5, cangjie3);
        lemma_word_quick_entries_word(words.last(), cangjie5, cangjie3);
        let before = quick_candidates(previous, cangjie5, cangjie3);
        let own = word_quick_entries(words.last(), cangjie5, cangjie3);
        let all = quick_candidates(words, cangjie5, cangjie3);
        assert(all == before + own);
        assert forall|k: int| 0 <= k < all.len() implies words.contains((#[trigger] all[k]).word) by {
            if k < before.len() {
                assert(all[k] == before[k]);
                let j = choose|j: int| 0 <= j < previous.len() && previous[j] == before[k].word;
                assert(words[j] == previous[j]);
            } else {
                assert(all[k] == own[k - before.len()]);
                assert(words[words.len() - 1] == words.last());
            }
        }
    }
}

proof fn lemma_quick_candidates_cover(
    words: Seq<Seq<char>>,
    cangjie5: spec_fn(Seq<char>) -> Seq<Seq<char>>,
    cangjie3: spec_fn(Seq<char>) -> Seq<Seq<char>>,
    j: int,
)
    requires
        0 <= j < words.len(),
    ensures
        forall|k: int| 0 <= k < word_quick_entries(words[j], cangjie5, cangjie3).len()
            ==> quick_candidates(words, cangjie5, cangjie3).contains(
            #[trigger] word_quick_entries(words[j], cangjie5, cangjie3)[k],
        ),
    decreases words.len(),
{
    let previous = words.drop_last();
    let before = quick_candidates(previous, cangjie5, cangjie3);
    let own = word_quick_entries(words.last(), cangjie5, cangjie3);
    let all = quick_candidates(words, cangjie5, cangjie3);
    assert(all == before + own);
    if j == words.len() - 1 {
        assert forall|k: int| 0 <= k < own.len() implies all.contains(#[trigger] own[k]) by {
            assert(all[before.len() + k] == own[k]);
        }
    } else {
        lemma_quick_candidates_cover(previous, cangjie5, cangjie3, j);
        assert(previous[j] == words[j]);
        let mine = word_quick_entries(words[j], cangjie5, cangjie3);
        assert forall|k: int| 0 <= k < mine.len() implies all.contains(#[trigger] mine[k]) by {
            assert(before.contains(mine[k]));
            let m = choose|m: int| 0 <= m < before.len() && before[m] == mine[k];
            assert(all[m] == mine[k]);
        }
    }
}

/// The Quick entry of a one-character `word` at position `index` of its
/// codes of the two versions, written out: the abbreviation of the code of
/// each version at that position (`X` past the end of its list), with its
/// number of characters and its serial code.
pub open spec fn quick_row_at(word: Seq<char>, codes5: Seq<Seq<char>>, codes3: Seq<Seq<char>>, index: int) -> QuickEntryView {
    let quick5 = spec_quick_code(
        if index < codes5.len() {
            codes5[index]
        } else {
            seq!['X']
        },
    );
    let quick3 = spec_quick_code(
        if index < codes3.len() {
            codes3[index]
        } else {
            seq!['X']
        },
    );
    QuickEntryView {
        word,
        quick5,
        q5complex: quick5.len() as i64,
        q5code: spec_serial_code(quick5),
        quick3,
        q3complex: quick3.len() as i64,
        q3code: spec_serial_code(quick3),
    }
}

/// The Quick entry of a word of several (or no) characters, written out:
/// the joined Quick codes of its characters in each version, with their
/// number of characters and serial codes.
pub open spec fn quick_row_joined(
    word: Seq<char>,
    cangjie5: spec_fn(Seq<char>) -> Seq<Seq<char>>,
    cangjie3: spec_fn(Seq<char>) -> Seq<Seq<char>>,
) -> QuickEntryView {
    let quick5 = quick_concat(word, cangjie5);
    let quick3 = quick_concat(word, cangjie3);
    QuickEntryView {
        word,
        quick5,
        q5complex: quick5.len() as i64,
        q5code: spec_serial_code(quick5),
        quick3,
        q3complex: quick3.len() as i64,
        q3code: spec_serial_code(quick3),
    }
}

/// Whether `entry` is a Quick entry of `word`: for a single character, the
/// entry at a position of either version's codes; for any other word, its
/// joined entry.
pub open spec fn is_quick_entry_of(
    entry: QuickEntryView,
    word: Seq<char>,
    cangjie5: spec_fn(Seq<char>) -> Seq<Seq<char>>,
    cangjie3: spec_fn(Seq<char>) -> Seq<Seq<char>>,
) -> bool {
    if word.len() == 1 {
        exists|i: int|
            (0 <= i < cangjie5(word).len() || 0 <= i < cangjie3(word).len()) && entry
                == #[trigger] quick_row_at(word, cangjie5(word), cangjie3(word), i)
    } else {
        entry == quick_row_joined(word, cangjie5, cangjie3)
    }
}

proof fn lemma_word_quick_entries_are(
    word: Seq<char>,
    cangjie5: spec_fn(Seq<char>) -> Seq<Seq<char>>,
    cangjie3: spec_fn(Seq<char>) -> Seq<Seq<char>>,
)
    ensures
        forall|entry: QuickEntryView|
            word_quick_entries(word, cangjie5, cangjie3).contains(entry) <==> #[trigger] is_quick_entry_of(
                entry,
                word,
                cangjie5,
                cangjie3,
            ),
{
    let own = word_quick_entries(word, cangjie5, cangjie3);
    assert forall|entry: QuickEntryView|
        own.contains(entry) <==> #[trigger] is_quick_entry_of(entry, word, cangjie5, cangjie3) by {
        if word.len() == 1 {
            if own.contains(entry) {
                let k = choose|k: int| 0 <= k < own.len() && own[k] == entry;
                assert(entry == quick_row_at(word, cangjie5(word), cangjie3(word), k));
            }
            if is_quick_entry_of(entry, word, cangjie5, cangjie3) {
                let i = choose|i: int|
                    (0 <= i < cangjie5(word).len() || 0 <= i < cangjie3(word).len()) && entry
                        == #[trigger] quick_row_at(word, cangjie5(word), cangjie3(word), i);
                assert(own[i] == entry);
            }
        } else {
            assert(own[0] == quick_row_joined(word, cangjie5, cangjie3));
        }
    }
}

proof fn lemma_quick_candidates_are(
    words: Seq<Seq<char>>,
    cangjie5: spec_fn(Seq<char>) -> Seq<Seq<char>>,
    cangjie3: spec_fn(Seq<char>) -> Seq<Seq<char>>,
    entry: QuickEntryView,
)
    ensures
        quick_candidates(words, cangjie5, cangjie3).contains(entry) <==> exists|j: int|
            0 <= j < words.len() && #[trigger] is_quick_entry_of(entry, words[j], cangjie5, cangjie3),
    decreases words.len(),
{
    if words.len() > 0 {
        let previous = words.drop_last();
        lemma_quick_candidates_are(previous, cangjie5, cangjie3, entry);
        lemma_word_quick_entries_are(words.last(), cangjie5, cangjie3);
        let before = quick_candidates(previous, cangjie5, cangjie3);
        let own = word_quick_entries(words.last(), cangjie5, cangjie3);
        let all = quick_candidates(words, cangjie5, cangjie3);
        assert(all == before + own);
        let last = words.len() - 1;
        assert(words[last] == words.last());
        if all.contains(entry) {
            let k = choose|k: int| 0 <= k < all.len() && all[k] == entry;
            if k < before.len() {
                assert(before[k] == entry);
                let j = choose|j: int|
                    0 <= j < previous.len() && #[trigger] is_quick_entry_of(entry, previous[j], cangjie5, cangjie3);
                assert(previous[j] == words[j]);
                assert(is_quick_entry_of(entry, words[j], cangjie5, cangjie3));
            } else {
                assert(own[k - before.len()] == entry);
                assert(is_quick_entry_of(entry, words[last], cangjie5, cangjie3));
            }
        }
        if exists|j: int| 0 <= j < words.len() && #[trigger] is_quick_entry_of(entry, words[j], cangjie5, cangjie3) {
            let j = choose|j: int|
                0 <= j < words.len() && #[trigger] is_quick_entry_of(entry, words[j], cangjie5, cangjie3);
            if j < last {
                assert(previous[j] == words[j]);
                assert(is_quick_entry_of(entry, previous[j], cangjie5, cangjie3));
                let k = choose|k: int| 0 <= k < before.len() && before[k] == entry;
                assert(all[k] == entry);
            } else {
                assert(own.contains(entry));
                let k = choose|k: int| 0 <= k < own.len() && own[k] == entry;
                assert(all[before.len() + k] == entry);
            }
        }
    }
}

/// The Quick table holds exactly the Quick entries of the words of the
/// list: for a single character, one entry for each position of either
/// version's codes, with the abbreviations of the codes at that position
/// (`X` past the end of a list); for any other word, its joined entry.
pub proof fn lemma_quick_entries_members(
    words: Seq<Seq<char>>,
    cangjie5: spec_fn(Seq<char>) -> Seq<Seq<char>>,
    cangjie3: spec_fn(Seq<char>) -> Seq<Seq<char>>,
)
    ensures
        forall|entry: QuickEntryView|
            #[trigger] spec_quick_entries(words, cangjie5, cangjie3).contains(entry) <==> exists|j: int|
                0 <= j < words.len() && #[trigger] is_quick_entry_of(entry, words[j], cangjie5, cangjie3),
        forall|j: int, i: int|
            0 <= j < words.len() && words[j].len() == 1 && (0 <= i < cangjie5(words[j]).len() || 0 <= i
                < cangjie3(words[j]).len()) ==> spec_quick_entries(words, cangjie5, cangjie3).contains(
                #[trigger] quick_row_at(words[j], cangjie5(words[j]), cangjie3(words[j]), i),
            ),
        forall|j: int|
            0 <= j < words.len() && words[j].len() != 1 ==> spec_quick_entries(words, cangjie5, cangjie3).contains(
                #[trigger] quick_row_joined(words[j], cangjie5, cangjie3),
            ),
{
    let table = spec_quick_entries(words, cangjie5, cangjie3);
    lemma_first_occurrences(quick_candidates(words, cangjie5, cangjie3));
    assert forall|entry: QuickEntryView|
        #[trigger] table.contains(entry) <==> exists|j: int|
            0 <= j < words.len() && #[trigger] is_quick_entry_of(entry, words[j], cangjie5, cangjie3) by {
        lemma_quick_candidates_are(words, cangjie5, cangjie3, entry);
    }
    assert forall|j: int, i: int|
        0 <= j < words.len() && words[j].len() == 1 && (0 <= i < cangjie5(words[j]).len() || 0 <= i
            < cangjie3(words[j]).len()) implies table.contains(
            #[trigger] quick_row_at(words[j], cangjie5(words[j]), cangjie3(words[j]), i),
        ) by {
        let entry = quick_row_at(words[j], cangjie5(words[j]), cangjie3(words[j]), i);
        assert(is_quick_entry_of(entry, words[j], cangjie5, cangjie3));
        lemma_quick_candidates_are(words, cangjie5, cangjie3, entry);
    }
    assert forall|j: int|
        0 <= j < words.len() && words[j].len() != 1 implies table.contains(
            #[trigger] quick_row_joined(words[j], cangjie5, cangjie3),
        ) by {
        let entry = quick_row_joined(words[j], cangjie5, cangjie3);
        assert(is_quick_entry_of(entry, words[j], cangjie5, cangjie3));
        lemma_quick_candidates_are(words, cangjie5, cangjie3, entry);
    }
}

/// The distinct Quick entries of the words, in order (see
/// [`spec_quick_entries`]).
pub fn quick_entries(words: &Vec<Vec<char>>, cangjie5: &TextMap, cangjie3: &TextMap) -> (result: Vec<
    QuickEntry,
>)
    requires
        forall|i: int| 0 <= i < words@.len() ==> #[trigger] words@[i]@.len() <= i64::MAX / 2,
    ensures
        quick_views(result@) == spec_quick_entries(
            texts_view(words@),
            cangjie5.lookup(),
            cangjie3.lookup(),
        ),
{
    let ghost all = texts_view(words@);
    let ghost maps = (cangjie5.lookup(), cangjie3.lookup());
    let none: Vec<Vec<char>> = Vec::new();
    let mut entries: Vec<QuickEntry> = Vec::new();
    let mut seen = TextIndex::new();
    let mut i: usize = 0;
    assert(all.take(0) =~= Seq::<Seq<char>>::empty());
    assert(quick_views(entries@) =~= Seq::<QuickEntryView>::empty());
    while i < words.len()
        invariant
            i <= words.len(),
            all == texts_view(words@),
            maps == (cangjie5.lookup(), cangjie3.lookup()),
            none@.len() == 0,
            forall|k: int| 0 <= k < words@.len() ==> #[trigger] words@[k]@.len() <= i64::MAX / 2,
            seen.well_formed(),
            seen@ == all.take(i as int),
            quick_views(entries@) == first_occurrences(
                quick_candidates(all.take(i as int), cangjie5.lookup(), cangjie3.lookup()),
            ),
        decreases words.len() - i,
    {
        let word = &words[i];
        assert(all[i as int] == word@);
        let ghost taken = all.take(i as int);
        let ghost before = quick_candidates(taken, cangjie5.lookup(), cangjie3.lookup());
        let ghost own = word_quick_entries(word@, cangjie5.lookup(), cangjie3.lookup());
        assert(all.take(i + 1).drop_last() =~= taken);
        assert(all.take(i + 1).last() == word@);
        assert(quick_candidates(all.take(i + 1), cangjie5.lookup(), cangjie3.lookup()) == before
            + own);
        let start = entries.len();
        match seen.find(word) {
            Some(j) => {
                proof {
                    lemma_quick_candidates_cover(taken, cangjie5.lookup(), cangjie3.lookup(), j as int);
                    assert(taken[j as int] == word@);
                    assert forall|k: int| 0 <= k < own.len() implies before.contains(#[trigger] own[k]) by {}
                    lemma_first_occurrences_absorb(before, own);
                }
            },
            None => {
                proof {
                    lemma_quick_candidates_words(taken, cangjie5.lookup(), cangjie3.lookup());
                    lemma_first_occurrences(before);
                    assert forall|k: int| 0 <= k < start implies (#[trigger] quick_views(entries@)[k]).word
                        != word@ by {
                        let entry = quick_views(entries@)[k];
                        assert(first_occurrences(before).contains(entry));
                        assert(before.contains(entry));
                        let m = choose|m: int| 0 <= m < before.len() && before[m] == entry;
                        assert(taken.contains(before[m].word));
                    }
                }
                if word.len() == 1 {
                    let codes5 = codes_for(cangjie5, word, &none);
                    let codes3 = codes_for(cangjie3, word, &none);
                    assert(cangjie5.lookup()(word@) == texts_view(codes5@));
                    assert(cangjie3.lookup()(word@) == texts_view(codes3@));
                    let count = if codes5.len() >= codes3.len() {
                        codes5.len()
                    } else {
                        codes3.len()
                    };
                    let mut index: usize = 0;
                    assert(before + own.take(0) =~= before);
                    while index < count
                        invariant
                            index <= count,
                            count == own.len(),
                            word@.len() == 1,
                            own == word_quick_entries(word@, cangjie5.lookup(), cangjie3.lookup()),
                            cangjie5.lookup()(word@) == texts_view(codes5@),
                            cangjie3.lookup()(word@) == texts_view(codes3@),
                            start <= entries@.len(),
                            forall|k: int| 0 <= k < start ==> (#[trigger] quick_views(entries@)[k]).word
                                != word@,
                            quick_views(entries@) == first_occurrences(before + own.take(index as int)),
                        decreases count - index,
                    {
                        let quick5 = quick_code_chars(&code_at(codes5, index));
                        let quick3 = quick_code_chars(&code_at(codes3, index));
                        proof {
                            lemma_quick_code_short(pick_code(texts_view(codes5@), index as int));
                            lemma_quick_code_short(pick_code(texts_view(codes3@), index as int));
                        }
                        let ghost entry = quick_entry(word@, quick5@, quick3@);
                        assert(entry == own[index as int]);
                        assert(before + own.take(index + 1) =~= (before + own.take(index as int)).push(
                            entry,
                        ));
                        assert((before + own.take(index as int)).push(entry).drop_last() =~= before
                            + own.take(index as int));
                        let ghost previous = quick_views(entries@);
                        push_quick_entry_after(&mut entries, start, word, quick5, quick3);
                        assert(quick_views(entries@).len() == entries@.len());
                        assert(previous.len() >= start);
                        assert forall|k: int| 0 <= k < start implies (#[trigger] quick_views(entries@)[k]).word
                            != word@ by {
                            assert(quick_views(entries@)[k] == previous[k]);
                        }
                        index = index + 1;
                    }
                    assert(own.take(count as int) =~= own);
                } else {
                    let quick5 = word_quick_concat(word, cangjie5);
                    let quick3 = word_quick_concat(word, cangjie3);
                    proof {
                        lemma_quick_concat_len(word@, cangjie5.lookup());
                        lemma_quick_concat_len(word@, cangjie3.lookup());
                    }
                    let ghost entry = quick_entry(word@, quick5@, quick3@);
                    assert(own == seq![entry]);
                    assert(before + own =~= before.push(entry));
                    assert(before.push(entry).drop_last() =~= before);
                    push_quick_entry_after(&mut entries, start, word, quick5, quick3);
                }
            },
        }
        let ghost seen_before = seen@;
        seen.push(word.clone());
        assert(seen@ =~= all.take(i + 1));
        i = i + 1;
    }
    assert(all.take(words.len() as int) =~= all);
    entries
}

/// The statement that inserts a Quick entry.
pub const QUICK_INSERT: &'static str = "INSERT INTO quick_table (word, quick5, q5complex, q5code, quick3, q3complex, q3code) VALUES (?, ?, ?, ?, ?, ?, ?)";

/// The insertion of the Quick entries of the distinct words of the lexicon
/// lines.
pub open spec fn quick_step(
    lines: Seq<Seq<char>>,
    cangjie5: spec_fn(Seq<char>) -> Seq<Seq<char>>,
    cangjie3: spec_fn(Seq<char>) -> Seq<Seq<char>>,
) -> StepView {
    StepView::Insert {
        statement: QUICK_INSERT@,
        rows: spec_quick_entries(spec_jyutping_words(lines, false), cangjie5, cangjie3).map_values(
            |entry: QuickEntryView| quick_row(entry),
        ),
    }
}

/// Fills the Quick table with the distinct Quick entries of the distinct
/// words of the lexicon lines (see [`word_quick_entries`]).
pub fn insert_quick(
    plan: &mut DatabasePlan,
    jyutping_lines: &Vec<Vec<char>>,
    cangjie5: &TextMap,
    cangjie3: &TextMap,
)
    requires
        forall|i: int| 0 <= i < jyutping_lines@.len() ==> #[trigger] jyutping_lines@[i]@.len()
            <= i64::MAX / 2,
    ensures
        final(plan)@ == old(plan)@.push(
            quick_step(texts_view(jyutping_lines@), cangjie5.lookup(), cangjie3.lookup()),
        ),
{
    let words = jyutping_words(jyutping_lines, false);
    proof {
        assert forall|i: int| 0 <= i < texts_view(jyutping_lines@).len() implies #[trigger] texts_view(
            jyutping_lines@,
        )[i].len() <= i64::MAX / 2 by {
            assert(texts_view(jyutping_lines@)[i] == jyutping_lines@[i]@);
        }
        lemma_jyutping_words_bounded(texts_view(jyutping_lines@), false, i64::MAX / 2);
        assert forall|i: int| 0 <= i < words@.len() implies #[trigger] words@[i]@.len() <= i64::MAX
            / 2 by {
            assert(texts_view(words@)[i] == words@[i]@);
        }
    }
    let entries = quick_entries(&words, cangjie5, cangjie3);
    let ghost all = quick_views(entries@);
    let mut rows: Vec<Vec<SqlValue>> = Vec::new();
    let mut i: usize = 0;
    while i < entries.len()
        invariant
            i <= entries.len(),
            all == quick_views(entries@),
            rows_view(rows@) == all.take(i as int).map_values(|entry: QuickEntryView| quick_row(entry)),
        decreases entries.len() - i,
    {
        let entry = &entries[i];
        let mut row: Vec<SqlValue> = Vec::new();
        row.push(SqlValue::Text(entry.word.clone()));
        row.push(SqlValue::Text(entry.quick5.clone()));
        row.push(SqlValue::Integer(entry.q5complex));
        row.push(SqlValue::Integer(entry.q5code));
        row.push(SqlValue::Text(entry.quick3.clone()));
        row.push(SqlValue::Integer(entry.q3complex));
        row.push(SqlValue::Integer(entry.q3code));
        assert(all[i as int] == entry@);
        assert(row_view(row@) =~= quick_row(entry@));
        let ghost previous = rows@;
        rows.push(row);
        i = i + 1;
        assert(rows_view(rows@) =~= rows_view(previous).push(quick_row(entry@)));
        assert(all.take(i as int).map_values(|entry: QuickEntryView| quick_row(entry))
            =~= all.take(i - 1).map_values(|entry: QuickEntryView| quick_row(entry)).push(
            quick_row(entry@),
        ));
    }
    assert(all.take(entries.len() as int) =~= all);
    plan.insert(QUICK_INSERT, rows);
}


/// The Cangjie table has each entry once.
pub proof fn lemma_cangjie_entries_distinct(
    words: Seq<Seq<char>>,
    cangjie5: spec_fn(Seq<char>) -> Seq<Seq<char>>,
    cangjie3: spec_fn(Seq<char>) -> Seq<Seq<char>>,
)
    ensures
        spec_cangjie_entries(words, cangjie5, cangjie3).no_duplicates(),
{
    lemma_first_occurrences(cangjie_candidates(words, cangjie5, cangjie3));
}

/// The Cangjie entry of a word with the codes of the two versions at
/// position `index`, `X` past the end of either list.
pub open spec fn code_pair_entry(
    word: Seq<char>,
    cangjie5: spec_fn(Seq<char>) -> Seq<Seq<char>>,
    cangjie3: spec_fn(Seq<char>) -> Seq<Seq<char>>,
    index: int,
) -> CangjieEntryView {
    cangjie_entry(word, pick_code(cangjie5(word), index), pick_code(cangjie3(word), index))
}

/// The Cangjie table holds exactly the entries that pair, for a word of
/// the list, the codes of the two versions at one position (the shorter
/// list filled up with `X`).
pub proof fn lemma_cangjie_entries_members(
    words: Seq<Seq<char>>,
    cangjie5: spec_fn(Seq<char>) -> Seq<Seq<char>>,
    cangjie3: spec_fn(Seq<char>) -> Seq<Seq<char>>,
    entry: CangjieEntryView,
)
    ensures
        spec_cangjie_entries(words, cangjie5, cangjie3).contains(entry) <==> exists|w: int, index: int|
            0 <= w < words.len() && 0 <= index < larger(
                cangjie5(words[w]).len(),
                cangjie3(words[w]).len(),
            ) && entry == #[trigger] code_pair_entry(words[w], cangjie5, cangjie3, index),
{
    lemma_first_occurrences(cangjie_candidates(words, cangjie5, cangjie3));
    lemma_cangjie_candidates_members(words, cangjie5, cangjie3, entry);
}

proof fn lemma_cangjie_candidates_members(
    words: Seq<Seq<char>>,
    cangjie5: spec_fn(Seq<char>) -> Seq<Seq<char>>,
    cangjie3: spec_fn(Seq<char>) -> Seq<Seq<char>>,
    entry: CangjieEntryView,
)
    ensures
        cangjie_candidates(words, cangjie5, cangjie3).contains(entry) <==> exists|w: int, index: int|
            0 <= w < words.len() && 0 <= index < larger(
                cangjie5(words[w]).len(),
                cangjie3(words[w]).len(),
            ) && entry == #[trigger] code_pair_entry(words[w], cangjie5, cangjie3, index),
    decreases words.len(),
{
    if words.len() > 0 {
        let previous = words.drop_last();
        lemma_cangjie_candidates_members(previous, cangjie5, cangjie3, entry);
        let before = cangjie_candidates(previous, cangjie5, cangjie3);
        let word = words.last();
        let more = word_cangjie_entries(word, cangjie5(word), cangjie3(word));
        let all = cangjie_candidates(words, cangjie5, cangjie3);
        assert(all == before + more);
        let last = words.len() - 1;
        assert(words[last] == word);
        if all.contains(entry) {
            let k = choose|k: int| 0 <= k < all.len() && all[k] == entry;
            if k < before.len() {
                assert(before[k] == entry);
                let (w, index) = choose|w: int, index: int|
                    0 <= w < previous.len() && 0 <= index < larger(
                        cangjie5(previous[w]).len(),
                        cangjie3(previous[w]).len(),
                    ) && entry == #[trigger] code_pair_entry(previous[w], cangjie5, cangjie3, index);
                assert(previous[w] == words[w]);
            } else {
                let index = k - before.len();
                assert(more[index] == entry);
                assert(0 <= last < words.len() && 0 <= index < larger(
                    cangjie5(words[last]).len(),
                    cangjie3(words[last]).len(),
                ) && entry == code_pair_entry(words[last], cangjie5, cangjie3, index));
            }
        }
        if exists|w: int, index: int|
            0 <= w < words.len() && 0 <= index < larger(
                cangjie5(words[w]).len(),
                cangjie3(words[w]).len(),
            ) && entry == #[trigger] code_pair_entry(words[w], cangjie5, cangjie3, index) {
            let (w, index) = choose|w: int, index: int|
                0 <= w < words.len() && 0 <= index < larger(
                    cangjie5(words[w]).len(),
                    cangjie3(words[w]).len(),
                ) && entry == #[trigger] code_pair_entry(words[w], cangjie5, cangjie3, index);
            if w < last {
                assert(previous[w] == words[w]);
                assert(before.contains(entry));
                let k = choose|k: int| 0 <= k < before.len() && before[k] == entry;
                assert(all[k] == entry);
            } else {
                assert(more[index] == entry);
                assert(all[before.len() + index] == entry);
            }
        }
    }
}

/// Every code of a word of the list reaches the Cangjie table: for each
/// position of either version's codes, the entry pairing the code of
/// version 5 at that position (or `X` past its end) with that of version 3
/// (or `X`), each with its length and serial code.
pub proof fn lemma_cangjie_entries_complete(
    words: Seq<Seq<char>>,
    cangjie5: spec_fn(Seq<char>) -> Seq<Seq<char>>,
    cangjie3: spec_fn(Seq<char>) -> Seq<Seq<char>>,
)
    ensures
        forall|j: int, i: int|
            0 <= j < words.len() && (0 <= i < cangjie5(words[j]).len() || 0 <= i < cangjie3(
                words[j],
            ).len()) ==> spec_cangjie_entries(words, cangjie5, cangjie3).contains(
                #[trigger] cangjie_row_at(words[j], cangjie5(words[j]), cangjie3(words[j]), i),
            ),
{
    assert forall|j: int, i: int|
        0 <= j < words.len() && (0 <= i < cangjie5(words[j]).len() || 0 <= i < cangjie3(
            words[j],
        ).len()) implies spec_cangjie_entries(words, cangjie5, cangjie3).contains(
        #[trigger] cangjie_row_at(words[j], cangjie5(words[j]), cangjie3(words[j]), i),
    ) by {
        let entry = cangjie_row_at(words[j], cangjie5(words[j]), cangjie3(words[j]), i);
        lemma_cangjie_entries_members(words, cangjie5, cangjie3, entry);
        assert(entry == code_pair_entry(words[j], cangjie5, cangjie3, i));
        assert(0 <= i < larger(cangjie5(words[j]).len(), cangjie3(words[j]).len()));
    }
}

/// The Cangjie entry of `word` at position `index` of its codes of the two
/// versions, written out: the code of each version at that position, `X`
/// past the end of its list, with its number of characters and its serial
/// code.
pub open spec fn cangjie_row_at(word: Seq<char>, codes5: Seq<Seq<char>>, codes3: Seq<Seq<char>>, index: int) -> CangjieEntryView {
    let code5 = if index < codes5.len() {
        codes5[index]
    } else {
        seq!['X']
    };
    let code3 = if index < codes3.len() {
        codes3[index]
    } else {
        seq!['X']
    };
    CangjieEntryView {
        word,
        cangjie5: code5,
        c5complex: code5.len() as i64,
        c5code: spec_serial_code(code5),
        cangjie3: code3,
        c3complex: code3.len() as i64,
        c3code: spec_serial_code(code3),
    }
}

/// The Quick table has each entry once.
pub proof fn lemma_quick_entries_distinct(
    words: Seq<Seq<char>>,
    cangjie5: spec_fn(Seq<char>) -> Seq<Seq<char>>,
    cangjie3: spec_fn(Seq<char>) -> Seq<Seq<char>>,
)
    ensures
        spec_quick_entries(words, cangjie5, cangjie3).no_duplicates(),
{
    lemma_first_occurrences(quick_candidates(words, cangjie5, cangjie3));
}

} // verus!
