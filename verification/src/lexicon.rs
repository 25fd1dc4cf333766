//! Lexicon entries: a word with its romanization and the codes under which
//! the keyboards find it.

use vstd::prelude::*;
use crate::codes::{
    count_chars, decimal_code, keypad_code_chars, serial_code_chars, spec_decimal_code,
    spec_keypad_code, spec_serial_code,
};
use crate::error::{bad_line, DataError, DataErrorView};
use crate::text::{split, split_chars, string_of, texts_view, trim, trim_chars};

verus! {

/// A word of a lexicon with its romanization and codes.
#[derive(Clone, Debug, PartialEq, Eq)]
pub struct LexiconEntry {
    pub word: String,
    pub romanization: String,
    pub char_count: i64,
    pub complexity: i64,
    pub anchors: i64,
    pub spell: i64,
    pub anchors_9key: i64,
    pub spell_9key: i64,
}

/// The model of a [`LexiconEntry`].
pub struct LexiconEntryView {
    pub word: Seq<char>,
    pub romanization: Seq<char>,
    pub char_count: i64,
    pub complexity: i64,
    pub anchors: i64,
    pub spell: i64,
    pub anchors_9key: i64,
    pub spell_9key: i64,
}

impl View for LexiconEntry {
    type V = LexiconEntryView;

    open spec fn view(&self) -> LexiconEntryView {
        LexiconEntryView {
            word: self.word@,
            romanization: self.romanization@,
            char_count: self.char_count,
            complexity: self.complexity,
            anchors: self.anchors,
            spell: self.spell,
            anchors_9key: self.anchors_9key,
            spell_9key: self.spell_9key,
        }
    }
}

/// The models of a vector of entries.
pub open spec fn entries_view(entries: Seq<LexiconEntry>) -> Seq<LexiconEntryView> {
    entries.map_values(|entry: LexiconEntry| entry@)
}

/// `s` without its ASCII digits (the tones of a romanization).
pub open spec fn without_ascii_digits(s: Seq<char>) -> Seq<char>
    decreases s.len(),
{
    if s.len() == 0 {
        Seq::empty()
    } else if '0' <= s.last() && s.last() <= '9' {
        without_ascii_digits(s.drop_last())
    } else {
        without_ascii_digits(s.drop_last()).push(s.last())
    }
}

/// The lowercase ASCII letters of `s`, in order.
pub open spec fn ascii_lowercase_letters(s: Seq<char>) -> Seq<char>
    decreases s.len(),
{
    if s.len() == 0 {
        Seq::empty()
    } else if 'a' <= s.last() && s.last() <= 'z' {
        ascii_lowercase_letters(s.drop_last()).push(s.last())
    } else {
        ascii_lowercase_letters(s.drop_last())
    }
}

/// The non-empty pieces among `pieces`, in order.
pub open spec fn nonempty_pieces(pieces: Seq<Seq<char>>) -> Seq<Seq<char>>
    decreases pieces.len(),
{
    if pieces.len() == 0 {
        Seq::empty()
    } else if pieces.last().len() > 0 {
        nonempty_pieces(pieces.drop_last()).push(pieces.last())
    } else {
        nonempty_pieces(pieces.drop_last())
    }
}

/// The non-empty pieces are non-empty, and no longer than `bound` when the
/// pieces are not.
pub proof fn lemma_nonempty_pieces_positive(pieces: Seq<Seq<char>>, bound: int)
    requires
        forall|i: int| 0 <= i < pieces.len() ==> #[trigger] pieces[i].len() <= bound,
    ensures
        forall|i: int| 0 <= i < nonempty_pieces(pieces).len() ==> #[trigger] nonempty_pieces(pieces)[i].len()
            > 0 && nonempty_pieces(pieces)[i].len() <= bound,
    decreases pieces.len(),
{
    if pieces.len() > 0 {
        assert forall|i: int| 0 <= i < pieces.drop_last().len() implies #[trigger] pieces.drop_last()[i].len()
            <= bound by {
            assert(pieces.drop_last()[i] == pieces[i]);
        }
        lemma_nonempty_pieces_positive(pieces.drop_last(), bound);
        let previous = nonempty_pieces(pieces.drop_last());
        let current = nonempty_pieces(pieces);
        assert(pieces.last() == pieces[pieces.len() - 1]);
        assert forall|i: int| 0 <= i < current.len() implies #[trigger] current[i].len() > 0
            && current[i].len() <= bound by {
            if i < previous.len() {
                assert(current[i] == previous[i]);
            }
        }
    }
}

/// The number of characters of each piece.
pub open spec fn piece_lengths(pieces: Seq<Seq<char>>) -> Seq<i64> {
    pieces.map_values(|piece: Seq<char>| piece.len() as i64)
}

/// The first character of each piece.
pub open spec fn piece_initials(pieces: Seq<Seq<char>>) -> Seq<char> {
    pieces.map_values(|piece: Seq<char>| piece[0])
}

/// The phones of a romanization: its space-separated syllables without
/// tone digits, empty ones left out.
pub open spec fn phones(romanization: Seq<char>) -> Seq<Seq<char>> {
    nonempty_pieces(split(without_ascii_digits(romanization), ' '))
}

/// The entry of a lexicon line `word<TAB>romanization`: the trimmed line
/// must have exactly two tab-separated fields and the romanization at least
/// one lowercase ASCII letter. The complexity reads the phones' lengths as
/// decimal digits; the anchors are the phones' initials; the spell is the
/// romanization's letters.
#[verifier::opaque]
pub open spec fn lexicon_entry(line: Seq<char>) -> Option<LexiconEntryView> {
    let parts = split(trim(line), '\t');
    if parts.len() != 2 {
        None
    } else {
        let word = trim(parts[0]);
        let romanization = trim(parts[1]);
        let letters = ascii_lowercase_letters(romanization);
        let anchors = piece_initials(phones(romanization));
        if letters.len() == 0 {
            None
        } else {
            Some(
                LexiconEntryView {
                    word,
                    romanization,
                    char_count: word.len() as i64,
                    complexity: spec_decimal_code(piece_lengths(phones(romanization))),
                    anchors: spec_serial_code(anchors),
                    spell: spec_serial_code(letters),
                    anchors_9key: spec_keypad_code(anchors),
                    spell_9key: spec_keypad_code(letters),
                },
            )
        }
    }
}

/// The entries of the lexicon lines of `file`, in order, or the error for
/// the first line that has none.
pub open spec fn lexicon_outcome(lines: Seq<Seq<char>>, file: Seq<char>) -> Result<
    Seq<LexiconEntryView>,
    DataErrorView,
>
    decreases lines.len(),
{
    if lines.len() == 0 {
        Ok(Seq::empty())
    } else {
        match lexicon_outcome(lines.drop_last(), file) {
            Err(error) => Err(error),
            Ok(entries) => match lexicon_entry(lines.last()) {
                Some(entry) => Ok(entries.push(entry)),
                None => Err(DataErrorView::BadLineFormat { file, line: lines.last() }),
            },
        }
    }
}

/// The model of the outcome of [`convert_lexicon`].
pub open spec fn lexicon_result_view(result: Result<Vec<LexiconEntry>, DataError>) -> Result<
    Seq<LexiconEntryView>,
    DataErrorView,
> {
    match result {
        Ok(entries) => Ok(entries_view(entries@)),
        Err(error) => Err(error@),
    }
}

fn without_ascii_digits_chars(text: &[char]) -> (result: Vec<char>)
    ensures
        result@ == without_ascii_digits(text@),
        result@.len() <= text@.len(),
{
    let mut result: Vec<char> = Vec::new();
    let mut i: usize = 0;
    while i < text.len()
        invariant
            i <= text.len(),
            result@ == without_ascii_digits(text@.take(i as int)),
            result@.len() <= i,
        decreases text.len() - i,
    {
        assert(text@.take(i + 1).drop_last() =~= text@.take(i as int));
        let character = text[i];
        if !('0' <= character && character <= '9') {
            result.push(character);
        }
        i = i + 1;
    }
    assert(text@.take(text.len() as int) =~= text@);
    result
}

fn ascii_lowercase_chars(text: &[char]) -> (result: Vec<char>)
    ensures
        result@ == ascii_lowercase_letters(text@),
{
    let mut result: Vec<char> = Vec::new();
    let mut i: usize = 0;
    while i < text.len()
        invariant
            i <= text.len(),
            result@ == ascii_lowercase_letters(text@.take(i as int)),
        decreases text.len() - i,
    {
        assert(text@.take(i + 1).drop_last() =~= text@.take(i as int));
        let character = text[i];
        if 'a' <= character && character <= 'z' {
            result.push(character);
        }
        i = i + 1;
    }
    assert(text@.take(text.len() as int) =~= text@);
    result
}

/// The lengths and initials of the non-empty pieces.
pub fn phone_lengths_and_initials(pieces: &Vec<Vec<char>>) -> (result: (Vec<i64>, Vec<char>))
    requires
        forall|i: int| 0 <= i < pieces@.len() ==> #[trigger] pieces@[i]@.len() <= i64::MAX,
    ensures
        result.0@ == piece_lengths(nonempty_pieces(texts_view(pieces@))),
        result.1@ == piece_initials(nonempty_pieces(texts_view(pieces@))),
{
    let ghost all = texts_view(pieces@);
    let mut lengths: Vec<i64> = Vec::new();
    let mut initials: Vec<char> = Vec::new();
    let mut i: usize = 0;
    while i < pieces.len()
        invariant
            i <= pieces.len(),
            all == texts_view(pieces@),
            forall|j: int| 0 <= j < pieces@.len() ==> #[trigger] pieces@[j]@.len() <= i64::MAX,
            lengths@ == piece_lengths(nonempty_pieces(all.take(i as int))),
            initials@ == piece_initials(nonempty_pieces(all.take(i as int))),
        decreases pieces.len() - i,
    {
        let ghost before = nonempty_pieces(all.take(i as int));
        assert(all.take(i + 1).drop_last() =~= all.take(i as int));
        assert(all[i as int] == pieces@[i as int]@);
        let piece = &pieces[i];
        if piece.len() > 0 {
            lengths.push(count_chars(piece));
            initials.push(piece[0]);
            assert(nonempty_pieces(all.take(i + 1)) == before.push(piece@));
            assert(lengths@ =~= piece_lengths(before.push(piece@)));
            assert(initials@ =~= piece_initials(before.push(piece@)));
        }
        i = i + 1;
    }
    assert(all.take(pieces.len() as int) =~= all);
    (lengths, initials)
}

/// The entry of one lexicon line (see [`lexicon_entry`]).
pub fn parse_lexicon_line(line: &[char]) -> (result: Option<LexiconEntry>)
    requires
        line@.len() <= i64::MAX,
    ensures
        match result {
            Some(entry) => lexicon_entry(line@) == Some(entry@),
            None => lexicon_entry(line@) is None,
        },
{
    reveal(lexicon_entry);
    let trimmed = trim_chars(line);
    let parts = split_chars(&trimmed, '\t');
    if parts.len() != 2 {
        return None;
    }
    assert(texts_view(parts@)[0] == parts@[0]@);
    assert(texts_view(parts@)[1] == parts@[1]@);
    let word = trim_chars(&parts[0]);
    let romanization = trim_chars(&parts[1]);
    let letters = ascii_lowercase_chars(&romanization);
    let toneless = without_ascii_digits_chars(&romanization);
    let pieces = split_chars(&toneless, ' ');
    let (lengths, anchors) = phone_lengths_and_initials(&pieces);
    if letters.len() == 0 {
        return None;
    }
    let entry = LexiconEntry {
        char_count: count_chars(&word),
        complexity: decimal_code(&lengths),
        anchors: serial_code_chars(&anchors),
        spell: serial_code_chars(&letters),
        anchors_9key: keypad_code_chars(&anchors),
        spell_9key: keypad_code_chars(&letters),
        word: string_of(&word),
        romanization: string_of(&romanization),
    };
    Some(entry)
}

/// The entries of the lexicon lines of `file_name`, in order; the error
/// for the first line of a bad format (see [`lexicon_outcome`]).
pub fn convert_lexicon(lines: &Vec<Vec<char>>, file_name: &str) -> (result: Result<
    Vec<LexiconEntry>,
    DataError,
>)
    requires
        forall|i: int| 0 <= i < lines@.len() ==> #[trigger] lines@[i]@.len() <= i64::MAX,
    ensures
        lexicon_result_view(result) == lexicon_outcome(texts_view(lines@), file_name@),
{
    let ghost all = texts_view(lines@);
    let mut entries: Vec<LexiconEntry> = Vec::new();
    let mut i: usize = 0;
    assert(entries_view(entries@) =~= Seq::<LexiconEntryView>::empty());
    assert(all.take(0) =~= Seq::<Seq<char>>::empty());
    while i < lines.len()
        invariant
            i <= lines.len(),
            all == texts_view(lines@),
            forall|j: int| 0 <= j < lines@.len() ==> #[trigger] lines@[j]@.len() <= i64::MAX,
            lexicon_outcome(all.take(i as int), file_name@) == Ok::<
                Seq<LexiconEntryView>,
                DataErrorView,
            >(entries_view(entries@)),
        decreases lines.len() - i,
    {
        assert(all.take(i + 1).drop_last() =~= all.take(i as int));
        assert(all[i as int] == lines@[i as int]@);
        match parse_lexicon_line(&lines[i]) {
            Some(entry) => {
                let ghost previous = entries@;
                entries.push(entry);
                assert(entries_view(entries@) =~= entries_view(previous).push(entry@));
            },
            None => {
                let error = bad_line(file_name, &lines[i]);
                proof {
                    lemma_lexicon_outcome_error_stays(all, i as int + 1, file_name@);
                }
                return Err(error);
            },
        }
        i = i + 1;
    }
    assert(all.take(lines.len() as int) =~= all);
    Ok(entries)
}

/// Once a prefix of the lines has an error, so do all longer prefixes,
/// with the same error.
proof fn lemma_lexicon_outcome_error_stays(lines: Seq<Seq<char>>, k: int, file: Seq<char>)
    requires
        0 <= k <= lines.len(),
        lexicon_outcome(lines.take(k), file) is Err,
    ensures
        lexicon_outcome(lines, file) == lexicon_outcome(lines.take(k), file),
    decreases lines.len() - k,
{
    if k < lines.len() {
        assert(lines.take(k + 1).drop_last() =~= lines.take(k));
        lemma_lexicon_outcome_error_stays(lines, k + 1, file);
    } else {
        assert(lines.take(k) =~= lines);
    }
}


/// A lexicon line has an entry exactly when its trimmed text has two
/// tab-separated fields and the second, trimmed, has a lowercase ASCII
/// letter. The entry keeps the two trimmed fields as word and romanization;
/// its character count is the word's length; its complexity reads the
/// lengths of the romanization's phones (syllables without tone digits) as
/// decimal digits; its anchors are the serial and keypad codes of the
/// phones' initials; its spell codes are the codes of the whole
/// romanization (tone digits and spaces count for nothing).
pub proof fn lemma_lexicon_entry_codes(line: Seq<char>)
    requires
        line.len() <= i64::MAX,
    ensures
        lexicon_entry(line) is Some <==> (split(trim(line), '\t').len() == 2
            && ascii_lowercase_letters(trim(split(trim(line), '\t')[1])).len() > 0),
        lexicon_entry(line) matches Some(entry) ==> {
            &&& entry.word == trim(split(trim(line), '\t')[0])
            &&& entry.romanization == trim(split(trim(line), '\t')[1])
            &&& entry.char_count == entry.word.len()
            &&& entry.complexity == spec_decimal_code(piece_lengths(phones(entry.romanization)))
            &&& entry.anchors == spec_serial_code(piece_initials(phones(entry.romanization)))
            &&& entry.anchors_9key == spec_keypad_code(piece_initials(phones(entry.romanization)))
            &&& entry.spell == spec_serial_code(entry.romanization)
            &&& entry.spell_9key == spec_keypad_code(entry.romanization)
        },
{
    reveal(lexicon_entry);
    let parts = split(trim(line), '\t');
    if parts.len() == 2 {
        crate::text::lemma_trim_len(line);
        crate::text::lemma_split_bounds(trim(line), '\t');
        crate::text::lemma_trim_len(parts[0]);
        assert(trim(parts[0]).len() <= i64::MAX);
        crate::code_laws::lemma_codes_of_letters(trim(parts[1]));
    }
}

/// A lexicon fails exactly when one of its lines has no entry, and then
/// with the error that names the first such line.
pub proof fn lemma_lexicon_outcome_error(lines: Seq<Seq<char>>, file: Seq<char>)
    ensures
        lexicon_outcome(lines, file) is Err <==> exists|i: int|
            0 <= i < lines.len() && #[trigger] lexicon_entry(lines[i]) is None,
        lexicon_outcome(lines, file) matches Err(error) ==> exists|k: int|
            0 <= k < lines.len() && #[trigger] lexicon_entry(lines[k]) is None && (forall|j: int|
                0 <= j < k ==> #[trigger] lexicon_entry(lines[j]) is Some) && error
                == (DataErrorView::BadLineFormat { file, line: lines[k] }),
    decreases lines.len(),
{
    if lines.len() > 0 {
        let previous = lines.drop_last();
        lemma_lexicon_outcome_error(previous, file);
        let last = lines.len() - 1;
        assert(lines[last] == lines.last());
        assert forall|i: int| 0 <= i < previous.len() implies previous[i] == lines[i] by {}
        match lexicon_outcome(previous, file) {
            Err(error) => {
                let k = choose|k: int|
                    0 <= k < previous.len() && #[trigger] lexicon_entry(previous[k]) is None && (forall|j: int|
                        0 <= j < k ==> #[trigger] lexicon_entry(previous[j]) is Some) && error
                        == (DataErrorView::BadLineFormat { file, line: previous[k] });
                assert(previous[k] == lines[k]);
                assert forall|j: int| 0 <= j < k implies #[trigger] lexicon_entry(lines[j]) is Some by {
                    assert(previous[j] == lines[j]);
                    assert(lexicon_entry(previous[j]) is Some);
                }
                assert(lexicon_entry(lines[k]) is None);
            },
            Ok(_) => {
                assert forall|j: int| 0 <= j < last implies #[trigger] lexicon_entry(lines[j]) is Some by {
                    assert(previous[j] == lines[j]);
                    if lexicon_entry(previous[j]) is None {
                        assert(exists|i: int| 0 <= i < previous.len() && #[trigger] lexicon_entry(previous[i]) is None);
                    }
                }
                if lexicon_entry(lines.last()) is None {
                    assert(lexicon_entry(lines[last]) is None);
                } else {
                    assert forall|i: int| 0 <= i < lines.len() implies !(#[trigger] lexicon_entry(lines[i]) is None) by {
                        if i < last {
                            assert(lexicon_entry(lines[i]) is Some);
                        }
                    }
                }
            },
        }
    }
}

/// A lexicon converts line by line: on success there is one entry for each
/// line, the entry of that line.
pub proof fn lemma_lexicon_outcome_lines(lines: Seq<Seq<char>>, file: Seq<char>)
    ensures
        lexicon_outcome(lines, file) matches Ok(entries) ==> {
            &&& entries.len() == lines.len()
            &&& forall|i: int| 0 <= i < lines.len() ==> lexicon_entry(#[trigger] lines[i]) == Some(
                entries[i],
            )
        },
    decreases lines.len(),
{
    if lines.len() > 0 {
        lemma_lexicon_outcome_lines(lines.drop_last(), file);
        if let Ok(entries) = lexicon_outcome(lines, file) {
            if let Ok(previous) = lexicon_outcome(lines.drop_last(), file) {
                assert forall|i: int| 0 <= i < lines.len() implies lexicon_entry(#[trigger] lines[i])
                    == Some(entries[i]) by {
                    if i < lines.len() - 1 {
                        assert(lines[i] == lines.drop_last()[i]);
                        assert(entries[i] == previous[i]);
                    }
                }
            }
        }
    }
}

} // verus!
