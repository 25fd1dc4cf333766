//! Character-level text handling: conversion between strings and character
//! vectors, trimming, splitting into fields and into lines.
//!
//! Inside the library a piece of text is a `Vec<char>`; its model is the
//! `Seq<char>` of its characters.

use vstd::prelude::*;

verus! {

broadcast use vstd::string::group_string_axioms;

/// The models of a vector of texts.
pub open spec fn texts_view(texts: Seq<Vec<char>>) -> Seq<Seq<char>> {
    texts.map_values(|text: Vec<char>| text@)
}

/// Appends one character to a string (`String::push`): the string's
/// characters afterwards are the old ones followed by `character`.
#[verifier::external_body]
pub fn push_char(text: &mut String, character: char)
    ensures
        final(text)@ == old(text)@.push(character),
{
    text.push(character);
}

/// Appends the characters of `suffix` to a string.
pub fn append_str(text: &mut String, suffix: &str)
    ensures
        final(text)@ == old(text)@ + suffix@,
{
    let chars = chars_of(suffix);
    let mut i: usize = 0;
    while i < chars.len()
        invariant
            i <= chars.len(),
            chars@ == suffix@,
            text@ == old(text)@ + chars@.take(i as int),
        decreases chars.len() - i,
    {
        push_char(text, chars[i]);
        i = i + 1;
        assert(text@ =~= old(text)@ + chars@.take(i as int));
    }
    assert(chars@.take(chars.len() as int) =~= chars@);
}

/// The characters of a string, in order.
pub fn chars_of(text: &str) -> (result: Vec<char>)
    ensures
        result@ == text@,
{
    let mut result: Vec<char> = Vec::new();
    for character in iter: text.chars()
        invariant
            result@ == iter.seq().take(iter.index() as int),
    {
        result.push(character);
    }
    result
}

/// The string made of the given characters.
pub fn string_of(chars: &[char]) -> (result: String)
    ensures
        result@ == chars@,
{
    let mut result = String::new();
    let mut i: usize = 0;
    while i < chars.len()
        invariant
            i <= chars.len(),
            result@ == chars@.take(i as int),
        decreases chars.len() - i,
    {
        push_char(&mut result, chars[i]);
        i = i + 1;
        assert(result@ =~= chars@.take(i as int));
    }
    assert(chars@.take(chars.len() as int) =~= chars@);
    result
}

/// Whether two texts are the same characters.
pub fn chars_equal(a: &[char], b: &[char]) -> (result: bool)
    ensures
        result == (a@ == b@),
{
    if a.len() != b.len() {
        return false;
    }
    let mut i: usize = 0;
    while i < a.len()
        invariant
            i <= a.len(),
            a.len() == b.len(),
            forall|j: int| 0 <= j < i ==> a@[j] == b@[j],
        decreases a.len() - i,
    {
        if a[i] != b[i] {
            return false;
        }
        i = i + 1;
    }
    assert(a@ =~= b@);
    true
}

/// Whether `item` is among `list`.
pub fn contains_text(list: &Vec<Vec<char>>, item: &[char]) -> (result: bool)
    ensures
        result == texts_view(list@).contains(item@),
{
    let mut i: usize = 0;
    while i < list.len()
        invariant
            i <= list.len(),
            forall|j: int| 0 <= j < i ==> list@[j]@ != item@,
        decreases list.len() - i,
    {
        if chars_equal(&list[i], item) {
            assert(texts_view(list@)[i as int] == item@);
            return true;
        }
        i = i + 1;
    }
    proof {
        if texts_view(list@).contains(item@) {
            let j = choose|j: int| 0 <= j < list@.len() && texts_view(list@)[j] == item@;
            assert(list@[j]@ == item@);
        }
    }
    false
}

/// Whether `c` has the Unicode `White_Space` property (what
/// `char::is_whitespace` tests, and so what `str::trim` removes).
pub open spec fn is_white_space(c: char) -> bool {
    ||| c == ' '
    ||| ('\t' <= c && c <= '\r')
    ||| c == '\u{85}'
    ||| c == '\u{A0}'
    ||| c == '\u{1680}'
    ||| ('\u{2000}' <= c && c <= '\u{200A}')
    ||| c == '\u{2028}'
    ||| c == '\u{2029}'
    ||| c == '\u{202F}'
    ||| c == '\u{205F}'
    ||| c == '\u{3000}'
}

/// Executable test of [`is_white_space`].
pub fn white_space(c: char) -> (result: bool)
    ensures
        result == is_white_space(c),
{
    c == ' ' || ('\t' <= c && c <= '\r') || c == '\u{85}' || c == '\u{A0}' || c == '\u{1680}'
        || ('\u{2000}' <= c && c <= '\u{200A}') || c == '\u{2028}' || c == '\u{2029}'
        || c == '\u{202F}' || c == '\u{205F}' || c == '\u{3000}'
}

/// `s` without its leading white space.
pub open spec fn trim_start(s: Seq<char>) -> Seq<char>
    decreases s.len(),
{
    if s.len() > 0 && is_white_space(s[0]) {
        trim_start(s.drop_first())
    } else {
        s
    }
}

/// `s` without its trailing white space.
pub open spec fn trim_end(s: Seq<char>) -> Seq<char>
    decreases s.len(),
{
    if s.len() > 0 && is_white_space(s.last()) {
        trim_end(s.drop_last())
    } else {
        s
    }
}

/// `s` without leading and trailing white space (`str::trim`).
pub open spec fn trim(s: Seq<char>) -> Seq<char> {
    trim_end(trim_start(s))
}

proof fn lemma_trim_end_len(s: Seq<char>)
    ensures
        trim_end(s).len() <= s.len(),
        trim_end(s) =~= s.take(trim_end(s).len() as int),
    decreases s.len(),
{
    if s.len() > 0 && is_white_space(s.last()) {
        lemma_trim_end_len(s.drop_last());
    }
}

proof fn lemma_trim_start_len(s: Seq<char>)
    ensures
        trim_start(s).len() <= s.len(),
        trim_start(s) =~= s.skip(s.len() - trim_start(s).len()),
    decreases s.len(),
{
    if s.len() > 0 && is_white_space(s[0]) {
        lemma_trim_start_len(s.drop_first());
    }
}

/// A trimmed text is no longer than the text.
pub proof fn lemma_trim_len(s: Seq<char>)
    ensures
        trim(s).len() <= s.len(),
{
    lemma_trim_start_len(s);
    lemma_trim_end_len(trim_start(s));
}

/// `line` without leading and trailing white space.
pub fn trim_chars(line: &[char]) -> (result: Vec<char>)
    ensures
        result@ == trim(line@),
        result@.len() <= line@.len(),
{
    let mut start: usize = 0;
    assert(line@.skip(0) =~= line@);
    while start < line.len() && white_space(line[start])
        invariant
            start <= line.len(),
            trim_start(line@.skip(start as int)) == trim_start(line@),
        decreases line.len() - start,
    {
        assert(line@.skip(start as int).drop_first() =~= line@.skip(start + 1));
        start = start + 1;
    }
    let mut end: usize = line.len();
    while end > start && white_space(line[end - 1])
        invariant
            start <= end <= line.len(),
            trim_start(line@) == line@.skip(start as int),
            trim_end(line@.subrange(start as int, end as int)) == trim(line@),
        decreases end - start,
    {
        assert(line@.subrange(start as int, end as int).drop_last() =~= line@.subrange(
            start as int,
            end - 1,
        ));
        end = end - 1;
    }
    let mut result: Vec<char> = Vec::new();
    let mut i: usize = start;
    while i < end
        invariant
            start <= i <= end <= line.len(),
            result@ == line@.subrange(start as int, i as int),
        decreases end - i,
    {
        result.push(line[i]);
        i = i + 1;
        assert(result@ =~= line@.subrange(start as int, i as int));
    }
    result
}


/// The pieces of `s` between occurrences of `sep` (`str::split`); there is
/// always at least one piece.
pub open spec fn split(s: Seq<char>, sep: char) -> Seq<Seq<char>>
    decreases s.len(),
{
    if s.len() == 0 {
        seq![Seq::<char>::empty()]
    } else {
        let previous = split(s.drop_last(), sep);
        if s.last() == sep {
            previous.push(Seq::<char>::empty())
        } else {
            previous.update(previous.len() - 1, previous.last().push(s.last()))
        }
    }
}

/// Every piece of a split is no longer than the text, and there is at
/// least one piece.
pub proof fn lemma_split_bounds(s: Seq<char>, sep: char)
    ensures
        split(s, sep).len() >= 1,
        forall|i: int| 0 <= i < split(s, sep).len() ==> #[trigger] split(s, sep)[i].len() <= s.len(),
    decreases s.len(),
{
    if s.len() > 0 {
        lemma_split_bounds(s.drop_last(), sep);
    }
}

/// The pieces of `line` between occurrences of `sep`.
pub fn split_chars(line: &[char], sep: char) -> (result: Vec<Vec<char>>)
    ensures
        texts_view(result@) == split(line@, sep),
        result@.len() >= 1,
        forall|i: int| 0 <= i < result@.len() ==> #[trigger] result@[i]@.len() <= line@.len(),
{
    let mut pieces: Vec<Vec<char>> = Vec::new();
    let mut current: Vec<char> = Vec::new();
    let mut i: usize = 0;
    assert(line@.take(0) =~= Seq::<char>::empty());
    assert(texts_view(pieces@).push(current@) =~= split(line@.take(0), sep));
    while i < line.len()
        invariant
            i <= line.len(),
            texts_view(pieces@).push(current@) == split(line@.take(i as int), sep),
        decreases line.len() - i,
    {
        let ghost before = line@.take(i as int);
        proof {
            lemma_split_bounds(before, sep);
        }
        assert(line@.take(i + 1).drop_last() =~= before);
        let character = line[i];
        if character == sep {
            let finished = current;
            pieces.push(finished);
            current = Vec::new();
            assert(texts_view(pieces@).push(current@) =~= split(line@.take(i + 1), sep));
        } else {
            current.push(character);
            assert(texts_view(pieces@).push(current@) =~= split(line@.take(i + 1), sep));
        }
        i = i + 1;
    }
    assert(line@.take(line.len() as int) =~= line@);
    let ghost finished = pieces@;
    let ghost last = current@;
    pieces.push(current);
    assert(texts_view(pieces@) =~= texts_view(finished).push(last));
    proof {
        lemma_split_bounds(line@, sep);
        assert forall|i: int| 0 <= i < pieces@.len() implies #[trigger] pieces@[i]@.len()
            <= line@.len() by {
            assert(texts_view(pieces@)[i] == pieces@[i]@);
        }
    }
    pieces
}

/// The total length of the pieces.
pub open spec fn total_length(pieces: Seq<Seq<char>>) -> int
    decreases pieces.len(),
{
    if pieces.len() == 0 {
        0
    } else {
        total_length(pieces.drop_last()) + pieces.last().len()
    }
}

/// The pieces of a split and the separators between them make up the text.
pub proof fn lemma_split_total_length(s: Seq<char>, sep: char)
    ensures
        total_length(split(s, sep)) + split(s, sep).len() - 1 == s.len(),
    decreases s.len(),
{
    lemma_split_bounds(s, sep);
    if s.len() > 0 {
        let previous = split(s.drop_last(), sep);
        lemma_split_total_length(s.drop_last(), sep);
        lemma_split_bounds(s.drop_last(), sep);
        if s.last() == sep {
            let pushed = previous.push(Seq::<char>::empty());
            assert(split(s, sep) == pushed);
            assert(pushed.drop_last() =~= previous);
            assert(total_length(pushed) == total_length(previous) + pushed.last().len());
        } else {
            let updated = previous.update(previous.len() - 1, previous.last().push(s.last()));
            assert(split(s, sep) == updated);
            assert(updated.drop_last() =~= previous.drop_last());
            assert(updated.last() == previous.last().push(s.last()));
            assert(total_length(updated) == total_length(updated.drop_last()) + updated.last().len());
            assert(total_length(previous) == total_length(previous.drop_last())
                + previous.last().len());
        }
    } else {
        let single = seq![Seq::<char>::empty()];
        assert(single.drop_last() =~= Seq::<Seq<char>>::empty());
        assert(total_length(single.drop_last()) == 0);
        assert(single.last().len() == 0);
        assert(total_length(single) == 0);
    }
}

/// Each of three pieces is no longer than what the other two and the two
/// separators leave of the text.
pub proof fn lemma_split_three(s: Seq<char>, sep: char)
    requires
        split(s, sep).len() == 3,
    ensures
        split(s, sep)[0].len() + split(s, sep)[1].len() + split(s, sep)[2].len() + 2 == s.len(),
{
    let parts = split(s, sep);
    lemma_split_total_length(s, sep);
    let two = parts.drop_last();
    let one = two.drop_last();
    let none = one.drop_last();
    assert(none.len() == 0);
    assert(total_length(none) == 0);
    assert(one.last() == parts[0]);
    assert(total_length(one) == total_length(none) + one.last().len());
    assert(two.last() == parts[1]);
    assert(total_length(two) == total_length(one) + two.last().len());
    assert(total_length(parts) == total_length(two) + parts[2].len());
}

/// The pieces joined back with the separator between each two.
pub open spec fn join(pieces: Seq<Seq<char>>, sep: char) -> Seq<char>
    decreases pieces.len(),
{
    if pieces.len() <= 1 {
        if pieces.len() == 0 {
            Seq::empty()
        } else {
            pieces[0]
        }
    } else {
        join(pieces.drop_last(), sep) + seq![sep] + pieces.last()
    }
}

/// Splitting loses nothing: joining the pieces with the separator gives
/// back the text, and no piece holds the separator.
pub proof fn lemma_split_join(s: Seq<char>, sep: char)
    ensures
        join(split(s, sep), sep) == s,
        forall|i: int, j: int|
            0 <= i < split(s, sep).len() && 0 <= j < split(s, sep)[i].len() ==> #[trigger] split(
                s,
                sep,
            )[i][j] != sep,
    decreases s.len(),
{
    lemma_split_bounds(s, sep);
    if s.len() == 0 {
        assert(join(split(s, sep), sep) =~= s);
    } else {
        let previous = split(s.drop_last(), sep);
        lemma_split_join(s.drop_last(), sep);
        lemma_split_bounds(s.drop_last(), sep);
        let current = split(s, sep);
        if s.last() == sep {
            assert(current == previous.push(Seq::<char>::empty()));
            assert(current.drop_last() =~= previous);
            assert(join(current, sep) =~= s);
            assert forall|i: int, j: int|
                0 <= i < current.len() && 0 <= j < current[i].len() implies #[trigger] current[i][j]
                != sep by {
                assert(current[i] == previous[i]);
            }
        } else {
            let last = previous.last().push(s.last());
            assert(current == previous.update(previous.len() - 1, last));
            assert(current.drop_last() =~= previous.drop_last());
            if previous.len() == 1 {
                assert(join(previous, sep) == previous[0]);
                assert(join(current, sep) == current[0]);
                assert(join(current, sep) =~= s);
            } else {
                let head = join(previous.drop_last(), sep);
                assert(join(previous, sep) == head + seq![sep] + previous.last());
                assert(join(current, sep) == join(current.drop_last(), sep) + seq![sep]
                    + current.last());
                assert(current.last() == last);
                assert(head + seq![sep] + last =~= (head + seq![sep] + previous.last()).push(
                    s.last(),
                ));
                assert(s =~= s.drop_last().push(s.last()));
                assert(join(current, sep) =~= s);
            }
            assert forall|i: int, j: int|
                0 <= i < current.len() && 0 <= j < current[i].len() implies #[trigger] current[i][j]
                != sep by {
                if i < previous.len() - 1 {
                    assert(current[i] == previous[i]);
                } else if j < previous.last().len() {
                    assert(current[i][j] == previous[i][j]);
                }
            }
        }
    }
}

/// A trimmed text neither starts nor ends with white space, and trimming
/// it again changes nothing.
pub proof fn lemma_trim_trimmed(s: Seq<char>)
    ensures
        trim(s).len() > 0 ==> !is_white_space(trim(s)[0]) && !is_white_space(trim(s).last()),
        trim(trim(s)) == trim(s),
{
    lemma_trim_start_clean(s);
    lemma_trim_end_len(trim_start(s));
    let t = trim(s);
    lemma_trim_end_clean(trim_start(s));
    if t.len() > 0 {
        assert(t[0] == trim_start(s)[0]);
    }
    lemma_trim_start_of_clean(t);
    lemma_trim_end_of_clean(t);
}

proof fn lemma_trim_start_clean(s: Seq<char>)
    ensures
        trim_start(s).len() > 0 ==> !is_white_space(trim_start(s)[0]),
    decreases s.len(),
{
    if s.len() > 0 && is_white_space(s[0]) {
        lemma_trim_start_clean(s.drop_first());
    }
}

proof fn lemma_trim_end_clean(s: Seq<char>)
    ensures
        trim_end(s).len() > 0 ==> !is_white_space(trim_end(s).last()),
    decreases s.len(),
{
    if s.len() > 0 && is_white_space(s.last()) {
        lemma_trim_end_clean(s.drop_last());
    }
}

proof fn lemma_trim_start_of_clean(s: Seq<char>)
    requires
        s.len() > 0 ==> !is_white_space(s[0]),
    ensures
        trim_start(s) == s,
{
}

proof fn lemma_trim_end_of_clean(s: Seq<char>)
    requires
        s.len() > 0 ==> !is_white_space(s.last()),
    ensures
        trim_end(s) == s,
{
}

/// The trimmed, non-empty pieces among `pieces`, in order.
pub open spec fn trimmed_nonempty(pieces: Seq<Seq<char>>) -> Seq<Seq<char>>
    decreases pieces.len(),
{
    if pieces.len() == 0 {
        Seq::empty()
    } else {
        let previous = trimmed_nonempty(pieces.drop_last());
        if trim(pieces.last()).len() > 0 {
            previous.push(trim(pieces.last()))
        } else {
            previous
        }
    }
}

/// The fields of `line` separated by `sep`, each trimmed, empty ones left
/// out.
pub open spec fn split_fields(line: Seq<char>, sep: char) -> Seq<Seq<char>> {
    trimmed_nonempty(split(line, sep))
}

/// The fields of `line` separated by `sep`, each trimmed, empty ones left
/// out.
pub fn split_fields_chars(line: &[char], sep: char) -> (result: Vec<Vec<char>>)
    ensures
        texts_view(result@) == split_fields(line@, sep),
        forall|i: int| 0 <= i < result@.len() ==> #[trigger] result@[i]@.len() <= line@.len(),
{
    let pieces = split_chars(line, sep);
    let mut result: Vec<Vec<char>> = Vec::new();
    let mut i: usize = 0;
    while i < pieces.len()
        invariant
            i <= pieces.len(),
            texts_view(pieces@) == split(line@, sep),
            texts_view(result@) == trimmed_nonempty(texts_view(pieces@).take(i as int)),
            forall|j: int| 0 <= j < pieces@.len() ==> #[trigger] pieces@[j]@.len() <= line@.len(),
            forall|j: int| 0 <= j < result@.len() ==> #[trigger] result@[j]@.len() <= line@.len(),
        decreases pieces.len() - i,
    {
        assert(texts_view(pieces@).take(i + 1).drop_last() =~= texts_view(pieces@).take(i as int));
        let trimmed = trim_chars(&pieces[i]);
        if trimmed.len() > 0 {
            result.push(trimmed);
        }
        assert(texts_view(result@) =~= trimmed_nonempty(texts_view(pieces@).take(i + 1)));
        i = i + 1;
    }
    assert(texts_view(pieces@).take(pieces.len() as int) =~= texts_view(pieces@));
    result
}

/// `s` without its trailing carriage returns.
pub open spec fn strip_carriage_returns(s: Seq<char>) -> Seq<char>
    decreases s.len(),
{
    if s.len() > 0 && s.last() == '\r' {
        strip_carriage_returns(s.drop_last())
    } else {
        s
    }
}

/// The lines of a source file's text: the trimmed text split at line
/// feeds, each line without its trailing carriage returns; none for a text
/// that is all white space.
pub open spec fn source_lines(content: Seq<char>) -> Seq<Seq<char>> {
    if trim(content).len() == 0 {
        Seq::empty()
    } else {
        split(trim(content), '\n').map_values(|line: Seq<char>| strip_carriage_returns(line))
    }
}

/// The lines among `lines` that hold more than white space, in order.
pub open spec fn nonblank(lines: Seq<Seq<char>>) -> Seq<Seq<char>>
    decreases lines.len(),
{
    if lines.len() == 0 {
        Seq::empty()
    } else if trim(lines.last()).len() > 0 {
        nonblank(lines.drop_last()).push(lines.last())
    } else {
        nonblank(lines.drop_last())
    }
}

proof fn lemma_strip_carriage_returns_len(s: Seq<char>)
    ensures
        strip_carriage_returns(s).len() <= s.len(),
    decreases s.len(),
{
    if s.len() > 0 && s.last() == '\r' {
        lemma_strip_carriage_returns_len(s.drop_last());
    }
}

/// Every line of a source file is no longer than the file's text.
pub proof fn lemma_source_lines_bounded(content: Seq<char>)
    ensures
        forall|i: int| 0 <= i < source_lines(content).len() ==> #[trigger] source_lines(content)[i].len()
            <= content.len(),
{
    lemma_trim_len(content);
    let pieces = split(trim(content), '\n');
    lemma_split_bounds(trim(content), '\n');
    assert forall|i: int| 0 <= i < source_lines(content).len() implies #[trigger] source_lines(
        content,
    )[i].len() <= content.len() by {
        lemma_strip_carriage_returns_len(pieces[i]);
    }
}

/// The non-blank lines of a source file's text.
pub open spec fn nonempty_source_lines(content: Seq<char>) -> Seq<Seq<char>> {
    nonblank(source_lines(content))
}

/// `line` without its trailing carriage returns.
fn strip_carriage_returns_chars(line: &[char]) -> (result: Vec<char>)
    ensures
        result@ == strip_carriage_returns(line@),
        result@.len() <= line@.len(),
{
    let mut end: usize = line.len();
    assert(line@.take(end as int) =~= line@);
    while end > 0 && line[end - 1] == '\r'
        invariant
            end <= line.len(),
            strip_carriage_returns(line@.take(end as int)) == strip_carriage_returns(line@),
        decreases end,
    {
        assert(line@.take(end as int).drop_last() =~= line@.take(end - 1));
        end = end - 1;
    }
    let mut result: Vec<char> = Vec::new();
    let mut i: usize = 0;
    while i < end
        invariant
            i <= end <= line.len(),
            result@ == line@.take(i as int),
        decreases end - i,
    {
        result.push(line[i]);
        i = i + 1;
        assert(result@ =~= line@.take(i as int));
    }
    result
}

/// The lines of a source file's text (see [`source_lines`]).
pub fn source_lines_of(content: &str) -> (result: Vec<Vec<char>>)
    ensures
        texts_view(result@) == source_lines(content@),
        forall|i: int| 0 <= i < result@.len() ==> #[trigger] result@[i]@.len() <= content@.len(),
{
    let chars = chars_of(content);
    let trimmed = trim_chars(&chars);
    proof {
        lemma_trim_len(content@);
    }
    let mut result: Vec<Vec<char>> = Vec::new();
    if trimmed.len() == 0 {
        assert(texts_view(result@) =~= source_lines(content@));
        return result;
    }
    let pieces = split_chars(&trimmed, '\n');
    proof {
        lemma_split_bounds(trimmed@, '\n');
        assert forall|j: int| 0 <= j < pieces@.len() implies #[trigger] pieces@[j]@.len()
            <= trimmed@.len() by {
            assert(texts_view(pieces@)[j] == pieces@[j]@);
        }
    }
    let ghost expected = split(trimmed@, '\n').map_values(
        |line: Seq<char>| strip_carriage_returns(line),
    );
    let mut i: usize = 0;
    while i < pieces.len()
        invariant
            i <= pieces.len(),
            trimmed@.len() <= content@.len(),
            texts_view(pieces@) == split(trimmed@, '\n'),
            forall|j: int| 0 <= j < pieces@.len() ==> #[trigger] pieces@[j]@.len() <= trimmed@.len(),
            expected == split(trimmed@, '\n').map_values(
                |line: Seq<char>| strip_carriage_returns(line),
            ),
            texts_view(result@) == expected.take(i as int),
            forall|j: int| 0 <= j < result@.len() ==> #[trigger] result@[j]@.len() <= content@.len(),
        decreases pieces.len() - i,
    {
        assert(texts_view(pieces@)[i as int] == pieces@[i as int]@);
        let line = strip_carriage_returns_chars(&pieces[i]);
        assert(line@ == expected[i as int]);
        let ghost previous = result@;
        result.push(line);
        assert(result@ == previous.push(line));
        assert(texts_view(result@) =~= texts_view(previous).push(line@));
        assert(expected.take(i + 1) =~= expected.take(i as int).push(expected[i as int]));
        i = i + 1;
    }
    assert(expected.take(pieces.len() as int) =~= expected);
    result
}

/// The non-blank lines of a source file's text (see
/// [`nonempty_source_lines`]).
pub fn nonempty_source_lines_of(content: &str) -> (result: Vec<Vec<char>>)
    ensures
        texts_view(result@) == nonempty_source_lines(content@),
        forall|i: int| 0 <= i < result@.len() ==> #[trigger] result@[i]@.len() <= content@.len(),
{
    let lines = source_lines_of(content);
    let mut result: Vec<Vec<char>> = Vec::new();
    let mut i: usize = 0;
    while i < lines.len()
        invariant
            i <= lines.len(),
            texts_view(lines@) == source_lines(content@),
            forall|j: int| 0 <= j < lines@.len() ==> #[trigger] lines@[j]@.len() <= content@.len(),
            texts_view(result@) == nonblank(texts_view(lines@).take(i as int)),
            forall|j: int| 0 <= j < result@.len() ==> #[trigger] result@[j]@.len() <= content@.len(),
        decreases lines.len() - i,
    {
        assert(texts_view(lines@).take(i + 1).drop_last() =~= texts_view(lines@).take(i as int));
        assert(texts_view(lines@)[i as int] == lines@[i as int]@);
        let trimmed = trim_chars(&lines[i]);
        if trimmed.len() > 0 {
            let line = lines[i].clone();
            result.push(line);
        }
        assert(texts_view(result@) =~= nonblank(texts_view(lines@).take(i + 1)));
        i = i + 1;
    }
    assert(texts_view(lines@).take(lines.len() as int) =~= texts_view(lines@));
    result
}

} // verus!
