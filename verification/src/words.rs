//! The words of the Jyutping lexicon, each once, in the order of their
//! first lines.

use vstd::prelude::*;
use crate::text::{split, split_chars, texts_view, trim, trim_chars};
use crate::text_index::TextIndex;

verus! {

/// The word of a lexicon line: its first tab-separated field, trimmed.
pub open spec fn line_word(line: Seq<char>) -> Seq<char> {
    trim(split(line, '\t')[0])
}

/// The words of the lines, in order; with `single_character_only`, only
/// the words of exactly one character.
pub open spec fn candidate_words(lines: Seq<Seq<char>>, single_character_only: bool) -> Seq<
    Seq<char>,
>
    decreases lines.len(),
{
    if lines.len() == 0 {
        Seq::empty()
    } else {
        let previous = candidate_words(lines.drop_last(), single_character_only);
        let word = line_word(lines.last());
        if !single_character_only || word.len() == 1 {
            previous.push(word)
        } else {
            previous
        }
    }
}

/// The items of `items` without repetitions, each at its first occurrence.
pub open spec fn first_occurrences<T>(items: Seq<T>) -> Seq<T>
    decreases items.len(),
{
    if items.len() == 0 {
        Seq::empty()
    } else {
        let previous = first_occurrences(items.drop_last());
        if previous.contains(items.last()) {
            previous
        } else {
            previous.push(items.last())
        }
    }
}

/// The distinct words of the lexicon lines, in the order of their first
/// lines (see [`candidate_words`]).
pub open spec fn spec_jyutping_words(lines: Seq<Seq<char>>, single_character_only: bool) -> Seq<
    Seq<char>,
> {
    first_occurrences(candidate_words(lines, single_character_only))
}

/// The distinct words of the lexicon lines, in the order of their first
/// lines; with `single_character_only`, only the words of one character.
pub fn jyutping_words(lines: &Vec<Vec<char>>, single_character_only: bool) -> (result: Vec<
    Vec<char>,
>)
    ensures
        texts_view(result@) == spec_jyutping_words(texts_view(lines@), single_character_only),
{
    let ghost all = texts_view(lines@);
    let mut words: Vec<Vec<char>> = Vec::new();
    let mut seen = TextIndex::new();
    let mut i: usize = 0;
    assert(texts_view(words@) =~= Seq::<Seq<char>>::empty());
    while i < lines.len()
        invariant
            i <= lines.len(),
            all == texts_view(lines@),
            seen.well_formed(),
            seen@ == texts_view(words@),
            texts_view(words@) == spec_jyutping_words(all.take(i as int), single_character_only),
        decreases lines.len() - i,
    {
        let ghost before = all.take(i as int);
        assert(all.take(i + 1).drop_last() =~= before);
        assert(all[i as int] == lines@[i as int]@);
        let parts = split_chars(&lines[i], '\t');
        proof {
            crate::text::lemma_split_bounds(lines@[i as int]@, '\t');
            assert(texts_view(parts@)[0] == parts@[0]@);
        }
        let word = trim_chars(&parts[0]);
        let ghost candidates = candidate_words(before, single_character_only);
        assert(word@ == line_word(all[i as int]));
        if !single_character_only || word.len() == 1 {
            assert(candidate_words(all.take(i + 1), single_character_only) == candidates.push(
                word@,
            ));
            assert(candidates.push(word@).drop_last() =~= candidates);
            if seen.find(&word).is_none() {
                let ghost previous = words@;
                seen.push(word.clone());
                words.push(word);
                assert(texts_view(words@) =~= texts_view(previous).push(word@));
            } else {
                assert(texts_view(words@).contains(word@));
            }
        } else {
            assert(candidate_words(all.take(i + 1), single_character_only) == candidates);
        }
        i = i + 1;
    }
    assert(all.take(lines.len() as int) =~= all);
    words
}

/// Items that are all among `before` add nothing to its first
/// occurrences.
pub proof fn lemma_first_occurrences_absorb<T>(before: Seq<T>, extra: Seq<T>)
    requires
        forall|k: int| 0 <= k < extra.len() ==> before.contains(#[trigger] extra[k]),
    ensures
        first_occurrences(before + extra) == first_occurrences(before),
    decreases extra.len(),
{
    if extra.len() == 0 {
        assert(before + extra =~= before);
    } else {
        let shorter = extra.drop_last();
        assert forall|k: int| 0 <= k < shorter.len() implies before.contains(#[trigger] shorter[k]) by {
            assert(shorter[k] == extra[k]);
        }
        lemma_first_occurrences_absorb(before, shorter);
        assert((before + extra).drop_last() =~= before + shorter);
        assert((before + extra).last() == extra.last());
        assert(before.contains(extra[extra.len() - 1]));
        lemma_first_occurrences(before);
    }
}

/// Whether `item` occurs among `items` before position `q`.
pub open spec fn occurs_before<T>(items: Seq<T>, q: int, item: T) -> bool {
    exists|p: int| 0 <= p < q && #[trigger] items[p] == item
}

/// The first occurrences keep the order of the items: when one kept item
/// comes before another, some occurrence of the first comes before every
/// occurrence of the second among the items.
pub proof fn lemma_first_occurrences_order<T>(items: Seq<T>)
    ensures
        forall|i: int, j: int, q: int|
            #![trigger first_occurrences(items)[i], first_occurrences(items)[j], items[q]]
            0 <= i < j < first_occurrences(items).len() && 0 <= q < items.len() && items[q]
                == first_occurrences(items)[j] ==> occurs_before(items, q, first_occurrences(items)[i]),
{
    assert forall|i: int, j: int, q: int|
        #![trigger first_occurrences(items)[i], first_occurrences(items)[j], items[q]]
        0 <= i < j < first_occurrences(items).len() && 0 <= q < items.len() && items[q]
            == first_occurrences(items)[j] implies occurs_before(items, q, first_occurrences(items)[i]) by {
        let p = lemma_first_occurrences_order_at(items, i, j, q);
        assert(items[p] == first_occurrences(items)[i]);
    }
}

proof fn lemma_first_occurrences_order_at<T>(items: Seq<T>, i: int, j: int, q: int) -> (p: int)
    requires
        0 <= i < j < first_occurrences(items).len(),
        0 <= q < items.len(),
        items[q] == first_occurrences(items)[j],
    ensures
        0 <= p < q,
        items[p] == first_occurrences(items)[i],
    decreases items.len(),
{
    let previous = items.drop_last();
    lemma_first_occurrences(previous);
    let before = first_occurrences(previous);
    let result = first_occurrences(items);
    let last = items.len() - 1;
    assert(items[last] == items.last());
    assert(i < before.len());
    assert(result[i] == before[i]);
    assert(before.contains(before[i]));
    assert(previous.contains(before[i]));
    let p0 = choose|p: int| 0 <= p < previous.len() && previous[p] == before[i];
    assert(items[p0] == previous[p0]);
    if q < last {
        assert(items[q] == previous[q]);
        if j < before.len() {
            assert(result[j] == before[j]);
            let p = lemma_first_occurrences_order_at(previous, i, j, q);
            assert(items[p] == previous[p]);
            p
        } else {
            assert(result[j] == items.last());
            assert(previous.contains(items.last()));
            assert(before.contains(items.last()));
            p0
        }
    } else {
        p0
    }
}

/// Each item of `first_occurrences(items)` occurs once, and the items are
/// those of `items`.
pub proof fn lemma_first_occurrences<T>(items: Seq<T>)
    ensures
        first_occurrences(items).no_duplicates(),
        forall|item: T| #[trigger]
            first_occurrences(items).contains(item) <==> items.contains(item),
    decreases items.len(),
{
    if items.len() > 0 {
        let previous = first_occurrences(items.drop_last());
        lemma_first_occurrences(items.drop_last());
        assert forall|item: T| #[trigger]
            first_occurrences(items).contains(item) <==> items.contains(item) by {
            let last = items.last();
            if previous.contains(last) {
                assert(first_occurrences(items) == previous);
            } else {
                assert(first_occurrences(items) == previous.push(last));
                assert(previous.push(last)[previous.len() as int] == last);
                if previous.push(last).contains(item) && item != last {
                    let k = choose|k: int| 0 <= k < previous.push(last).len() && previous.push(
                        last,
                    )[k] == item;
                    assert(previous[k] == item);
                }
                if previous.contains(item) {
                    let k = choose|k: int| 0 <= k < previous.len() && previous[k] == item;
                    assert(previous.push(last)[k] == item);
                }
            }
            if items.contains(item) {
                let k = choose|k: int| 0 <= k < items.len() && items[k] == item;
                if k < items.len() - 1 {
                    assert(items.drop_last()[k] == item);
                }
            }
            if items.drop_last().contains(item) {
                let k = choose|k: int| 0 <= k < items.drop_last().len() && items.drop_last()[k]
                    == item;
                assert(items[k] == item);
            }
        }
    }
}

/// The word list has each word once, and holds exactly the words of the
/// lines (those of one character when `single_character_only`).
pub proof fn lemma_jyutping_words_distinct(lines: Seq<Seq<char>>, single_character_only: bool)
    ensures
        spec_jyutping_words(lines, single_character_only).no_duplicates(),
        forall|word: Seq<char>| #[trigger]
            spec_jyutping_words(lines, single_character_only).contains(word)
                <==> candidate_words(lines, single_character_only).contains(word),
{
    lemma_first_occurrences(candidate_words(lines, single_character_only));
}


/// The words of lines no longer than `bound` are no longer than `bound`.
pub proof fn lemma_jyutping_words_bounded(
    lines: Seq<Seq<char>>,
    single_character_only: bool,
    bound: int,
)
    requires
        forall|i: int| 0 <= i < lines.len() ==> #[trigger] lines[i].len() <= bound,
    ensures
        forall|i: int| 0 <= i < spec_jyutping_words(lines, single_character_only).len()
            ==> #[trigger] spec_jyutping_words(lines, single_character_only)[i].len() <= bound,
{
    lemma_candidate_words_bounded(lines, single_character_only, bound);
    lemma_first_occurrences(candidate_words(lines, single_character_only));
    let words = spec_jyutping_words(lines, single_character_only);
    let candidates = candidate_words(lines, single_character_only);
    assert forall|i: int| 0 <= i < words.len() implies #[trigger] words[i].len() <= bound by {
        assert(words.contains(words[i]));
        assert(candidates.contains(words[i]));
        let k = choose|k: int| 0 <= k < candidates.len() && candidates[k] == words[i];
        assert(candidates[k].len() <= bound);
    }
}

proof fn lemma_candidate_words_bounded(lines: Seq<Seq<char>>, single_character_only: bool, bound: int)
    requires
        forall|i: int| 0 <= i < lines.len() ==> #[trigger] lines[i].len() <= bound,
    ensures
        forall|i: int| 0 <= i < candidate_words(lines, single_character_only).len()
            ==> #[trigger] candidate_words(lines, single_character_only)[i].len() <= bound,
    decreases lines.len(),
{
    if lines.len() > 0 {
        assert forall|i: int| 0 <= i < lines.drop_last().len() implies #[trigger] lines.drop_last()[i].len()
            <= bound by {
            assert(lines.drop_last()[i] == lines[i]);
        }
        lemma_candidate_words_bounded(lines.drop_last(), single_character_only, bound);
        let previous = candidate_words(lines.drop_last(), single_character_only);
        let current = candidate_words(lines, single_character_only);
        let line = lines[lines.len() - 1];
        crate::text::lemma_split_bounds(line, '\t');
        crate::text::lemma_trim_len(split(line, '\t')[0]);
        assert(line_word(lines.last()).len() <= bound);
        assert forall|i: int| 0 <= i < current.len() implies #[trigger] current[i].len() <= bound by {
            if i < previous.len() {
                assert(current[i] == previous[i]);
            }
        }
    }
}

} // verus!
