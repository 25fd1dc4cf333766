//! Maps from a text to the texts that source files list for it, in the
//! order of the files' lines.

use vstd::prelude::*;
use crate::codes::{curly_apostrophes, normalize_definition_chars};
use crate::text_index::TextIndex;
use crate::text::{
    source_lines, source_lines_of, split, split_chars, split_fields, split_fields_chars,
    texts_view,
};

verus! {

/// The values paired with `key` in `pairs`, in order.
pub open spec fn pair_values(pairs: Seq<(Seq<char>, Seq<char>)>, key: Seq<char>) -> Seq<Seq<char>>
    decreases pairs.len(),
{
    if pairs.len() == 0 {
        Seq::empty()
    } else if pairs.last().0 == key {
        pair_values(pairs.drop_last(), key).push(pairs.last().1)
    } else {
        pair_values(pairs.drop_last(), key)
    }
}

/// The values stored for `key`: those at the last position whose key is
/// `key`, or none.
pub open spec fn values_in(keys: Seq<Seq<char>>, values: Seq<Seq<Seq<char>>>, key: Seq<char>) -> Seq<
    Seq<char>,
>
    decreases keys.len(),
{
    if keys.len() == 0 || values.len() == 0 {
        Seq::empty()
    } else if keys.last() == key {
        values.last()
    } else {
        values_in(keys.drop_last(), values.drop_last(), key)
    }
}

proof fn lemma_values_in_found(
    keys: Seq<Seq<char>>,
    values: Seq<Seq<Seq<char>>>,
    key: Seq<char>,
    j: int,
)
    requires
        keys.len() == values.len(),
        0 <= j < keys.len(),
        keys[j] == key,
        forall|i: int| j < i < keys.len() ==> keys[i] != key,
    ensures
        values_in(keys, values, key) == values[j],
    decreases keys.len(),
{
    if j < keys.len() - 1 {
        lemma_values_in_found(keys.drop_last(), values.drop_last(), key, j);
    }
}

proof fn lemma_values_in_absent(keys: Seq<Seq<char>>, values: Seq<Seq<Seq<char>>>, key: Seq<char>)
    requires
        keys.len() == values.len(),
        forall|i: int| 0 <= i < keys.len() ==> keys[i] != key,
    ensures
        values_in(keys, values, key) == Seq::<Seq<char>>::empty(),
    decreases keys.len(),
{
    if keys.len() > 0 {
        lemma_values_in_absent(keys.drop_last(), values.drop_last(), key);
    }
}

proof fn lemma_values_in_update(
    keys: Seq<Seq<char>>,
    values: Seq<Seq<Seq<char>>>,
    j: int,
    new_values: Seq<Seq<char>>,
    key: Seq<char>,
)
    requires
        keys.len() == values.len(),
        0 <= j < keys.len(),
        forall|i: int| j < i < keys.len() ==> keys[i] != keys[j],
    ensures
        values_in(keys, values.update(j, new_values), key) == if key == keys[j] {
            new_values
        } else {
            values_in(keys, values, key)
        },
    decreases keys.len(),
{
    if j < keys.len() - 1 {
        assert(values.update(j, new_values).drop_last() =~= values.drop_last().update(
            j,
            new_values,
        ));
        lemma_values_in_update(keys.drop_last(), values.drop_last(), j, new_values, key);
    } else {
        assert(values.update(j, new_values).drop_last() =~= values.drop_last());
    }
}

/// The models of a vector of lists of texts.
pub open spec fn lists_view(lists: Seq<Vec<Vec<char>>>) -> Seq<Seq<Seq<char>>> {
    lists.map_values(|list: Vec<Vec<char>>| texts_view(list@))
}

/// The position of `key` among `keys`, which are distinct and indexed by
/// `index`, if it occurs.
fn find_key(index: &TextIndex, keys: &Vec<Vec<char>>, key: &[char]) -> (result: Option<usize>)
    requires
        index.well_formed(),
        index@ == texts_view(keys@),
        texts_view(keys@).no_duplicates(),
    ensures
        match result {
            Some(j) => {
                &&& j < keys@.len()
                &&& keys@[j as int]@ == key@
                &&& forall|m: int| j < m < keys@.len() ==> keys@[m]@ != key@
            },
            None => forall|m: int| 0 <= m < keys@.len() ==> keys@[m]@ != key@,
        },
{
    let found = index.find(key);
    proof {
        let view = texts_view(keys@);
        match found {
            Some(j) => {
                assert(view[j as int] == keys@[j as int]@);
                assert forall|m: int| j < m < keys@.len() implies keys@[m]@ != key@ by {
                    assert(view[m] == keys@[m]@);
                }
            },
            None => {
                assert forall|m: int| 0 <= m < keys@.len() implies keys@[m]@ != key@ by {
                    assert(view[m] == keys@[m]@);
                }
            },
        }
    }
    found
}

/// A map from texts to the non-empty lists of texts stored for them.
pub struct TextMap {
    keys: Vec<Vec<char>>,
    values: Vec<Vec<Vec<char>>>,
    index: TextIndex,
}

impl TextMap {
    #[verifier::type_invariant]
    spec fn well_formed(self) -> bool {
        &&& self.keys.len() == self.values.len()
        &&& forall|j: int| 0 <= j < self.values.len() ==> #[trigger] self.values@[j].len() > 0
        &&& self.index.well_formed()
        &&& self.index@ == texts_view(self.keys@)
        &&& texts_view(self.keys@).no_duplicates()
    }

    spec fn values_view(self) -> Seq<Seq<Seq<char>>> {
        lists_view(self.values@)
    }

    /// The texts stored for `key`, in order; none when the key is absent.
    pub closed spec fn values_of(self, key: Seq<char>) -> Seq<Seq<char>> {
        values_in(texts_view(self.keys@), self.values_view(), key)
    }

    /// The texts stored for each key, as a function.
    pub open spec fn lookup(self) -> spec_fn(Seq<char>) -> Seq<Seq<char>> {
        |key: Seq<char>| self.values_of(key)
    }

    /// The map that stores, for each key, the values paired with it in
    /// `pairs`, in order.
    pub fn from_pairs(pairs: &Vec<(Vec<char>, Vec<char>)>) -> (result: TextMap)
        ensures
            forall|key: Seq<char>| #[trigger]
                result.values_of(key) == pair_values(pairs_view(pairs@), key),
    {
        let ghost all = pairs_view(pairs@);
        let mut keys: Vec<Vec<char>> = Vec::new();
        let mut values: Vec<Vec<Vec<char>>> = Vec::new();
        let mut index = TextIndex::new();
        let mut i: usize = 0;
        assert(texts_view(keys@) =~= Seq::<Seq<char>>::empty());
        while i < pairs.len()
            invariant
                i <= pairs.len(),
                all == pairs_view(pairs@),
                keys.len() == values.len(),
                index.well_formed(),
                index@ == texts_view(keys@),
                texts_view(keys@).no_duplicates(),
                forall|j: int| 0 <= j < values.len() ==> #[trigger] values@[j].len() > 0,
                forall|key: Seq<char>| #[trigger]
                    values_in(
                        texts_view(keys@),
                        lists_view(values@),
                        key,
                    ) == pair_values(all.take(i as int), key),
            decreases pairs.len() - i,
        {
            let key = &pairs[i].0;
            let value = &pairs[i].1;
            let ghost keys_view = texts_view(keys@);
            let ghost old_values = lists_view(values@);
            assert(all.take(i + 1).drop_last() =~= all.take(i as int));
            assert(all[i as int] == (key@, value@));
            let found = find_key(&index, &keys, key);
            match found {
                Some(j) => {
                    proof {
                        assert forall|m: int| j < m < keys_view.len() implies keys_view[m]
                            != keys_view[j as int] by {
                            assert(keys_view[m] == keys@[m]@);
                        }
                    }
                    let mut list: Vec<Vec<char>> = Vec::new();
                    values.set_and_swap(j, &mut list);
                    let ghost old_list = texts_view(list@);
                    list.push(value.clone());
                    let ghost new_list = texts_view(list@);
                    assert(new_list =~= old_list.push(value@));
                    values.set_and_swap(j, &mut list);
                    proof {
                        let new_values = lists_view(values@);
                        assert(new_values =~= old_values.update(j as int, new_list));
                        assert(old_list == old_values[j as int]);
                        lemma_values_in_found(keys_view, old_values, key@, j as int);
                        assert forall|other: Seq<char>| #[trigger]
                            values_in(keys_view, new_values, other) == pair_values(
                                all.take(i + 1),
                                other,
                            ) by {
                            lemma_values_in_update(keys_view, old_values, j as int, new_list, other);
                        }
                    }
                },
                None => {
                    proof {
                        assert forall|m: int| 0 <= m < keys_view.len() implies keys_view[m]
                            != key@ by {
                            assert(keys_view[m] == keys@[m]@);
                        }
                        lemma_values_in_absent(keys_view, old_values, key@);
                    }
                    index.push(key.clone());
                    keys.push(key.clone());
                    proof {
                        assert(texts_view(keys@) =~= keys_view.push(key@));
                        assert forall|a: int, b: int|
                            0 <= a < b < texts_view(keys@).len() implies texts_view(keys@)[a]
                            != texts_view(keys@)[b] by {
                            if b == keys_view.len() {
                                assert(keys_view[a] == keys@[a]@);
                            } else {
                                assert(keys_view[a] != keys_view[b]);
                            }
                        }
                    }
                    let mut list: Vec<Vec<char>> = Vec::new();
                    list.push(value.clone());
                    assert(texts_view(list@) =~= seq![value@]);
                    values.push(list);
                    proof {
                        let new_values = lists_view(values@);
                        assert(texts_view(keys@) =~= keys_view.push(key@));
                        assert(new_values =~= old_values.push(seq![value@]));
                        assert forall|other: Seq<char>| #[trigger]
                            values_in(texts_view(keys@), new_values, other) == pair_values(
                                all.take(i + 1),
                                other,
                            ) by {
                            assert(texts_view(keys@).drop_last() =~= keys_view);
                            assert(new_values.drop_last() =~= old_values);
                            assert(values_in(keys_view, old_values, other) == pair_values(
                                all.take(i as int),
                                other,
                            ));
                            assert(seq![value@] =~= Seq::<Seq<char>>::empty().push(value@));
                        }
                    }
                },
            }
            i = i + 1;
        }
        assert(all.take(pairs.len() as int) =~= all);
        TextMap { keys, values, index }
    }

    /// The texts stored for `key`, when there are any.
    pub fn get(&self, key: &[char]) -> (result: Option<&Vec<Vec<char>>>)
        ensures
            match result {
                Some(list) => texts_view(list@) == self.values_of(key@) && list@.len() > 0,
                None => self.values_of(key@) == Seq::<Seq<char>>::empty(),
            },
    {
        proof {
            use_type_invariant(self);
        }
        let ghost keys_view = texts_view(self.keys@);
        match find_key(&self.index, &self.keys, key) {
            Some(j) => {
                proof {
                    assert forall|m: int| j < m < keys_view.len() implies keys_view[m]
                        != key@ by {
                        assert(keys_view[m] == self.keys@[m]@);
                    }
                    lemma_values_in_found(keys_view, self.values_view(), key@, j as int);
                    assert(self.values_view()[j as int] == texts_view(self.values@[j as int]@));
                    assert(self.values@[j as int].len() > 0);
                }
                Some(&self.values[j])
            },
            None => {
                proof {
                    assert forall|m: int| 0 <= m < keys_view.len() implies keys_view[m]
                        != key@ by {
                        assert(keys_view[m] == self.keys@[m]@);
                    }
                    lemma_values_in_absent(keys_view, self.values_view(), key@);
                }
                None
            },
        }
    }
}

/// The models of a vector of pairs of texts.
pub open spec fn pairs_view(pairs: Seq<(Vec<char>, Vec<char>)>) -> Seq<(Seq<char>, Seq<char>)> {
    pairs.map_values(|pair: (Vec<char>, Vec<char>)| (pair.0@, pair.1@))
}

/// The (key, value) pairs that the lines of a mapping file list: each line
/// of exactly two tab-separated fields gives one; other lines are skipped.
pub open spec fn source_pairs(lines: Seq<Seq<char>>) -> Seq<(Seq<char>, Seq<char>)>
    decreases lines.len(),
{
    if lines.len() == 0 {
        Seq::empty()
    } else if split(lines.last(), '\t').len() == 2 {
        source_pairs(lines.drop_last()).push(
            (split(lines.last(), '\t')[0], split(lines.last(), '\t')[1]),
        )
    } else {
        source_pairs(lines.drop_last())
    }
}

/// The map of a mapping file's text: for each key, the values that its
/// lines of two tab-separated fields pair with it, in order.
pub fn source_map(content: &str) -> (result: TextMap)
    ensures
        forall|key: Seq<char>| #[trigger]
            result.values_of(key) == pair_values(source_pairs(source_lines(content@)), key),
{
    let lines = source_lines_of(content);
    let ghost all = texts_view(lines@);
    let mut pairs: Vec<(Vec<char>, Vec<char>)> = Vec::new();
    let mut i: usize = 0;
    while i < lines.len()
        invariant
            i <= lines.len(),
            all == texts_view(lines@),
            pairs_view(pairs@) == source_pairs(all.take(i as int)),
        decreases lines.len() - i,
    {
        assert(all.take(i + 1).drop_last() =~= all.take(i as int));
        assert(all[i as int] == lines@[i as int]@);
        let parts = split_chars(&lines[i], '\t');
        if parts.len() == 2 {
            assert(texts_view(parts@)[0] == parts@[0]@);
            assert(texts_view(parts@)[1] == parts@[1]@);
            let ghost previous = pairs@;
            pairs.push((parts[0].clone(), parts[1].clone()));
            assert(pairs_view(pairs@) =~= pairs_view(previous).push((parts@[0]@, parts@[1]@)));
        }
        i = i + 1;
    }
    assert(all.take(lines.len() as int) =~= all);
    TextMap::from_pairs(&pairs)
}

/// The values of the pairs are no longer than `bound` when the lines are
/// not.
pub proof fn lemma_source_pairs_bounded(lines: Seq<Seq<char>>, bound: int)
    requires
        forall|i: int| 0 <= i < lines.len() ==> #[trigger] lines[i].len() <= bound,
    ensures
        forall|i: int| 0 <= i < source_pairs(lines).len() ==> #[trigger] source_pairs(lines)[i].1.len()
            <= bound,
    decreases lines.len(),
{
    if lines.len() > 0 {
        assert forall|i: int| 0 <= i < lines.drop_last().len() implies #[trigger] lines.drop_last()[i].len()
            <= bound by {
            assert(lines.drop_last()[i] == lines[i]);
        }
        let previous = source_pairs(lines.drop_last());
        lemma_source_pairs_bounded(lines.drop_last(), bound);
        crate::text::lemma_split_bounds(lines.last(), '\t');
        assert(lines.last().len() <= bound);
        let parts = split(lines.last(), '\t');
        if parts.len() == 2 {
            assert(parts[1].len() <= lines.last().len());
            let current = source_pairs(lines);
            assert(current == previous.push((parts[0], parts[1])));
            assert forall|i: int| 0 <= i < current.len() implies #[trigger] current[i].1.len()
                <= bound by {
                if i < previous.len() {
                    assert(current[i] == previous[i]);
                }
            }
        }
    }
}

/// The values paired with a key are no longer than `bound` when no value of
/// the pairs is.
pub proof fn lemma_pair_values_bounded(pairs: Seq<(Seq<char>, Seq<char>)>, key: Seq<char>, bound: int)
    requires
        forall|i: int| 0 <= i < pairs.len() ==> #[trigger] pairs[i].1.len() <= bound,
    ensures
        forall|i: int| 0 <= i < pair_values(pairs, key).len() ==> #[trigger] pair_values(pairs, key)[i].len()
            <= bound,
    decreases pairs.len(),
{
    if pairs.len() > 0 {
        let previous = pair_values(pairs.drop_last(), key);
        assert forall|i: int| 0 <= i < pairs.drop_last().len() implies #[trigger] pairs.drop_last()[i].1.len()
            <= bound by {
            assert(pairs.drop_last()[i] == pairs[i]);
        }
        lemma_pair_values_bounded(pairs.drop_last(), key, bound);
        let current = pair_values(pairs, key);
        assert(pairs.last() == pairs[pairs.len() - 1]);
        assert forall|i: int| 0 <= i < current.len() implies #[trigger] current[i].len() <= bound by {
            if pairs.last().0 == key {
                assert(current == previous.push(pairs.last().1));
                if i < previous.len() {
                    assert(current[i] == previous[i]);
                }
            } else {
                assert(current == previous);
            }
        }
    }
}

/// The values that a mapping file's text pairs with each key.
pub open spec fn source_lookup(content: Seq<char>) -> spec_fn(Seq<char>) -> Seq<Seq<char>> {
    |key: Seq<char>| pair_values(source_pairs(source_lines(content)), key)
}

/// Every value that a mapping file pairs with a key is no longer than the
/// file's text.
pub proof fn lemma_source_lookup_bounded(content: Seq<char>, key: Seq<char>)
    ensures
        forall|i: int| 0 <= i < source_lookup(content)(key).len() ==> #[trigger] source_lookup(content)(
            key,
        )[i].len() <= content.len(),
{
    crate::text::lemma_source_lines_bounded(content);
    lemma_source_pairs_bounded(source_lines(content), content.len() as int);
    lemma_pair_values_bounded(source_pairs(source_lines(content)), key, content.len() as int);
}

/// The (word, definition) pairs that the lines of the definition file list:
/// each line of exactly three non-empty tab-separated fields pairs its first
/// field with its third, apostrophes made curly; other lines are skipped.
pub open spec fn definition_pairs(lines: Seq<Seq<char>>) -> Seq<(Seq<char>, Seq<char>)>
    decreases lines.len(),
{
    if lines.len() == 0 {
        Seq::empty()
    } else if split_fields(lines.last(), '\t').len() == 3 {
        definition_pairs(lines.drop_last()).push(
            (
                split_fields(lines.last(), '\t')[0],
                curly_apostrophes(split_fields(lines.last(), '\t')[2]),
            ),
        )
    } else {
        definition_pairs(lines.drop_last())
    }
}

/// The definitions of the definition file's text: for each word, the
/// definitions that its lines give, in order; the first one is the word's.
pub fn definition_map(content: &str) -> (result: TextMap)
    ensures
        forall|key: Seq<char>| #[trigger]
            result.values_of(key) == pair_values(definition_pairs(source_lines(content@)), key),
{
    let lines = source_lines_of(content);
    let ghost all = texts_view(lines@);
    let mut pairs: Vec<(Vec<char>, Vec<char>)> = Vec::new();
    let mut i: usize = 0;
    while i < lines.len()
        invariant
            i <= lines.len(),
            all == texts_view(lines@),
            pairs_view(pairs@) == definition_pairs(all.take(i as int)),
        decreases lines.len() - i,
    {
        assert(all.take(i + 1).drop_last() =~= all.take(i as int));
        assert(all[i as int] == lines@[i as int]@);
        let parts = split_fields_chars(&lines[i], '\t');
        if parts.len() == 3 {
            assert(texts_view(parts@)[0] == parts@[0]@);
            assert(texts_view(parts@)[2] == parts@[2]@);
            let definition = normalize_definition_chars(&parts[2]);
            let ghost previous = pairs@;
            pairs.push((parts[0].clone(), definition));
            assert(pairs_view(pairs@) =~= pairs_view(previous).push(
                (parts@[0]@, curly_apostrophes(parts@[2]@)),
            ));
        }
        i = i + 1;
    }
    assert(all.take(lines.len() as int) =~= all);
    TextMap::from_pairs(&pairs)
}

} // verus!
