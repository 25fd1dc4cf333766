//! A list of texts with a hash index, so that a text is found among them
//! without comparing it to every one.

use std::collections::HashMap;
use vstd::prelude::*;
use crate::text::{chars_equal, texts_view};

verus! {

broadcast use vstd::std_specs::hash::group_hash_axioms;

/// The number of values of a `u64`.
pub open spec fn two_to_64_u() -> int {
    0x1_0000_0000_0000_0000
}

/// One step of the hash of a text.
pub open spec fn hash_step(hash: u64, character: char) -> u64 {
    ((hash as int * 1_000_003 + character as u32 as int) % two_to_64_u()) as u64
}

/// The hash of a text: its characters folded in order, modulo 2^64.
pub open spec fn text_hash(text: Seq<char>) -> u64
    decreases text.len(),
{
    if text.len() == 0 {
        0
    } else {
        hash_step(text_hash(text.drop_last()), text.last())
    }
}

/// The hash of a text (see [`text_hash`]).
fn hash_of(text: &[char]) -> (result: u64)
    ensures
        result == text_hash(text@),
{
    let mut hash: u64 = 0;
    let mut i: usize = 0;
    while i < text.len()
        invariant
            i <= text.len(),
            hash == text_hash(text@.take(i as int)),
        decreases text.len() - i,
    {
        assert(text@.take(i + 1).drop_last() =~= text@.take(i as int));
        let character = text[i];
        let code = character as u32;
        let next = (hash as u128 * 1_000_003 + code as u128) % 0x1_0000_0000_0000_0000u128;
        assert(next as int == (hash as int * 1_000_003 + character as u32 as int) % two_to_64_u());
        assert(text@.take(i + 1).last() == character);
        hash = next as u64;
        i = i + 1;
    }
    assert(text@.take(text.len() as int) =~= text@);
    hash
}

/// Texts in the order they were added, with the positions of the texts of
/// each hash.
pub struct TextIndex {
    texts: Vec<Vec<char>>,
    buckets: HashMap<u64, Vec<usize>>,
}

impl View for TextIndex {
    type V = Seq<Seq<char>>;

    closed spec fn view(&self) -> Seq<Seq<char>> {
        texts_view(self.texts@)
    }
}

impl TextIndex {
    /// Each text's position is listed under its hash, and each listed
    /// position is that of a text with that hash.
    pub closed spec fn well_formed(self) -> bool {
        &&& forall|i: int|
            0 <= i < self.texts@.len() ==> {
                let hash = text_hash(#[trigger] self.texts@[i]@);
                &&& self.buckets@.contains_key(hash)
                &&& exists|k: int|
                    0 <= k < self.buckets@[hash]@.len() && #[trigger] self.buckets@[hash]@[k] as int == i
            }
        &&& forall|hash: u64, k: int|
            #![trigger self.buckets@[hash]@[k]]
            self.buckets@.contains_key(hash) && 0 <= k < self.buckets@[hash]@.len() ==> {
                &&& self.buckets@[hash]@[k] < self.texts@.len()
                &&& text_hash(self.texts@[self.buckets@[hash]@[k] as int]@) == hash
            }
    }

    /// An index of no texts.
    pub fn new() -> (result: TextIndex)
        ensures
            result.well_formed(),
            result@ == Seq::<Seq<char>>::empty(),
    {
        let result = TextIndex { texts: Vec::new(), buckets: HashMap::new() };
        assert(result@ =~= Seq::<Seq<char>>::empty());
        result
    }

    /// A position of `text` among the texts, if it is there.
    pub fn find(&self, text: &[char]) -> (result: Option<usize>)
        requires
            self.well_formed(),
        ensures
            match result {
                Some(i) => i < self@.len() && self@[i as int] == text@,
                None => !self@.contains(text@),
            },
    {
        let hash = hash_of(text);
        match self.buckets.get(&hash) {
            None => {
                proof {
                    if self@.contains(text@) {
                        let i = choose|i: int| 0 <= i < self@.len() && self@[i] == text@;
                        assert(self@[i] == self.texts@[i]@);
                        assert(self.buckets@.contains_key(text_hash(self.texts@[i]@)));
                    }
                }
                None
            },
            Some(bucket) => {
                let mut k: usize = 0;
                while k < bucket.len()
                    invariant
                        k <= bucket@.len(),
                        self.well_formed(),
                        hash == text_hash(text@),
                        self.buckets@.contains_key(hash),
                        self.buckets@[hash] == *bucket,
                        forall|m: int| 0 <= m < k ==> self.texts@[bucket@[m] as int]@ != text@,
                    decreases bucket.len() - k,
                {
                    let position = bucket[k];
                    assert(self.buckets@[hash]@[k as int] == position);
                    if chars_equal(&self.texts[position], text) {
                        assert(self@[position as int] == self.texts@[position as int]@);
                        return Some(position);
                    }
                    k = k + 1;
                }
                proof {
                    if self@.contains(text@) {
                        let i = choose|i: int| 0 <= i < self@.len() && self@[i] == text@;
                        assert(self@.len() == self.texts@.len());
                        assert(self@[i] == self.texts@[i]@);
                        let m = choose|m: int|
                            0 <= m < self.buckets@[hash]@.len() && #[trigger] self.buckets@[hash]@[m] as int == i;
                        assert(bucket@[m] as int == i);
                        assert(self.texts@[bucket@[m] as int]@ == text@);
                    }
                }
                None
            },
        }
    }

    /// Adds a text after the others.
    pub fn push(&mut self, text: Vec<char>)
        requires
            old(self).well_formed(),
        ensures
            final(self).well_formed(),
            final(self)@ == old(self)@.push(text@),
    {
        let position = self.texts.len();
        let hash = hash_of(&text);
        let ghost old_map = self.buckets@;
        let mut bucket = match self.buckets.remove(&hash) {
            Some(bucket) => bucket,
            None => Vec::new(),
        };
        let ghost before = bucket@;
        assert(old_map.contains_key(hash) ==> before == old_map[hash]@);
        assert(self.buckets@ == old_map.remove(hash));
        bucket.push(position);
        let ghost new_bucket = bucket;
        self.buckets.insert(hash, bucket);
        assert(self.buckets@ == old_map.remove(hash).insert(hash, new_bucket));
        assert(new_bucket@ == before.push(position));
        let ghost previous = self.texts@;
        self.texts.push(text);
        proof {
            assert forall|i: int| 0 <= i < self.texts@.len() implies {
                let h = text_hash(#[trigger] self.texts@[i]@);
                &&& self.buckets@.contains_key(h)
                &&& exists|k: int|
                    0 <= k < self.buckets@[h]@.len() && #[trigger] self.buckets@[h]@[k] as int == i
            } by {
                if i < previous.len() {
                    assert(self.texts@[i] == previous[i]);
                    let h = text_hash(previous[i]@);
                    assert(old(self).texts@[i] == previous[i]);
                    let m = choose|m: int|
                        0 <= m < old(self).buckets@[h]@.len() && #[trigger] old(self).buckets@[h]@[m] as int == i;
                    assert(old_map == old(self).buckets@);
                    if h == hash {
                        assert(old(self).buckets@[h]@[m] == before[m]);
                        assert(self.buckets@[h]@[m] as int == i);
                    } else {
                        assert(self.buckets@.contains_key(h));
                        assert(self.buckets@[h] == old(self).buckets@[h]);
                        assert(self.buckets@[h]@[m] as int == i);
                    }
                    assert(self.buckets@.contains_key(h));
                    assert(0 <= m < self.buckets@[h]@.len() && self.buckets@[h]@[m] as int == i);
                } else {
                    assert(self.texts@[i] == text);
                    assert(text_hash(self.texts@[i]@) == hash);
                    assert(self.buckets@[hash]@[before.len() as int] == position);
                    assert(self.buckets@[hash]@[before.len() as int] as int == i);
                }
            }
            assert forall|h: u64, k: int|
                #![trigger self.buckets@[h]@[k]]
                self.buckets@.contains_key(h) && 0 <= k < self.buckets@[h]@.len() implies {
                    &&& self.buckets@[h]@[k] < self.texts@.len()
                    &&& text_hash(self.texts@[self.buckets@[h]@[k] as int]@) == h
                } by {
                if h == hash {
                    if k < before.len() {
                        assert(self.buckets@[h]@[k] == before[k]);
                        assert(old(self).buckets@[h]@[k] == before[k]);
                    }
                } else {
                    assert(self.buckets@[h] == old(self).buckets@[h]);
                    assert(old(self).buckets@[h]@[k] < previous.len());
                }
            }
            assert(self@ =~= old(self)@.push(text@));
        }
    }
}

} // verus!
