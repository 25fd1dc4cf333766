//! The character variant tables of the input method: for each standard,
//! the variant of each CJK character that maps to another.

use vstd::prelude::*;
use crate::codes::{is_generic_cjkv, spec_is_generic_cjkv};
use crate::error::{bad_line, DataError, DataErrorView};
use crate::plan::{
    in_turn, lemma_in_turn_error_stays, plan_extended, Step, row_view, rows_view, DatabasePlan, SqlValue,
    SqlValueView, StepView,
};
use crate::text_index::TextIndex;
use crate::text::{
    append_str, source_lines, source_lines_of, split, split_chars, string_of, texts_view, trim,
    trim_chars,
};

verus! {

/// What a line of a character variant file says.
pub enum VariantLine {
    /// Nothing: a blank line, a comment, or a character listed among its
    /// own variants.
    Skip,
    /// Nothing, with a warning: a source or target character outside the
    /// CJK ideographs.
    NonCjkv,
    /// A line without a single source character and a target.
    Invalid,
    /// A character whose only variant is itself.
    SelfMapping,
    /// A source character and the first character of its targets.
    Mapping(u32, u32),
}

/// What a line of a character variant file says. The trimmed line is
/// blank, a comment (starting with `#`), or tab-separated fields of which
/// the first, trimmed, is one character and the second, trimmed, is not
/// empty; its first character is the target.
pub open spec fn variant_line(line: Seq<char>) -> VariantLine {
    let trimmed = trim(line);
    if trimmed.len() == 0 || trimmed[0] == '#' {
        VariantLine::Skip
    } else {
        let parts = split(trimmed, '\t');
        if parts.len() < 2 || trim(parts[0]).len() != 1 || trim(parts[1]).len() == 0 {
            VariantLine::Invalid
        } else {
            let source = trim(parts[0])[0] as u32;
            let target = trim(parts[1])[0] as u32;
            if !spec_is_generic_cjkv(source) || !spec_is_generic_cjkv(target) {
                VariantLine::NonCjkv
            } else if source == target {
                if trim(parts[1]).len() == 1 {
                    VariantLine::SelfMapping
                } else {
                    VariantLine::Skip
                }
            } else {
                VariantLine::Mapping(source, target)
            }
        }
    }
}

/// The (source, target) mappings of the lines of a variant file, in order,
/// or the error of the first invalid or self-mapping line.
pub open spec fn variant_pairs(lines: Seq<Seq<char>>, file: Seq<char>) -> Result<Seq<(u32, u32)>, DataErrorView>
    decreases lines.len(),
{
    if lines.len() == 0 {
        Ok(Seq::empty())
    } else {
        match variant_pairs(lines.drop_last(), file) {
            Err(error) => Err(error),
            Ok(pairs) => match variant_line(lines.last()) {
                VariantLine::Skip => Ok(pairs),
                VariantLine::NonCjkv => Ok(pairs),
                VariantLine::Invalid => Err(
                    DataErrorView::BadLineFormat { file, line: trim(lines.last()) },
                ),
                VariantLine::SelfMapping => Err(
                    DataErrorView::SelfMapping { file, line: trim(lines.last()) },
                ),
                VariantLine::Mapping(source, target) => Ok(pairs.push((source, target))),
            },
        }
    }
}

/// The mappings sorted by source, keeping `pair` out when its source is
/// there already.
pub open spec fn insert_variant(sorted: Seq<(u32, u32)>, pair: (u32, u32)) -> Seq<(u32, u32)>
    decreases sorted.len(),
{
    if sorted.len() == 0 {
        seq![pair]
    } else if sorted[0].0 == pair.0 {
        sorted
    } else if sorted[0].0 > pair.0 {
        seq![pair] + sorted
    } else {
        seq![sorted[0]] + insert_variant(sorted.drop_first(), pair)
    }
}

/// The mappings sorted by source, each source with the target of its
/// first mapping.
pub open spec fn sorted_variants(pairs: Seq<(u32, u32)>) -> Seq<(u32, u32)>
    decreases pairs.len(),
{
    if pairs.len() == 0 {
        Seq::empty()
    } else {
        insert_variant(sorted_variants(pairs.drop_last()), pairs.last())
    }
}

/// The character variants of a file's lines: each source once, with the
/// target of its first line, in increasing order of source; or the first
/// error.
pub open spec fn spec_character_variants(lines: Seq<Seq<char>>, file: Seq<char>) -> Result<
    Seq<(u32, u32)>,
    DataErrorView,
> {
    match variant_pairs(lines, file) {
        Err(error) => Err(error),
        Ok(pairs) => Ok(sorted_variants(pairs)),
    }
}

/// Whether the mappings are in strictly increasing order of source.
pub open spec fn strictly_sorted(pairs: Seq<(u32, u32)>) -> bool {
    forall|i: int, j: int| 0 <= i < j < pairs.len() ==> pairs[i].0 < pairs[j].0
}

/// Inserting into a sorted sequence of mappings at the first position whose
/// source is not smaller.
proof fn lemma_insert_variant_at(sorted: Seq<(u32, u32)>, pair: (u32, u32), k: int)
    requires
        strictly_sorted(sorted),
        0 <= k <= sorted.len(),
        forall|i: int| 0 <= i < k ==> sorted[i].0 < pair.0,
        k < sorted.len() ==> sorted[k].0 >= pair.0,
    ensures
        insert_variant(sorted, pair) == if k < sorted.len() && sorted[k].0 == pair.0 {
            sorted
        } else {
            sorted.take(k) + seq![pair] + sorted.skip(k)
        },
    decreases sorted.len(),
{
    if sorted.len() == 0 {
        assert(sorted.take(k) + seq![pair] + sorted.skip(k) =~= seq![pair]);
    } else if k == 0 {
        assert(sorted.take(0) + seq![pair] + sorted.skip(0) =~= seq![pair] + sorted);
    } else {
        let rest = sorted.drop_first();
        assert forall|i: int, j: int| 0 <= i < j < rest.len() implies rest[i].0 < rest[j].0 by {
            assert(rest[i] == sorted[i + 1]);
            assert(rest[j] == sorted[j + 1]);
        }
        lemma_insert_variant_at(rest, pair, k - 1);
        if k < sorted.len() && sorted[k].0 == pair.0 {
            assert(seq![sorted[0]] + rest =~= sorted);
        } else {
            assert(seq![sorted[0]] + (rest.take(k - 1) + seq![pair] + rest.skip(k - 1))
                =~= sorted.take(k) + seq![pair] + sorted.skip(k));
        }
    }
}

/// The first position among sorted mappings whose source is not smaller
/// than `source`.
fn lower_bound(sorted: &Vec<(u32, u32)>, source: u32) -> (result: usize)
    requires
        strictly_sorted(sorted@),
    ensures
        result <= sorted@.len(),
        forall|i: int| 0 <= i < result ==> sorted@[i].0 < source,
        result < sorted@.len() ==> sorted@[result as int].0 >= source,
{
    let mut low: usize = 0;
    let mut high: usize = sorted.len();
    while low < high
        invariant
            low <= high <= sorted@.len(),
            strictly_sorted(sorted@),
            forall|i: int| 0 <= i < low ==> sorted@[i].0 < source,
            forall|i: int| high <= i < sorted@.len() ==> sorted@[i].0 >= source,
        decreases high - low,
    {
        let middle = low + (high - low) / 2;
        if sorted[middle].0 < source {
            low = middle + 1;
        } else {
            high = middle;
        }
    }
    low
}

/// What a line of a character variant file says (see [`variant_line`]).
fn read_variant_line(line: &[char]) -> (result: VariantLine)
    ensures
        result == variant_line(line@),
{
    let trimmed = trim_chars(line);
    if trimmed.len() == 0 || trimmed[0] == '#' {
        return VariantLine::Skip;
    }
    let parts = split_chars(&trimmed, '\t');
    if parts.len() < 2 {
        return VariantLine::Invalid;
    }
    assert(texts_view(parts@)[0] == parts@[0]@);
    assert(texts_view(parts@)[1] == parts@[1]@);
    let source_text = trim_chars(&parts[0]);
    let target_text = trim_chars(&parts[1]);
    if source_text.len() != 1 || target_text.len() == 0 {
        return VariantLine::Invalid;
    }
    let source = source_text[0] as u32;
    let target = target_text[0] as u32;
    if !is_generic_cjkv(source) || !is_generic_cjkv(target) {
        return VariantLine::NonCjkv;
    }
    if source == target {
        if target_text.len() == 1 {
            VariantLine::SelfMapping
        } else {
            VariantLine::Skip
        }
    } else {
        VariantLine::Mapping(source, target)
    }
}

proof fn lemma_variant_pairs_error_stays(lines: Seq<Seq<char>>, file: Seq<char>, k: int)
    requires
        0 <= k <= lines.len(),
        variant_pairs(lines.take(k), file) is Err,
    ensures
        variant_pairs(lines, file) == variant_pairs(lines.take(k), file),
    decreases lines.len() - k,
{
    if k < lines.len() {
        assert(lines.take(k + 1).drop_last() =~= lines.take(k));
        lemma_variant_pairs_error_stays(lines, file, k + 1);
    } else {
        assert(lines.take(k) =~= lines);
    }
}

/// The model of the outcome of [`character_variants`].
pub open spec fn variants_result_view(result: Result<Vec<(u32, u32)>, DataError>) -> Result<
    Seq<(u32, u32)>,
    DataErrorView,
> {
    match result {
        Ok(variants) => Ok(variants@),
        Err(error) => Err(error@),
    }
}

/// The character variants of a variant file's text (see
/// [`spec_character_variants`]); they are in strictly increasing order of
/// source.
pub fn character_variants(content: &str, file_name: &str) -> (result: Result<
    Vec<(u32, u32)>,
    DataError,
>)
    ensures
        variants_result_view(result) == spec_character_variants(source_lines(content@), file_name@),
        result matches Ok(variants) ==> strictly_sorted(variants@),
{
    let lines = source_lines_of(content);
    let ghost all = texts_view(lines@);
    let mut variants: Vec<(u32, u32)> = Vec::new();
    let ghost mut pairs: Seq<(u32, u32)> = Seq::empty();
    let mut i: usize = 0;
    assert(all.take(0) =~= Seq::<Seq<char>>::empty());
    while i < lines.len()
        invariant
            i <= lines.len(),
            all == texts_view(lines@),
            all == source_lines(content@),
            variant_pairs(all.take(i as int), file_name@) == Ok::<Seq<(u32, u32)>, DataErrorView>(
                pairs,
            ),
            variants@ == sorted_variants(pairs),
            strictly_sorted(variants@),
        decreases lines.len() - i,
    {
        assert(all.take(i + 1).drop_last() =~= all.take(i as int));
        let line = &lines[i];
        assert(all[i as int] == line@);
        match read_variant_line(line) {
            VariantLine::Skip => {},
            VariantLine::NonCjkv => {},
            VariantLine::Invalid => {
                let trimmed = trim_chars(line);
                proof {
                    lemma_variant_pairs_error_stays(all, file_name@, i as int + 1);
                }
                return Err(bad_line(file_name, &trimmed));
            },
            VariantLine::SelfMapping => {
                let trimmed = trim_chars(line);
                proof {
                    lemma_variant_pairs_error_stays(all, file_name@, i as int + 1);
                }
                return Err(
                    DataError::SelfMapping { file: file_name.to_owned(), line: string_of(&trimmed) },
                );
            },
            VariantLine::Mapping(source, target) => {
                let ghost previous_pairs = pairs;
                proof {
                    pairs = pairs.push((source, target));
                }
                assert(pairs.drop_last() =~= previous_pairs);
                let k = lower_bound(&variants, source);
                proof {
                    lemma_insert_variant_at(variants@, (source, target), k as int);
                }
                if k < variants.len() && variants[k].0 == source {
                } else {
                    let ghost before = variants@;
                    variants.insert(k, (source, target));
                    assert(variants@ =~= before.take(k as int) + seq![(source, target)] + before.skip(
                        k as int,
                    ));
                    assert forall|a: int, b: int| 0 <= a < b < variants@.len() implies variants@[a].0
                        < variants@[b].0 by {
                        if b < k {
                        } else if a > k {
                            assert(variants@[a] == before[a - 1]);
                            assert(variants@[b] == before[b - 1]);
                        } else if a == k {
                            assert(variants@[b] == before[b - 1]);
                        } else if b == k {
                        } else {
                            assert(variants@[b] == before[b - 1]);
                        }
                    }
                }
            },
        }
        i = i + 1;
    }
    assert(all.take(lines.len() as int) =~= all);
    Ok(variants)
}

/// The warning for a line skipped because a character of it is not a CJK
/// ideograph.
pub open spec fn non_cjkv_warning(file: Seq<char>, line: Seq<char>) -> Seq<char> {
    "Skipping non-CJKV character variant in "@ + file + ": "@ + trim(line)
}

/// The trimmed lines.
pub open spec fn trimmed_lines(lines: Seq<Seq<char>>) -> Seq<Seq<char>> {
    lines.map_values(|line: Seq<char>| trim(line))
}

/// The warnings of a variant file's lines, in order: one for each line
/// with a character outside the CJK ideographs whose trimmed text no
/// earlier line has, among the lines before the first error.
pub open spec fn variant_warnings(lines: Seq<Seq<char>>, file: Seq<char>) -> Seq<Seq<char>>
    decreases lines.len(),
{
    if lines.len() == 0 {
        Seq::empty()
    } else {
        let previous = lines.drop_last();
        let warnings = variant_warnings(previous, file);
        if variant_pairs(previous, file) is Ok && variant_line(lines.last()) is NonCjkv
            && !trimmed_lines(previous).contains(trim(lines.last())) {
            warnings.push(non_cjkv_warning(file, lines.last()))
        } else {
            warnings
        }
    }
}

proof fn lemma_variant_warnings_stay(lines: Seq<Seq<char>>, file: Seq<char>, k: int)
    requires
        0 <= k <= lines.len(),
        variant_pairs(lines.take(k), file) is Err,
    ensures
        variant_warnings(lines, file) == variant_warnings(lines.take(k), file),
    decreases lines.len() - k,
{
    if k < lines.len() {
        assert(lines.take(k + 1).drop_last() =~= lines.take(k));
        lemma_variant_warnings_stay(lines, file, k + 1);
    } else {
        assert(lines.take(k) =~= lines);
    }
}

/// The models of a vector of strings.
pub open spec fn strings_view(strings: Seq<String>) -> Seq<Seq<char>> {
    strings.map_values(|text: String| text@)
}

/// The warnings of a variant file's text (see [`variant_warnings`]), to be
/// reported as the file is read.
pub fn skipped_variant_warnings(content: &str, file_name: &str) -> (result: Vec<String>)
    ensures
        strings_view(result@) == variant_warnings(source_lines(content@), file_name@),
{
    let lines = source_lines_of(content);
    let ghost all = texts_view(lines@);
    let mut warnings: Vec<String> = Vec::new();
    let mut seen = TextIndex::new();
    let mut i: usize = 0;
    assert(all.take(0) =~= Seq::<Seq<char>>::empty());
    assert(seen@ =~= trimmed_lines(all.take(0)));
    assert(strings_view(warnings@) =~= Seq::<Seq<char>>::empty());
    while i < lines.len()
        invariant
            i <= lines.len(),
            all == texts_view(lines@),
            all == source_lines(content@),
            variant_pairs(all.take(i as int), file_name@) is Ok,
            seen.well_formed(),
            seen@ == trimmed_lines(all.take(i as int)),
            strings_view(warnings@) == variant_warnings(all.take(i as int), file_name@),
        decreases lines.len() - i,
    {
        let ghost previous = all.take(i as int);
        assert(all.take(i + 1).drop_last() =~= previous);
        let line = &lines[i];
        assert(all[i as int] == line@);
        assert(all.take(i + 1).last() == line@);
        let trimmed = trim_chars(line);
        let kind = read_variant_line(line);
        match kind {
            VariantLine::Invalid => {
                proof {
                    lemma_variant_warnings_stay(all, file_name@, i as int + 1);
                }
                assert(all.take(lines.len() as int) =~= all);
                return warnings;
            },
            VariantLine::SelfMapping => {
                proof {
                    lemma_variant_warnings_stay(all, file_name@, i as int + 1);
                }
                return warnings;
            },
            VariantLine::NonCjkv => {
                if seen.find(&trimmed).is_none() {
                    let mut warning = String::new();
                    append_str(&mut warning, "Skipping non-CJKV character variant in ");
                    append_str(&mut warning, file_name);
                    append_str(&mut warning, ": ");
                    append_str(&mut warning, string_of(&trimmed).as_str());
                    let ghost before = warnings@;
                    warnings.push(warning);
                    assert(strings_view(warnings@) =~= strings_view(before).push(
                        non_cjkv_warning(file_name@, line@),
                    ));
                }
            },
            _ => {},
        }
        let ghost seen_before = seen@;
        seen.push(trimmed);
        assert(seen@ =~= seen_before.push(trim(line@)));
        assert(trimmed_lines(all.take(i + 1)) =~= trimmed_lines(previous).push(trim(line@)));
        i = i + 1;
    }
    assert(all.take(lines.len() as int) =~= all);
    warnings
}

/// Whether some mapping among `pairs` has the source `source`.
pub open spec fn has_source(pairs: Seq<(u32, u32)>, source: u32) -> bool {
    exists|i: int| 0 <= i < pairs.len() && #[trigger] pairs[i].0 == source
}

proof fn lemma_insert_variant_facts(sorted: Seq<(u32, u32)>, pair: (u32, u32))
    ensures
        forall|x: (u32, u32)| #[trigger] insert_variant(sorted, pair).contains(x) ==> sorted.contains(x)
            || x == pair,
        forall|x: (u32, u32)| sorted.contains(x) ==> #[trigger] insert_variant(sorted, pair).contains(x),
        strictly_sorted(sorted) && has_source(sorted, pair.0) ==> insert_variant(sorted, pair)
            == sorted,
        !has_source(sorted, pair.0) ==> insert_variant(sorted, pair).contains(pair),
        strictly_sorted(sorted) ==> strictly_sorted(insert_variant(sorted, pair)),
    decreases sorted.len(),
{
    let result = insert_variant(sorted, pair);
    if sorted.len() == 0 {
        assert(result == seq![pair]);
        assert(result[0] == pair);
        assert forall|x: (u32, u32)| #[trigger] result.contains(x) implies sorted.contains(x) || x
            == pair by {
            let i = choose|i: int| 0 <= i < result.len() && result[i] == x;
        }
    } else if sorted[0].0 == pair.0 {
        assert(has_source(sorted, pair.0)) by {
            assert(sorted[0].0 == pair.0);
        }
    } else if sorted[0].0 > pair.0 {
        assert(result == seq![pair] + sorted);
        assert(result[0] == pair);
        assert forall|x: (u32, u32)| #[trigger] result.contains(x) implies sorted.contains(x) || x
            == pair by {
            let i = choose|i: int| 0 <= i < result.len() && result[i] == x;
            if i > 0 {
                assert(sorted[i - 1] == x);
            }
        }
        assert forall|x: (u32, u32)| sorted.contains(x) implies #[trigger] result.contains(x) by {
            let i = choose|i: int| 0 <= i < sorted.len() && sorted[i] == x;
            assert(result[i + 1] == x);
        }
        if strictly_sorted(sorted) {
            assert(!has_source(sorted, pair.0)) by {
                if has_source(sorted, pair.0) {
                    let i = choose|i: int| 0 <= i < sorted.len() && #[trigger] sorted[i].0 == pair.0;
                    if i > 0 {
                        assert(sorted[0].0 < sorted[i].0);
                    }
                }
            }
            assert forall|a: int, b: int| 0 <= a < b < result.len() implies result[a].0 < result[b].0 by {
                if a > 0 {
                    assert(result[a] == sorted[a - 1]);
                }
                assert(result[b] == sorted[b - 1]);
                if b - 1 > 0 {
                    assert(sorted[0].0 < sorted[b - 1].0);
                }
            }
        }
    } else {
        let rest = sorted.drop_first();
        let inner = insert_variant(rest, pair);
        lemma_insert_variant_facts(rest, pair);
        assert(result == seq![sorted[0]] + inner);
        assert(result[0] == sorted[0]);
        assert forall|x: (u32, u32)| #[trigger] result.contains(x) implies sorted.contains(x) || x
            == pair by {
            let i = choose|i: int| 0 <= i < result.len() && result[i] == x;
            if i > 0 {
                assert(inner[i - 1] == x);
                assert(inner.contains(x));
                if rest.contains(x) {
                    let j = choose|j: int| 0 <= j < rest.len() && rest[j] == x;
                    assert(sorted[j + 1] == x);
                }
            }
        }
        assert forall|x: (u32, u32)| sorted.contains(x) implies #[trigger] result.contains(x) by {
            let i = choose|i: int| 0 <= i < sorted.len() && sorted[i] == x;
            if i > 0 {
                assert(rest[i - 1] == x);
                assert(rest.contains(x));
                assert(inner.contains(x));
                let j = choose|j: int| 0 <= j < inner.len() && inner[j] == x;
                assert(result[j + 1] == x);
            }
        }
        if has_source(sorted, pair.0) {
            let i = choose|i: int| 0 <= i < sorted.len() && #[trigger] sorted[i].0 == pair.0;
            assert(i > 0);
            assert(rest[i - 1].0 == pair.0);
            assert(has_source(rest, pair.0));
            if strictly_sorted(sorted) {
                assert(strictly_sorted(rest)) by {
                    assert forall|a: int, b: int| 0 <= a < b < rest.len() implies rest[a].0
                        < rest[b].0 by {
                        assert(rest[a] == sorted[a + 1]);
                        assert(rest[b] == sorted[b + 1]);
                    }
                }
                assert(result =~= sorted);
            }
        } else {
            assert(!has_source(rest, pair.0)) by {
                if has_source(rest, pair.0) {
                    let i = choose|i: int| 0 <= i < rest.len() && #[trigger] rest[i].0 == pair.0;
                    assert(sorted[i + 1].0 == pair.0);
                }
            }
            let j = choose|j: int| 0 <= j < inner.len() && inner[j] == pair;
            assert(result[j + 1] == pair);
        }
        if strictly_sorted(sorted) {
            assert(strictly_sorted(rest)) by {
                assert forall|a: int, b: int| 0 <= a < b < rest.len() implies rest[a].0 < rest[b].0 by {
                    assert(rest[a] == sorted[a + 1]);
                    assert(rest[b] == sorted[b + 1]);
                }
            }
            assert forall|a: int, b: int| 0 <= a < b < result.len() implies result[a].0 < result[b].0 by {
                assert(result[b] == inner[b - 1]);
                if a > 0 {
                    assert(result[a] == inner[a - 1]);
                } else {
                    assert(inner.contains(inner[b - 1]));
                    if inner[b - 1] != pair {
                        assert(rest.contains(inner[b - 1]));
                        let k = choose|k: int| 0 <= k < rest.len() && rest[k] == inner[b - 1];
                        assert(sorted[k + 1] == inner[b - 1]);
                    }
                }
            }
        }
    }
}

/// The character variants are sorted strictly by source; each is the first
/// mapping of its source among the mappings of the lines; every source of
/// a mapping has one.
pub proof fn lemma_sorted_variants(pairs: Seq<(u32, u32)>)
    ensures
        strictly_sorted(sorted_variants(pairs)),
        forall|i: int|
            0 <= i < sorted_variants(pairs).len() ==> exists|k: int|
                0 <= k < pairs.len() && pairs[k] == #[trigger] sorted_variants(pairs)[i] && forall|j: int|
                    0 <= j < k ==> #[trigger] pairs[j].0 != pairs[k].0,
        forall|k: int| 0 <= k < pairs.len() ==> has_source(sorted_variants(pairs), #[trigger] pairs[k].0),
    decreases pairs.len(),
{
    if pairs.len() > 0 {
        let previous = pairs.drop_last();
        let before = sorted_variants(previous);
        let last = pairs.last();
        let after = sorted_variants(pairs);
        lemma_sorted_variants(previous);
        lemma_insert_variant_facts(before, last);
        assert(after == insert_variant(before, last));
        assert forall|i: int| 0 <= i < after.len() implies exists|k: int|
            0 <= k < pairs.len() && pairs[k] == #[trigger] after[i] && forall|j: int|
                0 <= j < k ==> #[trigger] pairs[j].0 != pairs[k].0 by {
            assert(after.contains(after[i]));
            if before.contains(after[i]) {
                let m = choose|m: int| 0 <= m < before.len() && before[m] == after[i];
                let k = choose|k: int|
                    0 <= k < previous.len() && previous[k] == #[trigger] before[m] && forall|j: int|
                        0 <= j < k ==> #[trigger] previous[j].0 != previous[k].0;
                assert(pairs[k] == previous[k]);
                assert forall|j: int| 0 <= j < k implies #[trigger] pairs[j].0 != pairs[k].0 by {
                    assert(pairs[j] == previous[j]);
                }
            } else {
                assert(after[i] == last);
                assert(!has_source(before, last.0));
                let k = pairs.len() - 1;
                assert forall|j: int| 0 <= j < k implies #[trigger] pairs[j].0 != pairs[k].0 by {
                    assert(pairs[j] == previous[j]);
                    assert(has_source(before, previous[j].0));
                }
            }
        }
        assert forall|k: int| 0 <= k < pairs.len() implies has_source(after, #[trigger] pairs[k].0) by {
            if k < pairs.len() - 1 {
                assert(pairs[k] == previous[k]);
                assert(has_source(before, previous[k].0));
                let m = choose|m: int| 0 <= m < before.len() && #[trigger] before[m].0 == previous[k].0;
                assert(before.contains(before[m]));
                assert(after.contains(before[m]));
                let n = choose|n: int| 0 <= n < after.len() && after[n] == before[m];
                assert(after[n].0 == pairs[k].0);
            } else {
                if has_source(before, last.0) {
                    assert(after == before);
                } else {
                    assert(after.contains(last));
                    let n = choose|n: int| 0 <= n < after.len() && after[n] == last;
                    assert(after[n].0 == pairs[k].0);
                }
            }
        }
    }
}

/// Each mapping of a variant file maps a CJK ideograph to another one.
pub proof fn lemma_variant_pairs_valid(lines: Seq<Seq<char>>, file: Seq<char>)
    ensures
        variant_pairs(lines, file) matches Ok(pairs) ==> forall|k: int| 0 <= k < pairs.len() ==> {
            &&& #[trigger] pairs[k].0 != pairs[k].1
            &&& spec_is_generic_cjkv(pairs[k].0)
            &&& spec_is_generic_cjkv(pairs[k].1)
        },
    decreases lines.len(),
{
    if lines.len() > 0 {
        lemma_variant_pairs_valid(lines.drop_last(), file);
        if let Ok(pairs) = variant_pairs(lines, file) {
            if let Ok(previous) = variant_pairs(lines.drop_last(), file) {
                assert forall|k: int| 0 <= k < pairs.len() implies {
                    &&& #[trigger] pairs[k].0 != pairs[k].1
                    &&& spec_is_generic_cjkv(pairs[k].0)
                    &&& spec_is_generic_cjkv(pairs[k].1)
                } by {
                    if k < previous.len() {
                        assert(pairs[k] == previous[k]);
                    }
                }
            }
        }
    }
}

/// The character variants of a variant file map CJK ideographs to other
/// CJK ideographs, in strictly increasing order of source; each source
/// maps to the target of its first line, and every source of a valid line
/// is there.
pub proof fn lemma_character_variants(lines: Seq<Seq<char>>, file: Seq<char>)
    ensures
        spec_character_variants(lines, file) matches Ok(variants) ==> {
            &&& strictly_sorted(variants)
            &&& forall|i: int| 0 <= i < variants.len() ==> {
                &&& #[trigger] variants[i].0 != variants[i].1
                &&& spec_is_generic_cjkv(variants[i].0)
                &&& spec_is_generic_cjkv(variants[i].1)
            }
        },
        variant_pairs(lines, file) matches Ok(pairs) ==> {
            &&& forall|i: int|
                0 <= i < sorted_variants(pairs).len() ==> exists|k: int|
                    0 <= k < pairs.len() && pairs[k] == #[trigger] sorted_variants(pairs)[i] && forall|j: int|
                        0 <= j < k ==> #[trigger] pairs[j].0 != pairs[k].0
            &&& forall|k: int| 0 <= k < pairs.len() ==> has_source(sorted_variants(pairs), #[trigger] pairs[k].0)
        },
{
    lemma_variant_pairs_valid(lines, file);
    if let Ok(pairs) = variant_pairs(lines, file) {
        lemma_sorted_variants(pairs);
        let variants = sorted_variants(pairs);
        assert forall|i: int| 0 <= i < variants.len() implies {
            &&& #[trigger] variants[i].0 != variants[i].1
            &&& spec_is_generic_cjkv(variants[i].0)
            &&& spec_is_generic_cjkv(variants[i].1)
        } by {
            let k = choose|k: int|
                0 <= k < pairs.len() && pairs[k] == #[trigger] variants[i] && forall|j: int|
                    0 <= j < k ==> #[trigger] pairs[j].0 != pairs[k].0;
            assert(pairs[k].0 != pairs[k].1);
        }
    }
}

/// The variant files and the tables that they fill.
pub const VARIANT_TABLES: [(&'static str, &'static str); 6] = [
    ("CharacterVariant.AncientBooksPublishing.txt", "variant_abp"),
    ("CharacterVariant.HongKong.txt", "variant_hk"),
    ("CharacterVariant.Inherited.txt", "variant_old"),
    ("CharacterVariant.PRCGeneral.txt", "variant_prc"),
    ("CharacterVariant.Simplified.txt", "variant_sim"),
    ("CharacterVariant.Taiwan.txt", "variant_tw"),
];

/// The statement that inserts a variant into `table`.
pub open spec fn variant_insert_sql(table: Seq<char>) -> Seq<char> {
    "INSERT INTO "@ + table + " (source, target) VALUES (?, ?)"@
}

/// The row of a variant: its source and target code points.
pub open spec fn variant_row(pair: (u32, u32)) -> Seq<SqlValueView> {
    seq![SqlValueView::Integer(pair.0 as i64), SqlValueView::Integer(pair.1 as i64)]
}

/// The variant table `table` filled from the variant file `file`, or the
/// first error.
pub open spec fn variant_table_outcome(content: Seq<char>, file: Seq<char>, table: Seq<char>) -> Result<
    Seq<StepView>,
    DataErrorView,
> {
    match spec_character_variants(source_lines(content), file) {
        Err(error) => Err(error),
        Ok(variants) => Ok(
            seq![
                StepView::Insert {
                    statement: variant_insert_sql(table),
                    rows: variants.map_values(|pair: (u32, u32)| variant_row(pair)),
                },
            ],
        ),
    }
}

/// The insertion that fills the variant table `table` from the variant
/// file `file_name` (see [`variant_table_outcome`]).
pub fn variant_insertion(content: &str, file_name: &str, table: &str) -> (result: Result<Step, DataError>)
    ensures
        match variant_table_outcome(content@, file_name@, table@) {
            Ok(steps) => result matches Ok(step) && steps == seq![step@],
            Err(error) => result matches Err(e) && e@ == error,
        },
{
    let variants = match character_variants(content, file_name) {
        Ok(variants) => variants,
        Err(error) => return Err(error),
    };
    let mut statement = String::new();
    append_str(&mut statement, "INSERT INTO ");
    append_str(&mut statement, table);
    append_str(&mut statement, " (source, target) VALUES (?, ?)");
    let mut rows: Vec<Vec<SqlValue>> = Vec::new();
    let mut i: usize = 0;
    while i < variants.len()
        invariant
            i <= variants.len(),
            rows_view(rows@) == variants@.take(i as int).map_values(
                |pair: (u32, u32)| variant_row(pair),
            ),
        decreases variants.len() - i,
    {
        let (source, target) = variants[i];
        let mut row: Vec<SqlValue> = Vec::new();
        row.push(SqlValue::Integer(source as i64));
        row.push(SqlValue::Integer(target as i64));
        assert(row_view(row@) =~= variant_row((source, target)));
        let ghost previous = rows@;
        rows.push(row);
        i = i + 1;
        assert(rows_view(rows@) =~= rows_view(previous).push(variant_row((source, target))));
        assert(variants@.take(i as int).map_values(|pair: (u32, u32)| variant_row(pair))
            =~= variants@.take(i - 1).map_values(|pair: (u32, u32)| variant_row(pair)).push(
            variant_row((source, target)),
        ));
    }
    assert(variants@.take(variants.len() as int) =~= variants@);
    Ok(Step::Insert { statement, rows })
}

/// Whether the variant files before the `k`-th have no error.
pub open spec fn variant_files_valid(contents: Seq<String>, k: int) -> bool {
    forall|j: int|
        0 <= j < k ==> #[trigger] spec_character_variants(
            source_lines(contents[j]@),
            VARIANT_TABLES@[j].0@,
        ) is Ok
}

/// The warnings of the first `k` variant files in the order of
/// [`VARIANT_TABLES`]: each file's warnings (see [`variant_warnings`]),
/// up to the first file with an error, which is read no further.
pub open spec fn variant_files_warnings(contents: Seq<String>, k: int) -> Seq<Seq<char>>
    decreases k,
{
    if k <= 0 {
        Seq::empty()
    } else {
        let previous = variant_files_warnings(contents, k - 1);
        if variant_files_valid(contents, k - 1) {
            previous + variant_warnings(source_lines(contents[k - 1]@), VARIANT_TABLES@[k - 1].0@)
        } else {
            previous
        }
    }
}

/// The warnings that reading the six variant files reports, in the order
/// of [`VARIANT_TABLES`] (see [`variant_files_warnings`]).
pub fn variant_warnings_of_files(contents: &[String; 6]) -> (result: Vec<String>)
    ensures
        strings_view(result@) == variant_files_warnings(contents@, 6),
{
    let mut warnings: Vec<String> = Vec::new();
    let mut k: usize = 0;
    assert(strings_view(warnings@) =~= Seq::<Seq<char>>::empty());
    while k < 6
        invariant
            k <= 6,
            variant_files_valid(contents@, k as int),
            strings_view(warnings@) == variant_files_warnings(contents@, k as int),
        decreases 6 - k,
    {
        let (file_name, _) = VARIANT_TABLES[k];
        let more = skipped_variant_warnings(contents[k].as_str(), file_name);
        let ghost before = warnings@;
        let ghost added = more@;
        let mut more = more;
        warnings.append(&mut more);
        assert(strings_view(warnings@) =~= strings_view(before) + strings_view(added));
        let valid = character_variants(contents[k].as_str(), file_name).is_ok();
        k = k + 1;
        if !valid {
            proof {
                lemma_variant_files_warnings_stay(contents@, k as int);
            }
            return warnings;
        }
    }
    warnings
}

proof fn lemma_variant_files_warnings_stay(contents: Seq<String>, k: int)
    requires
        1 <= k <= 6,
        !variant_files_valid(contents, k),
    ensures
        variant_files_warnings(contents, 6) == variant_files_warnings(contents, k),
    decreases 6 - k,
{
    if k < 6 {
        assert(!variant_files_valid(contents, k + 1));
        lemma_variant_files_warnings_stay(contents, k + 1);
    }
}

/// The six variant tables, in the order of [`VARIANT_TABLES`], each filled
/// from its file; or the first error.
pub open spec fn variants_outcome(contents: Seq<String>) -> Result<Seq<StepView>, DataErrorView> {
    in_turn(
        Seq::new(
            6,
            |k: int|
                variant_table_outcome(contents[k]@, VARIANT_TABLES@[k].0@, VARIANT_TABLES@[k].1@),
        ),
    )
}

/// Fills the six variant tables from the texts of their files, in the
/// order of [`VARIANT_TABLES`].
pub fn insert_variants(plan: &mut DatabasePlan, contents: &[String; 6]) -> (result: Result<
    (),
    DataError,
>)
    ensures
        plan_extended(old(plan)@, final(plan)@, result, variants_outcome(contents@)),
{
    let ghost groups = Seq::new(
        6,
        |k: int| variant_table_outcome(contents@[k]@, VARIANT_TABLES@[k].0@, VARIANT_TABLES@[k].1@),
    );
    let mut steps: Vec<Step> = Vec::new();
    let mut k: usize = 0;
    assert(groups.take(0) =~= Seq::<Result<Seq<StepView>, DataErrorView>>::empty());
    assert(steps@.map_values(|step: Step| step@) =~= Seq::<StepView>::empty());
    while k < 6
        invariant
            k <= 6,
            groups == Seq::new(
                6,
                |k: int|
                    variant_table_outcome(
                        contents@[k]@,
                        VARIANT_TABLES@[k].0@,
                        VARIANT_TABLES@[k].1@,
                    ),
            ),
            in_turn(groups.take(k as int)) == Ok::<Seq<StepView>, DataErrorView>(
                steps@.map_values(|step: Step| step@),
            ),
        decreases 6 - k,
    {
        let (file_name, table) = VARIANT_TABLES[k];
        assert(groups.take(k + 1).drop_last() =~= groups.take(k as int));
        assert(groups[k as int] == variant_table_outcome(contents@[k as int]@, file_name@, table@));
        match variant_insertion(contents[k].as_str(), file_name, table) {
            Ok(step) => {
                let ghost previous = steps@;
                let ghost expected = step@;
                steps.push(step);
                assert(steps@.map_values(|step: Step| step@) =~= previous.map_values(
                    |step: Step| step@,
                ) + seq![expected]);
            },
            Err(error) => {
                proof {
                    lemma_in_turn_error_stays(groups, k as int + 1);
                }
                return Err(error);
            },
        }
        k = k + 1;
    }
    assert(groups.take(6) =~= groups);
    plan.append_steps(steps);
    Ok(())
}

} // verus!
