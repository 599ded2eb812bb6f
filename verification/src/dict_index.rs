use crate::consult_option::ConsultOption;
use crate::index_format::{parse_records, preceded_by};
use crate::fuzzy::{
    better, fuzzy_score, is_top_row, lemma_better_asymmetric, lemma_ranking_is_ranked,
    lemma_ranking_keeps_the_best, lemma_top_row_unique, lowered_score, places, places_of, rank,
    ranking, ranks_first, scores_of, Score, Scored,
};
use crate::sd_error::{SdError, SdFault};
use crate::text::{lemma_levenshtein_of_equal, levenshtein, lowercase};
use crate::util::{after_delimiter, read_uint, ByteReader, OffsetWidth};
use vstd::prelude::*;
use vstd::slice::slice_to_vec;

verus! {

/// One record of the index: a headword, and where its definition stands in
/// the content blob.
#[derive(Clone, Debug, PartialEq, Eq)]
pub struct IndexItem {
    /// The headword, in the dictionary's own spelling.
    pub word: String,
    /// The byte offset of the definition in the inflated content.
    pub offset: u64,
    /// The length of the definition in bytes.
    pub length: u64,
}

/// What an [`IndexItem`] says.
pub struct IndexEntry {
    pub word: Seq<char>,
    pub offset: nat,
    pub length: nat,
}

impl View for IndexItem {
    type V = IndexEntry;

    open spec fn view(&self) -> IndexEntry {
        IndexEntry { word: self.word@, offset: self.offset as nat, length: self.length as nat }
    }
}

/// The entries that a vector of items holds.
pub open spec fn entries_of(items: Seq<IndexItem>) -> Seq<IndexEntry> {
    items.map_values(|item: IndexItem| item@)
}

/// The entries that stand at the given positions.
pub open spec fn entries_at(entries: Seq<IndexEntry>, positions: Seq<int>) -> Seq<IndexEntry> {
    positions.map_values(|position: int| entries[position])
}

/// The entries that a vector of borrowed items holds.
pub open spec fn entries_of_refs(items: Seq<&IndexItem>) -> Seq<IndexEntry> {
    items.map_values(|item: &IndexItem| item@)
}

/// Whether a headword answers an exact query: the two are the same once
/// both are in lower case.
pub open spec fn exact_match(query: Seq<char>, word: Seq<char>) -> bool {
    lowercase(word) == lowercase(query)
}

/// The test that picks, among the positions of an index, those whose
/// headword answers an exact query.
pub open spec fn exact_filter(entries: Seq<IndexEntry>, query: Seq<char>) -> spec_fn(int) -> bool {
    |position: int| exact_match(query, entries[position].word)
}

/// The positions of the entries that answer an exact query, in the order of
/// the index.
pub open spec fn exact_positions(entries: Seq<IndexEntry>, query: Seq<char>) -> Seq<int> {
    places(entries.len()).filter(exact_filter(entries, query))
}

/// The edit distance between a query and a headword, both in lower case.
pub open spec fn fuzzy_distance(query: Seq<char>, word: Seq<char>) -> nat {
    levenshtein(lowercase(query), lowercase(word))
}

/// Whether a headword answers a fuzzy query.
pub open spec fn fuzzy_match(query: Seq<char>, word: Seq<char>, max_dist: nat) -> bool {
    lowered_score(lowercase(query), lowercase(word), max_dist) is Some
}

/// The test that picks, among the positions of an index, those whose
/// headword answers a fuzzy query.
pub open spec fn fuzzy_filter(entries: Seq<IndexEntry>, query: Seq<char>, max_dist: nat)
    -> spec_fn(int) -> bool {
    |position: int| fuzzy_match(query, entries[position].word, max_dist)
}

/// The positions of the entries that answer a fuzzy query, in the order of
/// the index.
pub open spec fn fuzzy_candidates(entries: Seq<IndexEntry>, query: Seq<char>, max_dist: nat)
    -> Seq<int> {
    places(entries.len()).filter(fuzzy_filter(entries, query, max_dist))
}

/// What the entry at `position` scores against a fuzzy query.
pub open spec fn score_at(entries: Seq<IndexEntry>, query: Seq<char>, position: int) -> Score {
    Score {
        distance: fuzzy_distance(query, entries[position].word),
        word: entries[position].word,
    }
}

/// What the entries at `positions` score against a fuzzy query.
pub open spec fn scores_at(entries: Seq<IndexEntry>, query: Seq<char>, positions: Seq<int>)
    -> Seq<Score> {
    positions.map_values(|position: int| score_at(entries, query, position))
}

/// The positions of the entries that a fuzzy query hands out, best first:
/// those that answer it, ranked by their edit distance, then by their
/// headword, then by their position, and cut after the first `max_item`.
pub open spec fn fuzzy_positions(
    entries: Seq<IndexEntry>,
    query: Seq<char>,
    max_dist: nat,
    max_item: nat,
) -> Seq<int> {
    let candidates = fuzzy_candidates(entries, query, max_dist);
    ranking(scores_at(entries, query, candidates), max_item).map_values(
        |place: int| candidates[place],
    )
}

/// To filter one position more is to filter the positions before it and to
/// add the new one where it passes.
pub proof fn lemma_filter_next_place(n: nat, keep: spec_fn(int) -> bool)
    ensures
        places(n + 1).filter(keep) == if keep(n as int) {
            places(n).filter(keep).push(n as int)
        } else {
            places(n).filter(keep)
        },
        places(0).filter(keep) == Seq::<int>::empty(),
{
    assert(places(n + 1) =~= places(n).push(n as int));
    places(n).lemma_filter_push(n as int, keep);
    places(0).lemma_filter_len(keep);
    assert(places(0).filter(keep) =~= Seq::<int>::empty());
}

/// The positions that a filter keeps are positions, each of them passes the
/// filter, they rise, and no position that passes is left out.
pub proof fn lemma_filtered_places(n: nat, keep: spec_fn(int) -> bool)
    ensures
        forall|k: int|
            0 <= k < places(n).filter(keep).len() ==> {
                &&& 0 <= #[trigger] places(n).filter(keep)[k] < n
                &&& keep(places(n).filter(keep)[k])
            },
        forall|k: int, l: int|
            0 <= k < l < places(n).filter(keep).len() ==> places(n).filter(keep)[k] < places(
                n,
            ).filter(keep)[l],
        forall|position: int|
            0 <= position < n && keep(position) ==> places(n).filter(keep).contains(position),
    decreases n,
{
    if n == 0 {
        lemma_filter_next_place(0, keep);
    } else {
        let before = (n - 1) as nat;
        let kept = places(before).filter(keep);
        lemma_filtered_places(before, keep);
        lemma_filter_next_place(before, keep);
        assert forall|position: int| 0 <= position < n && keep(position) implies places(n).filter(
            keep,
        ).contains(position) by {
            if position < before {
                assert(kept.contains(position));
                let at = choose|at: int| 0 <= at < kept.len() && kept[at] == position;
                assert(places(n).filter(keep)[at] == position);
            } else {
                assert(places(n).filter(keep).last() == position);
            }
        }
    }
}

/// The entries of a row of items that has grown by one.
proof fn lemma_entries_push(items: Seq<&IndexItem>, item: &IndexItem)
    ensures
        entries_of_refs(items.push(item)) == entries_of_refs(items).push(item@),
{
    assert(entries_of_refs(items.push(item)) =~= entries_of_refs(items).push(item@));
}

/// The entries at a row of positions that has grown by one.
proof fn lemma_entries_at_push(entries: Seq<IndexEntry>, positions: Seq<int>, position: int)
    ensures
        entries_at(entries, positions.push(position)) == entries_at(entries, positions).push(
            entries[position],
        ),
{
    assert(entries_at(entries, positions.push(position)) =~= entries_at(entries, positions).push(
        entries[position],
    ));
}

/// An exact query finds a headword whatever the letter case in which it is
/// asked: every entry whose headword and the query are the same in lower
/// case is among the answers.
pub proof fn lemma_exact_finds_any_case(entries: Seq<IndexEntry>, position: int, query: Seq<char>)
    requires
        0 <= position < entries.len(),
        lowercase(query) == lowercase(entries[position].word),
    ensures
        exact_positions(entries, query).contains(position),
        entries_at(entries, exact_positions(entries, query)).contains(entries[position]),
{
    let keep = exact_filter(entries, query);
    let found = exact_positions(entries, query);
    lemma_filtered_places(entries.len(), keep);
    assert(keep(position));
    assert(places(entries.len()).filter(keep).contains(position));
    let at = choose|at: int| 0 <= at < found.len() && found[at] == position;
    assert(entries_at(entries, found)[at] == entries[position]);
}

/// An exact query answers with nothing but entries whose headword is the
/// query in lower case, each of them once, in the order of the index.
pub proof fn lemma_exact_finds_only_matches(entries: Seq<IndexEntry>, query: Seq<char>)
    ensures
        forall|k: int|
            0 <= k < exact_positions(entries, query).len() ==> {
                &&& 0 <= #[trigger] exact_positions(entries, query)[k] < entries.len()
                &&& exact_match(query, entries[exact_positions(entries, query)[k]].word)
            },
        forall|k: int, l: int|
            0 <= k < l < exact_positions(entries, query).len() ==> exact_positions(
                entries,
                query,
            )[k] < exact_positions(entries, query)[l],
{
    lemma_filtered_places(entries.len(), exact_filter(entries, query));
}

/// A headword that answers an exact query answers the fuzzy query too, at
/// distance 0, unless the query is empty or no distance is admitted.
pub proof fn lemma_exact_match_is_fuzzy_match(query: Seq<char>, word: Seq<char>, max_dist: nat)
    requires
        exact_match(query, word),
        lowercase(query).len() > 0,
        max_dist > 0,
    ensures
        fuzzy_distance(query, word) == 0,
        fuzzy_match(query, word, max_dist),
{
    lemma_levenshtein_of_equal(lowercase(query));
}

/// A fuzzy query never hands out an entry whose edit distance from the
/// query is above `max_dist`: every answer is an entry of the index that
/// is admitted, and so within the bound.
pub proof fn lemma_fuzzy_within_max_dist(
    entries: Seq<IndexEntry>,
    query: Seq<char>,
    max_dist: nat,
    max_item: nat,
)
    ensures
        forall|k: int|
            0 <= k < fuzzy_positions(entries, query, max_dist, max_item).len() ==> {
                let position = #[trigger] fuzzy_positions(entries, query, max_dist, max_item)[k];
                &&& 0 <= position < entries.len()
                &&& fuzzy_match(query, entries[position].word, max_dist)
                &&& fuzzy_distance(query, entries[position].word) <= max_dist
            },
{
    let candidates = fuzzy_candidates(entries, query, max_dist);
    let scores = scores_at(entries, query, candidates);
    lemma_filtered_places(entries.len(), fuzzy_filter(entries, query, max_dist));
    lemma_ranking_is_ranked(scores, max_item);
    let found = fuzzy_positions(entries, query, max_dist, max_item);
    assert forall|k: int| 0 <= k < found.len() implies {
        let position = #[trigger] found[k];
        &&& 0 <= position < entries.len()
        &&& fuzzy_match(query, entries[position].word, max_dist)
        &&& fuzzy_distance(query, entries[position].word) <= max_dist
    } by {
        let place = ranking(scores, max_item)[k];
        assert(found[k] == candidates[place]);
    }
}

/// The answers of a fuzzy query are at most `max_item`, and they are sorted
/// by edit distance and headword: of two answers the later one is never the
/// better, and where neither is better the earlier one stands earlier in
/// the index.
pub proof fn lemma_fuzzy_sorted_and_cut(
    entries: Seq<IndexEntry>,
    query: Seq<char>,
    max_dist: nat,
    max_item: nat,
)
    ensures
        fuzzy_positions(entries, query, max_dist, max_item).len() <= max_item,
        forall|k: int, l: int|
            0 <= k < l < fuzzy_positions(entries, query, max_dist, max_item).len() ==> {
                let first = #[trigger] fuzzy_positions(entries, query, max_dist, max_item)[k];
                let second = #[trigger] fuzzy_positions(entries, query, max_dist, max_item)[l];
                &&& !better(score_at(entries, query, second), score_at(entries, query, first))
                &&& better(score_at(entries, query, first), score_at(entries, query, second))
                    || first < second
            },
{
    let candidates = fuzzy_candidates(entries, query, max_dist);
    let scores = scores_at(entries, query, candidates);
    let ranked = ranking(scores, max_item);
    let found = fuzzy_positions(entries, query, max_dist, max_item);
    lemma_filtered_places(entries.len(), fuzzy_filter(entries, query, max_dist));
    lemma_ranking_is_ranked(scores, max_item);
    assert forall|k: int, l: int| 0 <= k < l < found.len() implies {
        let first = #[trigger] found[k];
        let second = #[trigger] found[l];
        &&& !better(score_at(entries, query, second), score_at(entries, query, first))
        &&& better(score_at(entries, query, first), score_at(entries, query, second)) || first
            < second
    } by {
        let i = ranked[k];
        let j = ranked[l];
        assert(found[k] == candidates[i] && found[l] == candidates[j]);
        assert(ranks_first(scores)(i, j));
        assert(scores[i] == score_at(entries, query, candidates[i]));
        assert(scores[j] == score_at(entries, query, candidates[j]));
        if better(scores[i], scores[j]) {
            lemma_better_asymmetric(scores[i], scores[j]);
        } else {
            assert(i < j);
        }
    }
}

/// Whether, of two entries, the one at `first` is handed out before the one
/// at `second` by a fuzzy query that both answer: it scores better, or
/// neither scores better and it stands earlier in the index.
pub open spec fn precedes(entries: Seq<IndexEntry>, query: Seq<char>) -> spec_fn(int, int) -> bool {
    |first: int, second: int|
        {
            let one = score_at(entries, query, first);
            let other = score_at(entries, query, second);
            better(one, other) || (!better(other, one) && first < second)
        }
}

/// The positions of the entries that answer a fuzzy query.
pub open spec fn answers_fuzzy(entries: Seq<IndexEntry>, query: Seq<char>, max_dist: nat)
    -> spec_fn(int) -> bool {
    |position: int|
        0 <= position < entries.len() && fuzzy_match(query, entries[position].word, max_dist)
}

/// What a row of positions must be to answer a fuzzy query, said without
/// any sorting: the row of the best `max_item` of the entries that answer
/// the query, best first. It holds at most `max_item` positions, each of an
/// entry that answers the query, each handed out before those that follow
/// it; and an entry that answers the query is left out only where the row
/// is full, and then everything in the row is handed out before it.
pub open spec fn is_fuzzy_answer(
    entries: Seq<IndexEntry>,
    query: Seq<char>,
    max_dist: nat,
    max_item: nat,
    row: Seq<int>,
) -> bool {
    is_top_row(answers_fuzzy(entries, query, max_dist), precedes(entries, query), max_item, row)
}

/// What a fuzzy query hands out is a fuzzy answer.
pub proof fn lemma_fuzzy_positions_answer(
    entries: Seq<IndexEntry>,
    query: Seq<char>,
    max_dist: nat,
    max_item: nat,
)
    ensures
        is_fuzzy_answer(
            entries,
            query,
            max_dist,
            max_item,
            fuzzy_positions(entries, query, max_dist, max_item),
        ),
{
    let keep = fuzzy_filter(entries, query, max_dist);
    let eligible = answers_fuzzy(entries, query, max_dist);
    let before = precedes(entries, query);
    let candidates = fuzzy_candidates(entries, query, max_dist);
    let scores = scores_at(entries, query, candidates);
    let ranked = ranking(scores, max_item);
    let row = fuzzy_positions(entries, query, max_dist, max_item);
    lemma_filtered_places(entries.len(), keep);
    lemma_ranking_is_ranked(scores, max_item);
    lemma_fuzzy_within_max_dist(entries, query, max_dist, max_item);
    lemma_fuzzy_sorted_and_cut(entries, query, max_dist, max_item);
    assert forall|k: int| 0 <= k < row.len() implies eligible(#[trigger] row[k]) by {}
    assert forall|k: int, l: int| 0 <= k < l < row.len() implies before(
        #[trigger] row[k],
        #[trigger] row[l],
    ) by {}
    assert forall|position: int| #[trigger] eligible(position) && !row.contains(position) implies {
        &&& row.len() == max_item
        &&& forall|k: int| 0 <= k < row.len() ==> before(#[trigger] row[k], position)
    } by {
        assert(keep(position));
        assert(candidates.contains(position));
        let place = choose|place: int| 0 <= place < candidates.len() && candidates[place] == position;
        if ranked.contains(place) {
            let at = choose|at: int| 0 <= at < ranked.len() && ranked[at] == place;
            assert(row[at] == position);
        }
        lemma_ranking_keeps_the_best(scores, max_item, place);
        assert forall|k: int| 0 <= k < row.len() implies before(#[trigger] row[k], position) by {
            let other = ranked[k];
            assert(row[k] == candidates[other]);
            assert(ranks_first(scores)(other, place));
            assert(scores[other] == score_at(entries, query, candidates[other]));
            assert(scores[place] == score_at(entries, query, position));
            assert(other != place);
            if better(scores[other], scores[place]) {
                lemma_better_asymmetric(scores[other], scores[place]);
            } else {
                assert(other < place);
            }
        }
    }
}

/// A fuzzy query has one answer, and asking again gives it again: two rows
/// of positions that both answer the same query to the same index, under
/// the same bounds, are the same row in the same order. So a row that
/// answers the query is what the query hands out.
pub proof fn lemma_fuzzy_repeatable(
    entries: Seq<IndexEntry>,
    query: Seq<char>,
    max_dist: nat,
    max_item: nat,
    first: Seq<int>,
    second: Seq<int>,
)
    requires
        is_fuzzy_answer(entries, query, max_dist, max_item, first),
        is_fuzzy_answer(entries, query, max_dist, max_item, second),
    ensures
        first == second,
        first == fuzzy_positions(entries, query, max_dist, max_item),
{
    let eligible = answers_fuzzy(entries, query, max_dist);
    let before = precedes(entries, query);
    assert forall|a: int, b: int| #[trigger] before(a, b) implies !before(b, a) by {
        let one = score_at(entries, query, a);
        let other = score_at(entries, query, b);
        if better(one, other) {
            lemma_better_asymmetric(one, other);
        }
        if better(other, one) {
            lemma_better_asymmetric(other, one);
        }
    }
    lemma_fuzzy_positions_answer(entries, query, max_dist, max_item);
    lemma_top_row_unique(eligible, before, max_item, first, second);
    lemma_top_row_unique(
        eligible,
        before,
        max_item,
        first,
        fuzzy_positions(entries, query, max_dist, max_item),
    );
}

/// The headwords of a dictionary, in the order of the index file.
#[derive(Debug)]
pub struct DictIndex {
    items: Vec<IndexItem>,
}

impl View for DictIndex {
    type V = Seq<IndexEntry>;

    closed spec fn view(&self) -> Seq<IndexEntry> {
        entries_of(self.items@)
    }
}

impl Default for DictIndex {
    /// An index without entries.
    fn default() -> (index: Self)
        ensures
            index@ == Seq::<IndexEntry>::empty(),
    {
        let index = DictIndex { items: Vec::new() };
        assert(index@ =~= Seq::<IndexEntry>::empty());
        index
    }
}

impl DictIndex {
    /// The number of entries.
    pub fn len(&self) -> (count: usize)
        ensures
            count == self@.len(),
    {
        self.items.len()
    }

    /// The entry at position `i` of the index file, if there is one.
    pub fn get(&self, i: usize) -> (item: Option<&IndexItem>)
        ensures
            match item {
                Some(found) => i < self@.len() && found@ == self@[i as int],
                None => i >= self@.len(),
            },
    {
        if i < self.items.len() {
            Some(&self.items[i])
        } else {
            None
        }
    }

    /// Decodes an index file and appends its entries to the index.
    ///
    /// Where the file is ill-formed no entry is appended, and the error is
    /// that of its first ill-formed record.
    pub fn read_from_bytes(&mut self, bytes: &[u8], width: OffsetWidth) -> (outcome: Result<
        (),
        SdError,
    >)
        ensures
            match outcome {
                Ok(()) => preceded_by(old(self)@, parse_records(bytes@, width)) == Ok::<
                    Seq<IndexEntry>,
                    SdFault,
                >(final(self)@),
                Err(error) => {
                    &&& parse_records(bytes@, width) == Err::<Seq<IndexEntry>, SdFault>(error@)
                    &&& final(self)@ == old(self)@
                },
            },
    {
        let mut reader = ByteReader::new(bytes);
        let mut parsed: Vec<IndexItem> = Vec::new();
        assert(entries_of(parsed@) =~= Seq::<IndexEntry>::empty());
        loop
            invariant
                parse_records(bytes@, width) == preceded_by(
                    entries_of(parsed@),
                    parse_records(reader.remaining(), width),
                ),
                *self == *old(self),
            ensures
                reader.remaining().len() == 0,
            decreases reader.remaining().len(),
        {
            if reader.is_empty() {
                break ;
            }
            let ghost rest = reader.remaining();
            let ghost before = entries_of(parsed@);
            let (word_bytes, _) = reader.read_until(0);
            let word = match String::from_utf8(slice_to_vec(word_bytes)) {
                Ok(word) => word,
                Err(error) => {
                    return Err(SdError::FromUtf8Error(error));
                },
            };
            let offset = match read_uint(&mut reader, width) {
                Ok(offset) => offset,
                Err(error) => {
                    return Err(error);
                },
            };
            let length = match read_uint(&mut reader, width) {
                Ok(length) => length,
                Err(error) => {
                    return Err(error);
                },
            };
            let item = IndexItem { word, offset, length };
            parsed.push(item);
            proof {
                let size = width.size() as int;
                let tail = after_delimiter(rest, 0);
                assert(tail.skip(size).skip(size) =~= tail.skip(2 * size));
                assert(entries_of(parsed@) =~= before.push(item@));
                let after = parse_records(reader.remaining(), width);
                match after {
                    Ok(entries) => {
                        assert(before + (seq![item@] + entries) =~= before.push(item@) + entries);
                    },
                    Err(_) => {},
                }
            }
        }
        proof {
            match parse_records(bytes@, width) {
                Ok(entries) => {
                    assert(entries =~= entries_of(parsed@));
                },
                Err(_) => {},
            }
            assert(entries_of(self.items@ + parsed@) =~= entries_of(self.items@) + entries_of(
                parsed@,
            ));
        }
        self.items.append(&mut parsed);
        Ok(())
    }

    /// Every entry whose headword is the query, letter case set aside, in
    /// the order of the index.
    pub fn consult_exact(&self, word: &str) -> (found: Vec<&IndexItem>)
        ensures
            entries_of_refs(found@) == entries_at(self@, exact_positions(self@, word@)),
    {
        let lower = word.to_lowercase();
        let mut found: Vec<&IndexItem> = Vec::new();
        let ghost keep = exact_filter(self@, word@);
        let mut i: usize = 0;
        proof {
            lemma_filter_next_place(0, keep);
            assert(entries_of_refs(found@) =~= entries_at(self@, Seq::<int>::empty()));
        }
        while i < self.items.len()
            invariant
                i <= self.items@.len(),
                lower@ == lowercase(word@),
                keep == exact_filter(self@, word@),
                entries_of_refs(found@) == entries_at(self@, places(i as nat).filter(keep)),
            decreases self.items@.len() - i,
        {
            let item = &self.items[i];
            let item_lower = item.word.as_str().to_lowercase();
            proof {
                lemma_filter_next_place(i as nat, keep);
                assert(self@[i as int] == item@);
            }
            if item_lower == lower {
                proof {
                    lemma_entries_push(found@, item);
                    lemma_entries_at_push(self@, places(i as nat).filter(keep), i as int);
                }
                found.push(item);
            }
            i += 1;
        }
        found
    }

    /// The entries whose headword is close to the query, best first.
    ///
    /// Headwords and query are compared in lower case. An entry answers
    /// where its headword is admitted as [`fuzzy_score`] says, with
    /// `option.max_dist` as the bound. The answers are ranked by edit
    /// distance, then by headword, then by their place in the index, and the
    /// first `option.max_item` of them are handed out.
    pub fn consult_fuzzy(&self, word: &str, option: &ConsultOption) -> (found: Vec<&IndexItem>)
        ensures
            entries_of_refs(found@) == entries_at(
                self@,
                fuzzy_positions(self@, word@, option.max_dist as nat, option.max_item as nat),
            ),
    {
        let lower = word.to_lowercase();
        let max_dist = option.max_dist;
        let ghost keep = fuzzy_filter(self@, word@, max_dist as nat);
        let mut positions: Vec<usize> = Vec::new();
        let mut scored: Vec<Scored> = Vec::new();
        let mut i: usize = 0;
        proof {
            lemma_filter_next_place(0, keep);
            assert(places_of(positions@) =~= Seq::<int>::empty());
            assert(scores_of(scored@) =~= scores_at(self@, word@, places_of(positions@)));
        }
        while i < self.items.len()
            invariant
                i <= self.items@.len(),
                lower@ == lowercase(word@),
                keep == fuzzy_filter(self@, word@, max_dist as nat),
                places_of(positions@) == places(i as nat).filter(keep),
                scores_of(scored@) == scores_at(self@, word@, places_of(positions@)),
                positions@.len() == scored@.len(),
                forall|k: int| 0 <= k < positions@.len() ==> positions@[k] < i,
            decreases self.items@.len() - i,
        {
            let item = &self.items[i];
            let item_lower = item.word.as_str().to_lowercase();
            proof {
                lemma_filter_next_place(i as nat, keep);
                assert(self@[i as int] == item@);
            }
            match fuzzy_score(lower.as_str(), item_lower.as_str(), max_dist) {
                Some(distance) => {
                    let ghost before = places_of(positions@);
                    let ghost before_scored = scored@;
                    let candidate = Scored { distance, word: item.word.as_str() };
                    positions.push(i);
                    scored.push(candidate);
                    proof {
                        assert(places_of(positions@) =~= before.push(i as int));
                        assert(candidate@ == score_at(self@, word@, i as int));
                        assert(scores_of(scored@) =~= scores_of(before_scored).push(candidate@));
                        assert(scores_at(self@, word@, before.push(i as int)) =~= scores_at(
                            self@,
                            word@,
                            before,
                        ).push(score_at(self@, word@, i as int)));
                    }
                },
                None => {},
            }
            i += 1;
        }
        let order = rank(&scored, option.max_item);
        let ghost candidates = places_of(positions@);
        let ghost scores = scores_of(scored@);
        let ghost ranked = ranking(scores, option.max_item as nat);
        proof {
            lemma_ranking_is_ranked(scores, option.max_item as nat);
            assert(forall|k: int|
                0 <= k < order@.len() ==> order@[k] as int == #[trigger] ranked[k]) by {
                assert(forall|k: int|
                    0 <= k < order@.len() ==> #[trigger] places_of(order@)[k] == order@[k] as int);
            }
        }
        let mut found: Vec<&IndexItem> = Vec::new();
        let mut k: usize = 0;
        assert(entries_of_refs(found@) =~= entries_at(
            self@,
            ranked.take(0).map_values(|place: int| candidates[place]),
        ));
        while k < order.len()
            invariant
                k <= order@.len(),
                order@.len() == ranked.len(),
                candidates == places_of(positions@),
                forall|j: int| 0 <= j < order@.len() ==> order@[j] as int == #[trigger] ranked[j],
                forall|j: int| 0 <= j < ranked.len() ==> 0 <= #[trigger] ranked[j] < positions@.len(),
                forall|j: int|
                    0 <= j < positions@.len() ==> #[trigger] positions@[j] < self.items@.len(),
                entries_of_refs(found@) == entries_at(
                    self@,
                    ranked.take(k as int).map_values(|place: int| candidates[place]),
                ),
            decreases order@.len() - k,
        {
            let place = order[k];
            assert(place as int == ranked[k as int]);
            let position = positions[place];
            let item = &self.items[position];
            let ghost before_found = found@;
            found.push(item);
            proof {
                let done = ranked.take(k as int).map_values(|place: int| candidates[place]);
                assert(self@[position as int] == item@);
                assert(candidates[place as int] == position as int);
                assert(ranked.take(k + 1) =~= ranked.take(k as int).push(ranked[k as int]));
                assert(ranked.take(k + 1).map_values(|place: int| candidates[place]) =~= done.push(
                    position as int,
                ));
                lemma_entries_push(before_found, item);
                lemma_entries_at_push(self@, done, position as int);
            }
            k += 1;
        }
        assert(ranked.take(order@.len() as int) =~= ranked);
        found
    }
}

} // verus!
