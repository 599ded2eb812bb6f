use crate::text::{
    bytes_less, edit_distance, lemma_bytes_less_asymmetric, lemma_bytes_less_connected,
    lemma_bytes_less_transitive, levenshtein, word_before, word_less,
};
use vstd::prelude::*;
use vstd::relations::{sorted_by, total_ordering};
use vstd::seq_lib::{lemma_sorted_unique, to_multiset_build, to_multiset_insert};
use vstd::string::StrSliceExecFns;
use vstd::utf8::encode_utf8;

verus! {

/// How far two lengths are apart.
pub open spec fn length_gap(a: nat, b: nat) -> nat {
    if a >= b {
        (a - b) as nat
    } else {
        (b - a) as nat
    }
}

/// Whether a headword of `word_len` characters is worth measuring against a
/// query of `query_len` characters: their lengths are less than `max_dist`
/// apart.
pub open spec fn near_in_length(query_len: nat, word_len: nat, max_dist: nat) -> bool {
    length_gap(query_len, word_len) < max_dist
}

/// Whether a headword at edit distance `distance` answers a fuzzy query.
///
/// Their lengths are less than `max_dist` apart, the distance is at most
/// `max_dist`, and it is less than either length: a word that shares nothing
/// with the query does not answer it.
pub open spec fn admits(query_len: nat, word_len: nat, distance: nat, max_dist: nat) -> bool {
    &&& near_in_length(query_len, word_len, max_dist)
    &&& distance <= max_dist
    &&& distance < query_len
    &&& distance < word_len
}

/// Whether the lengths of a query and a headword are less than `max_dist`
/// apart. A headword that fails this is not measured at all.
pub fn fuzzy_near(query_len: usize, word_len: usize, max_dist: usize) -> (near: bool)
    ensures
        near == near_in_length(query_len as nat, word_len as nat, max_dist as nat),
{
    let gap: usize = if query_len >= word_len {
        query_len - word_len
    } else {
        word_len - query_len
    };
    gap < max_dist
}

/// Whether a headword at edit distance `distance` answers a fuzzy query.
pub fn fuzzy_admits(query_len: usize, word_len: usize, distance: usize, max_dist: usize) -> (admitted:
    bool)
    ensures
        admitted == admits(query_len as nat, word_len as nat, distance as nat, max_dist as nat),
{
    fuzzy_near(query_len, word_len, max_dist) && distance <= max_dist && distance < query_len
        && distance < word_len
}

/// What a headword in lower case scores against a query in lower case:
/// their edit distance where the headword answers the query, nothing where
/// it does not.
pub open spec fn lowered_score(lower_query: Seq<char>, lower_word: Seq<char>, max_dist: nat)
    -> Option<nat> {
    let distance = levenshtein(lower_query, lower_word);
    if admits(lower_query.len(), lower_word.len(), distance, max_dist) {
        Some(distance)
    } else {
        None
    }
}

/// Scores a headword against a fuzzy query, both already in lower case.
///
/// A headword whose length is `max_dist` or more away from that of the query
/// is turned down unmeasured. Any other is admitted where its edit distance
/// is at most `max_dist` and less than either length.
pub fn fuzzy_score(lower_query: &str, lower_word: &str, max_dist: usize) -> (score: Option<usize>)
    ensures
        match score {
            Some(distance) => lowered_score(lower_query@, lower_word@, max_dist as nat) == Some(
                distance as nat,
            ),
            None => lowered_score(lower_query@, lower_word@, max_dist as nat) is None,
        },
{
    let query_len = lower_query.unicode_len();
    let word_len = lower_word.unicode_len();
    if !fuzzy_near(query_len, word_len, max_dist) {
        return None;
    }
    let distance = edit_distance(lower_query, lower_word);
    if fuzzy_admits(query_len, word_len, distance, max_dist) {
        Some(distance)
    } else {
        None
    }
}

/// A headword that answers a fuzzy query, with its edit distance from the
/// query.
#[derive(Clone, Copy, Debug)]
pub struct Scored<'a> {
    pub distance: usize,
    pub word: &'a str,
}

/// What a [`Scored`] says.
pub struct Score {
    pub distance: nat,
    pub word: Seq<char>,
}

impl<'a> View for Scored<'a> {
    type V = Score;

    open spec fn view(&self) -> Score {
        Score { distance: self.distance as nat, word: self.word@ }
    }
}

/// The scores that a vector of candidates holds.
pub open spec fn scores_of(candidates: Seq<Scored>) -> Seq<Score> {
    candidates.map_values(|candidate: Scored| candidate@)
}

/// Whether score `a` is strictly better than score `b`: a smaller distance,
/// or the same distance and a word that is ordered before the other.
pub open spec fn better(a: Score, b: Score) -> bool {
    a.distance < b.distance || (a.distance == b.distance && word_before(a.word, b.word))
}

/// The order in which candidates are handed out: the better score first,
/// and of two scores of which neither is better, the one that was found
/// first. The relation holds between the places `i` and `j` of two
/// candidates where `i` is handed out no later than `j`.
pub open spec fn ranks_first(scores: Seq<Score>) -> spec_fn(int, int) -> bool {
    |i: int, j: int| better(scores[i], scores[j]) || (!better(scores[j], scores[i]) && i <= j)
}

/// The places `0..n` in rising order.
pub open spec fn places(n: nat) -> Seq<int> {
    Seq::new(n, |i: int| i)
}

/// The places of the candidates in the order in which they are handed out,
/// cut after the first `max_item`.
pub open spec fn ranking(scores: Seq<Score>, max_item: nat) -> Seq<int> {
    let ranked = places(scores.len()).sort_by(ranks_first(scores));
    if max_item < ranked.len() {
        ranked.take(max_item as int)
    } else {
        ranked
    }
}

/// No score is better than itself, and of two scores at most one is better
/// than the other.
pub proof fn lemma_better_asymmetric(a: Score, b: Score)
    requires
        better(a, b),
    ensures
        !better(b, a),
{
    if a.distance == b.distance {
        lemma_bytes_less_asymmetric(encode_utf8(a.word), encode_utf8(b.word));
    }
}

/// What is better than a score is better than all that the score is better
/// than.
pub proof fn lemma_better_transitive(a: Score, b: Score, c: Score)
    requires
        better(a, b),
        better(b, c),
    ensures
        better(a, c),
{
    if a.distance == b.distance && b.distance == c.distance {
        lemma_bytes_less_transitive(encode_utf8(a.word), encode_utf8(b.word), encode_utf8(c.word));
    }
}

/// What is better than a score is better than every score that is not
/// better than it.
pub proof fn lemma_better_then_no_worse(a: Score, b: Score, c: Score)
    requires
        better(a, b),
        !better(c, b),
    ensures
        better(a, c),
{
    if a.distance == b.distance && b.distance == c.distance {
        let wa = encode_utf8(a.word);
        let wb = encode_utf8(b.word);
        let wc = encode_utf8(c.word);
        if bytes_less(wb, wc) {
            lemma_bytes_less_transitive(wa, wb, wc);
        } else {
            lemma_bytes_less_connected(wb, wc);
        }
    }
}

/// Every score that is not better than a score is no better than what the
/// score is better than.
pub proof fn lemma_no_worse_then_better(a: Score, b: Score, c: Score)
    requires
        !better(b, a),
        better(b, c),
    ensures
        better(a, c),
{
    if a.distance == b.distance && b.distance == c.distance {
        let wa = encode_utf8(a.word);
        let wb = encode_utf8(b.word);
        let wc = encode_utf8(c.word);
        if bytes_less(wa, wb) {
            lemma_bytes_less_transitive(wa, wb, wc);
        } else {
            lemma_bytes_less_connected(wa, wb);
        }
    }
}

/// Of three scores of which the second is not better than the first nor
/// the third better than the second, the third is not better than the
/// first.
pub proof fn lemma_no_worse_transitive(a: Score, b: Score, c: Score)
    requires
        !better(b, a),
        !better(c, b),
    ensures
        !better(c, a),
{
    if better(c, a) {
        lemma_better_then_no_worse(c, a, b);
    }
}

/// The order in which candidates are handed out is a total order of their
/// places.
pub proof fn lemma_ranks_first_total(scores: Seq<Score>)
    ensures
        total_ordering(ranks_first(scores)),
{
    let leq = ranks_first(scores);
    assert forall|i: int, j: int| #[trigger] leq(i, j) && #[trigger] leq(j, i) implies i == j by {
        if better(scores[i], scores[j]) {
            lemma_better_asymmetric(scores[i], scores[j]);
        }
        if better(scores[j], scores[i]) {
            lemma_better_asymmetric(scores[j], scores[i]);
        }
    }
    assert forall|i: int, j: int, k: int| #[trigger] leq(i, j) && #[trigger] leq(j, k) implies leq(
        i,
        k,
    ) by {
        let a = scores[i];
        let b = scores[j];
        let c = scores[k];
        if better(a, b) {
            if better(b, c) {
                lemma_better_transitive(a, b, c);
            } else {
                lemma_better_then_no_worse(a, b, c);
            }
        } else {
            if better(b, c) {
                lemma_no_worse_then_better(a, b, c);
            } else {
                lemma_no_worse_transitive(a, b, c);
            }
        }
    }
    assert forall|i: int, j: int| #[trigger] leq(i, j) || #[trigger] leq(j, i) by {
        if better(scores[i], scores[j]) {
            lemma_better_asymmetric(scores[i], scores[j]);
        }
    }
    assert forall|i: int| #[trigger] leq(i, i) by {
        if better(scores[i], scores[i]) {
            lemma_better_asymmetric(scores[i], scores[i]);
        }
    }
}

/// A ranking names places of candidates, none of them twice, in the order
/// in which they are handed out, and holds at most `max_item` of them: all
/// of them where there are no more.
pub proof fn lemma_ranking_is_ranked(scores: Seq<Score>, max_item: nat)
    ensures
        ranking(scores, max_item).len() == if max_item < scores.len() {
            max_item
        } else {
            scores.len()
        },
        forall|k: int|
            0 <= k < ranking(scores, max_item).len() ==> 0 <= #[trigger] ranking(
                scores,
                max_item,
            )[k] < scores.len(),
        sorted_by(ranking(scores, max_item), ranks_first(scores)),
        ranking(scores, max_item).no_duplicates(),
{
    broadcast use vstd::seq_lib::group_to_multiset_ensures;

    let leq = ranks_first(scores);
    let all = places(scores.len());
    let ranked = all.sort_by(leq);
    let cut = ranking(scores, max_item);
    lemma_ranks_first_total(scores);
    all.lemma_sort_by_ensures(leq);
    assert(ranked.len() == all.len()) by {
        vstd::seq_lib::to_multiset_len(ranked);
        vstd::seq_lib::to_multiset_len(all);
    }
    assert forall|k: int| 0 <= k < ranked.len() implies 0 <= #[trigger] ranked[k]
        < scores.len() by {
        let place = ranked[k];
        assert(ranked.contains(place));
        if !all.contains(place) {
            assert(!ranked.contains(place));
        }
        let at = choose|at: int| 0 <= at < all.len() && all[at] == place;
        assert(all[at] == at);
    }
    assert forall|k: int, l: int| 0 <= k < l < ranked.len() implies ranked[k] != ranked[l] by {
        if ranked[k] == ranked[l] {
            let place = ranked[k];
            assert(all.to_multiset().count(place) == ranked.to_multiset().count(place));
            assert(all.no_duplicates());
            all.lemma_multiset_has_no_duplicates();
            assert(all.to_multiset().count(place) <= 1);
            let rest = ranked.remove(k);
            assert(rest[l - 1] == place);
            assert(rest.contains(place));
            vstd::seq_lib::to_multiset_remove(ranked, k);
            assert(rest.to_multiset().count(place) >= 1);
        }
    }
    assert forall|k: int| 0 <= k < cut.len() implies cut[k] == ranked[k] by {}
}

/// A ranking leaves out no candidate for a worse one: a place that is not
/// in it was cut off, with `max_item` places before it, each of which is
/// handed out no later than the place would be.
pub proof fn lemma_ranking_keeps_the_best(scores: Seq<Score>, max_item: nat, place: int)
    requires
        0 <= place < scores.len(),
        !ranking(scores, max_item).contains(place),
    ensures
        ranking(scores, max_item).len() == max_item,
        forall|k: int|
            0 <= k < ranking(scores, max_item).len() ==> ranks_first(scores)(
                #[trigger] ranking(scores, max_item)[k],
                place,
            ),
{
    broadcast use vstd::seq_lib::group_to_multiset_ensures;

    let leq = ranks_first(scores);
    let all = places(scores.len());
    let ranked = all.sort_by(leq);
    let cut = ranking(scores, max_item);
    lemma_ranks_first_total(scores);
    all.lemma_sort_by_ensures(leq);
    assert(all[place] == place);
    assert(all.contains(place));
    assert(ranked.to_multiset().count(place) > 0);
    assert(ranked.contains(place));
    let at = choose|at: int| 0 <= at < ranked.len() && ranked[at] == place;
    if at < cut.len() {
        assert(cut[at] == place);
    }
    assert forall|k: int| 0 <= k < cut.len() implies leq(#[trigger] cut[k], place) by {
        assert(cut[k] == ranked[k]);
    }
}

/// Whether `row` holds the first `max_item` of the eligible numbers, in the
/// order that `before` gives them:
/// it holds at most `max_item` numbers,
/// each of them eligible,
/// each before those that follow it,
/// and an eligible number is left out only where the row is full, and then
/// every number in the row is before it.
pub open spec fn is_top_row(
    eligible: spec_fn(int) -> bool,
    before: spec_fn(int, int) -> bool,
    max_item: nat,
    row: Seq<int>,
) -> bool {
    &&& row.len() <= max_item
    &&& forall|k: int| 0 <= k < row.len() ==> eligible(#[trigger] row[k])
    &&& forall|k: int, l: int| 0 <= k < l < row.len() ==> before(#[trigger] row[k], #[trigger] row[l])
    &&& forall|number: int|
        #[trigger] eligible(number) && !row.contains(number) ==> {
            &&& row.len() == max_item
            &&& forall|k: int| 0 <= k < row.len() ==> before(#[trigger] row[k], number)
        }
}

/// Whether `before` puts the eligible numbers in a row: of two of them that
/// differ one is before the other, and never both ways.
pub open spec fn lines_up(eligible: spec_fn(int) -> bool, before: spec_fn(int, int) -> bool)
    -> bool {
    &&& forall|a: int, b: int| #[trigger] before(a, b) ==> !before(b, a)
    &&& forall|a: int, b: int|
        eligible(a) && eligible(b) && a != b ==> #[trigger] before(a, b) || before(b, a)
}

/// Of two top rows that agree on their first `k` numbers neither goes on
/// with a number that is before the one with which the other goes on.
proof fn lemma_top_rows_branch(
    eligible: spec_fn(int) -> bool,
    before: spec_fn(int, int) -> bool,
    max_item: nat,
    one: Seq<int>,
    other: Seq<int>,
    k: int,
)
    requires
        lines_up(eligible, before),
        is_top_row(eligible, before, max_item, one),
        is_top_row(eligible, before, max_item, other),
        0 <= k < one.len(),
        k < other.len(),
        forall|j: int| 0 <= j < k ==> one[j] == other[j],
    ensures
        !before(one[k], other[k]),
{
    let a = one[k];
    let b = other[k];
    if before(a, b) {
        assert(!before(b, a));
        if other.contains(a) {
            let m = choose|m: int| 0 <= m < other.len() && other[m] == a;
            if m < k {
                assert(before(one[m], one[k]));
            } else if m > k {
                assert(before(other[k], other[m]));
            }
        } else {
            assert(eligible(a));
            assert(before(other[k], a));
        }
    }
}

/// Two top rows agree on every place that both have.
proof fn lemma_top_rows_agree(
    eligible: spec_fn(int) -> bool,
    before: spec_fn(int, int) -> bool,
    max_item: nat,
    one: Seq<int>,
    other: Seq<int>,
    k: int,
)
    requires
        lines_up(eligible, before),
        is_top_row(eligible, before, max_item, one),
        is_top_row(eligible, before, max_item, other),
        0 <= k <= one.len(),
        k <= other.len(),
    ensures
        forall|j: int| 0 <= j < k ==> one[j] == other[j],
    decreases k,
{
    if k > 0 {
        lemma_top_rows_agree(eligible, before, max_item, one, other, k - 1);
        lemma_top_rows_branch(eligible, before, max_item, one, other, k - 1);
        lemma_top_rows_branch(eligible, before, max_item, other, one, k - 1);
        let a = one[k - 1];
        let b = other[k - 1];
        if a != b {
            assert(eligible(a) && eligible(b));
            assert(before(a, b) || before(b, a));
        }
    }
}

/// A top row is no shorter than another.
proof fn lemma_top_rows_as_long(
    eligible: spec_fn(int) -> bool,
    before: spec_fn(int, int) -> bool,
    max_item: nat,
    one: Seq<int>,
    other: Seq<int>,
)
    requires
        lines_up(eligible, before),
        is_top_row(eligible, before, max_item, one),
        is_top_row(eligible, before, max_item, other),
    ensures
        one.len() >= other.len(),
{
    if one.len() < other.len() {
        let n = one.len() as int;
        let b = other[n];
        lemma_top_rows_agree(eligible, before, max_item, one, other, n);
        if one.contains(b) {
            let m = choose|m: int| 0 <= m < one.len() && one[m] == b;
            assert(before(other[m], other[n]));
        } else {
            assert(eligible(b));
        }
    }
}

/// There is one top row: where `before` puts the eligible numbers in a
/// row, two rows that both hold the first `max_item` of them are the same.
pub proof fn lemma_top_row_unique(
    eligible: spec_fn(int) -> bool,
    before: spec_fn(int, int) -> bool,
    max_item: nat,
    one: Seq<int>,
    other: Seq<int>,
)
    requires
        lines_up(eligible, before),
        is_top_row(eligible, before, max_item, one),
        is_top_row(eligible, before, max_item, other),
    ensures
        one == other,
{
    lemma_top_rows_as_long(eligible, before, max_item, one, other);
    lemma_top_rows_as_long(eligible, before, max_item, other, one);
    lemma_top_rows_agree(eligible, before, max_item, one, other, one.len() as int);
    assert(one =~= other);
}

/// Whether the candidate at place `first` is handed out before the one at
/// place `second`: it scores better, or neither scores better and it comes
/// first among the candidates.
pub open spec fn handed_out_before(scores: Seq<Score>) -> spec_fn(int, int) -> bool {
    |first: int, second: int|
        better(scores[first], scores[second]) || (!better(scores[second], scores[first])
            && first < second)
}

/// The places of `n` candidates.
pub open spec fn is_place(n: nat) -> spec_fn(int) -> bool {
    |place: int| 0 <= place < n
}

/// The order in which candidates are handed out puts their places in a row.
pub proof fn lemma_places_line_up(scores: Seq<Score>)
    ensures
        lines_up(is_place(scores.len()), handed_out_before(scores)),
{
    let before = handed_out_before(scores);
    assert forall|a: int, b: int| #[trigger] before(a, b) implies !before(b, a) by {
        if better(scores[a], scores[b]) {
            lemma_better_asymmetric(scores[a], scores[b]);
        }
        if better(scores[b], scores[a]) {
            lemma_better_asymmetric(scores[b], scores[a]);
        }
    }
}

/// What a ranking is, said without any sorting: the row of the first
/// `max_item` places in the order in which candidates are handed out. A row
/// of places is the ranking of the candidates as soon as it is such a row.
pub proof fn lemma_ranking_is_the_top_row(scores: Seq<Score>, max_item: nat, row: Seq<int>)
    ensures
        is_top_row(
            is_place(scores.len()),
            handed_out_before(scores),
            max_item,
            ranking(scores, max_item),
        ),
        is_top_row(is_place(scores.len()), handed_out_before(scores), max_item, row) ==> row
            == ranking(scores, max_item),
{
    let eligible = is_place(scores.len());
    let before = handed_out_before(scores);
    let ranked = ranking(scores, max_item);
    lemma_ranking_is_ranked(scores, max_item);
    assert forall|k: int, l: int| 0 <= k < l < ranked.len() implies before(
        #[trigger] ranked[k],
        #[trigger] ranked[l],
    ) by {
        assert(ranks_first(scores)(ranked[k], ranked[l]));
        if better(scores[ranked[k]], scores[ranked[l]]) {
            lemma_better_asymmetric(scores[ranked[k]], scores[ranked[l]]);
        }
    }
    assert forall|place: int| #[trigger] eligible(place) && !ranked.contains(place) implies {
        &&& ranked.len() == max_item
        &&& forall|k: int| 0 <= k < ranked.len() ==> before(#[trigger] ranked[k], place)
    } by {
        lemma_ranking_keeps_the_best(scores, max_item, place);
        assert forall|k: int| 0 <= k < ranked.len() implies before(#[trigger] ranked[k], place) by {
            assert(ranks_first(scores)(ranked[k], place));
            assert(ranked.contains(ranked[k]));
            if better(scores[ranked[k]], scores[place]) {
                lemma_better_asymmetric(scores[ranked[k]], scores[place]);
            }
        }
    }
    if is_top_row(eligible, before, max_item, row) {
        lemma_places_line_up(scores);
        lemma_top_row_unique(eligible, before, max_item, row, ranked);
    }
}

/// Whether `a` is strictly better than `b`.
pub fn is_better(a: &Scored, b: &Scored) -> (yes: bool)
    ensures
        yes == better(a@, b@),
{
    a.distance < b.distance || (a.distance == b.distance && word_less(a.word, b.word))
}

/// The places in a vector of places.
pub open spec fn places_of(order: Seq<usize>) -> Seq<int> {
    order.map_values(|place: usize| place as int)
}

/// To put a place between those that are handed out no later and those
/// that are handed out no earlier keeps a row of places in order.
proof fn lemma_insert_keeps_order(row: Seq<int>, at: int, place: int, leq: spec_fn(int, int) -> bool)
    requires
        sorted_by(row, leq),
        0 <= at <= row.len(),
        forall|j: int| 0 <= j < at ==> leq(row[j], place),
        forall|j: int| at <= j < row.len() ==> leq(place, row[j]),
    ensures
        sorted_by(row.insert(at, place), leq),
{
    let grown = row.insert(at, place);
    assert forall|i: int, j: int| 0 <= i < j < grown.len() implies #[trigger] leq(
        grown[i],
        grown[j],
    ) by {
        if i < at && j > at {
            assert(grown[i] == row[i] && grown[j] == row[j - 1]);
        }
    }
}

/// Ranks the candidates of a fuzzy query: the smaller distance first, among
/// equal distances the word that is ordered first, and among equal words
/// the candidate that comes first in `candidates`. Hands out the places in
/// `candidates` of the first `max_item` of them, best first.
///
/// All candidates are ranked before the row is cut, so what is cut off is
/// never better than what is kept.
pub fn rank(candidates: &Vec<Scored>, max_item: usize) -> (order: Vec<usize>)
    ensures
        places_of(order@) == ranking(scores_of(candidates@), max_item as nat),
{
    let ghost scores = scores_of(candidates@);
    let ghost leq = ranks_first(scores);
    let mut order: Vec<usize> = Vec::new();
    let mut i: usize = 0;
    proof {
        lemma_ranks_first_total(scores);
        assert(places_of(order@) =~= places(0));
    }
    while i < candidates.len()
        invariant
            i <= candidates@.len(),
            scores == scores_of(candidates@),
            leq == ranks_first(scores),
            total_ordering(leq),
            sorted_by(places_of(order@), leq),
            places_of(order@).to_multiset() == places(i as nat).to_multiset(),
            order@.len() == i,
            forall|j: int| 0 <= j < order@.len() ==> order@[j] < i,
        decreases candidates@.len() - i,
    {
        let ghost row = places_of(order@);
        let at = insertion_point(candidates, &order, i);
        proof {
            lemma_insert_keeps_order(row, at as int, i as int, leq);
            to_multiset_insert(row, at as int, i as int);
            to_multiset_build(places(i as nat), i as int);
            assert(places(i as nat).push(i as int) =~= places((i + 1) as nat));
        }
        order.insert(at, i);
        assert(places_of(order@) =~= row.insert(at as int, i as int));
        i += 1;
    }
    proof {
        let all = places(candidates@.len());
        all.lemma_sort_by_ensures(leq);
        lemma_sorted_unique(places_of(order@), all.sort_by(leq), leq);
    }
    order.truncate(max_item);
    assert(places_of(order@) =~= ranking(scores, max_item as nat));
    order
}

/// Where the candidate at place `next` belongs in a ranked row of the
/// candidates before it: behind every candidate that it is not better
/// than, in front of the others. Found by halving the row.
fn insertion_point(candidates: &Vec<Scored>, order: &Vec<usize>, next: usize) -> (at: usize)
    requires
        next < candidates@.len(),
        sorted_by(places_of(order@), ranks_first(scores_of(candidates@))),
        forall|j: int| 0 <= j < order@.len() ==> order@[j] < next,
    ensures
        at <= order@.len(),
        forall|j: int|
            0 <= j < at ==> ranks_first(scores_of(candidates@))(
                #[trigger] places_of(order@)[j],
                next as int,
            ),
        forall|j: int|
            at <= j < order@.len() ==> ranks_first(scores_of(candidates@))(
                next as int,
                #[trigger] places_of(order@)[j],
            ),
{
    let ghost scores = scores_of(candidates@);
    let ghost leq = ranks_first(scores);
    let ghost row = places_of(order@);
    let ghost new = scores[next as int];
    let mut low: usize = 0;
    let mut high: usize = order.len();
    while low < high
        invariant
            low <= high <= order@.len(),
            next < candidates@.len(),
            scores == scores_of(candidates@),
            leq == ranks_first(scores),
            row == places_of(order@),
            new == scores[next as int],
            sorted_by(row, leq),
            forall|j: int| 0 <= j < order@.len() ==> order@[j] < next,
            forall|j: int| 0 <= j < low ==> !better(new, scores[#[trigger] row[j]]),
            forall|j: int| high <= j < order@.len() ==> better(new, scores[#[trigger] row[j]]),
        decreases high - low,
    {
        let middle: usize = low + (high - low) / 2;
        let ghost pivot = scores[row[middle as int]];
        if is_better(&candidates[next], &candidates[order[middle]]) {
            proof {
                assert forall|j: int| middle <= j < order@.len() implies better(
                    new,
                    scores[#[trigger] row[j]],
                ) by {
                    if j > middle {
                        assert(leq(row[middle as int], row[j]));
                        if better(pivot, scores[row[j]]) {
                            lemma_better_transitive(new, pivot, scores[row[j]]);
                        } else {
                            lemma_better_then_no_worse(new, pivot, scores[row[j]]);
                        }
                    }
                }
            }
            high = middle;
        } else {
            proof {
                assert forall|j: int| 0 <= j <= middle implies !better(
                    new,
                    scores[#[trigger] row[j]],
                ) by {
                    if j < middle && better(new, scores[row[j]]) {
                        assert(leq(row[j], row[middle as int]));
                        if better(scores[row[j]], pivot) {
                            lemma_better_transitive(new, scores[row[j]], pivot);
                        } else {
                            lemma_better_then_no_worse(new, scores[row[j]], pivot);
                        }
                    }
                }
            }
            low = middle + 1;
        }
    }
    low
}

} // verus!
