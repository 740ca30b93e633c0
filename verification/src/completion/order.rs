//! The order in which completions are listed.

use vstd::prelude::*;
use std::cmp::Ordering;
use crate::chars::string_to_chars;
use crate::completion::cost::CompletionSortRank;

verus! {

/// A candidate with what it is ranked by.
#[derive(Debug)]
pub struct RankedCompletion {
    pub word: String,
    pub rank: CompletionSortRank,
}

/// A [`RankedCompletion`] in mathematical terms.
pub struct RankedWord {
    pub word: Seq<char>,
    pub rank: CompletionSortRank,
}

impl View for RankedCompletion {
    type V = RankedWord;

    open spec fn view(&self) -> RankedWord {
        RankedWord { word: self.word@, rank: self.rank }
    }
}

/// Completions in mathematical terms.
pub open spec fn ranked_views(completions: Seq<RankedCompletion>) -> Seq<RankedWord> {
    completions.map_values(|c: RankedCompletion| c@)
}

/// Whether a rank comes strictly before another.
///
/// The blended cost decides, which already folds in the typed-word bonus and the
/// document/collocation context. This is what lets a common word a fat-finger away (e.g. "rise"
/// for "ruse", "response" for "respine") outrank a rare exact or prefix match. At equal cost a
/// true prefix of what was typed comes first, then a word with the typed first letter, then a
/// common word, then the shorter completion.
pub open spec fn rank_precedes(a: CompletionSortRank, b: CompletionSortRank) -> bool {
    ||| a.combined_cost < b.combined_cost
    ||| a.combined_cost == b.combined_cost && {
        ||| a.exact_prefix && !b.exact_prefix
        ||| a.exact_prefix == b.exact_prefix && {
            ||| a.first_letter_match && !b.first_letter_match
            ||| a.first_letter_match == b.first_letter_match && {
                ||| a.is_common && !b.is_common
                ||| a.is_common == b.is_common && {
                    ||| a.remaining_ambiguity < b.remaining_ambiguity
                    ||| a.remaining_ambiguity == b.remaining_ambiguity && a.replacement_len
                        < b.replacement_len
                }
            }
        }
    }
}

/// Whether a text comes strictly before another, character by character.
pub open spec fn text_precedes(a: Seq<char>, b: Seq<char>) -> bool
    decreases b.len(),
{
    if b.len() == 0 {
        false
    } else if a.len() == 0 {
        true
    } else if a[0] != b[0] {
        a[0] < b[0]
    } else {
        text_precedes(a.drop_first(), b.drop_first())
    }
}

/// Whether a completion is listed strictly before another: by rank, and at equal rank by its
/// text.
pub open spec fn precedes(a: RankedWord, b: RankedWord) -> bool {
    ||| rank_precedes(a.rank, b.rank)
    ||| !rank_precedes(b.rank, a.rank) && text_precedes(a.word, b.word)
}

/// Whether `a` comes strictly before `b`, character by character.
fn chars_precede(a: &[char], b: &[char]) -> (r: bool)
    ensures
        r == text_precedes(a@, b@),
{
    let mut i: usize = 0;
    assert(a@.skip(0) == a@);
    assert(b@.skip(0) == b@);
    while i < a.len() && i < b.len()
        invariant
            i <= a@.len(),
            i <= b@.len(),
            text_precedes(a@, b@) == text_precedes(a@.skip(i as int), b@.skip(i as int)),
        decreases a@.len() - i,
    {
        if a[i] != b[i] {
            return a[i] < b[i];
        }
        assert(a@.skip(i as int).drop_first() == a@.skip(i + 1));
        assert(b@.skip(i as int).drop_first() == b@.skip(i + 1));
        i += 1;
    }
    i < b.len()
}

/// Whether `a` comes strictly before `b`, by the ranking keys in their order.
fn rank_comes_first(a: &CompletionSortRank, b: &CompletionSortRank) -> (r: bool)
    ensures
        r == rank_precedes(*a, *b),
{
    if a.combined_cost != b.combined_cost {
        a.combined_cost < b.combined_cost
    } else if a.exact_prefix != b.exact_prefix {
        a.exact_prefix
    } else if a.first_letter_match != b.first_letter_match {
        a.first_letter_match
    } else if a.is_common != b.is_common {
        a.is_common
    } else if a.remaining_ambiguity != b.remaining_ambiguity {
        a.remaining_ambiguity < b.remaining_ambiguity
    } else {
        a.replacement_len < b.replacement_len
    }
}

/// Compares two ranks.
pub fn compare_completion_ranks(a: &CompletionSortRank, b: &CompletionSortRank) -> (order: Ordering)
    ensures
        order == if rank_precedes(*a, *b) {
            Ordering::Less
        } else if rank_precedes(*b, *a) {
            Ordering::Greater
        } else {
            Ordering::Equal
        },
{
    if rank_comes_first(a, b) {
        Ordering::Less
    } else if rank_comes_first(b, a) {
        Ordering::Greater
    } else {
        Ordering::Equal
    }
}

/// Compares two completions: by rank, and at equal rank by their text.
pub fn compare_ranked_completion(a: &RankedCompletion, b: &RankedCompletion) -> (order: Ordering)
    ensures
        order == if precedes(a@, b@) {
            Ordering::Less
        } else if precedes(b@, a@) {
            Ordering::Greater
        } else {
            Ordering::Equal
        },
{
    match compare_completion_ranks(&a.rank, &b.rank) {
        Ordering::Equal => {
            let a_word = string_to_chars(a.word.as_str());
            let b_word = string_to_chars(b.word.as_str());
            if chars_precede(a_word.as_slice(), b_word.as_slice()) {
                Ordering::Less
            } else if chars_precede(b_word.as_slice(), a_word.as_slice()) {
                Ordering::Greater
            } else {
                Ordering::Equal
            }
        },
        order => {
            proof {
                rank_order_is_strict(a.rank, b.rank);
            }
            order
        },
    }
}

/// Whether `a` is listed strictly before `b`.
fn comes_first(a: &RankedCompletion, b: &RankedCompletion) -> (r: bool)
    ensures
        r == precedes(a@, b@),
{
    matches!(compare_ranked_completion(a, b), Ordering::Less)
}

/// How many completions at the front of a list come strictly before another completion.
pub open spec fn place_of(list: Seq<RankedWord>, completion: RankedWord) -> nat
    decreases list.len(),
{
    if list.len() == 0 || !precedes(list[0], completion) {
        0
    } else {
        1 + place_of(list.drop_first(), completion)
    }
}

/// Whether no completion of a list comes strictly before one that stands ahead of it.
pub open spec fn is_ordered(list: Seq<RankedWord>) -> bool {
    forall|i: int, j: int|
        0 <= i < j < list.len() ==> !precedes(#[trigger] list[j], #[trigger] list[i])
}

/// A list with one more completion at its place, cut to `max_results`; a completion whose place
/// is beyond them is not listed.
pub open spec fn with_completion(
    list: Seq<RankedWord>,
    completion: RankedWord,
    max_results: nat,
) -> Seq<RankedWord> {
    let place = place_of(list, completion);
    let longer = list.insert(place as int, completion);
    if place >= max_results {
        list
    } else if longer.len() <= max_results {
        longer
    } else {
        longer.take(max_results as int)
    }
}

/// Puts a completion at its place in an ordered list that keeps at most `max_results`.
pub fn insert_ranked_completion(
    completions: &mut Vec<RankedCompletion>,
    completion: RankedCompletion,
    max_results: usize,
)
    requires
        is_ordered(ranked_views(old(completions)@)),
    ensures
        ranked_views(final(completions)@) == with_completion(
            ranked_views(old(completions)@),
            completion@,
            max_results as nat,
        ),
        is_ordered(ranked_views(final(completions)@)),
{
    let ghost list = ranked_views(completions@);
    let ghost new = completion@;
    let mut low: usize = 0;
    let mut high: usize = completions.len();
    while low < high
        invariant
            low <= high <= completions@.len(),
            list == ranked_views(completions@),
            new == completion@,
            is_ordered(list),
            forall|k: int| 0 <= k < low ==> precedes(#[trigger] list[k], new),
            forall|k: int| high <= k < list.len() ==> !precedes(#[trigger] list[k], new),
        decreases high - low,
    {
        let middle = low + (high - low) / 2;
        if comes_first(&completions[middle], &completion) {
            assert(precedes(list[middle as int], new));
            assert forall|k: int| 0 <= k < middle + 1 implies precedes(
                #[trigger] list[k],
                new,
            ) by {
                if k < middle {
                    assert(!precedes(list[middle as int], list[k]));
                    order_extends_ties(list[k], list[middle as int], new);
                }
            }
            low = middle + 1;
        } else {
            assert(!precedes(list[middle as int], new));
            assert forall|k: int| middle <= k < list.len() implies !precedes(
                #[trigger] list[k],
                new,
            ) by {
                if k > middle {
                    assert(!precedes(list[k], list[middle as int]));
                    order_extends_ties(list[middle as int], list[k], new);
                }
            }
            high = middle;
        }
    }
    proof {
        place_is_found(list, new, low as nat);
        insertion_keeps_order(list, new, max_results as nat);
    }
    if low >= max_results {
        return ;
    }
    completions.insert(low, completion);
    assert(ranked_views(completions@) =~= list.insert(low as int, new));
    completions.truncate(max_results);
    assert(ranked_views(completions@) =~= with_completion(list, new, max_results as nat));
}

proof fn place_is_found(list: Seq<RankedWord>, completion: RankedWord, n: nat)
    requires
        n <= list.len(),
        forall|k: int| 0 <= k < n ==> precedes(#[trigger] list[k], completion),
        n < list.len() ==> !precedes(list[n as int], completion),
    ensures
        place_of(list, completion) == n,
    decreases list.len(),
{
    if n > 0 {
        let rest = list.drop_first();
        assert(precedes(list[0], completion));
        assert forall|k: int| 0 <= k < n - 1 implies precedes(#[trigger] rest[k], completion) by {
            assert(rest[k] == list[k + 1]);
        }
        place_is_found(rest, completion, (n - 1) as nat);
    }
}

/// In an ordered list the completions that come before another stand in front of its place, and
/// no others do.
pub proof fn place_parts_the_list(list: Seq<RankedWord>, completion: RankedWord)
    requires
        is_ordered(list),
    ensures
        place_of(list, completion) <= list.len(),
        forall|k: int|
            0 <= k < place_of(list, completion) ==> precedes(#[trigger] list[k], completion),
        forall|k: int|
            place_of(list, completion) <= k < list.len() ==> !precedes(
                #[trigger] list[k],
                completion,
            ),
    decreases list.len(),
{
    if list.len() > 0 {
        let rest = list.drop_first();
        assert forall|i: int, j: int| 0 <= i < j < rest.len() implies !precedes(
            #[trigger] rest[j],
            #[trigger] rest[i],
        ) by {
            assert(rest[i] == list[i + 1]);
            assert(rest[j] == list[j + 1]);
        }
        place_parts_the_list(rest, completion);
        let n = place_of(list, completion);
        assert forall|k: int| 0 <= k < n implies precedes(#[trigger] list[k], completion) by {
            if k > 0 {
                assert(list[k] == rest[k - 1]);
            }
        }
        assert forall|k: int| n <= k < list.len() implies !precedes(
            #[trigger] list[k],
            completion,
        ) by {
            if n == 0 {
                if k > 0 {
                    assert(!precedes(list[k], list[0]));
                    order_extends_ties(list[0], list[k], completion);
                }
            } else {
                assert(list[k] == rest[k - 1]);
            }
        }
    }
}

proof fn insertion_keeps_order(list: Seq<RankedWord>, completion: RankedWord, max_results: nat)
    requires
        is_ordered(list),
    ensures
        is_ordered(with_completion(list, completion, max_results)),
{
    place_parts_the_list(list, completion);
    let place = place_of(list, completion) as int;
    let longer = list.insert(place, completion);
    assert forall|i: int, j: int| 0 <= i < j < longer.len() implies !precedes(
        #[trigger] longer[j],
        #[trigger] longer[i],
    ) by {
        if i == place {
            assert(longer[j] == list[j - 1]);
        } else if j == place {
            assert(longer[i] == list[i]);
            order_is_strict(list[i], completion);
        } else {
            let a = if i < place {
                i
            } else {
                i - 1
            };
            let b = if j < place {
                j
            } else {
                j - 1
            };
            assert(longer[i] == list[a]);
            assert(longer[j] == list[b]);
        }
    }
}

/// No rank comes before itself, and of two ranks at most one comes before the other.
pub proof fn rank_order_is_strict(a: CompletionSortRank, b: CompletionSortRank)
    ensures
        !rank_precedes(a, a),
        rank_precedes(a, b) ==> !rank_precedes(b, a),
{
}

/// A rank that comes before another comes before all that do not come before that one.
proof fn rank_order_extends_ties(
    a: CompletionSortRank,
    b: CompletionSortRank,
    c: CompletionSortRank,
)
    ensures
        !rank_precedes(b, a) && rank_precedes(b, c) ==> rank_precedes(a, c),
        rank_precedes(a, b) && !rank_precedes(c, b) ==> rank_precedes(a, c),
{
}

/// Of two different texts exactly one comes before the other, and none before itself.
pub proof fn text_order_is_total(a: Seq<char>, b: Seq<char>)
    ensures
        a == b ==> !text_precedes(a, b),
        a != b ==> text_precedes(a, b) != text_precedes(b, a),
    decreases b.len(),
{
    if a.len() > 0 && b.len() > 0 {
        text_order_is_total(a.drop_first(), b.drop_first());
        if a[0] == b[0] {
            if a.drop_first() == b.drop_first() {
                assert(a =~= seq![a[0]] + a.drop_first());
                assert(b =~= seq![b[0]] + b.drop_first());
            }
        }
    } else if a.len() == 0 && b.len() == 0 {
        assert(a =~= b);
    }
}

proof fn text_order_is_transitive(a: Seq<char>, b: Seq<char>, c: Seq<char>)
    requires
        text_precedes(a, b),
        text_precedes(b, c),
    ensures
        text_precedes(a, c),
    decreases c.len(),
{
    if a.len() > 0 && a[0] == b[0] && b[0] == c[0] {
        text_order_is_transitive(a.drop_first(), b.drop_first(), c.drop_first());
    }
}

/// No completion comes before itself, and of two completions at most one comes before the other.
pub proof fn order_is_strict(a: RankedWord, b: RankedWord)
    ensures
        !precedes(a, a),
        precedes(a, b) ==> !precedes(b, a),
{
    rank_order_is_strict(a.rank, b.rank);
    text_order_is_total(a.word, a.word);
    text_order_is_total(a.word, b.word);
}

/// A completion that comes before a second, which comes before a third, comes before the third.
pub proof fn order_is_transitive(a: RankedWord, b: RankedWord, c: RankedWord)
    requires
        precedes(a, b),
        precedes(b, c),
    ensures
        precedes(a, c),
{
    rank_order_extends_ties(a.rank, b.rank, c.rank);
    rank_order_extends_ties(c.rank, b.rank, a.rank);
    rank_order_extends_ties(b.rank, c.rank, a.rank);
    rank_order_is_strict(a.rank, c.rank);
    rank_order_is_strict(a.rank, b.rank);
    rank_order_is_strict(b.rank, c.rank);
    if !rank_precedes(a.rank, b.rank) && !rank_precedes(b.rank, c.rank) {
        text_order_is_transitive(a.word, b.word, c.word);
    }
}

/// Of two completions with different words exactly one comes before the other.
pub proof fn order_is_total(a: RankedWord, b: RankedWord)
    requires
        a.word != b.word,
    ensures
        precedes(a, b) != precedes(b, a),
{
    order_is_strict(a, b);
    text_order_is_total(a.word, b.word);
}

/// Completions of which neither comes before the other come before the same ones.
proof fn order_extends_ties(a: RankedWord, b: RankedWord, c: RankedWord)
    ensures
        !precedes(b, a) && precedes(b, c) ==> precedes(a, c),
{
    if !precedes(b, a) && precedes(b, c) {
        if a.word != b.word {
            order_is_total(a, b);
            order_is_transitive(a, b, c);
        } else {
            rank_order_extends_ties(a.rank, b.rank, c.rank);
            rank_order_extends_ties(c.rank, b.rank, a.rank);
            rank_order_extends_ties(c.rank, a.rank, b.rank);
        }
    }
}

/// The ranking keys decide in turn: the lower cost; then a prefix of what was typed; then the
/// typed first letter; then a common word; then less that remains to be typed; then the shorter
/// word. The text decides where all of them are equal.
pub proof fn the_keys_decide_in_turn(a: RankedWord, b: RankedWord)
    ensures
        ({
            let (p, q) = (a.rank, b.rank);
            let cost = p.combined_cost == q.combined_cost;
            let exact = cost && p.exact_prefix == q.exact_prefix;
            let first = exact && p.first_letter_match == q.first_letter_match;
            let common = first && p.is_common == q.is_common;
            let left = common && p.remaining_ambiguity == q.remaining_ambiguity;
            let all = left && p.replacement_len == q.replacement_len;
            &&& p.combined_cost < q.combined_cost ==> precedes(a, b) && !precedes(b, a)
            &&& cost && p.exact_prefix && !q.exact_prefix ==> precedes(a, b) && !precedes(b, a)
            &&& exact && p.first_letter_match && !q.first_letter_match ==> precedes(a, b)
                && !precedes(b, a)
            &&& first && p.is_common && !q.is_common ==> precedes(a, b) && !precedes(b, a)
            &&& common && p.remaining_ambiguity < q.remaining_ambiguity ==> precedes(a, b)
                && !precedes(b, a)
            &&& left && p.replacement_len < q.replacement_len ==> precedes(a, b) && !precedes(b, a)
            &&& all ==> precedes(a, b) == text_precedes(a.word, b.word)
        }),
{
}

/// The first place where two texts differ orders them by the code points there, and a text comes
/// before all that start with it.
pub proof fn the_first_difference_orders_texts(a: Seq<char>, b: Seq<char>, at: int)
    requires
        0 <= at <= a.len(),
        at < b.len(),
        forall|k: int| 0 <= k < at ==> #[trigger] a[k] == b[k],
        at == a.len() || a[at] < b[at],
    ensures
        text_precedes(a, b),
        !text_precedes(b, a),
    decreases at,
{
    if at > 0 {
        assert(a[0] == b[0]);
        assert forall|k: int| 0 <= k < at - 1 implies #[trigger] a.drop_first()[k]
            == b.drop_first()[k] by {
            assert(a[k + 1] == b[k + 1]);
        }
        the_first_difference_orders_texts(a.drop_first(), b.drop_first(), at - 1);
    }
}

/// A completion is put behind all that come before it and in front of all others, which stay
/// in their order; the list is cut to what is asked for, and left as it is where there is no room
/// before the end.
pub proof fn an_insertion_changes_nothing_else(
    list: Seq<RankedWord>,
    completion: RankedWord,
    max_results: nat,
) -> (at: int)
    requires
        is_ordered(list),
        list.len() <= max_results,
    ensures
        0 <= at <= list.len(),
        forall|k: int| 0 <= k < at ==> precedes(#[trigger] list[k], completion),
        forall|k: int| at <= k < list.len() ==> !precedes(#[trigger] list[k], completion),
        ({
            let longer = list.subrange(0, at) + seq![completion] + list.subrange(
                at,
                list.len() as int,
            );
            let new = with_completion(list, completion, max_results);
            &&& list.len() < max_results ==> new == longer
            &&& list.len() == max_results ==> new == longer.subrange(0, max_results as int)
        }),
{
    place_parts_the_list(list, completion);
    let at = place_of(list, completion) as int;
    let longer = list.subrange(0, at) + seq![completion] + list.subrange(at, list.len() as int);
    assert(list.insert(at, completion) =~= longer);
    assert(with_completion(list, completion, max_results) =~= if list.len() < max_results {
        longer
    } else {
        longer.subrange(0, max_results as int)
    });
    at
}

} // verus!
