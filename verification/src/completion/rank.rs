//! Which candidates are offered for what was typed, and in what order.

use vstd::prelude::*;
use crate::chars::{
    ascii_lower, chars_to_string, lower_each, lowercase_chars, lowercase_text, same_chars,
    string_to_chars,
};
use crate::completion::cost::{
    completion_sort_rank, sort_rank, CompletionSortRank, FrequencyLists, ListsView,
    CONTRACTION_NONWORD_PREFIX_COST, CONTRACTION_WORD_PREFIX_COST,
};
use crate::completion::matching::{
    allowed_edits, allowed_noisy_prefix_edits, best_completion_prefix_score, first_letter_matches,
    is_plausible_correction, prefix_score, same_first_letter, same_word, same_word_ignore_case,
    should_score_noisy_prefix_candidate, starts_with, starts_with_ignore_case,
};
use crate::completion::order::{
    insert_ranked_completion, is_ordered, order_is_strict, order_is_total, order_is_transitive,
    place_of, place_parts_the_list, precedes, ranked_views, with_completion, RankedCompletion,
    RankedWord,
};
use crate::completion::stats::{normalized_completion_word, CompletionContext, ContextView};
use crate::dictionary::{answers_with_its_words, DictWordMetadata, Dictionary, WordSet};
use crate::keyboard_distance::substitution_cost;
use crate::word_frequency::{
    begins_with, char_views, every_word_found_begins_with_the_prefix, most_frequent,
    most_frequent_with_prefix, string_views,
};

verus! {

pub const MIN_COMPLETION_CANDIDATE_POOL: usize = 64;

pub const MAX_EXACT_PREFIX_CANDIDATES: usize = 256;

pub const MAX_FUZZY_COMPLETION_CANDIDATES: usize = 200;

pub const MIN_NOISY_PREFIX_EXPANSION_CANDIDATES: usize = 32;

pub const MAX_NOISY_PREFIX_EXPANSION_CANDIDATES: usize = 128;

/// A multiple of the number of results, kept between two bounds.
pub open spec fn scaled_limit(max_results: nat, factor: nat, low: nat, high: nat) -> nat {
    if max_results * factor < low {
        low
    } else if max_results * factor > high {
        high
    } else {
        max_results * factor
    }
}

/// A multiple of the number of results, kept between two bounds.
fn limit_for(max_results: usize, factor: usize, low: usize, high: usize) -> (limit: usize)
    requires
        0 < factor,
        low <= high < usize::MAX / factor,
    ensures
        limit == scaled_limit(max_results as nat, factor as nat, low as nat, high as nat),
        low <= limit <= high,
{
    if max_results > high {
        assert(max_results * factor > high) by (nonlinear_arith)
            requires
                max_results > high,
                factor > 0,
        ;
        return high;
    }
    assert(max_results * factor <= usize::MAX) by (nonlinear_arith)
        requires
            max_results <= high,
            high < usize::MAX / factor,
            factor > 0,
    ;
    let scaled = max_results * factor;
    if scaled < low {
        low
    } else if scaled > high {
        high
    } else {
        scaled
    }
}

/// How many words with the typed prefix are taken from the dictionary.
pub open spec fn exact_limit(max_results: nat) -> nat {
    scaled_limit(
        max_results,
        32,
        MIN_COMPLETION_CANDIDATE_POOL as nat,
        MAX_EXACT_PREFIX_CANDIDATES as nat,
    )
}

/// How many words near the typed prefix are taken from the dictionary.
pub open spec fn fuzzy_limit(max_results: nat) -> nat {
    scaled_limit(
        max_results,
        24,
        MIN_COMPLETION_CANDIDATE_POOL as nat,
        MAX_FUZZY_COMPLETION_CANDIDATES as nat,
    )
}

/// How many words in all are taken that start with a correction of the typed prefix.
pub open spec fn expansion_limit(max_results: nat) -> nat {
    scaled_limit(
        max_results,
        16,
        MIN_NOISY_PREFIX_EXPANSION_CANDIDATES as nat,
        MAX_NOISY_PREFIX_EXPANSION_CANDIDATES as nat,
    )
}

/// How many words are taken that start with one correction of the typed prefix.
pub open spec fn expansion_share(max_results: nat) -> nat {
    scaled_limit(max_results, 2, 4, 16)
}

/// How many of the most frequent words with the typed prefix are taken.
pub open spec fn frequent_limit(max_results: nat) -> nat {
    scaled_limit(max_results, 2, 32, 128)
}

/// How many words with the typed prefix are taken from the dictionary.
pub fn exact_prefix_candidate_limit(max_results: usize) -> (limit: usize)
    ensures
        limit == exact_limit(max_results as nat),
{
    limit_for(max_results, 32, MIN_COMPLETION_CANDIDATE_POOL, MAX_EXACT_PREFIX_CANDIDATES)
}

/// How many words near the typed prefix are taken from the dictionary.
pub fn fuzzy_completion_candidate_limit(max_results: usize) -> (limit: usize)
    ensures
        limit == fuzzy_limit(max_results as nat),
{
    limit_for(max_results, 24, MIN_COMPLETION_CANDIDATE_POOL, MAX_FUZZY_COMPLETION_CANDIDATES)
}

/// How many words in all are taken that start with a correction of the typed prefix.
pub fn noisy_prefix_expansion_candidate_limit(max_results: usize) -> (limit: usize)
    ensures
        limit == expansion_limit(max_results as nat),
        limit <= MAX_NOISY_PREFIX_EXPANSION_CANDIDATES,
{
    limit_for(
        max_results,
        16,
        MIN_NOISY_PREFIX_EXPANSION_CANDIDATES,
        MAX_NOISY_PREFIX_EXPANSION_CANDIDATES,
    )
}

/// How many words are taken that start with one correction of the typed prefix.
pub fn noisy_prefix_expansion_per_prefix_limit(max_results: usize) -> (limit: usize)
    ensures
        limit == expansion_share(max_results as nat),
{
    limit_for(max_results, 2, 4, 16)
}

/// How many of the most frequent words with the typed prefix are taken.
pub fn frequent_prefix_candidate_limit(max_results: usize) -> (limit: usize)
    ensures
        limit == frequent_limit(max_results as nat),
{
    limit_for(max_results, 2, 32, 128)
}

/// What completions are asked for.
pub struct CompletionQuery {
    pub lists: ListsView,
    pub prefix: Seq<char>,
    pub context: ContextView,
    pub misspelled: Set<Seq<char>>,
}

/// What completions are asked for, in mathematical terms.
pub open spec fn query_of(
    lists: &FrequencyLists,
    prefix: &[char],
    context: &CompletionContext,
    misspelled_words: &WordSet,
) -> CompletionQuery {
    CompletionQuery {
        lists: lists@,
        prefix: prefix@,
        context: context@,
        misspelled: misspelled_words@,
    }
}

/// A candidate, and how it is ranked.
pub enum Offer {
    /// A word that is scored by how well it matches what was typed.
    Scored(Seq<char>),
    /// What was typed with its apostrophe restored.
    Contraction(Seq<char>),
}

impl Offer {
    /// The word that is offered.
    pub open spec fn word(self) -> Seq<char> {
        match self {
            Offer::Scored(word) => word,
            Offer::Contraction(word) => word,
        }
    }

    /// The form in which offers are told apart: two that differ in casing only are one.
    pub open spec fn normalized(self) -> Seq<char> {
        lowercase_text(self.word())
    }
}

/// Whether the dictionary calls a word common.
pub open spec fn is_common<D: Dictionary>(dict: &D, word: Seq<char>) -> bool {
    dict.metadata(word) matches Some(metadata) && metadata.common
}

/// What a restored contraction costs: more where the typed letters are a word themselves.
pub open spec fn contraction_cost<D: Dictionary>(dict: &D, prefix: Seq<char>) -> i32 {
    if dict.has_word(lower_each(prefix)) {
        CONTRACTION_WORD_PREFIX_COST
    } else {
        CONTRACTION_NONWORD_PREFIX_COST
    }
}

/// What an offer is ranked by; `None` where it is too far from what was typed.
pub open spec fn offer_rank<D: Dictionary>(dict: &D, query: CompletionQuery, offer: Offer) -> Option<
    CompletionSortRank,
> {
    match offer {
        Offer::Scored(word) => match prefix_score(query.prefix, word) {
            Some(score) => Some(
                sort_rank(
                    query.lists,
                    query.prefix,
                    word,
                    score,
                    is_common(dict, word),
                    query.context,
                ),
            ),
            None => None,
        },
        Offer::Contraction(word) => Some(
            CompletionSortRank {
                combined_cost: contraction_cost(dict, query.prefix),
                distance: 0,
                exact_prefix: false,
                typed_word: false,
                first_letter_match: same_first_letter(query.prefix, word),
                is_common: is_common(dict, word),
                remaining_ambiguity: 0,
                replacement_len: word.len() as usize,
            },
        ),
    }
}

/// Whether a word is among the offers, in any casing.
pub open spec fn is_offered(offers: Seq<Offer>, normalized: Seq<char>) -> bool {
    exists|k: int| 0 <= k < offers.len() && (#[trigger] offers[k]).normalized() == normalized
}

/// The offers that are ranked: the first of each word, unless the word is misspelled or too far
/// from what was typed.
pub open spec fn accepted<D: Dictionary>(
    dict: &D,
    query: CompletionQuery,
    offers: Seq<Offer>,
) -> Seq<RankedWord>
    decreases offers.len(),
{
    if offers.len() == 0 {
        Seq::empty()
    } else {
        let earlier = accepted(dict, query, offers.drop_last());
        let offer = offers.last();
        match offer_rank(dict, query, offer) {
            Some(rank) if !is_offered(offers.drop_last(), offer.normalized())
                && !query.misspelled.contains(offer.normalized()) => earlier.push(
                RankedWord { word: offer.word(), rank },
            ),
            _ => earlier,
        }
    }
}

/// The list that comes of putting completions, one after the other, at their places and keeping
/// the first `max_results` of them.
pub open spec fn shortlisted(candidates: Seq<RankedWord>, max_results: nat) -> Seq<RankedWord>
    decreases candidates.len(),
{
    if candidates.len() == 0 {
        Seq::empty()
    } else {
        with_completion(
            shortlisted(candidates.drop_last(), max_results),
            candidates.last(),
            max_results,
        )
    }
}

/// Whether a list holds the best `max_results` of the candidates, or all of them if there are no
/// more, the best first.
pub open spec fn is_best_of(
    list: Seq<RankedWord>,
    candidates: Seq<RankedWord>,
    max_results: nat,
) -> bool {
    &&& forall|i: int, j: int|
        0 <= i < j < list.len() ==> precedes(#[trigger] list[i], #[trigger] list[j])
    &&& forall|i: int| 0 <= i < list.len() ==> candidates.contains(#[trigger] list[i])
    &&& list.len() == if candidates.len() <= max_results {
        candidates.len()
    } else {
        max_results
    }
    &&& list.len() < max_results ==> forall|k: int|
        0 <= k < candidates.len() ==> list.contains(#[trigger] candidates[k])
    &&& forall|k: int, i: int|
        0 <= k < candidates.len() && 0 <= i < list.len() && !list.contains(candidates[k])
            ==> precedes(#[trigger] list[i], #[trigger] candidates[k])
}

/// Whether no two candidates are the same word.
pub open spec fn words_differ(candidates: Seq<RankedWord>) -> bool {
    forall|i: int, j: int|
        0 <= i < j < candidates.len() ==> (#[trigger] candidates[i]).word != (
        #[trigger] candidates[j]).word
}

/// Whether no two candidates are the same word in any casing.
pub open spec fn spellings_differ(candidates: Seq<RankedWord>) -> bool {
    forall|i: int, j: int|
        0 <= i < j < candidates.len() ==> lowercase_text((#[trigger] candidates[i]).word)
            != lowercase_text((#[trigger] candidates[j]).word)
}

proof fn best_with_one_more(
    list: Seq<RankedWord>,
    candidates: Seq<RankedWord>,
    candidate: RankedWord,
    max_results: nat,
)
    requires
        is_best_of(list, candidates, max_results),
        forall|k: int| 0 <= k < candidates.len() ==> (#[trigger] candidates[k]).word
            != candidate.word,
    ensures
        is_best_of(
            with_completion(list, candidate, max_results),
            candidates.push(candidate),
            max_results,
        ),
{
    let all = candidates.push(candidate);
    assert forall|i: int| 0 <= i < list.len() implies (#[trigger] list[i]).word
        != candidate.word && all.contains(list[i]) by {
        let k = choose|k: int| 0 <= k < candidates.len() && candidates[k] == list[i];
        assert(all[k] == list[i]);
    }
    assert(is_ordered(list)) by {
        assert forall|i: int, j: int| 0 <= i < j < list.len() implies !precedes(
            #[trigger] list[j],
            #[trigger] list[i],
        ) by {
            order_is_strict(list[i], list[j]);
        }
    }
    place_parts_the_list(list, candidate);
    let place = place_of(list, candidate) as int;
    assert forall|k: int| place <= k < list.len() implies precedes(
        candidate,
        #[trigger] list[k],
    ) by {
        order_is_total(candidate, list[k]);
    }
    let longer = list.insert(place, candidate);
    let new = with_completion(list, candidate, max_results);
    assert(all[candidates.len() as int] == candidate);
    if place >= max_results {
        assert(new == list);
        assert(list.len() == max_results);
        assert forall|k: int, i: int|
            0 <= k < all.len() && 0 <= i < list.len() && !list.contains(all[k]) implies precedes(
            #[trigger] list[i],
            #[trigger] all[k],
        ) by {
            if k < candidates.len() {
                assert(all[k] == candidates[k]);
            }
        }
    } else {
        assert forall|i: int, j: int| 0 <= i < j < longer.len() implies precedes(
            #[trigger] longer[i],
            #[trigger] longer[j],
        ) by {
            if i == place {
                assert(longer[j] == list[j - 1]);
            } else if j == place {
                assert(longer[i] == list[i]);
            } else {
                let a = if i < place {
                    i
                } else {
                    i - 1
                };
                let b = if j < place {
                    j
                } else {
                    j - 1
                };
                assert(longer[i] == list[a]);
                assert(longer[j] == list[b]);
            }
        }
        assert forall|i: int| 0 <= i < longer.len() implies all.contains(#[trigger] longer[i]) by {
            if i < place {
                assert(longer[i] == list[i]);
            } else if i > place {
                assert(longer[i] == list[i - 1]);
            }
        }
        assert(longer[place] == candidate);
        if longer.len() <= max_results {
            assert(new == longer);
            assert forall|k: int| 0 <= k < all.len() implies longer.contains(
                #[trigger] all[k],
            ) by {
                if k < candidates.len() {
                    assert(list.contains(candidates[k]));
                    let i = choose|i: int| 0 <= i < list.len() && list[i] == candidates[k];
                    let at = if i < place {
                        i
                    } else {
                        i + 1
                    };
                    assert(longer[at] == all[k]);
                }
            }
        } else {
            assert(list.len() == max_results);
            let dropped = list[list.len() - 1];
            assert(longer[longer.len() - 1] == dropped);
            assert(new == longer.take(max_results as int));
            assert(new[place] == candidate);
            assert forall|k: int, i: int|
                0 <= k < all.len() && 0 <= i < new.len() && !new.contains(all[k]) implies precedes(
                #[trigger] new[i],
                #[trigger] all[k],
            ) by {
                assert(new[i] == longer[i]);
                assert(precedes(longer[i], longer[longer.len() - 1]));
                assert(k < candidates.len());
                if list.contains(candidates[k]) {
                    let at = choose|at: int| 0 <= at < list.len() && list[at] == candidates[k];
                    let spot = if at < place {
                        at
                    } else {
                        at + 1
                    };
                    assert(longer[spot] == all[k]);
                    if spot < max_results {
                        assert(new[spot] == all[k]);
                    }
                    assert(all[k] == dropped);
                } else {
                    assert(precedes(dropped, candidates[k]));
                    order_is_transitive(new[i], dropped, candidates[k]);
                }
            }
        }
    }
}

/// The list that comes of putting completions of different words at their places holds the best
/// of them, the best first.
pub proof fn the_best_are_shortlisted(candidates: Seq<RankedWord>, max_results: nat)
    requires
        words_differ(candidates),
    ensures
        is_best_of(shortlisted(candidates, max_results), candidates, max_results),
    decreases candidates.len(),
{
    if candidates.len() > 0 {
        let earlier = candidates.drop_last();
        assert forall|i: int, j: int| 0 <= i < j < earlier.len() implies (#[trigger] earlier[i]).word
            != (#[trigger] earlier[j]).word by {
            assert(earlier[i] == candidates[i]);
            assert(earlier[j] == candidates[j]);
        }
        the_best_are_shortlisted(earlier, max_results);
        assert forall|k: int| 0 <= k < earlier.len() implies (#[trigger] earlier[k]).word
            != candidates.last().word by {
            assert(earlier[k] == candidates[k]);
            assert(candidates.last() == candidates[candidates.len() - 1]);
        }
        best_with_one_more(
            shortlisted(earlier, max_results),
            earlier,
            candidates.last(),
            max_results,
        );
        assert(earlier.push(candidates.last()) == candidates);
    }
}

/// The candidates determine the list of the best of them.
pub proof fn the_best_are_unique(
    one: Seq<RankedWord>,
    other: Seq<RankedWord>,
    candidates: Seq<RankedWord>,
    max_results: nat,
)
    requires
        is_best_of(one, candidates, max_results),
        is_best_of(other, candidates, max_results),
    ensures
        one == other,
{
    best_agree_up_to(one, other, candidates, max_results, one.len());
    assert(one =~= other);
}

/// The best few candidates are the first of the best many.
pub proof fn fewer_results_are_the_first_of_more(
    list: Seq<RankedWord>,
    candidates: Seq<RankedWord>,
    fewer: nat,
    more: nat,
)
    requires
        is_best_of(list, candidates, more),
        fewer <= more,
    ensures
        is_best_of(
            if list.len() <= fewer {
                list
            } else {
                list.take(fewer as int)
            },
            candidates,
            fewer,
        ),
{
    if list.len() > fewer {
        let front = list.take(fewer as int);
        assert forall|k: int, i: int|
            0 <= k < candidates.len() && 0 <= i < front.len() && !front.contains(
                candidates[k],
            ) implies precedes(#[trigger] front[i], #[trigger] candidates[k]) by {
            if list.contains(candidates[k]) {
                let at = choose|at: int| 0 <= at < list.len() && list[at] == candidates[k];
                if at < fewer {
                    assert(front[at] == candidates[k]);
                }
                assert(precedes(list[i], list[at]));
            } else {
                assert(precedes(list[i], candidates[k]));
            }
        }
    } else if list.len() == fewer && fewer < more {
        assert(list.len() < more);
    }
}

proof fn best_agree_up_to(
    one: Seq<RankedWord>,
    other: Seq<RankedWord>,
    candidates: Seq<RankedWord>,
    max_results: nat,
    n: nat,
)
    requires
        is_best_of(one, candidates, max_results),
        is_best_of(other, candidates, max_results),
        n <= one.len(),
    ensures
        forall|i: int| 0 <= i < n ==> #[trigger] one[i] == other[i],
    decreases n,
{
    if n > 0 {
        best_agree_up_to(one, other, candidates, max_results, (n - 1) as nat);
        let i = n - 1;
        if one[i] != other[i] {
            next_best_comes_first(one, other, candidates, max_results, i);
            next_best_comes_first(other, one, candidates, max_results, i);
            order_is_strict(one[i], other[i]);
        }
    }
}

proof fn next_best_comes_first(
    one: Seq<RankedWord>,
    other: Seq<RankedWord>,
    candidates: Seq<RankedWord>,
    max_results: nat,
    i: int,
)
    requires
        is_best_of(one, candidates, max_results),
        is_best_of(other, candidates, max_results),
        0 <= i < one.len(),
        forall|k: int| 0 <= k < i ==> #[trigger] one[k] == other[k],
        one[i] != other[i],
    ensures
        precedes(other[i], one[i]),
{
    assert(candidates.contains(one[i]));
    let k = choose|k: int| 0 <= k < candidates.len() && candidates[k] == one[i];
    if other.contains(one[i]) {
        let j = choose|j: int| 0 <= j < other.len() && other[j] == one[i];
        if j < i {
            assert(one[j] == other[j]);
            assert(precedes(one[j], one[i]));
            order_is_strict(one[i], one[i]);
        }
    }
}

proof fn accepted_are_offered<D: Dictionary>(dict: &D, query: CompletionQuery, offers: Seq<Offer>)
    ensures
        forall|k: int|
            0 <= k < accepted(dict, query, offers).len() ==> {
                let word = (#[trigger] accepted(dict, query, offers)[k]).word;
                is_offered(offers, lowercase_text(word)) && !query.misspelled.contains(
                    lowercase_text(word),
                )
            },
        spellings_differ(accepted(dict, query, offers)),
        words_differ(accepted(dict, query, offers)),
    decreases offers.len(),
{
    if offers.len() > 0 {
        let few = offers.drop_last();
        accepted_are_offered(dict, query, few);
        let earlier = accepted(dict, query, few);
        let all = accepted(dict, query, offers);
        assert forall|k: int| 0 <= k < all.len() implies {
            let word = (#[trigger] all[k]).word;
            is_offered(offers, lowercase_text(word)) && !query.misspelled.contains(
                lowercase_text(word),
            )
        } by {
            if k < earlier.len() {
                assert(all[k] == earlier[k]);
                let word = earlier[k].word;
                let j = choose|j: int|
                    0 <= j < few.len() && (#[trigger] few[j]).normalized() == lowercase_text(word);
                assert(offers[j].normalized() == lowercase_text(word));
            } else {
                assert(offers[offers.len() - 1].normalized() == lowercase_text(all[k].word));
            }
        }
        assert forall|i: int, j: int| 0 <= i < j < all.len() implies lowercase_text(
            (#[trigger] all[i]).word,
        ) != lowercase_text((#[trigger] all[j]).word) by {
            assert(all[i] == earlier[i]);
            if j < earlier.len() {
                assert(all[j] == earlier[j]);
            }
        }
    }
}

/// Candidates under way to a list of completions: what was offered so far, and the best of it.
pub struct Shortlist {
    seen: WordSet,
    completions: Vec<RankedCompletion>,
    offers: Ghost<Seq<Offer>>,
}

impl View for Shortlist {
    type V = Seq<Offer>;

    /// What was offered so far.
    closed spec fn view(&self) -> Seq<Offer> {
        self.offers@
    }
}

impl Shortlist {
    /// Whether the list holds the best of what was offered.
    pub closed spec fn ranks<D: Dictionary>(
        &self,
        dict: &D,
        query: CompletionQuery,
        max_results: nat,
    ) -> bool {
        &&& forall|w: Seq<char>|
            self.seen@.contains(w) <==> #[trigger] is_offered(self.offers@, w)
        &&& ranked_views(self.completions@) == shortlisted(
            accepted(dict, query, self.offers@),
            max_results,
        )
    }

    /// The list before anything is offered.
    pub fn new<D: Dictionary>(dict: &D) -> (list: Self)
        ensures
            list@ == Seq::<Offer>::empty(),
            forall|query: CompletionQuery, max_results: nat| #[trigger]
                list.ranks(dict, query, max_results),
    {
        let list = Shortlist {
            seen: WordSet::new(),
            completions: Vec::new(),
            offers: Ghost(Seq::empty()),
        };
        assert forall|query: CompletionQuery, max_results: nat| #[trigger]
            list.ranks(dict, query, max_results) by {
            assert(ranked_views(list.completions@) =~= shortlisted(
                accepted(dict, query, list.offers@),
                max_results,
            ));
        }
        list
    }

    /// The best of what was offered, the best first.
    pub fn into_completions<D: Dictionary>(self, dict: &D) -> (completions: Vec<RankedCompletion>)
        ensures
            forall|query: CompletionQuery, max_results: nat| #[trigger]
                self.ranks(dict, query, max_results) ==> ranked_views(completions@) == shortlisted(
                    accepted(dict, query, self@),
                    max_results,
                ),
    {
        let Shortlist { seen: _, completions, offers: _ } = self;
        completions
    }

    /// Takes note of an offer; returns whether it is the first of its word.
    fn note(&mut self, normalized: String, Ghost(offer): Ghost<Offer>) -> (is_new: bool)
        requires
            normalized@ == offer.normalized(),
            forall|w: Seq<char>|
                old(self).seen@.contains(w) <==> #[trigger] is_offered(old(self)@, w),
        ensures
            final(self)@ == old(self)@.push(offer),
            final(self).completions == old(self).completions,
            is_new == !is_offered(old(self)@, offer.normalized()),
            forall|w: Seq<char>|
                final(self).seen@.contains(w) <==> #[trigger] is_offered(final(self)@, w),
    {
        let ghost before = self@;
        let ghost seen = self.seen@;
        self.offers = Ghost(before.push(offer));
        let is_new = self.seen.insert(normalized);
        proof {
            let after = before.push(offer);
            assert forall|w: Seq<char>| self.seen@.contains(w) <==> #[trigger] is_offered(
                after,
                w,
            ) by {
                if is_offered(before, w) {
                    let k = choose|k: int|
                        0 <= k < before.len() && (#[trigger] before[k]).normalized() == w;
                    assert(after[k].normalized() == w);
                }
                if w == offer.normalized() {
                    assert(after[before.len() as int].normalized() == w);
                }
                if is_offered(after, w) && w != offer.normalized() {
                    let k = choose|k: int|
                        0 <= k < after.len() && (#[trigger] after[k]).normalized() == w;
                    assert(before[k].normalized() == w);
                }
                assert(seen.contains(w) <==> is_offered(before, w));
            }
        }
        is_new
    }

    /// Puts a completion at its place.
    fn insert(&mut self, completion: RankedCompletion, max_results: usize)
        requires
            is_ordered(ranked_views(old(self).completions@)),
        ensures
            final(self)@ == old(self)@,
            final(self).seen == old(self).seen,
            ranked_views(final(self).completions@) == with_completion(
                ranked_views(old(self).completions@),
                completion@,
                max_results as nat,
            ),
    {
        insert_ranked_completion(&mut self.completions, completion, max_results);
    }
}

/// A list of the best candidates is in order.
proof fn shortlist_is_ordered(candidates: Seq<RankedWord>, max_results: nat)
    requires
        words_differ(candidates),
    ensures
        is_ordered(shortlisted(candidates, max_results)),
{
    the_best_are_shortlisted(candidates, max_results);
    let list = shortlisted(candidates, max_results);
    assert forall|i: int, j: int| 0 <= i < j < list.len() implies !precedes(
        #[trigger] list[j],
        #[trigger] list[i],
    ) by {
        order_is_strict(list[i], list[j]);
    }
}

/// Scores one candidate and puts it at its place, unless the same word was offered before, is
/// misspelled or is too far from what was typed.
pub fn score_completion_candidate<D: Dictionary>(
    dict: &D,
    lists: &FrequencyLists,
    prefix: &[char],
    context: &CompletionContext,
    misspelled_words: &WordSet,
    shortlist: &mut Shortlist,
    word: &[char],
    max_results: usize,
)
    requires
        old(shortlist).ranks(
            dict,
            query_of(lists, prefix, context, misspelled_words),
            max_results as nat,
        ),
    ensures
        final(shortlist).ranks(
            dict,
            query_of(lists, prefix, context, misspelled_words),
            max_results as nat,
        ),
        final(shortlist)@ == old(shortlist)@.push(Offer::Scored(word@)),
{
    let ghost query = query_of(lists, prefix, context, misspelled_words);
    let ghost before = shortlist@;
    let ghost offer = Offer::Scored(word@);
    proof {
        accepted_are_offered(dict, query, before);
        shortlist_is_ordered(accepted(dict, query, before), max_results as nat);
        assert(before.push(offer).drop_last() == before);
    }
    let normalized_word = normalized_completion_word(word);
    let is_misspelled = misspelled_words.contains(normalized_word.as_str());
    if !shortlist.note(normalized_word, Ghost(offer)) {
        return ;
    }
    if is_misspelled {
        return ;
    }
    let score = match best_completion_prefix_score(prefix, word) {
        Some(score) => score,
        None => {
            return ;
        },
    };
    let common = match dict.get_word_metadata(word) {
        Some(metadata) => metadata.common,
        None => false,
    };
    let rank = completion_sort_rank(lists, prefix, word, score, common, context);
    proof {
        let earlier = accepted(dict, query, before);
        let ranked = RankedWord { word: word@, rank };
        assert(accepted(dict, query, before.push(offer)) == earlier.push(ranked));
        assert(earlier.push(ranked).drop_last() == earlier);
    }
    shortlist.insert(RankedCompletion { word: chars_to_string(word), rank }, max_results);
}

/// The words, of those given, that start with what was typed.
pub open spec fn exact_offers(words: Seq<Seq<char>>, prefix: Seq<char>) -> Seq<Offer>
    decreases words.len(),
{
    if words.len() == 0 {
        Seq::empty()
    } else {
        let earlier = exact_offers(words.drop_last(), prefix);
        if starts_with(words.last(), prefix) {
            earlier.push(Offer::Scored(words.last()))
        } else {
            earlier
        }
    }
}

/// Offers the dictionary's words that start with `prefix_lookup`, as far as they start with what
/// was typed.
pub fn add_exact_prefix_completion_candidates<D: Dictionary>(
    dict: &D,
    lists: &FrequencyLists,
    prefix_lookup: &[char],
    ranking_prefix: &[char],
    context: &CompletionContext,
    misspelled_words: &WordSet,
    shortlist: &mut Shortlist,
    max_results: usize,
    candidate_limit: usize,
)
    requires
        old(shortlist).ranks(
            dict,
            query_of(lists, ranking_prefix, context, misspelled_words),
            max_results as nat,
        ),
    ensures
        final(shortlist).ranks(
            dict,
            query_of(lists, ranking_prefix, context, misspelled_words),
            max_results as nat,
        ),
        final(shortlist)@ == old(shortlist)@ + exact_offers(
            dict.words_with_prefix(prefix_lookup@, candidate_limit as nat),
            ranking_prefix@,
        ),
{
    let ghost query = query_of(lists, ranking_prefix, context, misspelled_words);
    let ghost before = shortlist@;
    let words = dict.find_words_with_prefix_limited(prefix_lookup, candidate_limit);
    let ghost all = char_views(words@);
    let mut i: usize = 0;
    assert(before + exact_offers(all.take(0), ranking_prefix@) =~= before);
    while i < words.len()
        invariant
            i <= words@.len(),
            all == char_views(words@),
            query == query_of(lists, ranking_prefix, context, misspelled_words),
            shortlist.ranks(dict, query, max_results as nat),
            shortlist@ == before + exact_offers(all.take(i as int), ranking_prefix@),
        decreases words@.len() - i,
    {
        let word = words[i].as_slice();
        proof {
            let next = all.take(i + 1);
            assert(next.drop_last() == all.take(i as int));
            assert(next.last() == word@);
            let earlier = exact_offers(all.take(i as int), ranking_prefix@);
            assert((before + earlier).push(Offer::Scored(word@)) =~= before + earlier.push(
                Offer::Scored(word@),
            ));
        }
        if starts_with_ignore_case(word, ranking_prefix) {
            score_completion_candidate(
                dict,
                lists,
                ranking_prefix,
                context,
                misspelled_words,
                shortlist,
                word,
                max_results,
            );
        }
        i += 1;
    }
    assert(all.take(i as int) == all);
}

/// The words, of those given, that the dictionary holds.
pub open spec fn frequent_offers<D: Dictionary>(dict: &D, words: Seq<Seq<char>>) -> Seq<Offer>
    decreases words.len(),
{
    if words.len() == 0 {
        Seq::empty()
    } else {
        let earlier = frequent_offers(dict, words.drop_last());
        if dict.has_word(words.last()) {
            earlier.push(Offer::Scored(words.last()))
        } else {
            earlier
        }
    }
}

/// Offers the most frequent words that start with what was typed, as far as the dictionary holds
/// them.
pub fn add_frequent_prefix_completion_candidates<D: Dictionary>(
    dict: &D,
    lists: &FrequencyLists,
    prefix: &[char],
    context: &CompletionContext,
    misspelled_words: &WordSet,
    shortlist: &mut Shortlist,
    max_results: usize,
    candidate_limit: usize,
)
    requires
        old(shortlist).ranks(
            dict,
            query_of(lists, prefix, context, misspelled_words),
            max_results as nat,
        ),
    ensures
        final(shortlist).ranks(
            dict,
            query_of(lists, prefix, context, misspelled_words),
            max_results as nat,
        ),
        final(shortlist)@ == old(shortlist)@ + frequent_offers(
            dict,
            most_frequent(lists@.words, prefix@, candidate_limit as nat),
        ),
{
    let ghost query = query_of(lists, prefix, context, misspelled_words);
    let ghost before = shortlist@;
    let prefix_string = chars_to_string(prefix);
    let words = most_frequent_with_prefix(&lists.words, prefix_string.as_str(), candidate_limit);
    let ghost all = string_views(words@);
    let mut i: usize = 0;
    assert(before + frequent_offers(dict, all.take(0)) =~= before);
    while i < words.len()
        invariant
            i <= words@.len(),
            all == string_views(words@),
            query == query_of(lists, prefix, context, misspelled_words),
            shortlist.ranks(dict, query, max_results as nat),
            shortlist@ == before + frequent_offers(dict, all.take(i as int)),
        decreases words@.len() - i,
    {
        let word_chars = string_to_chars(words[i].as_str());
        proof {
            let next = all.take(i + 1);
            assert(next.drop_last() == all.take(i as int));
            assert(next.last() == word_chars@);
            let earlier = frequent_offers(dict, all.take(i as int));
            assert((before + earlier).push(Offer::Scored(word_chars@)) =~= before + earlier.push(
                Offer::Scored(word_chars@),
            ));
        }
        // Only surface words present in the active dictionary so the frequency list
        // never introduces non-words (e.g. "http") as completions.
        if dict.contains_exact_word(word_chars.as_slice()) {
            score_completion_candidate(
                dict,
                lists,
                prefix,
                context,
                misspelled_words,
                shortlist,
                word_chars.as_slice(),
                max_results,
            );
        }
        i += 1;
    }
    assert(all.take(i as int) == all);
}

/// Letters with an apostrophe before the one at `at`.
pub open spec fn with_apostrophe(letters: Seq<char>, at: nat) -> Seq<char> {
    letters.take(at as int).push('\'') + letters.skip(at as int)
}

/// The contractions that an apostrophe before one of the letters `1` to `end - 1` makes.
pub open spec fn contractions_up_to<D: Dictionary>(dict: &D, letters: Seq<char>, end: nat) -> Seq<
    Offer,
>
    decreases end,
{
    if end <= 1 {
        Seq::empty()
    } else {
        let at = (end - 1) as nat;
        let earlier = contractions_up_to(dict, letters, at);
        match dict.capitalization(with_apostrophe(letters, at)) {
            Some(word) if word.contains('\'') => earlier.push(Offer::Contraction(word)),
            _ => earlier,
        }
    }
}

/// The contractions that what was typed becomes with an apostrophe within.
pub open spec fn contraction_offers<D: Dictionary>(dict: &D, prefix: Seq<char>) -> Seq<Offer> {
    if prefix.len() < 2 || prefix.contains('\'') {
        Seq::empty()
    } else {
        contractions_up_to(dict, lower_each(prefix), prefix.len())
    }
}

/// Whether an apostrophe is among the characters.
fn has_apostrophe(chars: &[char]) -> (r: bool)
    ensures
        r == chars@.contains('\''),
{
    let mut i: usize = 0;
    while i < chars.len()
        invariant
            i <= chars@.len(),
            forall|k: int| 0 <= k < i ==> #[trigger] chars@[k] != '\'',
        decreases chars@.len() - i,
    {
        if chars[i] == '\'' {
            return true;
        }
        i += 1;
    }
    false
}

/// Letters with an apostrophe before the one at `at`.
fn insert_apostrophe(letters: &[char], at: usize) -> (r: Vec<char>)
    requires
        at <= letters@.len(),
    ensures
        r@ == with_apostrophe(letters@, at as nat),
{
    let mut variant: Vec<char> = Vec::new();
    let mut k: usize = 0;
    while k < letters.len()
        invariant
            at <= letters@.len(),
            k <= letters@.len(),
            variant@ == if k <= at {
                letters@.take(k as int)
            } else {
                with_apostrophe(letters@, at as nat).take(k + 1)
            },
        decreases letters@.len() - k,
    {
        if k == at {
            variant.push('\'');
        }
        variant.push(letters[k]);
        k += 1;
        assert(variant@ =~= if k <= at {
            letters@.take(k as int)
        } else {
            with_apostrophe(letters@, at as nat).take(k + 1)
        });
    }
    if at == letters.len() {
        variant.push('\'');
    }
    assert(variant@ =~= with_apostrophe(letters@, at as nat));
    variant
}

/// Surfaces contractions typed without their apostrophe ("im"->"I'm",
/// "weve"->"we've", "dont"->"don't"). Phone users routinely skip the apostrophe,
/// and these words are absent from the unigram frequency list, so the normal
/// pipeline charges an apostrophe insertion and buries them. For each interior
/// position, inserts an apostrophe and asks the dictionary for the canonical
/// (correctly-capitalized) word; matches are scored cheaply so they rank near the
/// top, unless the typed letters are themselves a word, in which case the real
/// word is kept competitive.
pub fn add_contraction_completion_candidates<D: Dictionary>(
    dict: &D,
    lists: &FrequencyLists,
    prefix: &[char],
    context: &CompletionContext,
    misspelled_words: &WordSet,
    shortlist: &mut Shortlist,
    max_results: usize,
)
    requires
        old(shortlist).ranks(
            dict,
            query_of(lists, prefix, context, misspelled_words),
            max_results as nat,
        ),
    ensures
        final(shortlist).ranks(
            dict,
            query_of(lists, prefix, context, misspelled_words),
            max_results as nat,
        ),
        final(shortlist)@ == old(shortlist)@ + contraction_offers(dict, prefix@),
{
    let ghost query = query_of(lists, prefix, context, misspelled_words);
    let ghost before = shortlist@;
    assert(before + Seq::<Offer>::empty() =~= before);
    // The user already typed an apostrophe, or the token is too short to split.
    if prefix.len() < 2 || has_apostrophe(prefix) {
        return ;
    }
    let lower = lowercase_chars(prefix);
    let cost = if dict.contains_exact_word(lower.as_slice()) {
        CONTRACTION_WORD_PREFIX_COST
    } else {
        CONTRACTION_NONWORD_PREFIX_COST
    };
    let mut i: usize = 1;
    while i < lower.len()
        invariant
            1 <= i <= lower@.len(),
            lower@ == lower_each(prefix@),
            cost == contraction_cost(dict, prefix@),
            query == query_of(lists, prefix, context, misspelled_words),
            shortlist.ranks(dict, query, max_results as nat),
            shortlist@ == before + contractions_up_to(dict, lower@, i as nat),
        decreases lower@.len() - i,
    {
        let ghost earlier = contractions_up_to(dict, lower@, i as nat);
        let variant = insert_apostrophe(lower.as_slice(), i);
        if let Some(canonical) = dict.get_correct_capitalization_of(variant.as_slice()) {
            // Guard against a lookup returning a non-apostrophe word.
            if has_apostrophe(canonical.as_slice()) {
                proof {
                    let offer = Offer::Contraction(canonical@);
                    assert((before + earlier).push(offer) =~= before + earlier.push(offer));
                }
                rank_contraction(
                    dict,
                    lists,
                    prefix,
                    context,
                    misspelled_words,
                    shortlist,
                    canonical.as_slice(),
                    cost,
                    max_results,
                );
            }
        }
        i += 1;
    }
}

/// Puts one contraction at its place, unless the same word was offered before or is misspelled.
fn rank_contraction<D: Dictionary>(
    dict: &D,
    lists: &FrequencyLists,
    prefix: &[char],
    context: &CompletionContext,
    misspelled_words: &WordSet,
    shortlist: &mut Shortlist,
    canonical: &[char],
    cost: i32,
    max_results: usize,
)
    requires
        cost == contraction_cost(dict, prefix@),
        old(shortlist).ranks(
            dict,
            query_of(lists, prefix, context, misspelled_words),
            max_results as nat,
        ),
    ensures
        final(shortlist).ranks(
            dict,
            query_of(lists, prefix, context, misspelled_words),
            max_results as nat,
        ),
        final(shortlist)@ == old(shortlist)@.push(Offer::Contraction(canonical@)),
{
    let ghost query = query_of(lists, prefix, context, misspelled_words);
    let ghost before = shortlist@;
    let ghost offer = Offer::Contraction(canonical@);
    proof {
        accepted_are_offered(dict, query, before);
        shortlist_is_ordered(accepted(dict, query, before), max_results as nat);
        assert(before.push(offer).drop_last() == before);
    }
    let normalized = normalized_completion_word(canonical);
    let is_misspelled = misspelled_words.contains(normalized.as_str());
    if !shortlist.note(normalized, Ghost(offer)) || is_misspelled {
        return ;
    }
    let common = match dict.get_word_metadata(canonical) {
        Some(metadata) => metadata.common,
        None => false,
    };
    let rank = CompletionSortRank {
        combined_cost: cost,
        distance: 0,
        exact_prefix: false,
        typed_word: false,
        first_letter_match: first_letter_matches(prefix, canonical),
        is_common: common,
        remaining_ambiguity: 0,
        replacement_len: canonical.len(),
    };
    proof {
        let earlier = accepted(dict, query, before);
        let ranked = RankedWord { word: canonical@, rank };
        assert(accepted(dict, query, before.push(offer)) == earlier.push(ranked));
        assert(earlier.push(ranked).drop_last() == earlier);
    }
    shortlist.insert(RankedCompletion { word: chars_to_string(canonical), rank }, max_results);
}

/// The words, of those given, that are longer than the correction they start with.
pub open spec fn expansion_offers(words: Seq<Seq<char>>, corrected: Seq<char>) -> Seq<Offer>
    decreases words.len(),
{
    if words.len() == 0 {
        Seq::empty()
    } else {
        let earlier = expansion_offers(words.drop_last(), corrected);
        if same_word(words.last(), corrected) {
            earlier
        } else {
            earlier.push(Offer::Scored(words.last()))
        }
    }
}

/// Offers the dictionary's words that start with a correction of what was typed; returns how
/// many words the dictionary named.
pub fn add_noisy_prefix_expansion_candidates<D: Dictionary>(
    dict: &D,
    lists: &FrequencyLists,
    ranking_prefix: &[char],
    corrected_prefix: &[char],
    context: &CompletionContext,
    misspelled_words: &WordSet,
    shortlist: &mut Shortlist,
    max_results: usize,
    candidate_limit: usize,
) -> (considered: usize)
    requires
        old(shortlist).ranks(
            dict,
            query_of(lists, ranking_prefix, context, misspelled_words),
            max_results as nat,
        ),
    ensures
        final(shortlist).ranks(
            dict,
            query_of(lists, ranking_prefix, context, misspelled_words),
            max_results as nat,
        ),
        final(shortlist)@ == old(shortlist)@ + expansion_offers(
            dict.words_with_prefix(corrected_prefix@, candidate_limit as nat),
            corrected_prefix@,
        ),
        considered == dict.words_with_prefix(corrected_prefix@, candidate_limit as nat).len(),
        considered <= candidate_limit,
{
    let ghost query = query_of(lists, ranking_prefix, context, misspelled_words);
    let ghost before = shortlist@;
    let words = dict.find_words_with_prefix_limited(corrected_prefix, candidate_limit);
    let ghost all = char_views(words@);
    let mut i: usize = 0;
    assert(before + expansion_offers(all.take(0), corrected_prefix@) =~= before);
    while i < words.len()
        invariant
            i <= words@.len(),
            all == char_views(words@),
            query == query_of(lists, ranking_prefix, context, misspelled_words),
            shortlist.ranks(dict, query, max_results as nat),
            shortlist@ == before + expansion_offers(all.take(i as int), corrected_prefix@),
        decreases words@.len() - i,
    {
        let word = words[i].as_slice();
        proof {
            let next = all.take(i + 1);
            assert(next.drop_last() == all.take(i as int));
            assert(next.last() == word@);
            let earlier = expansion_offers(all.take(i as int), corrected_prefix@);
            assert((before + earlier).push(Offer::Scored(word@)) =~= before + earlier.push(
                Offer::Scored(word@),
            ));
        }
        if !same_word_ignore_case(word, corrected_prefix) {
            score_completion_candidate(
                dict,
                lists,
                ranking_prefix,
                context,
                misspelled_words,
                shortlist,
                word,
                max_results,
            );
        }
        i += 1;
    }
    assert(all.take(i as int) == all);
    words.len()
}

/// Whether a word near what was typed is scored.
pub open spec fn is_scored_match(prefix: Seq<char>, word: Seq<char>) -> bool {
    starts_with(word, prefix) || is_plausible_correction(prefix, word)
}

/// The words that start with one of the given corrections, after `used` of the words that may be
/// named in all were named.
pub open spec fn expansions_of<D: Dictionary>(
    dict: &D,
    corrected: Seq<char>,
    used: nat,
    max_results: nat,
) -> Seq<Seq<char>> {
    let left = expansion_limit(max_results) - used;
    if left <= 0 {
        Seq::empty()
    } else if expansion_share(max_results) <= left {
        dict.words_with_prefix(corrected, expansion_share(max_results))
    } else {
        dict.words_with_prefix(corrected, left as nat)
    }
}

/// Whether a word near what was typed is taken for a correction of the typed prefix.
pub open spec fn is_expanded_match(prefix: Seq<char>, word: Seq<char>) -> bool {
    is_scored_match(prefix, word) && !starts_with(word, prefix)
}

/// How many words the dictionary named that start with one of the given corrections.
pub open spec fn expansions_used<D: Dictionary>(
    dict: &D,
    prefix: Seq<char>,
    matches: Seq<Seq<char>>,
    max_results: nat,
) -> nat
    decreases matches.len(),
{
    if matches.len() == 0 {
        0
    } else {
        let used = expansions_used(dict, prefix, matches.drop_last(), max_results);
        if is_expanded_match(prefix, matches.last()) {
            used + expansions_of(dict, matches.last(), used, max_results).len()
        } else {
            used
        }
    }
}

/// The offers that words near what was typed lead to: each of them that could be what was typed,
/// and right after it, where it is a correction, the words that start with it.
pub open spec fn fuzzy_offers<D: Dictionary>(
    dict: &D,
    prefix: Seq<char>,
    matches: Seq<Seq<char>>,
    max_results: nat,
) -> Seq<Offer>
    decreases matches.len(),
{
    if matches.len() == 0 {
        Seq::empty()
    } else {
        let word = matches.last();
        let earlier = fuzzy_offers(dict, prefix, matches.drop_last(), max_results);
        let used = expansions_used(dict, prefix, matches.drop_last(), max_results);
        if is_expanded_match(prefix, word) {
            earlier.push(Offer::Scored(word)) + expansion_offers(
                expansions_of(dict, word, used, max_results),
                word,
            )
        } else if is_scored_match(prefix, word) {
            earlier.push(Offer::Scored(word))
        } else {
            earlier
        }
    }
}

/// The words with the typed prefix in lowercase, where that is not what was typed.
pub open spec fn lowercase_offers<D: Dictionary>(
    dict: &D,
    prefix: Seq<char>,
    max_results: nat,
) -> Seq<Offer> {
    if lower_each(prefix) == prefix {
        Seq::empty()
    } else {
        exact_offers(
            dict.words_with_prefix(lower_each(prefix), exact_limit(max_results)),
            prefix,
        )
    }
}

/// All that is offered for what was typed: the words that start with it, the most frequent of
/// those, contractions, and words near it with those that start with them.
pub open spec fn all_offers<D: Dictionary>(
    dict: &D,
    query: CompletionQuery,
    max_results: nat,
) -> Seq<Offer> {
    let prefix = query.prefix;
    exact_offers(dict.words_with_prefix(prefix, exact_limit(max_results)), prefix)
        + lowercase_offers(dict, prefix, max_results) + frequent_offers(
        dict,
        most_frequent(query.lists.words, prefix, frequent_limit(max_results)),
    ) + contraction_offers(dict, prefix) + fuzzy_offers(
        dict,
        prefix,
        dict.near_words(prefix, allowed_edits(prefix.len()) as u8, fuzzy_limit(max_results)),
        max_results,
    )
}

/// The completions of what was typed, the best first.
pub open spec fn ranking<D: Dictionary>(
    dict: &D,
    query: CompletionQuery,
    max_results: nat,
) -> Seq<RankedWord> {
    shortlisted(accepted(dict, query, all_offers(dict, query, max_results)), max_results)
}

/// Offers the words near what was typed, and the words that start with them.
fn add_fuzzy_completion_candidates<D: Dictionary>(
    dict: &D,
    lists: &FrequencyLists,
    prefix: &[char],
    context: &CompletionContext,
    misspelled_words: &WordSet,
    shortlist: &mut Shortlist,
    max_results: usize,
)
    requires
        old(shortlist).ranks(
            dict,
            query_of(lists, prefix, context, misspelled_words),
            max_results as nat,
        ),
    ensures
        final(shortlist).ranks(
            dict,
            query_of(lists, prefix, context, misspelled_words),
            max_results as nat,
        ),
        final(shortlist)@ == old(shortlist)@ + fuzzy_offers(
            dict,
            prefix@,
            dict.near_words(
                prefix@,
                allowed_edits(prefix@.len()) as u8,
                fuzzy_limit(max_results as nat),
            ),
            max_results as nat,
        ),
{
    let ghost query = query_of(lists, prefix, context, misspelled_words);
    let ghost before = shortlist@;
    let noisy_expansion_limit = noisy_prefix_expansion_candidate_limit(max_results);
    let per_prefix_limit = noisy_prefix_expansion_per_prefix_limit(max_results);
    let edits = allowed_noisy_prefix_edits(prefix.len());
    let matches = dict.fuzzy_match(
        prefix,
        edits as u8,
        fuzzy_completion_candidate_limit(max_results),
    );
    let ghost all = char_views(matches@);
    let mut noisy_expansion_count: usize = 0;
    let mut i: usize = 0;
    assert(before + fuzzy_offers(dict, prefix@, all.take(0), max_results as nat) =~= before);
    while i < matches.len()
        invariant
            i <= matches@.len(),
            all == char_views(matches@),
            noisy_expansion_limit == expansion_limit(max_results as nat),
            noisy_expansion_limit <= MAX_NOISY_PREFIX_EXPANSION_CANDIDATES,
            per_prefix_limit == expansion_share(max_results as nat),
            noisy_expansion_count <= noisy_expansion_limit,
            noisy_expansion_count == expansions_used(
                dict,
                prefix@,
                all.take(i as int),
                max_results as nat,
            ),
            query == query_of(lists, prefix, context, misspelled_words),
            shortlist.ranks(dict, query, max_results as nat),
            shortlist@ == before + fuzzy_offers(
                dict,
                prefix@,
                all.take(i as int),
                max_results as nat,
            ),
        decreases matches@.len() - i,
    {
        let word = matches[i].as_slice();
        let ghost earlier = fuzzy_offers(dict, prefix@, all.take(i as int), max_results as nat);
        let ghost next = all.take(i + 1);
        proof {
            assert(next.drop_last() == all.take(i as int));
            assert(next.last() == word@);
            assert((before + earlier).push(Offer::Scored(word@)) =~= before + earlier.push(
                Offer::Scored(word@),
            ));
        }
        let is_prefix_match = starts_with_ignore_case(word, prefix);
        if is_prefix_match || should_score_noisy_prefix_candidate(prefix, word) {
            score_completion_candidate(
                dict,
                lists,
                prefix,
                context,
                misspelled_words,
                shortlist,
                word,
                max_results,
            );
            if !is_prefix_match && noisy_expansion_count < noisy_expansion_limit {
                let remaining_limit = noisy_expansion_limit - noisy_expansion_count;
                let share = if per_prefix_limit <= remaining_limit {
                    per_prefix_limit
                } else {
                    remaining_limit
                };
                let ghost used = noisy_expansion_count as nat;
                let considered = add_noisy_prefix_expansion_candidates(
                    dict,
                    lists,
                    prefix,
                    word,
                    context,
                    misspelled_words,
                    shortlist,
                    max_results,
                    share,
                );
                noisy_expansion_count += considered;
                proof {
                    let words = expansions_of(dict, word@, used, max_results as nat);
                    let scored = earlier.push(Offer::Scored(word@));
                    assert(before + scored + expansion_offers(words, word@) =~= before + (scored
                        + expansion_offers(words, word@)));
                }
            } else {
                proof {
                    let scored = earlier.push(Offer::Scored(word@));
                    assert(expansion_offers(Seq::empty(), word@) == Seq::<Offer>::empty());
                    assert(scored + Seq::<Offer>::empty() =~= scored);
                }
            }
        }
        i += 1;
    }
    assert(all.take(i as int) == all);
}

/// Ranks the completions of what was typed: the best `max_results`, the best first.
pub fn rank_completion_candidates<D: Dictionary>(
    dict: &D,
    lists: &FrequencyLists,
    prefix: &[char],
    context: &CompletionContext,
    misspelled_words: &WordSet,
    max_results: usize,
) -> (completions: Vec<RankedCompletion>)
    ensures
        ranked_views(completions@) == ranking(
            dict,
            query_of(lists, prefix, context, misspelled_words),
            max_results as nat,
        ),
        completions@.len() <= max_results,
{
    let ghost query = query_of(lists, prefix, context, misspelled_words);
    let ghost n = max_results as nat;
    proof {
        ranking_holds_the_best(dict, query, n);
    }
    if max_results == 0 {
        let none: Vec<RankedCompletion> = Vec::new();
        assert(ranked_views(none@) =~= ranking(dict, query, 0));
        return none;
    }
    let mut shortlist = Shortlist::new(dict);
    assert(shortlist.ranks(dict, query, n));
    let exact_prefix_limit = exact_prefix_candidate_limit(max_results);
    add_exact_prefix_completion_candidates(
        dict,
        lists,
        prefix,
        prefix,
        context,
        misspelled_words,
        &mut shortlist,
        max_results,
        exact_prefix_limit,
    );
    let ghost one = exact_offers(dict.words_with_prefix(prefix@, exact_limit(n)), prefix@);
    assert(shortlist@ =~= one);
    let lowercase_prefix = lowercase_chars(prefix);
    if !same_chars(lowercase_prefix.as_slice(), prefix) {
        add_exact_prefix_completion_candidates(
            dict,
            lists,
            lowercase_prefix.as_slice(),
            prefix,
            context,
            misspelled_words,
            &mut shortlist,
            max_results,
            exact_prefix_limit,
        );
    }
    assert(shortlist@ =~= one + lowercase_offers(dict, prefix@, n));
    add_frequent_prefix_completion_candidates(
        dict,
        lists,
        prefix,
        context,
        misspelled_words,
        &mut shortlist,
        max_results,
        frequent_prefix_candidate_limit(max_results),
    );
    add_contraction_completion_candidates(
        dict,
        lists,
        prefix,
        context,
        misspelled_words,
        &mut shortlist,
        max_results,
    );
    add_fuzzy_completion_candidates(
        dict,
        lists,
        prefix,
        context,
        misspelled_words,
        &mut shortlist,
        max_results,
    );
    assert(shortlist@ == all_offers(dict, query, n));
    shortlist.into_completions(dict)
}

/// A ranking holds the best of all accepted offers, the best first; no word stands in it twice,
/// in whatever casing, and no misspelled word stands in it.
pub proof fn ranking_holds_the_best<D: Dictionary>(
    dict: &D,
    query: CompletionQuery,
    max_results: nat,
)
    ensures
        is_best_of(
            ranking(dict, query, max_results),
            accepted(dict, query, all_offers(dict, query, max_results)),
            max_results,
        ),
        ranking(dict, query, max_results).len() <= max_results,
        spellings_differ(ranking(dict, query, max_results)),
        forall|i: int|
            0 <= i < ranking(dict, query, max_results).len() ==> !query.misspelled.contains(
                lowercase_text((#[trigger] ranking(dict, query, max_results)[i]).word),
            ),
{
    let offers = all_offers(dict, query, max_results);
    let candidates = accepted(dict, query, offers);
    let list = ranking(dict, query, max_results);
    accepted_are_offered(dict, query, offers);
    the_best_are_shortlisted(candidates, max_results);
    assert forall|i: int, j: int| 0 <= i < j < list.len() implies lowercase_text(
        (#[trigger] list[i]).word,
    ) != lowercase_text((#[trigger] list[j]).word) by {
        let a = choose|a: int| 0 <= a < candidates.len() && candidates[a] == list[i];
        let b = choose|b: int| 0 <= b < candidates.len() && candidates[b] == list[j];
        assert(candidates[a] == list[i] && candidates[b] == list[j]);
        if a == b {
            order_is_strict(list[i], list[i]);
        } else if a < b {
            assert(lowercase_text(candidates[a].word) != lowercase_text(candidates[b].word));
        } else {
            assert(lowercase_text(candidates[b].word) != lowercase_text(candidates[a].word));
        }
    }
    assert forall|i: int| 0 <= i < list.len() implies !query.misspelled.contains(
        lowercase_text((#[trigger] list[i]).word),
    ) by {
        let a = choose|a: int| 0 <= a < candidates.len() && candidates[a] == list[i];
        assert(candidates[a] == list[i]);
    }
}

/// Whether all offers are words of the dictionary.
pub open spec fn offers_words<D: Dictionary>(dict: &D, offers: Seq<Offer>) -> bool {
    forall|k: int| 0 <= k < offers.len() ==> dict.has_word((#[trigger] offers[k]).word())
}

proof fn joined_offers_are_words<D: Dictionary>(dict: &D, a: Seq<Offer>, b: Seq<Offer>)
    requires
        offers_words(dict, a),
        offers_words(dict, b),
    ensures
        offers_words(dict, a + b),
{
    assert forall|k: int| 0 <= k < (a + b).len() implies dict.has_word(
        (#[trigger] (a + b)[k]).word(),
    ) by {
        if k < a.len() {
            assert((a + b)[k] == a[k]);
        } else {
            assert((a + b)[k] == b[k - a.len()]);
        }
    }
}

proof fn pushed_offer_is_a_word<D: Dictionary>(dict: &D, a: Seq<Offer>, offer: Offer)
    requires
        offers_words(dict, a),
        dict.has_word(offer.word()),
    ensures
        offers_words(dict, a.push(offer)),
{
}

proof fn selected_offers_are_words<D: Dictionary>(
    dict: &D,
    words: Seq<Seq<char>>,
    prefix: Seq<char>,
)
    requires
        forall|k: int| 0 <= k < words.len() ==> dict.has_word(#[trigger] words[k]),
    ensures
        offers_words(dict, exact_offers(words, prefix)),
        offers_words(dict, expansion_offers(words, prefix)),
    decreases words.len(),
{
    if words.len() > 0 {
        let few = words.drop_last();
        assert forall|k: int| 0 <= k < few.len() implies dict.has_word(#[trigger] few[k]) by {
            assert(few[k] == words[k]);
        }
        selected_offers_are_words(dict, few, prefix);
        assert(dict.has_word(words[words.len() - 1]));
        pushed_offer_is_a_word(dict, exact_offers(few, prefix), Offer::Scored(words.last()));
        pushed_offer_is_a_word(dict, expansion_offers(few, prefix), Offer::Scored(words.last()));
    }
}

proof fn frequent_offers_are_words<D: Dictionary>(dict: &D, words: Seq<Seq<char>>)
    ensures
        offers_words(dict, frequent_offers(dict, words)),
    decreases words.len(),
{
    if words.len() > 0 {
        frequent_offers_are_words(dict, words.drop_last());
    }
}

proof fn contraction_offers_are_words<D: Dictionary>(dict: &D, letters: Seq<char>, end: nat)
    requires
        answers_with_its_words(dict),
    ensures
        offers_words(dict, contractions_up_to(dict, letters, end)),
    decreases end,
{
    if end > 1 {
        contraction_offers_are_words(dict, letters, (end - 1) as nat);
    }
}

proof fn fuzzy_offers_are_words<D: Dictionary>(
    dict: &D,
    prefix: Seq<char>,
    matches: Seq<Seq<char>>,
    max_results: nat,
)
    requires
        answers_with_its_words(dict),
        forall|k: int| 0 <= k < matches.len() ==> dict.has_word(#[trigger] matches[k]),
    ensures
        offers_words(dict, fuzzy_offers(dict, prefix, matches, max_results)),
    decreases matches.len(),
{
    if matches.len() > 0 {
        let few = matches.drop_last();
        let word = matches.last();
        assert forall|k: int| 0 <= k < few.len() implies dict.has_word(#[trigger] few[k]) by {
            assert(few[k] == matches[k]);
        }
        assert(dict.has_word(matches[matches.len() - 1]));
        fuzzy_offers_are_words(dict, prefix, few, max_results);
        let earlier = fuzzy_offers(dict, prefix, few, max_results);
        pushed_offer_is_a_word(dict, earlier, Offer::Scored(word));
        let used = expansions_used(dict, prefix, few, max_results);
        let words = expansions_of(dict, word, used, max_results);
        selected_offers_are_words(dict, words, word);
        joined_offers_are_words(
            dict,
            earlier.push(Offer::Scored(word)),
            expansion_offers(words, word),
        );
    }
}

/// Every completion is a word of the dictionary, if the dictionary answers with its words: the
/// frequency lists never introduce others.
pub proof fn completions_are_dictionary_words<D: Dictionary>(
    dict: &D,
    query: CompletionQuery,
    max_results: nat,
)
    requires
        answers_with_its_words(dict),
    ensures
        forall|i: int|
            0 <= i < ranking(dict, query, max_results).len() ==> dict.has_word(
                (#[trigger] ranking(dict, query, max_results)[i]).word,
            ),
{
    let prefix = query.prefix;
    let a = exact_offers(dict.words_with_prefix(prefix, exact_limit(max_results)), prefix);
    let b = lowercase_offers(dict, prefix, max_results);
    let frequent = most_frequent(query.lists.words, prefix, frequent_limit(max_results));
    let c = frequent_offers(dict, frequent);
    let d = contraction_offers(dict, prefix);
    let near = dict.near_words(
        prefix,
        allowed_edits(prefix.len()) as u8,
        fuzzy_limit(max_results),
    );
    let e = fuzzy_offers(dict, prefix, near, max_results);
    selected_offers_are_words(
        dict,
        dict.words_with_prefix(prefix, exact_limit(max_results)),
        prefix,
    );
    selected_offers_are_words(
        dict,
        dict.words_with_prefix(lower_each(prefix), exact_limit(max_results)),
        prefix,
    );
    frequent_offers_are_words(dict, frequent);
    contraction_offers_are_words(dict, lower_each(prefix), prefix.len());
    fuzzy_offers_are_words(dict, prefix, near, max_results);
    joined_offers_are_words(dict, a, b);
    joined_offers_are_words(dict, a + b, c);
    joined_offers_are_words(dict, a + b + c, d);
    joined_offers_are_words(dict, a + b + c + d, e);
    let offers = all_offers(dict, query, max_results);
    accepted_words_are_words(dict, query, offers);
    ranking_holds_the_best(dict, query, max_results);
    let candidates = accepted(dict, query, offers);
    let list = ranking(dict, query, max_results);
    assert forall|i: int| 0 <= i < list.len() implies dict.has_word((#[trigger] list[i]).word) by {
        let k = choose|k: int| 0 <= k < candidates.len() && candidates[k] == list[i];
        assert(candidates[k] == list[i]);
    }
}

proof fn accepted_words_are_words<D: Dictionary>(
    dict: &D,
    query: CompletionQuery,
    offers: Seq<Offer>,
)
    requires
        offers_words(dict, offers),
    ensures
        forall|k: int|
            0 <= k < accepted(dict, query, offers).len() ==> dict.has_word(
                (#[trigger] accepted(dict, query, offers)[k]).word,
            ),
    decreases offers.len(),
{
    if offers.len() > 0 {
        let few = offers.drop_last();
        assert forall|k: int| 0 <= k < few.len() implies dict.has_word(
            (#[trigger] few[k]).word(),
        ) by {
            assert(few[k] == offers[k]);
        }
        accepted_words_are_words(dict, query, few);
        assert(dict.has_word(offers[offers.len() - 1].word()));
        let earlier = accepted(dict, query, few);
        let all = accepted(dict, query, offers);
        assert forall|k: int| 0 <= k < all.len() implies dict.has_word(
            (#[trigger] all[k]).word,
        ) by {
            if k < earlier.len() {
                assert(all[k] == earlier[k]);
            }
        }
    }
}

/// Whether a word starts with what was typed, but for ASCII case.
pub open spec fn continues(word: Seq<char>, prefix: Seq<char>) -> bool {
    prefix.len() <= word.len() && forall|i: int|
        0 <= i < prefix.len() ==> ascii_lower(#[trigger] word[i]) == ascii_lower(prefix[i])
}

proof fn exact_offers_are_complete(words: Seq<Seq<char>>, prefix: Seq<char>, k: int)
    requires
        0 <= k < words.len(),
        starts_with(words[k], prefix),
    ensures
        exact_offers(words, prefix).contains(Offer::Scored(words[k])),
    decreases words.len(),
{
    let few = words.drop_last();
    if k < few.len() {
        exact_offers_are_complete(few, prefix, k);
        offers_stay(
            exact_offers(few, prefix),
            exact_offers(words, prefix),
            Offer::Scored(words[k]),
        );
    } else {
        let offers = exact_offers(words, prefix);
        assert(offers[offers.len() - 1] == Offer::Scored(words[k]));
    }
}

/// Offers that a longer list of offers starts with are in it.
proof fn offers_stay(few: Seq<Offer>, more: Seq<Offer>, offer: Offer)
    requires
        few.len() <= more.len(),
        more.take(few.len() as int) =~= few || more =~= few || exists|o: Offer|
            more =~= few.push(o),
        few.contains(offer),
    ensures
        more.contains(offer),
{
    let k = choose|k: int| 0 <= k < few.len() && few[k] == offer;
    if more.take(few.len() as int) =~= few {
        assert(more.take(few.len() as int)[k] == offer);
    }
    assert(more[k] == offer);
}

proof fn frequent_offers_are_complete<D: Dictionary>(dict: &D, words: Seq<Seq<char>>, k: int)
    requires
        0 <= k < words.len(),
        dict.has_word(words[k]),
    ensures
        frequent_offers(dict, words).contains(Offer::Scored(words[k])),
    decreases words.len(),
{
    let few = words.drop_last();
    if k < few.len() {
        frequent_offers_are_complete(dict, few, k);
        offers_stay(
            frequent_offers(dict, few),
            frequent_offers(dict, words),
            Offer::Scored(words[k]),
        );
    } else {
        let offers = frequent_offers(dict, words);
        assert(offers[offers.len() - 1] == Offer::Scored(words[k]));
    }
}

proof fn expansion_offers_are_complete(words: Seq<Seq<char>>, corrected: Seq<char>, k: int)
    requires
        0 <= k < words.len(),
        !same_word(words[k], corrected),
    ensures
        expansion_offers(words, corrected).contains(Offer::Scored(words[k])),
    decreases words.len(),
{
    let few = words.drop_last();
    if k < few.len() {
        expansion_offers_are_complete(few, corrected, k);
        offers_stay(
            expansion_offers(few, corrected),
            expansion_offers(words, corrected),
            Offer::Scored(words[k]),
        );
    } else {
        let offers = expansion_offers(words, corrected);
        assert(offers[offers.len() - 1] == Offer::Scored(words[k]));
    }
}

proof fn contractions_are_complete<D: Dictionary>(
    dict: &D,
    letters: Seq<char>,
    end: nat,
    at: nat,
    word: Seq<char>,
)
    requires
        1 <= at < end,
        dict.capitalization(with_apostrophe(letters, at)) == Some(word),
        word.contains('\''),
    ensures
        contractions_up_to(dict, letters, end).contains(Offer::Contraction(word)),
    decreases end,
{
    let few = contractions_up_to(dict, letters, (end - 1) as nat);
    let offers = contractions_up_to(dict, letters, end);
    if at < end - 1 {
        contractions_are_complete(dict, letters, (end - 1) as nat, at, word);
        offers_stay(few, offers, Offer::Contraction(word));
    } else {
        assert(offers[offers.len() - 1] == Offer::Contraction(word));
    }
}

proof fn contractions_come_from_apostrophes<D: Dictionary>(
    dict: &D,
    letters: Seq<char>,
    end: nat,
    k: int,
)
    requires
        0 <= k < contractions_up_to(dict, letters, end).len(),
    ensures
        contractions_up_to(dict, letters, end)[k] matches Offer::Contraction(word)
            && word.contains('\'') && exists|at: nat|
            1 <= at < end && #[trigger] dict.capitalization(with_apostrophe(letters, at)) == Some(
                word,
            ),
    decreases end,
{
    let few = contractions_up_to(dict, letters, (end - 1) as nat);
    if k < few.len() {
        contractions_come_from_apostrophes(dict, letters, (end - 1) as nat, k);
        assert(contractions_up_to(dict, letters, end)[k] == few[k]);
    } else {
        let at = (end - 1) as nat;
        assert(dict.capitalization(with_apostrophe(letters, at)) is Some);
    }
}

proof fn exact_offers_continue_the_prefix(words: Seq<Seq<char>>, prefix: Seq<char>, k: int)
    requires
        0 <= k < exact_offers(words, prefix).len(),
    ensures
        exact_offers(words, prefix)[k] matches Offer::Scored(word) && starts_with(word, prefix),
    decreases words.len(),
{
    let few = exact_offers(words.drop_last(), prefix);
    if k < few.len() {
        exact_offers_continue_the_prefix(words.drop_last(), prefix, k);
        assert(exact_offers(words, prefix)[k] == few[k]);
    }
}

proof fn frequent_offers_are_frequent<D: Dictionary>(dict: &D, words: Seq<Seq<char>>, k: int)
    requires
        0 <= k < frequent_offers(dict, words).len(),
    ensures
        frequent_offers(dict, words)[k] matches Offer::Scored(word) && words.contains(word),
    decreases words.len(),
{
    let few = frequent_offers(dict, words.drop_last());
    if k < few.len() {
        frequent_offers_are_frequent(dict, words.drop_last(), k);
        assert(frequent_offers(dict, words)[k] == few[k]);
        let word = few[k].word();
        let j = choose|j: int| 0 <= j < words.drop_last().len() && words.drop_last()[j] == word;
        assert(words[j] == word);
    } else {
        assert(words[words.len() - 1] == words.last());
    }
}

/// The offers in front of the contractions.
spec fn offers_before_contractions<D: Dictionary>(
    dict: &D,
    query: CompletionQuery,
    max_results: nat,
) -> Seq<Offer> {
    let prefix = query.prefix;
    exact_offers(dict.words_with_prefix(prefix, exact_limit(max_results)), prefix)
        + lowercase_offers(dict, prefix, max_results) + frequent_offers(
        dict,
        most_frequent(query.lists.words, prefix, frequent_limit(max_results)),
    )
}

proof fn offers_before_contractions_continue_the_prefix<D: Dictionary>(
    dict: &D,
    query: CompletionQuery,
    max_results: nat,
    k: int,
)
    requires
        0 <= k < offers_before_contractions(dict, query, max_results).len(),
    ensures
        offers_before_contractions(dict, query, max_results)[k] matches Offer::Scored(word) && (
        continues(word, query.prefix) || begins_with(word, lowercase_text(query.prefix))),
{
    let prefix = query.prefix;
    let words = dict.words_with_prefix(prefix, exact_limit(max_results));
    let lower = dict.words_with_prefix(lower_each(prefix), exact_limit(max_results));
    let frequent = most_frequent(query.lists.words, prefix, frequent_limit(max_results));
    let a = exact_offers(words, prefix);
    let b = lowercase_offers(dict, prefix, max_results);
    let c = frequent_offers(dict, frequent);
    if k < a.len() {
        exact_offers_continue_the_prefix(words, prefix, k);
        assert((a + b + c)[k] == a[k]);
    } else if k < a.len() + b.len() {
        exact_offers_continue_the_prefix(lower, prefix, k - a.len());
        assert((a + b + c)[k] == b[k - a.len()]);
    } else {
        let j = k - a.len() - b.len();
        frequent_offers_are_frequent(dict, frequent, j);
        assert((a + b + c)[k] == c[j]);
        let word = c[j].word();
        let i = choose|i: int| 0 <= i < frequent.len() && frequent[i] == word;
        every_word_found_begins_with_the_prefix(
            query.lists.words,
            prefix,
            frequent_limit(max_results),
            i,
        );
        let p = lowercase_text(prefix);
        assert(word.take(p.len() as int) =~= word.subrange(0, p.len() as int));
    }
}

/// Of a prefix of two or more characters without an apostrophe, however long, every interior
/// position counts: where the dictionary spells the lowercase prefix with an apostrophe there as
/// a word that holds an apostrophe, that word is offered as a contraction. Only contractions, and
/// words that start with what was typed, are offered before it.
pub proof fn restored_contractions_are_offered<D: Dictionary>(
    dict: &D,
    query: CompletionQuery,
    max_results: nat,
    at: int,
    word: Seq<char>,
) -> (k: int)
    requires
        query.prefix.len() >= 2,
        !query.prefix.contains('\''),
        1 <= at < query.prefix.len(),
        dict.capitalization(
            lower_each(query.prefix.subrange(0, at)) + seq!['\''] + lower_each(
                query.prefix.subrange(at, query.prefix.len() as int),
            ),
        ) == Some(word),
        word.contains('\''),
    ensures
        0 <= k < all_offers(dict, query, max_results).len(),
        all_offers(dict, query, max_results)[k] == Offer::Contraction(word),
        forall|j: int|
            0 <= j < k ==> match #[trigger] all_offers(dict, query, max_results)[j] {
                Offer::Contraction(_) => true,
                Offer::Scored(other) => (query.prefix.len() <= other.len() && forall|i: int|
                    0 <= i < query.prefix.len() ==> ascii_lower(#[trigger] other[i])
                        == ascii_lower(query.prefix[i])) || begins_with(
                    other,
                    lowercase_text(query.prefix),
                ),
            },
{
    let prefix = query.prefix;
    let letters = lower_each(prefix);
    assert(with_apostrophe(letters, at as nat) =~= lower_each(prefix.subrange(0, at)) + seq!['\'']
        + lower_each(prefix.subrange(at, prefix.len() as int)));
    contractions_are_complete(dict, letters, prefix.len(), at as nat, word);
    let front = offers_before_contractions(dict, query, max_results);
    let d = contraction_offers(dict, prefix);
    let all = all_offers(dict, query, max_results);
    let i = choose|i: int| 0 <= i < d.len() && d[i] == Offer::Contraction(word);
    let k = front.len() + i;
    assert(all[k] == d[i]);
    assert forall|j: int| 0 <= j < k implies match #[trigger] all[j] {
        Offer::Contraction(_) => true,
        Offer::Scored(other) => continues(other, prefix) || begins_with(
            other,
            lowercase_text(prefix),
        ),
    } by {
        if j < front.len() {
            assert(all[j] == front[j]);
            offers_before_contractions_continue_the_prefix(dict, query, max_results, j);
        } else {
            assert(all[j] == d[j - front.len()]);
            contractions_come_from_apostrophes(dict, letters, prefix.len(), j - front.len());
        }
    }
    k
}

proof fn first_offers_are_accepted<D: Dictionary>(
    dict: &D,
    query: CompletionQuery,
    offers: Seq<Offer>,
    k: int,
)
    requires
        0 <= k < offers.len(),
        forall|j: int|
            0 <= j < k ==> lowercase_text((#[trigger] offers[j]).word()) != lowercase_text(
                offers[k].word(),
            ),
        !query.misspelled.contains(lowercase_text(offers[k].word())),
        offer_rank(dict, query, offers[k]) is Some,
    ensures
        accepted(dict, query, offers).contains(
            (RankedWord {
                word: offers[k].word(),
                rank: offer_rank(dict, query, offers[k]).unwrap(),
            }),
        ),
    decreases offers.len(),
{
    let few = offers.drop_last();
    let ranked = RankedWord {
        word: offers[k].word(),
        rank: offer_rank(dict, query, offers[k]).unwrap(),
    };
    let all = accepted(dict, query, offers);
    if k < few.len() {
        assert forall|j: int| 0 <= j < k implies lowercase_text((#[trigger] few[j]).word())
            != lowercase_text(few[k].word()) by {
            assert(few[j] == offers[j]);
        }
        first_offers_are_accepted(dict, query, few, k);
        let earlier = accepted(dict, query, few);
        let i = choose|i: int| 0 <= i < earlier.len() && earlier[i] == ranked;
        assert(all[i] == ranked);
    } else {
        assert forall|j: int| 0 <= j < few.len() implies (#[trigger] few[j]).normalized()
            != offers[k].normalized() by {
            assert(few[j] == offers[j]);
        }
        assert(!is_offered(few, offers[k].normalized()));
        assert(all[all.len() - 1] == ranked);
    }
}

/// The first offer of a word, if the word is not misspelled and near enough, is listed with its
/// rank, or else the list is full and every completion in it comes before it.
pub proof fn offers_are_listed_or_outranked<D: Dictionary>(
    dict: &D,
    query: CompletionQuery,
    max_results: nat,
    k: int,
)
    requires
        0 <= k < all_offers(dict, query, max_results).len(),
        forall|j: int|
            0 <= j < k ==> lowercase_text(
                (#[trigger] all_offers(dict, query, max_results)[j]).word(),
            ) != lowercase_text(all_offers(dict, query, max_results)[k].word()),
        !query.misspelled.contains(
            lowercase_text(all_offers(dict, query, max_results)[k].word()),
        ),
        offer_rank(dict, query, all_offers(dict, query, max_results)[k]) is Some,
    ensures
        ({
            let offer = all_offers(dict, query, max_results)[k];
            let ranked = RankedWord {
                word: offer.word(),
                rank: offer_rank(dict, query, offer).unwrap(),
            };
            let list = ranking(dict, query, max_results);
            list.contains(ranked) || list.len() == max_results && forall|i: int|
                0 <= i < list.len() ==> precedes(#[trigger] list[i], ranked)
        }),
{
    let offers = all_offers(dict, query, max_results);
    first_offers_are_accepted(dict, query, offers, k);
    ranking_holds_the_best(dict, query, max_results);
    let candidates = accepted(dict, query, offers);
    let ranked = RankedWord {
        word: offers[k].word(),
        rank: offer_rank(dict, query, offers[k]).unwrap(),
    };
    let i = choose|i: int| 0 <= i < candidates.len() && candidates[i] == ranked;
    let list = ranking(dict, query, max_results);
    if !list.contains(ranked) {
        assert(!list.contains(candidates[i]));
        assert forall|j: int| 0 <= j < list.len() implies precedes(#[trigger] list[j], ranked) by {
            assert(precedes(list[j], candidates[i]));
        }
    }
}

/// Every completion listed was offered, and is listed with the rank of the offer.
pub proof fn completions_were_offered<D: Dictionary>(
    dict: &D,
    query: CompletionQuery,
    max_results: nat,
    i: int,
)
    requires
        0 <= i < ranking(dict, query, max_results).len(),
    ensures
        exists|k: int|
            0 <= k < all_offers(dict, query, max_results).len() && ({
                let offer = #[trigger] all_offers(dict, query, max_results)[k];
                &&& offer.word() == ranking(dict, query, max_results)[i].word
                &&& offer_rank(dict, query, offer) == Some(
                    ranking(dict, query, max_results)[i].rank,
                )
            }),
{
    let offers = all_offers(dict, query, max_results);
    ranking_holds_the_best(dict, query, max_results);
    let candidates = accepted(dict, query, offers);
    let ranked = ranking(dict, query, max_results)[i];
    let c = choose|c: int| 0 <= c < candidates.len() && candidates[c] == ranked;
    accepted_were_offered(dict, query, offers, c);
}

proof fn accepted_were_offered<D: Dictionary>(
    dict: &D,
    query: CompletionQuery,
    offers: Seq<Offer>,
    c: int,
)
    requires
        0 <= c < accepted(dict, query, offers).len(),
    ensures
        exists|k: int|
            0 <= k < offers.len() && (#[trigger] offers[k]).word() == accepted(
                dict,
                query,
                offers,
            )[c].word && offer_rank(dict, query, offers[k]) == Some(
                accepted(dict, query, offers)[c].rank,
            ),
    decreases offers.len(),
{
    let few = offers.drop_last();
    let earlier = accepted(dict, query, few);
    if c < earlier.len() {
        accepted_were_offered(dict, query, few, c);
        let k = choose|k: int|
            0 <= k < few.len() && (#[trigger] few[k]).word() == earlier[c].word && offer_rank(
                dict,
                query,
                few[k],
            ) == Some(earlier[c].rank);
        assert(offers[k] == few[k]);
        assert(accepted(dict, query, offers)[c] == earlier[c]);
    } else {
        assert(offers[offers.len() - 1] == offers.last());
    }
}

/// A contraction is ranked by a fixed cost, a low one where what was typed is no word, whatever
/// the frequency lists say of it.
pub proof fn contractions_have_a_fixed_cost<D: Dictionary>(
    dict: &D,
    query: CompletionQuery,
    word: Seq<char>,
)
    ensures
        offer_rank(dict, query, Offer::Contraction(word)) matches Some(rank) && {
            &&& rank.combined_cost == if dict.has_word(lower_each(query.prefix)) {
                200i32
            } else {
                30i32
            }
            &&& rank.distance == 0
            &&& !rank.exact_prefix
            &&& !rank.typed_word
            &&& rank.first_letter_match == (query.prefix.len() > 0 && word.len() > 0 && ascii_lower(
                query.prefix[0],
            ) == ascii_lower(word[0]))
            &&& rank.is_common == (dict.metadata(word) == Some((DictWordMetadata { common: true })))
            &&& rank.remaining_ambiguity == 0
            &&& rank.replacement_len == word.len() as usize
        },
{
}

/// A word typed without its apostrophe is listed, in the spelling of the dictionary, at the fixed
/// cost of contractions, or else the list is full of completions that come before it. It must not
/// be misspelled, and no word with its lowercase form may start with what was typed.
pub proof fn a_missing_apostrophe_is_restored<D: Dictionary>(
    dict: &D,
    query: CompletionQuery,
    max_results: nat,
    at: int,
    word: Seq<char>,
) -> (ranked: RankedWord)
    requires
        query.prefix.len() >= 2,
        !query.prefix.contains('\''),
        1 <= at < query.prefix.len(),
        dict.capitalization(
            lower_each(query.prefix.subrange(0, at)) + seq!['\''] + lower_each(
                query.prefix.subrange(at, query.prefix.len() as int),
            ),
        ) == Some(word),
        word.contains('\''),
        !query.misspelled.contains(lowercase_text(word)),
        forall|other: Seq<char>|
            #[trigger] lowercase_text(other) == lowercase_text(word) ==> !begins_with(
                other,
                lowercase_text(query.prefix),
            ) && !(query.prefix.len() <= other.len() && forall|i: int|
                0 <= i < query.prefix.len() ==> ascii_lower(#[trigger] other[i]) == ascii_lower(
                    query.prefix[i],
                )),
    ensures
        lowercase_text(ranked.word) == lowercase_text(word),
        ranked.rank.combined_cost == if dict.has_word(lower_each(query.prefix)) {
            200i32
        } else {
            30i32
        },
        ranking(dict, query, max_results).contains(ranked) || ranking(
            dict,
            query,
            max_results,
        ).len() == max_results && forall|i: int|
            0 <= i < max_results ==> precedes(
                #[trigger] ranking(dict, query, max_results)[i],
                ranked,
            ),
{
    let k = restored_contractions_are_offered(dict, query, max_results, at, word);
    let all = all_offers(dict, query, max_results);
    let first = first_offer_of(all, lowercase_text(word), k);
    assert(all[first] is Contraction) by {
        if all[first] is Scored {
            let other = all[first].word();
            assert(first < k);
            assert(lowercase_text(other) == lowercase_text(word));
        }
    }
    assert forall|j: int| 0 <= j < first implies lowercase_text((#[trigger] all[j]).word())
        != lowercase_text(all[first].word()) by {}
    offers_are_listed_or_outranked(dict, query, max_results, first);
    RankedWord { word: all[first].word(), rank: offer_rank(dict, query, all[first]).unwrap() }
}

proof fn first_offer_of(offers: Seq<Offer>, normalized: Seq<char>, k: int) -> (first: int)
    requires
        0 <= k < offers.len(),
        lowercase_text(offers[k].word()) == normalized,
    ensures
        0 <= first <= k,
        lowercase_text(offers[first].word()) == normalized,
        forall|j: int|
            0 <= j < first ==> lowercase_text((#[trigger] offers[j]).word()) != normalized,
    decreases k,
{
    if exists|j: int| 0 <= j < k && lowercase_text((#[trigger] offers[j]).word()) == normalized {
        let j = choose|j: int|
            0 <= j < k && lowercase_text((#[trigger] offers[j]).word()) == normalized;
        first_offer_of(offers, normalized, j)
    } else {
        k
    }
}

proof fn fuzzy_offers_are_complete<D: Dictionary>(
    dict: &D,
    prefix: Seq<char>,
    matches: Seq<Seq<char>>,
    max_results: nat,
    k: int,
    i: int,
)
    requires
        0 <= k < matches.len(),
        is_scored_match(prefix, matches[k]),
    ensures
        fuzzy_offers(dict, prefix, matches, max_results).contains(Offer::Scored(matches[k])),
        ({
            let words = expansions_of(
                dict,
                matches[k],
                expansions_used(dict, prefix, matches.take(k), max_results),
                max_results,
            );
            is_expanded_match(prefix, matches[k]) && 0 <= i < words.len() && !same_word(
                words[i],
                matches[k],
            ) ==> fuzzy_offers(dict, prefix, matches, max_results).contains(
                Offer::Scored(words[i]),
            )
        }),
    decreases matches.len(),
{
    let few = matches.drop_last();
    let used = expansions_used(dict, prefix, matches.take(k), max_results);
    let words = expansions_of(dict, matches[k], used, max_results);
    let earlier = fuzzy_offers(dict, prefix, few, max_results);
    let all = fuzzy_offers(dict, prefix, matches, max_results);
    let is_continued = is_expanded_match(prefix, matches[k]) && 0 <= i < words.len()
        && !same_word(words[i], matches[k]);
    if k < few.len() {
        fuzzy_offers_are_complete(dict, prefix, few, max_results, k, i);
        assert(few.take(k) =~= matches.take(k));
        assert(all.take(earlier.len() as int) =~= earlier);
        offers_stay(earlier, all, Offer::Scored(matches[k]));
        if is_continued {
            offers_stay(earlier, all, Offer::Scored(words[i]));
        }
    } else {
        assert(matches.take(k) =~= few);
        assert(all[earlier.len() as int] == Offer::Scored(matches[k]));
        if is_continued {
            let scored = earlier.push(Offer::Scored(matches[k]));
            let more = expansion_offers(words, matches[k]);
            expansion_offers_are_complete(words, matches[k], i);
            let j = choose|j: int| 0 <= j < more.len() && more[j] == Offer::Scored(words[i]);
            assert((scored + more)[scored.len() + j] == more[j]);
        }
    }
}

proof fn an_offer_of_a_part_is_offered(
    a: Seq<Offer>,
    b: Seq<Offer>,
    c: Seq<Offer>,
    d: Seq<Offer>,
    e: Seq<Offer>,
    offer: Offer,
)
    requires
        a.contains(offer) || b.contains(offer) || c.contains(offer) || d.contains(offer)
            || e.contains(offer),
    ensures
        (a + b + c + d + e).contains(offer),
{
    let all = a + b + c + d + e;
    if a.contains(offer) {
        let k = choose|k: int| 0 <= k < a.len() && a[k] == offer;
        assert(all[k] == offer);
    } else if b.contains(offer) {
        let k = choose|k: int| 0 <= k < b.len() && b[k] == offer;
        assert(all[a.len() + k] == offer);
    } else if c.contains(offer) {
        let k = choose|k: int| 0 <= k < c.len() && c[k] == offer;
        assert(all[a.len() + b.len() + k] == offer);
    } else if d.contains(offer) {
        let k = choose|k: int| 0 <= k < d.len() && d[k] == offer;
        assert(all[a.len() + b.len() + c.len() + k] == offer);
    } else {
        let k = choose|k: int| 0 <= k < e.len() && e[k] == offer;
        assert(all[a.len() + b.len() + c.len() + d.len() + k] == offer);
    }
}

/// Of the words that the dictionary names for what was typed, and for what was typed in
/// lowercase, those that start with what was typed are offered. It is asked for 32 words for each
/// result, but for 64 at least and 256 at most.
pub proof fn words_that_continue_the_prefix_are_offered<D: Dictionary>(
    dict: &D,
    query: CompletionQuery,
    max_results: nat,
    limit: nat,
    lookup: Seq<char>,
    k: int,
)
    requires
        limit == if 32 * max_results < 64 {
            64
        } else if 32 * max_results > 256 {
            256
        } else {
            32 * max_results
        },
        lookup == query.prefix || lookup == lower_each(query.prefix),
        0 <= k < dict.words_with_prefix(lookup, limit).len(),
        ({
            let word = dict.words_with_prefix(lookup, limit)[k];
            query.prefix.len() <= word.len() && forall|i: int|
                0 <= i < query.prefix.len() ==> ascii_lower(#[trigger] word[i]) == ascii_lower(
                    query.prefix[i],
                )
        }),
    ensures
        all_offers(dict, query, max_results).contains(
            Offer::Scored(dict.words_with_prefix(lookup, limit)[k]),
        ),
{
    let prefix = query.prefix;
    let words = dict.words_with_prefix(lookup, limit);
    assert(exact_limit(max_results) == limit);
    assert(starts_with(words[k], prefix));
    exact_offers_are_complete(words, prefix, k);
    an_offer_of_a_part_is_offered(
        exact_offers(dict.words_with_prefix(prefix, exact_limit(max_results)), prefix),
        lowercase_offers(dict, prefix, max_results),
        frequent_offers(
            dict,
            most_frequent(query.lists.words, prefix, frequent_limit(max_results)),
        ),
        contraction_offers(dict, prefix),
        fuzzy_offers(
            dict,
            prefix,
            dict.near_words(prefix, allowed_edits(prefix.len()) as u8, fuzzy_limit(max_results)),
            max_results,
        ),
        Offer::Scored(words[k]),
    );
}

/// Of the most frequent words that start with what was typed, those that the dictionary holds are
/// offered. There are two of them for each result, but 32 at least and 128 at most.
pub proof fn frequent_words_are_offered<D: Dictionary>(
    dict: &D,
    query: CompletionQuery,
    max_results: nat,
    limit: nat,
    k: int,
)
    requires
        limit == if 2 * max_results < 32 {
            32
        } else if 2 * max_results > 128 {
            128
        } else {
            2 * max_results
        },
        0 <= k < most_frequent(query.lists.words, query.prefix, limit).len(),
        dict.has_word(most_frequent(query.lists.words, query.prefix, limit)[k]),
    ensures
        all_offers(dict, query, max_results).contains(
            Offer::Scored(most_frequent(query.lists.words, query.prefix, limit)[k]),
        ),
{
    let prefix = query.prefix;
    let words = most_frequent(query.lists.words, prefix, limit);
    assert(frequent_limit(max_results) == limit);
    frequent_offers_are_complete(dict, words, k);
    an_offer_of_a_part_is_offered(
        exact_offers(dict.words_with_prefix(prefix, exact_limit(max_results)), prefix),
        lowercase_offers(dict, prefix, max_results),
        frequent_offers(
            dict,
            most_frequent(query.lists.words, prefix, frequent_limit(max_results)),
        ),
        contraction_offers(dict, prefix),
        fuzzy_offers(
            dict,
            prefix,
            dict.near_words(prefix, allowed_edits(prefix.len()) as u8, fuzzy_limit(max_results)),
            max_results,
        ),
        Offer::Scored(words[k]),
    );
}

/// Of the words that the dictionary finds near what was typed, those that start with it, and
/// those that could be it by their first letters, are offered. The dictionary is asked for words
/// one, two, three or four edits away by the length of what was typed, and for 24 words for each
/// result, but for 64 at least and 200 at most.
///
/// The first of them that does not start with what was typed is taken for a correction: the
/// longer words that start with it are offered too, two for each result, but four at least and
/// sixteen at most.
pub proof fn near_words_and_their_continuations_are_offered<D: Dictionary>(
    dict: &D,
    query: CompletionQuery,
    max_results: nat,
    edits: u8,
    limit: nat,
    share: nat,
    k: int,
    i: int,
)
    requires
        edits == if query.prefix.len() <= 2 {
            1u8
        } else if query.prefix.len() <= 5 {
            2u8
        } else if query.prefix.len() <= 9 {
            3u8
        } else {
            4u8
        },
        limit == if 24 * max_results < 64 {
            64
        } else if 24 * max_results > 200 {
            200
        } else {
            24 * max_results
        },
        share == if 2 * max_results < 4 {
            4
        } else if 2 * max_results > 16 {
            16
        } else {
            2 * max_results
        },
        0 <= k < dict.near_words(query.prefix, edits, limit).len(),
        ({
            let word = dict.near_words(query.prefix, edits, limit)[k];
            let prefix = query.prefix;
            prefix.len() <= word.len() && (forall|i: int|
                0 <= i < prefix.len() ==> ascii_lower(#[trigger] word[i]) == ascii_lower(
                    prefix[i],
                )) || prefix.len() > 0 && word.len() > 0 && (ascii_lower(prefix[0]) == ascii_lower(
                word[0],
            ) || substitution_cost(prefix[0], word[0]) <= 100 || prefix.len() > 1 && ascii_lower(
                prefix[1],
            ) == ascii_lower(word[0]) || word.len() > 1 && ascii_lower(prefix[0]) == ascii_lower(
                word[1],
            ))
        }),
    ensures
        all_offers(dict, query, max_results).contains(
            Offer::Scored(dict.near_words(query.prefix, edits, limit)[k]),
        ),
        ({
            let near = dict.near_words(query.prefix, edits, limit);
            let longer = dict.words_with_prefix(near[k], share);
            (forall|j: int| 0 <= j < k ==> continues(#[trigger] near[j], query.prefix))
                && !continues(near[k], query.prefix) && 0 <= i < longer.len() && (longer[i].len()
                != near[k].len() || exists|c: int|
                0 <= c < near[k].len() && ascii_lower(#[trigger] longer[i][c]) != ascii_lower(
                    near[k][c],
                )) ==> all_offers(dict, query, max_results).contains(Offer::Scored(longer[i]))
        }),
{
    let prefix = query.prefix;
    let near = dict.near_words(prefix, edits, limit);
    assert(fuzzy_limit(max_results) == limit);
    assert(allowed_edits(prefix.len()) as u8 == edits);
    assert(starts_with(near[k], prefix) == continues(near[k], prefix));
    assert(is_scored_match(prefix, near[k]));
    fuzzy_offers_are_complete(dict, prefix, near, max_results, k, i);
    let a = exact_offers(dict.words_with_prefix(prefix, exact_limit(max_results)), prefix);
    let b = lowercase_offers(dict, prefix, max_results);
    let c = frequent_offers(
        dict,
        most_frequent(query.lists.words, prefix, frequent_limit(max_results)),
    );
    let d = contraction_offers(dict, prefix);
    let e = fuzzy_offers(dict, prefix, near, max_results);
    an_offer_of_a_part_is_offered(a, b, c, d, e, Offer::Scored(near[k]));
    let longer = dict.words_with_prefix(near[k], share);
    if (forall|j: int| 0 <= j < k ==> continues(#[trigger] near[j], prefix)) && !continues(
        near[k],
        prefix,
    ) && 0 <= i < longer.len() && (longer[i].len() != near[k].len() || exists|c: int|
        0 <= c < near[k].len() && ascii_lower(#[trigger] longer[i][c]) != ascii_lower(near[k][c])) {
        let front = near.take(k);
        assert forall|j: int| 0 <= j < front.len() implies starts_with(
            #[trigger] front[j],
            prefix,
        ) by {
            assert(continues(near[j], prefix));
        }
        no_corrections_use_nothing(dict, prefix, front, max_results);
        assert(expansion_share(max_results) == share);
        assert(share <= expansion_limit(max_results));
        assert(expansions_of(dict, near[k], 0, max_results) == longer);
        assert(!same_word(longer[i], near[k]));
        an_offer_of_a_part_is_offered(a, b, c, d, e, Offer::Scored(longer[i]));
    }
}

proof fn no_corrections_use_nothing<D: Dictionary>(
    dict: &D,
    prefix: Seq<char>,
    matches: Seq<Seq<char>>,
    max_results: nat,
)
    requires
        forall|j: int| 0 <= j < matches.len() ==> starts_with(#[trigger] matches[j], prefix),
    ensures
        expansions_used(dict, prefix, matches, max_results) == 0,
    decreases matches.len(),
{
    if matches.len() > 0 {
        let few = matches.drop_last();
        assert forall|j: int| 0 <= j < few.len() implies starts_with(#[trigger] few[j], prefix) by {
            assert(few[j] == matches[j]);
        }
        no_corrections_use_nothing(dict, prefix, few, max_results);
        assert(starts_with(matches[matches.len() - 1], prefix));
    }
}

proof fn expansions_are_few<D: Dictionary>(
    dict: &D,
    prefix: Seq<char>,
    matches: Seq<Seq<char>>,
    max_results: nat,
)
    requires
        forall|p: Seq<char>, l: nat| #[trigger] dict.words_with_prefix(p, l).len() <= l,
    ensures
        expansions_used(dict, prefix, matches, max_results) <= matches.len() * expansion_share(
            max_results,
        ),
    decreases matches.len(),
{
    let share = expansion_share(max_results);
    if matches.len() > 0 {
        expansions_are_few(dict, prefix, matches.drop_last(), max_results);
        let n = matches.len() as int;
        assert(n * share == (n - 1) * share + share) by (nonlinear_arith);
    } else {
        assert(0 * share == 0) by (nonlinear_arith);
    }
}

/// Not the first correction of what was typed alone, but each as long as the words named for all
/// of them are not too many, offers the longer words that start with it: 16 for each result in
/// all, but 32 at least and 128 at most. The dictionary must name no more words than asked for.
pub proof fn each_correction_is_continued<D: Dictionary>(
    dict: &D,
    query: CompletionQuery,
    max_results: nat,
    edits: u8,
    limit: nat,
    share: nat,
    total: nat,
    k: int,
    i: int,
)
    requires
        forall|p: Seq<char>, l: nat| #[trigger] dict.words_with_prefix(p, l).len() <= l,
        edits == if query.prefix.len() <= 2 {
            1u8
        } else if query.prefix.len() <= 5 {
            2u8
        } else if query.prefix.len() <= 9 {
            3u8
        } else {
            4u8
        },
        limit == if 24 * max_results < 64 {
            64
        } else if 24 * max_results > 200 {
            200
        } else {
            24 * max_results
        },
        share == if 2 * max_results < 4 {
            4
        } else if 2 * max_results > 16 {
            16
        } else {
            2 * max_results
        },
        total == if 16 * max_results < 32 {
            32
        } else if 16 * max_results > 128 {
            128
        } else {
            16 * max_results
        },
        0 <= k < dict.near_words(query.prefix, edits, limit).len(),
        (k + 1) * share <= total,
        0 <= i < dict.words_with_prefix(
            dict.near_words(query.prefix, edits, limit)[k],
            share,
        ).len(),
        ({
            let word = dict.near_words(query.prefix, edits, limit)[k];
            let longer = dict.words_with_prefix(word, share)[i];
            let prefix = query.prefix;
            &&& !continues(word, prefix)
            &&& prefix.len() > 0 && word.len() > 0
            &&& ascii_lower(prefix[0]) == ascii_lower(word[0]) || substitution_cost(
                prefix[0],
                word[0],
            ) <= 100 || prefix.len() > 1 && ascii_lower(prefix[1]) == ascii_lower(word[0])
                || word.len() > 1 && ascii_lower(prefix[0]) == ascii_lower(word[1])
            &&& longer.len() != word.len()
        }),
    ensures
        all_offers(dict, query, max_results).contains(
            Offer::Scored(
                dict.words_with_prefix(
                    dict.near_words(query.prefix, edits, limit)[k],
                    share,
                )[i],
            ),
        ),
{
    let prefix = query.prefix;
    let near = dict.near_words(prefix, edits, limit);
    let longer = dict.words_with_prefix(near[k], share);
    assert(fuzzy_limit(max_results) == limit);
    assert(expansion_share(max_results) == share);
    assert(expansion_limit(max_results) == total);
    assert(allowed_edits(prefix.len()) as u8 == edits);
    assert(starts_with(near[k], prefix) == continues(near[k], prefix));
    expansions_are_few(dict, prefix, near.take(k), max_results);
    assert((k + 1) * share == k * share + share) by (nonlinear_arith);
    let used = expansions_used(dict, prefix, near.take(k), max_results);
    assert(expansions_of(dict, near[k], used, max_results) == longer);
    fuzzy_offers_are_complete(dict, prefix, near, max_results, k, i);
    an_offer_of_a_part_is_offered(
        exact_offers(dict.words_with_prefix(prefix, exact_limit(max_results)), prefix),
        lowercase_offers(dict, prefix, max_results),
        frequent_offers(
            dict,
            most_frequent(query.lists.words, prefix, frequent_limit(max_results)),
        ),
        contraction_offers(dict, prefix),
        fuzzy_offers(dict, prefix, near, max_results),
        Offer::Scored(longer[i]),
    );
}

proof fn fuzzy_offers_have_a_reason<D: Dictionary>(
    dict: &D,
    prefix: Seq<char>,
    matches: Seq<Seq<char>>,
    max_results: nat,
    k: int,
)
    requires
        0 <= k < fuzzy_offers(dict, prefix, matches, max_results).len(),
    ensures
        fuzzy_offers(dict, prefix, matches, max_results)[k] matches Offer::Scored(word)
            && is_near_or_continues_a_correction(dict, prefix, matches, word),
    decreases matches.len(),
{
    let few = matches.drop_last();
    let earlier = fuzzy_offers(dict, prefix, few, max_results);
    let all = fuzzy_offers(dict, prefix, matches, max_results);
    let last = matches.last();
    assert(matches[matches.len() - 1] == last);
    if k < earlier.len() {
        fuzzy_offers_have_a_reason(dict, prefix, few, max_results, k);
        assert(all[k] == earlier[k]);
        let word = earlier[k].word();
        let j = choose|j: int|
            0 <= j < few.len() && #[trigger] is_reason_for(dict, prefix, few[j], word);
        assert(is_reason_for(dict, prefix, matches[j], word));
    } else if k == earlier.len() {
        assert(is_reason_for(dict, prefix, matches[matches.len() - 1], last));
    } else {
        let used = expansions_used(dict, prefix, few, max_results);
        let words = expansions_of(dict, last, used, max_results);
        let j = k - earlier.len() - 1;
        expansion_offers_have_a_reason(words, last, j);
        let word = expansion_offers(words, last)[j].word();
        assert(all[k] == expansion_offers(words, last)[j]);
        let left = expansion_limit(max_results) - used;
        let l: nat = if expansion_share(max_results) <= left {
            expansion_share(max_results)
        } else {
            left as nat
        };
        assert(dict.words_with_prefix(last, l).contains(word));
        assert(is_reason_for(dict, prefix, matches[matches.len() - 1], word));
    }
}

proof fn expansion_offers_have_a_reason(words: Seq<Seq<char>>, corrected: Seq<char>, k: int)
    requires
        0 <= k < expansion_offers(words, corrected).len(),
    ensures
        expansion_offers(words, corrected)[k] matches Offer::Scored(word) && words.contains(word),
    decreases words.len(),
{
    let few = expansion_offers(words.drop_last(), corrected);
    if k < few.len() {
        expansion_offers_have_a_reason(words.drop_last(), corrected, k);
        assert(expansion_offers(words, corrected)[k] == few[k]);
        let word = few[k].word();
        let j = choose|j: int| 0 <= j < words.drop_last().len() && words.drop_last()[j] == word;
        assert(words[j] == word);
    } else {
        assert(words[words.len() - 1] == words.last());
    }
}

/// Whether a near word is a reason to offer a word: it is that word, and starts with what was
/// typed or could be it by its first letters; or it could be it, does not start with it, and the
/// dictionary names the word as one that starts with the near one.
pub open spec fn is_reason_for<D: Dictionary>(
    dict: &D,
    prefix: Seq<char>,
    near: Seq<char>,
    word: Seq<char>,
) -> bool {
    let plausible = prefix.len() > 0 && near.len() > 0 && (ascii_lower(prefix[0]) == ascii_lower(
        near[0],
    ) || substitution_cost(prefix[0], near[0]) <= 100 || prefix.len() > 1 && ascii_lower(prefix[1])
        == ascii_lower(near[0]) || near.len() > 1 && ascii_lower(prefix[0]) == ascii_lower(
        near[1],
    ));
    ||| word == near && (continues(near, prefix) || plausible)
    ||| plausible && !continues(near, prefix) && exists|l: nat|
        (#[trigger] dict.words_with_prefix(near, l)).contains(word)
}

/// Whether one of the near words is a reason to offer a word.
pub open spec fn is_near_or_continues_a_correction<D: Dictionary>(
    dict: &D,
    prefix: Seq<char>,
    matches: Seq<Seq<char>>,
    word: Seq<char>,
) -> bool {
    exists|j: int|
        0 <= j < matches.len() && #[trigger] is_reason_for(dict, prefix, matches[j], word)
}

/// Nothing is offered without a reason. A contraction is what was typed with an apostrophe
/// within, of two or more characters that hold none. Any other word starts with what was typed,
/// or is a frequent word that begins with it in lowercase and that the dictionary holds, or is
/// near it, or starts with a correction of it.
pub proof fn every_offer_has_a_reason<D: Dictionary>(
    dict: &D,
    query: CompletionQuery,
    max_results: nat,
    k: int,
)
    requires
        0 <= k < all_offers(dict, query, max_results).len(),
    ensures
        ({
            let prefix = query.prefix;
            match all_offers(dict, query, max_results)[k] {
                Offer::Contraction(word) => {
                    &&& prefix.len() >= 2
                    &&& !prefix.contains('\'')
                    &&& word.contains('\'')
                    &&& exists|at: int|
                        1 <= at < prefix.len() && dict.capitalization(
                            lower_each(#[trigger] prefix.subrange(0, at)) + seq!['\'']
                                + lower_each(prefix.subrange(at, prefix.len() as int)),
                        ) == Some(word)
                },
                Offer::Scored(word) => {
                    ||| continues(word, prefix)
                    ||| begins_with(word, lowercase_text(prefix))
                    ||| exists|edits: u8, limit: nat|
                        is_near_or_continues_a_correction(
                            dict,
                            prefix,
                            #[trigger] dict.near_words(prefix, edits, limit),
                            word,
                        )
                },
            }
        }),
{
    let prefix = query.prefix;
    let front = offers_before_contractions(dict, query, max_results);
    let d = contraction_offers(dict, prefix);
    let edits = allowed_edits(prefix.len()) as u8;
    let near = dict.near_words(prefix, edits, fuzzy_limit(max_results));
    let e = fuzzy_offers(dict, prefix, near, max_results);
    let all = all_offers(dict, query, max_results);
    if k < front.len() {
        assert(all[k] == front[k]);
        offers_before_contractions_continue_the_prefix(dict, query, max_results, k);
    } else if k < front.len() + d.len() {
        let j = k - front.len();
        assert(all[k] == d[j]);
        let letters = lower_each(prefix);
        contractions_come_from_apostrophes(dict, letters, prefix.len(), j);
        let word = d[j].word();
        let at = choose|at: nat|
            1 <= at < prefix.len() && #[trigger] dict.capitalization(with_apostrophe(letters, at))
                == Some(word);
        let i = at as int;
        assert(with_apostrophe(letters, at) =~= lower_each(prefix.subrange(0, i)) + seq!['\'']
            + lower_each(prefix.subrange(i, prefix.len() as int)));
    } else {
        let j = k - front.len() - d.len();
        assert(all[k] == e[j]);
        fuzzy_offers_have_a_reason(dict, prefix, near, max_results, j);
        assert(is_near_or_continues_a_correction(
            dict,
            prefix,
            dict.near_words(prefix, edits, fuzzy_limit(max_results)),
            e[j].word(),
        ));
    }
}

proof fn exact_offers_are_filtered(words: Seq<Seq<char>>, prefix: Seq<char>)
    ensures
        exact_offers(words, prefix) == words.filter(
            |w: Seq<char>| continues(w, prefix),
        ).map_values(|w: Seq<char>| Offer::Scored(w)),
    decreases words.len(),
{
    reveal(Seq::filter);
    let pred = |w: Seq<char>| continues(w, prefix);
    if words.len() > 0 {
        exact_offers_are_filtered(words.drop_last(), prefix);
        assert(starts_with(words.last(), prefix) == continues(words.last(), prefix));
    }
    assert(exact_offers(words, prefix) =~= words.filter(pred).map_values(
        |w: Seq<char>| Offer::Scored(w),
    ));
}

proof fn frequent_offers_are_filtered<D: Dictionary>(dict: &D, words: Seq<Seq<char>>)
    ensures
        frequent_offers(dict, words) == words.filter(|w: Seq<char>| dict.has_word(w)).map_values(
            |w: Seq<char>| Offer::Scored(w),
        ),
    decreases words.len(),
{
    reveal(Seq::filter);
    let pred = |w: Seq<char>| dict.has_word(w);
    if words.len() > 0 {
        frequent_offers_are_filtered(dict, words.drop_last());
    }
    assert(frequent_offers(dict, words) =~= words.filter(pred).map_values(
        |w: Seq<char>| Offer::Scored(w),
    ));
}

/// The words that the dictionary names for what was typed are offered first, then those that it
/// names for the lowercase form, if that is another, of both those that start with what was
/// typed; then the frequent words that it holds, each in the order in which they are named; then
/// the contractions; then the words near what was typed and those that start with them.
pub proof fn offers_come_in_their_order<D: Dictionary>(
    dict: &D,
    query: CompletionQuery,
    max_results: nat,
    limit: nat,
    frequent_limit: nat,
) -> (rest: int)
    requires
        limit == if 32 * max_results < 64 {
            64
        } else if 32 * max_results > 256 {
            256
        } else {
            32 * max_results
        },
        frequent_limit == if 2 * max_results < 32 {
            32
        } else if 2 * max_results > 128 {
            128
        } else {
            2 * max_results
        },
    ensures
        ({
            let prefix = query.prefix;
            let lower = lower_each(prefix);
            let scored = |w: Seq<char>| Offer::Scored(w);
            let named = dict.words_with_prefix(prefix, limit).filter(
                |w: Seq<char>| continues(w, prefix),
            ).map_values(scored);
            let named_lower = if lower == prefix {
                Seq::empty()
            } else {
                dict.words_with_prefix(lower, limit).filter(
                    |w: Seq<char>| continues(w, prefix),
                ).map_values(scored)
            };
            let frequent = most_frequent(query.lists.words, prefix, frequent_limit).filter(
                |w: Seq<char>| dict.has_word(w),
            ).map_values(scored);
            let offers = all_offers(dict, query, max_results);
            let front = named + named_lower + frequent;
            &&& front.len() <= rest <= offers.len()
            &&& offers.subrange(0, front.len() as int) == front
            &&& forall|k: int|
                front.len() <= k < rest ==> #[trigger] offers[k] is Contraction
            &&& forall|k: int| rest <= k < offers.len() ==> #[trigger] offers[k] is Scored
        }),
{
    let prefix = query.prefix;
    let lower = lower_each(prefix);
    let scored = |w: Seq<char>| Offer::Scored(w);
    assert(exact_limit(max_results) == limit);
    assert(self::frequent_limit(max_results) == frequent_limit);
    exact_offers_are_filtered(dict.words_with_prefix(prefix, limit), prefix);
    exact_offers_are_filtered(dict.words_with_prefix(lower, limit), prefix);
    let listed = most_frequent(query.lists.words, prefix, frequent_limit);
    frequent_offers_are_filtered(dict, listed);
    let a = exact_offers(dict.words_with_prefix(prefix, limit), prefix);
    let b = lowercase_offers(dict, prefix, max_results);
    let c = frequent_offers(dict, listed);
    let d = contraction_offers(dict, prefix);
    let near = dict.near_words(
        prefix,
        allowed_edits(prefix.len()) as u8,
        fuzzy_limit(max_results),
    );
    let e = fuzzy_offers(dict, prefix, near, max_results);
    let offers = all_offers(dict, query, max_results);
    let front = a + b + c;
    assert(a =~= dict.words_with_prefix(prefix, limit).filter(
        |w: Seq<char>| continues(w, prefix),
    ).map_values(scored));
    assert(c =~= listed.filter(|w: Seq<char>| dict.has_word(w)).map_values(scored));
    assert(b =~= if lower == prefix {
        Seq::empty()
    } else {
        dict.words_with_prefix(lower, limit).filter(
            |w: Seq<char>| continues(w, prefix),
        ).map_values(scored)
    });
    let rest = (front.len() + d.len()) as int;
    assert(offers.subrange(0, front.len() as int) =~= front);
    assert forall|k: int| front.len() <= k < rest implies #[trigger] offers[k] is Contraction by {
        assert(offers[k] == d[k - front.len()]);
        contractions_come_from_apostrophes(dict, lower, prefix.len(), k - front.len());
    }
    assert forall|k: int| rest <= k < offers.len() implies #[trigger] offers[k] is Scored by {
        assert(offers[k] == e[k - rest]);
        fuzzy_offers_have_a_reason(dict, prefix, near, max_results, k - rest);
    }
    rest
}

} // verus!
