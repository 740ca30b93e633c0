//! What a candidate costs: how far it is from what was typed, against how likely it is.

use vstd::prelude::*;
use vstd::arithmetic::div_mod::{lemma_fundamental_div_mod, lemma_fundamental_div_mod_converse};
use crate::chars::{ascii_lower, lowercase_text};
use crate::completion::matching::{
    first_letter_matches, same_first_letter, same_word, same_word_ignore_case,
    CompletionPrefixScore,
};
use crate::completion::stats::{normalized_completion_word, CompletionContext, ContextView};
use crate::keyboard_distance::INSERT_DELETE_COST;
use crate::word_frequency::{
    bigram_rank, frequency_rank, listed_pair_rank, listed_rank, FrequencyList,
};

verus! {

/// One in the fixed-point numbers in which the logarithm is taken: 2 to the power of 48.
pub const FIXED_ONE: u128 = 281474976710656;

/// The rank from which on the penalty is 1 rather than 0: the 60th root of e.
pub const FIRST_PENALTY_STEP: u128 = 286205538164720;

/// The ratio of a penalty step to the one before it: the 30th root of e.
pub const PENALTY_STEP_RATIO: u128 = 291015602997494;

/// A number of steps that no rank reaches.
pub const PENALTY_STEPS: usize = 700;

/// Penalty for words absent from the frequency list. Larger than the penalty of the
/// least-frequent listed word, so any listed word is treated as more likely than an unlisted one,
/// but small enough that a 2-3 edit gap can still overcome it.
pub const UNKNOWN_FREQUENCY_PENALTY: i32 = 450;

/// Cost shaved off the word the user actually typed. Keeps a *common* typed word
/// on top of a slightly-more-common neighbor (so "do" isn't replaced by "to"),
/// while still letting a far-more-common neighbor win when the typed word is rare
/// (so "ruse" yields "rise").
pub const TYPED_WORD_BONUS: i32 = 50;

/// Per-occurrence cost shaved off a word already used in the document, capped so a
/// heavily-repeated word can't override a large keyboard-distance gap.
pub const LOCAL_USE_BONUS_PER_COUNT: i32 = 60;

pub const MAX_LOCAL_USE_BONUS: i32 = 240;

/// Per-occurrence cost shaved off a word seen following the previous word in the
/// document (document-local bigram context), capped like the local-use bonus.
pub const PREVIOUS_WORD_BONUS_PER_COUNT: i32 = 60;

pub const MAX_PREVIOUS_WORD_BONUS: i32 = 240;

/// Strongest cost shaved off a word that forms a known English collocation with
/// the previous word (e.g. "new york"). Scaled down for rarer pairs.
pub const GLOBAL_BIGRAM_BONUS_MAX: i32 = 200;

pub const GLOBAL_BIGRAM_BONUS_MIN: i32 = 50;

pub const GLOBAL_BIGRAM_LIST_LEN: u32 = 30000;

/// How many ranks lower the collocation bonus by one.
pub const RANKS_PER_BONUS_UNIT: u32 = 150;

/// Extra cost for a correction that changes the first letter of what was typed.
/// Phone users rarely fat-finger the first keystroke, so a same-first-letter
/// substitution ("ruse"->"rise") is preferred over a first-letter-changing edit
/// ("ruse"->"use") even when the latter is a more common word. Sized from real data
/// to sit above ~97 (so "use", rank 60 and one deletion away, can't beat "rise" for
/// "ruse") and below ~148 (so "and" still beats the first-letter-preserving "send"
/// for "snd").
pub const FIRST_LETTER_MISMATCH_PENALTY: i32 = 120;

/// Bonus for a "high-confidence short correction": a short typed string (<=3 chars)
/// one keyboard edit away from a same-length *common* word that isn't a prefix of
/// what was typed (e.g. "teh"->"the", "adn"->"and"). This nudges a confident short
/// fat-finger fix up the list, but is intentionally small so a clearly more frequent
/// word still wins.
/// Kept under the protections (<~76) so a common typed word isn't flipped to a
/// same-length neighbor (e.g. "do" stays above "to").
pub const HIGH_CONFIDENCE_SHORT_CORRECTION_BONUS: i32 = 40;

/// The longest string that counts as short there.
pub const SHORT_CORRECTION_LEN: usize = 3;

/// `combined_cost` for an apostrophe-restored contraction ("im"->"I'm") when the
/// typed letters are NOT themselves a word: the contraction is almost certainly
/// the intent, so rank it at the top (well below the cost of any fuzzy neighbor).
pub const CONTRACTION_NONWORD_PREFIX_COST: i32 = 30;

/// `combined_cost` for an apostrophe-restored contraction when the typed letters
/// ARE also a valid word ("were"->"we're", "id"->"I'd", "cant"->"can't"). The
/// contraction is offered but priced so the real typed word stays competitive.
pub const CONTRACTION_WORD_PREFIX_COST: i32 = 200;

/// The `k`-th penalty step, `e ^ ((2 * k + 1) / 60)` in fixed point: `30 * ln(x)` rounds to more
/// than `k` exactly where `x` is at least this step.
pub open spec fn penalty_step(k: nat) -> nat
    decreases k,
{
    if k == 0 {
        FIRST_PENALTY_STEP as nat
    } else {
        penalty_step((k - 1) as nat) * PENALTY_STEP_RATIO as nat / FIXED_ONE as nat
    }
}

/// The number of penalty steps, of the first `limit`, up to the last one that `x` reaches.
pub open spec fn steps_reached(x: nat, limit: nat) -> nat
    decreases limit,
{
    if limit == 0 || penalty_step((limit - 1) as nat) <= x {
        limit
    } else {
        steps_reached(x, (limit - 1) as nat)
    }
}

/// The integer nearest to `30 * ln(n)`.
///
/// It grows slowly among common words (small gaps near the top of the list) but separates common
/// words from rare ones, letting a much more frequent word reachable by a small keyboard edit
/// outrank a rare exact match without flipping two similarly-common words.
pub open spec fn log_penalty(n: nat) -> nat {
    steps_reached(n * FIXED_ONE as nat, PENALTY_STEPS as nat)
}

/// What a word's rank in the frequency list costs; `u32::MAX` marks an unlisted word.
pub open spec fn rank_cost(rank: u32) -> int {
    if rank == u32::MAX {
        UNKNOWN_FREQUENCY_PENALTY as int
    } else {
        log_penalty((rank + 1) as nat) as int
    }
}

/// A product with the step ratio, divided back into fixed point.
fn next_penalty_step(step: u128) -> (next: u128)
    requires
        step <= 0x1_0000_0000 * FIXED_ONE,
    ensures
        next == step as nat * PENALTY_STEP_RATIO as nat / FIXED_ONE as nat,
{
    let whole = step / FIXED_ONE;
    let rest = step % FIXED_ONE;
    proof {
        let one = FIXED_ONE as int;
        let r = PENALTY_STEP_RATIO as int;
        let w = whole as int;
        let s = rest as int;
        lemma_fundamental_div_mod(step as int, one);
        assert(w <= 0x1_0000_0000) by (nonlinear_arith)
            requires
                step == one * w + s,
                0 <= s,
                one == 281474976710656,
                step <= 0x1_0000_0000 * one,
        ;
        let q = (s * r) / one;
        let m = (s * r) % one;
        lemma_fundamental_div_mod(s * r, one);
        assert(step * r == (w * r + q) * one + m) by (nonlinear_arith)
            requires
                step == one * w + s,
                s * r == one * q + m,
        ;
        lemma_fundamental_div_mod_converse(step * r, one, w * r + q, m);
        assert(w * r <= 0x1_0000_0000 * 291015602997494) by (nonlinear_arith)
            requires
                0 <= w <= 0x1_0000_0000,
                r == 291015602997494,
        ;
        assert(0 <= s * r <= 281474976710656 * 291015602997494) by (nonlinear_arith)
            requires
                0 <= s < 281474976710656,
                r == 291015602997494,
        ;
        assert(q <= s * r) by (nonlinear_arith)
            requires
                s * r == one * q + m,
                one == 281474976710656,
                0 <= m,
                0 <= s * r,
        ;
    }
    whole * PENALTY_STEP_RATIO + rest * PENALTY_STEP_RATIO / FIXED_ONE
}

proof fn penalty_steps_grow(k: nat)
    ensures
        penalty_step(k) <= penalty_step(k + 1),
        30 * penalty_step(k + 1) >= 31 * penalty_step(k) - 30,
{
    let h = penalty_step(k) as int;
    let r = PENALTY_STEP_RATIO as int;
    let one = FIXED_ONE as int;
    let n = penalty_step(k + 1) as int;
    assert(n == h * r / one);
    lemma_fundamental_div_mod(h * r, one);
    let m = (h * r) % one;
    assert(n >= h && 30 * n >= 31 * h - 30) by (nonlinear_arith)
        requires
            h * r == one * n + m,
            0 <= m < one,
            one == 281474976710656,
            r == 291015602997494,
            h >= 0,
    ;
}

proof fn penalty_steps_are_sorted(k: nat, l: nat)
    requires
        k <= l,
    ensures
        penalty_step(k) <= penalty_step(l),
    decreases l,
{
    if k < l {
        penalty_steps_are_sorted(k, (l - 1) as nat);
        penalty_steps_grow((l - 1) as nat);
    }
}

proof fn reached_steps_are_the_first(x: nat, limit: nat, k: nat)
    requires
        k <= limit,
        k > 0 ==> penalty_step((k - 1) as nat) <= x,
        k < limit ==> penalty_step(k) > x,
    ensures
        steps_reached(x, limit) == k,
    decreases limit,
{
    if k < limit {
        penalty_steps_are_sorted(k, (limit - 1) as nat);
        if k < limit - 1 {
            reached_steps_are_the_first(x, (limit - 1) as nat, k);
        } else {
            reached_steps_are_the_first(x, k, k);
        }
    }
}

/// Frequency penalty in keyboard-edit-cost units. `u32::MAX` marks an unlisted word.
pub fn frequency_penalty(rank: u32) -> (penalty: i32)
    ensures
        penalty == rank_cost(rank),
        0 <= penalty <= PENALTY_STEPS,
{
    if rank == u32::MAX {
        return UNKNOWN_FREQUENCY_PENALTY;
    }
    let scaled = (rank as u128 + 1) * FIXED_ONE;
    let mut penalty: i32 = 0;
    let mut step: u128 = FIRST_PENALTY_STEP;
    while penalty < 700 && step <= scaled
        invariant
            0 <= penalty <= 700,
            scaled <= 0x1_0000_0000 * FIXED_ONE,
            step == penalty_step(penalty as nat),
            penalty > 0 ==> penalty_step((penalty - 1) as nat) <= scaled,
        decreases 700 - penalty,
    {
        step = next_penalty_step(step);
        penalty += 1;
    }
    proof {
        reached_steps_are_the_first(scaled as nat, PENALTY_STEPS as nat, penalty as nat);
    }
    penalty
}

/// A bonus that grows with a count up to a limit.
pub open spec fn counted_bonus(count: nat, per_count: int, limit: int) -> int {
    if count * per_count <= limit {
        count * per_count
    } else {
        limit
    }
}

/// What a word gains from its uses in the document.
pub fn local_use_bonus(local_frequency: usize) -> (bonus: i32)
    ensures
        bonus == counted_bonus(
            local_frequency as nat,
            LOCAL_USE_BONUS_PER_COUNT as int,
            MAX_LOCAL_USE_BONUS as int,
        ),
        0 <= bonus <= MAX_LOCAL_USE_BONUS,
{
    if local_frequency <= 4 {
        local_frequency as i32 * LOCAL_USE_BONUS_PER_COUNT
    } else {
        MAX_LOCAL_USE_BONUS
    }
}

/// What a word gains from its uses after the previous word in the document.
pub fn previous_word_bonus(previous_word_frequency: usize) -> (bonus: i32)
    ensures
        bonus == counted_bonus(
            previous_word_frequency as nat,
            PREVIOUS_WORD_BONUS_PER_COUNT as int,
            MAX_PREVIOUS_WORD_BONUS as int,
        ),
        0 <= bonus <= MAX_PREVIOUS_WORD_BONUS,
{
    if previous_word_frequency <= 4 {
        previous_word_frequency as i32 * PREVIOUS_WORD_BONUS_PER_COUNT
    } else {
        MAX_PREVIOUS_WORD_BONUS
    }
}

/// Whether the scaled bonus of a rank that lies half-way between two integers is rounded down.
///
/// The bonus `200 * (1 - rank / 30000)` is taken in single precision and rounded to the nearest
/// integer, upwards where it lies half-way. At these half-way ranks the single-precision value
/// falls just short of the half.
pub open spec fn is_short_of_half(rank: u32) -> bool {
    ||| rank == 8025
    ||| rank == 11775
    ||| rank == 11925
    ||| rank == 12075
    ||| rank == 12225
    ||| rank == 12375
    ||| rank == 15975
    ||| rank == 16125
    ||| rank == 17925
    ||| rank == 18075
    ||| rank == 19725
    ||| rank == 19875
    ||| rank == 21675
    ||| rank == 21825
    ||| rank == 21975
    ||| rank == 22125
}

/// How much less than the strongest bonus a rank gets: `rank / 150` to the nearest integer.
pub open spec fn bonus_loss(rank: u32) -> int {
    if is_short_of_half(rank) {
        (rank + 75) / 150
    } else {
        (rank + 74) / 150
    }
}

/// What a word gains from forming a known collocation with the previous word; `u32::MAX` marks
/// an unlisted pair.
pub open spec fn collocation_bonus(rank: u32) -> int {
    if rank == u32::MAX {
        0
    } else if GLOBAL_BIGRAM_BONUS_MAX - bonus_loss(rank) >= GLOBAL_BIGRAM_BONUS_MIN {
        GLOBAL_BIGRAM_BONUS_MAX - bonus_loss(rank)
    } else {
        GLOBAL_BIGRAM_BONUS_MIN as int
    }
}

/// What a word gains from forming a known collocation with the previous word; `u32::MAX` marks
/// an unlisted pair.
pub fn global_bigram_bonus(global_bigram_rank: u32) -> (bonus: i32)
    ensures
        bonus == collocation_bonus(global_bigram_rank),
        0 <= bonus <= GLOBAL_BIGRAM_BONUS_MAX,
{
    if global_bigram_rank == u32::MAX {
        return 0;
    }
    if global_bigram_rank >= GLOBAL_BIGRAM_LIST_LEN {
        return GLOBAL_BIGRAM_BONUS_MIN;
    }
    let short_of_half = matches!(
        global_bigram_rank,
        8025 | 11775 | 11925 | 12075 | 12225 | 12375 | 15975 | 16125 | 17925 | 18075 | 19725 | 19875
        | 21675 | 21825 | 21975 | 22125
    );
    let rounding: u32 = if short_of_half {
        75
    } else {
        74
    };
    let loss = (global_bigram_rank + rounding) / RANKS_PER_BONUS_UNIT;
    let scaled = GLOBAL_BIGRAM_BONUS_MAX - loss as i32;
    if scaled >= GLOBAL_BIGRAM_BONUS_MIN {
        scaled
    } else {
        GLOBAL_BIGRAM_BONUS_MIN
    }
}

/// Blended ranking cost (lower is better): keyboard-edit distance plus a frequency penalty,
/// minus bonuses for the typed word and document/collocation context.
pub open spec fn blended_cost(
    distance: u16,
    typed_word: bool,
    first_letter_match: bool,
    high_confidence_short_correction: bool,
    global_frequency_rank: u32,
    local_frequency: nat,
    previous_word_frequency: nat,
    global_bigram_rank: u32,
) -> int {
    distance + rank_cost(global_frequency_rank) + (if first_letter_match {
        0int
    } else {
        FIRST_LETTER_MISMATCH_PENALTY as int
    }) - (if typed_word {
        TYPED_WORD_BONUS as int
    } else {
        0int
    }) - (if high_confidence_short_correction {
        HIGH_CONFIDENCE_SHORT_CORRECTION_BONUS as int
    } else {
        0int
    }) - counted_bonus(
        local_frequency,
        LOCAL_USE_BONUS_PER_COUNT as int,
        MAX_LOCAL_USE_BONUS as int,
    ) - counted_bonus(
        previous_word_frequency,
        PREVIOUS_WORD_BONUS_PER_COUNT as int,
        MAX_PREVIOUS_WORD_BONUS as int,
    ) - collocation_bonus(global_bigram_rank)
}

/// Blended primary ranking cost (lower is better): keyboard-edit distance plus a
/// frequency penalty, minus bonuses for the typed word and document/collocation
/// context. This is the trade-off of "how likely is this word"
/// (frequency + context) against "how far is it from what was typed" (edit cost),
/// so a common word a fat-finger away can beat a rare exact or prefix match.
pub fn combined_completion_cost(
    distance: u16,
    typed_word: bool,
    first_letter_match: bool,
    high_confidence_short_correction: bool,
    global_frequency_rank: u32,
    local_frequency: usize,
    previous_word_frequency: usize,
    global_bigram_rank: u32,
) -> (cost: i32)
    ensures
        cost == blended_cost(
            distance,
            typed_word,
            first_letter_match,
            high_confidence_short_correction,
            global_frequency_rank,
            local_frequency as nat,
            previous_word_frequency as nat,
            global_bigram_rank,
        ),
{
    let mismatch = if first_letter_match {
        0
    } else {
        FIRST_LETTER_MISMATCH_PENALTY
    };
    let typed = if typed_word {
        TYPED_WORD_BONUS
    } else {
        0
    };
    let short = if high_confidence_short_correction {
        HIGH_CONFIDENCE_SHORT_CORRECTION_BONUS
    } else {
        0
    };
    distance as i32 + frequency_penalty(global_frequency_rank) + mismatch - typed - short
        - local_use_bonus(local_frequency) - previous_word_bonus(previous_word_frequency)
        - global_bigram_bonus(global_bigram_rank)
}

/// What a candidate is ranked by.
#[derive(Debug, Clone, Copy, PartialEq, Eq, Structural)]
pub struct CompletionSortRank {
    /// Primary ranking key: keyboard-edit cost blended with frequency and context
    /// (lower is better). See [`combined_completion_cost`].
    pub combined_cost: i32,
    pub distance: u16,
    pub exact_prefix: bool,
    pub typed_word: bool,
    pub first_letter_match: bool,
    pub is_common: bool,
    pub remaining_ambiguity: usize,
    pub replacement_len: usize,
}

/// The frequency lists of a language.
pub struct FrequencyLists {
    /// Words, the most frequent first.
    pub words: FrequencyList,
    /// Collocations of two words, the most frequent first.
    pub pairs: FrequencyList,
}

/// [`FrequencyLists`] in mathematical terms.
pub struct ListsView {
    pub words: Seq<Seq<char>>,
    pub pairs: Seq<Seq<char>>,
}

impl View for FrequencyLists {
    type V = ListsView;

    open spec fn view(&self) -> ListsView {
        ListsView { words: self.words@, pairs: self.pairs@ }
    }
}

/// A rank, or the mark of an unlisted entry.
pub open spec fn rank_or_unlisted(rank: Option<u32>) -> u32 {
    match rank {
        Some(r) => r,
        None => u32::MAX,
    }
}

/// A confident short fat-finger fix: a few typed characters, a same-length common word one edit
/// away that isn't a prefix of what was typed (e.g. "teh"->"the").
pub open spec fn is_short_correction(
    query: Seq<char>,
    candidate: Seq<char>,
    score: CompletionPrefixScore,
    is_common: bool,
) -> bool {
    &&& query.len() <= SHORT_CORRECTION_LEN
    &&& candidate.len() == query.len()
    &&& !score.exact_prefix
    &&& score.distance <= INSERT_DELETE_COST
    &&& is_common
}

/// What a candidate is ranked by.
pub open spec fn sort_rank(
    lists: ListsView,
    query: Seq<char>,
    candidate: Seq<char>,
    score: CompletionPrefixScore,
    is_common: bool,
    context: ContextView,
) -> CompletionSortRank {
    let word = lowercase_text(candidate);
    let pair_rank = match context.previous_word {
        Some(previous) => listed_pair_rank(lists.pairs, previous, word),
        None => None,
    };
    CompletionSortRank {
        combined_cost: blended_cost(
            score.distance,
            same_word(query, candidate),
            same_first_letter(query, candidate),
            is_short_correction(query, candidate, score, is_common),
            rank_or_unlisted(listed_rank(lists.words, word)),
            context.local_total(word),
            context.previous_pair_total(word),
            rank_or_unlisted(pair_rank),
        ) as i32,
        distance: score.distance,
        exact_prefix: score.exact_prefix,
        typed_word: same_word(query, candidate),
        first_letter_match: same_first_letter(query, candidate),
        is_common,
        remaining_ambiguity: if candidate.len() >= score.matched_prefix_len {
            (candidate.len() - score.matched_prefix_len) as usize
        } else {
            0
        },
        replacement_len: candidate.len() as usize,
    }
}

/// What a candidate is ranked by.
pub fn completion_sort_rank(
    lists: &FrequencyLists,
    query: &[char],
    candidate: &[char],
    prefix_score: CompletionPrefixScore,
    is_common: bool,
    context: &CompletionContext,
) -> (rank: CompletionSortRank)
    ensures
        rank == sort_rank(lists@, query@, candidate@, prefix_score, is_common, context@),
{
    let normalized_candidate = normalized_completion_word(candidate);
    let word = normalized_candidate.as_str();
    let previous_word_frequency = context.previous_pair_count(word);
    let typed_word = same_word_ignore_case(query, candidate);
    let first_letter_match = first_letter_matches(query, candidate);
    // A confident short fat-finger fix: <=3 typed chars, a same-length common word
    // one edit away that isn't a prefix of what was typed (e.g. "teh"->"the").
    let high_confidence_short_correction = query.len() <= SHORT_CORRECTION_LEN && candidate.len()
        == query.len() && !prefix_score.exact_prefix && prefix_score.distance <= INSERT_DELETE_COST
        && is_common;
    let local_frequency = context.local_count(word);
    let global_bigram_rank: u32 = match &context.previous_word {
        Some(previous_word) => match bigram_rank(&lists.pairs, previous_word.as_str(), word) {
            Some(rank) => rank,
            None => u32::MAX,
        },
        None => u32::MAX,
    };
    let global_frequency_rank: u32 = match frequency_rank(&lists.words, word) {
        Some(rank) => rank,
        None => u32::MAX,
    };
    CompletionSortRank {
        combined_cost: combined_completion_cost(
            prefix_score.distance,
            typed_word,
            first_letter_match,
            high_confidence_short_correction,
            global_frequency_rank,
            local_frequency,
            previous_word_frequency,
            global_bigram_rank,
        ),
        distance: prefix_score.distance,
        exact_prefix: prefix_score.exact_prefix,
        typed_word,
        first_letter_match,
        is_common,
        remaining_ambiguity: candidate.len().saturating_sub(prefix_score.matched_prefix_len),
        replacement_len: candidate.len(),
    }
}

proof fn penalty_steps_double(k: nat)
    ensures
        penalty_step(k + 22) >= 2 * penalty_step(k),
{
    penalty_step_is_large(k);
    penalty_steps_grow(k);
    penalty_steps_grow(k + 1);
    penalty_steps_grow(k + 2);
    penalty_steps_grow(k + 3);
    penalty_steps_grow(k + 4);
    penalty_steps_grow(k + 5);
    penalty_steps_grow(k + 6);
    penalty_steps_grow(k + 7);
    penalty_steps_grow(k + 8);
    penalty_steps_grow(k + 9);
    penalty_steps_grow(k + 10);
    penalty_steps_grow(k + 11);
    penalty_steps_grow(k + 12);
    penalty_steps_grow(k + 13);
    penalty_steps_grow(k + 14);
    penalty_steps_grow(k + 15);
    penalty_steps_grow(k + 16);
    penalty_steps_grow(k + 17);
    penalty_steps_grow(k + 18);
    penalty_steps_grow(k + 19);
    penalty_steps_grow(k + 20);
    penalty_steps_grow(k + 21);
}

proof fn penalty_step_is_large(k: nat)
    ensures
        penalty_step(k) > FIXED_ONE,
{
    penalty_steps_are_sorted(0, k);
}

/// A more frequent word never costs more for its frequency.
pub proof fn rarer_words_cost_no_less(rank: u32, rarer: u32)
    requires
        rank <= rarer < u32::MAX,
    ensures
        rank_cost(rank) <= rank_cost(rarer),
{
    let x = ((rank + 1) * FIXED_ONE) as nat;
    let y = ((rarer + 1) * FIXED_ONE) as nat;
    assert(x <= y) by (nonlinear_arith)
        requires
            rank <= rarer,
            x == (rank + 1) * 281474976710656,
            y == (rarer + 1) * 281474976710656,
    ;
    steps_reached_grow(x, y, PENALTY_STEPS as nat);
}

proof fn steps_reached_grow(x: nat, y: nat, limit: nat)
    requires
        x <= y,
    ensures
        steps_reached(x, limit) <= steps_reached(y, limit) <= limit,
    decreases limit,
{
    if limit > 0 {
        steps_reached_grow(x, y, (limit - 1) as nat);
    }
}

/// The most frequent word costs nothing for its frequency.
pub proof fn the_most_frequent_word_is_free()
    ensures
        rank_cost(0) == 0,
{
    reached_steps_are_the_first(FIXED_ONE as nat, PENALTY_STEPS as nat, 0);
}

/// Every word of a list of up to a million words is treated as more likely than a word that the
/// list lacks.
pub proof fn listed_words_cost_less_than_unlisted_ones(rank: u32)
    requires
        rank < 1_000_000,
    ensures
        rank_cost(rank) < rank_cost(u32::MAX),
{
    penalty_steps_after_doublings(20);
    let x = ((rank + 1) * FIXED_ONE) as nat;
    assert(doubled(20) == 1048576) by {
        reveal_with_fuel(doubled, 21);
    }
    assert(penalty_step(440) > x) by (nonlinear_arith)
        requires
            penalty_step(440) > 1048576 * 281474976710656,
            x == (rank + 1) * 281474976710656,
            rank < 1_000_000,
    ;
    steps_reached_stay_below(x, PENALTY_STEPS as nat, 440);
}

/// One, doubled `n` times.
spec fn doubled(n: nat) -> nat
    decreases n,
{
    if n == 0 {
        1
    } else {
        2 * doubled((n - 1) as nat)
    }
}

proof fn penalty_steps_after_doublings(n: nat)
    ensures
        penalty_step(22 * n) > doubled(n) * FIXED_ONE,
    decreases n,
{
    if n == 0 {
        penalty_step_is_large(0);
    } else {
        let m = (n - 1) as nat;
        penalty_steps_after_doublings(m);
        penalty_steps_double(22 * m);
        assert(22 * n == 22 * m + 22);
        let d = doubled(m);
        assert(2 * (d * 281474976710656) == (2 * d) * 281474976710656) by (nonlinear_arith);
    }
}

proof fn steps_reached_stay_below(x: nat, limit: nat, k: nat)
    requires
        penalty_step(k) > x,
    ensures
        steps_reached(x, limit) <= k || limit <= k,
    decreases limit,
{
    if limit > k {
        penalty_steps_are_sorted(k, (limit - 1) as nat);
        if limit - 1 > k {
            steps_reached_stay_below(x, (limit - 1) as nat, k);
        } else {
            steps_reached_is_at_most(x, k);
        }
    }
}

proof fn steps_reached_is_at_most(x: nat, limit: nat)
    ensures
        steps_reached(x, limit) <= limit,
    decreases limit,
{
    if limit > 0 {
        steps_reached_is_at_most(x, (limit - 1) as nat);
    }
}

/// A rarer collocation never gains more than a more frequent one, and every listed one gains
/// more than an unlisted one.
pub proof fn rarer_collocations_gain_no_more(rank: u32, rarer: u32)
    requires
        rank <= rarer < u32::MAX,
    ensures
        collocation_bonus(rarer) <= collocation_bonus(rank),
        collocation_bonus(u32::MAX) < collocation_bonus(rarer),
{
}

/// More uses in the document, after the previous word or anywhere, never make a word dearer, and
/// no number of uses gains more than the limits.
pub proof fn uses_never_raise_the_cost(
    distance: u16,
    typed_word: bool,
    first_letter_match: bool,
    short_correction: bool,
    frequency_rank: u32,
    fewer: nat,
    more: nat,
    fewer_after: nat,
    more_after: nat,
    pair_rank: u32,
)
    requires
        fewer <= more,
        fewer_after <= more_after,
    ensures
        ({
            let dear = blended_cost(
                distance,
                typed_word,
                first_letter_match,
                short_correction,
                frequency_rank,
                fewer,
                fewer_after,
                pair_rank,
            );
            let cheap = blended_cost(
                distance,
                typed_word,
                first_letter_match,
                short_correction,
                frequency_rank,
                more,
                more_after,
                pair_rank,
            );
            dear - MAX_LOCAL_USE_BONUS - MAX_PREVIOUS_WORD_BONUS <= cheap <= dear
        }),
{
}

/// A listed collocation gains 200 less one for each 150 ranks, to the nearest whole number, but
/// never less than 50; an unlisted one gains nothing.
pub proof fn collocations_gain_by_their_rank(rank: u32)
    ensures
        collocation_bonus(u32::MAX) == 0,
        rank < u32::MAX ==> 50 <= collocation_bonus(rank) <= 200,
        rank < u32::MAX && collocation_bonus(rank) > 50 ==> -75 <= 150 * (200 - collocation_bonus(
            rank,
        )) - rank <= 75,
        rank < u32::MAX && collocation_bonus(rank) == 50 ==> 150 * 150 - 75 <= rank,
{
}

/// The blended cost adds the distance, the cost of the frequency rank, and 120 where the first
/// letter differs. It takes off 50 for what was typed, 40 for a confident short correction, 60
/// for each use in the document and for each use after the previous word, up to 240 each, and
/// what the collocation gains.
pub proof fn the_blended_cost_adds_up(
    distance: u16,
    typed_word: bool,
    first_letter_match: bool,
    short_correction: bool,
    frequency_rank: u32,
    uses: nat,
    uses_after: nat,
    pair_rank: u32,
)
    ensures
        blended_cost(
            distance,
            typed_word,
            first_letter_match,
            short_correction,
            frequency_rank,
            uses,
            uses_after,
            pair_rank,
        ) == distance + rank_cost(frequency_rank) + (if first_letter_match {
            0int
        } else {
            120
        }) - (if typed_word {
            50int
        } else {
            0
        }) - (if short_correction {
            40int
        } else {
            0
        }) - (if uses < 4 {
            60 * uses
        } else {
            240
        }) - (if uses_after < 4 {
            60 * uses_after
        } else {
            240
        }) - collocation_bonus(pair_rank),
        rank_cost(u32::MAX) == 450,
{
}

/// What a candidate is ranked by tells what was typed, how it matches it, and what the lists and
/// the document say of its lowercase form.
pub proof fn a_rank_tells_what_it_is_made_of(
    lists: ListsView,
    query: Seq<char>,
    candidate: Seq<char>,
    score: CompletionPrefixScore,
    is_common: bool,
    context: ContextView,
)
    requires
        query.len() <= usize::MAX,
        candidate.len() <= usize::MAX,
    ensures
        ({
            let rank = sort_rank(lists, query, candidate, score, is_common, context);
            let word = lowercase_text(candidate);
            let typed = query.len() == candidate.len() && forall|i: int|
                0 <= i < query.len() ==> ascii_lower(#[trigger] query[i]) == ascii_lower(
                    candidate[i],
                );
            let same_start = query.len() > 0 && candidate.len() > 0 && ascii_lower(query[0])
                == ascii_lower(candidate[0]);
            let short = query.len() <= 3 && candidate.len() == query.len() && !score.exact_prefix
                && score.distance <= 100 && is_common;
            let frequency = match listed_rank(lists.words, word) {
                Some(r) => r,
                None => u32::MAX,
            };
            let pair = match context.previous_word {
                Some(previous) => match listed_pair_rank(lists.pairs, previous, word) {
                    Some(r) => r,
                    None => u32::MAX,
                },
                None => u32::MAX,
            };
            let after = match context.previous_word {
                Some(previous) => context.pair_total(previous, word),
                None => 0nat,
            };
            &&& rank.combined_cost == blended_cost(
                score.distance,
                typed,
                same_start,
                short,
                frequency,
                context.local_total(word),
                after,
                pair,
            )
            &&& rank.distance == score.distance
            &&& rank.exact_prefix == score.exact_prefix
            &&& rank.typed_word == typed
            &&& rank.first_letter_match == same_start
            &&& rank.is_common == is_common
            &&& rank.remaining_ambiguity == if candidate.len() > score.matched_prefix_len {
                candidate.len() - score.matched_prefix_len
            } else {
                0
            }
            &&& rank.replacement_len == candidate.len()
        }),
{
    let word = lowercase_text(candidate);
    let typed = query.len() == candidate.len() && forall|i: int|
        0 <= i < query.len() ==> ascii_lower(#[trigger] query[i]) == ascii_lower(candidate[i]);
    assert(typed == same_word(query, candidate));
    let frequency = rank_or_unlisted(listed_rank(lists.words, word));
    steps_reached_is_at_most((frequency + 1) as nat * FIXED_ONE as nat, PENALTY_STEPS as nat);
}

} // verus!
