//! How well a candidate matches what was typed.

use vstd::prelude::*;
use vstd::slice::slice_subrange;
use crate::chars::ascii_lower;
use crate::keyboard_distance::{
    capped, keyboard_substitution_cost, substitution_cost, weighted_damerau_distance,
    word_distance, INSERT_DELETE_COST,
};

verus! {

/// How a candidate matches the typed prefix.
#[derive(Debug, Clone, Copy, PartialEq, Eq, Structural)]
pub struct CompletionPrefixScore {
    pub distance: u16,
    pub exact_prefix: bool,
    pub matched_prefix_len: usize,
}

/// Whether two characters are equal but for ASCII case.
pub open spec fn same_letter(a: char, b: char) -> bool {
    ascii_lower(a) == ascii_lower(b)
}

/// Whether two words start with the same letter.
pub open spec fn same_first_letter(query: Seq<char>, candidate: Seq<char>) -> bool {
    query.len() > 0 && candidate.len() > 0 && same_letter(query[0], candidate[0])
}

/// Whether a word starts with a prefix, but for ASCII case.
pub open spec fn starts_with(candidate: Seq<char>, prefix: Seq<char>) -> bool {
    candidate.len() >= prefix.len() && forall|i: int|
        0 <= i < prefix.len() ==> same_letter(#[trigger] candidate[i], prefix[i])
}

/// Whether two words are equal but for ASCII case.
pub open spec fn same_word(a: Seq<char>, b: Seq<char>) -> bool {
    a.len() == b.len() && starts_with(a, b)
}

/// Whether both words start with the same letter.
pub fn first_letter_matches(query: &[char], candidate: &[char]) -> (r: bool)
    ensures
        r == same_first_letter(query@, candidate@),
{
    query.len() > 0 && candidate.len() > 0 && query[0].eq_ignore_ascii_case(&candidate[0])
}

/// Whether two characters are equal but for ASCII case.
pub fn chars_equal_ignore_case(a: char, b: char) -> (r: bool)
    ensures
        r == same_letter(a, b),
{
    a.eq_ignore_ascii_case(&b)
}

/// Whether `candidate` starts with `prefix`, but for ASCII case.
pub fn starts_with_ignore_case(candidate: &[char], prefix: &[char]) -> (r: bool)
    ensures
        r == starts_with(candidate@, prefix@),
{
    if candidate.len() < prefix.len() {
        return false;
    }
    let mut i: usize = 0;
    while i < prefix.len()
        invariant
            i <= prefix@.len() <= candidate@.len(),
            forall|k: int| 0 <= k < i ==> same_letter(#[trigger] candidate@[k], prefix@[k]),
        decreases prefix@.len() - i,
    {
        if !chars_equal_ignore_case(candidate[i], prefix[i]) {
            return false;
        }
        i += 1;
    }
    true
}

/// Whether two words are equal but for ASCII case.
pub fn same_word_ignore_case(a: &[char], b: &[char]) -> (r: bool)
    ensures
        r == same_word(a@, b@),
{
    a.len() == b.len() && starts_with_ignore_case(a, b)
}

/// How many edits a typed prefix of a given length may be away from a candidate.
pub open spec fn allowed_edits(prefix_len: nat) -> nat {
    if prefix_len <= 2 {
        1
    } else if prefix_len <= 5 {
        2
    } else if prefix_len <= 9 {
        3
    } else {
        4
    }
}

/// How many edits a typed prefix of a given length may be away from a candidate.
pub fn allowed_noisy_prefix_edits(prefix_len: usize) -> (edits: usize)
    ensures
        edits == allowed_edits(prefix_len as nat),
{
    match prefix_len {
        0..=2 => 1,
        3..=5 => 2,
        6..=9 => 3,
        _ => 4,
    }
}

/// The dearest correction of a typed prefix of a given length that is still offered.
pub open spec fn distance_limit(prefix_len: nat) -> nat {
    allowed_edits(prefix_len) * INSERT_DELETE_COST as nat
}

/// The dearest correction of a typed prefix of a given length that is still offered.
pub fn max_noisy_prefix_distance(prefix_len: usize) -> (limit: u16)
    ensures
        limit == distance_limit(prefix_len as nat),
{
    let edits = allowed_noisy_prefix_edits(prefix_len);
    edits as u16 * INSERT_DELETE_COST
}

/// The length of the shortest candidate prefix that is held against what was typed.
pub open spec fn shortest_window(query_len: nat) -> nat {
    if query_len > allowed_edits(query_len) {
        (query_len - allowed_edits(query_len)) as nat
    } else {
        1
    }
}

/// The length of the longest candidate prefix that is held against what was typed.
pub open spec fn longest_window(query_len: nat, candidate_len: nat) -> nat {
    if candidate_len <= query_len + allowed_edits(query_len) {
        candidate_len
    } else {
        query_len + allowed_edits(query_len)
    }
}

/// How far what was typed is from the first `len` characters of a candidate.
pub open spec fn window_distance(query: Seq<char>, candidate: Seq<char>, len: nat) -> nat {
    capped(word_distance(query, candidate.take(len as int)))
}

/// The best match among the candidate's prefixes of length `shortest` to `longest`: the nearest,
/// and of those the longest.
pub open spec fn best_window(
    query: Seq<char>,
    candidate: Seq<char>,
    shortest: nat,
    longest: nat,
) -> Option<CompletionPrefixScore>
    decreases longest,
{
    if longest < shortest || longest == 0 {
        None
    } else {
        let shorter = best_window(query, candidate, shortest, (longest - 1) as nat);
        let distance = window_distance(query, candidate, longest);
        if distance <= distance_limit(query.len()) && match shorter {
            Some(score) => distance <= score.distance,
            None => true,
        } {
            Some(
                CompletionPrefixScore {
                    distance: distance as u16,
                    exact_prefix: false,
                    matched_prefix_len: longest as usize,
                },
            )
        } else {
            shorter
        }
    }
}

/// How a candidate matches what was typed, if it matches at all.
pub open spec fn prefix_score(query: Seq<char>, candidate: Seq<char>) -> Option<
    CompletionPrefixScore,
> {
    if query.len() == 0 || candidate.len() == 0 {
        None
    } else if starts_with(candidate, query) {
        Some(
            CompletionPrefixScore {
                distance: 0,
                exact_prefix: true,
                matched_prefix_len: query.len() as usize,
            },
        )
    } else {
        best_window(
            query,
            candidate,
            shortest_window(query.len()),
            longest_window(query.len(), candidate.len()),
        )
    }
}

/// Holds a candidate against what was typed.
///
/// A candidate that starts with what was typed has no correction distance: the user typed a real
/// prefix of it, not a typo. Any other candidate is scored by its nearest prefix, if that is near
/// enough.
pub fn best_completion_prefix_score(query: &[char], candidate: &[char]) -> (score: Option<
    CompletionPrefixScore,
>)
    ensures
        score == prefix_score(query@, candidate@),
{
    if query.len() == 0 || candidate.len() == 0 {
        return None;
    }
    if starts_with_ignore_case(candidate, query) {
        return Some(
            CompletionPrefixScore {
                distance: 0,
                exact_prefix: true,
                matched_prefix_len: query.len(),
            },
        );
    }
    let edits = allowed_noisy_prefix_edits(query.len());
    let shortest = if query.len() > edits {
        query.len() - edits
    } else {
        1
    };
    let longest = if candidate.len() <= query.len() || candidate.len() - query.len() <= edits {
        candidate.len()
    } else {
        query.len() + edits
    };
    let max_distance = max_noisy_prefix_distance(query.len());
    let mut best: Option<CompletionPrefixScore> = None;
    if longest < shortest {
        return None;
    }
    let mut len: usize = shortest - 1;
    while len < longest
        invariant
            1 <= shortest <= longest <= candidate@.len(),
            shortest - 1 <= len <= longest,
            max_distance == distance_limit(query@.len()),
            best == best_window(query@, candidate@, shortest as nat, len as nat),
        decreases longest - len,
    {
        len += 1;
        let distance = weighted_damerau_distance(query, slice_subrange(candidate, 0, len));
        assert(candidate@.subrange(0, len as int) == candidate@.take(len as int));
        let nearer = match best {
            Some(score) => distance <= score.distance,
            None => true,
        };
        if distance <= max_distance && nearer {
            best = Some(
                CompletionPrefixScore { distance, exact_prefix: false, matched_prefix_len: len },
            );
        }
    }
    best
}

/// Whether a candidate could be what was typed: its first letter is the one typed or near it on
/// the keyboard, or the first letters look swapped, dropped or added.
pub open spec fn is_plausible_correction(query: Seq<char>, candidate: Seq<char>) -> bool {
    &&& query.len() > 0
    &&& candidate.len() > 0
    &&& {
        ||| same_letter(query[0], candidate[0])
        ||| substitution_cost(query[0], candidate[0]) <= INSERT_DELETE_COST
        ||| query.len() > 1 && same_letter(query[1], candidate[0])
        ||| candidate.len() > 1 && same_letter(query[0], candidate[1])
    }
}

/// Whether a candidate that does not start with what was typed is worth scoring.
pub fn should_score_noisy_prefix_candidate(query: &[char], candidate: &[char]) -> (r: bool)
    ensures
        r == is_plausible_correction(query@, candidate@),
{
    if query.len() == 0 || candidate.len() == 0 {
        return false;
    }
    if chars_equal_ignore_case(query[0], candidate[0]) || keyboard_substitution_cost(
        query[0],
        candidate[0],
    ) <= INSERT_DELETE_COST {
        return true;
    }
    if query.len() > 1 && chars_equal_ignore_case(query[1], candidate[0]) {
        return true;
    }
    candidate.len() > 1 && chars_equal_ignore_case(query[0], candidate[1])
}

/// The best window is within the bounds and near enough, no window is nearer, and no longer one
/// is as near; there is none only where every window is too far.
pub proof fn best_window_is_nearest(
    query: Seq<char>,
    candidate: Seq<char>,
    shortest: nat,
    longest: nat,
)
    requires
        1 <= shortest,
        longest <= usize::MAX,
    ensures
        match best_window(query, candidate, shortest, longest) {
            Some(score) => {
                &&& !score.exact_prefix
                &&& shortest <= score.matched_prefix_len <= longest
                &&& score.distance == window_distance(
                    query,
                    candidate,
                    score.matched_prefix_len as nat,
                )
                &&& score.distance <= distance_limit(query.len())
                &&& forall|len: nat|
                    shortest <= len <= longest ==> score.distance <= #[trigger] window_distance(
                        query,
                        candidate,
                        len,
                    )
                &&& forall|len: nat|
                    score.matched_prefix_len < len <= longest ==> score.distance
                        < #[trigger] window_distance(query, candidate, len)
            },
            None => forall|len: nat|
                shortest <= len <= longest ==> #[trigger] window_distance(query, candidate, len)
                    > distance_limit(query.len()),
        },
    decreases longest,
{
    if longest >= shortest && longest > 0 {
        best_window_is_nearest(query, candidate, shortest, (longest - 1) as nat);
    }
}

/// A match that is found is either a plain prefix at no distance, or a correction within the
/// limit for the length of what was typed.
pub proof fn scores_are_within_the_limit(query: Seq<char>, candidate: Seq<char>)
    requires
        query.len() <= usize::MAX,
        candidate.len() <= usize::MAX,
    ensures
        prefix_score(query, candidate) matches Some(score) ==> {
            &&& score.distance <= distance_limit(query.len())
            &&& score.exact_prefix == starts_with(candidate, query)
            &&& score.exact_prefix ==> score.distance == 0 && score.matched_prefix_len
                == query.len()
            &&& 1 <= score.matched_prefix_len <= candidate.len()
        },
{
    if query.len() > 0 && candidate.len() > 0 && !starts_with(candidate, query) {
        best_window_is_nearest(
            query,
            candidate,
            shortest_window(query.len()),
            longest_window(query.len(), candidate.len()),
        );
    }
}

/// What was typed always matches itself, as a prefix.
pub proof fn a_word_matches_itself(word: Seq<char>)
    requires
        word.len() > 0,
    ensures
        prefix_score(word, word) == Some(
            (CompletionPrefixScore {
                distance: 0,
                exact_prefix: true,
                matched_prefix_len: word.len() as usize,
            }),
        ),
{
}

/// A candidate that starts with what was typed, but for ASCII case, matches at no distance, and
/// with all of what was typed; nothing matches an empty text.
pub proof fn a_continued_prefix_matches_exactly(query: Seq<char>, candidate: Seq<char>)
    ensures
        query.len() == 0 || candidate.len() == 0 ==> prefix_score(query, candidate) is None,
        0 < query.len() <= candidate.len() && (forall|i: int|
            0 <= i < query.len() ==> ascii_lower(#[trigger] candidate[i]) == ascii_lower(query[i]))
            ==> prefix_score(query, candidate) == Some(
            (CompletionPrefixScore {
                distance: 0,
                exact_prefix: true,
                matched_prefix_len: query.len() as usize,
            }),
        ),
{
    if 0 < query.len() <= candidate.len() && (forall|i: int|
        0 <= i < query.len() ==> ascii_lower(#[trigger] candidate[i]) == ascii_lower(query[i])) {
        assert(starts_with(candidate, query));
    }
}

/// Any other candidate matches by the beginning of it that is nearest to what was typed, and by
/// the longest of those as near. Beginnings count that are shorter or longer than what was typed
/// by one, two, three or four characters at most, as the length of what was typed allows, and
/// that are at most as many insertions away. Without one there is no match.
pub proof fn other_candidates_match_by_their_nearest_beginning(
    query: Seq<char>,
    candidate: Seq<char>,
    edits: nat,
    other: nat,
)
    requires
        query.len() <= usize::MAX,
        candidate.len() <= usize::MAX,
        query.len() > 0,
        candidate.len() > 0,
        candidate.len() < query.len() || exists|i: int|
            0 <= i < query.len() && ascii_lower(#[trigger] candidate[i]) != ascii_lower(query[i]),
        edits == if query.len() <= 2 {
            1nat
        } else if query.len() <= 5 {
            2nat
        } else if query.len() <= 9 {
            3nat
        } else {
            4nat
        },
    ensures
        ({
            let other_counts = 1 <= other <= candidate.len() && query.len() <= other + edits
                && other <= query.len() + edits;
            let other_distance = word_distance(query, candidate.subrange(0, other as int));
            match prefix_score(query, candidate) {
                Some(score) => {
                    let matched = score.matched_prefix_len;
                    &&& !score.exact_prefix
                    &&& 1 <= matched <= candidate.len()
                    &&& query.len() <= matched + edits
                    &&& matched <= query.len() + edits
                    &&& score.distance == word_distance(
                        query,
                        candidate.subrange(0, matched as int),
                    )
                    &&& score.distance <= 100 * edits
                    &&& other_counts ==> score.distance <= other_distance
                    &&& other_counts && other > matched ==> score.distance < other_distance
                },
                None => other_counts ==> other_distance > 100 * edits,
            }
        }),
{
    let shortest = shortest_window(query.len());
    let longest = longest_window(query.len(), candidate.len());
    if candidate.len() >= query.len() {
        let i = choose|i: int|
            0 <= i < query.len() && ascii_lower(#[trigger] candidate[i]) != ascii_lower(query[i]);
        assert(!same_letter(candidate[i], query[i]));
    }
    assert(!starts_with(candidate, query));
    best_window_is_nearest(query, candidate, shortest, longest);
    if other <= candidate.len() {
        assert(candidate.take(other as int) =~= candidate.subrange(0, other as int));
    }
    if let Some(score) = prefix_score(query, candidate) {
        let matched = score.matched_prefix_len as int;
        assert(candidate.take(matched) =~= candidate.subrange(0, matched));
    }
    if shortest <= other <= longest {
        assert(window_distance(query, candidate, other) <= word_distance(
            query,
            candidate.subrange(0, other as int),
        ));
    }
}

/// A candidate could be what was typed where the first letters are the same, or keys of them are
/// at most 100 apart, or the first letter of one is the second of the other.
pub proof fn first_letters_make_a_correction_plausible(query: Seq<char>, candidate: Seq<char>)
    ensures
        is_plausible_correction(query, candidate) == (query.len() > 0 && candidate.len() > 0 && (
        ascii_lower(query[0]) == ascii_lower(candidate[0]) || substitution_cost(
            query[0],
            candidate[0],
        ) <= 100 || query.len() > 1 && ascii_lower(query[1]) == ascii_lower(candidate[0])
            || candidate.len() > 1 && ascii_lower(query[0]) == ascii_lower(candidate[1]))),
{
}

} // verus!
