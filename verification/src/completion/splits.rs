//! Two words typed as one, with a key next to the spacebar in the place of the space.

use vstd::prelude::*;
use vstd::slice::{slice_subrange, slice_to_vec};
use crate::chars::{chars_to_string, lower_each, lower_first, lowercase_char, lowercase_chars};
use crate::completion::cost::FrequencyLists;
use crate::completion::order::{ranked_views, RankedCompletion, RankedWord};
use crate::completion::rank::{
    query_of, rank_completion_candidates, ranking, ranking_holds_the_best, CompletionQuery,
};
use crate::completion::stats::{CompletionContext, ContextView};
use crate::dictionary::{Dictionary, WordSet};
use crate::keyboard_distance::INSERT_DELETE_COST;
use crate::word_frequency::at_most;

verus! {

/// Whether a key is one of the bottom-row phone keyboard keys adjacent to the spacebar; pressing
/// one of these instead of space fuses two words into one token (e.g. "thenworld").
pub open spec fn is_next_to_space(key: char) -> bool {
    key == 'v' || key == 'b' || key == 'n' || key == 'm'
}

/// Whether what was typed may be two words with a slip at `at` in the place of the space.
pub open spec fn is_split_point<D: Dictionary>(
    dict: &D,
    prefix: Seq<char>,
    min_right_len: nat,
    at: int,
) -> bool {
    &&& 1 <= at < prefix.len()
    &&& is_next_to_space(lower_first(prefix[at]))
    &&& prefix.len() - at - 1 >= min_right_len
    &&& dict.has_word(lower_each(prefix.take(at)))
}

/// The parts before and after each slip at `1` to `end - 1`.
pub open spec fn splits_up_to<D: Dictionary>(
    dict: &D,
    prefix: Seq<char>,
    min_right_len: nat,
    end: nat,
) -> Seq<(Seq<char>, Seq<char>)>
    decreases end,
{
    if end <= 1 {
        Seq::empty()
    } else {
        let at = end - 1;
        let earlier = splits_up_to(dict, prefix, min_right_len, at as nat);
        if is_split_point(dict, prefix, min_right_len, at) {
            earlier.push((prefix.take(at), prefix.skip(at + 1)))
        } else {
            earlier
        }
    }
}

/// The parts before and after each slip that what was typed may hold.
pub open spec fn missed_space_splits<D: Dictionary>(
    dict: &D,
    prefix: Seq<char>,
    min_right_len: nat,
) -> Seq<(Seq<char>, Seq<char>)> {
    splits_up_to(dict, prefix, min_right_len, prefix.len())
}

/// The contents of pairs of character vectors.
pub open spec fn char_pair_views(pairs: Seq<(Vec<char>, Vec<char>)>) -> Seq<
    (Seq<char>, Seq<char>),
> {
    pairs.map_values(|p: (Vec<char>, Vec<char>)| (p.0@, p.1@))
}

/// Checks whether `prefix` contains a space-adjacent key (v/b/n/m) that the
/// user may have pressed instead of the spacebar. Returns every position where
/// the characters before the split form a valid dictionary word and there are
/// at least `min_right_len` characters after it to complete.
pub fn find_missed_space_splits<D: Dictionary>(
    prefix: &[char],
    dict: &D,
    min_right_len: usize,
) -> (splits: Vec<(Vec<char>, Vec<char>)>)
    ensures
        char_pair_views(splits@) == missed_space_splits(dict, prefix@, min_right_len as nat),
{
    let mut splits: Vec<(Vec<char>, Vec<char>)> = Vec::new();
    let mut i: usize = 1;
    assert(char_pair_views(splits@) =~= splits_up_to(dict, prefix@, min_right_len as nat, 1));
    if prefix.len() == 0 {
        return splits;
    }
    while i < prefix.len()
        invariant
            1 <= i <= prefix@.len(),
            char_pair_views(splits@) == splits_up_to(
                dict,
                prefix@,
                min_right_len as nat,
                i as nat,
            ),
        decreases prefix@.len() - i,
    {
        let ghost earlier = splits@;
        let key = lowercase_char(prefix[i]);
        let is_slip = key == 'v' || key == 'b' || key == 'n' || key == 'm';
        if is_slip && prefix.len() - i - 1 >= min_right_len {
            let left = slice_subrange(prefix, 0, i);
            let right = slice_subrange(prefix, i + 1, prefix.len());
            assert(left@ =~= prefix@.take(i as int));
            assert(right@ =~= prefix@.skip(i + 1));
            let left_lower = lowercase_chars(left);
            if dict.contains_exact_word(left_lower.as_slice()) {
                splits.push((slice_to_vec(left), slice_to_vec(right)));
                assert(char_pair_views(splits@) =~= char_pair_views(earlier).push(
                    (left@, right@),
                ));
            }
        }
        i += 1;
    }
    splits
}

/// A completion that puts the missed space back.
#[derive(Debug)]
pub struct SplitRankedItem {
    pub left_chars: Vec<char>,
    pub right_prefix: Vec<char>,
    pub right_word: String,
}

/// A [`SplitRankedItem`] in mathematical terms.
pub struct SplitWord {
    pub left: Seq<char>,
    pub right_prefix: Seq<char>,
    pub right_word: Seq<char>,
}

impl View for SplitRankedItem {
    type V = SplitWord;

    open spec fn view(&self) -> SplitWord {
        SplitWord {
            left: self.left_chars@,
            right_prefix: self.right_prefix@,
            right_word: self.right_word@,
        }
    }
}

/// Split completions in mathematical terms.
pub open spec fn split_views(splits: Seq<SplitRankedItem>) -> Seq<SplitWord> {
    splits.map_values(|s: SplitRankedItem| s@)
}

/// How many completions are ranked: one more than asked for where only one is asked for, so that
/// it can be told how clear the choice is.
pub open spec fn ranked_count(max_results: nat) -> nat {
    if max_results < 2 {
        2
    } else {
        max_results
    }
}

/// What is asked for on the right of a split: completions of the right part after the left word.
pub open spec fn right_query(
    query: CompletionQuery,
    split: (Seq<char>, Seq<char>),
) -> CompletionQuery {
    CompletionQuery {
        prefix: split.1,
        context: query.context.after_word(lower_each(split.0)),
        ..query
    }
}

/// The completions of one split.
pub open spec fn completions_of_split<D: Dictionary>(
    dict: &D,
    query: CompletionQuery,
    split: (Seq<char>, Seq<char>),
    max_results: nat,
) -> Seq<SplitWord> {
    at_most(
        ranking(dict, right_query(query, split), ranked_count(max_results)),
        max_results,
    ).map_values(
        |r: RankedWord|
            SplitWord { left: split.0, right_prefix: split.1, right_word: r.word },
    )
}

/// The completions of each split in turn.
pub open spec fn completions_of_splits<D: Dictionary>(
    dict: &D,
    query: CompletionQuery,
    splits: Seq<(Seq<char>, Seq<char>)>,
    max_results: nat,
) -> Seq<SplitWord>
    decreases splits.len(),
{
    if splits.len() == 0 {
        Seq::empty()
    } else {
        completions_of_splits(dict, query, splits.drop_last(), max_results) + completions_of_split(
            dict,
            query,
            splits.last(),
            max_results,
        )
    }
}

/// How many split completions there is room for: with them there are at most twice as many
/// completions as asked for.
pub open spec fn split_room(ranked: nat, max_results: nat) -> nat {
    if ranked >= 2 * max_results {
        0
    } else {
        (2 * max_results - ranked) as nat
    }
}

/// The split completions of what was typed.
pub open spec fn split_ranking<D: Dictionary>(
    dict: &D,
    query: CompletionQuery,
    max_results: nat,
    split_min_right: nat,
) -> Seq<SplitWord> {
    at_most(
        completions_of_splits(
            dict,
            query,
            missed_space_splits(dict, query.prefix, split_min_right),
            max_results,
        ),
        split_room(ranking(dict, query, ranked_count(max_results)).len(), max_results),
    )
}

proof fn completions_of_fewer_splits<D: Dictionary>(
    dict: &D,
    query: CompletionQuery,
    splits: Seq<(Seq<char>, Seq<char>)>,
    max_results: nat,
    n: nat,
)
    requires
        n <= splits.len(),
    ensures
        completions_of_splits(dict, query, splits.take(n as int), max_results).len()
            <= completions_of_splits(dict, query, splits, max_results).len(),
        completions_of_splits(dict, query, splits, max_results).take(
            completions_of_splits(dict, query, splits.take(n as int), max_results).len() as int,
        ) == completions_of_splits(dict, query, splits.take(n as int), max_results),
    decreases splits.len() - n,
{
    let few = completions_of_splits(dict, query, splits.take(n as int), max_results);
    let all = completions_of_splits(dict, query, splits, max_results);
    if n < splits.len() {
        completions_of_fewer_splits(dict, query, splits, max_results, n + 1);
        let longer = splits.take(n as int + 1);
        assert(longer.drop_last() == splits.take(n as int));
        let more = completions_of_splits(dict, query, longer, max_results);
        assert(more.take(few.len() as int) =~= few);
        assert(all.take(few.len() as int) =~= more.take(few.len() as int));
    } else {
        assert(splits.take(n as int) == splits);
        assert(all.take(all.len() as int) == all);
    }
}

/// Ranks the completions of what was typed, and of the two words that it may be.
pub fn rank_completions_and_splits<D: Dictionary>(
    dict: &D,
    lists: &FrequencyLists,
    prefix: &[char],
    context: &CompletionContext,
    misspelled_words: &WordSet,
    max_results: usize,
    split_min_right: usize,
) -> (r: (Vec<RankedCompletion>, Vec<SplitRankedItem>))
    ensures
        ranked_views(r.0@) == ranking(
            dict,
            query_of(lists, prefix, context, misspelled_words),
            ranked_count(max_results as nat),
        ),
        split_views(r.1@) == split_ranking(
            dict,
            query_of(lists, prefix, context, misspelled_words),
            max_results as nat,
            split_min_right as nat,
        ),
{
    let ghost query = query_of(lists, prefix, context, misspelled_words);
    let ghost n = max_results as nat;
    let ranking_limit = if max_results < 2 {
        2
    } else {
        max_results
    };
    let completions = rank_completion_candidates(
        dict,
        lists,
        prefix,
        context,
        misspelled_words,
        ranking_limit,
    );
    let found = find_missed_space_splits(prefix, dict, split_min_right);
    let ghost all = char_pair_views(found@);
    let ghost room = split_room(ranking(dict, query, ranked_count(n)).len(), n);
    let mut splits: Vec<SplitRankedItem> = Vec::new();
    let mut i: usize = 0;
    assert(split_views(splits@) =~= completions_of_splits(dict, query, all.take(0), n));
    while i < found.len() && is_room_left(completions.len(), splits.len(), max_results)
        invariant
            i <= found@.len(),
            all == char_pair_views(found@),
            n == max_results,
            ranking_limit == ranked_count(n),
            query == query_of(lists, prefix, context, misspelled_words),
            room == split_room(completions@.len(), n),
            split_views(splits@) == completions_of_splits(dict, query, all.take(i as int), n),
        decreases found@.len() - i,
    {
        let left_chars = found[i].0.as_slice();
        let right_prefix = found[i].1.as_slice();
        let ghost split = (left_chars@, right_prefix@);
        assert(all[i as int] == split);
        let left_lower = chars_to_string(lowercase_chars(left_chars).as_slice());
        let split_context = context.after_word(left_lower);
        let right_completions = rank_completion_candidates(
            dict,
            lists,
            right_prefix,
            &split_context,
            misspelled_words,
            ranking_limit,
        );
        let ghost right = ranked_views(right_completions@);
        assert(right == ranking(dict, right_query(query, split), ranked_count(n)));
        let ghost earlier = split_views(splits@);
        let ghost listed = completions_of_split(dict, query, split, n);
        let mut k: usize = 0;
        assert(earlier + listed.take(0) =~= earlier);
        while k < right_completions.len() && k < max_results
            invariant
                k <= right_completions@.len(),
                k <= max_results,
                n == max_results,
                right == ranked_views(right_completions@),
                split == (left_chars@, right_prefix@),
                listed == at_most(right, n).map_values(
                    |r: RankedWord|
                        SplitWord { left: split.0, right_prefix: split.1, right_word: r.word },
                ),
                split_views(splits@) == earlier + listed.take(k as int),
            decreases right_completions@.len() - k,
        {
            let ghost before = splits@;
            splits.push(
                SplitRankedItem {
                    left_chars: slice_to_vec(left_chars),
                    right_prefix: slice_to_vec(right_prefix),
                    right_word: right_completions[k].word.clone(),
                },
            );
            assert(split_views(splits@) =~= split_views(before).push(listed[k as int]));
            assert(split_views(splits@) =~= earlier + listed.take(k + 1));
            k += 1;
        }
        assert(listed.take(k as int) =~= listed);
        assert(all.take(i + 1).drop_last() == all.take(i as int));
        i += 1;
    }
    proof {
        completions_of_fewer_splits(dict, query, all, n, i as nat);
        if i == found.len() {
            assert(all.take(i as int) == all);
        }
    }
    let ghost listed = splits@;
    truncate_to_room(&mut splits, completions.len(), max_results);
    proof {
        let full = completions_of_splits(dict, query, all, n);
        let few = split_views(listed);
        assert(split_views(splits@) =~= at_most(few, room));
        assert(at_most(few, room) =~= at_most(full, room)) by {
            if i < found.len() {
                assert(few.len() >= room);
                assert(full.take(few.len() as int) == few);
                assert(few.take(room as int) =~= full.take(room as int));
                if few.len() == room {
                    assert(few.take(room as int) =~= few);
                }
                if full.len() == room {
                    assert(full.take(room as int) =~= full);
                }
            }
        }
    }
    (completions, splits)
}

/// Whether there are fewer than twice as many completions as asked for.
fn is_room_left(ranked: usize, split: usize, max_results: usize) -> (r: bool)
    ensures
        r == (split < split_room(ranked as nat, max_results as nat)),
{
    ranked as u128 + (split as u128) < 2 * (max_results as u128)
}

/// Cuts split completions to what there is room for.
fn truncate_to_room(splits: &mut Vec<SplitRankedItem>, ranked: usize, max_results: usize)
    ensures
        final(splits)@ == at_most(
            old(splits)@,
            split_room(ranked as nat, max_results as nat),
        ),
{
    if ranked as u128 >= 2 * (max_results as u128) {
        splits.truncate(0);
        assert(splits@ =~= at_most(old(splits)@, 0));
        return ;
    }
    let room = 2 * (max_results as u128) - ranked as u128;
    if splits.len() as u128 > room {
        let fits = room as usize;
        splits.truncate(fits);
    }
}

/// When a space typed after a completion accepts it.
#[derive(Debug, Clone, Copy, PartialEq, Eq, Structural)]
pub enum CompletionCommitWithSpace {
    /// Never.
    Never,
    /// Where the first completion is clearly the one that is meant.
    Confident,
    /// Always.
    Always,
}

impl Default for CompletionCommitWithSpace {
    /// A space accepts a completion that is clearly meant.
    fn default() -> (commit: Self)
        ensures
            commit == CompletionCommitWithSpace::Confident,
    {
        CompletionCommitWithSpace::Confident
    }
}

impl CompletionCommitWithSpace {
    /// The setting with the given name in a configuration, if there is one.
    pub fn from_name(name: &str) -> (commit: Option<Self>)
        ensures
            commit == if name@ == "never"@ {
                Some(CompletionCommitWithSpace::Never)
            } else if name@ == "confident"@ {
                Some(CompletionCommitWithSpace::Confident)
            } else if name@ == "always"@ {
                Some(CompletionCommitWithSpace::Always)
            } else {
                None
            },
    {
        let name = name.to_owned();
        if name == "never".to_owned() {
            Some(CompletionCommitWithSpace::Never)
        } else if name == "confident".to_owned() {
            Some(CompletionCommitWithSpace::Confident)
        } else if name == "always".to_owned() {
            Some(CompletionCommitWithSpace::Always)
        } else {
            None
        }
    }
}

/// Whether the first completion is clearly the one that is meant: it is not what was typed, is
/// at most one edit away, and the next one is more than half an edit further away.
pub open spec fn is_clear_choice(completions: Seq<RankedWord>) -> bool {
    &&& completions.len() > 0
    &&& !completions[0].rank.typed_word
    &&& completions[0].rank.distance <= INSERT_DELETE_COST
    &&& completions.len() > 1 ==> completions[0].rank.distance + INSERT_DELETE_COST / 2
        < completions[1].rank.distance
}

/// Whether a typed space accepts the completion at an index.
pub open spec fn accepts_space(
    item_index: nat,
    completions: Seq<RankedWord>,
    commit_with_space: CompletionCommitWithSpace,
) -> bool {
    match commit_with_space {
        CompletionCommitWithSpace::Never => false,
        CompletionCommitWithSpace::Confident => item_index == 0 && is_clear_choice(completions),
        CompletionCommitWithSpace::Always => item_index < completions.len(),
    }
}

/// Whether the first completion is clearly the one that is meant.
pub fn should_commit_space(completions: &Vec<RankedCompletion>) -> (r: bool)
    ensures
        r == is_clear_choice(ranked_views(completions@)),
{
    if completions.len() == 0 {
        return false;
    }
    let top = completions[0].rank;
    if top.typed_word || top.distance > INSERT_DELETE_COST {
        return false;
    }
    if completions.len() == 1 {
        return true;
    }
    top.distance + INSERT_DELETE_COST / 2 < completions[1].rank.distance
}

/// Whether a typed space accepts the completion at `item_index`.
pub fn should_item_commit_space(
    item_index: usize,
    completions: &Vec<RankedCompletion>,
    commit_with_space: CompletionCommitWithSpace,
) -> (r: bool)
    ensures
        r == accepts_space(item_index as nat, ranked_views(completions@), commit_with_space),
{
    match commit_with_space {
        CompletionCommitWithSpace::Never => false,
        CompletionCommitWithSpace::Confident => item_index == 0 && should_commit_space(completions),
        CompletionCommitWithSpace::Always => item_index < completions.len(),
    }
}

/// Whether two parts are what stands before and after a slip.
pub open spec fn is_split_of<D: Dictionary>(
    dict: &D,
    prefix: Seq<char>,
    min_right_len: nat,
    split: (Seq<char>, Seq<char>),
) -> bool {
    exists|at: int| #[trigger]
        is_split_point(dict, prefix, min_right_len, at) && split == (
            prefix.take(at),
            prefix.skip(at + 1),
        )
}

/// What was typed is made of the left part, one key next to the spacebar and the right part; the
/// left part is a word and the right part is long enough, in every split and in no other.
pub proof fn splits_are_at_the_split_points<D: Dictionary>(
    dict: &D,
    prefix: Seq<char>,
    min_right_len: nat,
)
    ensures
        forall|k: int|
            0 <= k < missed_space_splits(dict, prefix, min_right_len).len() ==> is_split_of(
                dict,
                prefix,
                min_right_len,
                #[trigger] missed_space_splits(dict, prefix, min_right_len)[k],
            ),
        forall|at: int| #[trigger]
            is_split_point(dict, prefix, min_right_len, at) ==> missed_space_splits(
                dict,
                prefix,
                min_right_len,
            ).contains((prefix.take(at), prefix.skip(at + 1))),
{
    split_points_up_to(dict, prefix, min_right_len, prefix.len());
}

proof fn split_points_up_to<D: Dictionary>(
    dict: &D,
    prefix: Seq<char>,
    min_right_len: nat,
    end: nat,
)
    requires
        end <= prefix.len(),
    ensures
        forall|k: int|
            0 <= k < splits_up_to(dict, prefix, min_right_len, end).len() ==> is_split_of(
                dict,
                prefix,
                min_right_len,
                #[trigger] splits_up_to(dict, prefix, min_right_len, end)[k],
            ),
        forall|at: int|
            at < end && #[trigger] is_split_point(dict, prefix, min_right_len, at)
                ==> splits_up_to(dict, prefix, min_right_len, end).contains(
                (prefix.take(at), prefix.skip(at + 1)),
            ),
    decreases end,
{
    if end > 1 {
        split_points_up_to(dict, prefix, min_right_len, (end - 1) as nat);
        let earlier = splits_up_to(dict, prefix, min_right_len, (end - 1) as nat);
        let all = splits_up_to(dict, prefix, min_right_len, end);
        let last = end - 1;
        assert forall|k: int| 0 <= k < all.len() implies is_split_of(
            dict,
            prefix,
            min_right_len,
            #[trigger] all[k],
        ) by {
            if k < earlier.len() {
                assert(all[k] == earlier[k]);
            } else {
                assert(is_split_point(dict, prefix, min_right_len, last));
                assert(all[k] == (prefix.take(last), prefix.skip(last + 1)));
            }
        }
        assert forall|at: int|
            at < end && #[trigger] is_split_point(
                dict,
                prefix,
                min_right_len,
                at,
            ) implies all.contains((prefix.take(at), prefix.skip(at + 1))) by {
            let split = (prefix.take(at), prefix.skip(at + 1));
            if at < last {
                assert(earlier.contains(split));
                let k = choose|k: int| 0 <= k < earlier.len() && earlier[k] == split;
                assert(all[k] == split);
            } else {
                assert(all[earlier.len() as int] == split);
            }
        }
    }
}

/// With the split completions there are never more than twice as many completions as asked for,
/// where at least one is asked for.
pub proof fn completions_are_at_most_doubled<D: Dictionary>(
    dict: &D,
    query: CompletionQuery,
    max_results: nat,
    split_min_right: nat,
)
    requires
        max_results > 0,
    ensures
        ranking(dict, query, ranked_count(max_results)).len() + split_ranking(
            dict,
            query,
            max_results,
            split_min_right,
        ).len() <= 2 * max_results,
{
    ranking_holds_the_best(dict, query, ranked_count(max_results));
}

/// Of the completions of single words, a space accepts none where that is configured; the first
/// one at most, and only where it is clearly meant, where that is; and each where that is.
pub proof fn space_accepts_as_configured(completions: Seq<RankedWord>, index: nat)
    requires
        index < completions.len(),
    ensures
        !accepts_space(index, completions, CompletionCommitWithSpace::Never),
        accepts_space(index, completions, CompletionCommitWithSpace::Always),
        accepts_space(index, completions, CompletionCommitWithSpace::Confident) ==> index == 0
            && !completions[0].rank.typed_word && completions[0].rank.distance
            <= INSERT_DELETE_COST,
{
}

/// Where a space accepts what is clearly meant, it accepts the first completion exactly when that
/// is not what was typed, is at most one insertion away, and is nearer than the second one by
/// more than half an insertion. It accepts no other completion, and none of an empty list.
pub proof fn a_confident_space_needs_a_clear_lead(completions: Seq<RankedWord>, index: nat)
    ensures
        completions.len() >= 2 ==> accepts_space(
            0,
            completions,
            CompletionCommitWithSpace::Confident,
        ) == (!completions[0].rank.typed_word && completions[0].rank.distance <= 100
            && completions[1].rank.distance - completions[0].rank.distance > 50),
        completions.len() == 1 ==> accepts_space(
            0,
            completions,
            CompletionCommitWithSpace::Confident,
        ) == (!completions[0].rank.typed_word && completions[0].rank.distance <= 100),
        index > 0 || completions.len() == 0 ==> !accepts_space(
            index,
            completions,
            CompletionCommitWithSpace::Confident,
        ),
        index >= completions.len() ==> !accepts_space(
            index,
            completions,
            CompletionCommitWithSpace::Always,
        ),
{
}

/// A space after a valid word leaves it as it is: what was typed is among the first two
/// completions at no distance, so nothing else is accepted in its place.
pub proof fn a_space_after_a_listed_typed_word_keeps_it(completions: Seq<RankedWord>, at: int)
    requires
        0 <= at < 2,
        at < completions.len(),
        completions[at].rank.typed_word,
        completions[at].rank.distance == 0,
    ensures
        !accepts_space(0, completions, CompletionCommitWithSpace::Confident),
{
}

/// What was typed is split at each `v`, `b`, `n` or `m`, in either case, that is not its first
/// character, before which a word of the dictionary stands and after which there are enough
/// characters; into what stands before and what stands after it.
pub proof fn keys_next_to_the_space_split_words<D: Dictionary>(
    dict: &D,
    prefix: Seq<char>,
    min_right_len: nat,
    at: int,
)
    requires
        1 <= at < prefix.len(),
        prefix.len() - at - 1 >= min_right_len,
        lower_first(prefix[at]) == 'v' || lower_first(prefix[at]) == 'b' || lower_first(prefix[at])
            == 'n' || lower_first(prefix[at]) == 'm',
        dict.has_word(lower_each(prefix.take(at))),
    ensures
        missed_space_splits(dict, prefix, min_right_len).contains(
            (prefix.subrange(0, at), prefix.subrange(at + 1, prefix.len() as int)),
        ),
{
    splits_are_at_the_split_points(dict, prefix, min_right_len);
    assert(is_split_point(dict, prefix, min_right_len, at));
    assert(prefix.take(at) =~= prefix.subrange(0, at));
    assert(prefix.skip(at + 1) =~= prefix.subrange(at + 1, prefix.len() as int));
}

/// Every split is what stands before and after such a key, and the splits come from left to
/// right.
pub proof fn splits_are_made_at_keys_next_to_the_space<D: Dictionary>(
    dict: &D,
    prefix: Seq<char>,
    min_right_len: nat,
    k: int,
)
    requires
        0 <= k < missed_space_splits(dict, prefix, min_right_len).len(),
    ensures
        ({
            let (left, right) = missed_space_splits(dict, prefix, min_right_len)[k];
            let at = left.len() as int;
            &&& 1 <= at < prefix.len()
            &&& left + seq![prefix[at]] + right == prefix
            &&& right.len() >= min_right_len
            &&& dict.has_word(lower_each(left))
            &&& lower_first(prefix[at]) == 'v' || lower_first(prefix[at]) == 'b' || lower_first(
                prefix[at],
            ) == 'n' || lower_first(prefix[at]) == 'm'
        }),
        k > 0 ==> missed_space_splits(dict, prefix, min_right_len)[k - 1].0.len()
            < missed_space_splits(dict, prefix, min_right_len)[k].0.len(),
{
    splits_are_at_the_split_points(dict, prefix, min_right_len);
    let all = missed_space_splits(dict, prefix, min_right_len);
    assert(is_split_of(dict, prefix, min_right_len, all[k]));
    let at = choose|at: int| #[trigger]
        is_split_point(dict, prefix, min_right_len, at) && all[k] == (
            prefix.take(at),
            prefix.skip(at + 1),
        );
    assert(all[k].0.len() == at);
    assert(prefix.take(at) + seq![prefix[at]] + prefix.skip(at + 1) =~= prefix);
    splits_go_from_left_to_right(dict, prefix, min_right_len, prefix.len());
}

proof fn splits_go_from_left_to_right<D: Dictionary>(
    dict: &D,
    prefix: Seq<char>,
    min_right_len: nat,
    end: nat,
)
    requires
        end <= prefix.len(),
    ensures
        forall|k: int|
            0 <= k < splits_up_to(dict, prefix, min_right_len, end).len() ==> (
            #[trigger] splits_up_to(dict, prefix, min_right_len, end)[k]).0.len() < end,
        forall|k: int|
            0 < k < splits_up_to(dict, prefix, min_right_len, end).len() ==> splits_up_to(
                dict,
                prefix,
                min_right_len,
                end,
            )[k - 1].0.len() < (#[trigger] splits_up_to(
                dict,
                prefix,
                min_right_len,
                end,
            )[k]).0.len(),
    decreases end,
{
    if end > 1 {
        splits_go_from_left_to_right(dict, prefix, min_right_len, (end - 1) as nat);
        let earlier = splits_up_to(dict, prefix, min_right_len, (end - 1) as nat);
        let all = splits_up_to(dict, prefix, min_right_len, end);
        assert forall|k: int| 0 <= k < all.len() implies (#[trigger] all[k]).0.len() < end by {
            if k < earlier.len() {
                assert(all[k] == earlier[k]);
            }
        }
        assert forall|k: int| 0 < k < all.len() implies all[k - 1].0.len() < (
        #[trigger] all[k]).0.len() by {
            assert(all[k - 1] == earlier[k - 1]);
            if k < earlier.len() {
                assert(all[k] == earlier[k]);
            }
        }
    }
}

/// The first split completions are those of the first split, in the order in which its right part
/// is completed after its left word, as long as there is room: with them there are at most twice
/// as many completions as asked for.
pub proof fn the_first_split_is_completed_first<D: Dictionary>(
    dict: &D,
    query: CompletionQuery,
    max_results: nat,
    split_min_right: nat,
    j: int,
)
    requires
        missed_space_splits(dict, query.prefix, split_min_right).len() > 0,
        ({
            let split = missed_space_splits(dict, query.prefix, split_min_right)[0];
            let right = CompletionQuery {
                prefix: split.1,
                context: ContextView {
                    previous_word: Some(lower_each(split.0)),
                    ..query.context
                },
                ..query
            };
            let n: nat = if max_results < 2 {
                2
            } else {
                max_results
            };
            &&& 0 <= j < max_results
            &&& j < ranking(dict, right, n).len()
            &&& ranking(dict, query, n).len() + j < 2 * max_results
        }),
    ensures
        ({
            let split = missed_space_splits(dict, query.prefix, split_min_right)[0];
            let right = CompletionQuery {
                prefix: split.1,
                context: ContextView {
                    previous_word: Some(lower_each(split.0)),
                    ..query.context
                },
                ..query
            };
            let n: nat = if max_results < 2 {
                2
            } else {
                max_results
            };
            let found = split_ranking(dict, query, max_results, split_min_right);
            &&& j < found.len()
            &&& found[j].left == split.0
            &&& found[j].right_prefix == split.1
            &&& found[j].right_word == ranking(dict, right, n)[j].word
        }),
{
    let splits = missed_space_splits(dict, query.prefix, split_min_right);
    completions_of_fewer_splits(dict, query, splits, max_results, 1);
    let one = splits.take(1);
    assert(one.drop_last() =~= Seq::empty());
    assert(one.last() == splits[0]);
    let first = completions_of_split(dict, query, splits[0], max_results);
    assert(completions_of_splits(dict, query, one.drop_last(), max_results) =~= Seq::empty());
    assert(completions_of_splits(dict, query, one, max_results) =~= first);
    let all = completions_of_splits(dict, query, splits, max_results);
    assert(all.take(first.len() as int)[j] == first[j]);
}

proof fn completions_of_a_split_are_among_all<D: Dictionary>(
    dict: &D,
    query: CompletionQuery,
    splits: Seq<(Seq<char>, Seq<char>)>,
    max_results: nat,
    k: int,
    j: int,
)
    requires
        0 <= k < splits.len(),
        0 <= j < completions_of_split(dict, query, splits[k], max_results).len(),
    ensures
        exists|i: int|
            0 <= i < completions_of_splits(dict, query, splits, max_results).len() && i < (k + 1)
                * max_results && #[trigger] completions_of_splits(
                dict,
                query,
                splits,
                max_results,
            )[i] == completions_of_split(dict, query, splits[k], max_results)[j],
    decreases splits.len(),
{
    let few = splits.drop_last();
    let earlier = completions_of_splits(dict, query, few, max_results);
    let all = completions_of_splits(dict, query, splits, max_results);
    if k < few.len() {
        completions_of_a_split_are_among_all(dict, query, few, max_results, k, j);
        let i = choose|i: int|
            0 <= i < earlier.len() && i < (k + 1) * max_results && #[trigger] earlier[i]
                == completions_of_split(dict, query, few[k], max_results)[j];
        assert(all[i] == earlier[i]);
    } else {
        completions_of_splits_are_few(dict, query, few, max_results);
        let i = earlier.len() + j;
        assert(all[i] == completions_of_split(dict, query, splits[k], max_results)[j]);
        assert(earlier.len() <= k * max_results);
        assert((k + 1) * max_results == k * max_results + max_results) by (nonlinear_arith);
    }
}

proof fn completions_of_splits_are_few<D: Dictionary>(
    dict: &D,
    query: CompletionQuery,
    splits: Seq<(Seq<char>, Seq<char>)>,
    max_results: nat,
)
    ensures
        completions_of_splits(dict, query, splits, max_results).len() <= splits.len()
            * max_results,
    decreases splits.len(),
{
    if splits.len() > 0 {
        completions_of_splits_are_few(dict, query, splits.drop_last(), max_results);
        let n = splits.len() as int;
        assert(n * max_results == (n - 1) * max_results + max_results) by (nonlinear_arith);
    } else {
        assert(0 * max_results == 0) by (nonlinear_arith);
    }
}

/// Each of the first splits is completed as far as there is room for all up to it: the
/// completions of its right part after its left word, as many as asked for, are listed.
pub proof fn each_split_is_completed_while_there_is_room<D: Dictionary>(
    dict: &D,
    query: CompletionQuery,
    max_results: nat,
    split_min_right: nat,
    k: int,
    j: int,
)
    requires
        0 <= k < missed_space_splits(dict, query.prefix, split_min_right).len(),
        ({
            let split = missed_space_splits(dict, query.prefix, split_min_right)[k];
            let right = CompletionQuery {
                prefix: split.1,
                context: ContextView {
                    previous_word: Some(lower_each(split.0)),
                    ..query.context
                },
                ..query
            };
            let n: nat = if max_results < 2 {
                2
            } else {
                max_results
            };
            &&& 0 <= j < max_results
            &&& j < ranking(dict, right, n).len()
            &&& ranking(dict, query, n).len() + (k + 1) * max_results <= 2 * max_results
        }),
    ensures
        ({
            let split = missed_space_splits(dict, query.prefix, split_min_right)[k];
            let right = CompletionQuery {
                prefix: split.1,
                context: ContextView {
                    previous_word: Some(lower_each(split.0)),
                    ..query.context
                },
                ..query
            };
            let n: nat = if max_results < 2 {
                2
            } else {
                max_results
            };
            split_ranking(dict, query, max_results, split_min_right).contains(
                (SplitWord {
                    left: split.0,
                    right_prefix: split.1,
                    right_word: ranking(dict, right, n)[j].word,
                }),
            )
        }),
{
    let splits = missed_space_splits(dict, query.prefix, split_min_right);
    completions_of_a_split_are_among_all(dict, query, splits, max_results, k, j);
    let all = completions_of_splits(dict, query, splits, max_results);
    let wanted = completions_of_split(dict, query, splits[k], max_results)[j];
    let i = choose|i: int|
        0 <= i < all.len() && i < (k + 1) * max_results && #[trigger] all[i] == wanted;
    let found = split_ranking(dict, query, max_results, split_min_right);
    assert(found[i] == wanted);
}

/// Every split completion completes the right part of a split, after its left word, with one of
/// the first completions of it.
pub proof fn split_completions_complete_a_split<D: Dictionary>(
    dict: &D,
    query: CompletionQuery,
    max_results: nat,
    split_min_right: nat,
    i: int,
) -> (r: (int, int))
    requires
        0 <= i < split_ranking(dict, query, max_results, split_min_right).len(),
    ensures
        0 <= r.0 < missed_space_splits(dict, query.prefix, split_min_right).len(),
        0 <= r.1 < max_results,
        ({
            let split = missed_space_splits(dict, query.prefix, split_min_right)[r.0];
            let right = CompletionQuery {
                prefix: split.1,
                context: ContextView {
                    previous_word: Some(lower_each(split.0)),
                    ..query.context
                },
                ..query
            };
            let n: nat = if max_results < 2 {
                2
            } else {
                max_results
            };
            let found = split_ranking(dict, query, max_results, split_min_right)[i];
            &&& r.1 < ranking(dict, right, n).len()
            &&& found.left == split.0
            &&& found.right_prefix == split.1
            &&& found.right_word == ranking(dict, right, n)[r.1].word
        }),
{
    let splits = missed_space_splits(dict, query.prefix, split_min_right);
    let all = completions_of_splits(dict, query, splits, max_results);
    assert(split_ranking(dict, query, max_results, split_min_right)[i] == all[i]);
    split_of_a_completion(dict, query, splits, max_results, i)
}

proof fn split_of_a_completion<D: Dictionary>(
    dict: &D,
    query: CompletionQuery,
    splits: Seq<(Seq<char>, Seq<char>)>,
    max_results: nat,
    i: int,
) -> (r: (int, int))
    requires
        0 <= i < completions_of_splits(dict, query, splits, max_results).len(),
    ensures
        0 <= r.0 < splits.len(),
        0 <= r.1 < completions_of_split(dict, query, splits[r.0], max_results).len(),
        completions_of_splits(dict, query, splits, max_results)[i] == completions_of_split(
            dict,
            query,
            splits[r.0],
            max_results,
        )[r.1],
    decreases splits.len(),
{
    let few = splits.drop_last();
    let earlier = completions_of_splits(dict, query, few, max_results);
    if i < earlier.len() {
        let r = split_of_a_completion(dict, query, few, max_results, i);
        assert(few[r.0] == splits[r.0]);
        r
    } else {
        (splits.len() - 1, i - earlier.len())
    }
}

} // verus!
