//! The answer to a completion request.

use vstd::prelude::*;
use vstd::slice::slice_subrange;
use crate::chars::{chars_to_string, lower_each, lowercase_chars};
use crate::completion::casing::{apply_prefix_casing, with_prefix_casing};
use crate::completion::cost::{FrequencyLists, ListsView};
use crate::completion::cursor::{
    find_completion_word_bounds, is_cursor_in_lintable_region, is_lintable_at, word_run_end,
    word_run_start,
};
use crate::completion::order::{
    ranked_views, text_precedes, the_first_difference_orders_texts, RankedCompletion, RankedWord,
};
use crate::completion::rank::{ranking, CompletionQuery};
use crate::completion::splits::{
    accepts_space, completions_are_at_most_doubled, rank_completions_and_splits, ranked_count,
    should_item_commit_space, split_ranking, split_views, CompletionCommitWithSpace,
    SplitRankedItem, SplitWord,
};
use crate::completion::state::{DocumentState, StateView};
use crate::dictionary::Dictionary;
use crate::pos_conv::{
    fitting_lines_lie_within, index_of, line_starts, position_of, positions_lead_into_the_text,
    Position, Range,
};
use crate::word_frequency::string_views;

verus! {

/// How completions are configured.
#[derive(Debug, Clone, Copy, PartialEq, Eq, Structural)]
pub struct CompletionConfig {
    /// Whether completions are offered at all.
    pub enabled: bool,
    /// How many characters must be typed before completions are offered.
    pub min_prefix_length: usize,
    /// How many completions are offered.
    pub max_results: usize,
    /// When a typed space accepts a completion.
    pub commit_with_space: CompletionCommitWithSpace,
}

/// One completion, as it is handed to the editor.
#[derive(Debug)]
pub struct CompletionItem {
    pub label: String,
    pub detail: String,
    /// What is replaced: the full word under/around the cursor.
    pub range: Range,
    pub new_text: String,
    /// What the editor matches the typed text against. It is the candidate (not the typed
    /// prefix): with the prefix every item would vanish as soon as one more character is typed.
    pub filter_text: String,
    pub sort_text: String,
    /// The characters that accept the completion when they are typed.
    pub commit_characters: Option<Vec<String>>,
}

/// A [`CompletionItem`] in mathematical terms.
#[verifier::ext_equal]
pub struct ItemView {
    pub label: Seq<char>,
    pub detail: Seq<char>,
    pub range: Range,
    pub new_text: Seq<char>,
    pub filter_text: Seq<char>,
    pub sort_text: Seq<char>,
    pub commit_characters: Option<Seq<Seq<char>>>,
}

impl View for CompletionItem {
    type V = ItemView;

    open spec fn view(&self) -> ItemView {
        ItemView {
            label: self.label@,
            detail: self.detail@,
            range: self.range,
            new_text: self.new_text@,
            filter_text: self.filter_text@,
            sort_text: self.sort_text@,
            commit_characters: match self.commit_characters {
                Some(texts) => Some(string_views(texts@)),
                None => None,
            },
        }
    }
}

/// Items in mathematical terms.
pub open spec fn item_views(items: Seq<CompletionItem>) -> Seq<ItemView> {
    items.map_values(|i: CompletionItem| i@)
}

/// The character for a digit.
pub open spec fn digit_char(digit: nat) -> char {
    (('0' as u32) + digit) as char
}

/// A number in decimal.
pub open spec fn decimal(n: nat) -> Seq<char>
    decreases n,
{
    if n < 10 {
        seq![digit_char(n)]
    } else {
        decimal(n / 10).push(digit_char(n % 10))
    }
}

/// A number in decimal with zeros in front, if it has fewer than `width` digits.
pub open spec fn padded(n: nat, width: nat) -> Seq<char> {
    if decimal(n).len() >= width {
        decimal(n)
    } else {
        Seq::new((width - decimal(n).len()) as nat, |i: int| '0') + decimal(n)
    }
}

/// How many digits the place of an item is written with, at least.
pub const SORT_TEXT_WIDTH: usize = 5;

/// A digit as a character.
fn digit_to_char(digit: usize) -> (c: char)
    requires
        digit < 10,
    ensures
        c == digit_char(digit as nat),
{
    (48u8 + digit as u8) as char
}

/// The place of an item as a text that sorts like the number.
pub fn sort_text(place: usize) -> (text: String)
    ensures
        text@ == padded(place as nat, SORT_TEXT_WIDTH as nat),
{
    let mut backwards: Vec<char> = Vec::new();
    let mut rest: usize = place;
    while rest >= 10
        invariant
            decimal(place as nat) == decimal(rest as nat) + backwards@.reverse(),
        decreases rest,
    {
        let ghost before = backwards@;
        let digit = digit_to_char(rest % 10);
        backwards.push(digit);
        assert(decimal(rest as nat) == decimal(rest as nat / 10).push(digit));
        assert(backwards@.reverse() =~= seq![digit] + before.reverse());
        assert(decimal(rest as nat / 10).push(digit) + before.reverse() =~= decimal(
            rest as nat / 10,
        ) + backwards@.reverse());
        rest = rest / 10;
    }
    let ghost before = backwards@;
    let digit = digit_to_char(rest);
    backwards.push(digit);
    assert(backwards@.reverse() =~= seq![digit] + before.reverse());
    assert(decimal(place as nat) =~= backwards@.reverse());
    let ghost digits = backwards@.len();
    assert(Seq::new(0, |i: int| '0') + decimal(place as nat) =~= decimal(place as nat));
    let mut zeros: usize = 0;
    while backwards.len() < SORT_TEXT_WIDTH
        invariant
            backwards@.len() == digits + zeros,
            digits + zeros <= SORT_TEXT_WIDTH || zeros == 0,
            digits == decimal(place as nat).len(),
            backwards@.reverse() == Seq::new(zeros as nat, |i: int| '0') + decimal(place as nat),
        decreases SORT_TEXT_WIDTH - backwards@.len(),
    {
        let ghost earlier = backwards@;
        backwards.push('0');
        assert(backwards@.reverse() =~= seq!['0'] + earlier.reverse());
        assert(backwards@.reverse() =~= Seq::new(zeros as nat + 1, |i: int| '0') + decimal(
            place as nat,
        ));
        zeros += 1;
    }
    let mut text = String::new();
    let mut k: usize = backwards.len();
    assert(backwards@.reverse() =~= padded(place as nat, SORT_TEXT_WIDTH as nat));
    while k > 0
        invariant
            k <= backwards@.len(),
            text@ == backwards@.reverse().take(backwards@.len() - k),
        decreases k,
    {
        k -= 1;
        text.push(backwards[k]);
        assert(text@ =~= backwards@.reverse().take(backwards@.len() - k));
    }
    assert(text@ =~= backwards@.reverse());
    text
}

/// The text on every item that tells where it comes from.
pub open spec fn item_detail() -> Seq<char> {
    "Harper"@
}

/// The item for the completion at an index.
pub open spec fn word_item(
    prefix: Seq<char>,
    range: Range,
    completions: Seq<RankedWord>,
    index: int,
    commit_with_space: CompletionCommitWithSpace,
) -> ItemView {
    let word = completions[index].word;
    ItemView {
        label: word,
        detail: item_detail(),
        range,
        new_text: with_prefix_casing(prefix, word),
        filter_text: word,
        sort_text: padded(index as nat, SORT_TEXT_WIDTH as nat),
        commit_characters: space_if(accepts_space(index as nat, completions, commit_with_space)),
    }
}

/// The characters that accept an item: the space, or none.
pub open spec fn space_if(accepts: bool) -> Option<Seq<Seq<char>>> {
    if accepts {
        Some(seq![" "@])
    } else {
        None
    }
}

/// The item for a completion that puts a missed space back. What it is filtered by has no space,
/// so that what was typed ("thenworld") still matches the two words ("theworld"). It is never a
/// clear choice, so a space accepts it only where a space accepts every item.
pub open spec fn split_item(
    range: Range,
    split: SplitWord,
    place: nat,
    commit_with_space: CompletionCommitWithSpace,
) -> ItemView {
    let left = lower_each(split.left);
    ItemView {
        label: left + " "@ + split.right_word,
        detail: item_detail(),
        range,
        new_text: with_prefix_casing(split.left, left) + " "@ + with_prefix_casing(
            split.right_prefix,
            split.right_word,
        ),
        filter_text: left + split.right_word,
        sort_text: padded(place, SORT_TEXT_WIDTH as nat),
        commit_characters: space_if(commit_with_space == CompletionCommitWithSpace::Always),
    }
}

/// The items for completions of single words, at most as many as asked for.
pub open spec fn word_items(
    prefix: Seq<char>,
    range: Range,
    completions: Seq<RankedWord>,
    config: CompletionConfig,
) -> Seq<ItemView> {
    let count = if completions.len() <= config.max_results {
        completions.len()
    } else {
        config.max_results as nat
    };
    Seq::new(
        count,
        |i: int| word_item(prefix, range, completions, i, config.commit_with_space),
    )
}

/// The items for completions that put a missed space back, which come after the others so that
/// they don't displace single-word completions.
pub open spec fn split_items(
    range: Range,
    splits: Seq<SplitWord>,
    first_place: nat,
    commit_with_space: CompletionCommitWithSpace,
) -> Seq<ItemView> {
    Seq::new(
        splits.len(),
        |i: int| split_item(range, splits[i], (first_place + i) as nat, commit_with_space),
    )
}

/// How many characters must follow a missed space.
pub open spec fn split_min_right(config: CompletionConfig) -> nat {
    if config.min_prefix_length < 2 {
        2
    } else {
        config.min_prefix_length as nat
    }
}

/// What is asked for at a cursor.
pub open spec fn query_at(lists: ListsView, state: StateView, cursor: nat) -> CompletionQuery {
    let start = word_run_start(state.source, cursor);
    let end = word_run_end(state.source, cursor);
    CompletionQuery {
        lists,
        prefix: state.source.subrange(start as int, cursor as int),
        context: state.context_at(start, end),
        misspelled: state.misspelled,
    }
}

/// Where the word at a cursor stands, as the editor counts.
pub open spec fn range_at(source: Seq<char>, cursor: nat) -> Range {
    Range {
        start: position_of(source, line_starts(source), word_run_start(source, cursor)),
        end: position_of(source, line_starts(source), word_run_end(source, cursor)),
    }
}

/// Whether completions are offered at a cursor.
pub open spec fn is_completed_at(
    config: CompletionConfig,
    state: StateView,
    cursor: nat,
) -> bool {
    &&& config.enabled
    &&& is_lintable_at(state.tokens, cursor)
    &&& cursor - word_run_start(state.source, cursor) >= config.min_prefix_length
    &&& config.max_results > 0
}

/// The items offered at a position of a document.
pub open spec fn items_at<D: Dictionary>(
    dict: &D,
    lists: ListsView,
    config: CompletionConfig,
    state: StateView,
    position: Position,
) -> Seq<ItemView> {
    let cursor = index_of(state.source, line_starts(state.source), position);
    let query = query_at(lists, state, cursor);
    let range = range_at(state.source, cursor);
    let n = config.max_results as nat;
    if !is_completed_at(config, state, cursor) {
        Seq::empty()
    } else {
        let words = word_items(
            query.prefix,
            range,
            ranking(dict, query, ranked_count(n)),
            config,
        );
        words + split_items(
            range,
            split_ranking(dict, query, n, split_min_right(config)),
            words.len(),
            config.commit_with_space,
        )
    }
}

/// The completions that are offered at a position of a document.
pub fn generate_completions<D: Dictionary>(
    dict: &D,
    lists: &FrequencyLists,
    config: CompletionConfig,
    state: &DocumentState,
    position: Position,
) -> (items: Vec<CompletionItem>)
    ensures
        item_views(items@) == items_at(dict, lists@, config, state@, position),
{
    let mut items: Vec<CompletionItem> = Vec::new();
    let source = state.source().as_slice();
    let line_index = state.line_index();
    proof {
        fitting_lines_lie_within(line_index@, source@.len());
    }
    let cursor_index = line_index.position_to_index(source, position);
    let source_len: usize = source.len();
    proof {
        assert(source_len == source@.len());
        positions_lead_into_the_text(source@, position);
        assert(item_views(items@) =~= Seq::<ItemView>::empty());
    }
    // Only complete inside lintable regions (comments/docstrings/prose).
    if !config.enabled || !is_cursor_in_lintable_region(state.document(), cursor_index) {
        return items;
    }
    let (word_start, word_end) = find_completion_word_bounds(source, cursor_index);
    let prefix = slice_subrange(source, word_start, cursor_index);
    // Don't show completions for very short prefixes
    if prefix.len() < config.min_prefix_length || config.max_results == 0 {
        return items;
    }
    let context = state.completion_context(word_start, word_end);
    let min_right = if config.min_prefix_length < 2 {
        2
    } else {
        config.min_prefix_length
    };
    let (completions, splits) = rank_completions_and_splits(
        dict,
        lists,
        prefix,
        &context,
        state.misspelled_words(),
        config.max_results,
        min_right,
    );
    let range = Range {
        start: line_index.index_to_position(source, word_start),
        end: line_index.index_to_position(source, word_end),
    };
    let ghost cursor = cursor_index as nat;
    let ghost query = query_at(lists@, state@, cursor);
    assert(range == range_at(source@, cursor));
    assert(query.prefix == prefix@);
    add_word_items(prefix, range, &completions, config, &mut items);
    add_split_items(range, &splits, config.commit_with_space, &mut items);
    items
}

/// The text on every item that tells where it comes from.
fn detail_text() -> (text: String)
    ensures
        text@ == item_detail(),
{
    "Harper".to_owned()
}

/// The characters that accept an item: the space, or none.
fn commit_characters(accepts: bool) -> (texts: Option<Vec<String>>)
    ensures
        match texts {
            Some(t) => Some(string_views(t@)),
            None => None,
        } == space_if(accepts),
{
    if !accepts {
        return None;
    }
    let mut texts: Vec<String> = Vec::new();
    texts.push(" ".to_owned());
    assert(string_views(texts@) =~= seq![" "@]);
    Some(texts)
}

/// Adds the items for completions of single words.
fn add_word_items(
    prefix: &[char],
    range: Range,
    completions: &Vec<RankedCompletion>,
    config: CompletionConfig,
    items: &mut Vec<CompletionItem>,
)
    requires
        old(items)@.len() == 0,
    ensures
        item_views(final(items)@) == word_items(
            prefix@,
            range,
            ranked_views(completions@),
            config,
        ),
{
    let ghost all = word_items(prefix@, range, ranked_views(completions@), config);
    let mut i: usize = 0;
    assert(item_views(items@) =~= all.take(0));
    while i < completions.len() && i < config.max_results
        invariant
            i <= completions@.len(),
            i <= config.max_results,
            items@.len() == i,
            all == word_items(prefix@, range, ranked_views(completions@), config),
            item_views(items@) == all.take(i as int),
        decreases completions@.len() - i,
    {
        let ghost before = items@;
        let word = &completions[i].word;
        // Apply the casing from the user's prefix to the completion
        let new_text = apply_prefix_casing(prefix, word.as_str());
        let accepts = should_item_commit_space(i, completions, config.commit_with_space);
        items.push(
            CompletionItem {
                label: word.clone(),
                detail: detail_text(),
                range,
                new_text,
                filter_text: word.clone(),
                sort_text: sort_text(i),
                commit_characters: commit_characters(accepts),
            },
        );
        assert(items@[i as int]@ =~= all[i as int]);
        assert(item_views(items@) =~= item_views(before).push(all[i as int]));
        assert(item_views(items@) =~= all.take(i + 1));
        i += 1;
    }
    assert(all.take(i as int) =~= all);
}

/// Two texts, one after the other.
fn joined(first: &String, separator: &str, second: &String) -> (text: String)
    ensures
        text@ == first@ + separator@ + second@,
{
    let mut text = first.clone();
    text.append(separator);
    text.append(second.as_str());
    text
}

/// Adds the items for completions that put a missed space back.
fn add_split_items(
    range: Range,
    splits: &Vec<SplitRankedItem>,
    commit_with_space: CompletionCommitWithSpace,
    items: &mut Vec<CompletionItem>,
)
    ensures
        item_views(final(items)@) == item_views(old(items)@) + split_items(
            range,
            split_views(splits@),
            old(items)@.len(),
            commit_with_space,
        ),
{
    let ghost earlier = item_views(items@);
    let ghost first_place = items@.len();
    let ghost all = split_items(range, split_views(splits@), first_place, commit_with_space);
    let accepts = matches!(commit_with_space, CompletionCommitWithSpace::Always);
    let mut i: usize = 0;
    assert(item_views(items@) =~= earlier + all.take(0));
    while i < splits.len()
        invariant
            i <= splits@.len(),
            accepts == (commit_with_space == CompletionCommitWithSpace::Always),
            items@.len() == first_place + i,
            earlier.len() == first_place,
            all == split_items(range, split_views(splits@), first_place, commit_with_space),
            item_views(items@) == earlier + all.take(i as int),
        decreases splits@.len() - i,
    {
        let ghost before = items@;
        let split = &splits[i];
        let left_lower = chars_to_string(lowercase_chars(split.left_chars.as_slice()).as_slice());
        let left_display = apply_prefix_casing(split.left_chars.as_slice(), left_lower.as_str());
        let right_display = apply_prefix_casing(
            split.right_prefix.as_slice(),
            split.right_word.as_str(),
        );
        let mut filter_text = left_lower.clone();
        filter_text.append(split.right_word.as_str());
        let place = items.len();
        items.push(
            CompletionItem {
                label: joined(&left_lower, " ", &split.right_word),
                detail: detail_text(),
                range,
                new_text: joined(&left_display, " ", &right_display),
                filter_text,
                sort_text: sort_text(place),
                commit_characters: commit_characters(accepts),
            },
        );
        assert(split_views(splits@)[i as int] == split@);
        assert(items@[first_place + i]@ =~= all[i as int]);
        assert(item_views(items@) =~= item_views(before).push(all[i as int]));
        assert(item_views(items@) =~= earlier + all.take(i + 1));
        i += 1;
    }
    assert(all.take(i as int) =~= all);
}

/// The answer to a completion request.
#[derive(Debug)]
pub struct CompletionList {
    /// Whether the editor should ask again as more is typed.
    pub is_incomplete: bool,
    pub items: Vec<CompletionItem>,
}

/// Answers a completion request; a document that is not open has no completions.
///
/// The list is always incomplete. Some editors take a missing or a complete empty list for "stop
/// asking", which kills the popup after a single miss (end of text, unlintable, short prefix).
pub fn completion<D: Dictionary>(
    dict: &D,
    lists: &FrequencyLists,
    config: CompletionConfig,
    state: Option<&DocumentState>,
    position: Position,
) -> (list: CompletionList)
    ensures
        list.is_incomplete,
        item_views(list.items@) == match state {
            Some(s) => items_at(dict, lists@, config, s@, position),
            None => Seq::empty(),
        },
{
    let items = match state {
        Some(s) => generate_completions(dict, lists, config, s, position),
        None => Vec::new(),
    };
    assert(state is None ==> item_views(items@) =~= Seq::<ItemView>::empty());
    CompletionList { is_incomplete: true, items }
}

/// Items are numbered through from zero in the order in which they are offered, and all replace
/// the same word; there are never more than twice as many as asked for, and none unless all of
/// the conditions for offering any are met.
pub proof fn items_are_numbered_through<D: Dictionary>(
    dict: &D,
    lists: ListsView,
    config: CompletionConfig,
    state: StateView,
    position: Position,
)
    ensures
        ({
            let items = items_at(dict, lists, config, state, position);
            let cursor = index_of(state.source, line_starts(state.source), position);
            &&& items.len() <= 2 * config.max_results
            &&& items.len() > 0 ==> is_completed_at(config, state, cursor)
            &&& forall|i: int|
                0 <= i < items.len() ==> (#[trigger] items[i]).sort_text == padded(
                    i as nat,
                    SORT_TEXT_WIDTH as nat,
                ) && items[i].range == range_at(state.source, cursor)
        }),
{
    let cursor = index_of(state.source, line_starts(state.source), position);
    let query = query_at(lists, state, cursor);
    if config.max_results > 0 {
        completions_are_at_most_doubled(
            dict,
            query,
            config.max_results as nat,
            split_min_right(config),
        );
    }
}

/// A space accepts every item where that is configured, and none where that is. Where it accepts
/// what is clearly meant, it accepts the first item at most.
pub proof fn a_space_accepts_items_as_configured<D: Dictionary>(
    dict: &D,
    lists: ListsView,
    config: CompletionConfig,
    state: StateView,
    position: Position,
)
    ensures
        ({
            let items = items_at(dict, lists, config, state, position);
            &&& config.commit_with_space == CompletionCommitWithSpace::Always ==> forall|i: int|
                0 <= i < items.len() ==> (#[trigger] items[i]).commit_characters == Some(
                    seq![" "@],
                )
            &&& config.commit_with_space == CompletionCommitWithSpace::Never ==> forall|i: int|
                0 <= i < items.len() ==> (#[trigger] items[i]).commit_characters is None
            &&& config.commit_with_space == CompletionCommitWithSpace::Confident ==> forall|i: int|
                1 <= i < items.len() ==> (#[trigger] items[i]).commit_characters is None
        }),
{
}

proof fn five_digits(n: nat)
    requires
        n < 100_000,
    ensures
        padded(n, 5) == seq![
            digit_char(n / 10_000),
            digit_char(n / 1_000 % 10),
            digit_char(n / 100 % 10),
            digit_char(n / 10 % 10),
            digit_char(n % 10),
        ],
{
    reveal_with_fuel(decimal, 6);
    let d = padded(n, 5);
    let e = seq![
        digit_char(n / 10_000),
        digit_char(n / 1_000 % 10),
        digit_char(n / 100 % 10),
        digit_char(n / 10 % 10),
        digit_char(n % 10),
    ];
    assert(n / 10 / 10 == n / 100);
    assert(n / 10 / 10 / 10 == n / 1_000);
    assert(n / 10 / 10 / 10 / 10 == n / 10_000);
    assert(d =~= e);
}

/// Up to a hundred thousand items, the texts that items are sorted by order them as they are
/// numbered.
pub proof fn sort_texts_keep_the_order(earlier: nat, later: nat)
    requires
        earlier < later < 100_000,
    ensures
        text_precedes(
            padded(earlier, SORT_TEXT_WIDTH as nat),
            padded(later, SORT_TEXT_WIDTH as nat),
        ),
{
    five_digits(earlier);
    five_digits(later);
    digits_add_up(earlier);
    digits_add_up(later);
    let x = digits_of(earlier);
    let y = digits_of(later);
    let at = first_difference(x, y);
    let a = padded(earlier, 5);
    let b = padded(later, 5);
    assert(a == x.map_values(|d: nat| digit_char(d)));
    assert(b == y.map_values(|d: nat| digit_char(d)));
    the_first_difference_orders_texts(a, b, at);
}

/// The five digits of a number, the first one first.
spec fn digits_of(n: nat) -> Seq<nat> {
    seq![n / 10_000, n / 1_000 % 10, n / 100 % 10, n / 10 % 10, n % 10]
}

proof fn digits_add_up(n: nat)
    requires
        n < 100_000,
    ensures
        forall|i: int| 0 <= i < 5 ==> #[trigger] digits_of(n)[i] < 10,
        n == 10_000 * digits_of(n)[0] + 1_000 * digits_of(n)[1] + 100 * digits_of(n)[2] + 10
            * digits_of(n)[3] + digits_of(n)[4],
{
    assert(n / 10_000 < 10);
    assert(n / 1_000 == 10 * (n / 10_000) + n / 1_000 % 10);
    assert(n / 100 == 10 * (n / 1_000) + n / 100 % 10);
    assert(n / 10 == 10 * (n / 100) + n / 10 % 10);
    assert(n == 10 * (n / 10) + n % 10);
}

proof fn first_difference(x: Seq<nat>, y: Seq<nat>) -> (at: int)
    requires
        x.len() == 5,
        y.len() == 5,
        forall|i: int| 0 <= i < 5 ==> #[trigger] x[i] < 10,
        forall|i: int| 0 <= i < 5 ==> #[trigger] y[i] < 10,
        10_000 * x[0] + 1_000 * x[1] + 100 * x[2] + 10 * x[3] + x[4] < 10_000 * y[0] + 1_000 * y[1]
            + 100 * y[2] + 10 * y[3] + y[4],
    ensures
        0 <= at < 5,
        x[at] < y[at] < 10,
        forall|k: int| 0 <= k < at ==> #[trigger] x[k] == y[k],
{
    assert(x[0] < 10 && x[1] < 10 && x[2] < 10 && x[3] < 10 && x[4] < 10);
    assert(y[0] < 10 && y[1] < 10 && y[2] < 10 && y[3] < 10 && y[4] < 10);
    if x[0] != y[0] {
        0
    } else if x[1] != y[1] {
        1
    } else if x[2] != y[2] {
        2
    } else if x[3] != y[3] {
        3
    } else {
        4
    }
}

/// Items are offered exactly where completions are enabled and asked for, the cursor stands in
/// prose, and enough of the word is typed. The first items are the completions of what is typed
/// of the word, in their order; each shows and is filtered by the word, and puts it in the casing
/// of what is typed in the place of the whole word at the cursor.
pub proof fn items_show_the_completions<D: Dictionary>(
    dict: &D,
    lists: ListsView,
    config: CompletionConfig,
    state: StateView,
    position: Position,
    i: int,
)
    requires
        0 <= i < config.max_results,
        ({
            let cursor = index_of(state.source, line_starts(state.source), position);
            let start = word_run_start(state.source, cursor);
            let query = CompletionQuery {
                lists,
                prefix: state.source.subrange(start as int, cursor as int),
                context: state.context_at(start, word_run_end(state.source, cursor)),
                misspelled: state.misspelled,
            };
            &&& config.enabled
            &&& is_lintable_at(state.tokens, cursor)
            &&& cursor >= start + config.min_prefix_length
            &&& i < ranking(
                dict,
                query,
                if config.max_results < 2 {
                    2
                } else {
                    config.max_results as nat
                },
            ).len()
        }),
    ensures
        ({
            let cursor = index_of(state.source, line_starts(state.source), position);
            let start = word_run_start(state.source, cursor);
            let end = word_run_end(state.source, cursor);
            let prefix = state.source.subrange(start as int, cursor as int);
            let query = CompletionQuery {
                lists,
                prefix,
                context: state.context_at(start, end),
                misspelled: state.misspelled,
            };
            let found = ranking(
                dict,
                query,
                if config.max_results < 2 {
                    2
                } else {
                    config.max_results as nat
                },
            );
            let items = items_at(dict, lists, config, state, position);
            &&& i < items.len()
            &&& items[i].label == found[i].word
            &&& items[i].filter_text == found[i].word
            &&& items[i].new_text == with_prefix_casing(prefix, found[i].word)
            &&& items[i].detail == "Harper"@
            &&& items[i].range.start == position_of(state.source, line_starts(state.source), start)
            &&& items[i].range.end == position_of(state.source, line_starts(state.source), end)
            &&& items[i].commit_characters == if accepts_space(
                i as nat,
                found,
                config.commit_with_space,
            ) {
                Some(seq![" "@])
            } else {
                None
            }
        }),
{
}

/// No item is offered where completions are not enabled, where none are asked for, where the
/// cursor does not stand in prose, or where too little of the word is typed.
pub proof fn no_items_without_every_condition<D: Dictionary>(
    dict: &D,
    lists: ListsView,
    config: CompletionConfig,
    state: StateView,
    position: Position,
)
    requires
        ({
            let cursor = index_of(state.source, line_starts(state.source), position);
            !config.enabled || config.max_results == 0 || !is_lintable_at(state.tokens, cursor)
                || cursor < word_run_start(state.source, cursor) + config.min_prefix_length
        }),
    ensures
        items_at(dict, lists, config, state, position).len() == 0,
{
}

/// After the completions of single words come the split ones, in their order. Each shows the left
/// word in lowercase and the right one with a space between, is filtered by both without the
/// space, and puts each in the casing of its part.
pub proof fn items_show_the_split_completions<D: Dictionary>(
    dict: &D,
    lists: ListsView,
    config: CompletionConfig,
    state: StateView,
    position: Position,
    j: int,
)
    requires
        ({
            let cursor = index_of(state.source, line_starts(state.source), position);
            let start = word_run_start(state.source, cursor);
            let query = CompletionQuery {
                lists,
                prefix: state.source.subrange(start as int, cursor as int),
                context: state.context_at(start, word_run_end(state.source, cursor)),
                misspelled: state.misspelled,
            };
            &&& config.enabled
            &&& config.max_results > 0
            &&& is_lintable_at(state.tokens, cursor)
            &&& cursor >= start + config.min_prefix_length
            &&& 0 <= j < split_ranking(
                dict,
                query,
                config.max_results as nat,
                if config.min_prefix_length < 2 {
                    2
                } else {
                    config.min_prefix_length as nat
                },
            ).len()
        }),
    ensures
        ({
            let cursor = index_of(state.source, line_starts(state.source), position);
            let start = word_run_start(state.source, cursor);
            let n = config.max_results as nat;
            let query = CompletionQuery {
                lists,
                prefix: state.source.subrange(start as int, cursor as int),
                context: state.context_at(start, word_run_end(state.source, cursor)),
                misspelled: state.misspelled,
            };
            let words = ranking(
                dict,
                query,
                if n < 2 {
                    2
                } else {
                    n
                },
            ).len();
            let first = if words < n {
                words
            } else {
                n
            };
            let split = split_ranking(
                dict,
                query,
                n,
                if config.min_prefix_length < 2 {
                    2
                } else {
                    config.min_prefix_length as nat
                },
            )[j];
            let items = items_at(dict, lists, config, state, position);
            let item = items[first + j];
            let left = lower_each(split.left);
            &&& first + j < items.len()
            &&& item.label == left.push(' ') + split.right_word
            &&& item.filter_text == left + split.right_word
            &&& item.new_text == with_prefix_casing(split.left, left).push(' ')
                + with_prefix_casing(split.right_prefix, split.right_word)
            &&& item.detail == "Harper"@
        }),
{
    let cursor = index_of(state.source, line_starts(state.source), position);
    let query = query_at(lists, state, cursor);
    let n = config.max_results as nat;
    let split = split_ranking(dict, query, n, split_min_right(config))[j];
    let left = lower_each(split.left);
    reveal_strlit(" ");
    assert(left + " "@ + split.right_word =~= left.push(' ') + split.right_word);
    let cased = with_prefix_casing(split.left, left);
    let right = with_prefix_casing(split.right_prefix, split.right_word);
    assert(cased + " "@ + right =~= cased.push(' ') + right);
}

/// The place of an item is written in decimal: the digits have the value of the number, and there
/// are five of them at least, as many as the number needs where it needs more.
pub proof fn sort_texts_are_decimal_numbers(n: nat)
    ensures
        padded(n, SORT_TEXT_WIDTH as nat).len() >= 5,
        n >= 10 ==> decimal(n) == decimal(n / 10) + decimal(n % 10),
        n < 10 ==> decimal(n) == seq!["0123456789"@[n as int]],
        decimal(n).len() >= 5 ==> padded(n, SORT_TEXT_WIDTH as nat) == decimal(n),
        decimal(n).len() < 5 ==> padded(n, SORT_TEXT_WIDTH as nat) == Seq::new(
            (5 - decimal(n).len()) as nat,
            |i: int| '0',
        ) + decimal(n),
{
    reveal_strlit("0123456789");
    if n >= 10 {
        assert(decimal(n) =~= decimal(n / 10) + decimal(n % 10));
    }
}

} // verus!
