//! Word-frequency data used to rank completion suggestions.
//!
//! A list holds one lowercase entry per line, most frequent first, and the position of a line is
//! the frequency rank of its entry (0 = most frequent). Entries are single words or, for
//! collocations, two words with a space between them. What is absent from the list has no rank
//! and falls back to coarser signals (e.g. the dictionary's `common` flag).

use vstd::prelude::*;
use vstd::hash_map::StringHashMap;
use crate::chars::{
    ascii_lower_each, chars_to_string, is_ascii_text, is_whitespace_char, lowercase_text,
    string_to_chars,
};

verus! {

/// The number of characters before the first line feed.
pub open spec fn line_len(s: Seq<char>) -> nat
    decreases s.len(),
{
    if s.len() == 0 || s[0] == '\n' {
        0
    } else {
        1 + line_len(s.drop_first())
    }
}

/// The lines of a text, without their line feeds; the last one needs none.
pub open spec fn text_lines(s: Seq<char>) -> Seq<Seq<char>>
    decreases s.len(),
{
    let n = line_len(s);
    if s.len() == 0 {
        Seq::empty()
    } else if n >= s.len() {
        seq![s]
    } else {
        seq![s.take(n as int)] + text_lines(s.skip(n as int + 1))
    }
}

/// A text without the whitespace that it starts and ends with.
pub open spec fn trimmed(s: Seq<char>) -> Seq<char>
    decreases s.len(),
{
    if s.len() == 0 {
        s
    } else if is_whitespace_char(s.first()) {
        trimmed(s.drop_first())
    } else if is_whitespace_char(s.last()) {
        trimmed(s.drop_last())
    } else {
        s
    }
}

/// The entries of a frequency list: its lines, each without the whitespace around it.
pub open spec fn list_entries(text: Seq<char>) -> Seq<Seq<char>> {
    text_lines(text).map_values(|line: Seq<char>| trimmed(line))
}

/// The position of the first entry that is `word`.
pub open spec fn first_position(entries: Seq<Seq<char>>, word: Seq<char>) -> Option<nat>
    decreases entries.len(),
{
    if entries.len() == 0 {
        None
    } else {
        match first_position(entries.drop_last(), word) {
            Some(i) => Some(i),
            None => if entries.last() == word {
                Some((entries.len() - 1) as nat)
            } else {
                None
            },
        }
    }
}

/// The rank that a list gives to exactly this entry. An empty line is no entry.
pub open spec fn exact_rank(entries: Seq<Seq<char>>, entry: Seq<char>) -> Option<u32> {
    match first_position(entries, entry) {
        Some(i) if entry.len() > 0 => Some(i as u32),
        _ => None,
    }
}

/// The rank that a list gives to an entry, in the given case or else in lowercase.
pub open spec fn listed_rank(entries: Seq<Seq<char>>, entry: Seq<char>) -> Option<u32> {
    if entry.len() == 0 {
        None
    } else if exact_rank(entries, entry) is Some {
        exact_rank(entries, entry)
    } else {
        exact_rank(entries, lowercase_text(entry))
    }
}

/// How a collocation of two words stands in a list.
pub open spec fn pair_entry(previous_word: Seq<char>, word: Seq<char>) -> Seq<char> {
    previous_word + seq![' '] + word
}

/// The rank that a list gives to a collocation of two words.
pub open spec fn listed_pair_rank(
    entries: Seq<Seq<char>>,
    previous_word: Seq<char>,
    word: Seq<char>,
) -> Option<u32> {
    if previous_word.len() == 0 || word.len() == 0 {
        None
    } else {
        listed_rank(entries, pair_entry(previous_word, word))
    }
}

/// Whether `word` begins with `prefix`.
pub open spec fn begins_with(word: Seq<char>, prefix: Seq<char>) -> bool {
    prefix.len() <= word.len() && word.take(prefix.len() as int) == prefix
}

/// The entries that begin with `prefix`, in the order of the list.
pub open spec fn entries_with_prefix(
    entries: Seq<Seq<char>>,
    prefix: Seq<char>,
) -> Seq<Seq<char>>
    decreases entries.len(),
{
    if entries.len() == 0 {
        Seq::empty()
    } else {
        let earlier = entries_with_prefix(entries.drop_last(), prefix);
        if begins_with(entries.last(), prefix) {
            earlier.push(entries.last())
        } else {
            earlier
        }
    }
}

/// The first `limit` items of a sequence, or all of them where there are fewer.
pub open spec fn at_most<T>(s: Seq<T>, limit: nat) -> Seq<T> {
    if s.len() <= limit {
        s
    } else {
        s.take(limit as int)
    }
}

/// The most frequent entries that begin with `prefix`, at most `limit` of them.
pub open spec fn most_frequent(
    entries: Seq<Seq<char>>,
    prefix: Seq<char>,
    limit: nat,
) -> Seq<Seq<char>> {
    if lowercase_text(prefix).len() == 0 || limit == 0 {
        Seq::empty()
    } else {
        at_most(entries_with_prefix(entries, lowercase_text(prefix)), limit)
    }
}

/// The contents of vectors of characters.
pub open spec fn char_views(words: Seq<Vec<char>>) -> Seq<Seq<char>> {
    words.map_values(|w: Vec<char>| w@)
}

/// The contents of strings.
pub open spec fn string_views(words: Seq<String>) -> Seq<Seq<char>> {
    words.map_values(|w: String| w@)
}

/// A frequency-ordered list of words or collocations, with the rank of each at hand.
pub struct FrequencyList {
    entries: Vec<Vec<char>>,
    ranks: StringHashMap<u32>,
}

impl View for FrequencyList {
    type V = Seq<Seq<char>>;

    closed spec fn view(&self) -> Seq<Seq<char>> {
        char_views(self.entries@)
    }
}

/// Whether a table holds exactly the ranks of the given entries.
spec fn is_rank_table(ranks: Map<Seq<char>, u32>, entries: Seq<Seq<char>>) -> bool {
    forall|w: Seq<char>| #[trigger]
        exact_rank(entries, w) == if ranks.contains_key(w) {
            Some(ranks[w])
        } else {
            None
        }
}

impl FrequencyList {
    #[verifier::type_invariant]
    spec fn ranks_match_entries(self) -> bool {
        is_rank_table(self.ranks@, char_views(self.entries@))
    }

    /// Reads a list from its text.
    pub fn new(text: &str) -> (list: Self)
        requires
            text@.len() < u32::MAX,
        ensures
            list@ == list_entries(text@),
    {
        let chars = string_to_chars(text);
        let entries = split_entries(chars.as_slice());
        proof {
            lines_are_no_more_than_characters(text@);
            assert(char_views(entries@).len() == entries@.len());
        }
        let ranks = frequency_ranks(&entries);
        FrequencyList { entries, ranks }
    }

    /// The rank of exactly this entry.
    fn exact(&self, entry: &str) -> (rank: Option<u32>)
        ensures
            rank == exact_rank(self@, entry@),
    {
        proof {
            use_type_invariant(self);
        }
        match self.ranks.get(entry) {
            Some(rank) => Some(*rank),
            None => None,
        }
    }

    /// The rank of an entry, in the given case or else in lowercase.
    fn rank(&self, entry: &str) -> (rank: Option<u32>)
        requires
            entry@.len() > 0,
        ensures
            rank == listed_rank(self@, entry@),
    {
        // The list is lowercase; completion candidates are normalized before lookup,
        // so the exact lookup hits in the common case.
        if let Some(rank) = self.exact(entry) {
            return Some(rank);
        }
        let lowercase = entry.to_lowercase();
        self.exact(lowercase.as_str())
    }
}

proof fn line_len_is_within(s: Seq<char>)
    ensures
        line_len(s) <= s.len(),
        line_len(s) < s.len() ==> s[line_len(s) as int] == '\n',
        forall|k: int| 0 <= k < line_len(s) ==> #[trigger] s[k] != '\n',
    decreases s.len(),
{
    if s.len() > 0 && s[0] != '\n' {
        let rest = s.drop_first();
        line_len_is_within(rest);
        assert forall|k: int| 0 <= k < line_len(s) implies #[trigger] s[k] != '\n' by {
            if k > 0 {
                assert(s[k] == rest[k - 1]);
            }
        }
    }
}

proof fn line_len_is_the_first_feed(s: Seq<char>, n: nat)
    requires
        n <= s.len(),
        n < s.len() ==> s[n as int] == '\n',
        forall|k: int| 0 <= k < n ==> #[trigger] s[k] != '\n',
    ensures
        line_len(s) == n,
{
    line_len_is_within(s);
    if line_len(s) < n {
        assert(s[line_len(s) as int] != '\n');
    }
}

proof fn lines_are_no_more_than_characters(s: Seq<char>)
    ensures
        text_lines(s).len() <= s.len(),
    decreases s.len(),
{
    line_len_is_within(s);
    let n = line_len(s);
    if n < s.len() {
        lines_are_no_more_than_characters(s.skip(n as int + 1));
    }
}

/// Cuts the whitespace off both ends of a line.
fn trim(line: &[char]) -> (r: Vec<char>)
    ensures
        r@ == trimmed(line@),
{
    let mut start: usize = 0;
    let mut end: usize = line.len();
    assert(line@.subrange(0, line@.len() as int) == line@);
    while start < end && line[start].is_whitespace()
        invariant
            start <= end <= line@.len(),
            trimmed(line@) == trimmed(line@.subrange(start as int, end as int)),
        decreases end - start,
    {
        proof {
            let middle = line@.subrange(start as int, end as int);
            assert(middle.first() == line@[start as int]);
            assert(middle.drop_first() == line@.subrange(start + 1, end as int));
        }
        start += 1;
    }
    while start < end && line[end - 1].is_whitespace()
        invariant
            start <= end <= line@.len(),
            start < end ==> !is_whitespace_char(line@[start as int]),
            trimmed(line@) == trimmed(line@.subrange(start as int, end as int)),
        decreases end - start,
    {
        proof {
            let middle = line@.subrange(start as int, end as int);
            assert(middle.first() == line@[start as int]);
            assert(middle.last() == line@[end - 1]);
            assert(middle.drop_last() == line@.subrange(start as int, end - 1));
        }
        end -= 1;
    }
    proof {
        let middle = line@.subrange(start as int, end as int);
        if start < end {
            assert(middle.first() == line@[start as int]);
            assert(middle.last() == line@[end - 1]);
        }
        assert(trimmed(middle) == middle);
    }
    vstd::slice::slice_to_vec(vstd::slice::slice_subrange(line, start, end))
}

/// Splits a text into lines and cuts the whitespace off both ends of each.
fn split_entries(text: &[char]) -> (entries: Vec<Vec<char>>)
    ensures
        char_views(entries@) == list_entries(text@),
{
    let mut entries: Vec<Vec<char>> = Vec::new();
    let mut start: usize = 0;
    assert(text@.skip(0) == text@);
    while start < text.len()
        invariant
            start <= text@.len(),
            list_entries(text@) == char_views(entries@) + list_entries(text@.skip(start as int)),
        decreases text@.len() - start,
    {
        let ghost rest = text@.skip(start as int);
        let mut end: usize = start;
        while end < text.len() && text[end] != '\n'
            invariant
                start <= end <= text@.len(),
                forall|k: int| start <= k < end ==> #[trigger] text@[k] != '\n',
            decreases text@.len() - end,
        {
            end += 1;
        }
        let entry = trim(vstd::slice::slice_subrange(text, start, end));
        let ghost before = entries@;
        entries.push(entry);
        proof {
            let n = (end - start) as nat;
            assert forall|k: int| 0 <= k < n implies #[trigger] rest[k] != '\n' by {
                assert(rest[k] == text@[start + k]);
            }
            line_len_is_the_first_feed(rest, n);
            let line = text@.subrange(start as int, end as int);
            assert(char_views(entries@) == char_views(before).push(trimmed(line)));
            if end < text@.len() {
                assert(line == rest.take(n as int));
                assert(rest.skip(n as int + 1) == text@.skip(end as int + 1));
                assert(list_entries(rest) == seq![trimmed(line)] + list_entries(
                    text@.skip(end as int + 1),
                ));
            } else {
                assert(line == rest);
                assert(list_entries(rest) == seq![trimmed(line)]);
                assert(list_entries(text@.skip(text@.len() as int)) == Seq::<Seq<char>>::empty());
            }
        }
        if end < text.len() {
            start = end + 1;
        } else {
            start = text.len();
        }
    }
    assert(list_entries(text@.skip(text@.len() as int)) == Seq::<Seq<char>>::empty());
    entries
}

proof fn position_in_a_longer_list(entries: Seq<Seq<char>>, last: Seq<char>, word: Seq<char>)
    ensures
        first_position(entries.push(last), word) == match first_position(entries, word) {
            Some(i) => Some(i),
            None => if last == word {
                Some(entries.len())
            } else {
                None
            },
        },
{
    assert(entries.push(last).drop_last() == entries);
}

/// Builds the table of the ranks of all entries.
fn frequency_ranks(entries: &Vec<Vec<char>>) -> (ranks: StringHashMap<u32>)
    requires
        entries@.len() < u32::MAX,
    ensures
        is_rank_table(ranks@, char_views(entries@)),
{
    let mut ranks: StringHashMap<u32> = StringHashMap::new();
    let mut i: usize = 0;
    while i < entries.len()
        invariant
            i <= entries@.len() < u32::MAX,
            is_rank_table(ranks@, char_views(entries@.take(i as int))),
        decreases entries@.len() - i,
    {
        let word = chars_to_string(entries[i].as_slice());
        let ghost before = ranks@;
        // Keep the first (most frequent) occurrence of any duplicated word.
        if entries[i].len() > 0 && !ranks.contains_key(word.as_str()) {
            ranks.insert(word, i as u32);
        }
        proof {
            let seen = char_views(entries@.take(i as int));
            let last = entries@[i as int]@;
            assert(char_views(entries@.take(i + 1)) == seen.push(last));
            assert(exact_rank(seen, last) == exact_rank(seen, last));
            assert forall|w: Seq<char>| #[trigger]
                exact_rank(seen.push(last), w) == if ranks@.contains_key(w) {
                    Some(ranks@[w])
                } else {
                    None
                } by {
                position_in_a_longer_list(seen, last, w);
                assert(exact_rank(seen, w) == if before.contains_key(w) {
                    Some(before[w])
                } else {
                    None
                });
            }
        }
        i += 1;
    }
    assert(entries@.take(entries@.len() as int) == entries@);
    ranks
}

/// The frequency rank of `word`, where `0` is the most frequent word of the list.
///
/// Returns `None` for words outside the list. Lookup is case-insensitive.
/// A lower rank means a more frequent (and, for completions, higher-priority) word.
pub fn frequency_rank(list: &FrequencyList, word: &str) -> (rank: Option<u32>)
    ensures
        rank == listed_rank(list@, word@),
{
    if word.is_empty() {
        return None;
    }
    list.rank(word)
}

/// The frequency rank of the bigram `previous_word word`, where `0` is the most
/// frequent word pair of the list.
///
/// Returns `None` when the pair is not in the list. Lookup is case-insensitive.
/// A lower rank means a more common collocation (e.g. "new york"), which lets a
/// context-appropriate completion outrank a more frequent but contextually weaker word.
pub fn bigram_rank(list: &FrequencyList, previous_word: &str, word: &str) -> (rank: Option<u32>)
    ensures
        rank == listed_pair_rank(list@, previous_word@, word@),
{
    if previous_word.is_empty() || word.is_empty() {
        return None;
    }
    // The list is lowercase; callers normalize before lookup, so this usually hits.

    let mut key = previous_word.to_owned();
    key.push(' ');
    key.append(word);
    assert(key@ == pair_entry(previous_word@, word@));
    list.rank(key.as_str())
}

/// Whether the characters of `word` begin with those of `prefix`.
pub(crate) fn starts_with(word: &[char], prefix: &[char]) -> (r: bool)
    ensures
        r == begins_with(word@, prefix@),
{
    if word.len() < prefix.len() {
        return false;
    }
    let mut i: usize = 0;
    while i < prefix.len()
        invariant
            i <= prefix@.len() <= word@.len(),
            forall|k: int| 0 <= k < i ==> #[trigger] prefix@[k] == word@[k],
        decreases prefix@.len() - i,
    {
        if word[i] != prefix[i] {
            assert(word@.take(prefix@.len() as int)[i as int] == word@[i as int]);
            return false;
        }
        i += 1;
    }
    assert(word@.take(prefix@.len() as int) == prefix@);
    true
}

proof fn matches_in_a_longer_list(entries: Seq<Seq<char>>, n: nat, prefix: Seq<char>)
    requires
        n <= entries.len(),
    ensures
        entries_with_prefix(entries.take(n as int), prefix).len() <= entries_with_prefix(
            entries,
            prefix,
        ).len(),
        entries_with_prefix(entries, prefix).take(
            entries_with_prefix(entries.take(n as int), prefix).len() as int,
        ) == entries_with_prefix(entries.take(n as int), prefix),
    decreases entries.len() - n,
{
    if n < entries.len() {
        matches_in_a_longer_list(entries, n + 1, prefix);
        let longer = entries.take(n as int + 1);
        assert(longer.drop_last() == entries.take(n as int));
        let few = entries_with_prefix(entries.take(n as int), prefix);
        let more = entries_with_prefix(longer, prefix);
        assert(more.take(few.len() as int) == few);
        assert(entries_with_prefix(entries, prefix).take(few.len() as int) == more.take(
            few.len() as int,
        ));
    } else {
        assert(entries.take(n as int) == entries);
        let all = entries_with_prefix(entries, prefix);
        assert(all.take(all.len() as int) == all);
    }
}

/// The most frequent English words that start with `prefix`, in descending frequency
/// order, up to `limit` results.
///
/// Completion candidates are otherwise fetched from the dictionary in the dictionary's
/// order and truncated, which can drop very common words that come late within a
/// prefix (e.g. "could"/"come" sit far past the start of the "co" words). Seeding the
/// candidate pool from this list keeps those words in contention. Matching is
/// case-insensitive; returned words are those of the list.
pub fn most_frequent_with_prefix(list: &FrequencyList, prefix: &str, limit: usize) -> (words: Vec<
    String,
>)
    ensures
        string_views(words@) == most_frequent(list@, prefix@, limit as nat),
{
    let mut words: Vec<String> = Vec::new();
    let prefix_lower = string_to_chars(prefix.to_lowercase().as_str());
    if prefix_lower.len() == 0 || limit == 0 {
        return words;
    }
    let mut i: usize = 0;
    while i < list.entries.len()
        invariant
            i <= list.entries@.len(),
            0 < limit,
            words@.len() < limit,
            prefix_lower@ == lowercase_text(prefix@),
            string_views(words@) == entries_with_prefix(list@.take(i as int), prefix_lower@),
            prefix_lower@.len() > 0,
        decreases list.entries@.len() - i,
    {
        proof {
            assert(list@.take(i + 1).drop_last() == list@.take(i as int));
            assert(list@.take(i + 1).last() == list.entries@[i as int]@);
        }
        let ghost before = words@;
        if starts_with(list.entries[i].as_slice(), prefix_lower.as_slice()) {
            words.push(chars_to_string(list.entries[i].as_slice()));
            assert(string_views(words@) == string_views(before).push(list.entries@[i as int]@));
            if words.len() >= limit {
                proof {
                    matches_in_a_longer_list(list@, (i + 1) as nat, prefix_lower@);
                }
                return words;
            }
        }
        i += 1;
    }
    assert(list@.take(list@.len() as int) == list@);
    words
}

proof fn first_position_is_the_first(entries: Seq<Seq<char>>, word: Seq<char>)
    ensures
        match first_position(entries, word) {
            Some(i) => i < entries.len() && entries[i as int] == word && forall|k: int|
                0 <= k < i ==> #[trigger] entries[k] != word,
            None => forall|k: int| 0 <= k < entries.len() ==> #[trigger] entries[k] != word,
        },
    decreases entries.len(),
{
    if entries.len() > 0 {
        let shorter = entries.drop_last();
        first_position_is_the_first(shorter, word);
        assert forall|k: int| 0 <= k < shorter.len() implies #[trigger] entries[k]
            == shorter[k] by {}
    }
}

/// The rank of an entry is the number of lines before its first occurrence, so an entry that
/// first occurs earlier in the list has the lower rank.
pub proof fn rank_counts_the_lines_before(entries: Seq<Seq<char>>, word: Seq<char>)
    requires
        entries.len() <= u32::MAX,
        word.len() > 0,
    ensures
        exact_rank(entries, word) is Some <==> entries.contains(word),
        exact_rank(entries, word) matches Some(rank) ==> rank < entries.len()
            && entries[rank as int] == word && forall|k: int|
            0 <= k < rank ==> #[trigger] entries[k] != word,
{
    first_position_is_the_first(entries, word);
    if entries.contains(word) {
        let k = choose|k: int| 0 <= k < entries.len() && entries[k] == word;
        assert(entries[k] == word);
    }
}

/// Lookup in a lowercase list is case-insensitive: two spellings with one lowercase form have
/// one rank.
pub proof fn lookup_ignores_case(entries: Seq<Seq<char>>, a: Seq<char>, b: Seq<char>)
    requires
        a.len() > 0,
        b.len() > 0,
        lowercase_text(a) == lowercase_text(b),
        forall|k: int|
            0 <= k < entries.len() ==> lowercase_text(#[trigger] entries[k]) == entries[k],
    ensures
        listed_rank(entries, a) == listed_rank(entries, b),
{
    first_position_is_the_first(entries, a);
    first_position_is_the_first(entries, b);
}

/// Whether lowercasing two words lowercases their pair, as it does where both are ASCII texts.
pub open spec fn lowercases_by_word(a: Seq<char>, b: Seq<char>) -> bool {
    &&& (a.len() == 0 || b.len() == 0) == (lowercase_text(a).len() == 0 || lowercase_text(b).len()
        == 0)
    &&& lowercase_text(pair_entry(a, b)) == lowercase_text(
        pair_entry(lowercase_text(a), lowercase_text(b)),
    )
}

/// Lookup of a pair in a lowercase list ignores the case of each word: of ASCII words, and of all
/// other words whose pair is lowercased word by word.
pub proof fn pair_lookup_ignores_case(entries: Seq<Seq<char>>, a: Seq<char>, b: Seq<char>)
    requires
        is_ascii_text(a) && is_ascii_text(b) || lowercases_by_word(a, b),
        forall|k: int|
            0 <= k < entries.len() ==> lowercase_text(#[trigger] entries[k]) == entries[k],
    ensures
        listed_pair_rank(entries, a, b) == listed_pair_rank(
            entries,
            lowercase_text(a),
            lowercase_text(b),
        ),
{
    let pair = pair_entry(a, b);
    let lower = pair_entry(lowercase_text(a), lowercase_text(b));
    if is_ascii_text(a) && is_ascii_text(b) {
        ascii_text_stays_ascii(a);
        ascii_text_stays_ascii(b);
        assert(is_ascii_text(pair));
        assert(is_ascii_text(lower));
        assert(lowercase_text(pair) =~= lower);
        assert(lowercase_text(lower) =~= lower);
    }
    if a.len() > 0 && b.len() > 0 {
        lookup_ignores_case(entries, pair, lower);
    }
}

proof fn ascii_text_stays_ascii(s: Seq<char>)
    requires
        is_ascii_text(s),
    ensures
        is_ascii_text(ascii_lower_each(s)),
        ascii_lower_each(ascii_lower_each(s)) == ascii_lower_each(s),
{
    assert(ascii_lower_each(ascii_lower_each(s)) =~= ascii_lower_each(s));
}

proof fn matches_come_in_list_order(
    entries: Seq<Seq<char>>,
    prefix: Seq<char>,
) -> (places: Seq<int>)
    ensures
        places.len() == entries_with_prefix(entries, prefix).len(),
        forall|k: int|
            0 <= k < places.len() ==> 0 <= #[trigger] places[k] < entries.len()
                && entries[places[k]] == entries_with_prefix(entries, prefix)[k] && begins_with(
                entries[places[k]],
                prefix,
            ),
        forall|j: int, k: int| 0 <= j < k < places.len() ==> places[j] < places[k],
    decreases entries.len(),
{
    if entries.len() == 0 {
        Seq::empty()
    } else {
        let earlier = matches_come_in_list_order(entries.drop_last(), prefix);
        if begins_with(entries.last(), prefix) {
            earlier.push(entries.len() - 1)
        } else {
            earlier
        }
    }
}

/// The words found for a prefix are at most as many as asked for, begin with the lowercase
/// prefix, and come in the order of the list, the most frequent first.
pub proof fn found_words_come_most_frequent_first(
    entries: Seq<Seq<char>>,
    prefix: Seq<char>,
    limit: nat,
)
    ensures
        most_frequent(entries, prefix, limit).len() <= limit,
        exists|places: Seq<int>|
            {
                &&& #[trigger] places.len() == most_frequent(entries, prefix, limit).len()
                &&& forall|k: int|
                    0 <= k < places.len() ==> 0 <= #[trigger] places[k] < entries.len()
                        && entries[places[k]] == most_frequent(entries, prefix, limit)[k]
                        && begins_with(entries[places[k]], lowercase_text(prefix))
                &&& forall|j: int, k: int| 0 <= j < k < places.len() ==> places[j] < places[k]
            },
{
    let found = most_frequent(entries, prefix, limit);
    let all = matches_come_in_list_order(entries, lowercase_text(prefix));
    let places = all.take(found.len() as int);
    assert(places.len() == found.len());
}

/// A smaller limit only cuts the tail of the words found for a prefix.
pub proof fn a_smaller_limit_cuts_the_tail(
    entries: Seq<Seq<char>>,
    prefix: Seq<char>,
    fewer: nat,
    more: nat,
)
    requires
        fewer <= more,
    ensures
        most_frequent(entries, prefix, fewer) == at_most(
            most_frequent(entries, prefix, more),
            fewer,
        ),
{
    assert(most_frequent(entries, prefix, fewer) =~= at_most(
        most_frequent(entries, prefix, more),
        fewer,
    ));
}

/// The case of a prefix is ignored: of two prefixes with one lowercase form, the one with the
/// smaller limit finds the first of the words that the other finds.
pub proof fn found_words_ignore_the_case_of_the_prefix(
    entries: Seq<Seq<char>>,
    one: Seq<char>,
    other: Seq<char>,
    fewer: nat,
    more: nat,
)
    requires
        fewer <= more,
        lowercase_text(one) == lowercase_text(other),
    ensures
        most_frequent(entries, one, fewer) == at_most(most_frequent(entries, other, more), fewer),
{
    a_smaller_limit_cuts_the_tail(entries, other, fewer, more);
}

/// The empty prefix finds nothing.
pub proof fn nothing_is_found_for_the_empty_prefix(entries: Seq<Seq<char>>, limit: nat)
    ensures
        most_frequent(entries, Seq::empty(), limit) == Seq::<Seq<char>>::empty(),
{
    assert(lowercase_text(Seq::empty()) =~= Seq::empty());
}

proof fn matches_are_filtered(entries: Seq<Seq<char>>, prefix: Seq<char>)
    ensures
        entries_with_prefix(entries, prefix) == entries.filter(
            |e: Seq<char>| prefix.len() <= e.len() && e.subrange(0, prefix.len() as int) == prefix,
        ),
    decreases entries.len(),
{
    reveal(Seq::filter);
    if entries.len() > 0 {
        matches_are_filtered(entries.drop_last(), prefix);
        let e = entries.last();
        if prefix.len() <= e.len() {
            assert(e.take(prefix.len() as int) =~= e.subrange(0, prefix.len() as int));
        }
    } else {
        assert(entries_with_prefix(entries, prefix) =~= entries);
    }
}

/// An entry that begins with a prefix stands among the matches at the place that counts the
/// matches before it.
pub proof fn every_entry_is_a_match(entries: Seq<Seq<char>>, prefix: Seq<char>, k: int)
    requires
        0 <= k < entries.len(),
        prefix.len() <= entries[k].len(),
        forall|i: int| 0 <= i < prefix.len() ==> #[trigger] entries[k][i] == prefix[i],
    ensures
        ({
            let before = entries.take(k).filter(
                |e: Seq<char>|
                    prefix.len() <= e.len() && e.subrange(0, prefix.len() as int) == prefix,
            ).len() as int;
            let found = entries_with_prefix(entries, prefix);
            before < found.len() && found[before] == entries[k]
        }),
{
    let p = prefix;
    let pred = |e: Seq<char>| p.len() <= e.len() && e.subrange(0, p.len() as int) == p;
    assert(entries[k].subrange(0, p.len() as int) =~= p);
    matches_are_filtered(entries, p);
    let few = entries.take(k);
    let rest = entries.skip(k);
    assert(entries =~= few + rest);
    Seq::filter_distributes_over_add(few, rest, pred);
    let one = seq![entries[k]];
    assert(rest =~= one + entries.skip(k + 1));
    Seq::filter_distributes_over_add(one, entries.skip(k + 1), pred);
    assert(one.filter(pred) =~= one) by {
        reveal(Seq::filter);
        assert(one.drop_last() =~= Seq::empty());
        assert(one.drop_last().filter(pred) =~= Seq::empty());
    }
    assert(entries.filter(pred)[few.filter(pred).len() as int] == entries[k]);
}

/// Every match is an entry that begins with the prefix.
pub proof fn matches_begin_with_the_prefix(entries: Seq<Seq<char>>, prefix: Seq<char>, i: int)
    requires
        0 <= i < entries_with_prefix(entries, prefix).len(),
    ensures
        entries.contains(entries_with_prefix(entries, prefix)[i]),
        prefix.len() <= entries_with_prefix(entries, prefix)[i].len(),
        entries_with_prefix(entries, prefix)[i].subrange(0, prefix.len() as int) == prefix,
{
    let places = matches_come_in_list_order(entries, prefix);
    let word = entries_with_prefix(entries, prefix)[i];
    assert(entries[places[i]] == word);
    assert(word.take(prefix.len() as int) =~= word.subrange(0, prefix.len() as int));
}

/// Every entry that begins with the lowercase prefix, the prefix itself included, is found, and
/// stands at the place that counts the matching entries before it in the list, unless as many as
/// the limit stand before it.
pub proof fn every_entry_with_the_prefix_is_found(
    entries: Seq<Seq<char>>,
    prefix: Seq<char>,
    limit: nat,
    k: int,
)
    requires
        0 <= k < entries.len(),
        0 < lowercase_text(prefix).len() <= entries[k].len(),
        forall|i: int|
            0 <= i < lowercase_text(prefix).len() ==> #[trigger] entries[k][i]
                == lowercase_text(prefix)[i],
    ensures
        ({
            let p = lowercase_text(prefix);
            let before = entries.take(k).filter(
                |e: Seq<char>| p.len() <= e.len() && e.subrange(0, p.len() as int) == p,
            ).len() as int;
            let found = most_frequent(entries, prefix, limit);
            before < limit ==> before < found.len() && found[before] == entries[k]
        }),
{
    every_entry_is_a_match(entries, lowercase_text(prefix), k);
}

/// Nothing else is found: every word found is an entry that begins with the lowercase prefix.
pub proof fn every_word_found_begins_with_the_prefix(
    entries: Seq<Seq<char>>,
    prefix: Seq<char>,
    limit: nat,
    i: int,
)
    requires
        0 <= i < most_frequent(entries, prefix, limit).len(),
    ensures
        ({
            let p = lowercase_text(prefix);
            let word = most_frequent(entries, prefix, limit)[i];
            &&& entries.contains(word)
            &&& 0 < p.len() <= word.len()
            &&& word.subrange(0, p.len() as int) == p
            &&& i < limit
        }),
{
    let p = lowercase_text(prefix);
    let all = matches_come_in_list_order(entries, p);
    let word = most_frequent(entries, prefix, limit)[i];
    assert(entries[all[i]] == word);
    assert(word.take(p.len() as int) =~= word.subrange(0, p.len() as int));
}

/// In a lowercase list a word, whatever its case, has as its rank the number of the first line
/// that is its lowercase form, and no rank where there is no such line.
pub proof fn rank_is_the_first_line_of_the_lowercase_word(
    entries: Seq<Seq<char>>,
    word: Seq<char>,
    rank: int,
)
    requires
        entries.len() <= u32::MAX,
        word.len() > 0,
        lowercase_text(word).len() > 0,
        forall|k: int|
            0 <= k < entries.len() ==> lowercase_text(#[trigger] entries[k]) == entries[k],
    ensures
        0 <= rank < entries.len() && entries[rank] == lowercase_text(word) && (forall|k: int|
            0 <= k < rank ==> #[trigger] entries[k] != lowercase_text(word)) ==> listed_rank(
            entries,
            word,
        ) == Some(rank as u32),
        (forall|k: int| 0 <= k < entries.len() ==> #[trigger] entries[k] != lowercase_text(word))
            ==> listed_rank(entries, word) is None,
{
    let lower = lowercase_text(word);
    first_position_is_the_first(entries, word);
    first_position_is_the_first(entries, lower);
    if let Some(at) = first_position(entries, word) {
        assert(lowercase_text(entries[at as int]) == entries[at as int]);
        assert(lower == word);
    }
}

/// A pair of words has the rank of its two words with one space between them, and none where one
/// of them is missing.
pub proof fn a_pair_is_looked_up_with_a_space_between(
    entries: Seq<Seq<char>>,
    previous_word: Seq<char>,
    word: Seq<char>,
)
    ensures
        previous_word.len() > 0 && word.len() > 0 ==> listed_pair_rank(entries, previous_word, word)
            == listed_rank(entries, previous_word.push(' ') + word),
        previous_word.len() == 0 || word.len() == 0 ==> listed_pair_rank(
            entries,
            previous_word,
            word,
        ) is None,
        listed_rank(entries, Seq::empty()) is None,
{
    assert(pair_entry(previous_word, word) =~= previous_word.push(' ') + word);
}

proof fn line_len_of_a_line(line: Seq<char>, rest: Seq<char>)
    requires
        forall|k: int| 0 <= k < line.len() ==> #[trigger] line[k] != '\n',
        rest.len() == 0 || rest[0] == '\n',
    ensures
        line_len(line + rest) == line.len(),
    decreases line.len(),
{
    if line.len() > 0 {
        assert((line + rest).drop_first() =~= line.drop_first() + rest);
        assert forall|k: int| 0 <= k < line.drop_first().len() implies #[trigger] line.drop_first()[k]
            != '\n' by {
            assert(line.drop_first()[k] == line[k + 1]);
        }
        line_len_of_a_line(line.drop_first(), rest);
        assert((line + rest)[0] == line[0]);
    } else {
        assert(line + rest =~= rest);
    }
}

proof fn plain_text_is_not_trimmed(left: Seq<char>, word: Seq<char>, right: Seq<char>)
    requires
        forall|k: int| 0 <= k < left.len() ==> is_whitespace_char(#[trigger] left[k]),
        forall|k: int| 0 <= k < right.len() ==> is_whitespace_char(#[trigger] right[k]),
        word.len() > 0 ==> !is_whitespace_char(word.first()) && !is_whitespace_char(word.last()),
        word.len() == 0 ==> right.len() == 0,
    ensures
        trimmed(left + word + right) == word,
    decreases left.len() + right.len(),
{
    let all = left + word + right;
    if left.len() > 0 {
        assert(all.first() == left[0]);
        assert(all.drop_first() =~= left.drop_first() + word + right);
        assert forall|k: int| 0 <= k < left.drop_first().len() implies is_whitespace_char(
            #[trigger] left.drop_first()[k],
        ) by {
            assert(left.drop_first()[k] == left[k + 1]);
        }
        plain_text_is_not_trimmed(left.drop_first(), word, right);
    } else if right.len() > 0 {
        assert(all.first() == word.first());
        assert(all.last() == right[right.len() - 1]);
        assert(all.drop_last() =~= left + word + right.drop_last());
        plain_text_is_not_trimmed(left, word, right.drop_last());
    } else {
        assert(all =~= word);
    }
}

/// The first line of a list, with whatever whitespace stands around its entry, is its first
/// entry, and the lines after the line feed give the others.
pub proof fn each_line_is_an_entry(
    left: Seq<char>,
    word: Seq<char>,
    right: Seq<char>,
    rest: Seq<char>,
)
    requires
        forall|k: int|
            0 <= k < left.len() ==> is_whitespace_char(#[trigger] left[k]) && left[k] != '\n',
        forall|k: int|
            0 <= k < right.len() ==> is_whitespace_char(#[trigger] right[k]) && right[k] != '\n',
        forall|k: int| 0 <= k < word.len() ==> #[trigger] word[k] != '\n',
        word.len() > 0 ==> !is_whitespace_char(word.first()) && !is_whitespace_char(word.last()),
        word.len() == 0 ==> right.len() == 0,
    ensures
        list_entries(left + word + right + seq!['\n'] + rest) == seq![word] + list_entries(rest),
        (left + word + right).len() > 0 ==> list_entries(left + word + right) == seq![word],
        list_entries(Seq::empty()) == Seq::<Seq<char>>::empty(),
{
    let line = left + word + right;
    let text = line + seq!['\n'] + rest;
    assert forall|k: int| 0 <= k < line.len() implies #[trigger] line[k] != '\n' by {
        if k < left.len() {
            assert(line[k] == left[k]);
        } else if k < left.len() + word.len() {
            assert(line[k] == word[k - left.len()]);
        } else {
            assert(line[k] == right[k - left.len() - word.len()]);
        }
    }
    assert(text =~= line + (seq!['\n'] + rest));
    line_len_of_a_line(line, seq!['\n'] + rest);
    line_len_of_a_line(line, Seq::empty());
    assert(line + Seq::<char>::empty() =~= line);
    assert(text.take(line.len() as int) =~= line);
    assert(text.skip(line.len() as int + 1) =~= rest);
    plain_text_is_not_trimmed(left, word, right);
    assert(text_lines(text) == seq![line] + text_lines(rest));
    assert(list_entries(text) =~= seq![word] + list_entries(rest));
    assert(list_entries(line) =~= if line.len() > 0 {
        seq![word]
    } else {
        Seq::empty()
    });
    assert(list_entries(Seq::empty()) =~= Seq::empty());
}

/// A word that is an entry as it is spelled has the rank of its first line, in any list.
pub proof fn the_exact_spelling_comes_first(entries: Seq<Seq<char>>, word: Seq<char>, rank: int)
    requires
        entries.len() <= u32::MAX,
        word.len() > 0,
        0 <= rank < entries.len(),
        entries[rank] == word,
        forall|k: int| 0 <= k < rank ==> #[trigger] entries[k] != word,
    ensures
        listed_rank(entries, word) == Some(rank as u32),
{
    first_position_is_the_first(entries, word);
}

} // verus!
