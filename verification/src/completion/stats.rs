//! What a document tells about the words that are likely to be typed next.

use vstd::prelude::*;
use vstd::hash_map::StringHashMap;
use std::collections::HashMap;
use std::sync::Arc;
use crate::chars::{chars_to_string, lowercase_text};
use crate::document::{
    ended_tokens_come_first, partition_by_end, tokens_ended_by, tokens_in_order, tokens_within,
    Document, Token, TokenKind,
};
use crate::word_frequency::string_views;

verus! {

broadcast use vstd::std_specs::hash::group_hash_axioms;

/// How often `word` occurs in `words`.
pub open spec fn occurrences(words: Seq<Seq<char>>, word: Seq<char>) -> nat
    decreases words.len(),
{
    if words.len() == 0 {
        0
    } else {
        occurrences(words.drop_last(), word) + if words.last() == word {
            1nat
        } else {
            0nat
        }
    }
}

/// How often `next` directly follows `previous` in `words`.
pub open spec fn pair_occurrences(
    words: Seq<Seq<char>>,
    previous: Seq<char>,
    next: Seq<char>,
) -> nat
    decreases words.len(),
{
    if words.len() < 2 {
        0
    } else {
        pair_occurrences(words.drop_last(), previous, next) + if words[words.len() - 2]
            == previous && words.last() == next {
            1nat
        } else {
            0nat
        }
    }
}

/// The word that comes last, if there is one.
pub open spec fn last_word(words: Seq<Seq<char>>) -> Option<Seq<char>> {
    if words.len() == 0 {
        None
    } else {
        Some(words.last())
    }
}

/// The word tokens among `tokens`, in order.
pub open spec fn word_tokens(tokens: Seq<Token>) -> Seq<Token>
    decreases tokens.len(),
{
    if tokens.len() == 0 {
        Seq::empty()
    } else {
        let earlier = word_tokens(tokens.drop_last());
        if tokens.last().kind == TokenKind::Word {
            earlier.push(tokens.last())
        } else {
            earlier
        }
    }
}

/// A word token's text as it is counted: in lowercase.
pub open spec fn token_word(source: Seq<char>, token: Token) -> Seq<char> {
    lowercase_text(source.subrange(token.span.start as int, token.span.end as int))
}

/// The words of the given tokens, in order and in lowercase.
pub open spec fn words_of(source: Seq<char>, tokens: Seq<Token>) -> Seq<Seq<char>> {
    word_tokens(tokens).map_values(|t: Token| token_word(source, t))
}

/// A word as it is counted and compared: in lowercase.
pub fn normalized_completion_word(chars: &[char]) -> (word: String)
    ensures
        word@ == lowercase_text(chars@),
{
    chars_to_string(chars).to_lowercase()
}

/// What is known of one word of a document.
pub struct WordStats {
    /// How often the word occurs.
    count: usize,
    /// How often each word, by its number, directly follows it.
    following: HashMap<usize, usize>,
}

/// Document-wide word statistics for completion ranking, built once per parsed
/// document revision and shared with completion requests.
/// Counts include every word token: the word currently being typed is removed
/// at query time through [`CursorExclusions`].
pub struct CompletionStats {
    /// The number of each word that was counted.
    numbers: StringHashMap<usize>,
    words: Vec<WordStats>,
}

spec fn numbers_are_distinct(numbers: Map<Seq<char>, usize>, len: nat) -> bool {
    &&& forall|w: Seq<char>| #[trigger] numbers.contains_key(w) ==> numbers[w] < len
    &&& forall|v: Seq<char>, w: Seq<char>|
        #[trigger] numbers.contains_key(v) && #[trigger] numbers.contains_key(w) && numbers[v]
            == numbers[w] ==> v == w
}

spec fn count_of(numbers: Map<Seq<char>, usize>, words: Seq<WordStats>, word: Seq<char>) -> nat {
    if numbers.contains_key(word) {
        words[numbers[word] as int].count as nat
    } else {
        0
    }
}

spec fn pair_count_of(
    numbers: Map<Seq<char>, usize>,
    words: Seq<WordStats>,
    previous: Seq<char>,
    next: Seq<char>,
) -> nat {
    if numbers.contains_key(previous) && numbers.contains_key(next)
        && words[numbers[previous] as int].following@.contains_key(numbers[next]) {
        words[numbers[previous] as int].following@[numbers[next]] as nat
    } else {
        0
    }
}

/// Followers are numbers of counted words.
spec fn followers_are_words(words: Seq<WordStats>) -> bool {
    forall|i: int, k: usize|
        0 <= i < words.len() && #[trigger] words[i].following@.contains_key(k) ==> k < words.len()
}

impl Default for CompletionStats {
    /// Statistics that have counted nothing.
    fn default() -> (stats: Self)
        ensures
            forall|w: Seq<char>| #[trigger] stats.word_total(w) == 0,
            forall|v: Seq<char>, w: Seq<char>| #[trigger] stats.pair_total(v, w) == 0,
    {
        CompletionStats { numbers: StringHashMap::new(), words: Vec::new() }
    }
}

impl CompletionStats {
    #[verifier::type_invariant]
    spec fn is_consistent(self) -> bool {
        &&& numbers_are_distinct(self.numbers@, self.words@.len())
        &&& followers_are_words(self.words@)
    }

    /// How often a word was counted.
    pub closed spec fn word_total(&self, word: Seq<char>) -> nat {
        count_of(self.numbers@, self.words@, word)
    }

    /// How often `next` was counted right after `previous`.
    pub closed spec fn pair_total(&self, previous: Seq<char>, next: Seq<char>) -> nat {
        pair_count_of(self.numbers@, self.words@, previous, next)
    }

    /// How often a word was counted.
    pub fn word_count(&self, word: &str) -> (n: usize)
        ensures
            n == self.word_total(word@),
    {
        proof {
            use_type_invariant(self);
        }
        match self.numbers.get(word) {
            Some(number) => self.words[*number].count,
            None => 0,
        }
    }

    /// How often `next` was counted right after `previous`.
    pub fn bigram_count(&self, previous: &str, next: &str) -> (n: usize)
        ensures
            n == self.pair_total(previous@, next@),
    {
        proof {
            use_type_invariant(self);
        }
        match (self.numbers.get(previous), self.numbers.get(next)) {
            (Some(p), Some(n)) => match self.words[*p].following.get(n) {
                Some(count) => *count,
                None => 0,
            },
            _ => 0,
        }
    }

    /// Counts one more occurrence of `word`.
    pub fn with_word(self, word: &str) -> (stats: Self)
        requires
            self.word_total(word@) < usize::MAX,
        ensures
            forall|w: Seq<char>| #[trigger]
                stats.word_total(w) == self.word_total(w) + if w == word@ {
                    1nat
                } else {
                    0nat
                },
            forall|v: Seq<char>, w: Seq<char>| #[trigger]
                stats.pair_total(v, w) == self.pair_total(v, w),
    {
        let (stats, number) = self.with_number(word);
        proof {
            use_type_invariant(&stats);
        }
        let ghost middle = stats;
        let CompletionStats { numbers, mut words } = stats;
        assert(middle.word_total(word@) == self.word_total(word@));
        words[number].count = words[number].count + 1;
        proof {
            assert forall|w: Seq<char>| #[trigger]
                count_of(numbers@, words@, w) == self.word_total(w) + if w == word@ {
                    1nat
                } else {
                    0nat
                } by {
                assert(middle.word_total(w) == self.word_total(w));
            }
            assert forall|v: Seq<char>, w: Seq<char>| #[trigger]
                pair_count_of(numbers@, words@, v, w) == self.pair_total(v, w) by {
                assert(middle.pair_total(v, w) == self.pair_total(v, w));
            }
        }
        CompletionStats { numbers, words }
    }

    /// Counts one more occurrence of `next` right after `previous`.
    pub fn with_pair(self, previous: &str, next: &str) -> (stats: Self)
        requires
            self.pair_total(previous@, next@) < usize::MAX,
        ensures
            forall|w: Seq<char>| #[trigger] stats.word_total(w) == self.word_total(w),
            forall|v: Seq<char>, w: Seq<char>| #[trigger]
                stats.pair_total(v, w) == self.pair_total(v, w) + if v == previous@ && w == next@ {
                    1nat
                } else {
                    0nat
                },
    {
        let count = self.bigram_count(previous, next);
        let (first, p) = self.with_number(previous);
        let ghost one = first;
        let (second, n) = first.with_number(next);
        let ghost two = second;
        proof {
            use_type_invariant(&second);
            assert(two.numbers@.contains_key(previous@) && two.numbers@[previous@] == p);
        }
        let CompletionStats { numbers, mut words } = second;
        words[p].following.insert(n, count + 1);
        proof {
            assert forall|w: Seq<char>| #[trigger]
                count_of(numbers@, words@, w) == self.word_total(w) by {
                assert(one.word_total(w) == self.word_total(w));
                assert(two.word_total(w) == one.word_total(w));
            }
            assert forall|v: Seq<char>, w: Seq<char>| #[trigger]
                pair_count_of(numbers@, words@, v, w) == self.pair_total(v, w) + if v == previous@
                    && w == next@ {
                    1nat
                } else {
                    0nat
                } by {
                assert(one.pair_total(v, w) == self.pair_total(v, w));
                assert(two.pair_total(v, w) == one.pair_total(v, w));
            }
        }
        CompletionStats { numbers, words }
    }

    /// Gives `word` a number, if it has none yet.
    fn with_number(self, word: &str) -> (r: (Self, usize))
        ensures
            forall|w: Seq<char>| #[trigger] r.0.word_total(w) == self.word_total(w),
            forall|v: Seq<char>, w: Seq<char>| #[trigger]
                r.0.pair_total(v, w) == self.pair_total(v, w),
            r.0.numbers@.contains_key(word@),
            r.0.numbers@[word@] == r.1,
            forall|w: Seq<char>|
                self.numbers@.contains_key(w) ==> #[trigger] r.0.numbers@.contains_key(w)
                    && r.0.numbers@[w] == self.numbers@[w],
    {
        proof {
            use_type_invariant(&self);
        }
        if let Some(number) = self.numbers.get(word) {
            let number = *number;
            return (self, number);
        }
        let CompletionStats { mut numbers, mut words } = self;
        let number = words.len();
        numbers.insert(word.to_owned(), number);
        words.push(WordStats { count: 0, following: HashMap::new() });
        proof {
            assert forall|v: Seq<char>, w: Seq<char>| #[trigger]
                pair_count_of(numbers@, words@, v, w) == self.pair_total(v, w) by {
                if v != word@ && self.numbers@.contains_key(v) && w == word@ {
                    assert(!self.words@[self.numbers@[v] as int].following@.contains_key(number));
                }
            }
        }
        (CompletionStats { numbers, words }, number)
    }
}

proof fn occurrences_are_few(words: Seq<Seq<char>>, word: Seq<char>)
    ensures
        occurrences(words, word) <= words.len(),
    decreases words.len(),
{
    if words.len() > 0 {
        occurrences_are_few(words.drop_last(), word);
    }
}

proof fn pair_occurrences_are_few(words: Seq<Seq<char>>, previous: Seq<char>, next: Seq<char>)
    ensures
        pair_occurrences(words, previous, next) <= words.len(),
    decreases words.len(),
{
    if words.len() >= 2 {
        pair_occurrences_are_few(words.drop_last(), previous, next);
    }
}

proof fn word_tokens_are_few(tokens: Seq<Token>)
    ensures
        word_tokens(tokens).len() <= tokens.len(),
    decreases tokens.len(),
{
    if tokens.len() > 0 {
        word_tokens_are_few(tokens.drop_last());
    }
}

proof fn words_with_one_more_token(source: Seq<char>, tokens: Seq<Token>, token: Token)
    ensures
        words_of(source, tokens.push(token)) == if token.kind == TokenKind::Word {
            words_of(source, tokens).push(token_word(source, token))
        } else {
            words_of(source, tokens)
        },
{
    assert(tokens.push(token).drop_last() == tokens);
    assert(words_of(source, tokens.push(token)) =~= if token.kind == TokenKind::Word {
        words_of(source, tokens).push(token_word(source, token))
    } else {
        words_of(source, tokens)
    });
}

/// The lowercase text of a token.
fn normalized_token_word(source: &[char], token: Token) -> (word: String)
    requires
        token.span.start <= token.span.end <= source@.len(),
    ensures
        word@ == token_word(source@, token),
{
    normalized_completion_word(
        vstd::slice::slice_subrange(source, token.span.start, token.span.end),
    )
}

/// Builds the document-wide [`CompletionStats`] in one pass over the tokens, so completion
/// requests never rescan the document.
pub fn build_completion_stats(source: &[char], document: &Document) -> (stats: CompletionStats)
    requires
        tokens_within(document@, source@.len()),
    ensures
        forall|w: Seq<char>| #[trigger]
            stats.word_total(w) == occurrences(words_of(source@, document@), w),
        forall|v: Seq<char>, w: Seq<char>| #[trigger]
            stats.pair_total(v, w) == pair_occurrences(words_of(source@, document@), v, w),
{
    let tokens = document.get_tokens();
    let mut stats = CompletionStats::default();
    let mut previous_word: Option<String> = None;
    let mut i: usize = 0;
    while i < tokens.len()
        invariant
            i <= tokens@.len(),
            tokens@ == document@,
            tokens_within(tokens@, source@.len()),
            tokens_in_order(tokens@),
            match last_word(words_of(source@, tokens@.take(i as int))) {
                Some(w) => previous_word matches Some(p) && p@ == w,
                None => previous_word is None,
            },
            forall|w: Seq<char>| #[trigger]
                stats.word_total(w) == occurrences(words_of(source@, tokens@.take(i as int)), w),
            forall|v: Seq<char>, w: Seq<char>| #[trigger]
                stats.pair_total(v, w) == pair_occurrences(
                    words_of(source@, tokens@.take(i as int)),
                    v,
                    w,
                ),
        decreases tokens@.len() - i,
    {
        let token = tokens[i];
        let ghost few = tokens@.take(i as int);
        let ghost words = words_of(source@, few);
        proof {
            assert(tokens@.take(i + 1) == few.push(token));
            words_with_one_more_token(source@, few, token);
            word_tokens_are_few(few);
        }
        if token.kind.is_word() {
            let word = normalized_token_word(source, token);
            proof {
                occurrences_are_few(words, word@);
                let more = words.push(word@);
                assert(more.drop_last() == words);
            }
            stats = stats.with_word(word.as_str());
            if let Some(previous) = previous_word.take() {
                proof {
                    pair_occurrences_are_few(words, previous@, word@);
                    assert(stats.pair_total(previous@, word@) == pair_occurrences(
                        words,
                        previous@,
                        word@,
                    ));
                    assert(words.push(word@)[words.len() - 1] == previous@);
                }
                stats = stats.with_pair(previous.as_str(), word.as_str());
            }
            previous_word = Some(word);
        }
        i += 1;
    }
    assert(tokens@.take(tokens@.len() as int) == tokens@);
    stats
}

/// Where the run of tokens that start before `word_end`, counted from `from`, ends.
pub open spec fn run_end(tokens: Seq<Token>, from: nat, word_end: nat) -> nat
    decreases tokens.len() - from,
{
    if from >= tokens.len() || tokens[from as int].span.start >= word_end {
        from
    } else {
        run_end(tokens, from + 1, word_end)
    }
}

/// The words before the cursor word.
pub open spec fn words_before(
    source: Seq<char>,
    tokens: Seq<Token>,
    word_start: nat,
) -> Seq<Seq<char>> {
    words_of(source, tokens.take(tokens_ended_by(tokens, word_start) as int))
}

/// The words that overlap the cursor word: more than one for e.g. a hyphenated word the
/// tokenizer splits apart.
pub open spec fn words_at(
    source: Seq<char>,
    tokens: Seq<Token>,
    word_start: nat,
    word_end: nat,
) -> Seq<Seq<char>> {
    let start = tokens_ended_by(tokens, word_start);
    words_of(source, tokens.subrange(start as int, run_end(tokens, start, word_end) as int))
}

/// The words after the cursor word.
pub open spec fn words_after(
    source: Seq<char>,
    tokens: Seq<Token>,
    word_start: nat,
    word_end: nat,
) -> Seq<Seq<char>> {
    let start = tokens_ended_by(tokens, word_start);
    words_of(source, tokens.skip(run_end(tokens, start, word_end) as int))
}

/// Each word with the one right after it.
pub open spec fn adjacent_pairs(words: Seq<Seq<char>>) -> Seq<(Seq<char>, Seq<char>)>
    decreases words.len(),
{
    if words.len() < 2 {
        Seq::empty()
    } else {
        adjacent_pairs(words.drop_last()).push((words[words.len() - 2], words.last()))
    }
}

/// Every pair into, out of and within the words at the cursor.
pub open spec fn pairs_at_cursor(
    before: Seq<Seq<char>>,
    at: Seq<Seq<char>>,
    after: Seq<Seq<char>>,
) -> Seq<(Seq<char>, Seq<char>)> {
    if at.len() == 0 {
        Seq::empty()
    } else {
        (if before.len() > 0 {
            seq![(before.last(), at.first())]
        } else {
            Seq::empty()
        }) + (if after.len() > 0 {
            seq![(at.last(), after.first())]
        } else {
            Seq::empty()
        }) + adjacent_pairs(at)
    }
}

/// The contents of pairs of strings.
pub open spec fn pair_views(pairs: Seq<(String, String)>) -> Seq<(Seq<char>, Seq<char>)> {
    pairs.map_values(|p: (String, String)| (p.0@, p.1@))
}

/// How often a pair is listed.
pub open spec fn pair_listings(
    pairs: Seq<(Seq<char>, Seq<char>)>,
    previous: Seq<char>,
    next: Seq<char>,
) -> nat
    decreases pairs.len(),
{
    if pairs.len() == 0 {
        0
    } else {
        pair_listings(pairs.drop_last(), previous, next) + if pairs.last() == (previous, next) {
            1nat
        } else {
            0nat
        }
    }
}

/// The difference of two counts, but never below zero.
pub open spec fn count_less(total: nat, excluded: nat) -> nat {
    if excluded <= total {
        (total - excluded) as nat
    } else {
        0
    }
}

/// The cursor word's contribution to [`CompletionStats`], subtracted at query
/// time so the half-typed word doesn't boost itself. Each entry is one excluded
/// occurrence.
#[derive(Debug)]
pub struct CursorExclusions {
    pub words: Vec<String>,
    pub pairs: Vec<(String, String)>,
}

impl Default for CursorExclusions {
    /// Nothing is excluded.
    fn default() -> (exclusions: Self)
        ensures
            exclusions.words@.len() == 0,
            exclusions.pairs@.len() == 0,
    {
        CursorExclusions { words: Vec::new(), pairs: Vec::new() }
    }
}

impl Clone for CursorExclusions {
    /// A copy that lists the same words and pairs.
    fn clone(&self) -> (copy: Self)
        ensures
            string_views(copy.words@) == string_views(self.words@),
            pair_views(copy.pairs@) == pair_views(self.pairs@),
    {
        let mut words: Vec<String> = Vec::new();
        let mut i: usize = 0;
        while i < self.words.len()
            invariant
                i <= self.words@.len(),
                words@.len() == i,
                forall|j: int| 0 <= j < i ==> (#[trigger] words@[j])@ == self.words@[j]@,
            decreases self.words@.len() - i,
        {
            words.push(self.words[i].clone());
            i += 1;
        }
        let mut pairs: Vec<(String, String)> = Vec::new();
        let mut k: usize = 0;
        while k < self.pairs.len()
            invariant
                k <= self.pairs@.len(),
                pairs@.len() == k,
                forall|j: int|
                    0 <= j < k ==> (#[trigger] pairs@[j]).0@ == self.pairs@[j].0@ && pairs@[j].1@
                        == self.pairs@[j].1@,
            decreases self.pairs@.len() - k,
        {
            pairs.push((self.pairs[k].0.clone(), self.pairs[k].1.clone()));
            k += 1;
        }
        assert(string_views(words@) =~= string_views(self.words@));
        assert(pair_views(pairs@) =~= pair_views(self.pairs@));
        CursorExclusions { words, pairs }
    }
}

/// What a document says about the words that are likely at the cursor.
pub struct CompletionContext {
    pub stats: Arc<CompletionStats>,
    pub exclusions: CursorExclusions,
    pub previous_word: Option<String>,
}

/// A [`CompletionContext`] in mathematical terms.
pub struct ContextView {
    pub stats: CompletionStats,
    pub excluded_words: Seq<Seq<char>>,
    pub excluded_pairs: Seq<(Seq<char>, Seq<char>)>,
    pub previous_word: Option<Seq<char>>,
}

/// The contents of a string that may be missing.
pub open spec fn option_view(text: Option<String>) -> Option<Seq<char>> {
    match text {
        Some(s) => Some(s@),
        None => None,
    }
}

impl ContextView {
    /// How often a word appears in the document, excluding the word being typed.
    pub open spec fn local_total(self, word: Seq<char>) -> nat {
        count_less(self.stats.word_total(word), occurrences(self.excluded_words, word))
    }

    /// How often a word follows another in the document, excluding pairs involving the word
    /// being typed.
    pub open spec fn pair_total(self, previous: Seq<char>, word: Seq<char>) -> nat {
        count_less(
            self.stats.pair_total(previous, word),
            pair_listings(self.excluded_pairs, previous, word),
        )
    }

    /// How often a word follows the word preceding the cursor.
    pub open spec fn previous_pair_total(self, word: Seq<char>) -> nat {
        match self.previous_word {
            Some(previous) => self.pair_total(previous, word),
            None => 0,
        }
    }

    /// The same document with another word before the cursor.
    pub open spec fn after_word(self, word: Seq<char>) -> ContextView {
        ContextView { previous_word: Some(word), ..self }
    }
}

impl View for CompletionContext {
    type V = ContextView;

    open spec fn view(&self) -> ContextView {
        ContextView {
            stats: *self.stats,
            excluded_words: string_views(self.exclusions.words@),
            excluded_pairs: pair_views(self.exclusions.pairs@),
            previous_word: option_view(self.previous_word),
        }
    }
}

impl Default for CompletionContext {
    /// A context that says nothing.
    fn default() -> (context: Self)
        ensures
            forall|w: Seq<char>| #[trigger] context@.local_total(w) == 0,
            forall|v: Seq<char>, w: Seq<char>| #[trigger] context@.pair_total(v, w) == 0,
            context@.previous_word is None,
    {
        CompletionContext {
            stats: Arc::new(CompletionStats::default()),
            exclusions: CursorExclusions::default(),
            previous_word: None,
        }
    }
}

impl CompletionContext {
    /// The same document with another word before the cursor.
    pub fn after_word(&self, word: String) -> (context: Self)
        ensures
            context@ == self@.after_word(word@),
    {
        CompletionContext {
            stats: self.stats.clone(),
            exclusions: self.exclusions.clone(),
            previous_word: Some(word),
        }
    }

    /// How often `word` appears in the document, excluding the word being typed.
    pub fn local_count(&self, word: &str) -> (n: usize)
        ensures
            n == self@.local_total(word@),
    {
        let total = self.stats.word_count(word);
        let words = &self.exclusions.words;
        let mut excluded: usize = 0;
        let mut i: usize = 0;
        while i < words.len()
            invariant
                i <= words@.len(),
                excluded <= i,
                excluded == occurrences(string_views(words@.take(i as int)), word@),
            decreases words@.len() - i,
        {
            proof {
                let more = string_views(words@.take(i + 1));
                assert(more.drop_last() == string_views(words@.take(i as int)));
                assert(more.last() == words@[i as int]@);
            }
            if same_text(words[i].as_str(), word) {
                excluded += 1;
            }
            i += 1;
        }
        assert(words@.take(words@.len() as int) == words@);
        total.saturating_sub(excluded)
    }

    /// How often `word` follows `previous_word` in the document, excluding pairs
    /// involving the word being typed.
    pub fn pair_count(&self, previous_word: &str, word: &str) -> (n: usize)
        ensures
            n == self@.pair_total(previous_word@, word@),
    {
        let total = self.stats.bigram_count(previous_word, word);
        let pairs = &self.exclusions.pairs;
        let mut excluded: usize = 0;
        let mut i: usize = 0;
        while i < pairs.len()
            invariant
                i <= pairs@.len(),
                excluded <= i,
                excluded == pair_listings(
                    pair_views(pairs@.take(i as int)),
                    previous_word@,
                    word@,
                ),
            decreases pairs@.len() - i,
        {
            proof {
                let more = pair_views(pairs@.take(i + 1));
                assert(more.drop_last() == pair_views(pairs@.take(i as int)));
                assert(more.last() == (pairs@[i as int].0@, pairs@[i as int].1@));
            }
            if same_text(pairs[i].0.as_str(), previous_word) && same_text(
                pairs[i].1.as_str(),
                word,
            ) {
                excluded += 1;
            }
            i += 1;
        }
        assert(pairs@.take(pairs@.len() as int) == pairs@);
        total.saturating_sub(excluded)
    }

    /// How often `word` follows the word preceding the cursor.
    pub fn previous_pair_count(&self, word: &str) -> (n: usize)
        ensures
            n == self@.previous_pair_total(word@),
    {
        match &self.previous_word {
            Some(previous_word) => self.pair_count(previous_word.as_str(), word),
            None => 0,
        }
    }
}

/// Whether two strings are equal.
fn same_text(a: &str, b: &str) -> (same: bool)
    ensures
        same == (a@ == b@),
{
    a.to_owned() == b.to_owned()
}

proof fn words_of_joined_tokens(source: Seq<char>, a: Seq<Token>, b: Seq<Token>)
    ensures
        word_tokens(a + b) == word_tokens(a) + word_tokens(b),
        words_of(source, a + b) == words_of(source, a) + words_of(source, b),
    decreases b.len(),
{
    if b.len() == 0 {
        assert(a + b == a);
    } else {
        words_of_joined_tokens(source, a, b.drop_last());
        assert((a + b).drop_last() == a + b.drop_last());
        assert(word_tokens(a + b) =~= word_tokens(a) + word_tokens(b));
    }
    assert(words_of(source, a + b) =~= words_of(source, a) + words_of(source, b));
}

proof fn run_end_is_within(tokens: Seq<Token>, from: nat, word_end: nat)
    requires
        from <= tokens.len(),
    ensures
        from <= run_end(tokens, from, word_end) <= tokens.len(),
        forall|k: int|
            from <= k < run_end(tokens, from, word_end) ==> (#[trigger] tokens[k]).span.start
                < word_end,
        run_end(tokens, from, word_end) < tokens.len() ==> tokens[run_end(
            tokens,
            from,
            word_end,
        ) as int].span.start >= word_end,
    decreases tokens.len() - from,
{
    if from < tokens.len() && tokens[from as int].span.start < word_end {
        run_end_is_within(tokens, from + 1, word_end);
    }
}

/// The last word among the first `n` tokens.
fn last_word_before(source: &[char], tokens: &Vec<Token>, n: usize) -> (word: Option<String>)
    requires
        n <= tokens@.len(),
        tokens_in_order(tokens@),
        tokens_within(tokens@, source@.len()),
    ensures
        match last_word(words_of(source@, tokens@.take(n as int))) {
            Some(w) => word matches Some(s) && s@ == w,
            None => word is None,
        },
{
    let mut k: usize = n;
    while k > 0
        invariant
            k <= n <= tokens@.len(),
            tokens_in_order(tokens@),
            tokens_within(tokens@, source@.len()),
            words_of(source@, tokens@.take(n as int)) == words_of(source@, tokens@.take(k as int)),
        decreases k,
    {
        let token = tokens[k - 1];
        proof {
            assert(tokens@.take(k as int) == tokens@.take(k - 1).push(token));
            words_with_one_more_token(source@, tokens@.take(k - 1), token);
        }
        if token.kind.is_word() {
            return Some(normalized_token_word(source, token));
        }
        k -= 1;
    }
    None
}

/// The first word among the tokens from `n` on.
fn first_word_from(source: &[char], tokens: &Vec<Token>, n: usize) -> (word: Option<String>)
    requires
        n <= tokens@.len(),
        tokens_in_order(tokens@),
        tokens_within(tokens@, source@.len()),
    ensures
        match word {
            Some(s) => words_of(source@, tokens@.skip(n as int)).len() > 0 && s@ == words_of(
                source@,
                tokens@.skip(n as int),
            ).first(),
            None => words_of(source@, tokens@.skip(n as int)).len() == 0,
        },
{
    let mut k: usize = n;
    while k < tokens.len()
        invariant
            n <= k <= tokens@.len(),
            tokens_in_order(tokens@),
            tokens_within(tokens@, source@.len()),
            words_of(source@, tokens@.skip(n as int)) == words_of(source@, tokens@.skip(k as int)),
        decreases tokens@.len() - k,
    {
        let token = tokens[k];
        proof {
            let one = Seq::<Token>::empty().push(token);
            assert(tokens@.skip(k as int) == one + tokens@.skip(k + 1));
            words_of_joined_tokens(source@, one, tokens@.skip(k + 1));
            words_with_one_more_token(source@, Seq::empty(), token);
            assert(words_of(source@, tokens@.skip(k as int)) == words_of(source@, one) + words_of(
                source@,
                tokens@.skip(k + 1),
            ));
            if token.kind != TokenKind::Word {
                assert(words_of(source@, tokens@.skip(k as int)) =~= words_of(
                    source@,
                    tokens@.skip(k + 1),
                ));
            }
        }
        if token.kind.is_word() {
            return Some(normalized_token_word(source, token));
        }
        k += 1;
    }
    None
}

/// Computes the cursor word's contribution to the cached [`CompletionStats`]
/// (to be subtracted at query time) along with the word preceding the cursor.
/// Equivalent to excluding tokens overlapping `word_start..word_end` during a
/// full document scan, but without that scan.
pub fn cursor_word_exclusions(
    source: &[char],
    document: &Document,
    word_start: usize,
    word_end: usize,
) -> (r: (CursorExclusions, Option<String>))
    requires
        tokens_within(document@, source@.len()),
    ensures
        string_views(r.0.words@) == words_at(
            source@,
            document@,
            word_start as nat,
            word_end as nat,
        ),
        pair_views(r.0.pairs@) == pairs_at_cursor(
            words_before(source@, document@, word_start as nat),
            words_at(source@, document@, word_start as nat, word_end as nat),
            words_after(source@, document@, word_start as nat, word_end as nat),
        ),
        match last_word(words_before(source@, document@, word_start as nat)) {
            Some(w) => r.1 matches Some(s) && s@ == w,
            None => r.1 is None,
        },
{
    let tokens = document.get_tokens();

    // Tokens are ordered and non-overlapping, so `span.end` is monotonic: every
    // token before this index ends at or before the cursor word.
    let start = partition_by_end(tokens, word_start);
    let previous_word = last_word_before(source, tokens, start);

    // Word tokens overlapping the cursor word (more than one for e.g. a
    // hyphenated word the tokenizer splits apart).
    let mut overlapping: Vec<String> = Vec::new();
    let mut index: usize = start;
    while index < tokens.len() && tokens[index].span.start < word_end
        invariant
            start <= index <= tokens@.len(),
            tokens_in_order(tokens@),
            tokens_within(tokens@, source@.len()),
            run_end(tokens@, start as nat, word_end as nat) == run_end(
                tokens@,
                index as nat,
                word_end as nat,
            ),
            string_views(overlapping@) == words_of(
                source@,
                tokens@.subrange(start as int, index as int),
            ),
        decreases tokens@.len() - index,
    {
        let token = tokens[index];
        let ghost run = tokens@.subrange(start as int, index as int);
        let ghost found = overlapping@;
        proof {
            assert(tokens@.subrange(start as int, index + 1) == run.push(token));
            words_with_one_more_token(source@, run, token);
        }
        if token.kind.is_word() {
            overlapping.push(normalized_token_word(source, token));
            assert(string_views(overlapping@) == string_views(found).push(
                token_word(source@, token),
            ));
        }
        index += 1;
    }
    let ghost before = words_before(source@, document@, word_start as nat);
    let ghost at = words_at(source@, document@, word_start as nat, word_end as nat);
    let ghost after = words_after(source@, document@, word_start as nat, word_end as nat);
    assert(string_views(overlapping@) == at);

    // The full-document stats count the cursor word's occurrences and every
    // bigram into, within, and out of its token run, so they are exactly the exclusions.
    let mut pairs: Vec<(String, String)> = Vec::new();
    if overlapping.len() > 0 {
        if let Some(previous) = &previous_word {
            pairs.push((previous.clone(), overlapping[0].clone()));
        }
        let ghost into = pair_views(pairs@);
        assert(into == if before.len() > 0 {
            seq![(before.last(), at.first())]
        } else {
            Seq::empty()
        });
        let next_word = first_word_from(source, tokens, index);
        if let Some(next) = next_word {
            let ghost earlier = pairs@;
            let last = overlapping[overlapping.len() - 1].clone();
            pairs.push((last, next));
            assert(pair_views(pairs@) == pair_views(earlier).push((at.last(), after.first())));
        }
        let ghost outer = pair_views(pairs@);
        assert(outer == into + if after.len() > 0 {
            seq![(at.last(), after.first())]
        } else {
            Seq::empty()
        });
        let mut k: usize = 1;
        assert(adjacent_pairs(at.take(1)) == Seq::<(Seq<char>, Seq<char>)>::empty());
        while k < overlapping.len()
            invariant
                1 <= k <= overlapping@.len(),
                string_views(overlapping@) == at,
                pair_views(pairs@) == outer + adjacent_pairs(at.take(k as int)),
            decreases overlapping@.len() - k,
        {
            let ghost earlier = pairs@;
            pairs.push((overlapping[k - 1].clone(), overlapping[k].clone()));
            proof {
                let more = at.take(k + 1);
                assert(more.drop_last() == at.take(k as int));
                assert(pair_views(pairs@) == pair_views(earlier).push((at[k - 1], at[k as int])));
                assert(pair_views(pairs@) =~= outer + adjacent_pairs(more));
            }
            k += 1;
        }
        assert(at.take(at.len() as int) == at);
    }
    (CursorExclusions { words: overlapping, pairs }, previous_word)
}

/// Whether a token overlaps the cursor word.
pub open spec fn overlaps(token: Token, word_start: nat, word_end: nat) -> bool {
    token.span.start < word_end && word_start < token.span.end
}

/// How often `word` occurs when the word tokens are scanned one by one and those that overlap
/// the cursor word are skipped.
pub open spec fn rescanned_count(
    source: Seq<char>,
    scanned: Seq<Token>,
    word_start: nat,
    word_end: nat,
    word: Seq<char>,
) -> nat
    decreases scanned.len(),
{
    if scanned.len() == 0 {
        0
    } else {
        rescanned_count(source, scanned.drop_last(), word_start, word_end, word) + if !overlaps(
            scanned.last(),
            word_start,
            word_end,
        ) && token_word(source, scanned.last()) == word {
            1nat
        } else {
            0nat
        }
    }
}

/// How often `next` directly follows `previous` when the word tokens are scanned one by one and
/// those that overlap the cursor word, with the pairs that they are part of, are skipped.
pub open spec fn rescanned_pairs(
    source: Seq<char>,
    scanned: Seq<Token>,
    word_start: nat,
    word_end: nat,
    previous: Seq<char>,
    next: Seq<char>,
) -> nat
    decreases scanned.len(),
{
    if scanned.len() < 2 {
        0
    } else {
        rescanned_pairs(source, scanned.drop_last(), word_start, word_end, previous, next)
            + kept_pair(
            source,
            scanned[scanned.len() - 2],
            scanned.last(),
            word_start,
            word_end,
            previous,
            next,
        )
    }
}

/// One if two neighbouring word tokens form the pair and neither overlaps the cursor word.
pub open spec fn kept_pair(
    source: Seq<char>,
    first: Token,
    second: Token,
    word_start: nat,
    word_end: nat,
    previous: Seq<char>,
    next: Seq<char>,
) -> nat {
    if !overlaps(first, word_start, word_end) && !overlaps(second, word_start, word_end)
        && token_word(source, first) == previous && token_word(source, second) == next {
        1
    } else {
        0
    }
}

/// The last word that ends by `word_start`, found by scanning the word tokens one by one.
pub open spec fn rescanned_previous(
    source: Seq<char>,
    scanned: Seq<Token>,
    word_start: nat,
) -> Option<Seq<char>>
    decreases scanned.len(),
{
    if scanned.len() == 0 {
        None
    } else if scanned.last().span.end <= word_start {
        Some(token_word(source, scanned.last()))
    } else {
        rescanned_previous(source, scanned.drop_last(), word_start)
    }
}

/// The counts of the whole document less the cursor word's contribution are those of a scan
/// that skips the cursor word, and the word before the cursor is the one that the scan finds.
pub proof fn exclusions_match_a_rescan(
    source: Seq<char>,
    tokens: Seq<Token>,
    word_start: nat,
    word_end: nat,
    previous: Seq<char>,
    word: Seq<char>,
)
    requires
        tokens_in_order(tokens),
    ensures
        count_less(
            occurrences(words_of(source, tokens), word),
            occurrences(words_at(source, tokens, word_start, word_end), word),
        ) == rescanned_count(source, word_tokens(tokens), word_start, word_end, word),
        count_less(
            pair_occurrences(words_of(source, tokens), previous, word),
            pair_listings(
                pairs_at_cursor(
                    words_before(source, tokens, word_start),
                    words_at(source, tokens, word_start, word_end),
                    words_after(source, tokens, word_start, word_end),
                ),
                previous,
                word,
            ),
        ) == rescanned_pairs(source, word_tokens(tokens), word_start, word_end, previous, word),
        last_word(words_before(source, tokens, word_start)) == rescanned_previous(
            source,
            word_tokens(tokens),
            word_start,
        ),
{
    let start = tokens_ended_by(tokens, word_start) as int;
    let end = run_end(tokens, start as nat, word_end) as int;
    let wa = word_tokens(tokens.take(start));
    let wo = word_tokens(tokens.subrange(start, end));
    let wb = word_tokens(tokens.skip(end));
    cursor_splits_the_words(source, tokens, word_start, word_end);
    rescan_around_cursor(source, wa, wo, wb, word_start, word_end, previous, word);
}

/// The words stand before, at or after the cursor word, and only those at it overlap it.
proof fn cursor_splits_the_words(
    source: Seq<char>,
    tokens: Seq<Token>,
    word_start: nat,
    word_end: nat,
)
    requires
        tokens_in_order(tokens),
    ensures
        ({
            let start = tokens_ended_by(tokens, word_start) as int;
            let end = run_end(tokens, start as nat, word_end) as int;
            let wa = word_tokens(tokens.take(start));
            let wo = word_tokens(tokens.subrange(start, end));
            let wb = word_tokens(tokens.skip(end));
            &&& word_tokens(tokens) == wa + wo + wb
            &&& forall|k: int|
                0 <= k < wa.len() ==> !overlaps(#[trigger] wa[k], word_start, word_end)
                    && wa[k].span.end <= word_start
            &&& forall|k: int|
                0 <= k < wo.len() ==> overlaps(#[trigger] wo[k], word_start, word_end)
            &&& forall|k: int|
                0 <= k < wb.len() ==> !overlaps(#[trigger] wb[k], word_start, word_end)
                    && wb[k].span.end > word_start
        }),
{
    let start = tokens_ended_by(tokens, word_start) as int;
    let end = run_end(tokens, start as nat, word_end) as int;
    ended_tokens_come_first(tokens, word_start);
    run_end_is_within(tokens, start as nat, word_end);
    let a = tokens.take(start);
    let o = tokens.subrange(start, end);
    let b = tokens.skip(end);
    assert(tokens == a + o + b);
    words_of_joined_tokens(source, a + o, b);
    words_of_joined_tokens(source, a, o);
    assert forall|k: int| 0 <= k < a.len() implies !overlaps(#[trigger] a[k], word_start, word_end)
        && a[k].span.end <= word_start by {
        assert(a[k] == tokens[k]);
    }
    assert forall|k: int| 0 <= k < o.len() implies overlaps(
        #[trigger] o[k],
        word_start,
        word_end,
    ) by {
        assert(o[k] == tokens[start + k]);
    }
    assert forall|k: int| 0 <= k < b.len() implies !overlaps(#[trigger] b[k], word_start, word_end)
        && b[k].span.end > word_start by {
        assert(b[k] == tokens[end + k]);
        if k > 0 {
            assert(tokens[end].span.end <= tokens[end + k].span.start);
        }
    }
    word_tokens_are_tokens(a);
    word_tokens_are_tokens(o);
    word_tokens_are_tokens(b);
}

/// The counts of word tokens before, at and after the cursor word, against those of a scan.
proof fn rescan_around_cursor(
    source: Seq<char>,
    wa: Seq<Token>,
    wo: Seq<Token>,
    wb: Seq<Token>,
    word_start: nat,
    word_end: nat,
    previous: Seq<char>,
    word: Seq<char>,
)
    requires
        forall|k: int|
            0 <= k < wa.len() ==> !overlaps(#[trigger] wa[k], word_start, word_end)
                && wa[k].span.end <= word_start,
        forall|k: int| 0 <= k < wo.len() ==> overlaps(#[trigger] wo[k], word_start, word_end),
        forall|k: int|
            0 <= k < wb.len() ==> !overlaps(#[trigger] wb[k], word_start, word_end)
                && wb[k].span.end > word_start,
    ensures
        ({
            let f = |t: Token| token_word(source, t);
            let all = wa + wo + wb;
            &&& count_less(
                occurrences(all.map_values(f), word),
                occurrences(wo.map_values(f), word),
            ) == rescanned_count(source, all, word_start, word_end, word)
            &&& count_less(
                pair_occurrences(all.map_values(f), previous, word),
                pair_listings(
                    pairs_at_cursor(wa.map_values(f), wo.map_values(f), wb.map_values(f)),
                    previous,
                    word,
                ),
            ) == rescanned_pairs(source, all, word_start, word_end, previous, word)
            &&& last_word(wa.map_values(f)) == rescanned_previous(source, all, word_start)
        }),
{
    let f = |t: Token| token_word(source, t);
    let xa = wa.map_values(f);
    let xo = wo.map_values(f);
    let xb = wb.map_values(f);
    assert((wa + wo + wb).map_values(f) == xa + xo + xb);
    rescan_of_kept(source, wa, word_start, word_end, previous, word);
    rescan_of_kept(source, wb, word_start, word_end, previous, word);
    rescan_of_skipped(source, wo, word_start, word_end, previous, word);
    assert(count_less(occurrences(xa + xo + xb, word), occurrences(xo, word)) == rescanned_count(
        source,
        wa + wo + wb,
        word_start,
        word_end,
        word,
    )) by {
        occurrences_of_joined(xa + xo, xb, word);
        occurrences_of_joined(xa, xo, word);
        rescanned_count_of_joined(source, wa + wo, wb, word_start, word_end, word);
        rescanned_count_of_joined(source, wa, wo, word_start, word_end, word);
    }
    assert(rescanned_previous(source, wa + wo + wb, word_start) == last_word(xa)) by {
        let rest = wo + wb;
        assert(wa + wo + wb == wa + rest);
        rescanned_previous_of_joined(source, wa, rest, word_start);
    }
    pairs_of_joined(xa + xo, xb, previous, word);
    pairs_of_joined(xa, xo, previous, word);
    rescanned_pairs_of_joined(source, wa + wo, wb, word_start, word_end, previous, word);
    rescanned_pairs_of_joined(source, wa, wo, word_start, word_end, previous, word);
    listings_at_cursor(xa, xo, xb, previous, word);
    if xo.len() == 0 {
        assert(xa + xo == xa);
        assert(wa + wo == wa);
        if wa.len() > 0 && wb.len() > 0 {
            assert(!overlaps(wa[wa.len() - 1], word_start, word_end));
            assert(!overlaps(wb[0], word_start, word_end));
        }
    } else {
        assert(overlaps(wo[0], word_start, word_end));
        assert(overlaps(wo[wo.len() - 1], word_start, word_end));
        assert((xa + xo).last() == xo.last());
        assert((wa + wo).last() == wo.last());
    }
}

/// The pairs listed at the cursor are those within its words and those at both seams.
proof fn listings_at_cursor(
    xa: Seq<Seq<char>>,
    xo: Seq<Seq<char>>,
    xb: Seq<Seq<char>>,
    previous: Seq<char>,
    word: Seq<char>,
)
    ensures
        pair_listings(pairs_at_cursor(xa, xo, xb), previous, word) == if xo.len() == 0 {
            0
        } else {
            seam(xa, xo, previous, word) + seam(xo, xb, previous, word) + pair_occurrences(
                xo,
                previous,
                word,
            )
        },
{
    if xo.len() > 0 {
        let into: Seq<(Seq<char>, Seq<char>)> = if xa.len() > 0 {
            seq![(xa.last(), xo.first())]
        } else {
            Seq::empty()
        };
        let out: Seq<(Seq<char>, Seq<char>)> = if xb.len() > 0 {
            seq![(xo.last(), xb.first())]
        } else {
            Seq::empty()
        };
        listings_of_joined(into + out, adjacent_pairs(xo), previous, word);
        listings_of_joined(into, out, previous, word);
        listings_of_one(into, previous, word);
        listings_of_one(out, previous, word);
        listings_of_adjacent(xo, previous, word);
    }
}

proof fn word_tokens_are_tokens(tokens: Seq<Token>)
    ensures
        forall|k: int|
            0 <= k < word_tokens(tokens).len() ==> tokens.contains(#[trigger] word_tokens(tokens)[k]),
    decreases tokens.len(),
{
    if tokens.len() > 0 {
        let earlier = tokens.drop_last();
        word_tokens_are_tokens(earlier);
        assert forall|k: int| 0 <= k < word_tokens(tokens).len() implies tokens.contains(
            #[trigger] word_tokens(tokens)[k],
        ) by {
            if k < word_tokens(earlier).len() {
                assert(earlier.contains(word_tokens(earlier)[k]));
                let j = choose|j: int| 0 <= j < earlier.len() && earlier[j] == word_tokens(earlier)[k];
                assert(tokens[j] == word_tokens(tokens)[k]);
            } else {
                assert(tokens[tokens.len() - 1] == word_tokens(tokens)[k]);
            }
        }
    }
}

proof fn occurrences_of_joined(a: Seq<Seq<char>>, b: Seq<Seq<char>>, word: Seq<char>)
    ensures
        occurrences(a + b, word) == occurrences(a, word) + occurrences(b, word),
    decreases b.len(),
{
    if b.len() == 0 {
        assert(a + b == a);
    } else {
        assert((a + b).drop_last() == a + b.drop_last());
        occurrences_of_joined(a, b.drop_last(), word);
    }
}

/// One if the words at the seam of two lists form the pair.
spec fn seam(a: Seq<Seq<char>>, b: Seq<Seq<char>>, previous: Seq<char>, next: Seq<char>) -> nat {
    if a.len() > 0 && b.len() > 0 && a.last() == previous && b.first() == next {
        1
    } else {
        0
    }
}

proof fn pairs_of_joined(
    a: Seq<Seq<char>>,
    b: Seq<Seq<char>>,
    previous: Seq<char>,
    next: Seq<char>,
)
    ensures
        pair_occurrences(a + b, previous, next) == pair_occurrences(a, previous, next)
            + pair_occurrences(b, previous, next) + seam(a, b, previous, next),
    decreases b.len(),
{
    if b.len() == 0 {
        assert(a + b == a);
    } else {
        assert((a + b).drop_last() == a + b.drop_last());
        pairs_of_joined(a, b.drop_last(), previous, next);
        if b.len() == 1 {
            assert(a + b.drop_last() == a);
        } else {
            assert((a + b)[(a + b).len() - 2] == b[b.len() - 2]);
            assert(b.drop_last().first() == b.first());
        }
    }
}

proof fn rescanned_count_of_joined(
    source: Seq<char>,
    a: Seq<Token>,
    b: Seq<Token>,
    word_start: nat,
    word_end: nat,
    word: Seq<char>,
)
    ensures
        rescanned_count(source, a + b, word_start, word_end, word) == rescanned_count(
            source,
            a,
            word_start,
            word_end,
            word,
        ) + rescanned_count(source, b, word_start, word_end, word),
    decreases b.len(),
{
    if b.len() == 0 {
        assert(a + b == a);
    } else {
        assert((a + b).drop_last() == a + b.drop_last());
        rescanned_count_of_joined(source, a, b.drop_last(), word_start, word_end, word);
    }
}

proof fn rescanned_pairs_of_joined(
    source: Seq<char>,
    a: Seq<Token>,
    b: Seq<Token>,
    word_start: nat,
    word_end: nat,
    previous: Seq<char>,
    next: Seq<char>,
)
    ensures
        rescanned_pairs(source, a + b, word_start, word_end, previous, next) == rescanned_pairs(
            source,
            a,
            word_start,
            word_end,
            previous,
            next,
        ) + rescanned_pairs(source, b, word_start, word_end, previous, next) + if a.len() > 0
            && b.len() > 0 {
            kept_pair(source, a.last(), b.first(), word_start, word_end, previous, next)
        } else {
            0
        },
    decreases b.len(),
{
    if b.len() == 0 {
        assert(a + b == a);
    } else {
        assert((a + b).drop_last() == a + b.drop_last());
        rescanned_pairs_of_joined(
            source,
            a,
            b.drop_last(),
            word_start,
            word_end,
            previous,
            next,
        );
        if b.len() == 1 {
            assert(a + b.drop_last() == a);
        } else {
            assert((a + b)[(a + b).len() - 2] == b[b.len() - 2]);
            assert(b.drop_last().first() == b.first());
        }
    }
}

proof fn rescanned_previous_of_joined(
    source: Seq<char>,
    a: Seq<Token>,
    b: Seq<Token>,
    word_start: nat,
)
    requires
        forall|k: int| 0 <= k < a.len() ==> (#[trigger] a[k]).span.end <= word_start,
        forall|k: int| 0 <= k < b.len() ==> (#[trigger] b[k]).span.end > word_start,
    ensures
        rescanned_previous(source, a + b, word_start) == last_word(
            a.map_values(|t: Token| token_word(source, t)),
        ),
    decreases b.len(),
{
    if b.len() == 0 {
        assert(a + b == a);
        if a.len() > 0 {
            assert(a.last() == a[a.len() - 1]);
        }
    } else {
        assert((a + b).drop_last() == a + b.drop_last());
        assert((a + b).last() == b[b.len() - 1]);
        rescanned_previous_of_joined(source, a, b.drop_last(), word_start);
    }
}

/// A scan of tokens of which none is skipped counts them all.
proof fn rescan_of_kept(
    source: Seq<char>,
    kept: Seq<Token>,
    word_start: nat,
    word_end: nat,
    previous: Seq<char>,
    word: Seq<char>,
)
    requires
        forall|k: int|
            0 <= k < kept.len() ==> !overlaps(#[trigger] kept[k], word_start, word_end),
    ensures
        rescanned_count(source, kept, word_start, word_end, word) == occurrences(
            kept.map_values(|t: Token| token_word(source, t)),
            word,
        ),
        rescanned_pairs(source, kept, word_start, word_end, previous, word) == pair_occurrences(
            kept.map_values(|t: Token| token_word(source, t)),
            previous,
            word,
        ),
    decreases kept.len(),
{
    let f = |t: Token| token_word(source, t);
    if kept.len() > 0 {
        assert(kept.map_values(f).drop_last() == kept.drop_last().map_values(f));
        assert(kept.last() == kept[kept.len() - 1]);
        rescan_of_kept(source, kept.drop_last(), word_start, word_end, previous, word);
        if kept.len() > 1 {
            assert(!overlaps(kept[kept.len() - 2], word_start, word_end));
        }
    }
}

/// A scan that skips every token counts none.
proof fn rescan_of_skipped(
    source: Seq<char>,
    skipped: Seq<Token>,
    word_start: nat,
    word_end: nat,
    previous: Seq<char>,
    word: Seq<char>,
)
    requires
        forall|k: int|
            0 <= k < skipped.len() ==> overlaps(#[trigger] skipped[k], word_start, word_end),
    ensures
        rescanned_count(source, skipped, word_start, word_end, word) == 0,
        rescanned_pairs(source, skipped, word_start, word_end, previous, word) == 0,
    decreases skipped.len(),
{
    if skipped.len() > 0 {
        assert(skipped.last() == skipped[skipped.len() - 1]);
        rescan_of_skipped(source, skipped.drop_last(), word_start, word_end, previous, word);
    }
}

proof fn listings_of_joined(
    a: Seq<(Seq<char>, Seq<char>)>,
    b: Seq<(Seq<char>, Seq<char>)>,
    previous: Seq<char>,
    next: Seq<char>,
)
    ensures
        pair_listings(a + b, previous, next) == pair_listings(a, previous, next) + pair_listings(
            b,
            previous,
            next,
        ),
    decreases b.len(),
{
    if b.len() == 0 {
        assert(a + b == a);
    } else {
        assert((a + b).drop_last() == a + b.drop_last());
        listings_of_joined(a, b.drop_last(), previous, next);
    }
}

proof fn listings_of_one(
    pairs: Seq<(Seq<char>, Seq<char>)>,
    previous: Seq<char>,
    next: Seq<char>,
)
    requires
        pairs.len() <= 1,
    ensures
        pair_listings(pairs, previous, next) == if pairs.len() == 1 && pairs[0] == (
            previous,
            next,
        ) {
            1nat
        } else {
            0nat
        },
{
    if pairs.len() == 1 {
        assert(pair_listings(pairs.drop_last(), previous, next) == 0);
    }
}

proof fn listings_of_adjacent(words: Seq<Seq<char>>, previous: Seq<char>, next: Seq<char>)
    ensures
        pair_listings(adjacent_pairs(words), previous, next) == pair_occurrences(
            words,
            previous,
            next,
        ),
    decreases words.len(),
{
    if words.len() >= 2 {
        let pair = (words[words.len() - 2], words.last());
        let earlier = adjacent_pairs(words.drop_last());
        assert(earlier.push(pair).drop_last() == earlier);
        listings_of_adjacent(words.drop_last(), previous, next);
    }
}

proof fn word_tokens_are_filtered(tokens: Seq<Token>)
    ensures
        word_tokens(tokens) == tokens.filter(|t: Token| t.kind == TokenKind::Word),
    decreases tokens.len(),
{
    reveal(Seq::filter);
    if tokens.len() > 0 {
        word_tokens_are_filtered(tokens.drop_last());
    } else {
        assert(word_tokens(tokens) =~= tokens);
    }
}

/// The words of a document are the lowercase texts of its word tokens, all of them and in order.
pub proof fn words_are_the_lowercase_word_tokens(source: Seq<char>, tokens: Seq<Token>)
    ensures
        words_of(source, tokens) == tokens.filter(
            |t: Token| t.kind == TokenKind::Word,
        ).map_values(
            |t: Token|
                lowercase_text(source.subrange(t.span.start as int, t.span.end as int)),
        ),
{
    word_tokens_are_filtered(tokens);
    assert(words_of(source, tokens) =~= tokens.filter(
        |t: Token| t.kind == TokenKind::Word,
    ).map_values(
        |t: Token| lowercase_text(source.subrange(t.span.start as int, t.span.end as int)),
    ));
}

/// A word occurs as often as it is among the words.
pub proof fn occurrences_count_the_word(words: Seq<Seq<char>>, word: Seq<char>)
    ensures
        occurrences(words, word) == words.filter(|w: Seq<char>| w == word).len(),
    decreases words.len(),
{
    reveal(Seq::filter);
    if words.len() > 0 {
        occurrences_count_the_word(words.drop_last(), word);
    }
}

/// Each word of a list with the one after it.
pub open spec fn neighbours<A>(list: Seq<A>) -> Seq<(A, A)> {
    if list.len() < 2 {
        Seq::empty()
    } else {
        Seq::new((list.len() - 1) as nat, |i: int| (list[i], list[i + 1]))
    }
}

proof fn neighbours_of_a_longer_list<A>(list: Seq<A>)
    requires
        list.len() >= 2,
    ensures
        neighbours(list) == neighbours(list.drop_last()).push(
            (list[list.len() - 2], list.last()),
        ),
{
    assert(neighbours(list) =~= neighbours(list.drop_last()).push(
        (list[list.len() - 2], list.last()),
    ));
}

/// A word follows another as often as the two stand side by side among the words.
pub proof fn pair_occurrences_count_the_pair(
    words: Seq<Seq<char>>,
    previous: Seq<char>,
    next: Seq<char>,
)
    ensures
        pair_occurrences(words, previous, next) == neighbours(words).filter(
            |p: (Seq<char>, Seq<char>)| p == (previous, next),
        ).len(),
    decreases words.len(),
{
    reveal(Seq::filter);
    let pred = |p: (Seq<char>, Seq<char>)| p == (previous, next);
    if words.len() >= 2 {
        pair_occurrences_count_the_pair(words.drop_last(), previous, next);
        neighbours_of_a_longer_list(words);
        let all = neighbours(words);
        assert(all.drop_last() =~= neighbours(words.drop_last()));
    } else {
        assert(neighbours(words).filter(pred).len() == 0);
    }
}

/// A scan that skips the cursor word counts a word as often as a word token that does not overlap
/// it has the word as its lowercase text.
pub proof fn a_rescan_counts_the_other_words(
    source: Seq<char>,
    tokens: Seq<Token>,
    word_start: nat,
    word_end: nat,
    word: Seq<char>,
)
    ensures
        rescanned_count(source, word_tokens(tokens), word_start, word_end, word) == tokens.filter(
            |t: Token|
                t.kind == TokenKind::Word && !(t.span.start < word_end && word_start < t.span.end)
                    && lowercase_text(source.subrange(t.span.start as int, t.span.end as int))
                    == word,
        ).len(),
    decreases tokens.len(),
{
    reveal(Seq::filter);
    if tokens.len() > 0 {
        a_rescan_counts_the_other_words(source, tokens.drop_last(), word_start, word_end, word);
        let earlier = word_tokens(tokens.drop_last());
        assert(earlier.push(tokens.last()).drop_last() =~= earlier);
    }
}

/// A scan that skips the cursor word counts a pair as often as two neighbouring word tokens,
/// neither of which overlaps it, have the two words as their lowercase texts.
pub proof fn a_rescan_counts_the_other_pairs(
    source: Seq<char>,
    scanned: Seq<Token>,
    word_start: nat,
    word_end: nat,
    previous: Seq<char>,
    next: Seq<char>,
)
    ensures
        rescanned_pairs(source, scanned, word_start, word_end, previous, next) == neighbours(
            scanned,
        ).filter(
            |p: (Token, Token)|
                !(p.0.span.start < word_end && word_start < p.0.span.end) && !(p.1.span.start
                    < word_end && word_start < p.1.span.end) && lowercase_text(
                    source.subrange(p.0.span.start as int, p.0.span.end as int),
                ) == previous && lowercase_text(
                    source.subrange(p.1.span.start as int, p.1.span.end as int),
                ) == next,
        ).len(),
    decreases scanned.len(),
{
    reveal(Seq::filter);
    if scanned.len() >= 2 {
        a_rescan_counts_the_other_pairs(
            source,
            scanned.drop_last(),
            word_start,
            word_end,
            previous,
            next,
        );
        neighbours_of_a_longer_list(scanned);
        let all = neighbours(scanned);
        assert(all.drop_last() =~= neighbours(scanned.drop_last()));
    }
}

/// The word before the cursor is that of the last word token that ends by the start of the cursor
/// word.
pub proof fn the_previous_word_is_the_last_before(
    source: Seq<char>,
    tokens: Seq<Token>,
    word_start: nat,
)
    ensures
        ({
            let before = tokens.filter(
                |t: Token| t.kind == TokenKind::Word && t.span.end <= word_start,
            );
            rescanned_previous(source, word_tokens(tokens), word_start) == if before.len() == 0 {
                None
            } else {
                Some(
                    lowercase_text(
                        source.subrange(
                            before.last().span.start as int,
                            before.last().span.end as int,
                        ),
                    ),
                )
            }
        }),
    decreases tokens.len(),
{
    reveal(Seq::filter);
    if tokens.len() > 0 {
        the_previous_word_is_the_last_before(source, tokens.drop_last(), word_start);
        let earlier = word_tokens(tokens.drop_last());
        assert(earlier.push(tokens.last()).drop_last() =~= earlier);
    }
}

} // verus!
