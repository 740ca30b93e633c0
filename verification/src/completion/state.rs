//! What the server keeps of an open document.

use vstd::prelude::*;
use std::sync::Arc;
use crate::completion::stats::{
    build_completion_stats, cursor_word_exclusions, exclusions_match_a_rescan, last_word,
    occurrences, pair_occurrences, pairs_at_cursor, rescanned_count, rescanned_pairs,
    rescanned_previous, word_tokens, words_after, words_at, words_before, words_of,
    CompletionContext, CompletionStats, ContextView,
};
use crate::dictionary::WordSet;
use crate::document::{tokens_in_order, tokens_within, Document, Token};
use crate::pos_conv::{line_starts, LineIndex};

verus! {

/// What the server keeps of an open document: its text and tokens, and what is derived of them
/// once per revision so that requests don't copy or rescan the document.
pub struct DocumentState {
    source: Arc<Vec<char>>,
    document: Arc<Document>,
    line_index: Arc<LineIndex>,
    completion_stats: Arc<CompletionStats>,
    misspelled_words: Arc<WordSet>,
}

/// A [`DocumentState`] in mathematical terms.
pub struct StateView {
    pub source: Seq<char>,
    pub tokens: Seq<Token>,
    pub stats: CompletionStats,
    pub misspelled: Set<Seq<char>>,
}

/// Whether statistics count the words and the pairs of neighbouring words of a document.
pub open spec fn counts_words(
    stats: CompletionStats,
    source: Seq<char>,
    tokens: Seq<Token>,
) -> bool {
    &&& forall|w: Seq<char>| #[trigger]
        stats.word_total(w) == occurrences(words_of(source, tokens), w)
    &&& forall|v: Seq<char>, w: Seq<char>| #[trigger]
        stats.pair_total(v, w) == pair_occurrences(words_of(source, tokens), v, w)
}

impl StateView {
    /// Whether the statistics count the document's words and pairs of neighbouring words.
    pub open spec fn counts_the_document(self) -> bool {
        counts_words(self.stats, self.source, self.tokens)
    }

    /// Whether the tokens are tokens of the text.
    pub open spec fn is_tokenized(self) -> bool {
        tokens_in_order(self.tokens) && tokens_within(self.tokens, self.source.len())
    }

    /// What the document says about the word that may stand at `word_start..word_end`.
    pub open spec fn context_at(self, word_start: nat, word_end: nat) -> ContextView {
        let before = words_before(self.source, self.tokens, word_start);
        let at = words_at(self.source, self.tokens, word_start, word_end);
        let after = words_after(self.source, self.tokens, word_start, word_end);
        ContextView {
            stats: self.stats,
            excluded_words: at,
            excluded_pairs: pairs_at_cursor(before, at, after),
            previous_word: last_word(before),
        }
    }
}

impl View for DocumentState {
    type V = StateView;

    closed spec fn view(&self) -> StateView {
        StateView {
            source: self.source@,
            tokens: self.document@,
            stats: *self.completion_stats,
            misspelled: self.misspelled_words@,
        }
    }
}

impl Clone for DocumentState {
    /// The same state, shared.
    fn clone(&self) -> (copy: Self)
        ensures
            copy@ == self@,
    {
        proof {
            use_type_invariant(self);
        }
        DocumentState {
            source: self.source.clone(),
            document: self.document.clone(),
            line_index: self.line_index.clone(),
            completion_stats: self.completion_stats.clone(),
            misspelled_words: self.misspelled_words.clone(),
        }
    }
}

impl DocumentState {
    #[verifier::type_invariant]
    spec fn is_current(self) -> bool {
        &&& self@.is_tokenized()
        &&& self@.counts_the_document()
        &&& self.line_index@ == line_starts(self.source@)
        &&& self.line_index.fits(self.source@)
    }

    /// The state of a document with the given text and tokens, of which no misspelled words are
    /// known yet; `None` where a token reaches beyond the text.
    pub fn new(source: Vec<char>, document: Document) -> (state: Option<Self>)
        ensures
            match state {
                Some(s) => {
                    &&& s@.source == source@
                    &&& s@.tokens == document@
                    &&& s@.misspelled == Set::<Seq<char>>::empty()
                    &&& s@.is_tokenized()
                    &&& s@.counts_the_document()
                },
                None => !tokens_within(document@, source@.len()),
            },
    {
        DocumentState::with_words(source, document, Arc::new(WordSet::new()))
    }

    /// The state of the next revision of the document, which keeps the words known to be
    /// misspelled until they are refreshed; `None` where a token reaches beyond the text.
    pub fn revised(&self, source: Vec<char>, document: Document) -> (state: Option<Self>)
        ensures
            match state {
                Some(s) => {
                    &&& s@.source == source@
                    &&& s@.tokens == document@
                    &&& s@.misspelled == self@.misspelled
                    &&& s@.is_tokenized()
                    &&& s@.counts_the_document()
                },
                None => !tokens_within(document@, source@.len()),
            },
    {
        DocumentState::with_words(source, document, self.misspelled_words.clone())
    }

    /// The same revision of the document with other misspelled words.
    pub fn with_misspelled_words(&self, misspelled_words: WordSet) -> (state: Self)
        ensures
            state@.source == self@.source,
            state@.tokens == self@.tokens,
            state@.stats == self@.stats,
            state@.misspelled == misspelled_words@,
    {
        proof {
            use_type_invariant(self);
        }
        DocumentState {
            source: self.source.clone(),
            document: self.document.clone(),
            line_index: self.line_index.clone(),
            completion_stats: self.completion_stats.clone(),
            misspelled_words: Arc::new(misspelled_words),
        }
    }

    fn with_words(
        source: Vec<char>,
        document: Document,
        misspelled_words: Arc<WordSet>,
    ) -> (state: Option<Self>)
        ensures
            match state {
                Some(s) => {
                    &&& s@.source == source@
                    &&& s@.tokens == document@
                    &&& s@.misspelled == misspelled_words@
                    &&& s@.is_tokenized()
                    &&& s@.counts_the_document()
                },
                None => !tokens_within(document@, source@.len()),
            },
    {
        let tokens = document.get_tokens();
        let mut i: usize = 0;
        while i < tokens.len()
            invariant
                i <= tokens@.len(),
                tokens@ == document@,
                forall|k: int| 0 <= k < i ==> (#[trigger] tokens@[k]).span.end <= source@.len(),
            decreases tokens@.len() - i,
        {
            if tokens[i].span.end > source.len() {
                assert(document@[i as int].span.end > source@.len());
                return None;
            }
            i += 1;
        }
        let line_index = LineIndex::new(source.as_slice());
        let stats = build_completion_stats(source.as_slice(), &document);
        Some(
            DocumentState {
                source: Arc::new(source),
                document: Arc::new(document),
                line_index: Arc::new(line_index),
                completion_stats: Arc::new(stats),
                misspelled_words,
            },
        )
    }

    /// The text.
    pub fn source(&self) -> (source: &Vec<char>)
        ensures
            source@ == self@.source,
    {
        &self.source
    }

    /// The tokens.
    pub fn document(&self) -> (document: &Document)
        ensures
            document@ == self@.tokens,
    {
        &self.document
    }

    /// The places where the lines of the text start.
    pub fn line_index(&self) -> (lines: &LineIndex)
        ensures
            lines@ == line_starts(self@.source),
            lines.fits(self@.source),
    {
        proof {
            use_type_invariant(self);
        }
        &self.line_index
    }

    /// The words known to be misspelled.
    pub fn misspelled_words(&self) -> (words: &WordSet)
        ensures
            words@ == self@.misspelled,
    {
        &self.misspelled_words
    }

    /// What the document says about the word that may stand at `word_start..word_end`: the
    /// counts are those of a scan that skips the word being typed.
    pub fn completion_context(&self, word_start: usize, word_end: usize) -> (context:
        CompletionContext)
        ensures
            context@ == self@.context_at(word_start as nat, word_end as nat),
            forall|w: Seq<char>| #[trigger]
                context@.local_total(w) == rescanned_count(
                    self@.source,
                    word_tokens(self@.tokens),
                    word_start as nat,
                    word_end as nat,
                    w,
                ),
            forall|v: Seq<char>, w: Seq<char>| #[trigger]
                context@.pair_total(v, w) == rescanned_pairs(
                    self@.source,
                    word_tokens(self@.tokens),
                    word_start as nat,
                    word_end as nat,
                    v,
                    w,
                ),
            context@.previous_word == rescanned_previous(
                self@.source,
                word_tokens(self@.tokens),
                word_start as nat,
            ),
    {
        proof {
            use_type_invariant(self);
        }
        let (exclusions, previous_word) = cursor_word_exclusions(
            self.source.as_slice(),
            &self.document,
            word_start,
            word_end,
        );
        let context = CompletionContext {
            stats: self.completion_stats.clone(),
            exclusions,
            previous_word,
        };
        proof {
            let (source, tokens) = (self@.source, self@.tokens);
            assert(context@ == self@.context_at(word_start as nat, word_end as nat));
            exclusions_match_a_rescan(
                source,
                tokens,
                word_start as nat,
                word_end as nat,
                Seq::empty(),
                Seq::empty(),
            );
            assert forall|w: Seq<char>| #[trigger]
                context@.local_total(w) == rescanned_count(
                    source,
                    word_tokens(tokens),
                    word_start as nat,
                    word_end as nat,
                    w,
                ) by {
                exclusions_match_a_rescan(
                    source,
                    tokens,
                    word_start as nat,
                    word_end as nat,
                    Seq::empty(),
                    w,
                );
                assert(self@.stats.word_total(w) == occurrences(words_of(source, tokens), w));
            }
            assert forall|v: Seq<char>, w: Seq<char>| #[trigger]
                context@.pair_total(v, w) == rescanned_pairs(
                    source,
                    word_tokens(tokens),
                    word_start as nat,
                    word_end as nat,
                    v,
                    w,
                ) by {
                exclusions_match_a_rescan(
                    source,
                    tokens,
                    word_start as nat,
                    word_end as nat,
                    v,
                    w,
                );
                assert(self@.stats.pair_total(v, w) == pair_occurrences(
                    words_of(source, tokens),
                    v,
                    w,
                ));
            }
        }
        context
    }
}

} // verus!
