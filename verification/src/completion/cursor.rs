//! Where the word at the cursor lies, and whether it may be completed.

use vstd::prelude::*;
use crate::chars::is_alphanumeric_char;
use crate::document::{
    token_at, token_at_is_the_only_one, tokens_in_order, Document, Token, TokenKind,
};

verus! {

/// Whether a character belongs to a word that can be completed.
pub open spec fn is_word_char(c: char) -> bool {
    is_alphanumeric_char(c) || c == '\'' || c == '-'
}

/// Where the run of word characters that ends at `end` starts.
pub open spec fn word_run_start(source: Seq<char>, end: nat) -> nat
    decreases end,
{
    if end == 0 || !is_word_char(source[end - 1]) {
        end
    } else {
        word_run_start(source, (end - 1) as nat)
    }
}

/// Where the run of word characters that starts at `start` ends.
pub open spec fn word_run_end(source: Seq<char>, start: nat) -> nat
    decreases source.len() - start,
{
    if start >= source.len() || !is_word_char(source[start as int]) {
        start
    } else {
        word_run_end(source, start + 1)
    }
}

/// A cursor moved back into a text of `len` characters.
pub open spec fn cursor_within(cursor: nat, len: nat) -> nat {
    if cursor <= len {
        cursor
    } else {
        len
    }
}

/// Whether a character belongs to a word that can be completed.
pub fn is_completion_word_char(c: char) -> (r: bool)
    ensures
        r == is_word_char(c),
{
    c.is_alphanumeric() || c == '\'' || c == '-'
}

/// The bounds of the word that the cursor stands in or at: everything from the last character
/// before the cursor that belongs to no word up to the first such character after it.
pub fn find_completion_word_bounds(source: &[char], cursor_index: usize) -> (r: (usize, usize))
    ensures
        r.0 == word_run_start(source@, cursor_within(cursor_index as nat, source@.len())),
        r.1 == word_run_end(source@, cursor_within(cursor_index as nat, source@.len())),
        r.0 <= cursor_within(cursor_index as nat, source@.len()) <= r.1 <= source@.len(),
{
    let cursor = if cursor_index <= source.len() {
        cursor_index
    } else {
        source.len()
    };
    let mut start: usize = cursor;
    while start > 0 && is_completion_word_char(source[start - 1])
        invariant
            start <= cursor <= source@.len(),
            word_run_start(source@, cursor as nat) == word_run_start(source@, start as nat),
        decreases start,
    {
        start -= 1;
    }
    let mut end: usize = cursor;
    while end < source.len() && is_completion_word_char(source[end])
        invariant
            cursor <= end <= source@.len(),
            word_run_end(source@, cursor as nat) == word_run_end(source@, end as nat),
        decreases source@.len() - end,
    {
        end += 1;
    }
    (start, end)
}

/// The token at a cursor: the one that holds the character after it, or else the one that holds
/// the character before it.
pub open spec fn token_near(tokens: Seq<Token>, cursor: nat) -> Option<Token> {
    match token_at(tokens, cursor) {
        Some(token) => Some(token),
        None => if cursor == 0 {
            None
        } else {
            token_at(tokens, (cursor - 1) as nat)
        },
    }
}

/// Token at the completion cursor.
///
/// Editors place the cursor at the *exclusive* end of the token being typed, and spans are
/// exclusive too, so there is no token at the end of the text, nor, before a gap, at the end of
/// a word. The character immediately before the cursor decides in that case.
pub fn token_at_completion_cursor(document: &Document, cursor_index: usize) -> (token: Option<
    Token,
>)
    ensures
        token == token_near(document@, cursor_index as nat),
{
    match document.get_token_at_char_index(cursor_index) {
        Some(token) => Some(token),
        None => {
            if cursor_index == 0 {
                None
            } else {
                document.get_token_at_char_index(cursor_index - 1)
            }
        },
    }
}

/// Whether the token at a cursor is prose.
pub open spec fn is_lintable_at(tokens: Seq<Token>, cursor: nat) -> bool {
    match token_near(tokens, cursor) {
        Some(token) => token.kind != TokenKind::Unlintable,
        None => false,
    }
}

/// Whether the cursor stands in prose, where completions are offered.
pub fn is_cursor_in_lintable_region(document: &Document, cursor_index: usize) -> (r: bool)
    ensures
        r == is_lintable_at(document@, cursor_index as nat),
{
    match token_at_completion_cursor(document, cursor_index) {
        Some(token) => !matches!(token.kind, TokenKind::Unlintable),
        None => false,
    }
}

proof fn word_run_start_is_the_start(source: Seq<char>, end: nat)
    requires
        end <= source.len(),
    ensures
        word_run_start(source, end) <= end,
        forall|i: int|
            word_run_start(source, end) <= i < end ==> is_word_char(#[trigger] source[i]),
        word_run_start(source, end) > 0 ==> !is_word_char(
            source[word_run_start(source, end) - 1],
        ),
    decreases end,
{
    if end > 0 && is_word_char(source[end - 1]) {
        word_run_start_is_the_start(source, (end - 1) as nat);
    }
}

proof fn word_run_end_is_the_end(source: Seq<char>, start: nat)
    requires
        start <= source.len(),
    ensures
        start <= word_run_end(source, start) <= source.len(),
        forall|i: int| start <= i < word_run_end(source, start) ==> is_word_char(
            #[trigger] source[i],
        ),
        word_run_end(source, start) < source.len() ==> !is_word_char(
            source[word_run_end(source, start) as int],
        ),
    decreases source.len() - start,
{
    if start < source.len() && is_word_char(source[start as int]) {
        word_run_end_is_the_end(source, start + 1);
    }
}

/// The bounds of the word at a cursor hold word characters only and the cursor itself, and
/// cannot be widened: no word character touches them from outside.
pub proof fn word_bounds_are_the_widest(source: Seq<char>, cursor: nat)
    requires
        cursor <= source.len(),
    ensures
        word_run_start(source, cursor) <= cursor <= word_run_end(source, cursor) <= source.len(),
        forall|i: int|
            word_run_start(source, cursor) <= i < word_run_end(source, cursor) ==> is_word_char(
                #[trigger] source[i],
            ),
        word_run_start(source, cursor) > 0 ==> !is_word_char(
            source[word_run_start(source, cursor) - 1],
        ),
        word_run_end(source, cursor) < source.len() ==> !is_word_char(
            source[word_run_end(source, cursor) as int],
        ),
{
    word_run_start_is_the_start(source, cursor);
    word_run_end_is_the_end(source, cursor);
}

/// Every cursor within a word, or at either end of it, finds the same bounds.
pub proof fn cursors_in_one_word_share_its_bounds(source: Seq<char>, cursor: nat, other: nat)
    requires
        cursor <= source.len(),
        word_run_start(source, cursor) <= other <= word_run_end(source, cursor),
    ensures
        word_run_start(source, other) == word_run_start(source, cursor),
        word_run_end(source, other) == word_run_end(source, cursor),
{
    word_bounds_are_the_widest(source, cursor);
    word_bounds_are_the_widest(source, other);
    let (a, b) = (word_run_start(source, cursor) as int, word_run_end(source, cursor) as int);
    let (c, d) = (word_run_start(source, other) as int, word_run_end(source, other) as int);
    if c < a {
        assert(is_word_char(source[a - 1]));
    }
    if c > a {
        assert(is_word_char(source[c - 1]));
    }
    if d > b {
        assert(is_word_char(source[b]));
    }
    if d < b {
        assert(is_word_char(source[d]));
    }
}

/// A cursor at the exclusive end of a token of prose stands in prose, at the end of the text
/// too, unless text that is no prose starts right there.
pub proof fn end_of_a_token_is_lintable(tokens: Seq<Token>, k: int)
    requires
        tokens_in_order(tokens),
        0 <= k < tokens.len(),
        tokens[k].span.start < tokens[k].span.end,
        tokens[k].kind != TokenKind::Unlintable,
        forall|j: int|
            k < j < tokens.len() && (#[trigger] tokens[j]).span.start == tokens[k].span.end
                ==> tokens[j].kind != TokenKind::Unlintable,
    ensures
        is_lintable_at(tokens, tokens[k].span.end as nat),
{
    let cursor = tokens[k].span.end as nat;
    token_at_is_the_only_one(tokens, cursor);
    token_at_is_the_only_one(tokens, (cursor - 1) as nat);
    assert(tokens[k].span.start <= cursor - 1 < tokens[k].span.end);
    match token_at(tokens, cursor) {
        Some(token) => {
            let j = choose|j: int| 0 <= j < tokens.len() && tokens[j] == token;
            if j < k {
                assert(tokens[j].span.end <= tokens[k].span.start);
            }
            if j > k {
                assert(tokens[k].span.end <= tokens[j].span.start);
            }
        },
        None => {},
    }
}

/// A document without tokens has no place where completions are offered.
pub proof fn empty_document_is_nowhere_lintable(cursor: nat)
    ensures
        !is_lintable_at(Seq::empty(), cursor),
{
}

/// The word at a cursor is what of the text around it is made of alphanumeric characters,
/// apostrophes and hyphens, as far as it goes in both directions.
pub proof fn words_are_alphanumeric_with_apostrophes_and_hyphens(
    source: Seq<char>,
    cursor: nat,
    start: int,
    end: int,
)
    requires
        0 <= start <= cursor <= end <= source.len(),
        forall|i: int|
            start <= i < end ==> is_alphanumeric_char(#[trigger] source[i]) || source[i] == '\''
                || source[i] == '-',
        start == 0 || !(is_alphanumeric_char(source[start - 1]) || source[start - 1] == '\''
            || source[start - 1] == '-'),
        end == source.len() || !(is_alphanumeric_char(source[end]) || source[end] == '\''
            || source[end] == '-'),
    ensures
        word_run_start(source, cursor) == start,
        word_run_end(source, cursor) == end,
{
    word_bounds_are_the_widest(source, cursor);
    let a = word_run_start(source, cursor) as int;
    let b = word_run_end(source, cursor) as int;
    if a < start {
        assert(is_word_char(source[start - 1]));
    }
    if a > start {
        assert(is_alphanumeric_char(source[a - 1]) || source[a - 1] == '\'' || source[a - 1]
            == '-');
    }
    if b > end {
        assert(is_word_char(source[end]));
    }
    if b < end {
        assert(is_alphanumeric_char(source[b]) || source[b] == '\'' || source[b] == '-');
    }
}

/// Of the token that holds the character at the cursor it depends whether completions are
/// offered; where there is none, of the one that holds the character before it; where there is
/// none either, they are not.
pub proof fn the_nearest_token_decides(tokens: Seq<Token>, cursor: nat, k: int)
    requires
        tokens_in_order(tokens),
        0 <= k < tokens.len(),
    ensures
        tokens[k].span.start <= cursor < tokens[k].span.end ==> is_lintable_at(tokens, cursor) == (
        tokens[k].kind != TokenKind::Unlintable),
        tokens[k].span.start < cursor <= tokens[k].span.end && (forall|j: int|
            0 <= j < tokens.len() ==> !((#[trigger] tokens[j]).span.start <= cursor
                < tokens[j].span.end)) ==> is_lintable_at(tokens, cursor) == (tokens[k].kind
            != TokenKind::Unlintable),
        (forall|j: int|
            0 <= j < tokens.len() ==> !((#[trigger] tokens[j]).span.start <= cursor
                <= tokens[j].span.end)) ==> !is_lintable_at(tokens, cursor),
{
    token_at_is_the_only_one(tokens, cursor);
    if cursor > 0 {
        token_at_is_the_only_one(tokens, (cursor - 1) as nat);
    }
    if tokens[k].span.start <= cursor < tokens[k].span.end {
        assert(token_at(tokens, cursor) == Some(tokens[k]));
    }
    if let Some(t) = token_at(tokens, cursor) {
        let j = choose|j: int| 0 <= j < tokens.len() && tokens[j] == t;
        assert(tokens[j].span.start <= cursor < tokens[j].span.end);
    } else if tokens[k].span.start < cursor <= tokens[k].span.end {
        assert(tokens[k].span.start <= cursor - 1 < tokens[k].span.end);
        assert(token_at(tokens, (cursor - 1) as nat) == Some(tokens[k]));
    }
    if cursor > 0 {
        if let Some(t) = token_at(tokens, (cursor - 1) as nat) {
            let j = choose|j: int| 0 <= j < tokens.len() && tokens[j] == t;
            assert(tokens[j].span.start <= cursor <= tokens[j].span.end);
        }
    }
}

} // verus!
