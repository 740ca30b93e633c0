//! What is done with the problems found in a document.

use vstd::prelude::*;
use vstd::slice::slice_subrange;
use crate::chars::{chars_to_string, lowercase_text, string_to_chars};
use crate::dictionary::WordSet;
use crate::pos_conv::{index_of, line_lies_within, LineIndex, Range};

verus! {

/// What a problem is called.
#[derive(Debug)]
pub enum DiagnosticCode {
    Number(i32),
    Text(String),
}

/// A problem found in a document.
#[derive(Debug)]
pub struct Diagnostic {
    pub range: Range,
    pub code: Option<DiagnosticCode>,
}

/// Whether a text occurs in another.
pub open spec fn occurs_in(needle: Seq<char>, text: Seq<char>) -> bool {
    exists|at: int| #[trigger] occurs_at(needle, text, at)
}

/// Whether a text occurs in another at a given place.
pub open spec fn occurs_at(needle: Seq<char>, text: Seq<char>, at: int) -> bool {
    0 <= at <= text.len() - needle.len() && text.subrange(at, at + needle.len()) == needle
}

/// Whether a text occurs in another.
fn contains_text(text: &[char], needle: &[char]) -> (r: bool)
    ensures
        r == occurs_in(needle@, text@),
{
    let text_len: usize = text.len();
    if needle.len() > text_len {
        return false;
    }
    let mut at: usize = 0;
    while at <= text_len - needle.len()
        invariant
            needle@.len() <= text@.len() == text_len,
            at <= text@.len() - needle@.len() + 1,
            forall|k: int| 0 <= k < at ==> !#[trigger] occurs_at(needle@, text@, k),
        decreases text@.len() - needle@.len() + 1 - at,
    {
        let mut i: usize = 0;
        while i < needle.len() && text[at + i] == needle[i]
            invariant
                i <= needle@.len(),
                at + needle@.len() <= text@.len() == text_len,
                forall|k: int| 0 <= k < i ==> text@[at + k] == #[trigger] needle@[k],
            decreases needle@.len() - i,
        {
            i += 1;
        }
        if i == needle.len() {
            assert(text@.subrange(at as int, at + needle@.len()) =~= needle@);
            assert(occurs_at(needle@, text@, at as int));
            return true;
        }
        assert(!occurs_at(needle@, text@, at as int)) by {
            assert(text@.subrange(at as int, at + needle@.len())[i as int] == text@[at + i]);
        }
        if at == text_len - needle.len() {
            return false;
        }
        at += 1;
    }
    false
}

/// Whether a problem is one of spelling: the text of its code says so.
pub open spec fn is_spelling(diagnostic: Diagnostic) -> bool {
    match diagnostic.code {
        Some(DiagnosticCode::Text(code)) => occurs_in("Spelling"@, code@),
        _ => false,
    }
}

/// The word that a problem is about, in lowercase, if its range holds any text.
pub open spec fn diagnosed_word(
    source: Seq<char>,
    starts: Seq<usize>,
    diagnostic: Diagnostic,
) -> Option<Seq<char>> {
    let start = index_of(source, starts, diagnostic.range.start) as int;
    let end = index_of(source, starts, diagnostic.range.end) as int;
    if start < end <= source.len() {
        Some(lowercase_text(source.subrange(start, end)))
    } else {
        None
    }
}

/// Whether a word is misspelled: a problem of spelling is about it.
pub open spec fn is_misspelled(
    source: Seq<char>,
    starts: Seq<usize>,
    diagnostics: Seq<Diagnostic>,
    word: Seq<char>,
) -> bool {
    exists|k: int|
        0 <= k < diagnostics.len() && #[trigger] names_word(source, starts, diagnostics[k], word)
}

/// Whether a problem is one of spelling and about the given word.
pub open spec fn names_word(
    source: Seq<char>,
    starts: Seq<usize>,
    diagnostic: Diagnostic,
    word: Seq<char>,
) -> bool {
    is_spelling(diagnostic) && diagnosed_word(source, starts, diagnostic) == Some(word)
}

/// Whether both lines that a range names, if they are recorded, lie within a text of `len`
/// characters.
pub open spec fn range_lies_within(starts: Seq<usize>, len: nat, range: Range) -> bool {
    line_lies_within(starts, len, range.start.line as nat) && line_lies_within(
        starts,
        len,
        range.end.line as nat,
    )
}

/// Whether a problem is one of spelling.
fn is_spelling_diagnostic(diagnostic: &Diagnostic) -> (r: bool)
    ensures
        r == is_spelling(*diagnostic),
{
    match &diagnostic.code {
        Some(DiagnosticCode::Text(code)) => {
            let needle = string_to_chars("Spelling");
            let text = string_to_chars(code.as_str());
            contains_text(text.as_slice(), needle.as_slice())
        },
        _ => false,
    }
}

/// The words, in lowercase, that the problems of spelling are about. Completions never offer
/// them.
pub fn extract_misspelled_words(
    source: &[char],
    line_index: &LineIndex,
    diagnostics: &Vec<Diagnostic>,
) -> (words: WordSet)
    requires
        forall|k: int|
            0 <= k < diagnostics@.len() && is_spelling(#[trigger] diagnostics@[k])
                ==> range_lies_within(line_index@, source@.len(), diagnostics@[k].range),
    ensures
        forall|w: Seq<char>|
            words@.contains(w) <==> #[trigger] is_misspelled(
                source@,
                line_index@,
                diagnostics@,
                w,
            ),
{
    let mut words = WordSet::new();
    let mut i: usize = 0;
    let ghost starts = line_index@;
    while i < diagnostics.len()
        invariant
            i <= diagnostics@.len(),
            forall|k: int|
                0 <= k < diagnostics@.len() && is_spelling(#[trigger] diagnostics@[k])
                    ==> range_lies_within(line_index@, source@.len(), diagnostics@[k].range),
            starts == line_index@,
            forall|w: Seq<char>|
                words@.contains(w) <==> #[trigger] is_misspelled(
                    source@,
                    starts,
                    diagnostics@.take(i as int),
                    w,
                ),
        decreases diagnostics@.len() - i,
    {
        let ghost few = diagnostics@.take(i as int);
        let ghost more = diagnostics@.take(i + 1);
        let ghost before = words@;
        let diagnostic = &diagnostics[i];
        if is_spelling_diagnostic(diagnostic) {
            let span = line_index.range_to_span(source, diagnostic.range);
            if span.start < span.end && span.end <= source.len() {
                let word = chars_to_string(slice_subrange(source, span.start, span.end));
                words.insert(word.to_lowercase());
            }
        }
        proof {
            assert forall|w: Seq<char>|
                words@.contains(w) <==> #[trigger] is_misspelled(source@, starts, more, w) by {
                assert(before.contains(w) <==> is_misspelled(source@, starts, few, w));
                if is_misspelled(source@, starts, few, w) {
                    let k = choose|k: int|
                        0 <= k < few.len() && #[trigger] names_word(source@, starts, few[k], w);
                    assert(names_word(source@, starts, more[k], w));
                }
                if names_word(source@, starts, *diagnostic, w) {
                    assert(names_word(source@, starts, more[i as int], w));
                }
                if is_misspelled(source@, starts, more, w) {
                    let k = choose|k: int|
                        0 <= k < more.len() && #[trigger] names_word(source@, starts, more[k], w);
                    if k < i {
                        assert(names_word(source@, starts, few[k], w));
                    }
                }
            }
        }
        i += 1;
    }
    assert(diagnostics@.take(i as int) == diagnostics@);
    words
}

/// What is done with the problems just found.
#[derive(Debug, Clone, Copy, PartialEq, Eq, Structural)]
pub struct PublishPlan {
    /// Whether they are sent to the editor.
    pub publish: bool,
    /// Whether they are remembered, and the misspelled words taken from them.
    pub remember: bool,
}

/// Decides what is done with the problems just found in a document. Those that were sent last
/// are not sent again. A document that is not open has nothing to remember, and what was found is
/// sent anyway.
pub fn plan_publication(is_open: bool, is_unchanged: bool) -> (plan: PublishPlan)
    ensures
        plan.publish == !(is_open && is_unchanged),
        plan.remember == (is_open && !is_unchanged),
{
    if !is_open {
        PublishPlan { publish: true, remember: false }
    } else if is_unchanged {
        PublishPlan { publish: false, remember: false }
    } else {
        PublishPlan { publish: true, remember: true }
    }
}

/// A word is misspelled exactly where the text of the code of some problem holds "Spelling", and
/// the word is the lowercase form of the non-empty text in the range of that problem.
pub proof fn spelling_problems_name_misspelled_words(
    source: Seq<char>,
    starts: Seq<usize>,
    diagnostics: Seq<Diagnostic>,
    k: int,
    before: Seq<char>,
    after: Seq<char>,
)
    requires
        0 <= k < diagnostics.len(),
        diagnostics[k].code matches Some(DiagnosticCode::Text(code)) && code@ == before
            + "Spelling"@ + after,
        index_of(source, starts, diagnostics[k].range.start) < index_of(
            source,
            starts,
            diagnostics[k].range.end,
        ) <= source.len(),
    ensures
        is_misspelled(
            source,
            starts,
            diagnostics,
            lowercase_text(
                source.subrange(
                    index_of(source, starts, diagnostics[k].range.start) as int,
                    index_of(source, starts, diagnostics[k].range.end) as int,
                ),
            ),
        ),
{
    let word = lowercase_text(
        source.subrange(
            index_of(source, starts, diagnostics[k].range.start) as int,
            index_of(source, starts, diagnostics[k].range.end) as int,
        ),
    );
    let text = before + "Spelling"@ + after;
    let at = before.len() as int;
    assert(text.subrange(at, at + "Spelling"@.len()) =~= "Spelling"@);
    assert(occurs_at("Spelling"@, text, at));
    assert(names_word(source, starts, diagnostics[k], word));
}

/// No word is misspelled for a problem without a code, with a number for a code, or with a code
/// that nowhere holds "Spelling".
pub proof fn other_problems_name_no_misspelled_words(
    source: Seq<char>,
    starts: Seq<usize>,
    diagnostics: Seq<Diagnostic>,
    word: Seq<char>,
)
    requires
        forall|k: int|
            0 <= k < diagnostics.len() ==> match (#[trigger] diagnostics[k]).code {
                Some(DiagnosticCode::Text(code)) => forall|at: int|
                    0 <= at && at + 8 <= code@.len() ==> #[trigger] code@.subrange(at, at + 8)
                        != "Spelling"@,
                _ => true,
            },
    ensures
        !is_misspelled(source, starts, diagnostics, word),
{
    reveal_strlit("Spelling");
    if is_misspelled(source, starts, diagnostics, word) {
        let k = choose|k: int|
            0 <= k < diagnostics.len() && #[trigger] names_word(
                source,
                starts,
                diagnostics[k],
                word,
            );
        assert(is_spelling(diagnostics[k]));
        if let Some(DiagnosticCode::Text(code)) = diagnostics[k].code {
            let at = choose|at: int| #[trigger] occurs_at("Spelling"@, code@, at);
            assert(code@.subrange(at, at + 8) == "Spelling"@);
        }
    }
}

} // verus!
