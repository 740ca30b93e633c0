//! Which documents are looked through, and how they are parsed.

use vstd::prelude::*;
use crate::chars::string_to_chars;
use crate::completion::stats::option_view;
use crate::word_frequency::{begins_with, starts_with, string_views};

verus! {

/// The parsers that turn documents into tokens.
#[derive(Debug, Clone, Copy, PartialEq, Eq, Structural)]
pub enum ParserKind {
    /// The comments of a programming language.
    Comments,
    GitCommit,
    Html,
    Ink,
    JjDescription,
    LiterateHaskell,
    PlainEnglish,
    Markdown,
    OrgMode,
    Python,
    Typst,
}

/// The parser for a language; the comments are parsed of every language that has a parser for
/// them.
pub open spec fn parser_of(language_id: Seq<char>, has_comment_parser: bool) -> Option<
    ParserKind,
> {
    if has_comment_parser {
        Some(ParserKind::Comments)
    } else if language_id == "git-commit"@ || language_id == "gitcommit"@ {
        Some(ParserKind::GitCommit)
    } else if language_id == "html"@ {
        Some(ParserKind::Html)
    } else if language_id == "ink"@ {
        Some(ParserKind::Ink)
    } else if language_id == "jj-commit"@ || language_id == "jjdescription"@ {
        Some(ParserKind::JjDescription)
    } else if language_id == "lhaskell"@ || language_id == "literate haskell"@ {
        Some(ParserKind::LiterateHaskell)
    } else if language_id == "mail"@ {
        Some(ParserKind::PlainEnglish)
    } else if language_id == "markdown"@ {
        Some(ParserKind::Markdown)
    } else if language_id == "org"@ {
        Some(ParserKind::OrgMode)
    } else if language_id == "plaintext"@ || language_id == "text"@ {
        Some(ParserKind::PlainEnglish)
    } else if language_id == "python"@ {
        Some(ParserKind::Python)
    } else if language_id == "typst"@ {
        Some(ParserKind::Typst)
    } else {
        None
    }
}

/// Whether two strings are equal.
fn is_language(language_id: &str, name: &str) -> (r: bool)
    ensures
        r == (language_id@ == name@),
{
    language_id.to_owned() == name.to_owned()
}

/// Chooses the parser for a language.
pub fn parser_for_language(language_id: &str, has_comment_parser: bool) -> (parser: Option<
    ParserKind,
>)
    ensures
        parser == parser_of(language_id@, has_comment_parser),
{
    if has_comment_parser {
        Some(ParserKind::Comments)
    } else if is_language(language_id, "git-commit") || is_language(language_id, "gitcommit") {
        Some(ParserKind::GitCommit)
    } else if is_language(language_id, "html") {
        Some(ParserKind::Html)
    } else if is_language(language_id, "ink") {
        Some(ParserKind::Ink)
    } else if is_language(language_id, "jj-commit") || is_language(language_id, "jjdescription") {
        Some(ParserKind::JjDescription)
    } else if is_language(language_id, "lhaskell") || is_language(
        language_id,
        "literate haskell",
    ) {
        Some(ParserKind::LiterateHaskell)
    } else if is_language(language_id, "mail") {
        Some(ParserKind::PlainEnglish)
    } else if is_language(language_id, "markdown") {
        Some(ParserKind::Markdown)
    } else if is_language(language_id, "org") {
        Some(ParserKind::OrgMode)
    } else if is_language(language_id, "plaintext") || is_language(language_id, "text") {
        Some(ParserKind::PlainEnglish)
    } else if is_language(language_id, "python") {
        Some(ParserKind::Python)
    } else if is_language(language_id, "typst") {
        Some(ParserKind::Typst)
    } else {
        None
    }
}

/// Whether the identifiers of a document's code are collected, so that they are no misspellings.
pub fn collects_identifiers(parser: ParserKind) -> (r: bool)
    ensures
        r == (parser == ParserKind::Comments || parser == ParserKind::LiterateHaskell),
{
    matches!(parser, ParserKind::Comments | ParserKind::LiterateHaskell)
}

/// Whether a document is left out: there are patterns, it has a path, and the path matches one.
/// A document without a path, such as one that was never saved, is never left out.
pub fn is_excluded(has_patterns: bool, path_matches: Option<bool>) -> (r: bool)
    ensures
        r == (has_patterns && path_matches == Some(true)),
{
    match path_matches {
        Some(matches) => has_patterns && matches,
        None => false,
    }
}

/// The language of a document: the one it was opened with, which a later change does not tell
/// again. `known` is the language of a document that is open, and `None` for one that is not.
pub open spec fn language_of(
    known: Option<Option<Seq<char>>>,
    given: Option<Seq<char>>,
) -> Option<Seq<char>> {
    match known {
        Some(language) => language,
        None => given,
    }
}

/// What an open document is known by, in mathematical terms.
pub open spec fn known_view(known: Option<Option<String>>) -> Option<Option<Seq<char>>> {
    match known {
        Some(language) => Some(option_view(language)),
        None => None,
    }
}

/// The language of a document.
pub fn document_language(known: Option<Option<String>>, given: Option<String>) -> (language: Option<
    String,
>)
    ensures
        option_view(language) == language_of(known_view(known), option_view(given)),
{
    match known {
        Some(language) => language,
        None => given,
    }
}

/// What is done with the new text of a document.
#[derive(Debug, Clone, Copy, PartialEq, Eq, Structural)]
pub enum UpdatePlan {
    /// The document is forgotten.
    Forget,
    /// The text is parsed; `isolate_english` tells whether other languages in it are passed over.
    Parse { parser: ParserKind, isolate_english: bool },
    /// The text is too long to be looked through. The document stays open, but empty: otherwise
    /// its last problems would remain, and quickly fall out of sync with the text.
    Clear { parser: ParserKind },
}

/// What is done with the new text of a document.
pub open spec fn planned_update(
    excluded: bool,
    language: Option<Seq<char>>,
    has_comment_parser: bool,
    isolate_english: bool,
    text_len: nat,
    max_file_length: nat,
) -> UpdatePlan {
    if excluded {
        UpdatePlan::Forget
    } else {
        match language {
            None => UpdatePlan::Forget,
            Some(language_id) => match parser_of(language_id, has_comment_parser) {
                None => UpdatePlan::Forget,
                Some(parser) => if text_len <= max_file_length {
                    UpdatePlan::Parse { parser, isolate_english }
                } else {
                    UpdatePlan::Clear { parser }
                },
            },
        }
    }
}

/// Decides what is done with the new text of a document. One that is excluded, whose language is
/// not known or that no parser is for is forgotten; one that is too long is cleared.
pub fn plan_update(
    excluded: bool,
    language: &Option<String>,
    has_comment_parser: bool,
    isolate_english: bool,
    text_len: usize,
    max_file_length: usize,
) -> (plan: UpdatePlan)
    ensures
        plan == planned_update(
            excluded,
            option_view(*language),
            has_comment_parser,
            isolate_english,
            text_len as nat,
            max_file_length as nat,
        ),
{
    if excluded {
        return UpdatePlan::Forget;
    }
    match language {
        None => UpdatePlan::Forget,
        Some(language_id) => match parser_for_language(language_id.as_str(), has_comment_parser) {
            None => UpdatePlan::Forget,
            Some(parser) => if text_len <= max_file_length {
                UpdatePlan::Parse { parser, isolate_english }
            } else {
                UpdatePlan::Clear { parser }
            },
        },
    }
}

/// The words that a document is looked through with, beside those of the language.
#[derive(Debug)]
pub struct DocumentWords {
    /// The words of the user's, the workspace's and the document's own dictionary.
    pub words: Vec<String>,
    /// The identifiers of the document's code.
    pub identifiers: Vec<String>,
}

impl DocumentWords {
    /// Takes over the words of the dictionaries, and the identifiers if they were collected;
    /// returns whether anything is different, so that problems must be found anew.
    pub fn refresh(&mut self, words: Vec<String>, identifiers: Option<Vec<String>>) -> (stale: bool)
        ensures
            final(self).words == words,
            match identifiers {
                Some(found) => final(self).identifiers == found,
                None => final(self).identifiers == old(self).identifiers,
            },
            stale == (string_views(final(self).words@) != string_views(old(self).words@)
                || string_views(final(self).identifiers@) != string_views(
                old(self).identifiers@,
            )),
    {
        let mut stale = !same_texts(&self.words, &words);
        self.words = words;
        if let Some(found) = identifiers {
            if !same_texts(&self.identifiers, &found) {
                stale = true;
            }
            self.identifiers = found;
        }
        stale
    }
}

/// Whether two lists hold the same texts in the same order.
fn same_texts(a: &Vec<String>, b: &Vec<String>) -> (r: bool)
    ensures
        r == (string_views(a@) == string_views(b@)),
{
    if a.len() != b.len() {
        assert(string_views(a@).len() != string_views(b@).len());
        return false;
    }
    let mut i: usize = 0;
    while i < a.len()
        invariant
            i <= a@.len() == b@.len(),
            forall|k: int| 0 <= k < i ==> (#[trigger] a@[k])@ == b@[k]@,
        decreases a@.len() - i,
    {
        if a[i] != b[i] {
            assert(string_views(a@)[i as int] != string_views(b@)[i as int]);
            return false;
        }
        i += 1;
    }
    assert(string_views(a@) =~= string_views(b@));
    true
}

/// The words of a dictionary file when one was added; a word that is there already is not added
/// again.
pub fn with_added_word(words: Vec<String>, word: String) -> (r: Vec<String>)
    ensures
        string_views(r@) == if string_views(words@).contains(word@) {
            string_views(words@)
        } else {
            string_views(words@).push(word@)
        },
{
    let ghost before = string_views(words@);
    let mut i: usize = 0;
    while i < words.len()
        invariant
            i <= words@.len(),
            before == string_views(words@),
            forall|k: int| 0 <= k < i ==> #[trigger] before[k] != word@,
        decreases words@.len() - i,
    {
        assert(before[i as int] == words@[i as int]@);
        if words[i] == word {
            return words;
        }
        i += 1;
    }
    let mut words = words;
    words.push(word);
    assert(string_views(words@) =~= before.push(word@));
    words
}

/// When the dictionaries of a document were last modified, in nanoseconds since the epoch; `None`
/// where a file is missing or cannot be read.
#[derive(Debug, Clone, Copy, PartialEq, Eq, Structural)]
pub struct DictionaryStamps {
    pub user: Option<i128>,
    pub workspace: Option<i128>,
    pub file: Option<i128>,
}

/// Whether dictionaries that were loaded before can be used again: none of their files was
/// modified, added or removed since.
pub fn is_cache_current(cached: Option<DictionaryStamps>, current: DictionaryStamps) -> (r: bool)
    ensures
        r == (cached == Some(current)),
{
    match cached {
        Some(stamps) => same_stamp(stamps.user, current.user) && same_stamp(
            stamps.workspace,
            current.workspace,
        ) && same_stamp(stamps.file, current.file),
        None => false,
    }
}

/// Whether two times are equal, or both missing.
fn same_stamp(a: Option<i128>, b: Option<i128>) -> (r: bool)
    ensures
        r == (a == b),
{
    match (a, b) {
        (Some(x), Some(y)) => x == y,
        (None, None) => true,
        _ => false,
    }
}

/// A change of a file that the editor watches.
#[derive(Debug)]
pub struct FileChange {
    pub uri: String,
    pub deleted: bool,
}

/// Whether a change of a file takes a document away. The file may be a directory that the
/// document was in.
pub open spec fn takes_away(change: FileChange, uri: Seq<char>) -> bool {
    change.deleted && begins_with(uri, change.uri@)
}

/// The documents that a change leaves.
pub open spec fn left_by(uris: Seq<Seq<char>>, change: FileChange) -> Seq<Seq<char>>
    decreases uris.len(),
{
    if uris.len() == 0 {
        Seq::empty()
    } else if takes_away(change, uris.last()) {
        left_by(uris.drop_last(), change)
    } else {
        left_by(uris.drop_last(), change).push(uris.last())
    }
}

/// The documents that a change takes away.
pub open spec fn taken_by(uris: Seq<Seq<char>>, change: FileChange) -> Seq<Seq<char>>
    decreases uris.len(),
{
    if uris.len() == 0 {
        Seq::empty()
    } else if takes_away(change, uris.last()) {
        taken_by(uris.drop_last(), change).push(uris.last())
    } else {
        taken_by(uris.drop_last(), change)
    }
}

/// The documents that changes, one after the other, leave.
pub open spec fn left_by_all(uris: Seq<Seq<char>>, changes: Seq<FileChange>) -> Seq<Seq<char>>
    decreases changes.len(),
{
    if changes.len() == 0 {
        uris
    } else {
        left_by(left_by_all(uris, changes.drop_last()), changes.last())
    }
}

/// The documents that changes, one after the other, take away.
pub open spec fn taken_by_all(uris: Seq<Seq<char>>, changes: Seq<FileChange>) -> Seq<Seq<char>>
    decreases changes.len(),
{
    if changes.len() == 0 {
        Seq::empty()
    } else {
        taken_by_all(uris, changes.drop_last()) + taken_by(
            left_by_all(uris, changes.drop_last()),
            changes.last(),
        )
    }
}

/// Parts open documents into those that changes of files leave, and those that they take away,
/// whose problems are to be cleared.
pub fn clear_deleted_documents(uris: Vec<String>, changes: &Vec<FileChange>) -> (r: (
    Vec<String>,
    Vec<String>,
))
    ensures
        string_views(r.0@) == left_by_all(string_views(uris@), changes@),
        string_views(r.1@) == taken_by_all(string_views(uris@), changes@),
{
    let ghost all = string_views(uris@);
    let mut left: Vec<String> = uris;
    let mut taken: Vec<String> = Vec::new();
    let mut i: usize = 0;
    assert(string_views(taken@) =~= taken_by_all(all, changes@.take(0)));
    while i < changes.len()
        invariant
            i <= changes@.len(),
            string_views(left@) == left_by_all(all, changes@.take(i as int)),
            string_views(taken@) == taken_by_all(all, changes@.take(i as int)),
        decreases changes@.len() - i,
    {
        assert(changes@.take(i + 1).drop_last() == changes@.take(i as int));
        left = clear_one(left, &changes[i], &mut taken);
        i += 1;
    }
    assert(changes@.take(i as int) == changes@);
    (left, taken)
}

/// Takes the documents away that one change removes; returns the others.
fn clear_one(uris: Vec<String>, change: &FileChange, taken: &mut Vec<String>) -> (left: Vec<String>)
    ensures
        string_views(left@) == left_by(string_views(uris@), *change),
        string_views(final(taken)@) == string_views(old(taken)@) + taken_by(
            string_views(uris@),
            *change,
        ),
{
    let ghost all = string_views(uris@);
    let ghost before = string_views(taken@);
    let mut left: Vec<String> = Vec::new();
    let prefix = string_to_chars(change.uri.as_str());
    let mut k: usize = 0;
    assert(string_views(left@) =~= left_by(all.take(0), *change));
    assert(before + taken_by(all.take(0), *change) =~= before);
    while k < uris.len()
        invariant
            k <= uris@.len(),
            all == string_views(uris@),
            prefix@ == change.uri@,
            string_views(left@) == left_by(all.take(k as int), *change),
            string_views(taken@) == before + taken_by(all.take(k as int), *change),
        decreases uris@.len() - k,
    {
        let uri = uris[k].clone();
        let ghost next = all.take(k + 1);
        assert(next.drop_last() == all.take(k as int));
        assert(next.last() == uri@);
        let chars = string_to_chars(uri.as_str());
        if change.deleted && starts_with(chars.as_slice(), prefix.as_slice()) {
            let ghost earlier = taken@;
            taken.push(uri);
            assert(string_views(taken@) =~= string_views(earlier).push(uri@));
            assert(string_views(taken@) =~= before + taken_by(next, *change));
        } else {
            let ghost earlier = left@;
            left.push(uri);
            assert(string_views(left@) =~= string_views(earlier).push(uri@));
        }
        k += 1;
    }
    assert(all.take(k as int) == all);
    left
}

/// Whether any of the changes takes a document away.
pub open spec fn is_taken_away(uri: Seq<char>, changes: Seq<FileChange>) -> bool {
    exists|k: int| 0 <= k < changes.len() && takes_away(#[trigger] changes[k], uri)
}

/// A document is left exactly where none of the changes takes it away, and its problems are
/// cleared exactly where one does.
pub proof fn deleted_documents_are_cleared(
    uris: Seq<Seq<char>>,
    changes: Seq<FileChange>,
    uri: Seq<char>,
)
    ensures
        left_by_all(uris, changes).contains(uri) == (uris.contains(uri) && !is_taken_away(
            uri,
            changes,
        )),
        taken_by_all(uris, changes).contains(uri) == (uris.contains(uri) && is_taken_away(
            uri,
            changes,
        )),
    decreases changes.len(),
{
    if changes.len() > 0 {
        let few = changes.drop_last();
        let change = changes.last();
        deleted_documents_are_cleared(uris, few, uri);
        let left = left_by_all(uris, few);
        one_change_parts_documents(left, change, uri);
        if is_taken_away(uri, few) {
            let k = choose|k: int| 0 <= k < few.len() && takes_away(#[trigger] few[k], uri);
            assert(takes_away(changes[k], uri));
        }
        if takes_away(change, uri) {
            assert(takes_away(changes[changes.len() - 1], uri));
        }
        if is_taken_away(uri, changes) && !takes_away(change, uri) {
            let k = choose|k: int| 0 <= k < changes.len() && takes_away(#[trigger] changes[k], uri);
            assert(takes_away(few[k], uri));
        }
        let a = taken_by_all(uris, few);
        let b = taken_by(left, change);
        if a.contains(uri) {
            let k = choose|k: int| 0 <= k < a.len() && a[k] == uri;
            assert((a + b)[k] == uri);
        }
        if b.contains(uri) {
            let k = choose|k: int| 0 <= k < b.len() && b[k] == uri;
            assert((a + b)[a.len() + k] == uri);
        }
        if (a + b).contains(uri) {
            let k = choose|k: int| 0 <= k < (a + b).len() && (a + b)[k] == uri;
            if k < a.len() {
                assert(a[k] == uri);
            } else {
                assert(b[k - a.len()] == uri);
            }
        }
    }
}

proof fn one_change_parts_documents(uris: Seq<Seq<char>>, change: FileChange, uri: Seq<char>)
    ensures
        left_by(uris, change).contains(uri) == (uris.contains(uri) && !takes_away(change, uri)),
        taken_by(uris, change).contains(uri) == (uris.contains(uri) && takes_away(change, uri)),
    decreases uris.len(),
{
    if uris.len() > 0 {
        let few = uris.drop_last();
        one_change_parts_documents(few, change, uri);
        let last = uris.last();
        assert(uris == few.push(last));
        assert(uris.contains(uri) == (few.contains(uri) || last == uri)) by {
            pushed_contains(few, last, uri);
        }
        pushed_contains(left_by(few, change), last, uri);
        pushed_contains(taken_by(few, change), last, uri);
    }
}

proof fn pushed_contains(uris: Seq<Seq<char>>, last: Seq<char>, uri: Seq<char>)
    ensures
        uris.push(last).contains(uri) == (uris.contains(uri) || last == uri),
{
    if uris.contains(uri) {
        let k = choose|k: int| 0 <= k < uris.len() && uris[k] == uri;
        assert(uris.push(last)[k] == uri);
    }
    if last == uri {
        assert(uris.push(last)[uris.len() as int] == uri);
    }
}

/// A document is parsed where it is not excluded, its language is known and has a parser, and
/// its text is not too long; it is cleared where only the length is wrong, and forgotten else.
pub proof fn documents_are_parsed_unless_something_is_wrong(
    excluded: bool,
    language: Option<Seq<char>>,
    has_comment_parser: bool,
    isolate_english: bool,
    text_len: nat,
    max_file_length: nat,
    parser: ParserKind,
)
    ensures
        ({
            let plan = planned_update(
                excluded,
                language,
                has_comment_parser,
                isolate_english,
                text_len,
                max_file_length,
            );
            let has_parser = language matches Some(id) && parser_of(id, has_comment_parser) == Some(
                parser,
            );
            &&& excluded || language is None ==> plan == UpdatePlan::Forget
            &&& (language matches Some(id) && parser_of(id, has_comment_parser) is None) ==> plan
                == UpdatePlan::Forget
            &&& !excluded && has_parser && text_len <= max_file_length ==> plan
                == (UpdatePlan::Parse { parser, isolate_english })
            &&& !excluded && has_parser && text_len > max_file_length ==> plan
                == (UpdatePlan::Clear { parser })
        }),
{
}

/// The language of an open document stays what it was; that of another is the one that is given.
pub proof fn an_open_document_keeps_its_language(
    language: Option<Seq<char>>,
    given: Option<Seq<char>>,
)
    ensures
        language_of(Some(language), given) == language,
        language_of(None, given) == given,
{
}

/// Every language with a parser for its comments is parsed by it, whatever it is called.
pub proof fn comments_are_parsed_of_any_language(language_id: Seq<char>)
    ensures
        parser_of(language_id, true) == Some(ParserKind::Comments),
{
}

/// A document is taken away exactly where some file was deleted whose URI the document's URI
/// starts with, as that of the document itself or of a directory that it was in.
pub proof fn deletions_take_documents_away_by_prefix(
    uris: Seq<Seq<char>>,
    changes: Seq<FileChange>,
    uri: Seq<char>,
    k: int,
)
    requires
        uris.contains(uri),
    ensures
        0 <= k < changes.len() && changes[k].deleted && changes[k].uri@.len() <= uri.len()
            && uri.subrange(0, changes[k].uri@.len() as int) == changes[k].uri@ ==> taken_by_all(
            uris,
            changes,
        ).contains(uri) && !left_by_all(uris, changes).contains(uri),
        (forall|j: int|
            0 <= j < changes.len() ==> !((#[trigger] changes[j]).deleted && changes[j].uri@.len()
                <= uri.len() && uri.subrange(0, changes[j].uri@.len() as int) == changes[j].uri@))
            ==> left_by_all(uris, changes).contains(uri) && !taken_by_all(uris, changes).contains(
            uri,
        ),
{
    deleted_documents_are_cleared(uris, changes, uri);
    if 0 <= k < changes.len() && changes[k].uri@.len() <= uri.len() {
        let n = changes[k].uri@.len() as int;
        assert(uri.take(n) =~= uri.subrange(0, n));
        if changes[k].deleted && uri.subrange(0, n) == changes[k].uri@ {
            assert(takes_away(changes[k], uri));
        }
    }
    if is_taken_away(uri, changes) {
        let j = choose|j: int| 0 <= j < changes.len() && takes_away(#[trigger] changes[j], uri);
        let n = changes[j].uri@.len() as int;
        assert(uri.take(n) =~= uri.subrange(0, n));
        assert(changes[j].deleted);
    }
}

} // verus!
