//! This module implements parsing of file paths (Unix and Windows style).
//! Recognizes patterns like:
//! - Unix absolute: /path/to/file.txt
//! - Unix relative: path/to/file.txt, ./path/to/file.txt, ../path/to/file.txt
//! - Windows: C:\path\to\file.txt, \\network\path

use vstd::prelude::*;
use crate::chars::{is_alphanumeric_char, is_ascii_letter};
use crate::document::TokenKind;
use crate::lexing::FoundToken;

verus! {

/// A character that a component of a Unix path may hold.
pub open spec fn is_unix_path_char(c: char) -> bool {
    is_alphanumeric_char(c) || c == '_' || c == '-' || c == '.'
}

/// A character that a Windows path may hold after its root.
pub open spec fn is_windows_path_char(c: char) -> bool {
    is_alphanumeric_char(c) || c == '_' || c == '-' || c == '.' || c == ' ' || c == '\\'
}

/// The length of the root or the dots that a Unix path starts with: `/`, `./`, `../` or nothing.
pub open spec fn unix_root_len(s: Seq<char>) -> nat {
    if s.len() > 0 && s[0] == '/' {
        1
    } else if s.len() > 2 && s[0] == '.' && s[1] == '.' && s[2] == '/' {
        3
    } else if s.len() > 1 && s[0] == '.' && s[1] == '/' {
        2
    } else {
        0
    }
}

/// Whether a Unix path cannot go on with the character at `at`: one that no component holds, or
/// a slash that would leave a component empty.
pub open spec fn unix_path_stops(s: Seq<char>, at: nat) -> bool {
    if s[at as int] == '/' {
        at == 0 || s[at - 1] == '/'
    } else {
        !is_unix_path_char(s[at as int])
    }
}

/// Where a Unix path that goes on at `from` ends.
pub open spec fn unix_path_end(s: Seq<char>, from: nat) -> nat
    decreases s.len() - from,
{
    if from >= s.len() || unix_path_stops(s, from) {
        from
    } else {
        unix_path_end(s, from + 1)
    }
}

/// The number of slashes from `from` up to `to`.
pub open spec fn slashes(s: Seq<char>, from: nat, to: nat) -> nat
    decreases to - from,
{
    if from >= to {
        0
    } else {
        slashes(s, from, (to - 1) as nat) + if s[to - 1] == '/' {
            1nat
        } else {
            0nat
        }
    }
}

/// Where the Unix path that a text starts with ends, if it starts with one.
///
/// There must be something after the root; without a root there must be two slashes, which keeps
/// plain file names and abbreviations such as "a.m." from being taken for paths.
pub open spec fn unix_path(s: Seq<char>) -> Option<nat> {
    let root = unix_root_len(s);
    let end = unix_path_end(s, root);
    if (root > 0 && end > root) || (root == 0 && slashes(s, 0, end) >= 2) {
        Some(end)
    } else {
        None
    }
}

/// The length of the root of a Windows path: `C:\` or `\\`.
pub open spec fn windows_root_len(s: Seq<char>) -> nat {
    if s.len() < 3 {
        0
    } else if is_ascii_letter(s[0]) && s[1] == ':' && s[2] == '\\' {
        3
    } else if s[0] == '\\' && s[1] == '\\' {
        2
    } else {
        0
    }
}

/// Where a Windows path that goes on at `from` ends.
pub open spec fn windows_path_end(s: Seq<char>, from: nat) -> nat
    decreases s.len() - from,
{
    if from >= s.len() || !is_windows_path_char(s[from as int]) {
        from
    } else {
        windows_path_end(s, from + 1)
    }
}

/// Where the Windows path that a text starts with ends, if it starts with one.
pub open spec fn windows_path(s: Seq<char>) -> Option<nat> {
    let root = windows_root_len(s);
    let end = windows_path_end(s, root);
    if root > 0 && end > 3 {
        Some(end)
    } else {
        None
    }
}

/// Where the path that a text starts with ends: read as a Unix path first, which is the more
/// common kind in documentation, and as a Windows path where that fails.
pub open spec fn file_path(s: Seq<char>) -> Option<nat> {
    if unix_path(s) is Some {
        unix_path(s)
    } else {
        windows_path(s)
    }
}

/// Whether a lexer's result is the file path that ends at `end`, or nothing where there is none.
pub open spec fn is_path_token(found: Option<FoundToken>, end: Option<nat>) -> bool {
    match end {
        Some(n) => found matches Some(t) && t.next_index == n && t.token == TokenKind::FilePath,
        None => found is None,
    }
}

/// Finds the file path at the start of a text.
pub fn lex_file_path(source: &[char]) -> (found: Option<FoundToken>)
    ensures
        is_path_token(found, file_path(source@)),
        found matches Some(t) ==> 0 < t.next_index <= source@.len(),
{
    // Try Unix-style path first (more common in markdown/documentation)
    if let Some(token) = lex_unix_path(source) {
        return Some(token);
    }
    // Try Windows-style path

    lex_windows_path(source)
}

/// Finds the Unix path at the start of a text.
pub fn lex_unix_path(source: &[char]) -> (found: Option<FoundToken>)
    ensures
        is_path_token(found, unix_path(source@)),
        found matches Some(t) ==> 0 < t.next_index <= source@.len(),
{
    if source.is_empty() {
        return None;
    }
    // Absolute path starting with /, or relative path indicators: ./ or ../

    let is_absolute = source[0] == '/';
    let is_dot_relative = !is_absolute && source[0] == '.' && source.len() > 1 && source[1] == '/';
    let is_dotdot_relative = !is_absolute && source.len() > 2 && source[0] == '.' && source[1]
        == '.' && source[2] == '/';
    let start_cursor: usize = if is_absolute {
        1
    } else if is_dotdot_relative {
        3
    } else if is_dot_relative {
        2
    } else {
        0
    };

    // Consume path components separated by /
    let mut cursor: usize = start_cursor;
    let mut component_start: usize = start_cursor;
    let mut slash_count: usize = 0;
    while cursor < source.len()
        invariant_except_break
            component_start <= cursor,
        invariant
            start_cursor == unix_root_len(source@),
            start_cursor <= cursor <= source@.len(),
            component_start == cursor <==> cursor == 0 || source@[cursor - 1] == '/',
            slash_count == slashes(source@, start_cursor as nat, cursor as nat),
            slash_count <= cursor,
            unix_path_end(source@, start_cursor as nat) == unix_path_end(source@, cursor as nat),
        ensures
            cursor == unix_path_end(source@, start_cursor as nat),
        decreases source@.len() - cursor,
    {
        let c = source[cursor];
        if c == '/' {
            // Don't allow empty components (consecutive slashes)
            if cursor == component_start {
                break;
            }
            slash_count += 1;
            cursor += 1;
            component_start = cursor;
            continue ;
        }
        // Valid path characters: alphanumeric, underscore, hyphen, dot

        if c.is_alphanumeric() || c == '_' || c == '-' || c == '.' {
            cursor += 1;
        } else {
            break;
        }
    }

    // Must have something after the root, or at least two slashes where there is no root.
    // This prevents "file.txt" from being treated as a path
    if (start_cursor > 0 && cursor > start_cursor) || (start_cursor == 0 && slash_count >= 2) {
        return Some(FoundToken { next_index: cursor, token: TokenKind::FilePath });
    }
    None
}

/// Finds the Windows path at the start of a text.
pub fn lex_windows_path(source: &[char]) -> (found: Option<FoundToken>)
    ensures
        is_path_token(found, windows_path(source@)),
        found matches Some(t) ==> 0 < t.next_index <= source@.len(),
{
    if source.len() < 3 {
        return None;
    }
    // Check for drive letter: C:\ or network path: \\

    let is_drive = source[0].is_ascii_alphabetic() && source[1] == ':' && source[2] == '\\';
    let is_network = source[0] == '\\' && source[1] == '\\';
    if !is_drive && !is_network {
        return None;
    }
    let mut cursor: usize = if is_drive {
        3
    } else {
        2
    };

    // Consume path components separated by \
    while cursor < source.len()
        invariant
            cursor <= source@.len(),
            windows_path_end(source@, windows_root_len(source@)) == windows_path_end(
                source@,
                cursor as nat,
            ),
        ensures
            cursor == windows_path_end(source@, windows_root_len(source@)),
        decreases source@.len() - cursor,
    {
        let c = source[cursor];
        // Valid Windows path characters
        if c == '\\' || c.is_alphanumeric() || c == '_' || c == '-' || c == '.' || c == ' ' {
            cursor += 1;
        } else {
            break;
        }
    }
    if cursor > 3 {
        Some(FoundToken { next_index: cursor, token: TokenKind::FilePath })
    } else {
        None
    }
}

proof fn unix_path_end_is_maximal(s: Seq<char>, from: nat)
    requires
        from <= s.len(),
    ensures
        from <= unix_path_end(s, from) <= s.len(),
        forall|k: int| from <= k < unix_path_end(s, from) ==> !unix_path_stops(s, #[trigger] (k as nat)),
        unix_path_end(s, from) < s.len() ==> unix_path_stops(s, unix_path_end(s, from)),
    decreases s.len() - from,
{
    if from < s.len() && !unix_path_stops(s, from) {
        unix_path_end_is_maximal(s, from + 1);
    }
}

proof fn windows_path_end_is_maximal(s: Seq<char>, from: nat)
    requires
        from <= s.len(),
    ensures
        from <= windows_path_end(s, from) <= s.len(),
        forall|k: int|
            from <= k < windows_path_end(s, from) ==> is_windows_path_char(#[trigger] s[k]),
        windows_path_end(s, from) < s.len() ==> !is_windows_path_char(
            s[windows_path_end(s, from) as int],
        ),
    decreases s.len() - from,
{
    if from < s.len() && is_windows_path_char(s[from as int]) {
        windows_path_end_is_maximal(s, from + 1);
    }
}

proof fn no_slash_counts_none(s: Seq<char>, from: nat, to: nat)
    requires
        to <= s.len(),
        forall|k: int| 0 <= k < s.len() ==> #[trigger] s[k] != '/',
    ensures
        slashes(s, from, to) == 0,
    decreases to - from,
{
    if from < to {
        no_slash_counts_none(s, from, (to - 1) as nat);
    }
}

/// A text without a slash or a backslash, such as a single word or a plain file name, is never
/// taken for a path.
pub proof fn text_without_separators_is_no_path(s: Seq<char>)
    requires
        forall|k: int| 0 <= k < s.len() ==> #[trigger] s[k] != '/' && s[k] != '\\',
    ensures
        file_path(s) is None,
{
    unix_path_end_is_maximal(s, 0);
    no_slash_counts_none(s, 0, unix_path_end(s, 0));
}

/// A Unix path holds nothing but slashes and the characters of its components, so it ends before
/// any other character, whitespace included.
pub proof fn unix_path_holds_path_characters(s: Seq<char>)
    requires
        unix_path(s) is Some,
    ensures
        unix_path(s)->0 <= s.len(),
        forall|k: int|
            unix_root_len(s) <= k < unix_path(s)->0 ==> #[trigger] s[k] == '/'
                || is_unix_path_char(s[k]),
{
    let root = unix_root_len(s);
    unix_path_end_is_maximal(s, root);
    assert forall|k: int| root <= k < unix_path(s)->0 implies #[trigger] s[k] == '/'
        || is_unix_path_char(s[k]) by {
        assert(!unix_path_stops(s, k as nat));
    }
}

/// A Windows path holds nothing but backslashes, spaces and the characters of its components
/// after its root.
pub proof fn windows_path_holds_path_characters(s: Seq<char>)
    requires
        windows_path(s) is Some,
    ensures
        3 < windows_path(s)->0 <= s.len(),
        forall|k: int|
            windows_root_len(s) <= k < windows_path(s)->0 ==> is_windows_path_char(
                #[trigger] s[k],
            ),
{
    windows_path_end_is_maximal(s, windows_root_len(s));
}

/// No component of a Unix path is empty: no two slashes of it stand side by side.
pub proof fn unix_path_has_no_empty_component(s: Seq<char>, k: int)
    requires
        unix_path(s) is Some,
        0 <= k,
        k + 1 < unix_path(s)->0,
    ensures
        !(s[k] == '/' && s[k + 1] == '/'),
{
    let root = unix_root_len(s);
    unix_path_end_is_maximal(s, root);
    if k + 1 >= root {
        assert(!unix_path_stops(s, (k + 1) as nat));
    }
}

proof fn unix_path_end_found(s: Seq<char>, from: nat, n: nat)
    requires
        from <= n <= s.len(),
        forall|k: int| from <= k < n ==> !unix_path_stops(s, #[trigger] (k as nat)),
        n < s.len() ==> unix_path_stops(s, n),
    ensures
        unix_path_end(s, from) == n,
    decreases n - from,
{
    if from < n {
        let k = from as int;
        assert(!unix_path_stops(s, k as nat));
        unix_path_end_found(s, from + 1, n);
    }
}

proof fn slashes_are_counted(s: Seq<char>, i: int, j: int, n: nat)
    requires
        0 <= i < j < n <= s.len(),
        s[i] == '/',
        s[j] == '/',
    ensures
        slashes(s, 0, n) >= 2,
    decreases n,
{
    if j < n - 1 {
        slashes_are_counted(s, i, j, (n - 1) as nat);
    } else {
        a_slash_is_counted(s, i, (n - 1) as nat);
    }
}

proof fn a_slash_is_counted(s: Seq<char>, i: int, n: nat)
    requires
        0 <= i < n <= s.len(),
        s[i] == '/',
    ensures
        slashes(s, 0, n) >= 1,
    decreases n,
{
    if i < n - 1 {
        a_slash_is_counted(s, i, (n - 1) as nat);
    }
}

proof fn one_slash_counts_once(s: Seq<char>, at: int, n: nat)
    requires
        n <= s.len(),
        forall|k: int| 0 <= k < s.len() && #[trigger] s[k] == '/' ==> k == at,
    ensures
        slashes(s, 0, n) <= 1,
        at >= n ==> slashes(s, 0, n) == 0,
    decreases n,
{
    if n > 0 {
        one_slash_counts_once(s, at, (n - 1) as nat);
        if s[n - 1] == '/' {
            assert(at == n - 1);
        }
    }
}

/// Components that hold alphanumeric characters, underscores, hyphens and dots, joined by single
/// slashes, are a path where there are at least two slashes. The path ends with the text, before
/// another character, or before a slash that follows a slash.
pub proof fn components_joined_by_slashes_are_a_path(s: Seq<char>, n: nat, i: int, j: int)
    requires
        0 < i < j < n <= s.len(),
        s[i] == '/',
        s[j] == '/',
        s[0] != '/',
        !(s[0] == '.' && s[1] == '/'),
        !(s[0] == '.' && s[1] == '.' && s[2] == '/'),
        forall|k: int|
            0 <= k < n ==> #[trigger] s[k] == '/' || is_alphanumeric_char(s[k]) || s[k] == '_'
                || s[k] == '-' || s[k] == '.',
        forall|k: int| 0 < k < n && #[trigger] s[k] == '/' ==> s[k - 1] != '/',
        n == s.len() || s[n as int] == '/' && s[n - 1] == '/' || s[n as int] != '/' && !(
        is_alphanumeric_char(s[n as int]) || s[n as int] == '_' || s[n as int] == '-'
            || s[n as int] == '.'),
    ensures
        file_path(s) == Some(n),
{
    assert forall|k: int| 0 <= k < n implies !unix_path_stops(s, #[trigger] (k as nat)) by {
        assert(s[k] == '/' || is_unix_path_char(s[k]));
    }
    unix_path_end_found(s, 0, n);
    slashes_are_counted(s, i, j, n);
}

/// After `/`, `./` or `../` one component is enough for a path, and the slashes between further
/// ones must be single.
pub proof fn components_after_a_root_are_a_path(s: Seq<char>, root: nat, n: nat)
    requires
        root == 1 && s[0] == '/' || root == 2 && s[0] == '.' && s[1] == '/' || root == 3 && s[0]
            == '.' && s[1] == '.' && s[2] == '/',
        root < n <= s.len(),
        forall|k: int|
            root <= k < n ==> #[trigger] s[k] == '/' || is_alphanumeric_char(s[k]) || s[k] == '_'
                || s[k] == '-' || s[k] == '.',
        forall|k: int| root <= k < n && #[trigger] s[k] == '/' ==> s[k - 1] != '/',
        n == s.len() || s[n as int] == '/' && s[n - 1] == '/' || s[n as int] != '/' && !(
        is_alphanumeric_char(s[n as int]) || s[n as int] == '_' || s[n as int] == '-'
            || s[n as int] == '.'),
    ensures
        file_path(s) == Some(n),
{
    assert forall|k: int| root <= k < n implies !unix_path_stops(s, #[trigger] (k as nat)) by {
        assert(s[k] == '/' || is_unix_path_char(s[k]));
    }
    unix_path_end_found(s, root, n);
}

/// A root without a component after it is no path.
pub proof fn a_bare_root_is_no_path(s: Seq<char>, root: nat)
    requires
        root == 1 && s[0] == '/' || root == 2 && s[0] == '.' && s[1] == '/' || root == 3 && s[0]
            == '.' && s[1] == '.' && s[2] == '/',
        root <= s.len(),
        root == s.len() || s[root as int] == '/' || !(is_alphanumeric_char(s[root as int])
            || s[root as int] == '_' || s[root as int] == '-' || s[root as int] == '.'),
    ensures
        file_path(s) is None,
{
}

/// A text with one slash, which stands behind neither of the dotted roots nor at the start, and
/// without a backslash is no path.
pub proof fn one_slash_is_no_path(s: Seq<char>, at: int)
    requires
        0 < at < s.len(),
        forall|k: int| 0 <= k < s.len() && #[trigger] s[k] == '/' ==> k == at,
        forall|k: int| 0 <= k < s.len() ==> #[trigger] s[k] != '\\',
        !(s[0] == '.' && s[1] == '/'),
        !(s[0] == '.' && s[1] == '.' && s[2] == '/'),
    ensures
        file_path(s) is None,
{
    unix_path_end_is_maximal(s, 0);
    one_slash_counts_once(s, at, unix_path_end(s, 0));
}

proof fn windows_path_end_found(s: Seq<char>, from: nat, n: nat)
    requires
        from <= n <= s.len(),
        forall|k: int| from <= k < n ==> is_windows_path_char(#[trigger] s[k]),
        n < s.len() ==> !is_windows_path_char(s[n as int]),
    ensures
        windows_path_end(s, from) == n,
    decreases n - from,
{
    if from < n {
        windows_path_end_found(s, from + 1, n);
    }
}

/// A drive letter, a colon and a backslash, or two backslashes, and after them alphanumeric
/// characters, underscores, hyphens, dots, spaces and backslashes are a path, where there are
/// more than three characters in all. It ends with the text or before another character.
pub proof fn text_after_a_windows_root_is_a_path(s: Seq<char>, root: nat, n: nat)
    requires
        root == 3 && is_ascii_letter(s[0]) && s[1] == ':' && s[2] == '\\' || root == 2 && s[0]
            == '\\' && s[1] == '\\',
        root <= 3 < n <= s.len(),
        forall|k: int|
            root <= k < n ==> is_alphanumeric_char(#[trigger] s[k]) || s[k] == '_' || s[k] == '-'
                || s[k] == '.' || s[k] == ' ' || s[k] == '\\',
        n == s.len() || !(is_alphanumeric_char(s[n as int]) || s[n as int] == '_' || s[n as int]
            == '-' || s[n as int] == '.' || s[n as int] == ' ' || s[n as int] == '\\'),
        !is_alphanumeric_char(':') && !is_alphanumeric_char('\\'),
    ensures
        file_path(s) == Some(n),
{
    assert(n == s.len() || !is_windows_path_char(s[n as int]));
    assert forall|k: int| root <= k < n implies is_windows_path_char(#[trigger] s[k]) by {}
    assert(!is_ascii_letter('\\'));
    windows_path_end_found(s, root, n);
    assert(unix_path(s) is None) by {
        assert(!is_unix_path_char(':') && !is_unix_path_char('\\'));
        assert(s[0] != '/');
        assert(s[0] != '.');
        if root == 3 {
            assert(unix_path_stops(s, 1));
            assert(unix_path_end(s, 1) == 1);
            assert(unix_path_end(s, 0) <= 1);
            assert(slashes(s, 0, 0) == 0);
            assert(slashes(s, 0, 1) <= 1);
        } else {
            assert(unix_path_stops(s, 0));
            assert(unix_path_end(s, 0) == 0);
        }
    }
}

/// A text that starts with none of the roots and has no slash is no path.
pub proof fn text_without_a_root_or_a_slash_is_no_path(s: Seq<char>)
    requires
        forall|k: int| 0 <= k < s.len() ==> #[trigger] s[k] != '/',
        s.len() < 3 || !(is_ascii_letter(s[0]) && s[1] == ':' && s[2] == '\\') && !(s[0] == '\\'
            && s[1] == '\\'),
    ensures
        file_path(s) is None,
{
    unix_path_end_is_maximal(s, 0);
    no_slash_counts_none(s, 0, unix_path_end(s, 0));
}

} // verus!
