//! The names of documents.

use vstd::prelude::*;
use vstd::utf8::encode_utf8;
use std::str::FromStr;
use tower_lsp_server::lsp_types::Uri;
use crate::chars::{ascii_lower, is_ascii_letter, is_ascii_number, string_to_chars};

verus! {

/// The most bytes that a URI can have.
pub const MAX_URI_BYTES: usize = 2147483647;

/// Whether a text is a URI reference, as the parser of `lsp_types::Uri` decides it.
pub uninterp spec fn is_uri_reference(text: Seq<char>) -> bool;

/// Whether a character may stand in the scheme of a URI.
pub open spec fn is_scheme_char(c: char) -> bool {
    is_ascii_letter(c) || is_ascii_number(c) || c == '+' || c == '-' || c == '.'
}

/// How many characters at the front of a text may stand in a scheme.
pub open spec fn scheme_run(text: Seq<char>) -> nat
    decreases text.len(),
{
    if text.len() == 0 || !is_scheme_char(text[0]) {
        0
    } else {
        1 + scheme_run(text.drop_first())
    }
}

/// The scheme of a URI reference: what stands before a colon that only characters of a scheme
/// precede.
pub open spec fn leading_scheme(text: Seq<char>) -> Option<Seq<char>> {
    let n = scheme_run(text) as int;
    if 0 < n < text.len() && text[n] == ':' {
        Some(text.take(n))
    } else {
        None
    }
}

/// `lsp_types::Uri::from_str`, and the scheme of the parsed URI by `Uri::scheme`: `None` where
/// the text is no URI reference, which [`is_uri_reference`] names, and otherwise the scheme, if
/// the reference has one. The parser panics on more than `i32::MAX` bytes.
#[verifier::external_body]
fn parse_scheme(text: &str) -> (r: Option<Option<String>>)
    requires
        encode_utf8(text@).len() <= MAX_URI_BYTES,
    ensures
        r is Some == is_uri_reference(text@),
        r matches Some(scheme) ==> match leading_scheme(text@) {
            Some(s) => scheme matches Some(v) && v@ == s,
            None => scheme is None,
        },
{
    let uri = Uri::from_str(text).ok()?;
    Some(uri.scheme().map(|scheme| scheme.as_str().to_owned()))
}

/// What becomes of a text that is taken for a URI.
#[derive(Debug, Clone, Copy, PartialEq, Eq, Structural)]
pub enum UriCheck {
    /// It is a URI reference.
    Valid,
    /// It is none.
    Invalid,
    /// It is longer than any URI.
    TooLong,
}

/// What becomes of a text that is taken for a URI.
pub open spec fn checked_uri(text: Seq<char>) -> UriCheck {
    if encode_utf8(text).len() > MAX_URI_BYTES {
        UriCheck::TooLong
    } else if is_uri_reference(text) {
        UriCheck::Valid
    } else {
        UriCheck::Invalid
    }
}

/// Tells whether a text is a URI.
pub fn check_uri(text: &str) -> (check: UriCheck)
    ensures
        check == checked_uri(text@),
{
    if text.as_bytes().len() > MAX_URI_BYTES {
        UriCheck::TooLong
    } else if parse_scheme(text).is_some() {
        UriCheck::Valid
    } else {
        UriCheck::Invalid
    }
}

/// Whether two texts are equal but for ASCII case.
pub open spec fn same_text_ignoring_case(a: Seq<char>, b: Seq<char>) -> bool {
    a.len() == b.len() && forall|i: int|
        0 <= i < a.len() ==> ascii_lower(#[trigger] a[i]) == ascii_lower(b[i])
}

/// Whether a scheme is the one of documents that were never saved.
pub open spec fn is_untitled_scheme(scheme: Seq<char>) -> bool {
    same_text_ignoring_case(scheme, "untitled"@)
}

/// Whether a scheme is the one of documents that were never saved.
pub fn is_scheme_untitled(scheme: &str) -> (r: bool)
    ensures
        r == is_untitled_scheme(scheme@),
{
    let a = string_to_chars(scheme);
    let b = string_to_chars("untitled");
    if a.len() != b.len() {
        return false;
    }
    let mut i: usize = 0;
    while i < a.len()
        invariant
            a@ == scheme@,
            b@ == "untitled"@,
            i <= a@.len() == b@.len(),
            forall|k: int| 0 <= k < i ==> ascii_lower(#[trigger] a@[k]) == ascii_lower(b@[k]),
        decreases a@.len() - i,
    {
        if !a[i].eq_ignore_ascii_case(&b[i]) {
            return false;
        }
        i += 1;
    }
    true
}

/// Whether a document was never saved, so that nothing is stored for it. Editors name such
/// documents by the "untitled" scheme.
pub fn is_untitled(uri: &str) -> (r: bool)
    requires
        encode_utf8(uri@).len() <= MAX_URI_BYTES,
    ensures
        r == (is_uri_reference(uri@) && (leading_scheme(uri@) matches Some(s)
            && is_untitled_scheme(s))),
{
    match parse_scheme(uri) {
        Some(Some(scheme)) => is_scheme_untitled(scheme.as_str()),
        _ => false,
    }
}

/// What stands before the first colon is the scheme, where it is made of ASCII letters, digits,
/// `+`, `-` and `.` alone; a text without such a colon has no scheme.
pub proof fn the_scheme_stands_before_the_colon(scheme: Seq<char>, rest: Seq<char>)
    requires
        scheme.len() > 0,
        forall|k: int|
            0 <= k < scheme.len() ==> is_ascii_letter(#[trigger] scheme[k]) || is_ascii_number(
                scheme[k],
            ) || scheme[k] == '+' || scheme[k] == '-' || scheme[k] == '.',
    ensures
        leading_scheme(scheme + seq![':'] + rest) == Some(scheme),
        leading_scheme(scheme) is None,
{
    let text = scheme + (seq![':'] + rest);
    assert(scheme + seq![':'] + rest =~= text);
    scheme_run_stops(scheme, seq![':'] + rest);
    scheme_run_stops(scheme, Seq::empty());
    assert(scheme + Seq::<char>::empty() =~= scheme);
    assert(text.take(scheme.len() as int) =~= scheme);
}

proof fn scheme_run_stops(scheme: Seq<char>, rest: Seq<char>)
    requires
        forall|k: int| 0 <= k < scheme.len() ==> is_scheme_char(#[trigger] scheme[k]),
        rest.len() == 0 || rest[0] == ':',
    ensures
        scheme_run(scheme + rest) == scheme.len(),
    decreases scheme.len(),
{
    if scheme.len() > 0 {
        let fewer = scheme.drop_first();
        assert((scheme + rest).drop_first() =~= fewer + rest);
        assert forall|k: int| 0 <= k < fewer.len() implies is_scheme_char(#[trigger] fewer[k]) by {
            assert(fewer[k] == scheme[k + 1]);
        }
        scheme_run_stops(fewer, rest);
        assert((scheme + rest)[0] == scheme[0]);
    } else {
        assert(scheme + rest =~= rest);
    }
}

/// A scheme is that of documents that were never saved exactly where its ASCII lowercase form is
/// "untitled".
pub proof fn the_untitled_scheme_ignores_case(scheme: Seq<char>)
    ensures
        is_untitled_scheme(scheme) == (scheme.map_values(|c: char| ascii_lower(c))
            == "untitled"@),
{
    reveal_strlit("untitled");
    let lower = scheme.map_values(|c: char| ascii_lower(c));
    if is_untitled_scheme(scheme) {
        assert forall|i: int| 0 <= i < lower.len() implies #[trigger] lower[i]
            == "untitled"@[i] by {
            assert(ascii_lower(scheme[i]) == ascii_lower("untitled"@[i]));
        }
        assert(lower =~= "untitled"@);
    }
    if lower == "untitled"@ {
        assert forall|i: int| 0 <= i < scheme.len() implies ascii_lower(#[trigger] scheme[i])
            == ascii_lower("untitled"@[i]) by {
            assert(lower[i] == "untitled"@[i]);
        }
    }
}

/// A text is refused for its length from two to the power of 31 bytes on, and no sooner; a
/// shorter one is valid exactly where it is a URI reference.
pub proof fn only_the_longest_texts_are_refused_for_their_length(text: Seq<char>)
    ensures
        encode_utf8(text).len() < 0x8000_0000 ==> checked_uri(text) == if is_uri_reference(text) {
            UriCheck::Valid
        } else {
            UriCheck::Invalid
        },
        encode_utf8(text).len() >= 0x8000_0000 ==> checked_uri(text) == UriCheck::TooLong,
{
}

} // verus!
