//! Characters and strings: the facts about `std` that the rest of the library builds on.

use vstd::prelude::*;

verus! {

/// Whether `c` is one of the 128 ASCII characters.
pub open spec fn is_ascii_char(c: char) -> bool {
    (c as u32) < 128
}

/// The ASCII lowercase form of `c`: `A` to `Z` become `a` to `z`, all else is kept.
pub open spec fn ascii_lower(c: char) -> char {
    if 'A' <= c && c <= 'Z' {
        ((c as u32) + 32) as char
    } else {
        c
    }
}

/// The ASCII uppercase form of `c`: `a` to `z` become `A` to `Z`, all else is kept.
pub open spec fn ascii_upper(c: char) -> char {
    if 'a' <= c && c <= 'z' {
        ((c as u32) - 32) as char
    } else {
        c
    }
}

/// Whether `c` is an ASCII letter.
pub open spec fn is_ascii_letter(c: char) -> bool {
    ('a' <= c && c <= 'z') || ('A' <= c && c <= 'Z')
}

/// Whether `c` is an ASCII digit.
pub open spec fn is_ascii_number(c: char) -> bool {
    '0' <= c && c <= '9'
}

/// The lowercase mapping of a character, as `char::to_lowercase` yields it.
pub uninterp spec fn lowercase_mapping(c: char) -> Seq<char>;

/// The uppercase mapping of a character, as `char::to_uppercase` yields it.
pub uninterp spec fn uppercase_mapping(c: char) -> Seq<char>;

/// The lowercase form of a text beyond ASCII, as `str::to_lowercase` returns it.
pub uninterp spec fn unicode_lowercase(s: Seq<char>) -> Seq<char>;

/// The uppercase form of a text beyond ASCII, as `str::to_uppercase` returns it.
pub uninterp spec fn unicode_uppercase(s: Seq<char>) -> Seq<char>;

/// Whether all characters of a text are ASCII characters.
pub open spec fn is_ascii_text(s: Seq<char>) -> bool {
    forall|i: int| 0 <= i < s.len() ==> is_ascii_char(#[trigger] s[i])
}

/// Each character in its ASCII lowercase form.
pub open spec fn ascii_lower_each(s: Seq<char>) -> Seq<char> {
    s.map_values(|c: char| ascii_lower(c))
}

/// Each character in its ASCII uppercase form.
pub open spec fn ascii_upper_each(s: Seq<char>) -> Seq<char> {
    s.map_values(|c: char| ascii_upper(c))
}

/// The lowercase form of a text; that of an ASCII text is taken character by character.
pub open spec fn lowercase_text(s: Seq<char>) -> Seq<char> {
    if is_ascii_text(s) {
        ascii_lower_each(s)
    } else {
        unicode_lowercase(s)
    }
}

/// The uppercase form of a text; that of an ASCII text is taken character by character.
pub open spec fn uppercase_text(s: Seq<char>) -> Seq<char> {
    if is_ascii_text(s) {
        ascii_upper_each(s)
    } else {
        unicode_uppercase(s)
    }
}

/// Whether `char::is_alphanumeric` holds.
pub uninterp spec fn is_alphanumeric_char(c: char) -> bool;

/// Whether `char::is_alphabetic` holds.
pub uninterp spec fn is_alphabetic_char(c: char) -> bool;

/// Whether `char::is_uppercase` holds.
pub uninterp spec fn is_uppercase_char(c: char) -> bool;

/// Whether `char::is_lowercase` holds.
pub uninterp spec fn is_lowercase_char(c: char) -> bool;

/// Whether `char::is_whitespace` holds.
pub uninterp spec fn is_whitespace_char(c: char) -> bool;

/// `char::is_alphanumeric`: named by [`is_alphanumeric_char`]; of the ASCII characters exactly
/// the letters and the digits are alphanumeric.
pub assume_specification[ char::is_alphanumeric ](c: char) -> (b: bool)
    ensures
        b == is_alphanumeric_char(c),
        is_ascii_char(c) ==> b == (is_ascii_letter(c) || is_ascii_number(c)),
;

/// `char::is_alphabetic`: named by [`is_alphabetic_char`]; of the ASCII characters exactly the
/// letters are alphabetic.
pub assume_specification[ char::is_alphabetic ](c: char) -> (b: bool)
    ensures
        b == is_alphabetic_char(c),
        is_ascii_char(c) ==> b == is_ascii_letter(c),
;

/// `char::is_uppercase`: named by [`is_uppercase_char`]; of the ASCII characters exactly `A` to
/// `Z` are uppercase.
pub assume_specification[ char::is_uppercase ](c: char) -> (b: bool)
    ensures
        b == is_uppercase_char(c),
        is_ascii_char(c) ==> b == ('A' <= c && c <= 'Z'),
;

/// `char::is_lowercase`: named by [`is_lowercase_char`]; of the ASCII characters exactly `a` to
/// `z` are lowercase.
pub assume_specification[ char::is_lowercase ](c: char) -> (b: bool)
    ensures
        b == is_lowercase_char(c),
        is_ascii_char(c) ==> b == ('a' <= c && c <= 'z'),
;

/// `char::is_whitespace`: named by [`is_whitespace_char`]; the space and the ASCII controls from
/// tab to carriage return are whitespace, no other ASCII character is.
pub assume_specification[ char::is_whitespace ](c: char) -> (b: bool)
    ensures
        b == is_whitespace_char(c),
        is_ascii_char(c) ==> b == (c == ' ' || ('\t' <= c && c <= '\r')),
;

/// `char::is_ascii_alphabetic`: holds exactly of the ASCII letters.
pub assume_specification[ char::is_ascii_alphabetic ](c: &char) -> (b: bool)
    ensures
        b == is_ascii_letter(*c),
;

/// `char::eq_ignore_ascii_case`: equality of the ASCII lowercase forms.
pub assume_specification[ char::eq_ignore_ascii_case ](a: &char, b: &char) -> (same: bool)
    ensures
        same == (ascii_lower(*a) == ascii_lower(*b)),
;

/// The number of UTF-16 code units that encode `c`.
pub open spec fn utf16_len(c: char) -> nat {
    if (c as u32) < 0x10000 {
        1
    } else {
        2
    }
}

/// `char::len_utf16`: two code units beyond the basic multilingual plane, one within it.
pub assume_specification[ char::len_utf16 ](c: char) -> (n: usize)
    ensures
        n == utf16_len(c),
;

/// `str::to_lowercase`: on an ASCII text it maps each character; on any other text its result is
/// named by [`unicode_lowercase`].
pub assume_specification[ str::to_lowercase ](s: &str) -> (r: String)
    ensures
        is_ascii_text(s@) ==> r@ == ascii_lower_each(s@),
        !is_ascii_text(s@) ==> r@ == unicode_lowercase(s@),
;

/// `str::to_uppercase`: on an ASCII text it maps each character; on any other text its result is
/// named by [`unicode_uppercase`].
pub assume_specification[ str::to_uppercase ](s: &str) -> (r: String)
    ensures
        is_ascii_text(s@) ==> r@ == ascii_upper_each(s@),
        !is_ascii_text(s@) ==> r@ == unicode_uppercase(s@),
;

/// `String::push`: appends one character.
pub assume_specification[ String::push ](s: &mut String, c: char)
    ensures
        final(s)@ == old(s)@.push(c),
;

/// `char::to_lowercase`: its characters are named by [`lowercase_mapping`]; there is at least
/// one, and an ASCII character is mapped to its ASCII lowercase form alone.
#[verifier::external_body]
pub(crate) fn char_to_lowercase(c: char) -> (r: Vec<char>)
    ensures
        r@ == lowercase_mapping(c),
        r@.len() > 0,
        is_ascii_char(c) ==> r@ == seq![ascii_lower(c)],
{
    c.to_lowercase().collect()
}

/// `char::to_uppercase`: its characters are named by [`uppercase_mapping`]; there is at least
/// one, and an ASCII character is mapped to its ASCII uppercase form alone.
#[verifier::external_body]
pub(crate) fn char_to_uppercase(c: char) -> (r: Vec<char>)
    ensures
        r@ == uppercase_mapping(c),
        r@.len() > 0,
        is_ascii_char(c) ==> r@ == seq![ascii_upper(c)],
{
    c.to_uppercase().collect()
}

/// The first character of the lowercase mapping, which stands for the whole mapping where one
/// character is replaced by one.
pub open spec fn lower_first(c: char) -> char {
    if lowercase_mapping(c).len() > 0 {
        lowercase_mapping(c)[0]
    } else {
        c
    }
}

/// The first character of the uppercase mapping.
pub open spec fn upper_first(c: char) -> char {
    if uppercase_mapping(c).len() > 0 {
        uppercase_mapping(c)[0]
    } else {
        c
    }
}

/// Lowercases one character to one character.
pub fn lowercase_char(c: char) -> (r: char)
    ensures
        r == lower_first(c),
        is_ascii_char(c) ==> r == ascii_lower(c),
{
    let mapping = char_to_lowercase(c);
    mapping[0]
}

/// Uppercases one character to one character.
pub fn uppercase_char(c: char) -> (r: char)
    ensures
        r == upper_first(c),
        is_ascii_char(c) ==> r == ascii_upper(c),
{
    let mapping = char_to_uppercase(c);
    mapping[0]
}

/// The characters of a string.
pub fn string_to_chars(s: &str) -> (r: Vec<char>)
    ensures
        r@ == s@,
{
    let mut r: Vec<char> = Vec::new();
    for c in it: s.chars()
        invariant
            r@ == it.seq().take(it.index()),
            it.seq() == s@,
    {
        r.push(c);
    }
    r
}

/// The string made of the given characters.
pub fn chars_to_string(chars: &[char]) -> (r: String)
    ensures
        r@ == chars@,
{
    let mut r = String::new();
    let mut i: usize = 0;
    while i < chars.len()
        invariant
            i <= chars.len(),
            r@ == chars@.take(i as int),
        decreases chars.len() - i,
    {
        r.push(chars[i]);
        i += 1;
    }
    r
}

/// Lowercases a sequence of characters one by one.
pub fn lowercase_chars(chars: &[char]) -> (r: Vec<char>)
    ensures
        r@ == lower_each(chars@),
        r@.len() == chars@.len(),
{
    let mut r: Vec<char> = Vec::new();
    let mut i: usize = 0;
    while i < chars.len()
        invariant
            i <= chars.len(),
            r@ == lower_each(chars@.take(i as int)),
        decreases chars.len() - i,
    {
        r.push(lowercase_char(chars[i]));
        i += 1;
    }
    assert(chars@.take(chars@.len() as int) == chars@);
    r
}

/// Each character lowercased to one character.
pub open spec fn lower_each(s: Seq<char>) -> Seq<char> {
    s.map_values(|c: char| lower_first(c))
}

/// Whether two character sequences are equal.
pub fn same_chars(a: &[char], b: &[char]) -> (r: bool)
    ensures
        r == (a@ == b@),
{
    if a.len() != b.len() {
        return false;
    }
    let mut i: usize = 0;
    while i < a.len()
        invariant
            i <= a@.len() == b@.len(),
            forall|k: int| 0 <= k < i ==> #[trigger] a@[k] == b@[k],
        decreases a@.len() - i,
    {
        if a[i] != b[i] {
            return false;
        }
        i += 1;
    }
    assert(a@ =~= b@);
    true
}

/// Each character is lowercased to the first character of its lowercase mapping, and the length
/// stays the same; so it is with uppercasing one character.
pub proof fn characters_change_case_one_for_one(s: Seq<char>, i: int)
    requires
        0 <= i < s.len(),
        lowercase_mapping(s[i]).len() > 0,
        uppercase_mapping(s[i]).len() > 0,
    ensures
        lower_each(s).len() == s.len(),
        lower_each(s)[i] == lowercase_mapping(s[i])[0],
        upper_first(s[i]) == uppercase_mapping(s[i])[0],
{
}

/// The case of an ASCII text is changed letter by letter; nothing but letters changes.
pub proof fn ascii_letters_change_case(s: Seq<char>, i: int)
    requires
        is_ascii_text(s),
        0 <= i < s.len(),
    ensures
        lowercase_text(s).len() == s.len(),
        uppercase_text(s).len() == s.len(),
        'A' <= s[i] && s[i] <= 'Z' ==> lowercase_text(s)[i] == ((s[i] as u32) + 32) as char
            && uppercase_text(s)[i] == s[i],
        'a' <= s[i] && s[i] <= 'z' ==> uppercase_text(s)[i] == ((s[i] as u32) - 32) as char
            && lowercase_text(s)[i] == s[i],
        !is_ascii_letter(s[i]) ==> lowercase_text(s)[i] == s[i] && uppercase_text(s)[i] == s[i],
{
}

} // verus!
