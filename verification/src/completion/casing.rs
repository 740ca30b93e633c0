//! The casing of completions.

use vstd::prelude::*;
use crate::chars::{
    is_alphabetic_char, is_lowercase_char, is_uppercase_char, string_to_chars, upper_first,
    uppercase_char, uppercase_text,
};

verus! {

/// How many of the characters are letters.
pub open spec fn letter_count(chars: Seq<char>) -> nat
    decreases chars.len(),
{
    if chars.len() == 0 {
        0
    } else {
        letter_count(chars.drop_last()) + if is_alphabetic_char(chars.last()) {
            1nat
        } else {
            0nat
        }
    }
}

/// Whether a prefix asks for capitals: it has at least two letters and no letter that is not
/// uppercase.
pub open spec fn asks_for_capitals(prefix: Seq<char>) -> bool {
    letter_count(prefix) >= 2 && forall|i: int|
        0 <= i < prefix.len() ==> !is_alphabetic_char(#[trigger] prefix[i]) || is_uppercase_char(
            prefix[i],
        )
}

/// Whether a word starts in lowercase and has a capital further on, like "iPhone".
pub open spec fn is_mixed_case(word: Seq<char>) -> bool {
    is_lowercase_char(word[0]) && exists|i: int|
        1 <= i < word.len() && is_uppercase_char(#[trigger] word[i])
}

/// A word with its first letter in uppercase.
pub open spec fn capitalized(word: Seq<char>) -> Seq<char> {
    word.update(0, upper_first(word[0]))
}

/// A completion in the casing that the typed prefix asks for.
pub open spec fn with_prefix_casing(prefix: Seq<char>, word: Seq<char>) -> Seq<char> {
    if prefix.len() == 0 || word.len() == 0 {
        word
    } else if asks_for_capitals(prefix) {
        uppercase_text(word)
    } else if is_uppercase_char(prefix[0]) && !is_mixed_case(word) {
        capitalized(word)
    } else {
        word
    }
}

/// Apply casing intent from the typed prefix to a completion candidate.
///
/// Behavior:
/// - All-uppercase prefix with at least 2 letters => uppercase completion.
/// - First-letter uppercase prefix => title-case completion for normal words.
/// - Preserve mixed-case words that start lowercase with internal capitals
///   (e.g. "iPhone", "eBay") when prefix is first-letter uppercase.
/// - Otherwise keep original completion casing.
pub fn apply_prefix_casing(prefix: &[char], word: &str) -> (r: String)
    ensures
        r@ == with_prefix_casing(prefix@, word@),
{
    let word_chars = string_to_chars(word);
    if prefix.len() == 0 || word_chars.len() == 0 {
        return word.to_owned();
    }
    let first_is_upper = prefix[0].is_uppercase();

    // Only treat as CAPS intent when there are 2+ alphabetic characters.
    if has_capitals_intent(prefix) {
        return word.to_uppercase();
    }
    if first_is_upper {
        // Preserve branded/mixed-case forms like iPhone and eBay.
        if word_chars[0].is_lowercase() && has_internal_upper(&word_chars) {
            return word.to_owned();
        }
        let mut result = String::new();
        result.push(uppercase_char(word_chars[0]));
        let mut i: usize = 1;
        while i < word_chars.len()
            invariant
                1 <= i <= word_chars@.len(),
                result@ == capitalized(word_chars@).take(i as int),
            decreases word_chars@.len() - i,
        {
            result.push(word_chars[i]);
            i += 1;
            assert(result@ =~= capitalized(word_chars@).take(i as int));
        }
        return result;
    }
    word.to_owned()
}

/// Whether a prefix asks for capitals.
fn has_capitals_intent(prefix: &[char]) -> (r: bool)
    ensures
        r == asks_for_capitals(prefix@),
{
    let mut letters: usize = 0;
    let mut i: usize = 0;
    while i < prefix.len()
        invariant
            letters <= i <= prefix@.len(),
            letters == letter_count(prefix@.take(i as int)),
            forall|k: int|
                0 <= k < i ==> !is_alphabetic_char(#[trigger] prefix@[k]) || is_uppercase_char(
                    prefix@[k],
                ),
        decreases prefix@.len() - i,
    {
        assert(prefix@.take(i + 1).drop_last() == prefix@.take(i as int));
        if prefix[i].is_alphabetic() {
            if !prefix[i].is_uppercase() {
                return false;
            }
            letters += 1;
        }
        i += 1;
    }
    assert(prefix@.take(prefix@.len() as int) == prefix@);
    letters >= 2
}

/// Whether there is a capital after the first character.
fn has_internal_upper(word: &Vec<char>) -> (r: bool)
    ensures
        r == exists|i: int| 1 <= i < word@.len() && is_uppercase_char(#[trigger] word@[i]),
{
    let mut i: usize = 1;
    while i < word.len()
        invariant
            1 <= i,
            forall|k: int| 1 <= k < i && k < word@.len() ==> !is_uppercase_char(
                #[trigger] word@[k],
            ),
        decreases word@.len() - i,
    {
        if word[i].is_uppercase() {
            return true;
        }
        i += 1;
    }
    false
}

/// A prefix that starts with a letter in lowercase leaves every completion as it is, for a
/// letter is not both in lowercase and a sign of capitals.
pub proof fn lowercase_prefix_keeps_the_casing(prefix: Seq<char>, word: Seq<char>)
    requires
        prefix.len() > 0,
        is_alphabetic_char(prefix[0]),
        !is_uppercase_char(prefix[0]),
    ensures
        with_prefix_casing(prefix, word) == word,
{
}

/// A single uppercase letter asks for one capital, not for a word in capitals.
pub proof fn one_letter_asks_for_one_capital(letter: char, word: Seq<char>)
    requires
        is_uppercase_char(letter),
        word.len() > 0,
        !is_mixed_case(word),
    ensures
        with_prefix_casing(seq![letter], word) == capitalized(word),
{
    assert(seq![letter].drop_last() == Seq::<char>::empty());
    assert(letter_count(seq![letter]) <= 1) by {
        assert(letter_count(Seq::<char>::empty()) == 0);
    }
}

proof fn two_letters_are_counted(prefix: Seq<char>, i: int, j: int)
    requires
        0 <= i < j < prefix.len(),
        is_alphabetic_char(prefix[i]),
        is_alphabetic_char(prefix[j]),
    ensures
        letter_count(prefix) >= 2,
    decreases prefix.len(),
{
    let few = prefix.drop_last();
    if j < few.len() {
        two_letters_are_counted(few, i, j);
    } else {
        a_letter_is_counted(few, i);
    }
}

proof fn a_letter_is_counted(prefix: Seq<char>, i: int)
    requires
        0 <= i < prefix.len(),
        is_alphabetic_char(prefix[i]),
    ensures
        letter_count(prefix) >= 1,
    decreases prefix.len(),
{
    if i < prefix.len() - 1 {
        a_letter_is_counted(prefix.drop_last(), i);
    }
}

proof fn one_letter_is_counted_once(prefix: Seq<char>, only: int)
    requires
        forall|k: int| 0 <= k < prefix.len() && is_alphabetic_char(#[trigger] prefix[k]) ==> k
            == only,
    ensures
        letter_count(prefix) <= 1,
        only >= prefix.len() ==> letter_count(prefix) == 0,
    decreases prefix.len(),
{
    if prefix.len() > 0 {
        let few = prefix.drop_last();
        assert forall|k: int| 0 <= k < few.len() && is_alphabetic_char(
            #[trigger] few[k],
        ) implies k == only by {
            assert(prefix[k] == few[k]);
        }
        one_letter_is_counted_once(few, only);
        if is_alphabetic_char(prefix[prefix.len() - 1]) {
            assert(only == prefix.len() - 1);
        }
    }
}

/// A prefix with two letters or more, all of whose letters are uppercase, puts the whole word in
/// uppercase, whatever else the prefix holds.
pub proof fn capitals_put_the_word_in_uppercase(
    prefix: Seq<char>,
    word: Seq<char>,
    i: int,
    j: int,
)
    requires
        0 <= i < j < prefix.len(),
        is_alphabetic_char(prefix[i]),
        is_alphabetic_char(prefix[j]),
        forall|k: int|
            0 <= k < prefix.len() && is_alphabetic_char(#[trigger] prefix[k])
                ==> is_uppercase_char(prefix[k]),
        word.len() > 0,
    ensures
        with_prefix_casing(prefix, word) == uppercase_text(word),
{
    two_letters_are_counted(prefix, i, j);
}

/// A prefix of uppercase letters, at least two, puts the whole word in uppercase.
pub proof fn uppercase_letters_put_the_word_in_uppercase(prefix: Seq<char>, word: Seq<char>)
    requires
        prefix.len() >= 2,
        forall|k: int|
            0 <= k < prefix.len() ==> is_alphabetic_char(#[trigger] prefix[k])
                && is_uppercase_char(prefix[k]),
        word.len() > 0,
    ensures
        with_prefix_casing(prefix, word) == uppercase_text(word),
{
    capitals_put_the_word_in_uppercase(prefix, word, 0, 1);
}

/// A prefix that starts in uppercase and holds a letter that is not, or no second letter, puts
/// the first letter of the word in uppercase and keeps the others, unless the word starts in
/// lowercase and has a capital further on: such a word is kept.
pub proof fn an_uppercase_start_capitalizes_plain_words(
    prefix: Seq<char>,
    word: Seq<char>,
    other: int,
    capital: int,
)
    requires
        prefix.len() > 0,
        is_uppercase_char(prefix[0]),
        0 <= other < prefix.len() && is_alphabetic_char(prefix[other]) && !is_uppercase_char(
            prefix[other],
        ) || forall|k: int|
            0 <= k < prefix.len() && is_alphabetic_char(#[trigger] prefix[k]) ==> k == other,
        word.len() > 0,
    ensures
        is_lowercase_char(word[0]) && 1 <= capital < word.len() && is_uppercase_char(word[capital])
            ==> with_prefix_casing(prefix, word) == word,
        !is_lowercase_char(word[0]) || (forall|k: int|
            1 <= k < word.len() ==> !is_uppercase_char(#[trigger] word[k])) ==> {
            let cased = with_prefix_casing(prefix, word);
            &&& cased.len() == word.len()
            &&& cased[0] == upper_first(word[0])
            &&& forall|k: int| 1 <= k < word.len() ==> #[trigger] cased[k] == word[k]
        },
{
    if !(0 <= other < prefix.len() && is_alphabetic_char(prefix[other]) && !is_uppercase_char(
        prefix[other],
    )) {
        one_letter_is_counted_once(prefix, other);
    }
}

/// A prefix that neither starts in uppercase nor has two letters keeps the word, and so does one
/// that does not start in uppercase and holds a letter that is not uppercase, and the empty one.
pub proof fn other_prefixes_keep_the_word(prefix: Seq<char>, word: Seq<char>, other: int)
    requires
        prefix.len() == 0 || !is_uppercase_char(prefix[0]),
        0 <= other < prefix.len() && is_alphabetic_char(prefix[other]) && !is_uppercase_char(
            prefix[other],
        ) || forall|k: int|
            0 <= k < prefix.len() && is_alphabetic_char(#[trigger] prefix[k]) ==> k == other,
    ensures
        with_prefix_casing(prefix, word) == word,
{
    if !(0 <= other < prefix.len() && is_alphabetic_char(prefix[other]) && !is_uppercase_char(
        prefix[other],
    )) {
        one_letter_is_counted_once(prefix, other);
    }
}

} // verus!
