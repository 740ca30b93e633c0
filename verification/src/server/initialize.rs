//! What the server tells of itself and learns of the editor at the start.

use vstd::prelude::*;
use crate::chars::is_ascii_letter;
use crate::word_frequency::string_views;

verus! {

/// The version of the server.
pub const VERSION: &'static str = "0.1.0";

/// Return harper-ls version
pub fn ls_version() -> (version: &'static str)
    ensures
        version@ == VERSION@,
{
    VERSION
}

/// What the server calls itself.
pub fn server_name() -> (name: String)
    ensures
        name@ == "harper-ls"@,
{
    "harper-ls".to_owned()
}

/// The root of the workspace: the path of the first workspace folder, or failing that of the root
/// URI. Where that has no path, or where there is neither, the root path. `folder` and `root_uri`
/// hold, if there is such a URI, the path that it has, if it has one.
pub open spec fn root_of<P>(
    folder: Option<Option<P>>,
    root_uri: Option<Option<P>>,
    root_path: Option<P>,
) -> Option<P> {
    let uri_path = match (folder, root_uri) {
        (Some(path), _) => path,
        (None, Some(path)) => path,
        (None, None) => None,
    };
    if uri_path is Some {
        uri_path
    } else {
        root_path
    }
}

/// Chooses the root of the workspace.
pub fn choose_root<P>(
    folder: Option<Option<P>>,
    root_uri: Option<Option<P>>,
    root_path: Option<P>,
) -> (root: Option<P>)
    ensures
        root == root_of(folder, root_uri, root_path),
{
    let uri_path = match folder {
        Some(path) => path,
        None => match root_uri {
            Some(path) => path,
            None => None,
        },
    };
    match uri_path {
        Some(path) => Some(path),
        None => root_path,
    }
}

/// The letters, first in lowercase and then in uppercase.
pub open spec fn letter_at(i: nat) -> char {
    if i < 26 {
        (('a' as u32) + i) as char
    } else {
        (('A' as u32) + (i - 26)) as char
    }
}

/// The letter at a place in the alphabet.
fn letter(i: u8) -> (c: char)
    requires
        i < 52,
    ensures
        c == letter_at(i as nat),
{
    if i < 26 {
        (97u8 + i) as char
    } else {
        (65u8 + (i - 26u8)) as char
    }
}

/// The texts that make the editor ask for completions: every letter, so that they appear as the
/// user types.
pub fn trigger_characters() -> (texts: Vec<String>)
    ensures
        string_views(texts@) == Seq::new(52, |i: int| seq![letter_at(i as nat)]),
{
    let mut texts: Vec<String> = Vec::new();
    let ghost all = Seq::new(52, |i: int| seq![letter_at(i as nat)]);
    let mut i: u8 = 0;
    assert(string_views(texts@) =~= all.take(0));
    while i < 52
        invariant
            i <= 52,
            all == Seq::new(52, |i: int| seq![letter_at(i as nat)]),
            string_views(texts@) == all.take(i as int),
        decreases 52 - i,
    {
        let ghost earlier = texts@;
        let mut text = String::new();
        text.push(letter(i));
        assert(text@ =~= all[i as int]);
        texts.push(text);
        assert(string_views(texts@) =~= string_views(earlier).push(all[i as int]));
        assert(string_views(texts@) =~= all.take(i + 1));
        i += 1;
    }
    assert(all.take(52) =~= all);
    texts
}

/// Every ASCII letter makes the editor ask for completions, and nothing else does.
pub proof fn triggers_are_the_letters(c: char)
    ensures
        is_ascii_letter(c) == exists|i: nat| i < 52 && #[trigger] letter_at(i) == c,
{
    if 'a' <= c && c <= 'z' {
        assert(letter_at(((c as u32) - ('a' as u32)) as nat) == c);
    }
    if 'A' <= c && c <= 'Z' {
        assert(letter_at((26 + (c as u32) - ('A' as u32)) as nat) == c);
    }
}

/// The first workspace folder gives the root, and the root URI where there is no folder; where
/// what gives it has no path, or there is neither, the root path does.
pub proof fn the_folder_comes_before_the_root_uri<P>(
    folder: Option<P>,
    root_uri: Option<Option<P>>,
    path: P,
    root_path: Option<P>,
)
    ensures
        root_of(Some(Some(path)), root_uri, root_path) == Some(path),
        root_of(None, Some(Some(path)), root_path) == Some(path),
        root_of(Some(None), root_uri, root_path) == root_path,
        root_of(None, Some(None), root_path) == root_path,
        root_of(None, None, root_path) == root_path,
{
}

/// The letters that make the editor ask for completions come in the order of the alphabet, first
/// in lowercase.
pub proof fn triggers_come_in_the_order_of_the_alphabet()
    ensures
        forall|i: int|
            0 <= i < 52 ==> letter_at(i as nat)
                == #[trigger] "abcdefghijklmnopqrstuvwxyzABCDEFGHIJKLMNOPQRSTUVWXYZ"@[i],
{
    reveal_strlit("abcdefghijklmnopqrstuvwxyzABCDEFGHIJKLMNOPQRSTUVWXYZ");
}

} // verus!
