use harper_ls::document::TokenKind;
use harper_ls::lexing::file_path::{lex_file_path, lex_unix_path, lex_windows_path};

fn assert_consumes_full(path: &str) {
    assert_consumes_part(path, path.len());
}

fn assert_consumes_part(path: &str, len: usize) {
    let path_chars: Vec<_> = path.chars().collect();
    let result = lex_file_path(&path_chars);
    assert!(result.is_some(), "Failed to parse path: {}", path);
    assert_eq!(result.unwrap().next_index, len, "Wrong length for path: {}", path);
}

fn assert_doesnt_consume(path: &str) {
    let path_chars: Vec<_> = path.chars().collect();
    assert!(lex_file_path(&path_chars).is_none(), "Incorrectly parsed: {}", path);
}

#[test]
fn consumes_unix_absolute_path() {
    assert_consumes_full("/home/user/file.txt");
}

#[test]
fn consumes_unix_relative_path() {
    assert_consumes_full("path/to/file.txt");
}

#[test]
fn consumes_dot_relative_path() {
    assert_consumes_full("./path/to/file.txt");
}

#[test]
fn consumes_dotdot_relative_path() {
    assert_consumes_full("../path/to/file.txt");
}

#[test]
fn consumes_python_path() {
    assert_consumes_full("extensions/houdini/tools/python/cshoudini/validate/sanity/test/corrupted_fetch_test.py");
}

#[test]
fn consumes_path_with_underscores() {
    assert_consumes_full("my_project/src/test_file.rs");
}

#[test]
fn consumes_windows_drive_path() {
    assert_consumes_full("C:\\Users\\Documents\\file.txt");
}

#[test]
fn consumes_windows_network_path() {
    assert_consumes_full("\\\\server\\share\\file.txt");
}

#[test]
fn stops_at_whitespace() {
    assert_consumes_part("path/to/file.txt and more text", 16);
}

#[test]
fn doesnt_consume_single_word() {
    assert_doesnt_consume("word");
}

#[test]
fn doesnt_consume_just_slash() {
    assert_doesnt_consume("/");
}

#[test]
fn doesnt_consume_simple_file_with_extension() {
    // Single files without path separators should not be treated as paths
    // to avoid false positives like "a.m." being treated as a path
    assert_doesnt_consume("readme.md");
}

#[test]
fn doesnt_consume_abbreviated_time() {
    // Ensure we don't match things like "4.a.m." or "p.m."
    assert_doesnt_consume("a.m.");
    assert_doesnt_consume("p.m.");
}

#[test]
fn a_path_is_a_file_path_token() {
    let path: Vec<char> = "a/b/c".chars().collect();
    assert_eq!(lex_file_path(&path).unwrap().token, TokenKind::FilePath);
    assert_eq!(lex_unix_path(&path).unwrap().next_index, 5);
    assert!(lex_windows_path(&path).is_none());
}

#[test]
fn nothing_is_no_path() {
    assert_doesnt_consume("");
    assert_doesnt_consume(" a/b");
    assert_doesnt_consume("//");
}

#[test]
fn one_slash_is_enough_only_after_a_start_mark() {
    assert_doesnt_consume("a/b");
    assert_consumes_full("/b");
    assert_consumes_full("./b");
    assert_consumes_full("../b");
}

#[test]
fn unix_paths_have_no_empty_components() {
    assert_consumes_part("a/b//c", 4);
    assert_doesnt_consume("a//b/c");
}

#[test]
fn windows_paths_may_hold_spaces() {
    assert_consumes_full("C:\\Program Files\\x");
    assert_consumes_part("C:\\dir, more", 6);
    assert_doesnt_consume("C:\\");
    assert_doesnt_consume("C:/x");
}

#[test]
fn letters_beyond_ascii_stand_in_paths() {
    let path: Vec<char> = "./\u{e9}t\u{e9}".chars().collect();
    assert_eq!(lex_file_path(&path).unwrap().next_index, 5);
    let other: Vec<char> = "./a\u{2014}b".chars().collect();
    assert_eq!(lex_file_path(&other).unwrap().next_index, 3);
}
