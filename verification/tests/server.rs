use harper_ls::pos_conv::{LineIndex, Position, Range};
use harper_ls::server::changes::{
    after_wait, debounce_wait_ms, next_debounce_step, next_wait, ChangeTracker, DebounceStep,
    WaitAction,
};
use harper_ls::server::commands::{
    command_names, execute_command, plan_command, Command, CommandError, SecondArgument, WordStore,
};
use harper_ls::server::diagnostics::{
    extract_misspelled_words, plan_publication, Diagnostic, DiagnosticCode, PublishPlan,
};
use harper_ls::server::documents::{
    clear_deleted_documents, collects_identifiers, document_language, is_cache_current,
    is_excluded, parser_for_language, plan_update, with_added_word, DictionaryStamps,
    DocumentWords, FileChange, ParserKind, UpdatePlan,
};
use harper_ls::server::initialize::{choose_root, ls_version, server_name, trigger_characters};
use harper_ls::server::uri::{check_uri, is_scheme_untitled, is_untitled, UriCheck};

fn strings(texts: &[&str]) -> Vec<String> {
    texts.iter().map(|t| t.to_string()).collect()
}

fn diagnostic(start: (u32, u32), end: (u32, u32), code: Option<DiagnosticCode>) -> Diagnostic {
    let at = |(line, character)| Position { line, character };
    Diagnostic { range: Range { start: at(start), end: at(end) }, code }
}

fn spelling() -> Option<DiagnosticCode> {
    Some(DiagnosticCode::Text("SpellCheck::Spelling".to_string()))
}

#[test]
fn misspelled_words_come_from_spelling_problems() {
    let source: Vec<char> = "Teh fox\nJumpd ovr".chars().collect();
    let line_index = LineIndex::new(&source);
    let words = extract_misspelled_words(
        &source,
        &line_index,
        &vec![
            diagnostic((0, 0), (0, 3), spelling()),
            diagnostic((1, 0), (1, 5), spelling()),
            diagnostic((0, 4), (0, 7), Some(DiagnosticCode::Text("Grammar".to_string()))),
            diagnostic((1, 6), (1, 9), Some(DiagnosticCode::Number(7))),
            diagnostic((1, 6), (1, 9), None),
            diagnostic((0, 5), (0, 5), spelling()),
        ],
    );

    assert!(words.contains("teh"));
    assert!(words.contains("jumpd"));
    assert!(!words.contains("Teh"));
    assert!(!words.contains("fox"));
    assert!(!words.contains("ovr"));
    assert!(!words.contains(""));
}

#[test]
fn spelling_may_stand_anywhere_in_the_code() {
    let source: Vec<char> = "wrod".chars().collect();
    let line_index = LineIndex::new(&source);
    let found = |code: &str| {
        let code = Some(DiagnosticCode::Text(code.to_string()));
        extract_misspelled_words(
            &source,
            &line_index,
            &vec![diagnostic((0, 0), (0, 4), code)],
        )
        .contains("wrod")
    };
    assert!(found("Spelling"));
    assert!(found("MySpellingRule"));
    assert!(found("SpellSpelling"));
    assert!(!found("spelling"));
    assert!(!found("Spellin"));
    assert!(!found(""));
}

#[test]
fn unchanged_problems_are_not_sent_again() {
    assert_eq!(plan_publication(true, true), PublishPlan { publish: false, remember: false });
    assert_eq!(plan_publication(true, false), PublishPlan { publish: true, remember: true });
    assert_eq!(plan_publication(false, true), PublishPlan { publish: true, remember: false });
    assert_eq!(plan_publication(false, false), PublishPlan { publish: true, remember: false });
}

#[test]
fn commands_without_arguments_do_nothing() {
    assert!(matches!(execute_command("HarperOpen", &Vec::new()), Ok(Command::Nothing)));
}

#[test]
fn commands_are_planned() {
    let run = |name: &str, arguments: &[&str]| execute_command(name, &strings(arguments));

    match run("HarperRecordLint", &["\"{\\\"a\\\": 1}\""]) {
        Ok(Command::RecordLint(lint)) => assert_eq!(lint, "{\"a\": 1}"),
        other => panic!("{other:?}"),
    }
    for (name, expected) in [
        ("HarperAddToUserDict", WordStore::User),
        ("HarperAddToWSDict", WordStore::Workspace),
        ("HarperAddToFileDict", WordStore::File),
    ] {
        match run(name, &["\"word\"", "\"file:///a.md\""]) {
            Ok(Command::AddWord(store, word, uri)) => {
                assert_eq!((store, word.as_str(), uri.as_str()), (expected, "word", "file:///a.md"));
            }
            other => panic!("{other:?}"),
        }
        assert!(matches!(run(name, &["\"word\""]), Ok(Command::Nothing)));
        assert!(matches!(run(name, &["\"word\"", "1"]), Err(CommandError::NotAString)));
        assert!(matches!(run(name, &["\"word\"", "\"a b\""]), Err(CommandError::NotAUri)));
    }
    match run("HarperOpen", &["\"https://example.com\""]) {
        Ok(Command::Open(address)) => assert_eq!(address, "https://example.com"),
        other => panic!("{other:?}"),
    }
    match run("HarperIgnoreLint", &["\"file:///a.md\"", "{\"lint\":1}"]) {
        Ok(Command::IgnoreLint(uri, lint)) => {
            assert_eq!((uri.as_str(), lint.as_str()), ("file:///a.md", "{\"lint\":1}"));
        }
        other => panic!("{other:?}"),
    }
    assert!(matches!(run("HarperIgnoreLint", &["\"file:///a.md\""]), Ok(Command::Nothing)));
    assert!(matches!(run("HarperIgnoreLint", &["\"a b\"", "{}"]), Ok(Command::Nothing)));
    assert!(matches!(run("Other", &["\"x\""]), Ok(Command::Nothing)));
    assert!(matches!(run("Other", &["{}"]), Err(CommandError::NotAString)));
    assert!(matches!(run("HarperOpen", &["not json"]), Err(CommandError::NotAString)));
}

#[test]
fn too_long_names_are_refused() {
    let plan = plan_command("HarperIgnoreLint", "x".to_string(), UriCheck::TooLong, None);
    assert!(matches!(plan, Err(CommandError::NotAUri)));
    let second = SecondArgument {
        json: "\"x\"".to_string(),
        text: Some("x".to_string()),
        uri: UriCheck::TooLong,
    };
    let plan =
        plan_command("HarperAddToUserDict", "x".to_string(), UriCheck::Valid, Some(second));
    assert!(matches!(plan, Err(CommandError::NotAUri)));
}

#[test]
fn every_offered_command_does_something() {
    for name in command_names() {
        let arguments = strings(&["\"file:///a\"", "\"file:///a\""]);
        assert!(!matches!(execute_command(&name, &arguments), Ok(Command::Nothing)), "{name}");
    }
    assert_eq!(command_names().len(), 6);
}

#[test]
fn uris_are_checked() {
    assert_eq!(check_uri("file:///tmp/a.md"), UriCheck::Valid);
    assert_eq!(check_uri("untitled:Untitled-1"), UriCheck::Valid);
    assert_eq!(check_uri("relative/path"), UriCheck::Valid);
    assert_eq!(check_uri("a b"), UriCheck::Invalid);
    assert_eq!(check_uri("1a:b"), UriCheck::Invalid);
}

#[test]
fn unsaved_documents_are_untitled() {
    assert!(is_untitled("untitled:Untitled-1"));
    assert!(is_untitled("UnTitled:x"));
    assert!(!is_untitled("untitled"));
    assert!(!is_untitled("untitled/x:y"));
    assert!(!is_untitled("file:///untitled"));
    assert!(!is_untitled("untitled2:x"));
    assert!(!is_untitled("not a uri"));
    assert!(is_scheme_untitled("UNTITLED"));
    assert!(!is_scheme_untitled("untitle"));
}

#[test]
fn a_newer_change_supersedes_an_older_one() {
    let mut tracker = ChangeTracker::default();
    assert_eq!(tracker.begin_change("a", 1), None);
    assert_eq!(tracker.begin_change("b", 7), None);
    assert_eq!(tracker.begin_change("a", 2), Some(1));
    assert!(!tracker.finish_change("a", 1));
    assert_eq!(tracker.in_flight("a"), Some(2));
    assert!(tracker.finish_change("a", 2));
    assert_eq!(tracker.in_flight("a"), None);
    assert_eq!(tracker.in_flight("b"), Some(7));

    tracker.record_change("a", 1);
    tracker.record_change("a", 2);
    assert!(!tracker.is_latest("a", 1));
    assert!(tracker.is_latest("a", 2));
    tracker.settle("a", 1);
    assert!(tracker.is_latest("a", 2));
    tracker.settle("a", 2);
    assert!(!tracker.is_latest("a", 2));
}

#[test]
fn closing_a_document_forgets_its_changes() {
    let mut tracker = ChangeTracker::default();
    tracker.begin_change("a", 1);
    tracker.record_change("a", 1);
    assert_eq!(tracker.close_document("a"), Some(1));
    assert_eq!(tracker.close_document("a"), None);
    assert!(!tracker.is_latest("a", 1));
    assert_eq!(tracker.in_flight("a"), None);
}

#[test]
fn requests_wait_for_three_changes_at_most() {
    let mut rounds = 0;
    let mut waits = 0;
    while let WaitAction::Wait(ms) = next_wait(rounds, true) {
        assert_eq!(ms, 250);
        rounds = after_wait(rounds, true);
        waits += 1;
    }
    assert_eq!(waits, 3);
    assert_eq!(next_wait(0, false), WaitAction::Proceed);
    assert_eq!(next_wait(after_wait(0, false), true), WaitAction::Proceed);
}

#[test]
fn problems_are_published_after_both_waits() {
    let mut step = DebounceStep::WaitToRefresh;
    let mut steps = Vec::new();
    let mut waited = 0;
    while step != DebounceStep::Done {
        steps.push(step);
        waited += debounce_wait_ms(step);
        step = next_debounce_step(step, true);
    }
    assert_eq!(
        steps,
        [
            DebounceStep::WaitToRefresh,
            DebounceStep::Refresh,
            DebounceStep::WaitToPublish,
            DebounceStep::Publish,
            DebounceStep::Settle,
        ]
    );
    assert_eq!(waited, 300);
    assert_eq!(debounce_wait_ms(DebounceStep::WaitToRefresh), 75);
}

#[test]
fn superseded_changes_are_dropped() {
    for step in [DebounceStep::WaitToRefresh, DebounceStep::WaitToPublish] {
        assert_eq!(next_debounce_step(step, false), DebounceStep::Done);
    }
    assert_eq!(next_debounce_step(DebounceStep::Done, true), DebounceStep::Done);
}

#[test]
fn languages_have_parsers() {
    for (language, parser) in [
        ("git-commit", ParserKind::GitCommit),
        ("gitcommit", ParserKind::GitCommit),
        ("html", ParserKind::Html),
        ("ink", ParserKind::Ink),
        ("jj-commit", ParserKind::JjDescription),
        ("jjdescription", ParserKind::JjDescription),
        ("lhaskell", ParserKind::LiterateHaskell),
        ("literate haskell", ParserKind::LiterateHaskell),
        ("mail", ParserKind::PlainEnglish),
        ("markdown", ParserKind::Markdown),
        ("org", ParserKind::OrgMode),
        ("plaintext", ParserKind::PlainEnglish),
        ("text", ParserKind::PlainEnglish),
        ("python", ParserKind::Python),
        ("typst", ParserKind::Typst),
    ] {
        assert_eq!(parser_for_language(language, false), Some(parser));
        assert_eq!(parser_for_language(language, true), Some(ParserKind::Comments));
    }
    assert_eq!(parser_for_language("rust", true), Some(ParserKind::Comments));
    assert_eq!(parser_for_language("rust", false), None);
    assert!(collects_identifiers(ParserKind::Comments));
    assert!(collects_identifiers(ParserKind::LiterateHaskell));
    assert!(!collects_identifiers(ParserKind::Markdown));
}

#[test]
fn documents_are_parsed_cleared_or_forgotten() {
    let markdown = Some("markdown".to_string());
    let parse = UpdatePlan::Parse { parser: ParserKind::Markdown, isolate_english: true };
    let clear = UpdatePlan::Clear { parser: ParserKind::Markdown };

    assert_eq!(plan_update(false, &markdown, false, true, 10, 10), parse);
    assert_eq!(plan_update(false, &markdown, false, true, 11, 10), clear);
    assert_eq!(plan_update(true, &markdown, false, true, 10, 10), UpdatePlan::Forget);
    assert_eq!(plan_update(false, &None, false, true, 10, 10), UpdatePlan::Forget);
    assert_eq!(
        plan_update(false, &Some("unknown".to_string()), false, true, 10, 10),
        UpdatePlan::Forget
    );
}

#[test]
fn a_document_keeps_the_language_it_was_opened_with() {
    let text = |s: &str| Some(s.to_string());
    assert_eq!(document_language(Some(text("html")), text("org")), text("html"));
    assert_eq!(document_language(Some(text("html")), None), text("html"));
    assert_eq!(document_language(Some(None), text("org")), None);
    assert_eq!(document_language(None, text("org")), text("org"));
    assert_eq!(document_language(None, None), None);
}

#[test]
fn only_matching_paths_are_excluded() {
    assert!(is_excluded(true, Some(true)));
    assert!(!is_excluded(true, Some(false)));
    assert!(!is_excluded(true, None));
    assert!(!is_excluded(false, Some(true)));
}

#[test]
fn cached_dictionaries_are_used_until_a_file_changes() {
    let stamps = DictionaryStamps { user: Some(1), workspace: None, file: Some(3) };
    assert!(is_cache_current(Some(stamps), stamps));
    assert!(!is_cache_current(None, stamps));
    for changed in [
        DictionaryStamps { user: Some(2), ..stamps },
        DictionaryStamps { workspace: Some(2), ..stamps },
        DictionaryStamps { file: None, ..stamps },
    ] {
        assert!(!is_cache_current(Some(stamps), changed));
    }
}

#[test]
fn new_words_make_problems_stale() {
    let mut words = DocumentWords { words: strings(&["a"]), identifiers: strings(&["x"]) };
    assert!(!words.refresh(strings(&["a"]), None));
    assert!(!words.refresh(strings(&["a"]), Some(strings(&["x"]))));
    assert!(words.refresh(strings(&["a", "b"]), None));
    assert!(words.refresh(strings(&["a", "b"]), Some(strings(&["y"]))));
    assert!(words.refresh(strings(&["a", "c"]), Some(strings(&["y"]))));
    assert_eq!(words.words, ["a", "c"]);
    assert_eq!(words.identifiers, ["y"]);
}

#[test]
fn a_word_is_added_once() {
    assert_eq!(with_added_word(Vec::new(), "b".to_string()), ["b"]);
    assert_eq!(with_added_word(strings(&["a"]), "b".to_string()), ["a", "b"]);
    assert_eq!(with_added_word(strings(&["a", "b"]), "a".to_string()), ["a", "b"]);
    assert_eq!(with_added_word(strings(&["a"]), "A".to_string()), ["a", "A"]);
}

#[test]
fn deleted_directories_take_their_documents_away() {
    let change = |uri: &str, deleted| FileChange { uri: uri.to_string(), deleted };
    let (left, taken) = clear_deleted_documents(
        strings(&["file:///a/x", "file:///b/y", "file:///a/z", "file:///c"]),
        &vec![change("file:///c", false), change("file:///b/y", true), change("file:///a", true)],
    );
    assert_eq!(left, ["file:///c"]);
    assert_eq!(taken, ["file:///b/y", "file:///a/x", "file:///a/z"]);
}

#[test]
fn the_root_comes_from_the_first_folder() {
    assert_eq!(choose_root(Some(Some(1)), Some(Some(2)), Some(3)), Some(1));
    assert_eq!(choose_root(None, Some(Some(2)), Some(3)), Some(2));
    assert_eq!(choose_root(Some(None), Some(Some(2)), Some(3)), Some(3));
    assert_eq!(choose_root(None, Some(None), Some(3)), Some(3));
    assert_eq!(choose_root(None, None, Some(3)), Some(3));
    assert_eq!(choose_root::<u8>(Some(None), None, None), None);
}

#[test]
fn the_server_names_itself() {
    assert_eq!(server_name(), "harper-ls");
    assert_eq!(ls_version(), "0.1.0");
    let letters: String = trigger_characters().concat();
    assert_eq!(letters, "abcdefghijklmnopqrstuvwxyzABCDEFGHIJKLMNOPQRSTUVWXYZ");
    assert_eq!(trigger_characters().len(), 52);
}
