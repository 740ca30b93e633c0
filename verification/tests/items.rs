use harper_ls::chars::{lowercase_char, lowercase_chars, same_chars, uppercase_char};
use harper_ls::completion::casing::apply_prefix_casing;
use harper_ls::completion::cost::FrequencyLists;
use harper_ls::completion::cursor::{
    find_completion_word_bounds, is_completion_word_char, is_cursor_in_lintable_region,
    token_at_completion_cursor,
};
use harper_ls::completion::items::{completion, generate_completions, sort_text, CompletionConfig};
use harper_ls::completion::rank::{
    add_contraction_completion_candidates, rank_completion_candidates, score_completion_candidate,
    Shortlist,
};
use harper_ls::completion::splits::{
    rank_completions_and_splits, should_commit_space, should_item_commit_space,
    CompletionCommitWithSpace,
};
use harper_ls::completion::state::DocumentState;
use harper_ls::completion::stats::{cursor_word_exclusions, CompletionContext, CompletionStats};
use harper_ls::dictionary::{
    dictionary_of, DictWordMetadata, Dictionary, MutableDictionary, WordSet,
};
use harper_ls::document::{partition_by_end, Document, Token, TokenKind};
use harper_ls::pos_conv::{Position, Range, Span};
use harper_ls::word_frequency::FrequencyList;

fn chars(s: &str) -> Vec<char> {
    s.chars().collect()
}

fn text(s: &[char]) -> String {
    s.iter().collect()
}

fn dict(words: &[&str]) -> MutableDictionary {
    let mut dict = MutableDictionary::default();
    for word in words {
        dict.append_word_str(word, DictWordMetadata { common: true });
    }
    dict
}

fn lists() -> FrequencyLists {
    FrequencyLists {
        words: FrequencyList::new("the\nof\nand\nworld\nword\nwork\n"),
        pairs: FrequencyList::new("the world\n"),
    }
}

fn config() -> CompletionConfig {
    CompletionConfig {
        enabled: true,
        min_prefix_length: 2,
        max_results: 7,
        commit_with_space: CompletionCommitWithSpace::default(),
    }
}

fn document(source: &str) -> Document {
    let source = chars(source);
    let mut tokens = Vec::new();
    let mut start = 0;
    while start < source.len() {
        let is_word = source[start].is_alphabetic();
        let mut end = start + 1;
        while is_word && end < source.len() && source[end].is_alphabetic() {
            end += 1;
        }
        let kind = if is_word { TokenKind::Word } else { TokenKind::Other };
        tokens.push(Token { span: Span::new(start, end), kind });
        start = end;
    }
    Document::new(tokens).unwrap()
}

fn state(source: &str) -> DocumentState {
    DocumentState::new(chars(source), document(source)).unwrap()
}

fn at(line: u32, character: u32) -> Position {
    Position { line, character }
}

#[test]
fn items_replace_the_word_at_the_cursor() {
    let state = state("one\nthe worx!");
    let items =
        generate_completions(&dict(&["world", "word", "work"]), &lists(), config(), &state, at(1, 7));
    let labels: Vec<&str> = items.iter().map(|item| item.label.as_str()).collect();

    assert_eq!(labels, ["world", "word", "work"]);
    for (i, item) in items.iter().enumerate() {
        assert_eq!(item.range, Range { start: at(1, 4), end: at(1, 8) });
        assert_eq!(item.new_text, item.label);
        assert_eq!(item.filter_text, item.label);
        assert_eq!(item.detail, "Harper");
        assert_eq!(item.sort_text, format!("{i:05}"));
        assert_eq!(item.commit_characters, None);
    }
}

#[test]
fn items_follow_the_typed_casing() {
    let state = state("Wor");
    let items = generate_completions(&dict(&["word"]), &lists(), config(), &state, at(0, 3));

    assert_eq!(items.len(), 1);
    assert_eq!(items[0].label, "word");
    assert_eq!(items[0].new_text, "Word");
    assert_eq!(items[0].filter_text, "word");
    assert_eq!(items[0].commit_characters, Some(vec![" ".to_string()]));
}

#[test]
fn no_items_unless_all_conditions_are_met() {
    let dict = dict(&["word"]);
    let lists = lists();
    let state = state("wor x");
    let count = |config: CompletionConfig, position: Position| {
        generate_completions(&dict, &lists, config, &state, position).len()
    };

    assert_eq!(count(config(), at(0, 3)), 1);
    assert_eq!(count(CompletionConfig { enabled: false, ..config() }, at(0, 3)), 0);
    assert_eq!(count(CompletionConfig { max_results: 0, ..config() }, at(0, 3)), 0);
    assert_eq!(count(CompletionConfig { min_prefix_length: 4, ..config() }, at(0, 3)), 0);
    assert_eq!(count(config(), at(0, 1)), 0);
    assert_eq!(count(CompletionConfig { min_prefix_length: 1, ..config() }, at(0, 1)), 1);

    let code = Document::new(vec![Token { span: Span::new(0, 3), kind: TokenKind::Unlintable }]);
    let unlintable = DocumentState::new(chars("wor"), code.unwrap()).unwrap();
    assert!(generate_completions(&dict, &lists, config(), &unlintable, at(0, 3)).is_empty());
}

#[test]
fn missed_spaces_are_put_back_after_the_other_items() {
    let state = state("Thenwor");
    let items = generate_completions(
        &dict(&["the", "world", "then"]),
        &lists(),
        config(),
        &state,
        at(0, 7),
    );
    let split = items.last().unwrap();

    assert_eq!(split.label, "the world");
    assert_eq!(split.new_text, "The world");
    assert_eq!(split.filter_text, "theworld");
    assert_eq!(split.sort_text, sort_text(items.len() - 1));
    assert_eq!(split.commit_characters, None);
    assert_eq!(split.range, Range { start: at(0, 0), end: at(0, 7) });
}

#[test]
fn a_space_accepts_items_as_configured() {
    let state = state("thenwor");
    let dict = dict(&["the", "world", "then", "thenwork"]);
    let accepted = |commit_with_space| -> Vec<bool> {
        let config = CompletionConfig { commit_with_space, ..config() };
        generate_completions(&dict, &lists(), config, &state, at(0, 7))
            .into_iter()
            .map(|item| match item.commit_characters {
                Some(texts) => {
                    assert_eq!(texts, [" "]);
                    true
                }
                None => false,
            })
            .collect()
    };
    let always = accepted(CompletionCommitWithSpace::Always);

    // Single words and the two words "the world" alike.
    assert!(always.len() > 1);
    assert!(always.iter().all(|accepts| *accepts));
    assert!(!accepted(CompletionCommitWithSpace::Never).contains(&true));
    assert!(!accepted(CompletionCommitWithSpace::Confident)[1..].contains(&true));
}

#[test]
fn items_are_at_most_twice_as_many_as_asked_for() {
    let dict = dict(&["the", "thenwork", "world", "word", "work", "worm", "worn"]);
    let state = state("thenwor");
    for max_results in 1..5 {
        let config = CompletionConfig { max_results, ..config() };
        let items = generate_completions(&dict, &lists(), config, &state, at(0, 7));
        assert!(items.len() <= 2 * max_results);
        assert!(!items.is_empty());
    }
}

#[test]
fn a_list_is_always_incomplete() {
    let state = state("wor");
    let dict = dict(&["word"]);
    let open = completion(&dict, &lists(), config(), Some(&state), at(0, 3));
    let closed = completion(&dict, &lists(), config(), None, at(0, 3));

    assert!(open.is_incomplete && closed.is_incomplete);
    assert_eq!(open.items.len(), 1);
    assert!(closed.items.is_empty());
}

#[test]
fn misspelled_words_are_never_offered() {
    let mut misspelled = WordSet::new();
    assert!(misspelled.insert("word".to_string()));
    let state = state("wor").with_misspelled_words(misspelled);
    let items =
        generate_completions(&dict(&["Word", "work"]), &lists(), config(), &state, at(0, 3));
    let labels: Vec<&str> = items.iter().map(|item| item.label.as_str()).collect();

    assert_eq!(labels, ["work"]);
}

#[test]
fn a_revision_keeps_the_misspelled_words() {
    let mut misspelled = WordSet::new();
    misspelled.insert("word".to_string());
    let state = state("one").with_misspelled_words(misspelled);
    let next = state.revised(chars("two words"), document("two words")).unwrap();

    assert!(next.misspelled_words().contains("word"));
    assert_eq!(text(next.source()), "two words");
    assert_eq!(next.document().get_tokens().len(), 3);
    assert_eq!(next.line_index().index_to_position(next.source(), 4), at(0, 4));
    assert!(next.revised(chars("x"), document("two")).is_none());
}

#[test]
fn tokens_beyond_the_text_are_refused() {
    assert!(DocumentState::new(chars("on"), document("one")).is_none());
}

#[test]
fn the_word_being_typed_does_not_count() {
    let state = state("the fox ate the fo");
    let context = state.completion_context(16, 18);

    assert_eq!(context.local_count("fo"), 0);
    assert_eq!(context.local_count("the"), 2);
    assert_eq!(context.local_count("fox"), 1);
    assert_eq!(context.pair_count("the", "fox"), 1);
    assert_eq!(context.pair_count("the", "fo"), 0);
    assert_eq!(context.previous_pair_count("fox"), 1);
    assert_eq!(context.previous_word.as_deref(), Some("the"));
}

#[test]
fn exclusions_name_words_and_pairs() {
    let source = "go re-enter now";
    let (exclusions, previous) = cursor_word_exclusions(&chars(source), &document(source), 3, 11);
    let pair = |a: &str, b: &str| (a.to_string(), b.to_string());

    assert_eq!(exclusions.words, ["re", "enter"]);
    assert_eq!(exclusions.pairs, [pair("go", "re"), pair("enter", "now"), pair("re", "enter")]);
    assert_eq!(previous.as_deref(), Some("go"));
    assert_eq!(exclusions.clone().words, exclusions.words);
}

#[test]
fn statistics_count_words_and_pairs() {
    let stats = CompletionStats::default().with_word("a").with_word("a").with_pair("a", "b");
    assert_eq!(stats.word_count("a"), 2);
    assert_eq!(stats.word_count("b"), 0);
    assert_eq!(stats.bigram_count("a", "b"), 1);
    assert_eq!(stats.bigram_count("b", "a"), 0);
    assert_eq!(stats.bigram_count("a", "c"), 0);
}

#[test]
fn rankings_hold_no_word_twice() {
    let dict = dict(&["word", "Word", "WORD", "words"]);
    let completions = rank_completion_candidates(
        &dict,
        &lists(),
        &chars("wor"),
        &CompletionContext::default(),
        &WordSet::new(),
        10,
    );
    let words: Vec<&str> = completions.iter().map(|c| c.word.as_str()).collect();

    assert_eq!(words, ["word", "words"]);
}

#[test]
fn completions_are_words_of_the_dictionary() {
    // "world" and "work" are frequent, but not in this dictionary.
    let completions = rank_completion_candidates(
        &dict(&["word", "worm"]),
        &lists(),
        &chars("wor"),
        &CompletionContext::default(),
        &WordSet::new(),
        10,
    );
    let words: Vec<&str> = completions.iter().map(|c| c.word.as_str()).collect();

    assert_eq!(words, ["word", "worm"]);
}

#[test]
fn candidates_are_offered_one_by_one() {
    let dict = dict(&["don't", "done", "word"]);
    let lists = lists();
    let context = CompletionContext::default();
    let misspelled = WordSet::new();
    let prefix = chars("dont");
    let mut shortlist = Shortlist::new(&dict);
    add_contraction_completion_candidates(
        &dict, &lists, &prefix, &context, &misspelled, &mut shortlist, 3,
    );
    for word in ["word", "done", "Done"] {
        score_completion_candidate(
            &dict, &lists, &prefix, &context, &misspelled, &mut shortlist, &chars(word), 3,
        );
    }
    let completions = shortlist.into_completions(&dict);
    let words: Vec<&str> = completions.iter().map(|c| c.word.as_str()).collect();

    assert_eq!(words, ["don't", "done"]);
    assert_eq!(completions[0].rank.combined_cost, 30);
}

#[test]
fn rankings_of_nothing_are_empty() {
    let dict = dict(&["word"]);
    let rank = |prefix: &str, n| {
        rank_completion_candidates(
            &dict,
            &lists(),
            &chars(prefix),
            &CompletionContext::default(),
            &WordSet::new(),
            n,
        )
        .len()
    };
    assert_eq!(rank("wor", 0), 0);
    assert_eq!(rank("", 5), 0);
    assert_eq!(rank("qqqq", 5), 0);
    assert_eq!(rank("wor", 5), 1);
}

#[test]
fn a_smaller_ranking_is_the_front_of_a_larger_one() {
    let dict = dict(&["work", "word", "world", "worm", "worn", "wore"]);
    let rank = |n| -> Vec<String> {
        rank_completion_candidates(
            &dict,
            &lists(),
            &chars("wor"),
            &CompletionContext::default(),
            &WordSet::new(),
            n,
        )
        .into_iter()
        .map(|c| c.word)
        .collect()
    };
    let all = rank(6);
    assert_eq!(all.len(), 6);
    for n in 1..6 {
        assert_eq!(rank(n), all[..n]);
    }
}

#[test]
fn splits_are_completed_after_their_left_word() {
    let dict = dict(&["the", "word", "world"]);
    let (completions, splits) = rank_completions_and_splits(
        &dict,
        &lists(),
        &chars("thenwo"),
        &CompletionContext::default(),
        &WordSet::new(),
        3,
        2,
    );

    assert_eq!(completions.len(), 1);
    assert_eq!(completions[0].word, "the");
    let words: Vec<&str> = splits.iter().map(|s| s.right_word.as_str()).collect();
    assert_eq!(words, ["world", "word"]);
    assert_eq!(text(&splits[0].left_chars), "the");
    assert_eq!(text(&splits[0].right_prefix), "wo");
}

#[test]
fn settings_for_the_space_have_names() {
    let named = CompletionCommitWithSpace::from_name;
    assert_eq!(named("never"), Some(CompletionCommitWithSpace::Never));
    assert_eq!(named("confident"), Some(CompletionCommitWithSpace::Confident));
    assert_eq!(named("always"), Some(CompletionCommitWithSpace::Always));
    assert_eq!(named("Always"), None);
    assert_eq!(CompletionCommitWithSpace::default(), CompletionCommitWithSpace::Confident);
}

#[test]
fn a_close_runner_up_stops_the_space() {
    let dict = dict(&["world", "word"]);
    let completions = rank_completion_candidates(
        &dict,
        &lists(),
        &chars("wor"),
        &CompletionContext::default(),
        &WordSet::new(),
        5,
    );
    assert_eq!(completions.len(), 2);
    assert!(!should_commit_space(&completions));
    assert!(!should_item_commit_space(0, &completions, CompletionCommitWithSpace::Confident));
    assert!(should_item_commit_space(1, &completions, CompletionCommitWithSpace::Always));
    assert!(!should_item_commit_space(2, &completions, CompletionCommitWithSpace::Always));
    assert!(!should_commit_space(&Vec::new()));
}

#[test]
fn sort_texts_are_padded_and_keep_the_order() {
    assert_eq!(sort_text(0), "00000");
    assert_eq!(sort_text(10), "00010");
    assert_eq!(sort_text(98765), "98765");
    assert_eq!(sort_text(1234567), "1234567");
    for n in 0..2000 {
        assert!(sort_text(n) < sort_text(n + 1));
    }
    assert_eq!(sort_text(usize::MAX), usize::MAX.to_string());
}

#[test]
fn casing_follows_the_prefix() {
    assert_eq!(apply_prefix_casing(&[], "word"), "word");
    assert_eq!(apply_prefix_casing(&chars("W"), ""), "");
    assert_eq!(apply_prefix_casing(&chars("wO"), "word"), "word");
    assert_eq!(apply_prefix_casing(&chars("Wo"), "word"), "Word");
    assert_eq!(apply_prefix_casing(&chars("W-O"), "word"), "WORD");
    assert_eq!(apply_prefix_casing(&chars("'WO"), "word"), "WORD");
    assert_eq!(apply_prefix_casing(&chars("\u{c9}t"), "\u{e9}t\u{e9}"), "\u{c9}t\u{e9}");
    assert_eq!(apply_prefix_casing(&chars("ST"), "stra\u{df}e"), "STRASSE");
    assert_eq!(apply_prefix_casing(&chars("W"), "McWord"), "McWord");
}

#[test]
fn bounds_are_the_same_for_every_cursor_in_a_word() {
    let source = chars("say it's re-entering.");
    for cursor in 9..=20 {
        assert_eq!(find_completion_word_bounds(&source, cursor), (9, 20));
    }
    assert_eq!(find_completion_word_bounds(&source, 99), (21, 21));
    assert_eq!(find_completion_word_bounds(&[], 3), (0, 0));
    assert!(is_completion_word_char('\u{e9}'));
    assert!(!is_completion_word_char('_'));
}

#[test]
fn tokens_are_found_by_their_characters() {
    let document = Document::new(vec![
        Token { span: Span::new(0, 2), kind: TokenKind::Word },
        Token { span: Span::new(3, 5), kind: TokenKind::Unlintable },
    ])
    .unwrap();

    assert_eq!(document.get_token_at_char_index(1).unwrap().span, Span::new(0, 2));
    assert!(document.get_token_at_char_index(2).is_none());
    assert_eq!(token_at_completion_cursor(&document, 2).unwrap().span, Span::new(0, 2));
    assert!(is_cursor_in_lintable_region(&document, 2));
    assert!(!is_cursor_in_lintable_region(&document, 3));
    assert!(!is_cursor_in_lintable_region(&document, 5));
    assert!(token_at_completion_cursor(&document, 6).is_none());
    assert_eq!(partition_by_end(document.get_tokens(), 2), 1);
    assert_eq!(partition_by_end(document.get_tokens(), 9), 2);
}

#[test]
fn overlapping_tokens_are_refused() {
    let token = |start, end| Token { span: Span::new(start, end), kind: TokenKind::Word };
    assert!(Document::new(vec![token(0, 3), token(2, 4)]).is_none());
    assert!(Document::new(vec![token(3, 4), token(0, 1)]).is_none());
    assert!(Document::new(vec![token(2, 1)]).is_none());
    assert!(Document::new(vec![token(0, 3), token(3, 4)]).is_some());
}

#[test]
fn dictionaries_answer_in_any_casing() {
    let mut dict = dict(&["I'm", "word"]);
    dict.append_word_str("word", DictWordMetadata { common: false });

    assert!(dict.contains_exact_word(&chars("I'm")));
    assert!(!dict.contains_exact_word(&chars("i'm")));
    assert_eq!(dict.get_correct_capitalization_of(&chars("i'M")), Some(chars("I'm")));
    assert_eq!(dict.get_correct_capitalization_of(&chars("im")), None);
    assert_eq!(dict.get_word_metadata(&chars("WORD")), Some(DictWordMetadata { common: false }));
    assert_eq!(dict.get_word_metadata(&chars("none")), None);
}

#[test]
fn words_of_the_language_keep_what_is_known_of_them() {
    let entry = |word: &str, common| (word.to_string(), DictWordMetadata { common });
    let dict = dictionary_of(
        &vec![entry("word", true), entry("work", false), entry("work", true)],
        &vec!["word".to_string(), "wrod".to_string(), "wrod".to_string()],
    );
    let metadata = |word: &str| dict.get_word_metadata(&chars(word)).map(|found| found.common);

    assert_eq!(metadata("word"), Some(true));
    assert_eq!(metadata("work"), Some(true));
    assert_eq!(metadata("wrod"), Some(false));
    assert_eq!(dict.find_words_with_prefix_limited(&chars("w"), 9).len(), 3);
}

#[test]
fn dictionaries_find_words_by_prefix_and_distance() {
    let dict = dict(&["word", "work", "ward", "cord", "order"]);
    let find = |prefix: &str, limit| -> Vec<String> {
        dict.find_words_with_prefix_limited(&chars(prefix), limit)
            .iter()
            .map(|w| text(w))
            .collect()
    };
    let near = |word: &str, distance, limit| -> Vec<String> {
        dict.fuzzy_match(&chars(word), distance, limit).iter().map(|w| text(w)).collect()
    };

    assert_eq!(find("wor", 9), ["word", "work"]);
    assert_eq!(find("wor", 1), ["word"]);
    assert!(find("Wor", 9).is_empty());
    assert_eq!(near("word", 0, 9), ["word"]);
    assert_eq!(near("WORD", 1, 9), ["word", "work", "ward", "cord"]);
    assert_eq!(near("word", 1, 2), ["word", "work"]);
    assert_eq!(near("corder", 1, 9), ["order"]);
    assert!(near("zzzz", 1, 9).is_empty());
}

#[test]
fn word_sets_hold_words_once() {
    let mut set = WordSet::default();
    assert!(set.insert("a".to_string()));
    assert!(!set.insert("a".to_string()));
    assert!(set.contains("a"));
    assert!(!set.contains("A"));
}

#[test]
fn characters_change_case_one_by_one() {
    assert_eq!(lowercase_char('\u{130}'), 'i');
    assert_eq!(uppercase_char('\u{df}'), 'S');
    assert_eq!(lowercase_chars(&chars("A\u{c9}1")), chars("a\u{e9}1"));
    assert!(same_chars(&chars("ab"), &chars("ab")));
    assert!(!same_chars(&chars("ab"), &chars("aB")));
}
