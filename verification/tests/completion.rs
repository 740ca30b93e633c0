use std::collections::HashMap;
use std::sync::Arc;

use harper_ls::completion::casing::apply_prefix_casing;
use harper_ls::completion::cost::{
    combined_completion_cost, FrequencyLists, HIGH_CONFIDENCE_SHORT_CORRECTION_BONUS,
};
use harper_ls::completion::cursor::{
    find_completion_word_bounds, is_cursor_in_lintable_region, token_at_completion_cursor,
};
use harper_ls::completion::matching::best_completion_prefix_score;
use harper_ls::completion::rank::rank_completion_candidates;
use harper_ls::completion::splits::{
    find_missed_space_splits, should_commit_space, should_item_commit_space,
    CompletionCommitWithSpace,
};
use harper_ls::completion::stats::{
    build_completion_stats, cursor_word_exclusions, normalized_completion_word,
    CompletionContext, CompletionStats,
};
use harper_ls::dictionary::{DictWordMetadata, MutableDictionary, WordSet};
use harper_ls::document::{Document, Token, TokenKind};
use harper_ls::keyboard_distance::INSERT_DELETE_COST;
use harper_ls::pos_conv::Span;
use harper_ls::word_frequency::FrequencyList;

fn chars(s: &str) -> Vec<char> {
    s.chars().collect()
}

fn dict_with_words(words: &[(&str, bool)]) -> MutableDictionary {
    let mut dict = MutableDictionary::new();
    for (word, common) in words {
        dict.append_word_str(word, DictWordMetadata { common: *common });
    }
    dict
}

/// Words with the line of a frequency list that each stands on.
const RANKED: &[(usize, &str)] = &[
    (0, "the"), (2, "and"), (3, "to"), (5, "in"), (6, "for"), (7, "is"), (8, "on"), (9, "that"),
    (11, "this"), (12, "with"), (14, "you"), (18, "be"), (20, "from"), (23, "your"), (25, "have"),
    (26, "new"), (30, "we"), (35, "about"), (38, "my"), (46, "do"), (55, "what"), (60, "use"),
    (85, "would"), (87, "were"), (99, "find"), (105, "world"), (121, "send"), (153, "should"), (154, "work"),
    (160, "because"), (165, "right"), (186, "could"), (213, "before"), (225, "while"),
    (240, "come"), (253, "id"), (260, "company"), (333, "image"), (340, "food"), (366, "important"),
    (419, "tag"), (463, "young"), (530, "white"), (533, "york"), (574, "space"), (627, "word"),
    (680, "inside"), (720, "wish"), (840, "ten"), (1040, "response"), (1210, "wind"), (1500, "toy"),
    (1733, "youth"), (2400, "tech"), (3200, "prediction"), (3260, "rise"),
    (3700, "km"), (3900, "whale"), (4100, "inn"), (4400, "um"), (4600, "prod"), (5200, "wire"),
    (5600, "mi"), (6100, "fool"), (6600, "predict"), (7600, "worn"), (8300, "om"), (9100, "worm"),
];

/// Frequency lists of ten thousand words and of a few collocations.
fn lists() -> FrequencyLists {
    let mut words = String::new();
    let mut ranked = RANKED.iter().peekable();
    for line in 0..10_000 {
        match ranked.next_if(|(rank, _)| *rank == line) {
            Some((_, word)) => words.push_str(word),
            None => words.push_str(&format!("zq{line}")),
        }
        words.push('\n');
    }
    FrequencyLists {
        words: FrequencyList::new(&words),
        pairs: FrequencyList::new("of the\nin the\nthank you\nnew york\n"),
    }
}

/// An excerpt of an English dictionary: the words that the tests ask for, and their neighbours.
fn excerpt() -> MutableDictionary {
    let mut dict = MutableDictionary::new();
    for (_, word) in RANKED {
        let common = !["um", "mi", "om", "km", "worm"].contains(word);
        dict.append_word_str(word, DictWordMetadata { common });
    }
    for word in [
        "tie", "toe", "age", "tee", "perk", "wry", "irk", "wore", "abut", "abuts", "abbot", "ties",
        "wits", "wit", "wuss", "fume", "film", "fin", "firm", "yes", "hey", "soap", "solace",
        "apace", "befoul", "befog", "mould", "shod", "shriek", "hat", "wheat", "sand", "end",
        "snide", "became", "beau", "coal", "coat", "cost", "cord", "core", "ruse", "rues", "rule",
        "ride", "rust", "ruses", "respine", "respined", "respire", "respond", "spine", "imp",
        "immense", "imply", "him", "rim", "I'm", "I've", "we've", "don't", "won't", "we're", "I'd",
        "he'd", "ire", "five", "dive", "weave", "leave", "dint", "done", "dot", "font", "where",
        "ware", "wed", "here", "hid", "did", "idea", "idle",
    ] {
        dict.append_word_str(word, DictWordMetadata { common: false });
    }
    dict
}

fn document(tokens: &[(usize, usize, TokenKind)]) -> Document {
    let tokens = tokens
        .iter()
        .map(|(start, end, kind)| Token { span: Span::new(*start, *end), kind: *kind })
        .collect();
    Document::new(tokens).unwrap()
}

/// The tokens of plain English: words, and everything between them.
fn plain_document(text: &str) -> Document {
    let source: Vec<char> = text.chars().collect();
    let mut tokens = Vec::new();
    let mut start = 0;
    while start < source.len() {
        let is_word = source[start].is_alphabetic();
        let mut end = start + 1;
        while is_word && end < source.len() && (source[end].is_alphabetic() || source[end] == '\'') {
            end += 1;
        }
        let kind = if is_word { TokenKind::Word } else { TokenKind::Other };
        tokens.push((start, end, kind));
        start = end;
    }
    document(&tokens)
}

fn ranked_words(
    query: &str,
    dict: &MutableDictionary,
    context: &CompletionContext,
) -> Vec<String> {
    let misspelled_words = WordSet::new();
    rank_completion_candidates(dict, &lists(), &chars(query), context, &misspelled_words, 50)
        .into_iter()
        .map(|completion| completion.word)
        .collect()
}

#[test]
fn test_completion_word_bounds_include_suffix_after_cursor() {
    let source = chars("hello worlxd!");
    let cursor_index = "hello wo".chars().count();

    let (word_start, word_end) = find_completion_word_bounds(&source, cursor_index);

    assert_eq!(word_start, 6);
    assert_eq!(word_end, 12);
}

#[test]
fn test_completion_word_bounds_at_word_end() {
    let source = chars("hello wo!");
    let cursor_index = "hello wo".chars().count();

    let (word_start, word_end) = find_completion_word_bounds(&source, cursor_index);

    assert_eq!(word_start, 6);
    assert_eq!(word_end, 8);
}

#[test]
fn test_completion_word_bounds_include_apostrophe_and_dash() {
    let source = chars("it's re-entering.");
    let cursor_index = "it's re".chars().count();

    let (word_start, word_end) = find_completion_word_bounds(&source, cursor_index);

    assert_eq!(word_start, 5);
    assert_eq!(word_end, 16);
}

#[test]
fn cursor_at_eof_after_last_word_is_lintable() {
    let document = plain_document("hello world");
    let eof = "hello world".chars().count();

    assert!(is_cursor_in_lintable_region(&document, eof));
    // Exclusive end of "world" is also EOF here.
    assert!(token_at_completion_cursor(&document, eof).is_some());
}

#[test]
fn cursor_at_exclusive_end_of_word_before_newline_is_lintable() {
    let document = plain_document("hello\n");
    let word_end = "hello".chars().count();

    assert!(is_cursor_in_lintable_region(&document, word_end));
}

#[test]
fn empty_document_is_not_lintable() {
    let document = plain_document("");

    assert!(!is_cursor_in_lintable_region(&document, 0));
    assert!(token_at_completion_cursor(&document, 0).is_none());
}

#[test]
fn unlintable_markdown_code_span_is_skipped() {
    let document = document(&[
        (0, 3, TokenKind::Word),
        (3, 4, TokenKind::Other),
        (4, 9, TokenKind::Unlintable),
        (9, 10, TokenKind::Other),
        (10, 13, TokenKind::Word),
    ]);
    let inside_code = "see `ab".chars().count();

    assert!(!is_cursor_in_lintable_region(&document, inside_code));
}

#[test]
fn pred_prefers_prefix_completions_over_short_fuzzy_words() {
    let dict = dict_with_words(&[
        ("prod", true),
        ("predict", true),
        ("prediction", true),
        ("prey", true),
    ]);
    let words = ranked_words("pred", &dict, &CompletionContext::default());
    let position = |target: &str| words.iter().position(|word| word == target).unwrap();

    // Exact-prefix completions rank ahead of fuzzy matches like "prod"/"prey".
    assert!(position("predict") < position("prod"));
    assert!(position("prediction") < position("prod"));
    assert!(position("predict") < position("prey"));
    assert!(position("prediction") < position("prey"));
    // Between the two completions, global frequency decides: "prediction" is more
    // frequent than "predict" in the bundled list, so it ranks first.
    assert!(position("prediction") < position("predict"));
}

#[test]
fn uppercase_prefix_uses_exact_prefix_candidates() {
    let dict = dict_with_words(&[("predict", true), ("prediction", true), ("prod", true)]);
    let words = ranked_words("Pred", &dict, &CompletionContext::default());
    let position = |target: &str| words.iter().position(|word| word == target).unwrap();

    // The uppercase prefix still surfaces the exact-prefix completions ahead of
    // the fuzzy "prod"; frequency orders "prediction" before "predict".
    assert!(position("predict") < position("prod"));
    assert!(position("prediction") < position("prod"));
    assert!(position("prediction") < position("predict"));
}

#[test]
fn ranking_limits_returned_candidates() {
    let dict = dict_with_words(&[
        ("abacus", true),
        ("abandon", true),
        ("abate", true),
        ("abbey", true),
    ]);
    let misspelled_words = WordSet::new();
    let completions = rank_completion_candidates(
        &dict,
        &lists(),
        &chars("ab"),
        &CompletionContext::default(),
        &misspelled_words,
        2,
    );

    assert_eq!(completions.len(), 2);
}

#[test]
fn transposed_teh_ranks_the_first() {
    let dict = dict_with_words(&[
        ("ten", true),
        ("the", true),
        ("tech", true),
        ("Teheran", false),
    ]);
    let words = ranked_words("teh", &dict, &CompletionContext::default());

    assert_eq!(words[0], "the");
}

#[test]
fn nearby_first_letter_typo_ranks_common_short_word_above_prefix_expansions() {
    let dict = dict_with_words(&[
        ("Rhea", false),
        ("rheum", false),
        ("rhetoric", false),
        ("the", true),
    ]);
    let words = ranked_words("rhe", &dict, &CompletionContext::default());

    assert_eq!(words[0], "the");
}

#[test]
fn whie_ranks_while_first() {
    let dict = dict_with_words(&[("white", true), ("while", true), ("whale", true)]);
    let words = ranked_words("whie", &dict, &CompletionContext::default());

    assert_eq!(words[0], "while");
}

#[test]
fn rigth_ranks_right_first() {
    let dict = dict_with_words(&[("rigid", true), ("right", true), ("righteous", true)]);
    let words = ranked_words("rigth", &dict, &CompletionContext::default());

    assert_eq!(words[0], "right");
}

#[test]
fn noisy_prefix_includes_long_prefix_expansions() {
    let dict = dict_with_words(&[("right", true), ("righteous", true), ("rightful", true)]);
    let words = ranked_words("rigth", &dict, &CompletionContext::default());

    assert!(words.iter().any(|word| word == "righteous"));
    assert!(words.iter().any(|word| word == "rightful"));
}

#[test]
fn nearby_key_typo_beats_distant_key_alternative() {
    let dict = dict_with_words(&[("hello", false), ("pello", false)]);
    let words = ranked_words("gello", &dict, &CompletionContext::default());

    assert_eq!(words[0], "hello");
}

#[test]
fn valid_typed_word_stays_on_top_and_does_not_commit_space() {
    let dict = dict_with_words(&[("in", true), ("inn", true), ("inside", true)]);
    let misspelled_words = WordSet::new();
    let completions = rank_completion_candidates(
        &dict,
        &lists(),
        &chars("in"),
        &CompletionContext::default(),
        &misspelled_words,
        50,
    );

    assert_eq!(completions[0].word, "in");
    assert!(!should_commit_space(&completions));
}

#[test]
fn local_frequency_boosts_repeated_document_words() {
    let dict = dict_with_words(&[("food", false), ("fool", false)]);
    let mut stats = CompletionStats::default();
    for _ in 0..3 {
        stats = stats.with_word("food");
    }
    let context = CompletionContext {
        stats: Arc::new(stats),
        ..Default::default()
    };

    let words = ranked_words("foo", &dict, &context);

    assert_eq!(words[0], "food");
}

#[test]
fn previous_word_context_breaks_close_ties() {
    let dict = dict_with_words(&[("food", false), ("fool", false)]);
    let mut stats = CompletionStats::default();
    for _ in 0..2 {
        stats = stats.with_pair("eat", "fool");
    }
    let context = CompletionContext {
        stats: Arc::new(stats),
        previous_word: Some("eat".to_string()),
        ..Default::default()
    };

    let words = ranked_words("foo", &dict, &context);

    assert_eq!(words[0], "fool");
}

/// The counts of a scan over the tokens that skips the cursor word.
#[allow(clippy::type_complexity)]
fn reference_context(
    source: &[char],
    document: &Document,
    current_word_start: usize,
    current_word_end: usize,
) -> (
    HashMap<String, usize>,
    HashMap<(String, String), usize>,
    Option<String>,
) {
    let mut word_counts: HashMap<String, usize> = HashMap::new();
    let mut pair_counts: HashMap<(String, String), usize> = HashMap::new();
    let mut previous_word = None;
    let mut previous_non_current_word: Option<String> = None;

    for token in document.get_tokens() {
        if !token.kind.is_word() {
            continue;
        }

        let normalized_word =
            normalized_completion_word(&source[token.span.start..token.span.end]);
        if token.span.end <= current_word_start {
            previous_word = Some(normalized_word.clone());
        }

        let overlaps_current_word =
            token.span.start < current_word_end && current_word_start < token.span.end;
        if overlaps_current_word {
            previous_non_current_word = None;
            continue;
        }

        *word_counts.entry(normalized_word.clone()).or_default() += 1;

        if let Some(previous) = &previous_non_current_word {
            *pair_counts
                .entry((previous.clone(), normalized_word.clone()))
                .or_default() += 1;
        }

        previous_non_current_word = Some(normalized_word);
    }

    (word_counts, pair_counts, previous_word)
}

/// Asserts the cached stats + exclusions produce the same effective counts
/// and previous word as a full rescan that skips the cursor word.
fn assert_cached_context_matches_rescan(text: &str, cursor_index: usize) {
    let document = plain_document(text);
    let source: Vec<char> = text.chars().collect();
    let (word_start, word_end) = find_completion_word_bounds(&source, cursor_index);

    let stats = Arc::new(build_completion_stats(&source, &document));
    let (exclusions, previous_word) =
        cursor_word_exclusions(&source, &document, word_start, word_end);
    let context = CompletionContext {
        stats,
        exclusions,
        previous_word,
    };

    let (reference_words, reference_pairs, reference_previous) =
        reference_context(&source, &document, word_start, word_end);

    assert_eq!(
        context.previous_word, reference_previous,
        "previous word for {text:?}"
    );

    // Every word of the document, so that every count in either map is compared.
    let words: Vec<String> = document
        .get_tokens()
        .iter()
        .filter(|token| token.kind.is_word())
        .map(|token| normalized_completion_word(&source[token.span.start..token.span.end]))
        .collect();
    for word in &words {
        assert_eq!(
            context.local_count(word),
            reference_words.get(word).copied().unwrap_or(0),
            "unigram count for {word:?} in {text:?}"
        );
        for previous in &words {
            assert_eq!(
                context.pair_count(previous, word),
                reference_pairs
                    .get(&(previous.clone(), word.clone()))
                    .copied()
                    .unwrap_or(0),
                "pair count for ({previous:?}, {word:?}) in {text:?}"
            );
        }
    }
}

#[test]
fn cached_stats_match_rescan_while_typing_at_document_end() {
    let text = "the quick fox ate the food. The fox ate qui";
    assert_cached_context_matches_rescan(text, text.chars().count());
}

#[test]
fn cached_stats_match_rescan_with_cursor_mid_document() {
    let text = "alpha beta gamma delta beta gamma";
    // Cursor inside the first "gamma".
    assert_cached_context_matches_rescan(text, "alpha beta gam".chars().count());
}

#[test]
fn cached_stats_match_rescan_for_multi_token_cursor_word() {
    // The completion word bounds treat "re-entering" as one word, but the
    // tokenizer may split it into several word tokens — the exclusion logic
    // must remove the whole run and its boundary bigrams.
    let text = "we keep re-entering the zone before re-entering";
    assert_cached_context_matches_rescan(text, text.chars().count());
}

#[test]
fn cursor_word_does_not_boost_itself() {
    let text = "food is good food foo";
    let document = plain_document(text);
    let source: Vec<char> = text.chars().collect();
    let (word_start, word_end) = find_completion_word_bounds(&source, source.len());

    let stats = Arc::new(build_completion_stats(&source, &document));
    let (exclusions, previous_word) =
        cursor_word_exclusions(&source, &document, word_start, word_end);
    let context = CompletionContext {
        stats,
        exclusions,
        previous_word,
    };

    assert_eq!(context.local_count("foo"), 0);
    assert_eq!(context.local_count("food"), 2);
    assert_eq!(context.previous_word.as_deref(), Some("food"));
}

#[test]
fn global_frequency_orders_equal_distance_completions() {
    // work/word/worn/worm are all equal-distance exact-prefix matches of "wor"
    // and all flagged common, so only global usage frequency separates them.
    let dict = dict_with_words(&[
        ("work", true),
        ("word", true),
        ("worm", true),
        ("worn", true),
    ]);
    let words = ranked_words("wor", &dict, &CompletionContext::default());
    let position = |target: &str| words.iter().position(|word| word == target).unwrap();

    assert_eq!(words[0], "work");
    assert!(position("work") < position("word"));
    assert!(position("word") < position("worn"));
    assert!(position("worn") < position("worm"));
}

#[test]
fn frequent_longer_word_outranks_rare_shorter_word() {
    // "world" (5 letters, extremely common) must beat the shorter "worm"/"worn"
    // (4 letters, rare). Frequency wins over the shortest-first bias.
    let dict = dict_with_words(&[
        ("worm", true),
        ("worn", true),
        ("work", true),
        ("world", true),
    ]);
    let words = ranked_words("wor", &dict, &CompletionContext::default());
    let position = |target: &str| words.iter().position(|word| word == target).unwrap();

    assert_eq!(words[0], "world");
    assert!(position("world") < position("worm"));
    assert!(position("world") < position("worn"));
}

#[test]
fn global_bigram_boosts_context_word_over_more_frequent_unigram() {
    let dict = dict_with_words(&[
        ("you", true),
        ("your", true),
        ("york", true),
        ("young", true),
        ("youth", true),
    ]);

    // After "new", the strong global bigram "new york" lifts the rarer unigram
    // "york" to the top for prefix "yo".
    let after_new = CompletionContext {
        previous_word: Some("new".to_string()),
        ..Default::default()
    };
    let words = ranked_words("yo", &dict, &after_new);
    assert_eq!(words[0], "york");

    // Without that context, plain unigram frequency leads with "you" — proving the
    // reordering comes from the bigram signal, not from "york" itself.
    let no_context = ranked_words("yo", &dict, &CompletionContext::default());
    assert_eq!(no_context[0], "you");
}

#[test]
fn fat_finger_adjacent_key_typos_rank_intended_word_first() {
    // Characterization corpus for adjacent-key "fat-finger" typos: one key replaced
    // by a physical neighbor on the phone QWERTY layout. Pins current behavior so a
    // future keyboard cost-model tweak (keyboard_distance.rs) can't silently regress
    // it. Each typo should make its intended word the top suggestion.
    let dict = excerpt();
    let cases = [
        ("tge", "the"),         // g <-> h
        ("wprk", "work"),       // o <-> p
        ("wirk", "work"),       // i <-> o
        ("abiut", "about"),     // o <-> i
        ("tjis", "this"),       // h <-> j
        ("wuth", "with"),       // i <-> u
        ("fimd", "find"),       // n <-> m
        ("yhe", "the"),         // t <-> y
        ("soace", "space"),     // o <-> p
        ("befpre", "before"),   // o <-> p
        ("vould", "could"),     // c <-> v
        ("shoukd", "should"),   // l <-> k
        ("wjat", "what"),       // h <-> j
        ("snd", "and"),         // a <-> s
        ("becauae", "because"), // s <-> a
    ];

    let mut failures = Vec::new();
    for (typo, expected) in cases {
        let words = ranked_words(typo, &dict, &CompletionContext::default());
        if words.first().map(String::as_str) != Some(expected) {
            let top5: Vec<&String> = words.iter().take(5).collect();
            failures.push(format!(
                "{typo:?} -> expected {expected:?} first, got {top5:?}"
            ));
        }
    }

    assert!(
        failures.is_empty(),
        "adjacent-key typos not ranked #1:\n{}",
        failures.join("\n")
    );
}

#[test]
fn frequency_seeding_surfaces_common_words_past_the_alphabetical_window() {
    // In the real dictionary, "could"/"come" sort far past the start of the "co"
    // words, so the bounded alphabetical fetch alone misses them. Frequency seeding
    // pulls these very common words into the candidate pool for prefix "co".
    let dict = excerpt();
    let words = ranked_words("co", &dict, &CompletionContext::default());

    assert!(words.iter().any(|word| word == "could"));
    assert!(words.iter().any(|word| word == "come"));
}

#[test]
fn common_neighbor_outranks_rare_typed_word() {
    // "ruse" is a valid but rare word; "rise" is one near-key edit away (u <-> i)
    // and far more common. Blended scoring surfaces the common neighbor first while
    // keeping the typed word (and the "rues" transposition) lower in the list.
    let dict = excerpt();
    let words = ranked_words("ruse", &dict, &CompletionContext::default());
    let top: Vec<&String> = words.iter().take(6).collect();
    let pos = |t: &str| words.iter().position(|w| w == t);

    assert_eq!(
        words.first().map(String::as_str),
        Some("rise"),
        "expected 'rise' first, got {top:?}"
    );
    assert!(
        pos("rise") < pos("ruse"),
        "'rise' should outrank the rarer typed 'ruse': {top:?}"
    );
    assert!(
        pos("rise") < pos("rues"),
        "'rise' should outrank the transposition 'rues': {top:?}"
    );
    // The first-letter-mismatch penalty keeps the same-first-letter "rise" ahead
    // of the more common but first-letter-changing "use" correction.
    if let (Some(rise), Some(use_)) = (pos("rise"), pos("use")) {
        assert!(
            rise < use_,
            "'rise' ({rise}) should outrank first-letter-changed 'use' ({use_}): {top:?}"
        );
    }
}

#[test]
fn common_word_reachable_by_small_edit_is_listed_and_beats_rare_prefix() {
    // "respine" -> the common "response" (sub i->o then insert s) must be listed
    // and rank ahead of the rare exact-prefix continuation "respined".
    let dict = excerpt();
    let words = ranked_words("respine", &dict, &CompletionContext::default());
    let head: Vec<&String> = words.iter().take(8).collect();
    let pos = |t: &str| words.iter().position(|w| w == t);

    assert!(
        words.iter().any(|w| w == "response"),
        "'response' should be listed for 'respine': {head:?}"
    );
    if let (Some(response), Some(respined)) = (pos("response"), pos("respined")) {
        assert!(
            response < respined,
            "'response' ({response}) should outrank 'respined' ({respined}): {head:?}"
        );
    }
}

#[test]
fn short_prefix_surfaces_real_words_over_two_letter_noise() {
    // Typing "im" should surface real words ("in", "image", "important") above
    // two-letter fuzzy noise ("mi", "um", "km", "om"). The bonus for a
    // confident short correction is small (below frequency), which keeps the real words
    // on top.
    let dict = excerpt();
    let words = ranked_words("im", &dict, &CompletionContext::default());
    let head: Vec<&String> = words.iter().take(8).collect();
    let pos = |t: &str| words.iter().position(|w| w == t);

    for noise in ["mi", "um", "km", "om"] {
        if let (Some(real), Some(junk)) = (pos("in"), pos(noise)) {
            assert!(
                real < junk,
                "real word 'in' ({real}) should rank above two-letter noise '{noise}' ({junk}): {head:?}"
            );
        }
    }
    if let (Some(image), Some(mi)) = (pos("image"), pos("mi")) {
        assert!(
            image < mi,
            "prefix word 'image' ({image}) should rank above 'mi' ({mi}): {head:?}"
        );
    }
}

#[test]
fn high_confidence_short_correction_helps_but_stays_below_frequency() {
    // Args: distance, typed_word, first_letter_match, high_confidence,
    //       global_frequency_rank, local_frequency, previous_word_frequency,
    //       global_bigram_rank.
    // The bonus lowers the cost of a confident short correction...
    let with = combined_completion_cost(82, false, true, true, 500, 0, 0, u32::MAX);
    let without = combined_completion_cost(82, false, true, false, 500, 0, 0, u32::MAX);
    assert_eq!(without - with, HIGH_CONFIDENCE_SHORT_CORRECTION_BONUS);

    // ...but it sits *below* frequency: a much more common same-distance word
    // (rank 50) still beats a high-confidence correction to a rare word (rank 5000).
    let confident_correction =
        combined_completion_cost(82, false, true, true, 5000, 0, 0, u32::MAX);
    let more_frequent_plain =
        combined_completion_cost(82, false, true, false, 50, 0, 0, u32::MAX);
    assert!(
        more_frequent_plain < confident_correction,
        "frequency ({more_frequent_plain}) should outweigh the short-correction bonus ({confident_correction})"
    );
}

#[test]
fn apostrophe_less_contraction_surfaces_canonical_form() {
    // Typed without the apostrophe (and these letters aren't words), the
    // contraction is the clear intent and should lead with correct casing.
    let dict = excerpt();
    for (typed, expected) in [
        ("im", "I'm"),
        ("ive", "I've"),
        ("weve", "we've"),
        ("dont", "don't"),
    ] {
        let words = ranked_words(typed, &dict, &CompletionContext::default());
        let head: Vec<&String> = words.iter().take(6).collect();
        assert_eq!(
            words.first().map(String::as_str),
            Some(expected),
            "typing {typed:?} should surface {expected:?} first, got {head:?}"
        );
    }
}

#[test]
fn contraction_is_offered_but_keeps_a_common_typed_word_on_top() {
    // When the typed letters are themselves a common word, the contraction is
    // still offered but priced so the real word stays ahead.
    let dict = excerpt();
    for (typed, contraction) in [("were", "we're"), ("id", "I'd")] {
        let words = ranked_words(typed, &dict, &CompletionContext::default());
        let pos = |t: &str| words.iter().position(|w| w == t);
        assert!(
            words.iter().any(|w| w == contraction),
            "{contraction:?} should be offered for {typed:?}"
        );
        if let (Some(real), Some(contr)) = (pos(typed), pos(contraction)) {
            assert!(
                real < contr,
                "real word {typed:?} ({real}) should stay above {contraction:?} ({contr})"
            );
        }
    }
}

#[test]
fn confident_top_candidate_commits_on_space() {
    let dict = dict_with_words(&[("toy", true), ("the", true)]);
    let misspelled_words = WordSet::new();
    let completions = rank_completion_candidates(
        &dict,
        &lists(),
        &chars("teh"),
        &CompletionContext::default(),
        &misspelled_words,
        50,
    );

    assert_eq!(completions[0].word, "the");
    assert!(should_commit_space(&completions));
}

#[test]
fn commit_with_space_never_disables_space_commit() {
    let dict = dict_with_words(&[("toy", true), ("the", true)]);
    let misspelled_words = WordSet::new();
    let completions = rank_completion_candidates(
        &dict,
        &lists(),
        &chars("teh"),
        &CompletionContext::default(),
        &misspelled_words,
        50,
    );

    assert!(!should_item_commit_space(
        0,
        &completions,
        CompletionCommitWithSpace::Never
    ));
}

#[test]
fn commit_with_space_always_enables_every_item() {
    let dict = dict_with_words(&[("toy", true), ("the", true)]);
    let misspelled_words = WordSet::new();
    let completions = rank_completion_candidates(
        &dict,
        &lists(),
        &chars("teh"),
        &CompletionContext::default(),
        &misspelled_words,
        50,
    );

    assert!(should_item_commit_space(
        0,
        &completions,
        CompletionCommitWithSpace::Always
    ));
    assert!(should_item_commit_space(
        1,
        &completions,
        CompletionCommitWithSpace::Always
    ));
}

#[test]
fn prefix_score_checks_candidate_prefix_windows() {
    let score = best_completion_prefix_score(&chars("whie"), &chars("while")).unwrap();

    assert_eq!(score.distance, INSERT_DELETE_COST);
    assert_eq!(score.matched_prefix_len, 5);
}

#[test]
fn test_apply_prefix_casing_preserves_mixed_case_words() {
    let prefix = chars("Ip");
    assert_eq!(apply_prefix_casing(&prefix, "iPhone"), "iPhone");

    let prefix2 = chars("Eb");
    assert_eq!(apply_prefix_casing(&prefix2, "eBay"), "eBay");
}

#[test]
fn test_apply_prefix_casing_caps_intent_requires_two_letters() {
    let one_letter_caps = chars("I");
    assert_eq!(apply_prefix_casing(&one_letter_caps, "iphone"), "Iphone");

    let two_letter_caps = chars("IP");
    assert_eq!(apply_prefix_casing(&two_letter_caps, "iphone"), "IPHONE");
}

// --- Missed-space split tests ---

#[test]
fn missed_space_n_splits_the_from_world() {
    // "thenworld": user pressed 'n' instead of space → left="the", right="world"
    let dict = dict_with_words(&[("the", true)]);
    let splits = find_missed_space_splits(&chars("thenworld"), &dict, 2);
    assert_eq!(splits.len(), 1);
    assert_eq!(splits[0].0.iter().collect::<String>(), "the");
    assert_eq!(splits[0].1.iter().collect::<String>(), "world");
}

#[test]
fn missed_space_split_requires_left_word_in_dict() {
    // "xhe" is not a word — no split for "xhenworld"
    let dict = dict_with_words(&[("world", true)]);
    assert!(find_missed_space_splits(&chars("xhenworld"), &dict, 2).is_empty());
}

#[test]
fn missed_space_split_all_four_adjacent_keys() {
    let dict = dict_with_words(&[("in", true)]);
    // v: "invery" → left="in", right="ery"
    assert!(!find_missed_space_splits(&chars("invery"), &dict, 2).is_empty());
    // b: "inbest" → left="in", right="est"
    assert!(!find_missed_space_splits(&chars("inbest"), &dict, 2).is_empty());
    // n: "inname" → split at second 'n', left="in", right="ame"
    assert!(!find_missed_space_splits(&chars("inname"), &dict, 2).is_empty());
    // m: "inmore" → left="in", right="ore"
    assert!(!find_missed_space_splits(&chars("inmore"), &dict, 2).is_empty());
}

#[test]
fn missed_space_split_min_right_len_respected() {
    let dict = dict_with_words(&[("the", true)]);
    // "thenw": right part is 1 char — below min_right_len=2
    assert!(find_missed_space_splits(&chars("thenw"), &dict, 2).is_empty());
    // "thenwo": right part is 2 chars — exactly at min_right_len=2
    assert!(!find_missed_space_splits(&chars("thenwo"), &dict, 2).is_empty());
}

#[test]
fn missed_space_split_curated_dict_the_world() {
    // End-to-end check: the curated dictionary has "the", so "thenworld" splits.
    let dict = excerpt();
    let splits = find_missed_space_splits(&chars("thenworld"), &dict, 2);
    assert!(
        splits.iter().any(|(l, r)| {
            l.iter().collect::<String>() == "the" && r.iter().collect::<String>() == "world"
        }),
        "expected to find split (the, world) in 'thenworld'"
    );
}

#[test]
fn missed_space_split_v_key_also_detected() {
    let dict = excerpt();
    let splits = find_missed_space_splits(&chars("thevworld"), &dict, 2);
    assert!(
        splits.iter().any(|(l, r)| {
            l.iter().collect::<String>() == "the" && r.iter().collect::<String>() == "world"
        }),
        "expected to find split (the, world) in 'thevworld'"
    );
}

#[test]
fn a_common_typed_word_is_not_replaced_by_a_neighbor() {
    let dict = dict_with_words(&[("do", true), ("to", true), ("so", true)]);
    assert_eq!(ranked_words("do", &dict, &CompletionContext::default())[0], "do");
}

#[test]
fn swapped_letters_of_a_short_word_are_put_right() {
    let dict = dict_with_words(&[("and", true), ("add", true), ("adn", false), ("send", true)]);
    assert_eq!(ranked_words("adn", &dict, &CompletionContext::default())[0], "and");
    let dict = dict_with_words(&[("and", true), ("add", true), ("end", true)]);
    assert_eq!(ranked_words("adn", &dict, &CompletionContext::default())[0], "and");
}

#[test]
fn a_word_with_an_apostrophe_is_no_contraction_to_restore() {
    let dict = dict_with_words(&[("can't", true), ("cant", false)]);
    let offered = ranked_words("cant", &dict, &CompletionContext::default());
    assert!(offered.iter().any(|word| word == "can't"));
    let typed = ranked_words("can't", &dict, &CompletionContext::default());
    assert_eq!(typed[0], "can't");
}

#[test]
fn seeding_reaches_past_the_words_that_the_dictionary_names_first() {
    // More "co" words than are fetched stand before "could" and "come".
    let mut dict = MutableDictionary::new();
    for i in 0..400u32 {
        let letter = |n: u32| char::from_u32(u32::from('a') + n % 20).unwrap();
        let word: String = ['c', 'o', 'a', letter(i / 20), letter(i)].iter().collect();
        dict.append_word_str(&word, DictWordMetadata { common: false });
    }
    for word in ["could", "come"] {
        dict.append_word_str(word, DictWordMetadata { common: true });
    }
    let words = ranked_words("co", &dict, &CompletionContext::default());
    assert_eq!(words[..2], ["could", "come"]);

    // Without the frequency list they are missed.
    let unlisted = FrequencyLists { words: FrequencyList::new(""), pairs: FrequencyList::new("") };
    let fetched = rank_completion_candidates(
        &dict,
        &unlisted,
        &chars("co"),
        &CompletionContext::default(),
        &WordSet::new(),
        1000,
    );
    assert_eq!(fetched.len(), 256);
    assert!(fetched.iter().all(|completion| completion.word.starts_with("coa")));
}
