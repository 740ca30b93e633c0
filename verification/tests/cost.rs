use std::cmp::Ordering;

use harper_ls::completion::cost::{
    combined_completion_cost, completion_sort_rank, frequency_penalty, global_bigram_bonus,
    local_use_bonus, previous_word_bonus, CompletionSortRank, FrequencyLists,
};
use harper_ls::completion::matching::{
    allowed_noisy_prefix_edits, best_completion_prefix_score, chars_equal_ignore_case,
    first_letter_matches, max_noisy_prefix_distance, same_word_ignore_case,
    should_score_noisy_prefix_candidate, starts_with_ignore_case, CompletionPrefixScore,
};
use harper_ls::completion::order::{
    compare_completion_ranks, compare_ranked_completion, insert_ranked_completion,
    RankedCompletion,
};
use harper_ls::completion::rank::{
    exact_prefix_candidate_limit, frequent_prefix_candidate_limit,
    fuzzy_completion_candidate_limit, noisy_prefix_expansion_candidate_limit,
    noisy_prefix_expansion_per_prefix_limit,
};
use harper_ls::completion::stats::{CompletionContext, CompletionStats, CursorExclusions};
use harper_ls::word_frequency::FrequencyList;

fn chars(s: &str) -> Vec<char> {
    s.chars().collect()
}

#[test]
fn frequency_penalty_is_the_rounded_logarithm() {
    for rank in 0..20_000u32 {
        let single = (30.0f32 * (rank as f32 + 1.0).ln()).round() as i32;
        assert_eq!(frequency_penalty(rank), single, "rank {rank}");
    }
    for rank in [100_000u32, 1_000_000, 123_456_789, u32::MAX - 1] {
        let double = (30.0f64 * (f64::from(rank) + 1.0).ln()).round() as i32;
        assert_eq!(frequency_penalty(rank), double, "rank {rank}");
    }
}

#[test]
fn frequency_penalty_has_exact_values() {
    assert_eq!(frequency_penalty(0), 0);
    assert_eq!(frequency_penalty(1), 21);
    assert_eq!(frequency_penalty(9_999), 276);
    assert_eq!(frequency_penalty(u32::MAX), 450);
}

#[test]
fn global_bigram_bonus_is_the_rounded_share() {
    for rank in 0..70_000u32 {
        let scaled = 200.0f32 * (1.0 - (rank as f32 / 30_000.0f32));
        let single = (scaled.round() as i32).max(50);
        assert_eq!(global_bigram_bonus(rank), single, "rank {rank}");
    }
    assert_eq!(global_bigram_bonus(u32::MAX), 0);
    assert_eq!(global_bigram_bonus(u32::MAX - 1), 50);
}

#[test]
fn use_bonuses_are_capped() {
    for (count, bonus) in [(0, 0), (1, 60), (3, 180), (4, 240), (5, 240), (usize::MAX, 240)] {
        assert_eq!(local_use_bonus(count), bonus);
        assert_eq!(previous_word_bonus(count), bonus);
    }
}

#[test]
fn blended_cost_has_exact_values() {
    assert_eq!(combined_completion_cost(0, true, true, false, 0, 0, 0, u32::MAX), -50);
    assert_eq!(combined_completion_cost(82, false, false, true, 1, 2, 1, 0), -197);
    assert_eq!(
        combined_completion_cost(u16::MAX, false, false, false, u32::MAX, 0, 0, u32::MAX),
        65_535 + 450 + 120
    );
}

#[test]
fn more_uses_never_raise_the_cost() {
    let mut last = i32::MAX;
    for uses in 0..10 {
        let cost = combined_completion_cost(100, false, true, false, 500, uses, uses, 7);
        assert!(cost <= last);
        last = cost;
    }
}

#[test]
fn letters_are_compared_without_ascii_case() {
    assert!(chars_equal_ignore_case('a', 'A'));
    assert!(!chars_equal_ignore_case('\u{e9}', '\u{c9}'));
    assert!(first_letter_matches(&chars("Th"), &chars("the")));
    assert!(!first_letter_matches(&[], &chars("the")));
    assert!(!first_letter_matches(&chars("the"), &[]));
    assert!(starts_with_ignore_case(&chars("Hello"), &chars("heL")));
    assert!(!starts_with_ignore_case(&chars("he"), &chars("hel")));
    assert!(starts_with_ignore_case(&chars("he"), &[]));
    assert!(same_word_ignore_case(&chars("HeLLo"), &chars("hEllO")));
    assert!(!same_word_ignore_case(&chars("hello"), &chars("hell")));
}

#[test]
fn longer_prefixes_allow_more_edits() {
    for (len, edits) in [(0, 1), (2, 1), (3, 2), (5, 2), (6, 3), (9, 3), (10, 4), (500, 4)] {
        assert_eq!(allowed_noisy_prefix_edits(len), edits);
        assert_eq!(usize::from(max_noisy_prefix_distance(len)), 100 * edits);
    }
}

#[test]
fn prefixes_are_scored_exactly() {
    assert_eq!(best_completion_prefix_score(&[], &chars("a")), None);
    assert_eq!(best_completion_prefix_score(&chars("a"), &[]), None);
    assert_eq!(
        best_completion_prefix_score(&chars("HEL"), &chars("hello")),
        Some(CompletionPrefixScore { distance: 0, exact_prefix: true, matched_prefix_len: 3 })
    );
    assert_eq!(
        best_completion_prefix_score(&chars("teh"), &chars("them")),
        Some(CompletionPrefixScore { distance: 50, exact_prefix: false, matched_prefix_len: 3 })
    );
    // Too short by more edits than are allowed, and too far.
    assert_eq!(best_completion_prefix_score(&chars("abcdefgh"), &chars("abc")), None);
    assert_eq!(best_completion_prefix_score(&chars("qq"), &chars("mm")), None);
}

#[test]
fn plausible_corrections_are_told_apart() {
    assert!(should_score_noisy_prefix_candidate(&chars("the"), &chars("Toy")));
    assert!(should_score_noisy_prefix_candidate(&chars("gello"), &chars("hello")));
    assert!(should_score_noisy_prefix_candidate(&chars("xhello"), &chars("hello")));
    assert!(should_score_noisy_prefix_candidate(&chars("ello"), &chars("hello")));
    assert!(!should_score_noisy_prefix_candidate(&chars("qaa"), &chars("mbb")));
    assert!(!should_score_noisy_prefix_candidate(&[], &chars("a")));
    assert!(!should_score_noisy_prefix_candidate(&chars("a"), &[]));
}

fn rank(combined_cost: i32) -> CompletionSortRank {
    CompletionSortRank {
        combined_cost,
        distance: 0,
        exact_prefix: false,
        typed_word: false,
        first_letter_match: false,
        is_common: false,
        remaining_ambiguity: 1,
        replacement_len: 5,
    }
}

fn ranked(word: &str, rank: CompletionSortRank) -> RankedCompletion {
    RankedCompletion { word: word.to_string(), rank }
}

#[test]
fn ranks_are_compared_key_by_key() {
    let plain = rank(100);
    let better = [
        rank(99),
        CompletionSortRank { exact_prefix: true, ..plain },
        CompletionSortRank { first_letter_match: true, ..plain },
        CompletionSortRank { is_common: true, ..plain },
        CompletionSortRank { remaining_ambiguity: 0, ..plain },
        CompletionSortRank { replacement_len: 4, ..plain },
    ];
    for (i, first) in better.iter().enumerate() {
        assert_eq!(compare_completion_ranks(first, &plain), Ordering::Less);
        assert_eq!(compare_completion_ranks(&plain, first), Ordering::Greater);
        for second in &better[i + 1..] {
            assert_eq!(compare_completion_ranks(first, second), Ordering::Less);
        }
    }
    let ignored = CompletionSortRank { distance: 9, typed_word: true, ..plain };
    assert_eq!(compare_completion_ranks(&plain, &ignored), Ordering::Equal);
}

#[test]
fn equal_ranks_are_ordered_by_text() {
    let compare = |a: &str, b: &str| {
        compare_ranked_completion(&ranked(a, rank(1)), &ranked(b, rank(1)))
    };
    for (a, b) in [("ab", "ab"), ("ab", "abc"), ("Z", "a"), ("", "a"), ("\u{e9}", "z"), ("a", "b")] {
        assert_eq!(compare(a, b), a.cmp(b), "{a} and {b}");
        assert_eq!(compare(b, a), b.cmp(a), "{b} and {a}");
    }
}

#[test]
fn insertion_keeps_the_best_in_order() {
    let mut list = Vec::new();
    for (word, cost) in [("c", 30), ("a", 10), ("e", 50), ("b", 20), ("d", 40)] {
        insert_ranked_completion(&mut list, ranked(word, rank(cost)), 3);
    }
    let words: Vec<&str> = list.iter().map(|c| c.word.as_str()).collect();
    assert_eq!(words, ["a", "b", "c"]);

    let mut none = Vec::new();
    insert_ranked_completion(&mut none, ranked("a", rank(1)), 0);
    assert!(none.is_empty());
}

#[test]
fn limits_grow_with_the_results_within_bounds() {
    let all = |n| {
        [
            exact_prefix_candidate_limit(n),
            fuzzy_completion_candidate_limit(n),
            noisy_prefix_expansion_candidate_limit(n),
            noisy_prefix_expansion_per_prefix_limit(n),
            frequent_prefix_candidate_limit(n),
        ]
    };
    assert_eq!(all(0), [64, 64, 32, 4, 32]);
    assert_eq!(all(7), [224, 168, 112, 14, 32]);
    assert_eq!(all(50), [256, 200, 128, 16, 100]);
    assert_eq!(all(usize::MAX), [256, 200, 128, 16, 128]);
}

#[test]
fn sort_rank_blends_lists_and_context() {
    let lists = FrequencyLists {
        words: FrequencyList::new("the\nfood\n"),
        pairs: FrequencyList::new("good food\n"),
    };
    let stats = CompletionStats::default().with_word("food").with_pair("good", "food");
    let context = CompletionContext {
        stats: std::sync::Arc::new(stats),
        exclusions: CursorExclusions::default(),
        previous_word: Some("good".to_string()),
    };
    let score = best_completion_prefix_score(&chars("foo"), &chars("Food")).unwrap();
    let rank = completion_sort_rank(&lists, &chars("foo"), &chars("Food"), score, true, &context);

    assert_eq!(
        rank,
        CompletionSortRank {
            combined_cost: 21 - 60 - 60 - 200,
            distance: 0,
            exact_prefix: true,
            typed_word: false,
            first_letter_match: true,
            is_common: true,
            remaining_ambiguity: 1,
            replacement_len: 4,
        }
    );
}
