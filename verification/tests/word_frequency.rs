use harper_ls::word_frequency::{
    bigram_rank, frequency_rank, most_frequent_with_prefix, FrequencyList,
};

const WORDS: &str = "the\nof\nand\nto\na\nin\nfor\nis\non\nthat\nby\nthis\nwith\ni\nyou\nit\nnot\nor\n\
be\nare\nfrom\nat\nas\nyour\nall\nhave\nnew\nmore\nan\nwas\nwe\nwill\nhome\ncan\nus\nabout\nif\n\
page\nmy\nhas\nsearch\nfree\nbut\nour\none\nother\ndo\nno\ninformation\ntime\nthey\nsite\nhe\nup\n\
may\nwhat\nwhich\ntheir\nnews\nout\nuse\nany\nthere\nsee\nonly\nso\nhis\nwhen\ncontact\nhere\n\
work\ncould\ncompany\ncomputer\ncome\ncommunity\nword\nworm\n";

const PAIRS: &str = "of the\nin the\nto the\non the\nthank you\nnew york\n";

fn words() -> FrequencyList {
    FrequencyList::new(WORDS)
}

fn pairs() -> FrequencyList {
    FrequencyList::new(PAIRS)
}

#[test]
fn the_is_the_most_frequent_word() {
    assert_eq!(frequency_rank(&words(), "the"), Some(0));
}

#[test]
fn frequent_words_outrank_rare_words() {
    let list = words();
    let work = frequency_rank(&list, "work").expect("work is in the list");
    let word = frequency_rank(&list, "word").expect("word is in the list");
    let worm = frequency_rank(&list, "worm").expect("worm is in the list");

    assert!(work < word, "work should be more frequent than word");
    assert!(word < worm, "word should be more frequent than worm");
}

#[test]
fn lookup_is_case_insensitive() {
    let list = words();
    assert_eq!(frequency_rank(&list, "The"), frequency_rank(&list, "the"));
    assert_eq!(frequency_rank(&list, "WORK"), frequency_rank(&list, "work"));
}

#[test]
fn unknown_words_have_no_rank() {
    assert_eq!(frequency_rank(&words(), "zzqqxnotaword"), None);
}

#[test]
fn common_collocations_have_a_rank() {
    let list = pairs();
    assert!(bigram_rank(&list, "thank", "you").is_some());
    assert!(bigram_rank(&list, "new", "york").is_some());
}

#[test]
fn frequent_bigram_outranks_rarer_bigram() {
    let list = pairs();
    let in_the = bigram_rank(&list, "in", "the").expect("\"in the\" is in the list");
    let new_york = bigram_rank(&list, "new", "york").expect("\"new york\" is in the list");
    assert!(
        in_the < new_york,
        "\"in the\" is far more frequent than \"new york\""
    );
}

#[test]
fn bigram_lookup_is_case_insensitive() {
    let list = pairs();
    assert_eq!(bigram_rank(&list, "New", "York"), bigram_rank(&list, "new", "york"));
    assert_eq!(bigram_rank(&list, "New", "York"), Some(5));
}

#[test]
fn unknown_bigram_has_no_rank() {
    assert_eq!(bigram_rank(&pairs(), "zzqqx", "wwvvqq"), None);
}

#[test]
fn most_frequent_with_prefix_is_frequency_ordered() {
    let words = most_frequent_with_prefix(&words(), "th", 5);
    assert_eq!(words.first().map(String::as_str), Some("the"));
    assert!(words.len() <= 5);
    assert!(words.iter().all(|word| word.starts_with("th")));
}

#[test]
fn most_frequent_with_prefix_surfaces_alphabetically_late_words() {
    // "could"/"come" sort late within the "co" words but are very frequent.
    let words = most_frequent_with_prefix(&words(), "co", 100);
    assert!(words.iter().any(|word| word == "could"));
    assert!(words.iter().any(|word| word == "come"));
}

#[test]
fn most_frequent_with_prefix_respects_limit_and_case() {
    let list = words();
    assert!(most_frequent_with_prefix(&list, "th", 3).len() <= 3);
    assert_eq!(
        most_frequent_with_prefix(&list, "TH", 3),
        most_frequent_with_prefix(&list, "th", 3)
    );
    assert!(most_frequent_with_prefix(&list, "", 5).is_empty());
}

#[test]
fn most_frequent_words_come_in_the_order_of_the_list() {
    assert_eq!(
        most_frequent_with_prefix(&words(), "th", 4),
        vec!["the".to_string(), "that".to_string(), "this".to_string(), "they".to_string()]
    );
    assert!(most_frequent_with_prefix(&words(), "th", 0).is_empty());
}

#[test]
fn ranks_count_lines() {
    let list = FrequencyList::new("one\n\n  two \r\none\nthree");
    assert_eq!(frequency_rank(&list, "one"), Some(0));
    assert_eq!(frequency_rank(&list, "two"), Some(2));
    assert_eq!(frequency_rank(&list, "three"), Some(4));
    assert_eq!(frequency_rank(&list, ""), None);
    assert_eq!(bigram_rank(&list, "", "one"), None);
    assert_eq!(bigram_rank(&list, "one", ""), None);
}

#[test]
fn lookup_lowercases_beyond_ascii() {
    let list = FrequencyList::new("\u{e9}t\u{e9}\n");
    assert_eq!(frequency_rank(&list, "\u{c9}T\u{c9}"), Some(0));
}

#[test]
fn pairs_ignore_the_case_of_each_word() {
    let list = pairs();
    for (a, b) in [("NEW", "york"), ("new", "YORK"), ("nEw", "yOrK"), ("in", "THE")] {
        let rank = bigram_rank(&list, a, b);
        assert!(rank.is_some());
        assert_eq!(rank, bigram_rank(&list, &a.to_lowercase(), &b.to_lowercase()));
    }
}

#[test]
fn a_smaller_limit_only_cuts_the_tail() {
    let list = words();
    let all = most_frequent_with_prefix(&list, "th", 100);
    assert!(all.len() > 4);
    for limit in 0..=all.len() + 1 {
        let some = most_frequent_with_prefix(&list, "Th", limit);
        assert_eq!(some.len(), limit.min(all.len()));
        assert_eq!(some, all[..some.len()]);
    }
}
