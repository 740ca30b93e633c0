//! Dictionaries: which words exist, how they are spelled and which ones are near a given word.

use vstd::prelude::*;
use vstd::hash_set::StringHashSet;
use vstd::slice::slice_to_vec;
use crate::chars::{lower_each, lowercase_chars, same_chars, string_to_chars};
use crate::word_frequency::{
    at_most, char_views, entries_with_prefix, every_entry_is_a_match,
    matches_begin_with_the_prefix, starts_with, string_views,
};

verus! {

/// What a dictionary knows of a word.
#[derive(Debug, Clone, Copy, PartialEq, Eq, Structural)]
pub struct DictWordMetadata {
    /// Whether the word is in common use.
    pub common: bool,
}

/// What completion asks of a dictionary. Every answer is a function of what the dictionary holds
/// and of the question.
pub trait Dictionary {
    /// Whether a word is held in exactly this spelling.
    spec fn has_word(&self, word: Seq<char>) -> bool;

    /// How a word is spelled that is given in any casing.
    spec fn capitalization(&self, word: Seq<char>) -> Option<Seq<char>>;

    /// What is known of a word, given in any casing.
    spec fn metadata(&self, word: Seq<char>) -> Option<DictWordMetadata>;

    /// Up to `max_results` words within `max_distance` edits of `word`.
    spec fn near_words(&self, word: Seq<char>, max_distance: u8, max_results: nat) -> Seq<
        Seq<char>,
    >;

    /// Up to `limit` words that start with `prefix`.
    spec fn words_with_prefix(&self, prefix: Seq<char>, limit: nat) -> Seq<Seq<char>>;

    /// Whether a word is held in exactly this spelling.
    fn contains_exact_word(&self, word: &[char]) -> (r: bool)
        ensures
            r == self.has_word(word@),
    ;

    /// How a word is spelled that is given in any casing.
    fn get_correct_capitalization_of(&self, word: &[char]) -> (r: Option<Vec<char>>)
        ensures
            match self.capitalization(word@) {
                Some(w) => r matches Some(v) && v@ == w,
                None => r is None,
            },
    ;

    /// What is known of a word, given in any casing.
    fn get_word_metadata(&self, word: &[char]) -> (r: Option<DictWordMetadata>)
        ensures
            r == self.metadata(word@),
    ;

    /// Up to `max_results` words within `max_distance` edits of `word`.
    fn fuzzy_match(&self, word: &[char], max_distance: u8, max_results: usize) -> (r: Vec<Vec<char>>)
        ensures
            char_views(r@) == self.near_words(word@, max_distance, max_results as nat),
    ;

    /// Up to `limit` words that start with `prefix`.
    fn find_words_with_prefix_limited(&self, prefix: &[char], limit: usize) -> (r: Vec<Vec<char>>)
        ensures
            char_views(r@) == self.words_with_prefix(prefix@, limit as nat),
            r@.len() <= limit,
    ;
}

/// Whether a dictionary answers with words that it holds.
pub open spec fn answers_with_its_words<D: Dictionary>(dict: &D) -> bool {
    &&& forall|prefix: Seq<char>, limit: nat, k: int|
        0 <= k < dict.words_with_prefix(prefix, limit).len() ==> dict.has_word(
            #[trigger] dict.words_with_prefix(prefix, limit)[k],
        )
    &&& forall|word: Seq<char>, distance: u8, limit: nat, k: int|
        0 <= k < dict.near_words(word, distance, limit).len() ==> dict.has_word(
            #[trigger] dict.near_words(word, distance, limit)[k],
        )
    &&& forall|word: Seq<char>| #[trigger]
        dict.capitalization(word) matches Some(w) ==> dict.has_word(w)
}

/// A word of a dictionary, in mathematical terms.
pub struct WordEntry {
    pub word: Seq<char>,
    pub metadata: DictWordMetadata,
}

/// The smaller of two numbers.
pub open spec fn smaller(a: nat, b: nat) -> nat {
    if a <= b {
        a
    } else {
        b
    }
}

/// The number of insertions, deletions and replacements of one character that lead from the
/// first `i` characters of `a` to the first `j` characters of `b`.
pub open spec fn edit_count(a: Seq<char>, b: Seq<char>, i: nat, j: nat) -> nat
    decreases i + j,
{
    if i == 0 {
        j
    } else if j == 0 {
        i
    } else {
        let replace = edit_count(a, b, (i - 1) as nat, (j - 1) as nat) + if a[i - 1] == b[j - 1] {
            0nat
        } else {
            1nat
        };
        smaller(
            replace,
            smaller(edit_count(a, b, (i - 1) as nat, j), edit_count(a, b, i, (j - 1) as nat)) + 1,
        )
    }
}

/// A number of edits as it is stored: the highest value stands for all beyond it.
spec fn stored(edits: nat) -> nat {
    smaller(edits, u16::MAX as nat)
}

spec fn is_edit_row(a: Seq<char>, b: Seq<char>, i: nat, row: Seq<u16>) -> bool {
    forall|j: int| 0 <= j < row.len() ==> #[trigger] row[j] == stored(edit_count(a, b, i, j as nat))
}

/// How many edits lead from `a` to `b`.
fn edit_distance(a: &[char], b: &[char]) -> (edits: u16)
    ensures
        edits == stored(edit_count(a@, b@, a@.len(), b@.len())),
{
    let mut above: Vec<u16> = Vec::new();
    above.push(0);
    let mut k: usize = 0;
    while k < b.len()
        invariant
            k <= b@.len(),
            above@.len() == k + 1,
            is_edit_row(a@, b@, 0, above@),
        decreases b@.len() - k,
    {
        let shorter: u16 = above[k];
        above.push(shorter.saturating_add(1));
        k += 1;
    }
    let mut i: usize = 0;
    while i < a.len()
        invariant
            i <= a@.len(),
            above@.len() == b@.len() + 1,
            is_edit_row(a@, b@, i as nat, above@),
        decreases a@.len() - i,
    {
        let mut row: Vec<u16> = Vec::new();
        let first: u16 = above[0];
        row.push(first.saturating_add(1));
        assert(first == stored(edit_count(a@, b@, i as nat, 0)));
        let mut j: usize = 0;
        while j < b.len()
            invariant
                i < a@.len(),
                j <= b@.len(),
                row@.len() == j + 1,
                above@.len() == b@.len() + 1,
                is_edit_row(a@, b@, i as nat, above@),
                is_edit_row(a@, b@, i as nat + 1, row@),
            decreases b@.len() - j,
        {
            let replace: u16 = if a[i] == b[j] {
                above[j]
            } else {
                above[j].saturating_add(1)
            };
            let delete: u16 = above[j + 1].saturating_add(1);
            let insert: u16 = row[j].saturating_add(1);
            let mut best: u16 = replace;
            if delete < best {
                best = delete;
            }
            if insert < best {
                best = insert;
            }
            row.push(best);
            j += 1;
        }
        above = row;
        i += 1;
    }
    above[b.len()]
}

/// How many edits a word is away from one that was typed, in whatever casing it was typed.
pub open spec fn edits_from(typed: Seq<char>, word: Seq<char>) -> nat {
    smaller(
        edit_count(typed, word, typed.len(), word.len()),
        edit_count(lower_each(typed), word, typed.len(), word.len()),
    )
}

/// The words at exactly `distance` edits, in the order in which they are held.
pub open spec fn words_at_distance(
    entries: Seq<WordEntry>,
    typed: Seq<char>,
    distance: nat,
) -> Seq<Seq<char>>
    decreases entries.len(),
{
    if entries.len() == 0 {
        Seq::empty()
    } else {
        let earlier = words_at_distance(entries.drop_last(), typed, distance);
        if entries.last().word.len() > 0 && edits_from(typed, entries.last().word) == distance {
            earlier.push(entries.last().word)
        } else {
            earlier
        }
    }
}

/// The words within `distance` edits, the nearest first.
pub open spec fn words_within_distance(
    entries: Seq<WordEntry>,
    typed: Seq<char>,
    distance: nat,
) -> Seq<Seq<char>>
    decreases distance,
{
    let at_distance = words_at_distance(entries, typed, distance);
    if distance == 0 {
        at_distance
    } else {
        words_within_distance(entries, typed, (distance - 1) as nat) + at_distance
    }
}

/// The words of a dictionary's entries.
pub open spec fn entry_words(entries: Seq<WordEntry>) -> Seq<Seq<char>> {
    entries.map_values(|e: WordEntry| e.word)
}

/// The first entry that is spelled like `word` in any casing.
pub open spec fn entry_for(entries: Seq<WordEntry>, word: Seq<char>) -> Option<WordEntry>
    decreases entries.len(),
{
    if entries.len() == 0 {
        None
    } else if lower_each(entries[0].word) == lower_each(word) {
        Some(entries[0])
    } else {
        entry_for(entries.drop_first(), word)
    }
}

/// The entries with one more word; a word that is held already gets the new metadata.
pub open spec fn with_entry(entries: Seq<WordEntry>, entry: WordEntry) -> Seq<WordEntry>
    decreases entries.len(),
{
    if entries.len() == 0 {
        seq![entry]
    } else if entries[0].word == entry.word {
        entries.update(0, entry)
    } else {
        seq![entries[0]] + with_entry(entries.drop_first(), entry)
    }
}

/// A word as it is held.
struct HeldWord {
    word: Vec<char>,
    metadata: DictWordMetadata,
}

/// A dictionary to which words can be added.
pub struct MutableDictionary {
    held: Vec<HeldWord>,
}

impl View for MutableDictionary {
    type V = Seq<WordEntry>;

    closed spec fn view(&self) -> Seq<WordEntry> {
        self.held@.map_values(|h: HeldWord| WordEntry { word: h.word@, metadata: h.metadata })
    }
}

impl Default for MutableDictionary {
    /// A dictionary without words.
    fn default() -> (dict: Self)
        ensures
            dict@ == Seq::<WordEntry>::empty(),
    {
        MutableDictionary::new()
    }
}

impl MutableDictionary {
    /// A dictionary without words.
    pub fn new() -> (dict: Self)
        ensures
            dict@ == Seq::<WordEntry>::empty(),
    {
        let dict = MutableDictionary { held: Vec::new() };
        assert(dict@ =~= Seq::<WordEntry>::empty());
        dict
    }

    /// Adds a word; one that is held already gets the new metadata.
    pub fn append_word_str(&mut self, word: &str, metadata: DictWordMetadata)
        ensures
            final(self)@ == with_entry(old(self)@, (WordEntry { word: word@, metadata })),
    {
        let chars = string_to_chars(word);
        let ghost entry = WordEntry { word: word@, metadata };
        let ghost before = self@;
        let mut i: usize = 0;
        assert(before.skip(0) == before);
        assert(before.take(0) + with_entry(before.skip(0), entry) =~= with_entry(before, entry));
        while i < self.held.len()
            invariant
                i <= self.held@.len(),
                chars@ == word@,
                entry == (WordEntry { word: word@, metadata }),
                before == self@,
                before == old(self)@,
                before.take(i as int) + with_entry(before.skip(i as int), entry) == with_entry(
                    before,
                    entry,
                ),
            decreases self.held@.len() - i,
        {
            assert(before.skip(i as int)[0] == before[i as int]);
            if same_chars(self.held[i].word.as_slice(), chars.as_slice()) {
                assert(with_entry(before.skip(i as int), entry) == before.skip(i as int).update(
                    0,
                    entry,
                ));
                self.held[i].metadata = metadata;
                assert(before.take(i as int) + before.skip(i as int).update(0, entry)
                    =~= before.update(i as int, entry));
                assert(self@ =~= before.update(i as int, entry));
                return ;
            }
            proof {
                let rest = before.skip(i as int);
                assert(rest.drop_first() == before.skip(i + 1));
                let tail = with_entry(before.skip(i + 1), entry);
                assert(before.take(i as int) + (seq![rest[0]] + tail) =~= before.take(i + 1)
                    + tail);
            }
            i += 1;
        }
        assert(before.skip(i as int) =~= Seq::<WordEntry>::empty());
        assert(with_entry(before, entry) =~= before.push(entry));
        self.held.push(HeldWord { word: chars, metadata });
        assert(self@ =~= before.push(entry));
    }

    /// The first word that is spelled like `word` in any casing.
    fn find(&self, word: &[char]) -> (found: Option<usize>)
        ensures
            match found {
                Some(k) => k < self.held@.len() && entry_for(self@, word@) == Some(self@[k as int]),
                None => entry_for(self@, word@) is None,
            },
    {
        let lower = lowercase_chars(word);
        let mut i: usize = 0;
        assert(self@.skip(0) == self@);
        while i < self.held.len()
            invariant
                i <= self.held@.len(),
                lower@ == lower_each(word@),
                entry_for(self@, word@) == entry_for(self@.skip(i as int), word@),
            decreases self.held@.len() - i,
        {
            let spelled = lowercase_chars(self.held[i].word.as_slice());
            assert(self@.skip(i as int)[0] == self@[i as int]);
            assert(self@.skip(i as int).drop_first() == self@.skip(i + 1));
            if same_chars(spelled.as_slice(), lower.as_slice()) {
                return Some(i);
            }
            i += 1;
        }
        None
    }

    /// The words at exactly `distance` of the given distances.
    fn add_words_at(
        &self,
        distances: &Vec<u16>,
        distance: u8,
        words: &mut Vec<Vec<char>>,
        Ghost(typed): Ghost<Seq<char>>,
    )
        requires
            distances@.len() == self@.len(),
            forall|k: int|
                0 <= k < distances@.len() ==> #[trigger] distances@[k] == stored(
                    edits_from(typed, self@[k].word),
                ),
        ensures
            char_views(final(words)@) == char_views(old(words)@) + words_at_distance(
                self@,
                typed,
                distance as nat,
            ),
    {
        let ghost before = char_views(words@);
        let mut i: usize = 0;
        assert(before + words_at_distance(self@.take(0), typed, distance as nat) =~= before);
        while i < self.held.len()
            invariant
                i <= self.held@.len() == self@.len(),
                distances@.len() == self@.len(),
                forall|k: int|
                    0 <= k < distances@.len() ==> #[trigger] distances@[k] == stored(
                        edits_from(typed, self@[k].word),
                    ),
                char_views(words@) == before + words_at_distance(
                    self@.take(i as int),
                    typed,
                    distance as nat,
                ),
            decreases self.held@.len() - i,
        {
            let ghost earlier = words@;
            let ghost next = self@.take(i + 1);
            assert(next.drop_last() == self@.take(i as int));
            assert(next.last() == self@[i as int]);
            if self.held[i].word.len() > 0 && distances[i] == distance as u16 {
                words.push(slice_to_vec(self.held[i].word.as_slice()));
                assert(char_views(words@) =~= char_views(earlier).push(self@[i as int].word));
                assert(char_views(words@) =~= before + words_at_distance(
                    next,
                    typed,
                    distance as nat,
                ));
            }
            i += 1;
        }
        assert(self@.take(i as int) == self@);
    }
}

impl Dictionary for MutableDictionary {
    open spec fn has_word(&self, word: Seq<char>) -> bool {
        entry_words(self@).contains(word)
    }

    open spec fn capitalization(&self, word: Seq<char>) -> Option<Seq<char>> {
        match entry_for(self@, word) {
            Some(entry) => Some(entry.word),
            None => None,
        }
    }

    open spec fn metadata(&self, word: Seq<char>) -> Option<DictWordMetadata> {
        match entry_for(self@, word) {
            Some(entry) => Some(entry.metadata),
            None => None,
        }
    }

    open spec fn near_words(&self, word: Seq<char>, max_distance: u8, max_results: nat) -> Seq<
        Seq<char>,
    > {
        at_most(words_within_distance(self@, word, max_distance as nat), max_results)
    }

    open spec fn words_with_prefix(&self, prefix: Seq<char>, limit: nat) -> Seq<Seq<char>> {
        at_most(entries_with_prefix(entry_words(self@), prefix), limit)
    }

    fn contains_exact_word(&self, word: &[char]) -> (r: bool) {
        let mut i: usize = 0;
        while i < self.held.len()
            invariant
                i <= self.held@.len(),
                forall|k: int| 0 <= k < i ==> #[trigger] entry_words(self@)[k] != word@,
            decreases self.held@.len() - i,
        {
            assert(entry_words(self@)[i as int] == self.held@[i as int].word@);
            if same_chars(self.held[i].word.as_slice(), word) {
                return true;
            }
            i += 1;
        }
        false
    }

    fn get_correct_capitalization_of(&self, word: &[char]) -> (r: Option<Vec<char>>) {
        match self.find(word) {
            Some(k) => Some(slice_to_vec(self.held[k].word.as_slice())),
            None => None,
        }
    }

    fn get_word_metadata(&self, word: &[char]) -> (r: Option<DictWordMetadata>) {
        match self.find(word) {
            Some(k) => Some(self.held[k].metadata),
            None => None,
        }
    }

    fn fuzzy_match(&self, word: &[char], max_distance: u8, max_results: usize) -> (r: Vec<
        Vec<char>,
    >) {
        let lower = lowercase_chars(word);
        let mut distances: Vec<u16> = Vec::new();
        let mut i: usize = 0;
        while i < self.held.len()
            invariant
                i <= self.held@.len() == self@.len(),
                lower@ == lower_each(word@),
                distances@.len() == i,
                forall|k: int|
                    0 <= k < i ==> #[trigger] distances@[k] == stored(
                        edits_from(word@, self@[k].word),
                    ),
            decreases self.held@.len() - i,
        {
            let as_typed = edit_distance(word, self.held[i].word.as_slice());
            let as_lower = edit_distance(lower.as_slice(), self.held[i].word.as_slice());
            distances.push(
                if as_typed <= as_lower {
                    as_typed
                } else {
                    as_lower
                },
            );
            i += 1;
        }
        let mut words: Vec<Vec<char>> = Vec::new();
        let mut distance: u8 = 0;
        self.add_words_at(&distances, distance, &mut words, Ghost(word@));
        assert(char_views(words@) =~= words_within_distance(self@, word@, 0));
        while distance < max_distance
            invariant
                distance <= max_distance,
                distances@.len() == self@.len(),
                forall|k: int|
                    0 <= k < distances@.len() ==> #[trigger] distances@[k] == stored(
                        edits_from(word@, self@[k].word),
                    ),
                char_views(words@) == words_within_distance(self@, word@, distance as nat),
            decreases max_distance - distance,
        {
            distance += 1;
            self.add_words_at(&distances, distance, &mut words, Ghost(word@));
        }
        words.truncate(max_results);
        assert(char_views(words@) =~= self.near_words(word@, max_distance, max_results as nat));
        words
    }

    fn find_words_with_prefix_limited(&self, prefix: &[char], limit: usize) -> (r: Vec<
        Vec<char>,
    >) {
        let mut words: Vec<Vec<char>> = Vec::new();
        let mut i: usize = 0;
        let ghost all = entry_words(self@);
        while i < self.held.len()
            invariant
                i <= self.held@.len() == all.len(),
                all == entry_words(self@),
                char_views(words@) == entries_with_prefix(all.take(i as int), prefix@),
            decreases self.held@.len() - i,
        {
            let ghost earlier = words@;
            let ghost next = all.take(i + 1);
            assert(next.drop_last() == all.take(i as int));
            assert(next.last() == self.held@[i as int].word@);
            if starts_with(self.held[i].word.as_slice(), prefix) {
                words.push(slice_to_vec(self.held[i].word.as_slice()));
                assert(char_views(words@) =~= char_views(earlier).push(next.last()));
            }
            i += 1;
        }
        assert(all.take(i as int) == all);
        words.truncate(limit);
        assert(char_views(words@) =~= self.words_with_prefix(prefix@, limit as nat));
        words
    }
}

/// A set of words.
pub struct WordSet {
    words: StringHashSet,
}

impl View for WordSet {
    type V = Set<Seq<char>>;

    closed spec fn view(&self) -> Set<Seq<char>> {
        self.words@
    }
}

impl Default for WordSet {
    /// The empty set.
    fn default() -> (set: Self)
        ensures
            set@ == Set::<Seq<char>>::empty(),
    {
        WordSet::new()
    }
}

impl WordSet {
    /// The empty set.
    pub fn new() -> (set: Self)
        ensures
            set@ == Set::<Seq<char>>::empty(),
    {
        WordSet { words: StringHashSet::new() }
    }

    /// Adds a word; returns whether it is new.
    pub fn insert(&mut self, word: String) -> (is_new: bool)
        ensures
            final(self)@ == old(self)@.insert(word@),
            is_new == !old(self)@.contains(word@),
    {
        self.words.insert(word)
    }

    /// Whether a word is in the set.
    pub fn contains(&self, word: &str) -> (r: bool)
        ensures
            r == self@.contains(word@),
    {
        self.words.contains(word)
    }
}

/// What is known of a word that only a user's list holds.
pub open spec fn plain_entry(word: Seq<char>) -> WordEntry {
    WordEntry { word, metadata: DictWordMetadata { common: false } }
}

/// The entries of a language, in the order in which they are given.
pub open spec fn curated_entries(curated: Seq<(String, DictWordMetadata)>) -> Seq<WordEntry>
    decreases curated.len(),
{
    if curated.len() == 0 {
        Seq::empty()
    } else {
        with_entry(
            curated_entries(curated.drop_last()),
            WordEntry { word: curated.last().0@, metadata: curated.last().1 },
        )
    }
}

/// Entries with the words of a list added. What is known of a word that is held already is kept.
pub open spec fn with_plain_words(entries: Seq<WordEntry>, words: Seq<Seq<char>>) -> Seq<WordEntry>
    decreases words.len(),
{
    if words.len() == 0 {
        entries
    } else {
        let earlier = with_plain_words(entries, words.drop_last());
        if entry_words(earlier).contains(words.last()) {
            earlier
        } else {
            with_entry(earlier, plain_entry(words.last()))
        }
    }
}

/// The dictionary of a language's words and those of a list. What is known of a word of the
/// language is kept when the list holds it too.
pub fn dictionary_of(curated: &Vec<(String, DictWordMetadata)>, words: &Vec<String>) -> (dict:
    MutableDictionary)
    ensures
        dict@ == with_plain_words(curated_entries(curated@), string_views(words@)),
{
    let mut dict = MutableDictionary::new();
    let mut i: usize = 0;
    while i < curated.len()
        invariant
            i <= curated@.len(),
            dict@ == curated_entries(curated@.take(i as int)),
        decreases curated@.len() - i,
    {
        assert(curated@.take(i + 1).drop_last() == curated@.take(i as int));
        dict.append_word_str(curated[i].0.as_str(), curated[i].1);
        i += 1;
    }
    assert(curated@.take(i as int) == curated@);
    let ghost language = curated_entries(curated@);
    let ghost all = string_views(words@);
    let mut k: usize = 0;
    while k < words.len()
        invariant
            k <= words@.len(),
            all == string_views(words@),
            dict@ == with_plain_words(language, all.take(k as int)),
        decreases words@.len() - k,
    {
        assert(all.take(k + 1).drop_last() == all.take(k as int));
        assert(all.take(k + 1).last() == words@[k as int]@);
        let chars = string_to_chars(words[k].as_str());
        if !dict.contains_exact_word(chars.as_slice()) {
            dict.append_word_str(words[k].as_str(), DictWordMetadata { common: false });
        }
        k += 1;
    }
    assert(all.take(k as int) == all);
    dict
}

/// A dictionary to which words can be added answers with words that it holds.
pub proof fn mutable_dictionaries_answer_with_their_words(dict: &MutableDictionary)
    ensures
        answers_with_its_words(dict),
{
    assert forall|prefix: Seq<char>, limit: nat, k: int|
        0 <= k < dict.words_with_prefix(prefix, limit).len() implies dict.has_word(
        #[trigger] dict.words_with_prefix(prefix, limit)[k],
    ) by {
        entries_with_prefix_are_entries(entry_words(dict@), prefix);
        let all = entries_with_prefix(entry_words(dict@), prefix);
        assert(dict.words_with_prefix(prefix, limit)[k] == all[k]);
    }
    assert forall|word: Seq<char>, distance: u8, limit: nat, k: int|
        0 <= k < dict.near_words(word, distance, limit).len() implies dict.has_word(
        #[trigger] dict.near_words(word, distance, limit)[k],
    ) by {
        words_within_distance_are_entries(dict@, word, distance as nat);
        let all = words_within_distance(dict@, word, distance as nat);
        assert(dict.near_words(word, distance, limit)[k] == all[k]);
    }
    assert forall|word: Seq<char>|
        (#[trigger] dict.capitalization(word) matches Some(w) ==> dict.has_word(w)) by {
        entry_for_is_an_entry(dict@, word);
    }
}

proof fn entries_with_prefix_are_entries(entries: Seq<Seq<char>>, prefix: Seq<char>)
    ensures
        forall|k: int|
            0 <= k < entries_with_prefix(entries, prefix).len() ==> entries.contains(
                #[trigger] entries_with_prefix(entries, prefix)[k],
            ),
    decreases entries.len(),
{
    if entries.len() > 0 {
        let few = entries.drop_last();
        entries_with_prefix_are_entries(few, prefix);
        let found = entries_with_prefix(entries, prefix);
        let earlier = entries_with_prefix(few, prefix);
        assert forall|k: int| 0 <= k < found.len() implies entries.contains(
            #[trigger] found[k],
        ) by {
            if k < earlier.len() {
                assert(found[k] == earlier[k]);
                let j = choose|j: int| 0 <= j < few.len() && few[j] == earlier[k];
                assert(entries[j] == found[k]);
            } else {
                assert(entries[entries.len() - 1] == found[k]);
            }
        }
    }
}

proof fn words_at_distance_are_entries(
    entries: Seq<WordEntry>,
    typed: Seq<char>,
    distance: nat,
)
    ensures
        forall|k: int|
            0 <= k < words_at_distance(entries, typed, distance).len() ==> entry_words(
                entries,
            ).contains(#[trigger] words_at_distance(entries, typed, distance)[k]),
    decreases entries.len(),
{
    if entries.len() > 0 {
        let few = entries.drop_last();
        words_at_distance_are_entries(few, typed, distance);
        let found = words_at_distance(entries, typed, distance);
        let earlier = words_at_distance(few, typed, distance);
        let words = entry_words(entries);
        assert forall|k: int| 0 <= k < found.len() implies words.contains(#[trigger] found[k]) by {
            if k < earlier.len() {
                assert(found[k] == earlier[k]);
                let j = choose|j: int|
                    0 <= j < entry_words(few).len() && entry_words(few)[j] == earlier[k];
                assert(words[j] == found[k]);
            } else {
                assert(words[entries.len() - 1] == found[k]);
            }
        }
    }
}

proof fn words_within_distance_are_entries(
    entries: Seq<WordEntry>,
    typed: Seq<char>,
    distance: nat,
)
    ensures
        forall|k: int|
            0 <= k < words_within_distance(entries, typed, distance).len() ==> entry_words(
                entries,
            ).contains(#[trigger] words_within_distance(entries, typed, distance)[k]),
    decreases distance,
{
    words_at_distance_are_entries(entries, typed, distance);
    if distance > 0 {
        words_within_distance_are_entries(entries, typed, (distance - 1) as nat);
        let near = words_within_distance(entries, typed, (distance - 1) as nat);
        let far = words_at_distance(entries, typed, distance);
        assert forall|k: int| 0 <= k < (near + far).len() implies entry_words(entries).contains(
            #[trigger] (near + far)[k],
        ) by {
            if k < near.len() {
                assert((near + far)[k] == near[k]);
            } else {
                assert((near + far)[k] == far[k - near.len()]);
            }
        }
    }
}

proof fn entry_for_is_an_entry(entries: Seq<WordEntry>, word: Seq<char>)
    ensures
        entry_for(entries, word) matches Some(entry) ==> entry_words(entries).contains(entry.word),
    decreases entries.len(),
{
    if entries.len() > 0 {
        let rest = entries.drop_first();
        entry_for_is_an_entry(rest, word);
        assert(entry_words(entries)[0] == entries[0].word);
        if let Some(entry) = entry_for(rest, word) {
            let k = choose|k: int|
                0 <= k < entry_words(rest).len() && entry_words(rest)[k] == entry.word;
            assert(entry_words(entries)[k + 1] == entry_words(rest)[k]);
        }
    }
}

/// A word that was added is held, with what is known of it; all other words are held as before,
/// and in their order.
pub proof fn added_words_are_held(entries: Seq<WordEntry>, entry: WordEntry, other: WordEntry)
    ensures
        with_entry(entries, entry).contains(entry),
        other.word != entry.word ==> with_entry(entries, entry).contains(other)
            == entries.contains(other),
        with_entry(entries, entry).filter(|e: WordEntry| e.word != entry.word) == entries.filter(
            |e: WordEntry| e.word != entry.word,
        ),
        (forall|k: int| 0 <= k < entries.len() ==> (#[trigger] entries[k]).word != entry.word)
            ==> with_entry(entries, entry) == entries.push(entry),
    decreases entries.len(),
{
    let keep = |e: WordEntry| e.word != entry.word;
    let new = with_entry(entries, entry);
    if entries.len() == 0 {
        assert(new[0] == entry);
        assert(new =~= entries.push(entry));
        reveal(Seq::filter);
        assert(new.drop_last() =~= entries);
        assert(new.filter(keep) =~= entries.filter(keep));
        if new.contains(other) {
            let k = choose|k: int| 0 <= k < new.len() && new[k] == other;
        }
    } else {
        let head = seq![entries[0]];
        let rest = entries.drop_first();
        assert(entries =~= head + rest);
        Seq::filter_distributes_over_add(head, rest, keep);
        if entries[0].word == entry.word {
            assert(new[0] == entry);
            assert(new =~= seq![entry] + rest);
            Seq::filter_distributes_over_add(seq![entry], rest, keep);
            assert(seq![entry].filter(keep) =~= Seq::empty() && head.filter(keep) =~= Seq::empty())
                by {
                reveal_with_fuel(Seq::<_>::filter, 3);
                assert(seq![entry].drop_last() =~= Seq::empty());
                assert(head.drop_last() =~= Seq::empty());
                assert(keep(entry) == false && keep(entries[0]) == false);
            }
            if entries.contains(other) && other.word != entry.word {
                let k = choose|k: int| 0 <= k < entries.len() && entries[k] == other;
                assert(new[k] == other);
            }
            if new.contains(other) && other.word != entry.word {
                let k = choose|k: int| 0 <= k < new.len() && new[k] == other;
                assert(entries[k] == other);
            }
        } else {
            added_words_are_held(rest, entry, other);
            let tail = with_entry(rest, entry);
            assert(new == head + tail);
            Seq::filter_distributes_over_add(head, tail, keep);
            let k = choose|k: int| 0 <= k < tail.len() && tail[k] == entry;
            assert(new[k + 1] == entry);
            if other.word != entry.word {
                if entries.contains(other) {
                    let j = choose|j: int| 0 <= j < entries.len() && entries[j] == other;
                    if j > 0 {
                        assert(rest[j - 1] == other);
                        let i = choose|i: int| 0 <= i < tail.len() && tail[i] == other;
                        assert(new[i + 1] == other);
                    } else {
                        assert(new[0] == other);
                    }
                }
                if new.contains(other) {
                    let j = choose|j: int| 0 <= j < new.len() && new[j] == other;
                    if j > 0 {
                        assert(tail[j - 1] == other);
                        let i = choose|i: int| 0 <= i < rest.len() && rest[i] == other;
                        assert(entries[i + 1] == other);
                    } else {
                        assert(entries[0] == other);
                    }
                }
            }
            if forall|k: int| 0 <= k < entries.len() ==> (#[trigger] entries[k]).word
                != entry.word {
                assert forall|k: int| 0 <= k < rest.len() implies (#[trigger] rest[k]).word
                    != entry.word by {
                    assert(rest[k] == entries[k + 1]);
                }
                assert(new =~= entries.push(entry));
            }
        }
    }
}

proof fn edits_read_the_prefixes(
    a: Seq<char>,
    b: Seq<char>,
    c: Seq<char>,
    d: Seq<char>,
    i: nat,
    j: nat,
)
    requires
        i <= a.len(),
        i <= c.len(),
        j <= b.len(),
        j <= d.len(),
        forall|k: int| 0 <= k < i ==> #[trigger] a[k] == c[k],
        forall|k: int| 0 <= k < j ==> #[trigger] b[k] == d[k],
    ensures
        edit_count(a, b, i, j) == edit_count(c, d, i, j),
    decreases i + j,
{
    if i > 0 && j > 0 {
        edits_read_the_prefixes(a, b, c, d, (i - 1) as nat, j);
        edits_read_the_prefixes(a, b, c, d, i, (j - 1) as nat);
        edits_read_the_prefixes(a, b, c, d, (i - 1) as nat, (j - 1) as nat);
        assert(a[i - 1] == c[i - 1] && b[j - 1] == d[j - 1]);
    }
}

/// The number of edits between two words is that between them without their last characters, or
/// one more than with one of these dropped, added or replaced: whichever is least.
pub proof fn the_last_edit_makes_up_the_count(a: Seq<char>, b: Seq<char>)
    ensures
        edit_count(a, b, a.len(), 0) == a.len(),
        edit_count(a, b, 0, b.len()) == b.len(),
        a.len() > 0 && b.len() > 0 ==> {
            let all = edit_count(a, b, a.len(), b.len());
            let (x, y) = (a.drop_last(), b.drop_last());
            let deletion = edit_count(x, b, x.len(), b.len()) + 1;
            let insertion = edit_count(a, y, a.len(), y.len()) + 1;
            let replacement = edit_count(x, y, x.len(), y.len()) + if a.last() == b.last() {
                0int
            } else {
                1int
            };
            &&& all <= deletion && all <= insertion && all <= replacement
            &&& all == deletion || all == insertion || all == replacement
        },
{
    if a.len() > 0 && b.len() > 0 {
        let (i, j) = (a.len(), b.len());
        edits_read_the_prefixes(a, b, a.drop_last(), b, (i - 1) as nat, j);
        edits_read_the_prefixes(a, b, a, b.drop_last(), i, (j - 1) as nat);
        edits_read_the_prefixes(a, b, a.drop_last(), b.drop_last(), (i - 1) as nat, (j - 1) as nat);
    }
}

/// Every word within the asked number of edits of what was typed, or of what was typed in
/// lowercase, is near it; no other is; and the nearer ones come first.
pub proof fn near_words_are_the_nearest(
    entries: Seq<WordEntry>,
    typed: Seq<char>,
    distance: nat,
    word: Seq<char>,
    i: int,
    j: int,
)
    ensures
        ({
            let lower = lower_each(typed);
            let edits = edit_count(typed, word, typed.len(), word.len());
            let lower_edits = edit_count(lower, word, lower.len(), word.len());
            words_within_distance(entries, typed, distance).contains(word) == (entry_words(
                entries,
            ).contains(word) && word.len() > 0 && (edits <= distance || lower_edits <= distance))
        }),
        ({
            let near = words_within_distance(entries, typed, distance);
            let lower = lower_each(typed);
            0 <= i < j < near.len() ==> smaller(
                edit_count(typed, near[i], typed.len(), near[i].len()),
                edit_count(lower, near[i], lower.len(), near[i].len()),
            ) <= smaller(
                edit_count(typed, near[j], typed.len(), near[j].len()),
                edit_count(lower, near[j], lower.len(), near[j].len()),
            )
        }),
    decreases distance,
{
    words_at_distance_are_at_it(entries, typed, distance, word);
    let far = words_at_distance(entries, typed, distance);
    let near = words_within_distance(entries, typed, distance);
    if distance > 0 {
        let closer = words_within_distance(entries, typed, (distance - 1) as nat);
        near_words_are_the_nearest(entries, typed, (distance - 1) as nat, word, i, j);
        assert(near == closer + far);
        if closer.contains(word) {
            let k = choose|k: int| 0 <= k < closer.len() && closer[k] == word;
            assert(near[k] == word);
        }
        if far.contains(word) {
            let k = choose|k: int| 0 <= k < far.len() && far[k] == word;
            assert(near[closer.len() + k] == word);
        }
        if near.contains(word) {
            let k = choose|k: int| 0 <= k < near.len() && near[k] == word;
            if k < closer.len() {
                assert(closer[k] == word);
            } else {
                assert(far[k - closer.len()] == word);
            }
        }
        if 0 <= i < j < near.len() {
            if j >= closer.len() {
                words_at_distance_are_at_it(entries, typed, distance, near[j]);
                assert(far[j - closer.len()] == near[j]);
                if i >= closer.len() {
                    words_at_distance_are_at_it(entries, typed, distance, near[i]);
                    assert(far[i - closer.len()] == near[i]);
                } else {
                    assert(closer[i] == near[i]);
                    near_words_are_the_nearest(
                        entries,
                        typed,
                        (distance - 1) as nat,
                        near[i],
                        0,
                        0,
                    );
                }
            } else {
                assert(closer[i] == near[i] && closer[j] == near[j]);
            }
        }
    } else if 0 <= i < j < near.len() {
        words_at_distance_are_at_it(entries, typed, distance, near[i]);
        words_at_distance_are_at_it(entries, typed, distance, near[j]);
    }
}

proof fn words_at_distance_are_at_it(
    entries: Seq<WordEntry>,
    typed: Seq<char>,
    distance: nat,
    word: Seq<char>,
)
    ensures
        words_at_distance(entries, typed, distance).contains(word) == (entry_words(
            entries,
        ).contains(word) && word.len() > 0 && edits_from(typed, word) == distance),
    decreases entries.len(),
{
    let all = words_at_distance(entries, typed, distance);
    if entries.len() > 0 {
        let few = entries.drop_last();
        words_at_distance_are_at_it(few, typed, distance, word);
        let earlier = words_at_distance(few, typed, distance);
        let last = entries.last().word;
        if earlier.contains(word) {
            let k = choose|k: int| 0 <= k < earlier.len() && earlier[k] == word;
            assert(all[k] == word);
        }
        if all.contains(word) && !earlier.contains(word) {
            let k = choose|k: int| 0 <= k < all.len() && all[k] == word;
            if k < earlier.len() {
                assert(earlier[k] == word);
            }
            assert(entry_words(entries)[entries.len() - 1] == word);
        }
        if entry_words(few).contains(word) {
            let k = choose|k: int| 0 <= k < few.len() && entry_words(few)[k] == word;
            assert(entry_words(entries)[k] == word);
        }
        if entry_words(entries).contains(word) && !entry_words(few).contains(word) {
            let k = choose|k: int| 0 <= k < entries.len() && entry_words(entries)[k] == word;
            if k < few.len() {
                assert(entry_words(few)[k] == word);
            }
            assert(last == word);
            if word.len() > 0 && edits_from(typed, word) == distance {
                assert(all[all.len() - 1] == word);
            }
        }
        if last == word && word.len() > 0 && edits_from(typed, word) == distance {
            assert(all[all.len() - 1] == word);
        }
    }
}

/// A word given in any casing is the first one that is held with the same lowercase characters.
pub proof fn a_word_in_any_casing_is_the_first_one_held(
    entries: Seq<WordEntry>,
    word: Seq<char>,
    k: int,
)
    requires
        0 <= k < entries.len(),
        lower_each(entries[k].word) == lower_each(word),
        forall|j: int| 0 <= j < k ==> lower_each((#[trigger] entries[j]).word) != lower_each(word),
    ensures
        entry_for(entries, word) == Some(entries[k]),
    decreases entries.len(),
{
    if k > 0 {
        let rest = entries.drop_first();
        assert(lower_each(entries[0].word) != lower_each(word));
        assert forall|j: int| 0 <= j < k - 1 implies lower_each((#[trigger] rest[j]).word)
            != lower_each(word) by {
            assert(rest[j] == entries[j + 1]);
        }
        a_word_in_any_casing_is_the_first_one_held(rest, word, k - 1);
    }
}

/// A word is not known where none with the same lowercase characters is held.
pub proof fn a_word_that_is_not_held_is_not_known(entries: Seq<WordEntry>, word: Seq<char>)
    requires
        forall|j: int|
            0 <= j < entries.len() ==> lower_each((#[trigger] entries[j]).word) != lower_each(word),
    ensures
        entry_for(entries, word) is None,
    decreases entries.len(),
{
    if entries.len() > 0 {
        let rest = entries.drop_first();
        assert(lower_each(entries[0].word) != lower_each(word));
        assert forall|j: int| 0 <= j < rest.len() implies lower_each((#[trigger] rest[j]).word)
            != lower_each(word) by {
            assert(rest[j] == entries[j + 1]);
        }
        a_word_that_is_not_held_is_not_known(rest, word);
    }
}

/// A dictionary holds exactly the words of its entries, and tells the spelling of and what is
/// known of the entry that a word in any casing stands for.
pub proof fn a_dictionary_tells_what_it_holds(dict: &MutableDictionary, word: Seq<char>, k: int)
    requires
        0 <= k < dict@.len(),
    ensures
        dict.has_word(dict@[k].word),
        (forall|j: int| 0 <= j < dict@.len() ==> (#[trigger] dict@[j]).word != word)
            ==> !dict.has_word(word),
        lower_each(dict@[k].word) == lower_each(word) && (forall|j: int|
            0 <= j < k ==> lower_each((#[trigger] dict@[j]).word) != lower_each(word))
            ==> dict.capitalization(word) == Some(dict@[k].word) && dict.metadata(word) == Some(
            dict@[k].metadata,
        ),
{
    assert(entry_words(dict@)[k] == dict@[k].word);
    if dict.has_word(word) {
        let j = choose|j: int| 0 <= j < dict@.len() && entry_words(dict@)[j] == word;
        assert(dict@[j].word == word);
    }
    if lower_each(dict@[k].word) == lower_each(word) && (forall|j: int|
        0 <= j < k ==> lower_each((#[trigger] dict@[j]).word) != lower_each(word)) {
        a_word_in_any_casing_is_the_first_one_held(dict@, word, k);
    }
}

/// Every word that starts with a prefix, the prefix itself included, is found for it, at the
/// place that counts the matching words held before it, unless as many as the limit are. Only
/// held words that start with the prefix are found, and no more than the limit.
pub proof fn held_words_are_found_by_their_prefix(
    dict: &MutableDictionary,
    prefix: Seq<char>,
    limit: nat,
    k: int,
)
    requires
        0 <= k < dict@.len(),
        prefix.len() <= dict@[k].word.len(),
        forall|i: int| 0 <= i < prefix.len() ==> #[trigger] dict@[k].word[i] == prefix[i],
    ensures
        ({
            let before = entry_words(dict@).take(k).filter(
                |w: Seq<char>|
                    prefix.len() <= w.len() && w.subrange(0, prefix.len() as int) == prefix,
            ).len() as int;
            let found = dict.words_with_prefix(prefix, limit);
            before < limit ==> before < found.len() && found[before] == dict@[k].word
        }),
        dict.words_with_prefix(prefix, limit).len() <= limit,
        forall|i: int|
            0 <= i < dict.words_with_prefix(prefix, limit).len() ==> dict.has_word(
                #[trigger] dict.words_with_prefix(prefix, limit)[i],
            ) && prefix.len() <= dict.words_with_prefix(prefix, limit)[i].len()
                && dict.words_with_prefix(prefix, limit)[i].subrange(0, prefix.len() as int)
                == prefix,
{
    let words = entry_words(dict@);
    assert(words[k] == dict@[k].word);
    every_entry_is_a_match(words, prefix, k);
    let all = entries_with_prefix(words, prefix);
    let found = dict.words_with_prefix(prefix, limit);
    assert forall|i: int| 0 <= i < found.len() implies dict.has_word(#[trigger] found[i])
        && prefix.len() <= found[i].len() && found[i].subrange(0, prefix.len() as int)
        == prefix by {
        assert(found[i] == all[i]);
        matches_begin_with_the_prefix(words, prefix, i);
    }
}

/// Every word within the asked number of edits is found, unless as many as the limit are found
/// that are as near or nearer; only such words are found.
pub proof fn held_words_are_found_by_their_distance(
    dict: &MutableDictionary,
    typed: Seq<char>,
    max_distance: u8,
    limit: nat,
    word: Seq<char>,
    i: int,
)
    ensures
        ({
            let lower = lower_each(typed);
            let edits = edit_count(typed, word, typed.len(), word.len());
            let lower_edits = edit_count(lower, word, lower.len(), word.len());
            let found = dict.near_words(typed, max_distance, limit);
            let nearest = |w: Seq<char>|
                smaller(
                    edit_count(typed, w, typed.len(), w.len()),
                    edit_count(lower, w, lower.len(), w.len()),
                );
            &&& dict.has_word(word) && word.len() > 0 && (edits <= max_distance || lower_edits
                <= max_distance) ==> found.contains(word) || found.len() == limit && (0 <= i < limit
                ==> nearest(found[i]) <= nearest(word))
            &&& found.contains(word) ==> dict.has_word(word) && word.len() > 0 && (edits
                <= max_distance || lower_edits <= max_distance)
            &&& found.len() <= limit
        }),
{
    let all = words_within_distance(dict@, typed, max_distance as nat);
    let found = dict.near_words(typed, max_distance, limit);
    near_words_are_the_nearest(dict@, typed, max_distance as nat, word, 0, 0);
    if found.contains(word) {
        let k = choose|k: int| 0 <= k < found.len() && found[k] == word;
        assert(all[k] == word);
    }
    if all.contains(word) {
        let k = choose|k: int| 0 <= k < all.len() && all[k] == word;
        if k < found.len() {
            assert(found[k] == word);
        } else if 0 <= i < limit {
            assert(found[i] == all[i]);
            near_words_are_the_nearest(dict@, typed, max_distance as nat, word, i, k);
        }
    }
}

/// The dictionary of a language and a list holds the words of both; what is known of a word of
/// the language is kept, whatever the list holds.
pub proof fn a_list_adds_words_and_changes_none(
    entries: Seq<WordEntry>,
    words: Seq<Seq<char>>,
    entry: WordEntry,
    k: int,
)
    ensures
        entries.contains(entry) ==> with_plain_words(entries, words).contains(entry),
        0 <= k < words.len() ==> entry_words(with_plain_words(entries, words)).contains(words[k]),
        with_plain_words(entries, words).contains(entry) && !entries.contains(entry)
            ==> words.contains(entry.word) && !entry.metadata.common,
    decreases words.len(),
{
    if words.len() > 0 {
        let few = words.drop_last();
        let word = words.last();
        let earlier = with_plain_words(entries, few);
        let all = with_plain_words(entries, words);
        a_list_adds_words_and_changes_none(entries, few, entry, k);
        added_words_are_held(earlier, plain_entry(word), entry);
        let held = entry_words(earlier).contains(word);
        if !held {
            assert forall|j: int| 0 <= j < earlier.len() implies (#[trigger] earlier[j]).word
                != word by {
                assert(entry_words(earlier)[j] == earlier[j].word);
            }
            assert(all == earlier.push(plain_entry(word)));
            assert(all[earlier.len() as int] == plain_entry(word));
            assert(entry_words(all)[earlier.len() as int] == word);
        }
        if entries.contains(entry) {
            let j = choose|j: int| 0 <= j < earlier.len() && earlier[j] == entry;
            assert(all[j] == entry);
        }
        if 0 <= k < few.len() {
            assert(few[k] == words[k]);
            let j = choose|j: int|
                0 <= j < entry_words(earlier).len() && entry_words(earlier)[j] == words[k];
            assert(entry_words(all)[j] == words[k]);
        }
        if all.contains(entry) && !entries.contains(entry) {
            let j = choose|j: int| 0 <= j < all.len() && all[j] == entry;
            if j < earlier.len() {
                assert(earlier[j] == entry);
                let i = choose|i: int| 0 <= i < few.len() && few[i] == entry.word;
                assert(words[i] == entry.word);
            } else {
                assert(words[words.len() - 1] == entry.word);
            }
        }
    }
}

} // verus!
