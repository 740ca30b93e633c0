use harper_ls::keyboard_distance::{
    chars_equal, keyboard_substitution_cost, normalized_key, phone_qwerty_coord,
    weighted_damerau_distance, ADJACENT_TRANSPOSITION_COST, INSERT_DELETE_COST,
};

fn chars(s: &str) -> Vec<char> {
    s.chars().collect()
}

#[test]
fn nearby_substitution_beats_far_substitution() {
    assert!(
        keyboard_substitution_cost('g', 'h') < keyboard_substitution_cost('g', 'p'),
        "nearby key substitutions should cost less than distant substitutions"
    );
}

#[test]
fn transposition_beats_unrelated_two_edit_change() {
    assert!(
        weighted_damerau_distance(&chars("teh"), &chars("the"))
            < weighted_damerau_distance(&chars("teh"), &chars("toy")),
        "adjacent transposition should beat unrelated two-edit changes"
    );
}

#[test]
fn insertion_does_not_misalign_rest_of_word() {
    assert_eq!(
        weighted_damerau_distance(&chars("whie"), &chars("while")),
        INSERT_DELETE_COST
    );
}

#[test]
fn deletion_does_not_misalign_rest_of_word() {
    assert_eq!(
        weighted_damerau_distance(&chars("tthis"), &chars("this")),
        INSERT_DELETE_COST
    );
}

fn coord(c: char) -> Option<(f32, f32)> {
    match c.to_ascii_lowercase() {
        'q' => Some((0.0, 0.0)),
        'w' => Some((1.0, 0.0)),
        'e' => Some((2.0, 0.0)),
        'r' => Some((3.0, 0.0)),
        't' => Some((4.0, 0.0)),
        'y' => Some((5.0, 0.0)),
        'u' => Some((6.0, 0.0)),
        'i' => Some((7.0, 0.0)),
        'o' => Some((8.0, 0.0)),
        'p' => Some((9.0, 0.0)),
        'a' => Some((0.5, 1.0)),
        's' => Some((1.5, 1.0)),
        'd' => Some((2.5, 1.0)),
        'f' => Some((3.5, 1.0)),
        'g' => Some((4.5, 1.0)),
        'h' => Some((5.5, 1.0)),
        'j' => Some((6.5, 1.0)),
        'k' => Some((7.5, 1.0)),
        'l' => Some((8.5, 1.0)),
        'z' => Some((1.5, 2.0)),
        'x' => Some((2.5, 2.0)),
        'c' => Some((3.5, 2.0)),
        'v' => Some((4.5, 2.0)),
        'b' => Some((5.5, 2.0)),
        'n' => Some((6.5, 2.0)),
        'm' => Some((7.5, 2.0)),
        _ => None,
    }
}

/// The cost of a substitution in single precision, from the distance in keys.
fn single_precision_cost(from: char, to: char) -> u16 {
    if from.to_ascii_lowercase() == to.to_ascii_lowercase() {
        return 0;
    }
    let distance: f32 = match (coord(from), coord(to)) {
        (Some((x1, y1)), Some((x2, y2))) => {
            let dx = x1 - x2;
            let dy = y1 - y2;
            ((dx * dx + dy * dy).sqrt() / 8.902247).min(1.0)
        }
        _ => 1.0,
    };
    (60.0f32 + distance * 200.0f32).round() as u16
}

#[test]
fn substitution_costs_are_the_rounded_distances() {
    for from in 'A'..='z' {
        for to in 'A'..='z' {
            assert_eq!(
                keyboard_substitution_cost(from, to),
                single_precision_cost(from, to),
                "{from} to {to}"
            );
        }
    }
}

#[test]
fn keys_have_their_places() {
    for c in 'a'..='z' {
        let (x, y) = phone_qwerty_coord(c).unwrap();
        let (fx, fy) = coord(c).unwrap();
        assert_eq!((f32::from(x), f32::from(y)), (2.0 * fx, 2.0 * fy));
    }
    assert_eq!(phone_qwerty_coord('Q'), Some((0, 0)));
    assert_eq!(phone_qwerty_coord('1'), None);
}

#[test]
fn substitution_costs_have_exact_values() {
    assert_eq!(keyboard_substitution_cost('a', 'a'), 0);
    assert_eq!(keyboard_substitution_cost('a', 'A'), 0);
    assert_eq!(keyboard_substitution_cost('g', 'h'), 82);
    assert_eq!(keyboard_substitution_cost('q', 'p'), 260);
    assert_eq!(keyboard_substitution_cost('a', '1'), 260);
    assert_eq!(keyboard_substitution_cost('1', '1'), 0);
}

#[test]
fn keys_ignore_case_beyond_ascii() {
    assert_eq!(normalized_key('\u{c4}'), '\u{e4}');
    assert!(chars_equal('\u{c4}', '\u{e4}'));
    assert!(!chars_equal('a', '\u{e4}'));
    assert_eq!(keyboard_substitution_cost('\u{c4}', '\u{e4}'), 0);
}

#[test]
fn distance_is_symmetric_on_words() {
    for (a, b) in [("teh", "the"), ("whie", "while"), ("gello", "hello"), ("", "abc")] {
        assert_eq!(
            weighted_damerau_distance(&chars(a), &chars(b)),
            weighted_damerau_distance(&chars(b), &chars(a))
        );
    }
}

#[test]
fn distances_have_exact_values() {
    assert_eq!(weighted_damerau_distance(&[], &[]), 0);
    assert_eq!(weighted_damerau_distance(&chars("Word"), &chars("word")), 0);
    assert_eq!(weighted_damerau_distance(&[], &chars("abc")), 3 * INSERT_DELETE_COST);
    assert_eq!(
        weighted_damerau_distance(&chars("teh"), &chars("the")),
        ADJACENT_TRANSPOSITION_COST
    );
    assert_eq!(weighted_damerau_distance(&chars("gello"), &chars("hello")), 82);
}

#[test]
fn distance_stops_at_the_highest_cost() {
    let long = vec!['a'; 700];
    assert_eq!(weighted_damerau_distance(&[], &long), u16::MAX);
    assert_eq!(weighted_damerau_distance(&long, &[]), u16::MAX);
}
