use harper_ls::pos_conv::{
    index_to_position, line_content_end, position_to_index, position_to_index_in_line,
    range_to_span, span_to_range, LineIndex, Position, Range, Span,
};

fn at(line: u32, character: u32) -> Position {
    Position { line, character }
}

#[test]
fn first_line_correct() {
    let source: Vec<_> = "Hello there.".chars().collect();

    let start = Position {
        line: 0,
        character: 4,
    };

    let i = position_to_index(&source, start);

    assert_eq!(i, 4);

    let p = index_to_position(&source, i);

    assert_eq!(p, start)
}

#[test]
fn reversible_position_conv() {
    let source: Vec<_> = "There was a man,\n his voice had timbre,\n unlike a boy."
        .chars()
        .collect();

    let a = Position {
        line: 1,
        character: 2,
    };

    let b = position_to_index(&source, a);

    assert_eq!(b, 19);

    let c = index_to_position(&source, b);

    let d = position_to_index(&source, a);

    assert_eq!(a, c);
    assert_eq!(b, d);
}

#[test]
fn end_of_line() {
    let source: Vec<_> = "This is a short test\n".chars().collect();

    let a = Position {
        line: 0,
        character: 20,
    };

    assert_eq!(position_to_index(&source, a), 20);
}

#[test]
fn end_of_file() {
    let source: Vec<_> = "This is a short test".chars().collect();

    let a = Position {
        line: 0,
        character: 19,
    };

    assert_eq!(position_to_index(&source, a), 19);
}

#[test]
fn issue_250() {
    let source: Vec<_> = "Hello thur\n".chars().collect();

    let range = Range {
        start: Position {
            line: 0,
            character: 9,
        },
        end: Position {
            line: 0,
            character: 10,
        },
    };

    let out = range_to_span(&source, range);
    assert_eq!(out.start, 9);
    assert_eq!(out.end, 10);
}

/// Ensures that `position_to_index` does not produce an incorrect index of 0 for an input
/// `Position` of `{ line: 1, character: 0 }`.
#[test]
fn pos_to_index_correct_for_l1_c0() {
    let source: Vec<_> = ". one two three four five six seven eight nine ten eleven twelve thirteen fourteen fifteen sixteen seventeen eighteen nineteen twenty twenty-one twenty-two twenty-three twenty-four twenty-five twenty-six twenty-seven twenty-eight twenty-nine thirty thirty-one\n".chars().collect();
    let position = Position {
        line: 1,
        character: 0,
    };

    let out_index = position_to_index(&source, position);
    assert_ne!(out_index, 0);
}

/// Ensures `position_to_index` produces the correct result when indexing line 0 character 0.
#[test]
fn pos_to_index_off_by_one_check_l0_c0() {
    let source: Vec<_> = "abc\ndef\nghi\njkl".chars().collect();
    let position = Position {
        line: 0,
        character: 0,
    };

    let out_index = position_to_index(&source, position);
    assert_eq!(source[out_index], 'a');
}

/// Ensures `position_to_index` produces the correct result when indexing a non-zero line and
/// character.
#[test]
fn pos_to_index_off_by_one_check_l2_c1() {
    let source: Vec<_> = "abc\ndef\nghi\njkl".chars().collect();
    let position = Position {
        line: 2,
        character: 1,
    };

    let out_index = position_to_index(&source, position);
    assert_eq!(source[out_index], 'h');
}

/// Ensures `position_to_index` produces an index of 0 when indexing line 0 character 0 of
/// a source that contains only a newline (`\n`).
#[test]
fn pos_to_index_newline_only_l0_c0() {
    let source: Vec<_> = "\n".chars().collect();
    let position = Position {
        line: 0,
        character: 0,
    };

    let out_index = position_to_index(&source, position);
    assert_eq!(out_index, 0);
}

/// Ensures `position_to_index` produces the last character index when indexing an out of
/// bounds line in a source that contains only newlines (`\n`).
#[test]
fn pos_to_index_newlines_only_l7_c0() {
    let source: Vec<_> = "\n\n\n".chars().collect();
    let position = Position {
        line: 7,
        character: 0,
    };

    let out_index = position_to_index(&source, position);
    assert_eq!(out_index, 2);
}

/// Ensures `position_to_index` gives the last character of the line when indexing an out of
/// bounds character.
#[test]
fn pos_to_index_out_of_bounds_char() {
    let source: Vec<_> = "abc\ndef\nghi\njkl".chars().collect();
    let position = Position {
        line: 3, // "jkl"
        character: 8,
    };

    let out_index = position_to_index(&source, position);
    assert_eq!(source[out_index], 'l');
}

#[test]
fn line_index_position_to_index_uses_utf16_columns() {
    let source: Vec<_> = "😀 pred".chars().collect();
    let line_index = LineIndex::new(&source);
    let position = Position {
        line: 0,
        character: 7,
    };

    let out_index = line_index.position_to_index(&source, position);

    assert_eq!(out_index, source.len());
}

#[test]
fn line_index_position_after_non_bmp_character() {
    let source: Vec<_> = "a😀b".chars().collect();
    let line_index = LineIndex::new(&source);
    let position = Position {
        line: 0,
        character: 3,
    };

    let out_index = line_index.position_to_index(&source, position);

    assert_eq!(source[out_index], 'b');
}

#[test]
fn position_to_index_uses_utf16_columns() {
    let source: Vec<_> = "a😀b".chars().collect();
    let position = Position {
        line: 0,
        character: 3,
    };

    let out_index = position_to_index(&source, position);

    assert_eq!(source[out_index], 'b');
}

#[test]
fn every_index_survives_the_round_trip() {
    for text in ["", "\n", "one\ntwo\n", "a😀b\n\n😀\nend", "no line feed"] {
        let source: Vec<_> = text.chars().collect();
        let line_index = LineIndex::new(&source);
        for index in 0..=source.len() {
            let position = line_index.index_to_position(&source, index);
            assert_eq!(line_index.position_to_index(&source, position), index);
            assert_eq!(index_to_position(&source, index), position);
        }
    }
}

#[test]
fn a_position_within_a_surrogate_pair_leads_to_its_character() {
    let source: Vec<_> = "a😀b".chars().collect();
    let line_index = LineIndex::new(&source);

    assert_eq!(line_index.position_to_index(&source, at(0, 2)), 1);
    assert_eq!(line_index.index_to_position(&source, 1), at(0, 1));
}

#[test]
fn a_span_survives_the_round_trip() {
    let source: Vec<_> = "one 😀\ntwo three".chars().collect();
    let line_index = LineIndex::new(&source);
    let span = Span::new(4, 9);
    let range = line_index.span_to_range(&source, span);

    assert_eq!(range, Range { start: at(0, 4), end: at(1, 3) });
    assert_eq!(span_to_range(&source, span), range);
    assert_eq!(line_index.range_to_span(&source, range), span);
    assert_eq!(range_to_span(&source, range), span);
}

#[test]
fn bounds_are_told_apart() {
    let source: Vec<_> = "abc\ndef".chars().collect();
    let line_index = LineIndex::new(&source);

    assert!(!line_index.is_position_out_of_bounds(&source, at(0, 3)));
    assert!(line_index.is_position_out_of_bounds(&source, at(0, 4)));
    assert!(!line_index.is_position_out_of_bounds(&source, at(1, 3)));
    assert!(line_index.is_position_out_of_bounds(&source, at(1, 4)));
    assert!(line_index.is_position_out_of_bounds(&source, at(2, 0)));
}

#[test]
fn out_of_bounds_lines_lead_to_the_last_character() {
    let source: Vec<_> = "abc\ndef".chars().collect();
    assert_eq!(position_to_index(&source, at(9, 1)), 6);
    assert_eq!(position_to_index(&source, at(0, 99)), 3);
    assert_eq!(position_to_index(&[], at(5, 5)), 0);
}

#[test]
fn an_empty_index_maps_everything_to_the_first_line() {
    let source: Vec<_> = "ab\ncd".chars().collect();
    let line_index = LineIndex::default();

    assert_eq!(line_index.index_to_position(&source, 4), at(0, 4));
    assert_eq!(line_index.position_to_index(&source, at(0, 0)), 4);
    assert_eq!(line_index.clone().index_to_position(&source, 1), at(0, 1));
}

#[test]
fn a_line_ends_before_its_line_feed() {
    let source: Vec<_> = "ab\ncd".chars().collect();
    assert_eq!(line_content_end(&source, 0, 3), 2);
    assert_eq!(line_content_end(&source, 3, 5), 5);
    assert_eq!(position_to_index_in_line(&source, 0, 3, 2), 2);
    assert_eq!(position_to_index_in_line(&source, 0, 3, 7), 2);
    assert_eq!(position_to_index_in_line(&source, 3, 5, 7), 4);
}

#[test]
fn an_index_of_a_longer_text_serves_the_lines_that_are_left() {
    let longer: Vec<_> = "ab\ncd\nef".chars().collect();
    let source: Vec<_> = "ab\ncd\n".chars().collect();
    let shorter: Vec<_> = "ab\nc".chars().collect();
    let line_index = LineIndex::new(&longer);

    assert_eq!(line_index.position_to_index(&source, at(1, 1)), 4);
    assert_eq!(line_index.position_to_index(&shorter, at(0, 1)), 1);
    assert_eq!(line_index.index_to_position(&shorter, 4), at(1, 1));
    assert_eq!(line_index.position_to_index(&shorter, at(9, 0)), 3);
    assert!(!line_index.is_position_out_of_bounds(&shorter, at(0, 2)));
}
