//! Keyboard-aware edit distance for words typed on a phone touchscreen.

use vstd::prelude::*;
use crate::chars::{lower_first, lowercase_char, ascii_lower, is_ascii_char};

verus! {

/// Cost scale used by keyboard-aware edit distance helpers.
pub const KEYBOARD_DISTANCE_SCALE: u16 = 100;

/// Cost for inserting or deleting one character.
pub const INSERT_DELETE_COST: u16 = KEYBOARD_DISTANCE_SCALE;

/// Cost for swapping two adjacent characters.
pub const ADJACENT_TRANSPOSITION_COST: u16 = 50;

pub const MIN_SUBSTITUTION_COST: u16 = 60;

pub const MAX_SUBSTITUTION_COST: u16 = 260;

/// Number of cost units between the cheapest and the dearest substitution.
pub const SUBSTITUTION_STEPS: u64 = 200;

/// The key distance that is charged with the full substitution cost, in millionths of a key.
pub const MAX_KEY_DISTANCE_MILLIONTHS: u64 = 8902247;

/// Millionths in one key, times the number of cost units that the full distance is worth.
pub const MILLIONTH_STEPS: u64 = 200000000;

/// A point on the keyboard in half keys: the column from the left edge, the row from the top.
pub type KeyPoint = (u8, u8);

/// Where a lowercase letter sits on the staggered phone QWERTY layout, in half keys.
///
/// Row 0: Q W E R T Y U I O P
/// Row 1:  A S D F G H J K L
/// Row 2:    Z X C V B N M
pub open spec fn key_point(key: char) -> Option<KeyPoint> {
    match key {
        'q' => Some((0u8, 0u8)),
        'w' => Some((2u8, 0u8)),
        'e' => Some((4u8, 0u8)),
        'r' => Some((6u8, 0u8)),
        't' => Some((8u8, 0u8)),
        'y' => Some((10u8, 0u8)),
        'u' => Some((12u8, 0u8)),
        'i' => Some((14u8, 0u8)),
        'o' => Some((16u8, 0u8)),
        'p' => Some((18u8, 0u8)),
        'a' => Some((1u8, 2u8)),
        's' => Some((3u8, 2u8)),
        'd' => Some((5u8, 2u8)),
        'f' => Some((7u8, 2u8)),
        'g' => Some((9u8, 2u8)),
        'h' => Some((11u8, 2u8)),
        'j' => Some((13u8, 2u8)),
        'k' => Some((15u8, 2u8)),
        'l' => Some((17u8, 2u8)),
        'z' => Some((3u8, 4u8)),
        'x' => Some((5u8, 4u8)),
        'c' => Some((7u8, 4u8)),
        'v' => Some((9u8, 4u8)),
        'b' => Some((11u8, 4u8)),
        'n' => Some((13u8, 4u8)),
        'm' => Some((15u8, 4u8)),
        _ => None,
    }
}

/// The square of the distance between two points, in half keys.
pub open spec fn squared_distance(a: KeyPoint, b: KeyPoint) -> nat {
    ((a.0 - b.0) * (a.0 - b.0) + (a.1 - b.1) * (a.1 - b.1)) as nat
}

/// Whether a key distance, given by its square in half keys, is at least `step - 1/2` cost units.
///
/// The distance is worth `200 * (sqrt(squared) / 2) / 8.902247` cost units; both sides of the
/// comparison are multiplied by `2 * 8902247` and squared, which leaves integers only.
pub open spec fn reaches_step(squared: nat, step: nat) -> bool {
    ((2 * step - 1) * MAX_KEY_DISTANCE_MILLIONTHS) * ((2 * step - 1) * MAX_KEY_DISTANCE_MILLIONTHS)
        <= MILLIONTH_STEPS * MILLIONTH_STEPS * squared
}

/// The largest step up to `limit` that the distance reaches.
pub open spec fn last_step_reached(squared: nat, limit: nat) -> nat
    decreases limit,
{
    if limit == 0 || reaches_step(squared, limit) {
        limit
    } else {
        last_step_reached(squared, (limit - 1) as nat)
    }
}

/// A key distance in whole cost units: rounded to the nearest one, and never over the maximum.
pub open spec fn distance_steps(squared: nat) -> nat {
    last_step_reached(squared, SUBSTITUTION_STEPS as nat)
}

/// The cost of replacing one character by another.
///
/// Characters on the same key cost nothing. Two letters cost the more the further their keys are
/// apart. Where one of the two is no letter of the layout the cost is the highest.
pub open spec fn substitution_cost(from: char, to: char) -> nat {
    if lower_first(from) == lower_first(to) {
        0
    } else {
        match (key_point(lower_first(from)), key_point(lower_first(to))) {
            (Some(a), Some(b)) => MIN_SUBSTITUTION_COST as nat + distance_steps(
                squared_distance(a, b),
            ),
            _ => MAX_SUBSTITUTION_COST as nat,
        }
    }
}

/// Where the key of a character sits, in half keys; `None` where the layout has no such key.
pub fn phone_qwerty_coord(c: char) -> (r: Option<KeyPoint>)
    ensures
        r == key_point(lower_first(c)),
{
    match normalized_key(c) {
        'q' => Some((0, 0)),
        'w' => Some((2, 0)),
        'e' => Some((4, 0)),
        'r' => Some((6, 0)),
        't' => Some((8, 0)),
        'y' => Some((10, 0)),
        'u' => Some((12, 0)),
        'i' => Some((14, 0)),
        'o' => Some((16, 0)),
        'p' => Some((18, 0)),
        'a' => Some((1, 2)),
        's' => Some((3, 2)),
        'd' => Some((5, 2)),
        'f' => Some((7, 2)),
        'g' => Some((9, 2)),
        'h' => Some((11, 2)),
        'j' => Some((13, 2)),
        'k' => Some((15, 2)),
        'l' => Some((17, 2)),
        'z' => Some((3, 4)),
        'x' => Some((5, 4)),
        'c' => Some((7, 4)),
        'v' => Some((9, 4)),
        'b' => Some((11, 4)),
        'n' => Some((13, 4)),
        'm' => Some((15, 4)),
        _ => None,
    }
}

/// The key that a character is typed with: its lowercase form.
pub fn normalized_key(c: char) -> (r: char)
    ensures
        r == lower_first(c),
        is_ascii_char(c) ==> r == ascii_lower(c),
{
    lowercase_char(c)
}

/// Whether two characters are typed with the same key.
pub fn chars_equal(a: char, b: char) -> (r: bool)
    ensures
        r == (lower_first(a) == lower_first(b)),
        is_ascii_char(a) && is_ascii_char(b) ==> r == (ascii_lower(a) == ascii_lower(b)),
{
    normalized_key(a) == normalized_key(b)
}

/// Points of the layout lie in the first 18 half columns and the first 4 half rows.
proof fn key_point_bounds(key: char)
    ensures
        key_point(key) matches Some(p) ==> p.0 <= 18 && p.1 <= 4,
{
}

/// The difference of two small numbers.
fn gap(a: u8, b: u8) -> (r: u64)
    ensures
        r == if a >= b { a - b } else { b - a },
{
    if a >= b {
        (a - b) as u64
    } else {
        (b - a) as u64
    }
}

proof fn squares_of_gap(a: int, b: int)
    ensures
        (b - a) * (b - a) == (a - b) * (a - b),
        0 <= (a - b) * (a - b),
        0 <= a <= 18 && 0 <= b <= 18 ==> (a - b) * (a - b) <= 324,
        0 <= a <= 4 && 0 <= b <= 4 ==> (a - b) * (a - b) <= 16,
{
    assert((b - a) * (b - a) == (a - b) * (a - b)) by (nonlinear_arith);
    assert(0 <= (a - b) * (a - b)) by (nonlinear_arith);
    assert(0 <= a <= 18 && 0 <= b <= 18 ==> (a - b) * (a - b) <= 324) by (nonlinear_arith);
    assert(0 <= a <= 4 && 0 <= b <= 4 ==> (a - b) * (a - b) <= 16) by (nonlinear_arith);
}

/// Rounds a key distance, given by its square in half keys, to whole cost units.
fn round_to_steps(squared: u64) -> (r: u16)
    requires
        squared <= 340,
    ensures
        r == distance_steps(squared as nat),
        r <= 200,
{
    let mut step: u64 = SUBSTITUTION_STEPS;
    let reached: u64 = 40000000000000000 * squared;
    while step > 0
        invariant
            step <= SUBSTITUTION_STEPS,
            squared <= 340,
            reached == 40000000000000000 * squared,
            distance_steps(squared as nat) == last_step_reached(squared as nat, step as nat),
        decreases step,
    {
        let boundary: u64 = (2 * step - 1) * MAX_KEY_DISTANCE_MILLIONTHS;
        assert(boundary * boundary <= 13000000000000000000) by (nonlinear_arith)
            requires
                0 <= boundary <= 399 * 8902247,
        ;
        if boundary * boundary <= reached {
            assert(reaches_step(squared as nat, step as nat));
            return step as u16;
        }
        assert(!reaches_step(squared as nat, step as nat));
        step -= 1;
    }
    0
}

/// Cost of replacing `from` with `to` in a keyboard-aware edit distance.
pub fn keyboard_substitution_cost(from: char, to: char) -> (cost: u16)
    ensures
        cost == substitution_cost(from, to),
        cost <= MAX_SUBSTITUTION_COST,
{
    if chars_equal(from, to) {
        return 0;
    }
    match (phone_qwerty_coord(from), phone_qwerty_coord(to)) {
        (Some(a), Some(b)) => {
            proof {
                key_point_bounds(lower_first(from));
                key_point_bounds(lower_first(to));
                squares_of_gap(a.0 as int, b.0 as int);
                squares_of_gap(a.1 as int, b.1 as int);
            }
            let dx = gap(a.0, b.0);
            let dy = gap(a.1, b.1);
            MIN_SUBSTITUTION_COST + round_to_steps(dx * dx + dy * dy)
        },
        _ => MAX_SUBSTITUTION_COST,
    }
}

/// The smaller of two numbers.
pub open spec fn least(a: nat, b: nat) -> nat {
    if a <= b {
        a
    } else {
        b
    }
}

/// A cost as it is reported: the highest value of the cost type stands for all beyond it.
pub open spec fn capped(cost: nat) -> nat {
    least(cost, u16::MAX as nat)
}

/// Whether the last two of the first `i` and of the first `j` characters are each other's swap.
pub open spec fn ends_in_swap(query: Seq<char>, candidate: Seq<char>, i: nat, j: nat) -> bool {
    &&& i > 1
    &&& j > 1
    &&& lower_first(query[i - 1]) == lower_first(candidate[j - 2])
    &&& lower_first(query[i - 2]) == lower_first(candidate[j - 1])
}

/// The weighted optimal-string-alignment distance between the first `i` characters of `query`
/// and the first `j` characters of `candidate`.
pub open spec fn alignment_distance(
    query: Seq<char>,
    candidate: Seq<char>,
    i: nat,
    j: nat,
) -> nat
    decreases i + j,
{
    if i == 0 {
        j * INSERT_DELETE_COST as nat
    } else if j == 0 {
        i * INSERT_DELETE_COST as nat
    } else {
        let deletion = alignment_distance(query, candidate, (i - 1) as nat, j)
            + INSERT_DELETE_COST as nat;
        let insertion = alignment_distance(query, candidate, i, (j - 1) as nat)
            + INSERT_DELETE_COST as nat;
        let substitution = alignment_distance(query, candidate, (i - 1) as nat, (j - 1) as nat)
            + substitution_cost(query[i - 1], candidate[j - 1]);
        let best = least(least(deletion, insertion), substitution);
        if ends_in_swap(query, candidate, i, j) {
            least(
                best,
                alignment_distance(query, candidate, (i - 2) as nat, (j - 2) as nat)
                    + ADJACENT_TRANSPOSITION_COST as nat,
            )
        } else {
            best
        }
    }
}

/// The weighted distance between two words.
pub open spec fn word_distance(query: Seq<char>, candidate: Seq<char>) -> nat {
    alignment_distance(query, candidate, query.len(), candidate.len())
}

/// Whether `row` holds the distances of the first `i` characters of `query` to every prefix of
/// `candidate` shorter than `row`.
spec fn is_distance_row(query: Seq<char>, candidate: Seq<char>, i: nat, row: Seq<u16>) -> bool {
    forall|j: int|
        0 <= j < row.len() ==> #[trigger] row[j] == capped(
            alignment_distance(query, candidate, i, j as nat),
        )
}

/// The distances of the empty text to every prefix of `candidate`.
fn first_distance_row(query: &[char], candidate: &[char]) -> (row: Vec<u16>)
    ensures
        row@.len() == candidate@.len() + 1,
        is_distance_row(query@, candidate@, 0, row@),
{
    let mut row: Vec<u16> = Vec::new();
    row.push(0);
    let mut j: usize = 0;
    while j < candidate.len()
        invariant
            j <= candidate.len(),
            row@.len() == j + 1,
            is_distance_row(query@, candidate@, 0, row@),
        decreases candidate.len() - j,
    {
        let shorter: u16 = row[j];
        row.push(shorter.saturating_add(INSERT_DELETE_COST));
        j += 1;
    }
    row
}

/// The distances of the first `i + 1` characters of `query` to every prefix of `candidate`.
fn next_distance_row(
    query: &[char],
    candidate: &[char],
    i: usize,
    before: &Vec<u16>,
    above: &Vec<u16>,
) -> (row: Vec<u16>)
    requires
        i < query@.len(),
        above@.len() == candidate@.len() + 1,
        is_distance_row(query@, candidate@, i as nat, above@),
        i > 0 ==> before@.len() == candidate@.len() + 1 && is_distance_row(
            query@,
            candidate@,
            (i - 1) as nat,
            before@,
        ),
    ensures
        row@.len() == candidate@.len() + 1,
        is_distance_row(query@, candidate@, i as nat + 1, row@),
{
    let mut row: Vec<u16> = Vec::new();
    let first: u16 = above[0];
    row.push(first.saturating_add(INSERT_DELETE_COST));
    proof {
        assert(first == capped(alignment_distance(query@, candidate@, i as nat, 0)));
        assert(alignment_distance(query@, candidate@, i as nat, 0) == i * INSERT_DELETE_COST);
        assert(alignment_distance(query@, candidate@, i as nat + 1, 0) == (i + 1)
            * INSERT_DELETE_COST);
    }
    let mut j: usize = 0;
    while j < candidate.len()
        invariant
            i < query@.len(),
            j <= candidate.len(),
            row@.len() == j + 1,
            above@.len() == candidate@.len() + 1,
            is_distance_row(query@, candidate@, i as nat, above@),
            i > 0 ==> before@.len() == candidate@.len() + 1 && is_distance_row(
                query@,
                candidate@,
                (i - 1) as nat,
                before@,
            ),
            is_distance_row(query@, candidate@, i as nat + 1, row@),
        decreases candidate.len() - j,
    {
        let deletion: u16 = above[j + 1].saturating_add(INSERT_DELETE_COST);
        let insertion: u16 = row[j].saturating_add(INSERT_DELETE_COST);
        let substitution: u16 = above[j].saturating_add(
            keyboard_substitution_cost(query[i], candidate[j]),
        );
        let mut best: u16 = deletion;
        if insertion < best {
            best = insertion;
        }
        if substitution < best {
            best = substitution;
        }
        if i > 0 && j > 0 && chars_equal(query[i], candidate[j - 1]) && chars_equal(
            query[i - 1],
            candidate[j],
        ) {
            let swap: u16 = before[j - 1].saturating_add(ADJACENT_TRANSPOSITION_COST);
            if swap < best {
                best = swap;
            }
        }
        row.push(best);
        j += 1;
    }
    row
}

/// Calculate a weighted optimal-string-alignment Damerau distance.
///
/// Insertions and deletions have a fixed cost, substitutions are weighted by phone-key
/// proximity, and adjacent transpositions are cheaper than delete+insert.
pub fn weighted_damerau_distance(query: &[char], candidate: &[char]) -> (distance: u16)
    ensures
        distance == capped(word_distance(query@, candidate@)),
{
    let mut before: Vec<u16> = Vec::new();
    let mut above = first_distance_row(query, candidate);
    let mut i: usize = 0;
    while i < query.len()
        invariant
            i <= query.len(),
            above@.len() == candidate@.len() + 1,
            is_distance_row(query@, candidate@, i as nat, above@),
            i > 0 ==> before@.len() == candidate@.len() + 1 && is_distance_row(
                query@,
                candidate@,
                (i - 1) as nat,
                before@,
            ),
        decreases query.len() - i,
    {
        let row = next_distance_row(query, candidate, i, &before, &above);
        before = above;
        above = row;
        i += 1;
    }
    above[candidate.len()]
}

/// One edit on the way from a typed word to a candidate, at the end of what is compared.
pub enum Edit {
    /// Drop the last character of the typed word.
    Delete,
    /// Append the last character of the candidate.
    Insert,
    /// Put the last character of the candidate in the place of that of the typed word.
    Replace,
    /// Swap the last two characters of the typed word.
    Swap,
}

/// What an edit script that turns the first `i` characters of `query` into the first `j` of
/// `candidate` costs in all; `None` where it does not fit the two.
pub open spec fn script_cost(
    query: Seq<char>,
    candidate: Seq<char>,
    i: nat,
    j: nat,
    script: Seq<Edit>,
) -> Option<nat>
    decreases script.len(),
{
    if script.len() == 0 {
        if i == 0 && j == 0 {
            Some(0)
        } else {
            None
        }
    } else {
        let (fits, rest, cost) = match script.last() {
            Edit::Delete => (
                i > 0,
                script_cost(query, candidate, (i - 1) as nat, j, script.drop_last()),
                INSERT_DELETE_COST as nat,
            ),
            Edit::Insert => (
                j > 0,
                script_cost(query, candidate, i, (j - 1) as nat, script.drop_last()),
                INSERT_DELETE_COST as nat,
            ),
            Edit::Replace => (
                i > 0 && j > 0,
                script_cost(query, candidate, (i - 1) as nat, (j - 1) as nat, script.drop_last()),
                substitution_cost(query[i - 1], candidate[j - 1]),
            ),
            Edit::Swap => (
                ends_in_swap(query, candidate, i, j),
                script_cost(query, candidate, (i - 2) as nat, (j - 2) as nat, script.drop_last()),
                ADJACENT_TRANSPOSITION_COST as nat,
            ),
        };
        match rest {
            Some(total) if fits => Some(total + cost),
            _ => None,
        }
    }
}

proof fn script_costs_at_least_the_distance(
    query: Seq<char>,
    candidate: Seq<char>,
    i: nat,
    j: nat,
    script: Seq<Edit>,
)
    ensures
        script_cost(query, candidate, i, j, script) matches Some(total) ==> alignment_distance(
            query,
            candidate,
            i,
            j,
        ) <= total,
    decreases script.len(),
{
    if script.len() > 0 {
        let rest = script.drop_last();
        if i > 0 {
            script_costs_at_least_the_distance(query, candidate, (i - 1) as nat, j, rest);
        }
        if j > 0 {
            script_costs_at_least_the_distance(query, candidate, i, (j - 1) as nat, rest);
        }
        if i > 0 && j > 0 {
            script_costs_at_least_the_distance(
                query,
                candidate,
                (i - 1) as nat,
                (j - 1) as nat,
                rest,
            );
        }
        if i > 1 && j > 1 {
            script_costs_at_least_the_distance(
                query,
                candidate,
                (i - 2) as nat,
                (j - 2) as nat,
                rest,
            );
        }
    }
}

proof fn some_script_costs_the_distance(
    query: Seq<char>,
    candidate: Seq<char>,
    i: nat,
    j: nat,
) -> (script: Seq<Edit>)
    ensures
        script_cost(query, candidate, i, j, script) == Some(
            alignment_distance(query, candidate, i, j),
        ),
    decreases i + j,
{
    if i == 0 && j == 0 {
        Seq::empty()
    } else if i == 0 {
        let rest = some_script_costs_the_distance(query, candidate, i, (j - 1) as nat);
        let script = rest.push(Edit::Insert);
        assert(script.drop_last() == rest);
        script
    } else if j == 0 {
        let rest = some_script_costs_the_distance(query, candidate, (i - 1) as nat, j);
        let script = rest.push(Edit::Delete);
        assert(script.drop_last() == rest);
        script
    } else {
        let total = alignment_distance(query, candidate, i, j);
        if total == alignment_distance(query, candidate, (i - 1) as nat, j) + INSERT_DELETE_COST {
            let rest = some_script_costs_the_distance(query, candidate, (i - 1) as nat, j);
            let script = rest.push(Edit::Delete);
            assert(script.drop_last() == rest);
            script
        } else if total == alignment_distance(query, candidate, i, (j - 1) as nat)
            + INSERT_DELETE_COST {
            let rest = some_script_costs_the_distance(query, candidate, i, (j - 1) as nat);
            let script = rest.push(Edit::Insert);
            assert(script.drop_last() == rest);
            script
        } else if total == alignment_distance(query, candidate, (i - 1) as nat, (j - 1) as nat)
            + substitution_cost(query[i - 1], candidate[j - 1]) {
            let rest = some_script_costs_the_distance(
                query,
                candidate,
                (i - 1) as nat,
                (j - 1) as nat,
            );
            let script = rest.push(Edit::Replace);
            assert(script.drop_last() == rest);
            script
        } else {
            let rest = some_script_costs_the_distance(
                query,
                candidate,
                (i - 2) as nat,
                (j - 2) as nat,
            );
            let script = rest.push(Edit::Swap);
            assert(script.drop_last() == rest);
            script
        }
    }
}

/// The distance of two words is the cost of the cheapest edit script from one to the other: no
/// script is cheaper, and one costs exactly that.
pub proof fn distance_is_the_cheapest_script(query: Seq<char>, candidate: Seq<char>)
    ensures
        forall|script: Seq<Edit>|
            #[trigger] script_cost(query, candidate, query.len(), candidate.len(), script) matches Some(
                total,
            ) ==> word_distance(query, candidate) <= total,
        exists|script: Seq<Edit>|
            #[trigger] script_cost(query, candidate, query.len(), candidate.len(), script) == Some(
                word_distance(query, candidate),
            ),
{
    assert forall|script: Seq<Edit>|
        #[trigger] script_cost(query, candidate, query.len(), candidate.len(), script) matches Some(
            total,
        ) implies word_distance(query, candidate) <= script_cost(
        query,
        candidate,
        query.len(),
        candidate.len(),
        script,
    )->0 by {
        script_costs_at_least_the_distance(query, candidate, query.len(), candidate.len(), script);
    }
    let script = some_script_costs_the_distance(query, candidate, query.len(), candidate.len());
    assert(script_cost(query, candidate, query.len(), candidate.len(), script) == Some(
        word_distance(query, candidate),
    ));
}

/// A substitution costs the same in both directions.
pub proof fn substitution_cost_is_symmetric(a: char, b: char)
    ensures
        substitution_cost(a, b) == substitution_cost(b, a),
{
    if let (Some(p), Some(q)) = (key_point(lower_first(a)), key_point(lower_first(b))) {
        squares_of_gap(p.0 as int, q.0 as int);
        squares_of_gap(p.1 as int, q.1 as int);
    }
}

/// Characters that share no key cost at least 60 and at most 260 to replace, and those that
/// share one cost nothing.
pub proof fn substitution_cost_bounds(a: char, b: char)
    ensures
        substitution_cost(a, b) == 0 <==> lower_first(a) == lower_first(b),
        lower_first(a) != lower_first(b) ==> MIN_SUBSTITUTION_COST <= substitution_cost(a, b)
            <= MAX_SUBSTITUTION_COST,
{
    if let (Some(p), Some(q)) = (key_point(lower_first(a)), key_point(lower_first(b))) {
        last_step_is_at_most(squared_distance(p, q), SUBSTITUTION_STEPS as nat);
    }
}

proof fn last_step_is_at_most(squared: nat, limit: nat)
    ensures
        last_step_reached(squared, limit) <= limit,
    decreases limit,
{
    if limit > 0 {
        last_step_is_at_most(squared, (limit - 1) as nat);
    }
}

proof fn last_step_grows(near: nat, far: nat, limit: nat)
    requires
        near <= far,
    ensures
        last_step_reached(near, limit) <= last_step_reached(far, limit),
    decreases limit,
{
    last_step_is_at_most(near, limit);
    if limit > 0 {
        last_step_grows(near, far, (limit - 1) as nat);
        let boundary = (2 * limit - 1) * MAX_KEY_DISTANCE_MILLIONTHS;
        assert(MILLIONTH_STEPS * MILLIONTH_STEPS * near <= MILLIONTH_STEPS * MILLIONTH_STEPS * far)
            by (nonlinear_arith)
            requires
                near <= far,
        ;
    }
}

/// A key nearby is never dearer to substitute than a key further away.
pub proof fn nearer_keys_cost_no_more(typed: char, near: char, far: char)
    requires
        key_point(lower_first(typed)) is Some,
        key_point(lower_first(near)) is Some,
        key_point(lower_first(far)) is Some,
        lower_first(typed) != lower_first(far),
        squared_distance(
            key_point(lower_first(typed))->0,
            key_point(lower_first(near))->0,
        ) <= squared_distance(key_point(lower_first(typed))->0, key_point(lower_first(far))->0),
    ensures
        substitution_cost(typed, near) <= substitution_cost(typed, far),
{
    last_step_grows(
        squared_distance(key_point(lower_first(typed))->0, key_point(lower_first(near))->0),
        squared_distance(key_point(lower_first(typed))->0, key_point(lower_first(far))->0),
        SUBSTITUTION_STEPS as nat,
    );
}

/// A character that the layout does not have costs the most to substitute.
pub proof fn unplaced_characters_cost_the_most(a: char, b: char)
    requires
        lower_first(a) != lower_first(b),
        key_point(lower_first(a)) is None || key_point(lower_first(b)) is None,
    ensures
        substitution_cost(a, b) == MAX_SUBSTITUTION_COST,
{
}

proof fn alignment_distance_symmetric(a: Seq<char>, b: Seq<char>, i: nat, j: nat)
    ensures
        alignment_distance(a, b, i, j) == alignment_distance(b, a, j, i),
    decreases i + j,
{
    if i > 0 && j > 0 {
        alignment_distance_symmetric(a, b, (i - 1) as nat, j);
        alignment_distance_symmetric(a, b, i, (j - 1) as nat);
        alignment_distance_symmetric(a, b, (i - 1) as nat, (j - 1) as nat);
        substitution_cost_is_symmetric(a[i - 1], b[j - 1]);
        if i > 1 && j > 1 {
            alignment_distance_symmetric(a, b, (i - 2) as nat, (j - 2) as nat);
        }
    }
}

/// Two words are as far from each other in one direction as in the other.
pub proof fn distance_is_symmetric(a: Seq<char>, b: Seq<char>)
    ensures
        word_distance(a, b) == word_distance(b, a),
{
    alignment_distance_symmetric(a, b, a.len(), b.len());
}

proof fn alignment_distance_zero(a: Seq<char>, b: Seq<char>, i: nat, j: nat)
    requires
        i <= a.len(),
        j <= b.len(),
    ensures
        alignment_distance(a, b, i, j) == 0 <==> (i == j && forall|k: int|
            0 <= k < i ==> lower_first(#[trigger] a[k]) == lower_first(b[k])),
    decreases i + j,
{
    if i > 0 && j > 0 {
        alignment_distance_zero(a, b, (i - 1) as nat, (j - 1) as nat);
        substitution_cost_bounds(a[i - 1], b[j - 1]);
    }
}

/// Only words typed with the same keys are at distance zero.
pub proof fn distance_is_zero_for_the_same_keys(a: Seq<char>, b: Seq<char>)
    ensures
        word_distance(a, b) == 0 <==> (a.len() == b.len() && forall|k: int|
            0 <= k < a.len() ==> lower_first(#[trigger] a[k]) == lower_first(b[k])),
{
    alignment_distance_zero(a, b, a.len(), b.len());
}

proof fn same_keys_align_for_free(a: Seq<char>, b: Seq<char>, i: nat, j: nat, n: nat)
    requires
        i + n <= a.len(),
        j + n <= b.len(),
        forall|k: int|
            0 <= k < n ==> lower_first(#[trigger] a[i + k]) == lower_first(b[j + k]),
    ensures
        alignment_distance(a, b, i + n, j + n) <= alignment_distance(a, b, i, j),
    decreases n,
{
    if n > 0 {
        let m = (n - 1) as nat;
        same_keys_align_for_free(a, b, i, j, m);
        assert(lower_first(a[i + m as int]) == lower_first(b[j + m as int]));
    }
}

proof fn distance_covers_the_lengths(a: Seq<char>, b: Seq<char>, i: nat, j: nat)
    ensures
        alignment_distance(a, b, i, j) >= INSERT_DELETE_COST * (i - j),
        alignment_distance(a, b, i, j) >= INSERT_DELETE_COST * (j - i),
    decreases i + j,
{
    if i > 0 && j > 0 {
        distance_covers_the_lengths(a, b, (i - 1) as nat, j);
        distance_covers_the_lengths(a, b, i, (j - 1) as nat);
        distance_covers_the_lengths(a, b, (i - 1) as nat, (j - 1) as nat);
        if i > 1 && j > 1 {
            distance_covers_the_lengths(a, b, (i - 2) as nat, (j - 2) as nat);
        }
    }
}

/// One character too few or too many costs one insertion or deletion, wherever it stands: the
/// rest of the word stays aligned.
pub proof fn one_extra_character_costs_one_insertion(word: Seq<char>, at: int, extra: char)
    requires
        0 <= at <= word.len(),
    ensures
        word_distance(word, word.insert(at, extra)) == INSERT_DELETE_COST,
        word_distance(word.insert(at, extra), word) == INSERT_DELETE_COST,
{
    let longer = word.insert(at, extra);
    let k = at as nat;
    let n = (word.len() - k) as nat;
    same_keys_align_for_free(word, longer, 0, 0, k);
    assert forall|t: int| 0 <= t < n implies lower_first(#[trigger] word[k + t]) == lower_first(
        longer[k + 1 + t],
    ) by {}
    same_keys_align_for_free(word, longer, k, k + 1, n);
    assert(alignment_distance(word, longer, k, k + 1) <= INSERT_DELETE_COST);
    distance_covers_the_lengths(word, longer, word.len(), longer.len());
    distance_is_symmetric(word, longer);
}

proof fn distance_is_zero_or_a_swap(a: Seq<char>, b: Seq<char>, i: nat, j: nat)
    ensures
        alignment_distance(a, b, i, j) == 0 || alignment_distance(a, b, i, j)
            >= ADJACENT_TRANSPOSITION_COST,
    decreases i + j,
{
    if i > 0 && j > 0 {
        distance_is_zero_or_a_swap(a, b, (i - 1) as nat, (j - 1) as nat);
        substitution_cost_bounds(a[i - 1], b[j - 1]);
    }
}

/// Two neighbouring characters in the wrong order cost one transposition, which is less than
/// deleting and inserting one of them.
pub proof fn one_swap_costs_one_transposition(word: Seq<char>, at: int)
    requires
        0 <= at,
        at + 1 < word.len(),
        lower_first(word[at]) != lower_first(word[at + 1]),
    ensures
        word_distance(word, word.update(at, word[at + 1]).update(at + 1, word[at]))
            == ADJACENT_TRANSPOSITION_COST,
        ADJACENT_TRANSPOSITION_COST < 2 * INSERT_DELETE_COST,
{
    let swapped = word.update(at, word[at + 1]).update(at + 1, word[at]);
    let k = at as nat;
    let n = (word.len() - k - 2) as nat;
    same_keys_align_for_free(word, swapped, 0, 0, k);
    assert(ends_in_swap(word, swapped, k + 2, k + 2));
    assert(alignment_distance(word, swapped, k + 2, k + 2) <= ADJACENT_TRANSPOSITION_COST);
    assert forall|t: int| 0 <= t < n implies lower_first(#[trigger] word[k + 2 + t])
        == lower_first(swapped[k + 2 + t]) by {}
    same_keys_align_for_free(word, swapped, k + 2, k + 2, n);
    distance_is_zero_or_a_swap(word, swapped, word.len(), swapped.len());
    distance_is_zero_for_the_same_keys(word, swapped);
    assert(swapped[at] == word[at + 1]);
}

proof fn distance_reads_the_prefixes(
    a: Seq<char>,
    b: Seq<char>,
    c: Seq<char>,
    d: Seq<char>,
    i: nat,
    j: nat,
)
    requires
        i <= a.len(),
        i <= c.len(),
        j <= b.len(),
        j <= d.len(),
        forall|k: int| 0 <= k < i ==> #[trigger] a[k] == c[k],
        forall|k: int| 0 <= k < j ==> #[trigger] b[k] == d[k],
    ensures
        alignment_distance(a, b, i, j) == alignment_distance(c, d, i, j),
    decreases i + j,
{
    if i > 0 && j > 0 {
        distance_reads_the_prefixes(a, b, c, d, (i - 1) as nat, j);
        distance_reads_the_prefixes(a, b, c, d, i, (j - 1) as nat);
        distance_reads_the_prefixes(a, b, c, d, (i - 1) as nat, (j - 1) as nat);
        assert(a[i - 1] == c[i - 1] && b[j - 1] == d[j - 1]);
        if i > 1 && j > 1 {
            assert(a[i - 2] == c[i - 2] && b[j - 2] == d[j - 2]);
            distance_reads_the_prefixes(a, b, c, d, (i - 2) as nat, (j - 2) as nat);
        }
    }
}

/// Each way to deal with the last characters of two words bounds their distance: to drop or add
/// one for 100, to put one in the place of the other, or, where the last two are each other's
/// swap, to swap them for 50. One of these ways is the distance.
pub proof fn the_last_edit_makes_up_the_distance(a: Seq<char>, b: Seq<char>)
    requires
        a.len() > 0,
        b.len() > 0,
    ensures
        ({
            let all = word_distance(a, b);
            let deletion = word_distance(a.drop_last(), b) + 100;
            let insertion = word_distance(a, b.drop_last()) + 100;
            let substitution = word_distance(a.drop_last(), b.drop_last()) + substitution_cost(
                a.last(),
                b.last(),
            );
            let swaps = a.len() >= 2 && b.len() >= 2 && lower_first(a.last()) == lower_first(
                b[b.len() - 2],
            ) && lower_first(a[a.len() - 2]) == lower_first(b.last());
            let swap = word_distance(a.drop_last().drop_last(), b.drop_last().drop_last()) + 50;
            &&& all <= deletion
            &&& all <= insertion
            &&& all <= substitution
            &&& swaps ==> all <= swap
            &&& all == deletion || all == insertion || all == substitution || swaps && all == swap
        }),
{
    let i = a.len();
    let j = b.len();
    distance_reads_the_prefixes(a, b, a.drop_last(), b, (i - 1) as nat, j);
    distance_reads_the_prefixes(a, b, a, b.drop_last(), i, (j - 1) as nat);
    distance_reads_the_prefixes(a, b, a.drop_last(), b.drop_last(), (i - 1) as nat, (j - 1) as nat);
    if i > 1 && j > 1 {
        distance_reads_the_prefixes(
            a,
            b,
            a.drop_last().drop_last(),
            b.drop_last().drop_last(),
            (i - 2) as nat,
            (j - 2) as nat,
        );
    }
}

/// All characters of a word must be added or dropped where the other word has none.
pub proof fn a_word_is_its_length_away_from_nothing(word: Seq<char>)
    ensures
        word_distance(word, Seq::empty()) == 100 * word.len(),
        word_distance(Seq::empty(), word) == 100 * word.len(),
{
}

/// The keys stand in three rows, a key apart from each other; the middle row is half a key and
/// the lower row one and a half keys to the right of the upper one. No other key is placed.
pub proof fn keys_stand_in_three_rows(key: char)
    ensures
        forall|i: int|
            0 <= i < 10 ==> key_point(#[trigger] "qwertyuiop"@[i]) == Some(((2 * i) as u8, 0u8)),
        forall|i: int|
            0 <= i < 9 ==> key_point(#[trigger] "asdfghjkl"@[i]) == Some(((2 * i + 1) as u8, 2u8)),
        forall|i: int|
            0 <= i < 7 ==> key_point(#[trigger] "zxcvbnm"@[i]) == Some(((2 * i + 3) as u8, 4u8)),
        key_point(key) is Some ==> 'a' <= key && key <= 'z',
{
    reveal_strlit("qwertyuiop");
    reveal_strlit("asdfghjkl");
    reveal_strlit("zxcvbnm");
}

/// Two different keys cost 60, and 200 more for the greatest distance in proportion to theirs,
/// rounded to the nearest whole number, but never more than 260.
pub proof fn substitution_costs_are_rounded_distances(from: char, to: char, x: int, y: int)
    requires
        lower_first(from) != lower_first(to),
        key_point(lower_first(from)) matches Some(p) && key_point(lower_first(to)) matches Some(q)
            && x == p.0 - q.0 && y == p.1 - q.1,
    ensures
        ({
            let steps = substitution_cost(from, to) - 60;
            let reach = 200_000_000 * 200_000_000 * (x * x + y * y);
            &&& 0 <= steps <= 200
            &&& steps > 0 ==> (2 * steps - 1) * 8902247 * ((2 * steps - 1) * 8902247) <= reach
            &&& steps < 200 ==> (2 * steps + 1) * 8902247 * ((2 * steps + 1) * 8902247) > reach
        }),
{
    let p = key_point(lower_first(from))->0;
    let q = key_point(lower_first(to))->0;
    let squared = squared_distance(p, q);
    assert(x * x + y * y >= 0) by (nonlinear_arith);
    assert(squared == x * x + y * y);
    last_step_is_the_last(squared, 200);
}

proof fn last_step_is_the_last(squared: nat, limit: nat)
    ensures
        ({
            let step = last_step_reached(squared, limit);
            &&& step <= limit
            &&& step > 0 ==> reaches_step(squared, step)
            &&& step < limit ==> !reaches_step(squared, step + 1)
        }),
    decreases limit,
{
    if limit > 0 && !reaches_step(squared, limit) {
        last_step_is_the_last(squared, (limit - 1) as nat);
    }
}

} // verus!
