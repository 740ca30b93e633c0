//! Which changes of documents are under way, and which still wait for their problems to be
//! published.

use vstd::prelude::*;
use vstd::hash_map::StringHashMap;

verus! {

/// How long after a change the misspelled words are refreshed, in milliseconds.
pub const MISSPELLED_REFRESH_DEBOUNCE_MS: u64 = 75;

/// How long after a change the problems are published, in milliseconds.
pub const DIAGNOSTICS_PUBLISH_DEBOUNCE_MS: u64 = 300;

/// How long a completion request waits at a time for a change to be taken over.
pub const IN_FLIGHT_WAIT_MS: u64 = 250;

/// How often it waits.
pub const IN_FLIGHT_WAIT_ROUNDS: u8 = 3;

/// The changes of each document that matter: the one that is being taken over, and the last one
/// whose problems are still to be published. Changes are told apart by numbers.
pub struct ChangeTracker {
    in_flight: StringHashMap<u64>,
    pending: StringHashMap<u64>,
}

/// A [`ChangeTracker`] in mathematical terms.
#[verifier::ext_equal]
pub struct TrackerView {
    pub in_flight: Map<Seq<char>, u64>,
    pub pending: Map<Seq<char>, u64>,
}

impl TrackerView {
    /// The tracker when a change begins to be taken over.
    pub open spec fn begun(self, uri: Seq<char>, change: u64) -> TrackerView {
        TrackerView { in_flight: self.in_flight.insert(uri, change), ..self }
    }

    /// Whether a change is the one that is being taken over.
    pub open spec fn is_in_flight(self, uri: Seq<char>, change: u64) -> bool {
        self.in_flight.contains_key(uri) && self.in_flight[uri] == change
    }

    /// The tracker when a change was taken over, unless a newer one has begun.
    pub open spec fn finished(self, uri: Seq<char>, change: u64) -> TrackerView {
        if self.is_in_flight(uri, change) {
            TrackerView { in_flight: self.in_flight.remove(uri), ..self }
        } else {
            self
        }
    }

    /// The tracker when a change waits for its problems to be published.
    pub open spec fn recorded(self, uri: Seq<char>, change: u64) -> TrackerView {
        TrackerView { pending: self.pending.insert(uri, change), ..self }
    }

    /// Whether a change is the last one whose problems are still to be published.
    pub open spec fn is_latest(self, uri: Seq<char>, change: u64) -> bool {
        self.pending.contains_key(uri) && self.pending[uri] == change
    }

    /// The tracker when the problems of a change were published, unless a newer one has come in.
    pub open spec fn settled(self, uri: Seq<char>, change: u64) -> TrackerView {
        if self.is_latest(uri, change) {
            TrackerView { pending: self.pending.remove(uri), ..self }
        } else {
            self
        }
    }

    /// The tracker when a document was closed.
    pub open spec fn closed_document(self, uri: Seq<char>) -> TrackerView {
        TrackerView { in_flight: self.in_flight.remove(uri), pending: self.pending.remove(uri) }
    }
}

/// The value of a key, if it has one.
pub open spec fn lookup(map: Map<Seq<char>, u64>, key: Seq<char>) -> Option<u64> {
    if map.contains_key(key) {
        Some(map[key])
    } else {
        None
    }
}

impl View for ChangeTracker {
    type V = TrackerView;

    closed spec fn view(&self) -> TrackerView {
        TrackerView { in_flight: self.in_flight@, pending: self.pending@ }
    }
}

impl Default for ChangeTracker {
    /// A tracker that knows of no change.
    fn default() -> (tracker: Self)
        ensures
            tracker@.in_flight == Map::<Seq<char>, u64>::empty(),
            tracker@.pending == Map::<Seq<char>, u64>::empty(),
    {
        ChangeTracker { in_flight: StringHashMap::new(), pending: StringHashMap::new() }
    }
}

impl ChangeTracker {
    /// The change of a document that is being taken over, which completion requests wait for.
    pub fn in_flight(&self, uri: &str) -> (change: Option<u64>)
        ensures
            change == lookup(self@.in_flight, uri@),
    {
        match self.in_flight.get(uri) {
            Some(change) => Some(*change),
            None => None,
        }
    }

    /// A change begins to be taken over; returns the one that it supersedes, whose waiters are
    /// to be woken.
    pub fn begin_change(&mut self, uri: &str, change: u64) -> (superseded: Option<u64>)
        ensures
            final(self)@ == old(self)@.begun(uri@, change),
            superseded == lookup(old(self)@.in_flight, uri@),
    {
        let superseded = self.in_flight(uri);
        self.in_flight.insert(uri.to_owned(), change);
        superseded
    }

    /// A change was taken over; returns whether its waiters are to be woken, which is not so
    /// where a newer change has begun.
    pub fn finish_change(&mut self, uri: &str, change: u64) -> (wake: bool)
        ensures
            final(self)@ == old(self)@.finished(uri@, change),
            wake == old(self)@.is_in_flight(uri@, change),
    {
        let wake = match self.in_flight(uri) {
            Some(current) => current == change,
            None => false,
        };
        if wake {
            self.in_flight.remove(uri);
        }
        wake
    }

    /// A change waits for its problems to be published.
    pub fn record_change(&mut self, uri: &str, change: u64)
        ensures
            final(self)@ == old(self)@.recorded(uri@, change),
    {
        self.pending.insert(uri.to_owned(), change);
    }

    /// Whether a change is the last one whose problems are still to be published.
    pub fn is_latest(&self, uri: &str, change: u64) -> (r: bool)
        ensures
            r == self@.is_latest(uri@, change),
    {
        match self.pending.get(uri) {
            Some(latest) => *latest == change,
            None => false,
        }
    }

    /// The problems of a change were published.
    pub fn settle(&mut self, uri: &str, change: u64)
        ensures
            final(self)@ == old(self)@.settled(uri@, change),
    {
        if self.is_latest(uri, change) {
            self.pending.remove(uri);
        }
    }

    /// A document was closed; returns the change of it that was being taken over, whose waiters
    /// are to be woken.
    pub fn close_document(&mut self, uri: &str) -> (interrupted: Option<u64>)
        ensures
            final(self)@ == old(self)@.closed_document(uri@),
            interrupted == lookup(old(self)@.in_flight, uri@),
    {
        let interrupted = self.in_flight(uri);
        self.pending.remove(uri);
        self.in_flight.remove(uri);
        interrupted
    }
}

/// What a completion request does next.
#[derive(Debug, Clone, Copy, PartialEq, Eq, Structural)]
pub enum WaitAction {
    /// It waits for the change under way, at most so many milliseconds.
    Wait(u64),
    /// It is answered.
    Proceed,
}

/// Decides whether a completion request that has waited some rounds waits for another one.
pub fn next_wait(rounds: u8, is_in_flight: bool) -> (action: WaitAction)
    ensures
        action == if rounds < IN_FLIGHT_WAIT_ROUNDS && is_in_flight {
            WaitAction::Wait(IN_FLIGHT_WAIT_MS)
        } else {
            WaitAction::Proceed
        },
{
    if rounds < IN_FLIGHT_WAIT_ROUNDS && is_in_flight {
        WaitAction::Wait(IN_FLIGHT_WAIT_MS)
    } else {
        WaitAction::Proceed
    }
}

/// Counts a round of waiting; when the wait was in vain no other round follows.
pub fn after_wait(rounds: u8, was_woken: bool) -> (r: u8)
    requires
        rounds < IN_FLIGHT_WAIT_ROUNDS,
    ensures
        r == rounds_after(rounds, was_woken),
        r <= IN_FLIGHT_WAIT_ROUNDS,
{
    if was_woken {
        rounds + 1
    } else {
        IN_FLIGHT_WAIT_ROUNDS
    }
}

/// How many rounds count as waited after one more.
pub open spec fn rounds_after(rounds: u8, was_woken: bool) -> u8 {
    if was_woken {
        (rounds + 1) as u8
    } else {
        IN_FLIGHT_WAIT_ROUNDS
    }
}

/// How many rounds a completion request waits that has waited `rounds` already, when in round
/// `i` a change is under way as `in_flight[i]` says and the wait ends as `woken[i]` says.
pub open spec fn rounds_waited(rounds: u8, in_flight: Seq<bool>, woken: Seq<bool>) -> nat
    decreases in_flight.len(),
{
    if in_flight.len() == 0 || rounds >= IN_FLIGHT_WAIT_ROUNDS || !in_flight[0] {
        0
    } else {
        1 + rounds_waited(
            rounds_after(rounds, woken[0]),
            in_flight.drop_first(),
            woken.drop_first(),
        )
    }
}

/// A completion request is answered after at most three waits, however many changes come in.
pub proof fn requests_wait_three_rounds_at_most(in_flight: Seq<bool>, woken: Seq<bool>)
    ensures
        rounds_waited(0, in_flight, woken) <= IN_FLIGHT_WAIT_ROUNDS,
{
    later_rounds_are_fewer(0, in_flight, woken);
}

proof fn later_rounds_are_fewer(rounds: u8, in_flight: Seq<bool>, woken: Seq<bool>)
    requires
        rounds <= IN_FLIGHT_WAIT_ROUNDS,
    ensures
        rounds_waited(rounds, in_flight, woken) <= IN_FLIGHT_WAIT_ROUNDS - rounds,
    decreases in_flight.len(),
{
    if in_flight.len() > 0 && rounds < IN_FLIGHT_WAIT_ROUNDS && in_flight[0] {
        later_rounds_are_fewer(
            rounds_after(rounds, woken[0]),
            in_flight.drop_first(),
            woken.drop_first(),
        );
    }
}

/// What is done next for a change whose problems are to be published.
#[derive(Debug, Clone, Copy, PartialEq, Eq, Structural)]
pub enum DebounceStep {
    /// Time passes.
    WaitToRefresh,
    /// The misspelled words are refreshed.
    Refresh,
    /// More time passes.
    WaitToPublish,
    /// The problems are published.
    Publish,
    /// The change waits no longer.
    Settle,
    /// Nothing is left to do.
    Done,
}

/// The step after another, which after a wait depends on whether the change is still the latest.
pub open spec fn step_after(step: DebounceStep, is_latest: bool) -> DebounceStep {
    match step {
        DebounceStep::WaitToRefresh => if is_latest {
            DebounceStep::Refresh
        } else {
            DebounceStep::Done
        },
        DebounceStep::Refresh => DebounceStep::WaitToPublish,
        DebounceStep::WaitToPublish => if is_latest {
            DebounceStep::Publish
        } else {
            DebounceStep::Done
        },
        DebounceStep::Publish => DebounceStep::Settle,
        DebounceStep::Settle => DebounceStep::Done,
        DebounceStep::Done => DebounceStep::Done,
    }
}

/// Decides what is done after a step. A change that a newer one has superseded is dropped at the
/// end of either wait.
pub fn next_debounce_step(step: DebounceStep, is_latest: bool) -> (next: DebounceStep)
    ensures
        next == step_after(step, is_latest),
{
    match step {
        DebounceStep::WaitToRefresh => if is_latest {
            DebounceStep::Refresh
        } else {
            DebounceStep::Done
        },
        DebounceStep::Refresh => DebounceStep::WaitToPublish,
        DebounceStep::WaitToPublish => if is_latest {
            DebounceStep::Publish
        } else {
            DebounceStep::Done
        },
        DebounceStep::Publish => DebounceStep::Settle,
        DebounceStep::Settle => DebounceStep::Done,
        DebounceStep::Done => DebounceStep::Done,
    }
}

/// How long a step lasts, in milliseconds.
pub open spec fn step_wait(step: DebounceStep) -> nat {
    match step {
        DebounceStep::WaitToRefresh => MISSPELLED_REFRESH_DEBOUNCE_MS as nat,
        DebounceStep::WaitToPublish => (DIAGNOSTICS_PUBLISH_DEBOUNCE_MS
            - MISSPELLED_REFRESH_DEBOUNCE_MS) as nat,
        _ => 0,
    }
}

/// How long to wait in a step, in milliseconds.
pub fn debounce_wait_ms(step: DebounceStep) -> (ms: u64)
    ensures
        ms == step_wait(step),
{
    match step {
        DebounceStep::WaitToRefresh => MISSPELLED_REFRESH_DEBOUNCE_MS,
        DebounceStep::WaitToPublish => DIAGNOSTICS_PUBLISH_DEBOUNCE_MS
            - MISSPELLED_REFRESH_DEBOUNCE_MS,
        _ => 0,
    }
}

/// The step at which a change arrives when at the end of step `i` it is the latest one as
/// `latest[i]` says.
pub open spec fn step_reached(latest: Seq<bool>) -> DebounceStep
    decreases latest.len(),
{
    if latest.len() == 0 {
        DebounceStep::WaitToRefresh
    } else {
        step_after(step_reached(latest.drop_last()), latest.last())
    }
}

/// The problems of a change are published only when it was the latest at the end of both waits,
/// and then after the full delay.
pub proof fn only_the_latest_change_is_published(latest: Seq<bool>)
    ensures
        step_reached(latest) == DebounceStep::Publish ==> {
            &&& latest.len() == 3
            &&& latest[0]
            &&& latest[2]
            &&& step_wait(step_reached(latest.take(0))) + step_wait(step_reached(latest.take(1)))
                + step_wait(step_reached(latest.take(2))) == DIAGNOSTICS_PUBLISH_DEBOUNCE_MS
        },
        latest.len() > 0 && !latest[0] ==> step_reached(latest) == DebounceStep::Done,
        latest.len() >= 5 ==> step_reached(latest) == DebounceStep::Done,
    decreases latest.len(),
{
    reveal_with_fuel(step_reached, 6);
    if latest.len() > 0 {
        let earlier = latest.drop_last();
        only_the_latest_change_is_published(earlier);
        if latest.len() <= 5 {
            assert(latest.take(0) =~= Seq::<bool>::empty());
            if latest.len() >= 1 {
                assert(latest.take(1).drop_last() =~= Seq::<bool>::empty());
            }
            if latest.len() >= 2 {
                assert(latest.take(2).drop_last() =~= latest.take(1));
            }
            if latest.len() >= 3 {
                assert(latest.take(3).drop_last() =~= latest.take(2));
            }
            if latest.len() >= 4 {
                assert(latest.take(4).drop_last() =~= latest.take(3));
            }
            if latest.len() >= 5 {
                assert(latest.take(5).drop_last() =~= latest.take(4));
            }
            assert(latest.take(latest.len() as int) =~= latest);
        }
    }
}

/// A change that was begun and finished leaves no trace, unless a newer one has begun in
/// between: that one stays under way.
pub proof fn finished_changes_leave_newer_ones(
    tracker: TrackerView,
    uri: Seq<char>,
    change: u64,
    newer: u64,
)
    requires
        change != newer,
    ensures
        !tracker.begun(uri, change).finished(uri, change).in_flight.contains_key(uri),
        tracker.begun(uri, change).begun(uri, newer).finished(uri, change).is_in_flight(uri, newer),
        forall|other: Seq<char>|
            other != uri ==> lookup(
                tracker.begun(uri, change).finished(uri, change).in_flight,
                other,
            ) == #[trigger] lookup(tracker.in_flight, other),
{
}

/// A change of a document supersedes all earlier ones: they are no longer the latest, and
/// settling them changes nothing.
pub proof fn newer_changes_supersede_older_ones(
    tracker: TrackerView,
    uri: Seq<char>,
    older: u64,
    newer: u64,
)
    requires
        older != newer,
    ensures
        tracker.recorded(uri, newer).is_latest(uri, newer),
        !tracker.recorded(uri, newer).is_latest(uri, older),
        tracker.recorded(uri, newer).settled(uri, older) == tracker.recorded(uri, newer),
        !tracker.recorded(uri, newer).settled(uri, newer).is_latest(uri, newer),
{
}

/// Nothing is published for a closed document, and no request waits for it.
pub proof fn closed_documents_are_forgotten(tracker: TrackerView, uri: Seq<char>, change: u64)
    ensures
        !tracker.closed_document(uri).is_latest(uri, change),
        lookup(tracker.closed_document(uri).in_flight, uri) is None,
{
}

/// The misspelled words of a change are refreshed after 75 milliseconds and its problems are
/// published after 300; a completion request waits 250 at a time, three times at most.
pub proof fn the_delays_are_fixed()
    ensures
        step_wait(step_reached(Seq::empty())) == 75,
        step_wait(step_reached(seq![true])) == 0,
        step_wait(step_reached(seq![true, true])) == 225,
        step_reached(seq![true]) == DebounceStep::Refresh,
        step_reached(seq![true, true, true]) == DebounceStep::Publish,
        step_reached(seq![true, true, true, true]) == DebounceStep::Settle,
        IN_FLIGHT_WAIT_MS == 250,
        IN_FLIGHT_WAIT_ROUNDS == 3,
{
    reveal_with_fuel(step_reached, 5);
    assert(seq![true].drop_last() =~= Seq::empty());
    assert(seq![true, true].drop_last() =~= seq![true]);
    assert(seq![true, true, true].drop_last() =~= seq![true, true]);
    assert(seq![true, true, true, true].drop_last() =~= seq![true, true, true]);
}

/// A wait that is not ended by a change being taken over is the last one, and each that is counts
/// once.
pub proof fn a_vain_wait_is_the_last(rounds: u8, in_flight: Seq<bool>, woken: Seq<bool>)
    requires
        rounds < 3,
        in_flight.len() > 0,
        woken.len() > 0,
        in_flight[0],
    ensures
        !woken[0] ==> rounds_waited(rounds, in_flight, woken) == 1,
        woken[0] ==> rounds_waited(rounds, in_flight, woken) == 1 + rounds_waited(
            (rounds + 1) as u8,
            in_flight.drop_first(),
            woken.drop_first(),
        ),
{
    assert(rounds_waited(3, in_flight.drop_first(), woken.drop_first()) == 0);
}

/// A change touches its own document alone, and of what waits to be published and what is being
/// taken over only the one that it is about.
pub proof fn other_documents_are_left_alone(
    tracker: TrackerView,
    uri: Seq<char>,
    other: Seq<char>,
    change: u64,
)
    requires
        uri != other,
    ensures
        lookup(tracker.begun(uri, change).in_flight, other) == lookup(tracker.in_flight, other),
        lookup(tracker.finished(uri, change).in_flight, other) == lookup(tracker.in_flight, other),
        lookup(tracker.recorded(uri, change).pending, other) == lookup(tracker.pending, other),
        lookup(tracker.settled(uri, change).pending, other) == lookup(tracker.pending, other),
        lookup(tracker.closed_document(uri).in_flight, other) == lookup(tracker.in_flight, other),
        lookup(tracker.closed_document(uri).pending, other) == lookup(tracker.pending, other),
        tracker.begun(uri, change).pending == tracker.pending,
        tracker.finished(uri, change).pending == tracker.pending,
        tracker.recorded(uri, change).in_flight == tracker.in_flight,
        tracker.settled(uri, change).in_flight == tracker.in_flight,
        lookup(tracker.begun(uri, change).in_flight, uri) == Some(change),
        lookup(tracker.recorded(uri, change).pending, uri) == Some(change),
        lookup(tracker.closed_document(uri).pending, uri) is None,
{
}

} // verus!
