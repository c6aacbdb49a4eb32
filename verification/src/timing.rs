//! A stopwatch that records how long each stage of a run has taken.

use std::time::Duration;
use std::time::Instant;
use vstd::prelude::*;
use vstd::string::*;

verus! {

/// `std::time::Instant`, a reading of the monotonic clock. What it holds is
/// opaque to the proofs.
#[verifier::external_type_specification]
#[verifier::external_body]
pub struct ExInstant(Instant);

/// `Instant::now` reads the clock. Nothing is claimed of the reading.
pub assume_specification[ Instant::now ]() -> (now: Instant);

/// `Clone::clone` for `Instant` copies the reading. Nothing is claimed of the
/// copy.
pub assume_specification[ <Instant as Clone>::clone ](instant: &Instant) -> (copy: Instant);

/// `Instant::duration_since` gives the time from `earlier` to `later`, and
/// zero where `earlier` is the later one. Nothing is claimed of the
/// duration.
pub assume_specification[ Instant::duration_since ](later: &Instant, earlier: Instant) -> (elapsed:
    Duration);

/// `Duration::as_millis` gives the whole milliseconds in the duration.
/// Nothing is claimed of their number.
pub assume_specification[ Duration::as_millis ](duration: &Duration) -> (milliseconds: u128);

/// One stage of a run and the time that it took.
#[derive(Debug, Clone)]
pub struct Event {
    /// The name of the stage.
    pub label: String,
    /// The whole milliseconds that the stage took.
    pub milliseconds: u128,
}

impl View for Event {
    type V = (Seq<char>, u128);

    /// The label's text and the milliseconds.
    open spec fn view(&self) -> (Seq<char>, u128) {
        (self.label@, self.milliseconds)
    }
}

/// Measures the stages of a run, one after another.
#[derive(Debug, Clone)]
pub struct Stopwatch {
    start: Instant,
    last: Instant,
    events: Vec<Event>,
}

impl View for Stopwatch {
    type V = Seq<(Seq<char>, u128)>;

    /// The stages recorded so far, oldest first. The two readings of the
    /// clock that the stopwatch holds are `started` and `last_reading`.
    closed spec fn view(&self) -> Seq<(Seq<char>, u128)> {
        self.events@.map_values(|e: Event| e@)
    }
}

impl Stopwatch {
    /// The reading of the clock at which the stopwatch was started.
    pub closed spec fn started(&self) -> Instant {
        self.start
    }

    /// The reading of the clock at which the last stage ended, and that of
    /// the start where no stage has ended.
    pub closed spec fn last_reading(&self) -> Instant {
        self.last
    }

    /// A stopwatch started now, with no stage recorded.
    pub fn new() -> (watch: Stopwatch)
        ensures
            watch@ == Seq::<(Seq<char>, u128)>::empty(),
            watch.last_reading() == watch.started(),
    {
        let now: Instant = Instant::now();
        let watch = Stopwatch { start: now, last: now, events: Vec::new() };
        assert(watch@ =~= Seq::<(Seq<char>, u128)>::empty());
        watch
    }

    /// Ends a stage: records it under `label` with the milliseconds since
    /// the stage before it ended, or since the start, and returns them.
    pub fn tick(&mut self, label: &str) -> (elapsed: u128)
        ensures
            final(self)@ == old(self)@.push((label@, elapsed)),
            final(self).started() == old(self).started(),
    {
        let now: Instant = Instant::now();
        let elapsed: u128 = now.duration_since(self.last).as_millis();
        self.last = now;
        let event = Event { label: String::from_str(label), milliseconds: elapsed };
        self.events.push(event);
        assert(self@ =~= old(self)@.push((label@, elapsed)));
        elapsed
    }

    /// The stages recorded so far, oldest first.
    pub fn events(&self) -> (events: &[Event])
        ensures
            events@.map_values(|e: Event| e@) == self@,
    {
        self.events.as_slice()
    }

    /// The milliseconds since the stopwatch was started.
    pub fn total_ms(&self) -> (milliseconds: u128) {
        Instant::now().duration_since(self.start).as_millis()
    }
}

} // verus!
