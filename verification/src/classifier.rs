//! The debounce state machine: one `NEW` or `HOLD` event per key press.
//!
//! A press arrives as a report with counter `0`, followed by one report per
//! repeat while the key stays down.  The classifier keeps the latest report
//! of the press pending until the sequence ends, and then says whether the
//! key was tapped or held.  It never waits itself: its owner waits for the
//! next report, for the deadline or for a stop request, and hands in what
//! happened together with the reading of a monotonic clock, in nanoseconds.

use crate::event::{Event, EventView};
use vstd::prelude::*;

verus! {

/// A key that is down for longer than this, counted from its press, is held.
pub const HOLD_AFTER: u64 = 500_000_000;

/// How long the classifier waits for the next repeat before it decides.
pub const SETTLE: u64 = 100_000_000;

/// How often the idle classifier wakes up.
pub const HEARTBEAT: u64 = 1_000_000_000;

/// What the classifier is waiting for.
#[derive(Debug, PartialEq, Eq)]
pub enum State {
    /// No press is being followed.
    Idle,
    /// `event` is the latest report of a press that began at `since`.
    Pending { event: Event, since: u64 },
}

/// The mathematical value of a [`State`].
pub enum StateView {
    Idle,
    Pending { event: EventView, since: u64 },
}

impl View for State {
    type V = StateView;

    open spec fn view(&self) -> StateView {
        match *self {
            State::Idle => StateView::Idle,
            State::Pending { event, since } => StateView::Pending { event: event@, since },
        }
    }
}

/// What woke the classifier's owner.
#[derive(Debug, PartialEq, Eq)]
pub enum Input {
    /// The receiver reported a key.
    Report(Event),
    /// The deadline passed.
    Tick,
    /// Shutdown was requested.
    Stop,
    /// The source of reports is gone.
    Closed,
}

/// The mathematical value of an [`Input`].
pub enum InputView {
    Report(EventView),
    Tick,
    Stop,
    Closed,
}

impl View for Input {
    type V = InputView;

    open spec fn view(&self) -> InputView {
        match *self {
            Input::Report(event) => InputView::Report(event@),
            Input::Tick => InputView::Tick,
            Input::Stop => InputView::Stop,
            Input::Closed => InputView::Closed,
        }
    }
}

/// What the owner does after a step.
#[derive(Debug, PartialEq, Eq)]
pub struct Reaction {
    /// The event to pass on, if the step classified one.
    pub emit: Option<Event>,
    /// Whether the loop goes on.
    pub running: bool,
}

/// One transition: the state after it and what it asks of the owner.
pub struct Outcome {
    pub state: StateView,
    pub emit: Option<EventView>,
    pub running: bool,
}

/// The mathematical value of an optional event.
pub open spec fn emitted(e: Option<Event>) -> Option<EventView> {
    match e {
        Some(event) => Some(event@),
        None => None,
    }
}

/// Whether a key pressed at `since` counts as held at `now`.
pub open spec fn held(since: u64, now: u64) -> bool {
    now - since > HOLD_AFTER
}

/// Whether `next` continues the sequence that `prev` belongs to: the same
/// key name, the counter one higher.
pub open spec fn continues(prev: EventView, next: EventView) -> bool {
    next.name == prev.name && next.repeat == prev.repeat + 1
}

/// The state that a report leads to when nothing is pending any more: a
/// press is followed from `now` on, a stray repeat is dropped.
pub open spec fn begin(event: EventView, now: u64) -> StateView {
    if event.repeat == 0 {
        StateView::Pending { event, since: now }
    } else {
        StateView::Idle
    }
}

/// The transition that `input`, arriving at `now`, causes in state `state`.
///
/// * A report while idle begins a sequence, or is dropped.
/// * A report that does not continue the pending sequence ends it: the
///   pending event is passed on as it is, and the report is treated as if
///   it had arrived while idle.
/// * A report that continues the sequence replaces the pending event and
///   keeps the time of the press, unless the key is held by now: then the
///   pending event is passed on as `HOLD` and the sequence is over.
/// * A tick ends a pending sequence: `HOLD` for a held key, `NEW` otherwise.
/// * A stop request, or the loss of the source, ends the loop; what is
///   pending is dropped.
pub open spec fn next(state: StateView, input: InputView, now: u64) -> Outcome {
    match input {
        InputView::Report(event) => match state {
            StateView::Idle => Outcome { state: begin(event, now), emit: None, running: true },
            StateView::Pending { event: prev, since } => if !continues(prev, event) {
                Outcome { state: begin(event, now), emit: Some(prev), running: true }
            } else if held(since, now) {
                Outcome { state: StateView::Idle, emit: Some(prev.to_hold()), running: true }
            } else {
                Outcome { state: StateView::Pending { event, since }, emit: None, running: true }
            },
        },
        InputView::Tick => match state {
            StateView::Idle => Outcome { state: StateView::Idle, emit: None, running: true },
            StateView::Pending { event: prev, since } => Outcome {
                state: StateView::Idle,
                emit: Some(
                    if held(since, now) {
                        prev.to_hold()
                    } else {
                        prev.to_new()
                    },
                ),
                running: true,
            },
        },
        InputView::Stop | InputView::Closed => Outcome {
            state: StateView::Idle,
            emit: None,
            running: false,
        },
    }
}

/// When the owner is woken next if nothing else happens: a pending sequence
/// is settled `SETTLE` after its latest report, an idle classifier wakes up
/// after `HEARTBEAT`.  A deadline beyond the clock's range stands at its end.
pub open spec fn deadline_after(state: StateView, now: u64) -> u64 {
    let wait = if state is Pending {
        SETTLE
    } else {
        HEARTBEAT
    };
    if now + wait > u64::MAX {
        u64::MAX
    } else {
        (now + wait) as u64
    }
}

/// One input together with the time at which it arrived.
pub struct Arrival {
    pub input: InputView,
    pub at: u64,
}

/// What a run of the classifier has come to: its state, the events it has
/// passed on, in order, and whether its loop still goes on.
pub struct Trace {
    pub state: StateView,
    pub emitted: Seq<EventView>,
    pub running: bool,
}

/// The run that begins in `start` and takes `arrivals` one after the other.
/// Once the loop has ended nothing more is taken.
pub open spec fn run(start: StateView, arrivals: Seq<Arrival>) -> Trace
    decreases arrivals.len(),
{
    if arrivals.len() == 0 {
        Trace { state: start, emitted: Seq::empty(), running: true }
    } else {
        let before = run(start, arrivals.drop_last());
        if !before.running {
            before
        } else {
            let step = next(before.state, arrivals.last().input, arrivals.last().at);
            Trace {
                state: step.state,
                emitted: match step.emit {
                    Some(event) => before.emitted.push(event),
                    None => before.emitted,
                },
                running: step.running,
            }
        }
    }
}

/// The arrivals of the reports `events`, the one at position `i` at
/// `times[i]`.
pub open spec fn reports(events: Seq<EventView>, times: Seq<u64>) -> Seq<Arrival> {
    Seq::new(events.len(), |i: int| Arrival { input: InputView::Report(events[i]), at: times[i] })
}

/// Whether `events` are the reports of one key going down and staying down:
/// a press, and then each report continuing the one before.
pub open spec fn is_sequence(events: Seq<EventView>) -> bool {
    &&& events.len() > 0
    &&& events[0].repeat == 0
    &&& forall|i: int| 0 <= i < events.len() - 1 ==> continues(#[trigger] events[i], events[i + 1])
}

/// Whether `times` never go back.
pub open spec fn ascending(times: Seq<u64>) -> bool {
    forall|i: int, j: int| 0 <= i <= j < times.len() ==> times[i] <= times[j]
}

/// While the reports of a sequence arrive before the key counts as held,
/// nothing is passed on: the latest report is pending, and the time of the
/// press is kept.
pub proof fn lemma_sequence_stays_pending(events: Seq<EventView>, times: Seq<u64>)
    requires
        is_sequence(events),
        times.len() == events.len(),
        ascending(times),
        !held(times[0], times.last()),
    ensures
        run(StateView::Idle, reports(events, times)) == (Trace {
            state: StateView::Pending { event: events.last(), since: times[0] },
            emitted: Seq::empty(),
            running: true,
        }),
    decreases events.len(),
{
    let arrivals = reports(events, times);
    let head = arrivals.drop_last();
    assert(arrivals.last() == Arrival {
        input: InputView::Report(events.last()),
        at: times.last(),
    });
    if events.len() == 1 {
        assert(run(StateView::Idle, head).state == StateView::Idle);
    } else {
        let n = events.len() - 1;
        assert(head =~= reports(events.take(n), times.take(n)));
        assert(events.take(n)[0] == events[0]);
        assert forall|i: int| 0 <= i < n - 1 implies continues(
            #[trigger] events.take(n)[i],
            events.take(n)[i + 1],
        ) by {
            assert(continues(events[i], events[i + 1]));
        }
        assert(times.take(n).last() == times[n - 1] && times.take(n)[0] == times[0]);
        lemma_sequence_stays_pending(events.take(n), times.take(n));
        assert(events.take(n).last() == events[n - 1]);
        assert(continues(events[n - 1], events[n]));
    }
}

/// A tap: a sequence and then silence, all before the key counts as held,
/// give exactly one event, the `NEW` of the latest report, when the tick
/// comes.
pub proof fn lemma_tap_is_new(events: Seq<EventView>, times: Seq<u64>, tick: u64)
    requires
        is_sequence(events),
        times.len() == events.len(),
        ascending(times),
        times.last() <= tick,
        !held(times[0], tick),
    ensures
        run(
            StateView::Idle,
            reports(events, times).push(Arrival { input: InputView::Tick, at: tick }),
        ) == (Trace {
            state: StateView::Idle,
            emitted: seq![events.last().to_new()],
            running: true,
        }),
{
    let arrivals = reports(events, times);
    lemma_sequence_stays_pending(events, times);
    assert(arrivals.push(Arrival { input: InputView::Tick, at: tick }).drop_last() =~= arrivals);
    assert(Seq::<EventView>::empty().push(events.last().to_new()) =~= seq![
        events.last().to_new(),
    ]);
}

/// A hold that ends in silence: if the tick comes when the key counts as
/// held, the sequence gives exactly one event, the `HOLD` of its latest
/// report.
pub proof fn lemma_hold_on_tick(events: Seq<EventView>, times: Seq<u64>, tick: u64)
    requires
        is_sequence(events),
        times.len() == events.len(),
        ascending(times),
        !held(times[0], times.last()),
        held(times[0], tick),
    ensures
        run(
            StateView::Idle,
            reports(events, times).push(Arrival { input: InputView::Tick, at: tick }),
        ) == (Trace {
            state: StateView::Idle,
            emitted: seq![events.last().to_hold()],
            running: true,
        }),
{
    let arrivals = reports(events, times);
    lemma_sequence_stays_pending(events, times);
    assert(arrivals.push(Arrival { input: InputView::Tick, at: tick }).drop_last() =~= arrivals);
    assert(Seq::<EventView>::empty().push(events.last().to_hold()) =~= seq![
        events.last().to_hold(),
    ]);
}

/// A hold that goes on: the first report of the sequence that arrives when
/// the key counts as held gives the `HOLD` of the report before it, at once,
/// and leaves the classifier idle.
pub proof fn lemma_hold_on_repeat(
    events: Seq<EventView>,
    times: Seq<u64>,
    late: EventView,
    at: u64,
)
    requires
        is_sequence(events),
        times.len() == events.len(),
        ascending(times),
        continues(events.last(), late),
        !held(times[0], times.last()),
        held(times[0], at),
    ensures
        run(
            StateView::Idle,
            reports(events, times).push(Arrival { input: InputView::Report(late), at }),
        ) == (Trace {
            state: StateView::Idle,
            emitted: seq![events.last().to_hold()],
            running: true,
        }),
{
    let arrivals = reports(events, times);
    lemma_sequence_stays_pending(events, times);
    assert(arrivals.push(Arrival { input: InputView::Report(late), at }).drop_last() =~= arrivals);
    assert(Seq::<EventView>::empty().push(events.last().to_hold()) =~= seq![
        events.last().to_hold(),
    ]);
}

/// Repeats without a press are dropped: whatever their number, an idle
/// classifier stays idle and passes nothing on.  This is what becomes of the
/// rest of a sequence once its `HOLD` is out.
pub proof fn lemma_stray_repeats_are_dropped(events: Seq<EventView>, times: Seq<u64>)
    requires
        times.len() == events.len(),
        forall|i: int| 0 <= i < events.len() ==> (#[trigger] events[i]).repeat != 0,
    ensures
        run(StateView::Idle, reports(events, times)) == (Trace {
            state: StateView::Idle,
            emitted: Seq::empty(),
            running: true,
        }),
    decreases events.len(),
{
    if events.len() > 0 {
        let n = events.len() - 1;
        assert(reports(events, times).drop_last() =~= reports(events.take(n), times.take(n)));
        lemma_stray_repeats_are_dropped(events.take(n), times.take(n));
        assert(reports(events, times).last().input == InputView::Report(events[n]));
    }
}

/// Runs can be cut anywhere: taking `first` and then `then` is taking them in
/// one go.
pub proof fn lemma_run_in_parts(start: StateView, first: Seq<Arrival>, then: Seq<Arrival>)
    requires
        run(start, first).running,
    ensures
        run(start, first + then) == ({
            let rest = run(run(start, first).state, then);
            Trace {
                state: rest.state,
                emitted: run(start, first).emitted + rest.emitted,
                running: rest.running,
            }
        }),
    decreases then.len(),
{
    let a = run(start, first);
    if then.len() == 0 {
        assert(first + then =~= first);
        assert(a.emitted + Seq::<EventView>::empty() =~= a.emitted);
    } else {
        let head = then.drop_last();
        assert((first + then).drop_last() =~= first + head);
        assert((first + then).last() == then.last());
        lemma_run_in_parts(start, first, head);
        let b = run(a.state, head);
        if b.running {
            let step = next(b.state, then.last().input, then.last().at);
            if step.emit is Some {
                assert((a.emitted + b.emitted).push(step.emit->Some_0) =~= a.emitted
                    + b.emitted.push(step.emit->Some_0));
            }
        }
    }
}

/// However long a key is held, it gives exactly one `HOLD`: the reports up
/// to the first that arrives when the key counts as held give the `HOLD`,
/// and the repeats after it, however many, give nothing.
pub proof fn lemma_one_hold_per_press(
    events: Seq<EventView>,
    times: Seq<u64>,
    late: EventView,
    at: u64,
    more: Seq<EventView>,
    more_times: Seq<u64>,
)
    requires
        is_sequence(events),
        times.len() == events.len(),
        ascending(times),
        continues(events.last(), late),
        !held(times[0], times.last()),
        held(times[0], at),
        more_times.len() == more.len(),
        forall|i: int| 0 <= i < more.len() ==> (#[trigger] more[i]).repeat != 0,
    ensures
        run(
            StateView::Idle,
            reports(events, times).push(Arrival { input: InputView::Report(late), at }) + reports(
                more,
                more_times,
            ),
        ) == (Trace {
            state: StateView::Idle,
            emitted: seq![events.last().to_hold()],
            running: true,
        }),
{
    let first = reports(events, times).push(Arrival { input: InputView::Report(late), at });
    lemma_hold_on_repeat(events, times, late, at);
    lemma_stray_repeats_are_dropped(more, more_times);
    lemma_run_in_parts(StateView::Idle, first, reports(more, more_times));
    assert(seq![events.last().to_hold()] + Seq::<EventView>::empty() =~= seq![
        events.last().to_hold(),
    ]);
}

/// A report of another key ends the pending sequence at once: the pending
/// event is passed on unchanged, and the report is followed if it is a press.
pub proof fn lemma_other_key_flushes(prev: EventView, since: u64, event: EventView, now: u64)
    requires
        event.name != prev.name,
    ensures
        ({
            let o = next(StateView::Pending { event: prev, since }, InputView::Report(event), now);
            &&& o.emit == Some(prev)
            &&& o.running
            &&& event.repeat == 0 ==> o.state == StateView::Pending { event, since: now }
            &&& event.repeat != 0 ==> o.state == StateView::Idle
        }),
{
}

/// A report whose counter is not the next one ends the pending sequence at
/// once: the pending event is passed on unchanged, and the report is followed
/// if it is a press.
pub proof fn lemma_broken_count_flushes(prev: EventView, since: u64, event: EventView, now: u64)
    requires
        event.repeat != prev.repeat + 1,
    ensures
        ({
            let o = next(StateView::Pending { event: prev, since }, InputView::Report(event), now);
            &&& o.emit == Some(prev)
            &&& o.running
            &&& event.repeat == 0 ==> o.state == StateView::Pending { event, since: now }
            &&& event.repeat != 0 ==> o.state == StateView::Idle
        }),
{
}

/// Repeats do not move the time of the press: while the sequence is pending,
/// `since` stays what the press set it to.
pub proof fn lemma_press_time_is_kept(prev: EventView, since: u64, event: EventView, now: u64)
    requires
        continues(prev, event),
        !held(since, now),
    ensures
        next(StateView::Pending { event: prev, since }, InputView::Report(event), now).state
            == (StateView::Pending { event, since }),
{
}

/// A stop request, or the loss of the source, ends the loop without passing
/// anything on, whatever is pending.
pub proof fn lemma_stop_drops_pending(state: StateView, now: u64)
    ensures
        next(state, InputView::Stop, now).emit is None,
        !next(state, InputView::Stop, now).running,
        next(state, InputView::Closed, now).emit is None,
        !next(state, InputView::Closed, now).running,
{
}

/// Nothing is passed on out of the idle state, and a tick leaves it idle.
pub proof fn lemma_idle_is_silent(input: InputView, now: u64)
    ensures
        next(StateView::Idle, input, now).emit is None,
        next(StateView::Idle, InputView::Tick, now).state is Idle,
{
}

/// The classifier: its state and the time of its next wake-up.
#[derive(Debug, PartialEq, Eq)]
pub struct Classifier {
    state: State,
    deadline: u64,
}

/// The mathematical value of a [`Classifier`].
pub struct ClassifierView {
    pub state: StateView,
    pub deadline: u64,
}

impl View for Classifier {
    type V = ClassifierView;

    closed spec fn view(&self) -> ClassifierView {
        ClassifierView { state: self.state@, deadline: self.deadline }
    }
}

impl Classifier {
    /// An idle classifier, started at `now`.
    pub fn new(now: u64) -> (c: Classifier)
        ensures
            c@.state == StateView::Idle,
            c@.deadline == deadline_after(StateView::Idle, now),
    {
        Classifier { state: State::Idle, deadline: now.saturating_add(HEARTBEAT) }
    }

    /// The state of the classifier.
    pub fn state(&self) -> (s: &State)
        ensures
            s@ == self@.state,
    {
        &self.state
    }

    /// Whether a sequence is pending.
    pub fn is_pending(&self) -> (b: bool)
        ensures
            b == (self@.state is Pending),
    {
        match self.state {
            State::Idle => false,
            State::Pending { .. } => true,
        }
    }

    /// The time at which the owner hands in a [`Input::Tick`] if nothing else
    /// has happened by then.
    pub fn deadline(&self) -> (t: u64)
        ensures
            t == self@.deadline,
    {
        self.deadline
    }

    /// How long the owner may still wait at `now`: the time up to the
    /// deadline, or nothing if the deadline has come.
    pub fn time_left(&self, now: u64) -> (t: u64)
        ensures
            t == if self@.deadline > now {
                self@.deadline - now
            } else {
                0
            },
    {
        if self.deadline > now {
            self.deadline - now
        } else {
            0
        }
    }

    /// Takes one input, which arrived at `now`, and says what to do.
    ///
    /// After a report or a tick the deadline is set anew, counted from `now`;
    /// a step that ends the loop leaves it as it was.
    pub fn step(&mut self, input: Input, now: u64) -> (r: Reaction)
        ensures
            next(old(self)@.state, input@, now) == (Outcome {
                state: final(self)@.state,
                emit: emitted(r.emit),
                running: r.running,
            }),
            final(self)@.deadline == if r.running {
                deadline_after(final(self)@.state, now)
            } else {
                old(self)@.deadline
            },
    {
        let mut state = State::Idle;
        core::mem::swap(&mut self.state, &mut state);
        let reaction = match input {
            Input::Report(event) => match state {
                State::Idle => {
                    self.begin(event, now);
                    Reaction { emit: None, running: true }
                },
                State::Pending { event: prev, since } => {
                    let in_sequence = event.name == prev.name && prev.repeat < u32::MAX
                        && event.repeat == prev.repeat + 1;
                    if !in_sequence {
                        self.begin(event, now);
                        Reaction { emit: Some(prev), running: true }
                    } else if is_held(since, now) {
                        Reaction { emit: Some(prev.to_hold()), running: true }
                    } else {
                        self.state = State::Pending { event, since };
                        Reaction { emit: None, running: true }
                    }
                },
            },
            Input::Tick => match state {
                State::Idle => Reaction { emit: None, running: true },
                State::Pending { event: prev, since } => {
                    let classified = if is_held(since, now) {
                        prev.to_hold()
                    } else {
                        prev.to_new()
                    };
                    Reaction { emit: Some(classified), running: true }
                },
            },
            Input::Stop | Input::Closed => Reaction { emit: None, running: false },
        };
        if reaction.running {
            let wait = if self.is_pending() {
                SETTLE
            } else {
                HEARTBEAT
            };
            self.deadline = now.saturating_add(wait);
        }
        reaction
    }

    /// Enters the state that `event` leads to when nothing is pending.
    fn begin(&mut self, event: Event, now: u64)
        ensures
            final(self).state@ == begin(event@, now),
            final(self).deadline == old(self).deadline,
    {
        if event.repeat == 0 {
            self.state = State::Pending { event, since: now };
        } else {
            self.state = State::Idle;
        }
    }
}

/// Tells whether a key pressed at `since` counts as held at `now`.
pub fn is_held(since: u64, now: u64) -> (b: bool)
    ensures
        b == held(since, now),
{
    now > since && now - since > HOLD_AFTER
}

} // verus!
