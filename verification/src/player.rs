//! Playing a song against the wall clock.
//!
//! The player holds the schedule and sees to it that no more than one
//! performance runs at a time. A performance is run by a worker, which does
//! nothing by itself: it is told what has been observed, the time, whether
//! the performance was cancelled and what the host reported, and answers
//! with the next thing to do. Whoever drives the worker does that thing and
//! comes back with the next observation.

use crate::model::mappings::{input_for_midi, is_entry, mapped, Input};
use crate::model::song::{by_time, lemma_by_time, sort_by_time, Event, Song};
use vstd::prelude::*;

verus! {

/// How long the worker sleeps at most before it looks again, in
/// microseconds.
pub const POLL_US: u64 = 50_000;

/// How long the host may stay unready before the performance is given up,
/// in microseconds.
pub const READY_TIMEOUT_US: u64 = 30_000_000;

/// Microseconds in a second.
pub const SECOND_US: u64 = 1_000_000;

/// An event of the schedule: when to press which keys for how long.
#[derive(Debug, Clone, Copy)]
pub struct ScheduledEvent {
    pub time_us: u64,
    pub duration_us: u64,
    pub input: Input,
}

/// The events whose pitch the instrument can play, in their order.
pub open spec fn playable(events: Seq<Event>) -> Seq<Event>
    decreases events.len(),
{
    if events.len() == 0 {
        Seq::empty()
    } else if mapped(events.last().note.midi) {
        playable(events.drop_last()).push(events.last())
    } else {
        playable(events.drop_last())
    }
}

/// `s` presses the keys of `e` at the time and for the length of `e`.
pub open spec fn schedules(s: ScheduledEvent, e: Event) -> bool {
    s.time_us == e.time_us && s.duration_us == e.duration_us && is_entry(s.input, e.note.midi)
}

/// `schedule` plays the playable events of `events` in order of their
/// start.
pub open spec fn is_schedule_of(schedule: Seq<ScheduledEvent>, events: Seq<Event>) -> bool {
    let wanted = by_time(playable(events));
    schedule.len() == wanted.len() && forall|i: int|
        0 <= i < schedule.len() ==> schedules(#[trigger] schedule[i], wanted[i])
}

/// No event of the schedule is due before an earlier one.
pub open spec fn due_in_order(schedule: Seq<ScheduledEvent>) -> bool {
    forall|i: int, j: int|
        0 <= i <= j < schedule.len() ==> (#[trigger] schedule[i]).time_us <= (
        #[trigger] schedule[j]).time_us
}

proof fn lemma_playable(events: Seq<Event>)
    ensures
        playable(events).len() <= events.len(),
        forall|i: int|
            0 <= i < playable(events).len() ==> mapped((#[trigger] playable(events)[i]).note.midi),
    decreases events.len(),
{
    if events.len() > 0 {
        lemma_playable(events.drop_last());
    }
}

/// Lays out the schedule for `events`: events without keys are left out,
/// the others are put in order of their start.
pub fn build_schedule(events: &Vec<Event>) -> (schedule: Vec<ScheduledEvent>)
    ensures
        is_schedule_of(schedule@, events@),
        due_in_order(schedule@),
        schedule.len() <= events.len(),
{
    let mut kept: Vec<Event> = Vec::new();
    let mut i: usize = 0;
    while i < events.len()
        invariant
            i <= events.len(),
            kept@ == playable(events@.take(i as int)),
        decreases events.len() - i,
    {
        proof {
            let taken = events@.take(i + 1);
            assert(taken.drop_last() == events@.take(i as int));
        }
        let e = events[i];
        if input_for_midi(e.note.midi).is_some() {
            kept.push(e);
        }
        i += 1;
    }
    proof {
        assert(events@.take(i as int) == events@);
        lemma_playable(events@);
        assert(kept.len() <= usize::MAX);
        lemma_by_time(kept@);
    }
    let sorted = sort_by_time(&kept);
    let mut schedule: Vec<ScheduledEvent> = Vec::new();
    let mut k: usize = 0;
    while k < sorted.len()
        invariant
            k <= sorted.len(),
            schedule.len() == k,
            sorted@ == by_time(playable(events@)),
            forall|n: int| 0 <= n < sorted.len() ==> mapped((#[trigger] sorted@[n]).note.midi),
            forall|n: int| 0 <= n < k ==> schedules(#[trigger] schedule@[n], sorted@[n]),
        decreases sorted.len() - k,
    {
        let e = sorted[k];
        assert(mapped(sorted@[k as int].note.midi));
        match input_for_midi(e.note.midi) {
            Some(input) => {
                schedule.push(
                    ScheduledEvent { time_us: e.time_us, duration_us: e.duration_us, input },
                );
            },
            None => {},
        }
        k += 1;
    }
    proof {
        assert forall|a: int, b: int| 0 <= a <= b < schedule.len() implies (
        #[trigger] schedule@[a]).time_us <= (#[trigger] schedule@[b]).time_us by {
            assert(schedules(schedule@[a], sorted@[a]));
            assert(schedules(schedule@[b], sorted@[b]));
            assert(sorted@[a].time_us <= sorted@[b].time_us);
        }
    }
    schedule
}

/// What the host said when it was asked whether it is ready.
#[derive(Debug, Clone, Copy, PartialEq, Eq, Structural)]
pub enum Host {
    Ready,
    NotReady,
    /// The host gave no answer, or was not asked.
    Unknown,
}

/// The title of the window that has to be in front for the host to be
/// ready.
pub open spec fn ready_title() -> Seq<char> {
    "ANIMAL WELL"@
}

/// What the title of the window in front says of the host; `None` where
/// the title could not be had.
pub fn host_from_title(title: Option<&str>) -> (host: Host)
    ensures
        host == match title {
            Some(t) => if t@ == ready_title() {
                Host::Ready
            } else {
                Host::NotReady
            },
            None => Host::Unknown,
        },
{
    match title {
        Some(t) => {
            let given = t.to_owned();
            let wanted = "ANIMAL WELL".to_owned();
            if given == wanted {
                Host::Ready
            } else {
                Host::NotReady
            }
        },
        None => Host::Unknown,
    }
}

/// What is known when the worker is asked for its next step.
#[derive(Debug, Clone, Copy, PartialEq, Eq, Structural)]
pub struct Observation {
    /// Microseconds on a clock that does not run backwards.
    pub now_us: u64,
    /// The performance has been cancelled.
    pub cancelled: bool,
    /// The answer to `Action::QueryHost`, if that was the last action.
    pub host: Host,
}

/// How a performance ended.
#[derive(Debug, Clone, Copy, PartialEq, Eq, Structural)]
pub enum Outcome {
    /// Every event was played.
    Completed,
    /// The performance was cancelled.
    Cancelled,
    /// The host was not ready for longer than it may be.
    TimedOut,
}

/// What the worker wants done next.
#[derive(Debug, Clone, Copy, PartialEq, Eq, Structural)]
pub enum Action {
    /// Ask the host whether it is ready.
    QueryHost,
    /// Let this many microseconds pass.
    Sleep(u64),
    /// Release every key of the instrument.
    ReleaseAll,
    /// Press the event of the schedule with this index, from the first key
    /// down to the last key up.
    Press(usize),
    /// Stop: the performance is over.
    Finish(Outcome),
}

/// Where a performance stands: what was asked for last, and what has to be
/// remembered to go on.
#[derive(Debug, Clone, Copy, PartialEq, Eq, Structural)]
pub enum Phase {
    /// Nothing has been asked for yet.
    Start,
    /// Before the first event: the host has been asked. It has not been
    /// ready since `since`.
    AwaitingHost { since: u64 },
    /// Before the first event: a pause before the host is asked again.
    Pausing { since: u64 },
    /// The host is ready, and the delay before the first event passes.
    Delaying,
    /// A stretch of the time before event `index` passes. Times of events
    /// count from `origin`.
    Waiting { index: usize, origin: u64 },
    /// Event `index` is due and the host has been asked. Where the host was
    /// found unready before, it has been since `lost_since`.
    Confirming { index: usize, origin: u64, lost_since: Option<u64> },
    /// The host was found unready at `since` and the keys are being
    /// released.
    Dropped { index: usize, origin: u64, since: u64 },
    /// A pause before the host is asked again.
    Resting { index: usize, origin: u64, since: u64 },
    /// Event `index` is being pressed.
    Pressing { index: usize, origin: u64 },
    /// The performance was cancelled and the keys are being released.
    Releasing,
    /// The performance is over.
    Done(Outcome),
}

/// The host has been unready for too long at `now`.
pub open spec fn overdue(since: u64, now: u64) -> bool {
    now - since > READY_TIMEOUT_US
}

/// What to do at a point where the worker may wait, with event `index` the
/// next to play: stop when cancelled; ask the host when the event is due;
/// else sleep until it is due, but no longer than the polling interval.
pub open spec fn at_boundary(
    schedule: Seq<ScheduledEvent>,
    index: usize,
    origin: u64,
    obs: Observation,
) -> (Phase, Action) {
    if index >= schedule.len() {
        (Phase::Done(Outcome::Completed), Action::Finish(Outcome::Completed))
    } else if obs.cancelled {
        (Phase::Releasing, Action::ReleaseAll)
    } else {
        let remaining = origin + schedule[index as int].time_us - obs.now_us;
        if remaining <= 0 {
            (Phase::Confirming { index, origin, lost_since: None }, Action::QueryHost)
        } else if remaining > POLL_US {
            (Phase::Waiting { index, origin }, Action::Sleep(POLL_US))
        } else {
            (Phase::Waiting { index, origin }, Action::Sleep(remaining as u64))
        }
    }
}

/// The phase that follows `phase` on observation `obs`, and what to do
/// next.
pub open spec fn transition(
    phase: Phase,
    schedule: Seq<ScheduledEvent>,
    delay_us: u64,
    obs: Observation,
) -> (Phase, Action) {
    let cancelled = (Phase::Done(Outcome::Cancelled), Action::Finish(Outcome::Cancelled));
    let timed_out = (Phase::Done(Outcome::TimedOut), Action::Finish(Outcome::TimedOut));
    match phase {
        Phase::Start => if obs.cancelled {
            cancelled
        } else {
            (Phase::AwaitingHost { since: obs.now_us }, Action::QueryHost)
        },
        Phase::AwaitingHost { since } => match obs.host {
            Host::Unknown => if obs.cancelled {
                cancelled
            } else {
                (phase, Action::QueryHost)
            },
            Host::Ready => if delay_us > 0 {
                (Phase::Delaying, Action::Sleep(delay_us))
            } else {
                at_boundary(schedule, 0, obs.now_us, obs)
            },
            Host::NotReady => if overdue(since, obs.now_us) {
                timed_out
            } else {
                (Phase::Pausing { since }, Action::Sleep(POLL_US))
            },
        },
        Phase::Pausing { since } => if obs.cancelled {
            cancelled
        } else {
            (Phase::AwaitingHost { since }, Action::QueryHost)
        },
        Phase::Delaying => at_boundary(schedule, 0, obs.now_us, obs),
        Phase::Waiting { index, origin } => at_boundary(schedule, index, origin, obs),
        Phase::Confirming { index, origin, lost_since } => match obs.host {
            Host::Unknown => if obs.cancelled {
                (Phase::Releasing, Action::ReleaseAll)
            } else {
                (phase, Action::QueryHost)
            },
            Host::Ready => if index < schedule.len() {
                (Phase::Pressing { index, origin }, Action::Press(index))
            } else {
                (Phase::Done(Outcome::Completed), Action::Finish(Outcome::Completed))
            },
            Host::NotReady => match lost_since {
                None => (
                    Phase::Dropped { index, origin, since: obs.now_us },
                    Action::ReleaseAll,
                ),
                Some(since) => if overdue(since, obs.now_us) {
                    timed_out
                } else {
                    (Phase::Resting { index, origin, since }, Action::Sleep(POLL_US))
                },
            },
        },
        Phase::Dropped { index, origin, since } => (
            Phase::Resting { index, origin, since },
            Action::Sleep(POLL_US),
        ),
        Phase::Resting { index, origin, since } => if obs.cancelled {
            (Phase::Releasing, Action::ReleaseAll)
        } else {
            (Phase::Confirming { index, origin, lost_since: Some(since) }, Action::QueryHost)
        },
        Phase::Pressing { index, origin } => if index >= schedule.len() {
            (Phase::Done(Outcome::Completed), Action::Finish(Outcome::Completed))
        } else {
            at_boundary(schedule, (index + 1) as usize, origin, obs)
        },
        Phase::Releasing => cancelled,
        Phase::Done(outcome) => (phase, Action::Finish(outcome)),
    }
}

/// The number of events that have been handed out for pressing when the
/// performance stands at `phase`; nothing for a performance that is over
/// or being cancelled.
pub open spec fn pressed(phase: Phase) -> Option<int> {
    match phase {
        Phase::Start | Phase::AwaitingHost { .. } | Phase::Pausing { .. } | Phase::Delaying => Some(
            0,
        ),
        Phase::Waiting { index, .. } | Phase::Confirming { index, .. } | Phase::Dropped {
            index,
            ..
        } | Phase::Resting { index, .. } => Some(index as int),
        Phase::Pressing { index, .. } => Some(index + 1),
        Phase::Releasing | Phase::Done(_) => None,
    }
}

/// The worker may wait in this phase while events are played: nothing is
/// being pressed and no answer of the host is outstanding.
pub open spec fn at_wait(phase: Phase) -> bool {
    phase is Delaying || phase is Waiting || phase is Resting || phase is Pressing
}

/// The phase speaks of an event of the schedule wherever it speaks of one.
pub open spec fn coherent(phase: Phase, schedule: Seq<ScheduledEvent>) -> bool {
    match phase {
        Phase::Waiting { index, .. } | Phase::Confirming { index, .. } | Phase::Dropped {
            index,
            ..
        } | Phase::Resting { index, .. } | Phase::Pressing { index, .. } => index
            < schedule.len(),
        _ => true,
    }
}

/// A performance never comes to speak of an event that the schedule does
/// not hold, so the host saying that it is ready is always answered by
/// pressing the event that is due.
pub proof fn lemma_coherent(
    phase: Phase,
    schedule: Seq<ScheduledEvent>,
    delay_us: u64,
    obs: Observation,
)
    requires
        coherent(phase, schedule),
        schedule.len() <= usize::MAX,
    ensures
        coherent(Phase::Start, schedule),
        coherent(transition(phase, schedule, delay_us, obs).0, schedule),
        phase is Confirming && obs.host == Host::Ready ==> transition(
            phase,
            schedule,
            delay_us,
            obs,
        ).1 == Action::Press(phase->Confirming_index),
{
}

/// An event is pressed only in answer to the host saying that it is ready,
/// and only the event that is due.
pub proof fn lemma_press_needs_ready(
    phase: Phase,
    schedule: Seq<ScheduledEvent>,
    delay_us: u64,
    obs: Observation,
)
    ensures
        transition(phase, schedule, delay_us, obs).1 matches Action::Press(i) ==> {
            &&& obs.host == Host::Ready
            &&& phase matches Phase::Confirming { index, origin, .. }
            &&& index == i
            &&& i < schedule.len()
            &&& transition(phase, schedule, delay_us, obs).0 == (Phase::Pressing { index, origin })
        },
{
}

/// Events are handed out for pressing one by one in the order of the
/// schedule: a step either presses the next event or leaves the count of
/// pressed events as it is.
pub proof fn lemma_in_order(
    phase: Phase,
    schedule: Seq<ScheduledEvent>,
    delay_us: u64,
    obs: Observation,
)
    requires
        pressed(phase) is Some,
        pressed(phase).unwrap() <= schedule.len() <= usize::MAX,
    ensures
        ({
            let (next, action) = transition(phase, schedule, delay_us, obs);
            match pressed(next) {
                Some(m) => m <= schedule.len() && if action is Press {
                    action == Action::Press(pressed(phase).unwrap() as usize) && m == pressed(
                        phase,
                    ).unwrap() + 1
                } else {
                    m == pressed(phase).unwrap()
                },
                None => !(action is Press),
            }
        }),
{
}

/// A cancelled performance that has begun to play releases every key at
/// the next point where it may wait, and then stops; one that still waits
/// for the host to become ready the first time has pressed nothing and
/// stops at once.
pub proof fn lemma_cancel_releases(
    phase: Phase,
    schedule: Seq<ScheduledEvent>,
    delay_us: u64,
    obs: Observation,
)
    requires
        obs.cancelled,
    ensures
        ({
            let (next, action) = transition(phase, schedule, delay_us, obs);
            &&& at_wait(phase) ==> (next == Phase::Releasing && action == Action::ReleaseAll) || (
            next == Phase::Done(Outcome::Completed) && pressed(phase).unwrap() >= schedule.len())
            &&& (phase is Start || phase is Pausing) ==> action == Action::Finish(
                Outcome::Cancelled,
            )
            &&& !(action is Press) || (phase is Confirming && obs.host == Host::Ready)
        }),
        transition(Phase::Releasing, schedule, delay_us, obs) == (
            Phase::Done(Outcome::Cancelled),
            Action::Finish(Outcome::Cancelled),
        ),
{
}

/// The worker never sleeps longer than the polling interval, but for the
/// delay before the first event, and never past the time an event is due.
pub proof fn lemma_sleep_bounded(
    phase: Phase,
    schedule: Seq<ScheduledEvent>,
    delay_us: u64,
    obs: Observation,
)
    ensures
        transition(phase, schedule, delay_us, obs).1 matches Action::Sleep(us) ==> {
            &&& us > 0
            &&& us <= POLL_US || (us == delay_us && phase is AwaitingHost)
            &&& transition(phase, schedule, delay_us, obs).0 matches Phase::Waiting {
                index,
                origin,
            } ==> index < schedule.len() && obs.now_us + us <= origin + schedule[index as int].time_us
        },
{
}

/// The host is asked about an event for the first time when the event is
/// due, not before.
pub proof fn lemma_asked_when_due(
    phase: Phase,
    schedule: Seq<ScheduledEvent>,
    delay_us: u64,
    obs: Observation,
)
    requires
        !(phase is Confirming),
    ensures
        transition(phase, schedule, delay_us, obs).0 matches Phase::Confirming {
            index,
            origin,
            lost_since: None,
        } ==> index < schedule.len() && obs.now_us >= origin + schedule[index as int].time_us,
{
}

/// A performance that is over stays over, with the same outcome.
pub proof fn lemma_done_stays(
    outcome: Outcome,
    schedule: Seq<ScheduledEvent>,
    delay_us: u64,
    obs: Observation,
)
    ensures
        transition(Phase::Done(outcome), schedule, delay_us, obs) == (
            Phase::Done(outcome),
            Action::Finish(outcome),
        ),
{
}

/// The host is given up only after it has been unready for longer than the
/// timeout.
pub proof fn lemma_timeout(
    phase: Phase,
    schedule: Seq<ScheduledEvent>,
    delay_us: u64,
    obs: Observation,
)
    requires
        !(phase is Done),
    ensures
        transition(phase, schedule, delay_us, obs).1 == Action::Finish(Outcome::TimedOut) ==> {
            &&& obs.host == Host::NotReady
            &&& match phase {
                Phase::AwaitingHost { since } => overdue(since, obs.now_us),
                Phase::Confirming { lost_since: Some(since), .. } => overdue(since, obs.now_us),
                _ => false,
            }
        },
{
}

/// Where a performance stands after the given observations, one for each
/// step from the start, and what it asked for at each step.
pub open spec fn run(
    schedule: Seq<ScheduledEvent>,
    delay_us: u64,
    observations: Seq<Observation>,
) -> (Phase, Seq<Action>)
    decreases observations.len(),
{
    if observations.len() == 0 {
        (Phase::Start, Seq::empty())
    } else {
        let (phase, actions) = run(schedule, delay_us, observations.drop_last());
        let (next, action) = transition(phase, schedule, delay_us, observations.last());
        (next, actions.push(action))
    }
}

/// The events that `actions` ask to press, in the order of asking.
pub open spec fn presses(actions: Seq<Action>) -> Seq<usize>
    decreases actions.len(),
{
    if actions.len() == 0 {
        Seq::empty()
    } else {
        match actions.last() {
            Action::Press(index) => presses(actions.drop_last()).push(index),
            _ => presses(actions.drop_last()),
        }
    }
}

/// Whatever is observed, a performance presses the events of its schedule
/// in their order, each at most once and none left out in between: the
/// presses asked for are those of the events 0, 1, 2 and so on.
pub proof fn lemma_run_in_order(
    schedule: Seq<ScheduledEvent>,
    delay_us: u64,
    observations: Seq<Observation>,
)
    requires
        schedule.len() <= usize::MAX,
    ensures
        ({
            let (phase, actions) = run(schedule, delay_us, observations);
            &&& actions.len() == observations.len()
            &&& presses(actions).len() <= schedule.len()
            &&& forall|i: int| 0 <= i < presses(actions).len() ==> #[trigger] presses(actions)[i] == i
            &&& pressed(phase) is Some ==> pressed(phase).unwrap() == presses(actions).len()
            &&& coherent(phase, schedule)
        }),
    decreases observations.len(),
{
    if observations.len() > 0 {
        let (phase, actions) = run(schedule, delay_us, observations.drop_last());
        let obs = observations.last();
        let (next, action) = transition(phase, schedule, delay_us, obs);
        lemma_run_in_order(schedule, delay_us, observations.drop_last());
        lemma_coherent(phase, schedule, delay_us, obs);
        let grown = actions.push(action);
        assert(grown.drop_last() == actions);
        assert(grown.last() == action);
        if pressed(phase) is Some {
            lemma_in_order(phase, schedule, delay_us, obs);
        }
        let before = presses(actions);
        let after = presses(grown);
        assert forall|i: int| 0 <= i < after.len() implies #[trigger] after[i] == i by {
            if i < before.len() {
                assert(after[i] == before[i]);
            }
        }
    }
}

/// A performance that ends cancelled ends with every key released: either
/// the step before the last asked for the release of all keys, or no event
/// was ever pressed.
pub proof fn lemma_cancelled_run_is_released(
    schedule: Seq<ScheduledEvent>,
    delay_us: u64,
    observations: Seq<Observation>,
)
    requires
        schedule.len() <= usize::MAX,
        observations.len() > 0,
        run(schedule, delay_us, observations).0 == Phase::Done(Outcome::Cancelled),
        !(run(schedule, delay_us, observations.drop_last()).0 is Done),
    ensures
        ({
            let actions = run(schedule, delay_us, observations).1;
            let n = observations.len() as int;
            &&& actions[n - 1] == Action::Finish(Outcome::Cancelled)
            &&& presses(actions).len() == 0 || (n >= 2 && actions[n - 2] == Action::ReleaseAll)
        }),
{
    let n = observations.len() as int;
    let front = observations.drop_last();
    let (phase, actions) = run(schedule, delay_us, front);
    let obs = observations.last();
    let (next, action) = transition(phase, schedule, delay_us, obs);
    let grown = actions.push(action);
    lemma_run_in_order(schedule, delay_us, front);
    assert(grown.drop_last() == actions);
    assert(grown.last() == action);
    if phase == Phase::Releasing {
        assert(front.len() > 0);
        let (earlier, older) = run(schedule, delay_us, front.drop_last());
        let (_, asked) = transition(earlier, schedule, delay_us, front.last());
        assert(asked == Action::ReleaseAll);
        assert(actions == older.push(asked));
        assert(grown[n - 2] == asked);
    } else {
        assert(pressed(phase) == Some(0int));
        assert(presses(grown) == presses(actions));
    }
}

/// One performance of a schedule.
#[derive(Debug)]
pub struct Worker {
    pub schedule: Vec<ScheduledEvent>,
    pub delay_us: u64,
    pub phase: Phase,
}

fn is_overdue(since: u64, now: u64) -> (r: bool)
    ensures
        r == overdue(since, now),
{
    now > since && now - since > READY_TIMEOUT_US
}

impl Worker {
    /// A performance of `schedule` that has not begun, with a delay of
    /// `delay_us` microseconds between the host becoming ready and the
    /// first event.
    pub fn new(schedule: Vec<ScheduledEvent>, delay_us: u64) -> (w: Worker)
        ensures
            w.schedule == schedule,
            w.delay_us == delay_us,
            w.phase == Phase::Start,
    {
        Worker { schedule, delay_us, phase: Phase::Start }
    }

    /// The event of the schedule with this index.
    pub fn event(&self, index: usize) -> (r: Option<ScheduledEvent>)
        ensures
            r is Some <==> index < self.schedule.len(),
            r matches Some(e) ==> e == self.schedule@[index as int],
    {
        if index < self.schedule.len() {
            Some(self.schedule[index])
        } else {
            None
        }
    }

    /// The performance is over.
    pub fn is_done(&self) -> (r: bool)
        ensures
            r == (self.phase is Done),
    {
        match self.phase {
            Phase::Done(_) => true,
            _ => false,
        }
    }

    fn boundary(&self, index: usize, origin: u64, obs: Observation) -> (r: (Phase, Action))
        ensures
            r == at_boundary(self.schedule@, index, origin, obs),
    {
        if index >= self.schedule.len() {
            (Phase::Done(Outcome::Completed), Action::Finish(Outcome::Completed))
        } else if obs.cancelled {
            (Phase::Releasing, Action::ReleaseAll)
        } else {
            let due: u128 = origin as u128 + self.schedule[index].time_us as u128;
            let now: u128 = obs.now_us as u128;
            if now >= due {
                (Phase::Confirming { index, origin, lost_since: None }, Action::QueryHost)
            } else if due - now > POLL_US as u128 {
                (Phase::Waiting { index, origin }, Action::Sleep(POLL_US))
            } else {
                (Phase::Waiting { index, origin }, Action::Sleep((due - now) as u64))
            }
        }
    }

    /// Takes note of what was observed after the last action was done and
    /// says what to do next.
    pub fn step(&mut self, obs: Observation) -> (action: Action)
        ensures
            (final(self).phase, action) == transition(
                old(self).phase,
                old(self).schedule@,
                old(self).delay_us,
                obs,
            ),
            final(self).schedule == old(self).schedule,
            final(self).delay_us == old(self).delay_us,
    {
        let cancelled = (Phase::Done(Outcome::Cancelled), Action::Finish(Outcome::Cancelled));
        let timed_out = (Phase::Done(Outcome::TimedOut), Action::Finish(Outcome::TimedOut));
        let phase = self.phase;
        let (next, action) = match phase {
            Phase::Start => if obs.cancelled {
                cancelled
            } else {
                (Phase::AwaitingHost { since: obs.now_us }, Action::QueryHost)
            },
            Phase::AwaitingHost { since } => match obs.host {
                Host::Unknown => if obs.cancelled {
                    cancelled
                } else {
                    (phase, Action::QueryHost)
                },
                Host::Ready => if self.delay_us > 0 {
                    (Phase::Delaying, Action::Sleep(self.delay_us))
                } else {
                    self.boundary(0, obs.now_us, obs)
                },
                Host::NotReady => if is_overdue(since, obs.now_us) {
                    timed_out
                } else {
                    (Phase::Pausing { since }, Action::Sleep(POLL_US))
                },
            },
            Phase::Pausing { since } => if obs.cancelled {
                cancelled
            } else {
                (Phase::AwaitingHost { since }, Action::QueryHost)
            },
            Phase::Delaying => self.boundary(0, obs.now_us, obs),
            Phase::Waiting { index, origin } => self.boundary(index, origin, obs),
            Phase::Confirming { index, origin, lost_since } => match obs.host {
                Host::Unknown => if obs.cancelled {
                    (Phase::Releasing, Action::ReleaseAll)
                } else {
                    (phase, Action::QueryHost)
                },
                Host::Ready => if index < self.schedule.len() {
                    (Phase::Pressing { index, origin }, Action::Press(index))
                } else {
                    (Phase::Done(Outcome::Completed), Action::Finish(Outcome::Completed))
                },
                Host::NotReady => match lost_since {
                    None => (
                        Phase::Dropped { index, origin, since: obs.now_us },
                        Action::ReleaseAll,
                    ),
                    Some(since) => if is_overdue(since, obs.now_us) {
                        timed_out
                    } else {
                        (Phase::Resting { index, origin, since }, Action::Sleep(POLL_US))
                    },
                },
            },
            Phase::Dropped { index, origin, since } => (
                Phase::Resting { index, origin, since },
                Action::Sleep(POLL_US),
            ),
            Phase::Resting { index, origin, since } => if obs.cancelled {
                (Phase::Releasing, Action::ReleaseAll)
            } else {
                (Phase::Confirming { index, origin, lost_since: Some(since) }, Action::QueryHost)
            },
            Phase::Pressing { index, origin } => if index >= self.schedule.len() {
                (Phase::Done(Outcome::Completed), Action::Finish(Outcome::Completed))
            } else {
                self.boundary(index + 1, origin, obs)
            },
            Phase::Releasing => cancelled,
            Phase::Done(outcome) => (phase, Action::Finish(outcome)),
        };
        self.phase = next;
        action
    }
}

/// Why the player refuses what it was asked to do.
#[derive(Debug, Clone, Copy, PartialEq, Eq, Structural)]
pub enum PlayerError {
    /// There is nothing to play.
    NoSongLoaded,
    /// A performance is running.
    AlreadyRunning,
    /// No performance is running.
    NotRunning,
}

impl PlayerError {
    /// A sentence for the user.
    pub fn message(&self) -> (r: &'static str)
        ensures
            r@ == self.text(),
    {
        match self {
            PlayerError::NoSongLoaded => "No song loaded..!",
            PlayerError::AlreadyRunning => "Playback already running..!",
            PlayerError::NotRunning => "No worker is running playback..!",
        }
    }

    /// The sentence that `message` returns.
    pub open spec fn text(&self) -> Seq<char> {
        match self {
            PlayerError::NoSongLoaded => "No song loaded..!"@,
            PlayerError::AlreadyRunning => "Playback already running..!"@,
            PlayerError::NotRunning => "No worker is running playback..!"@,
        }
    }
}

/// The schedule of a song and the record of whether it is being played.
#[derive(Debug)]
pub struct Player {
    delay: u64,
    verbose: bool,
    schedule: Vec<ScheduledEvent>,
    running: bool,
}

impl Player {
    /// The loaded schedule.
    pub closed spec fn schedule(&self) -> Seq<ScheduledEvent> {
        self.schedule@
    }

    /// A performance is running.
    pub closed spec fn running(&self) -> bool {
        self.running
    }

    /// Seconds between the host becoming ready and the first event.
    pub closed spec fn delay(&self) -> u64 {
        self.delay
    }

    /// Whether every press is to be reported.
    pub closed spec fn verbose(&self) -> bool {
        self.verbose
    }

    /// The delay before the first event in microseconds, cut off at the
    /// longest time that can be slept.
    pub open spec fn delay_us(&self) -> u64 {
        if self.delay() * SECOND_US > u64::MAX {
            u64::MAX
        } else {
            (self.delay() * SECOND_US) as u64
        }
    }

    /// A player with nothing loaded and nothing running.
    pub fn new(verbose: bool, delay: u64) -> (p: Player)
        ensures
            p.schedule().len() == 0,
            !p.running(),
            p.delay() == delay,
            p.verbose() == verbose,
    {
        Player { delay, verbose, schedule: Vec::new(), running: false }
    }

    /// Whether a performance is running.
    pub fn is_running(&self) -> (r: bool)
        ensures
            r == self.running(),
    {
        self.running
    }

    /// Whether every press is to be reported.
    pub fn is_verbose(&self) -> (r: bool)
        ensures
            r == self.verbose(),
    {
        self.verbose
    }

    /// The number of events in the loaded schedule.
    pub fn scheduled(&self) -> (n: usize)
        ensures
            n == self.schedule().len(),
    {
        self.schedule.len()
    }

    /// Replaces the schedule by that of `song`. Events that the instrument
    /// cannot play are left out. A running performance goes on with the
    /// schedule it was started with.
    pub fn load_song(&mut self, song: Song) -> (r: Result<(), PlayerError>)
        ensures
            r is Ok,
            is_schedule_of(final(self).schedule(), song.events@),
            due_in_order(final(self).schedule()),
            final(self).running() == old(self).running(),
            final(self).delay() == old(self).delay(),
            final(self).verbose() == old(self).verbose(),
    {
        self.schedule = build_schedule(&song.events);
        Ok(())
    }

    /// Starts a performance of the loaded schedule.
    ///
    /// Refused while a performance is running, and where nothing is loaded;
    /// the player is then left as it was. Otherwise the player counts as
    /// running and the worker for the performance is handed out.
    pub fn play(&mut self) -> (r: Result<Worker, PlayerError>)
        ensures
            match r {
                Ok(worker) => {
                    &&& !old(self).running()
                    &&& old(self).schedule().len() > 0
                    &&& final(self).running()
                    &&& worker.schedule@ == old(self).schedule()
                    &&& worker.delay_us == old(self).delay_us()
                    &&& worker.phase == Phase::Start
                },
                Err(e) => {
                    &&& final(self).running() == old(self).running()
                    &&& e == if old(self).running() {
                        PlayerError::AlreadyRunning
                    } else {
                        PlayerError::NoSongLoaded
                    }
                    &&& old(self).running() || old(self).schedule().len() == 0
                },
            },
            final(self).schedule() == old(self).schedule(),
            final(self).delay() == old(self).delay(),
            final(self).verbose() == old(self).verbose(),
    {
        if self.running {
            return Err(PlayerError::AlreadyRunning);
        }
        if self.schedule.len() == 0 {
            return Err(PlayerError::NoSongLoaded);
        }
        let mut schedule: Vec<ScheduledEvent> = Vec::new();
        let mut i: usize = 0;
        while i < self.schedule.len()
            invariant
                i <= self.schedule.len(),
                schedule@ == self.schedule@.take(i as int),
            decreases self.schedule.len() - i,
        {
            schedule.push(self.schedule[i]);
            proof {
                assert(schedule@ =~= self.schedule@.take(i + 1));
            }
            i += 1;
        }
        proof {
            assert(self.schedule@.take(i as int) == self.schedule@);
        }
        let delay_us = if self.delay > u64::MAX / SECOND_US {
            u64::MAX
        } else {
            self.delay * SECOND_US
        };
        self.running = true;
        Ok(Worker::new(schedule, delay_us))
    }

    /// Ends the running performance on request. Refused where none is
    /// running.
    pub fn stop(&mut self) -> (r: Result<(), PlayerError>)
        ensures
            r is Ok <==> old(self).running(),
            r matches Err(e) ==> e == PlayerError::NotRunning,
            !final(self).running(),
            final(self).schedule() == old(self).schedule(),
            final(self).delay() == old(self).delay(),
            final(self).verbose() == old(self).verbose(),
    {
        if !self.running {
            return Err(PlayerError::NotRunning);
        }
        self.running = false;
        Ok(())
    }

    /// Takes note that the running performance has come to its end.
    pub fn finished(&mut self)
        ensures
            !final(self).running(),
            final(self).schedule() == old(self).schedule(),
            final(self).delay() == old(self).delay(),
            final(self).verbose() == old(self).verbose(),
    {
        self.running = false;
    }
}

} // verus!
