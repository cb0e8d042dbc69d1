//! Collapsing overlapping notes into a single line.
//!
//! Every event contributes two boundary points, its start and its end. The
//! points are visited in order of time, ends before starts at the same
//! instant, while a table records which pitches sound. After each point the
//! policy picks one pitch; whenever the pick changes, the span that the old
//! pick covered is written out, unless it is too short to be heard.

use crate::error::ImportError;
use crate::model::song::{all_wf, Event, Note};
use crate::order::{
    lemma_sorted_keys, lemma_sorted_stays, lemma_stable_order, nondecreasing, sort_by_keys,
    sorted_by,
};
use crate::policy::{choose_pitch, chosen, lemma_chosen, sounding, PolyPolicy, PITCHES};
use vstd::prelude::*;

verus! {

/// Spans up to this length are not written out, and gaps up to this length
/// between equal notes can be closed.
pub const EPSILON_US: u64 = 2_000;

/// The start or the end of a note.
#[derive(Debug, Clone, Copy)]
pub struct Point {
    pub time_us: u64,
    pub is_start: bool,
    pub midi: u8,
    pub velocity: u8,
}

/// What the sweep knows after a number of points.
pub struct Sweep {
    /// For each pitch the velocity it sounds with, if it sounds.
    pub active: Seq<Option<u8>>,
    /// The picked pitch and the instant since which it is the pick.
    pub current: Option<(u8, u64)>,
    /// The spans written out so far.
    pub out: Seq<Event>,
}

/// Sort key of a point: by time, an end before a start.
pub open spec fn point_key(p: Point) -> u128 {
    (2 * p.time_us + if p.is_start { 1int } else { 0int }) as u128
}

/// The point at which `e` begins to sound.
pub open spec fn start_point(e: Event) -> Point {
    Point { time_us: e.time_us, is_start: true, midi: e.note.midi, velocity: e.note.velocity }
}

/// The point at which `e` falls silent.
pub open spec fn end_point(e: Event) -> Point {
    Point {
        time_us: e.end() as u64,
        is_start: false,
        midi: e.note.midi,
        velocity: e.note.velocity,
    }
}

/// Start and end of each event, event by event.
pub open spec fn points_of(events: Seq<Event>) -> Seq<Point>
    decreases events.len(),
{
    if events.len() == 0 {
        Seq::empty()
    } else {
        points_of(events.drop_last()).push(start_point(events.last())).push(
            end_point(events.last()),
        )
    }
}

/// The sort key of each point.
pub open spec fn point_keys(points: Seq<Point>) -> Seq<u128> {
    Seq::new(points.len(), |i: int| point_key(points[i]))
}

/// The points of `events` in the order in which the sweep visits them.
pub open spec fn boundary_points(events: Seq<Event>) -> Seq<Point> {
    sorted_by(points_of(events), point_keys(points_of(events)))
}

/// No point lies before an earlier one.
pub open spec fn time_sorted(points: Seq<Point>) -> bool {
    forall|i: int, j: int|
        0 <= i <= j < points.len() ==> (#[trigger] points[i]).time_us <= (
        #[trigger] points[j]).time_us
}

/// The table of sounding pitches after `pt`.
pub open spec fn after_point(active: Seq<Option<u8>>, pt: Point) -> Seq<Option<u8>> {
    active.update(pt.midi as int, if pt.is_start { Some(pt.velocity) } else { None })
}

/// The pitch that is the pick in state `s`.
pub open spec fn playing(s: Sweep) -> Option<u8> {
    match s.current {
        Some((p, _)) => Some(p),
        None => None,
    }
}

/// The state before the first point: nothing sounds, nothing is written.
pub open spec fn sweep_start() -> Sweep {
    Sweep {
        active: Seq::new(PITCHES as nat, |i: int| None::<u8>),
        current: None,
        out: Seq::empty(),
    }
}

/// The state after visiting `pt` in state `s`.
///
/// A span that is written out carries the velocity of the point that ended
/// it.
pub open spec fn step(policy: PolyPolicy, s: Sweep, pt: Point) -> Sweep {
    let active = after_point(s.active, pt);
    let pick = chosen(policy, active);
    if pick == playing(s) {
        Sweep { active, current: s.current, out: s.out }
    } else {
        let out = match s.current {
            Some((p, since)) if pt.time_us > since + EPSILON_US => s.out.push(
                Event {
                    note: Note { midi: p, velocity: pt.velocity },
                    time_us: since,
                    duration_us: (pt.time_us - since) as u64,
                },
            ),
            _ => s.out,
        };
        let current = match pick {
            Some(c) => Some((c, pt.time_us)),
            None => None,
        };
        Sweep { active, current, out }
    }
}

/// The state after visiting all of `points` in order.
pub open spec fn sweep(policy: PolyPolicy, points: Seq<Point>) -> Sweep
    decreases points.len(),
{
    if points.len() == 0 {
        sweep_start()
    } else {
        step(policy, sweep(policy, points.drop_last()), points.last())
    }
}

/// `ev` continues `last`: the same pitch, and it starts within the epsilon
/// of the instant at which `last` ends.
pub open spec fn mergeable(last: Event, ev: Event) -> bool {
    last.note.midi == ev.note.midi && -(EPSILON_US as int) <= last.end() - ev.time_us
        <= EPSILON_US
}

/// `last` drawn out to the later of the two ends. It keeps its velocity.
pub open spec fn merged(last: Event, ev: Event) -> Event {
    let end = if last.end() >= ev.end() { last.end() } else { ev.end() };
    Event { note: last.note, time_us: last.time_us, duration_us: (end - last.time_us) as u64 }
}

/// `events` with each run of events that continue one another drawn
/// together into its first event.
pub open spec fn merge_adjacent(events: Seq<Event>) -> Seq<Event>
    decreases events.len(),
{
    if events.len() == 0 {
        Seq::empty()
    } else {
        let done = merge_adjacent(events.drop_last());
        if done.len() > 0 && mergeable(done.last(), events.last()) {
            done.update(done.len() - 1, merged(done.last(), events.last()))
        } else {
            done.push(events.last())
        }
    }
}

/// The single line that `policy` makes of `events`.
pub open spec fn reduced(events: Seq<Event>, policy: PolyPolicy, merge: bool) -> Seq<Event> {
    let line = sweep(policy, boundary_points(events)).out;
    if merge {
        merge_adjacent(line)
    } else {
        line
    }
}

/// No event begins before the one in front of it has ended.
pub open spec fn monophonic(events: Seq<Event>) -> bool {
    forall|i: int|
        0 <= i < events.len() - 1 ==> (#[trigger] events[i]).end() <= events[i + 1].time_us
}

/// Every event lasts longer than the epsilon.
pub open spec fn audible(events: Seq<Event>) -> bool {
    forall|i: int| 0 <= i < events.len() ==> (#[trigger] events[i]).duration_us > EPSILON_US
}

/// A line as the reduction leaves it: audible events of representable
/// extent, none overlapping the next, all over by `bound`.
pub open spec fn line_until(events: Seq<Event>, bound: int) -> bool {
    &&& all_wf(events)
    &&& audible(events)
    &&& monophonic(events)
    &&& events.len() > 0 ==> events.last().end() <= bound
}

/// The sweep has seen points up to `now` and its state is in order.
pub open spec fn settled(s: Sweep, now: int) -> bool {
    &&& s.active.len() == PITCHES
    &&& match s.current {
        Some((_, since)) => since <= now && line_until(s.out, since as int),
        None => line_until(s.out, now),
    }
}

proof fn lemma_line_push(events: Seq<Event>, bound: int, e: Event, later: int)
    requires
        line_until(events, bound),
        bound <= e.time_us,
        e.duration_us > EPSILON_US,
        e.end() <= later,
        e.wf(),
    ensures
        line_until(events.push(e), later),
{
    let grown = events.push(e);
    assert forall|i: int| 0 <= i < grown.len() - 1 implies (#[trigger] grown[i]).end() <= grown[i
        + 1].time_us by {
        if i < events.len() - 1 {
            assert(grown[i] == events[i]);
            assert(grown[i + 1] == events[i + 1]);
        }
    }
}

/// One point later in time keeps the sweep in order.
pub proof fn lemma_step_settled(policy: PolyPolicy, s: Sweep, pt: Point, now: int)
    requires
        settled(s, now),
        now <= pt.time_us,
    ensures
        settled(step(policy, s, pt), pt.time_us as int),
{
    let next = step(policy, s, pt);
    if chosen(policy, after_point(s.active, pt)) != playing(s) {
        match s.current {
            Some((p, since)) => {
                if pt.time_us > since + EPSILON_US {
                    let e = Event {
                        note: Note { midi: p, velocity: pt.velocity },
                        time_us: since,
                        duration_us: (pt.time_us - since) as u64,
                    };
                    lemma_line_push(s.out, since as int, e, pt.time_us as int);
                }
            },
            None => {},
        }
    }
}

/// Visiting points in order of time leaves a line without overlap, made of
/// audible events.
pub proof fn lemma_sweep_settled(policy: PolyPolicy, points: Seq<Point>)
    requires
        time_sorted(points),
    ensures
        settled(sweep(policy, points), if points.len() == 0 { 0 } else { points.last().time_us as int }),
        points.len() > 0 ==> line_until(sweep(policy, points).out, points.last().time_us as int),
    decreases points.len(),
{
    if points.len() > 0 {
        let front = points.drop_last();
        assert forall|i: int, j: int| 0 <= i <= j < front.len() implies (#[trigger] front[i]).time_us
            <= (#[trigger] front[j]).time_us by {
            assert(front[i] == points[i] && front[j] == points[j]);
        }
        lemma_sweep_settled(policy, front);
        let now = if front.len() == 0 { 0 } else { front.last().time_us as int };
        if front.len() > 0 {
            assert(front.last() == points[front.len() - 1]);
            assert(points.last() == points[points.len() - 1]);
        }
        lemma_step_settled(policy, sweep(policy, front), points.last(), now);
    }
}

/// The boundary points of events come in order of time.
pub proof fn lemma_boundary_sorted(events: Seq<Event>)
    requires
        2 * events.len() <= usize::MAX,
    ensures
        time_sorted(boundary_points(events)),
        boundary_points(events).len() == 2 * events.len(),
{
    let points = points_of(events);
    let keys = point_keys(points);
    lemma_points_len(events);
    lemma_stable_order(keys);
    let sorted = boundary_points(events);
    assert forall|i: int, j: int| 0 <= i <= j < sorted.len() implies (#[trigger] sorted[i]).time_us
        <= (#[trigger] sorted[j]).time_us by {
        lemma_sorted_keys(keys, i, j);
    }
}

proof fn lemma_points_len(events: Seq<Event>)
    ensures
        points_of(events).len() == 2 * events.len(),
    decreases events.len(),
{
    if events.len() > 0 {
        lemma_points_len(events.drop_last());
    }
}

/// Merging keeps a line a line, and leaves its end where it was.
pub proof fn lemma_merge_line(events: Seq<Event>, bound: int)
    requires
        line_until(events, bound),
    ensures
        line_until(merge_adjacent(events), bound),
        merge_adjacent(events).len() <= events.len(),
        events.len() > 0 ==> merge_adjacent(events).len() > 0 && merge_adjacent(
            events,
        ).last().end() == events.last().end(),
    decreases events.len(),
{
    if events.len() > 0 {
        let front = events.drop_last();
        let ev = events.last();
        assert(ev == events[events.len() - 1]);
        assert forall|i: int| 0 <= i < front.len() implies #[trigger] front[i] == events[i] by {}
        assert(monophonic(front)) by {
            assert forall|i: int| 0 <= i < front.len() - 1 implies (#[trigger] front[i]).end()
                <= front[i + 1].time_us by {
                assert(front[i] == events[i]);
            }
        }
        let mid: int = if front.len() > 0 { front.last().end() } else { ev.time_us as int };
        if front.len() > 0 {
            assert(front.last() == events[events.len() - 2]);
            assert(events[events.len() - 2].end() <= events[events.len() - 2 + 1].time_us);
        }
        lemma_merge_line(front, mid);
        let done = merge_adjacent(front);
        if done.len() > 0 && mergeable(done.last(), ev) {
            let joined = merged(done.last(), ev);
            let after = done.update(done.len() - 1, joined);
            assert forall|i: int| 0 <= i < after.len() - 1 implies (#[trigger] after[i]).end()
                <= after[i + 1].time_us by {
                assert(after[i] == done[i]);
                if i + 1 < done.len() - 1 {
                    assert(after[i + 1] == done[i + 1]);
                }
            }
            assert forall|i: int| 0 <= i < after.len() implies (#[trigger] after[i]).wf()
                && after[i].duration_us > EPSILON_US by {
                if i < done.len() - 1 {
                    assert(after[i] == done[i]);
                }
            }
        } else {
            lemma_line_push(done, mid, ev, bound);
        }
    }
}

/// Events that do not continue one another are left as they are.
pub open spec fn apart(events: Seq<Event>) -> bool {
    forall|i: int| 0 <= i < events.len() - 1 ==> !mergeable(#[trigger] events[i], events[i + 1])
}

proof fn lemma_merge_apart(events: Seq<Event>)
    ensures
        apart(merge_adjacent(events)),
    decreases events.len(),
{
    if events.len() > 0 {
        let front = events.drop_last();
        let ev = events.last();
        lemma_merge_apart(front);
        let done = merge_adjacent(front);
        if done.len() > 0 && mergeable(done.last(), ev) {
            let after = done.update(done.len() - 1, merged(done.last(), ev));
            assert forall|i: int| 0 <= i < after.len() - 1 implies !mergeable(
                #[trigger] after[i],
                after[i + 1],
            ) by {
                assert(after[i] == done[i]);
                assert(!mergeable(done[i], done[i + 1]));
            }
        } else {
            let after = done.push(ev);
            assert forall|i: int| 0 <= i < after.len() - 1 implies !mergeable(
                #[trigger] after[i],
                after[i + 1],
            ) by {
                assert(after[i] == done[i]);
                if i + 1 < done.len() {
                    assert(after[i + 1] == done[i + 1]);
                }
            }
        }
    }
}

proof fn lemma_apart_fixed(events: Seq<Event>)
    requires
        apart(events),
    ensures
        merge_adjacent(events) == events,
    decreases events.len(),
{
    if events.len() > 0 {
        let front = events.drop_last();
        assert forall|i: int| 0 <= i < front.len() - 1 implies !mergeable(
            #[trigger] front[i],
            front[i + 1],
        ) by {
            assert(front[i] == events[i]);
            assert(front[i + 1] == events[i + 1]);
        }
        lemma_apart_fixed(front);
        if front.len() > 0 {
            assert(front.last() == events[events.len() - 2]);
            assert(events.last() == events[events.len() - 2 + 1]);
        }
        assert(front.push(events.last()) =~= events);
    }
}

/// Merging what has been merged changes nothing.
pub proof fn lemma_merge_idempotent(events: Seq<Event>)
    ensures
        merge_adjacent(merge_adjacent(events)) == merge_adjacent(events),
{
    lemma_merge_apart(events);
    lemma_apart_fixed(merge_adjacent(events));
}

/// Two events of one pitch, the second starting no more than the epsilon
/// after the first ends, merge into one event that lasts as long as both
/// and the gap between them together.
pub proof fn lemma_merge_pair(a: Event, b: Event)
    requires
        a.wf(),
        b.wf(),
        a.note.midi == b.note.midi,
        a.end() <= b.time_us <= a.end() + EPSILON_US,
    ensures
        merge_adjacent(seq![a, b]) == seq![
            Event {
                note: a.note,
                time_us: a.time_us,
                duration_us: (a.duration_us + (b.time_us - a.end()) + b.duration_us) as u64,
            },
        ],
{
    let both = seq![a, b];
    let front = both.drop_last();
    assert(front =~= seq![a]);
    assert(front.drop_last() =~= Seq::<Event>::empty());
    assert(merge_adjacent(front.drop_last()) =~= Seq::<Event>::empty());
    assert(merge_adjacent(front) =~= seq![a]);
    assert(both.last() == b);
    assert(mergeable(a, b));
    assert(merge_adjacent(both) =~= seq![merged(a, b)]);
}

proof fn lemma_points_at(events: Seq<Event>, i: int)
    requires
        0 <= i < events.len(),
    ensures
        points_of(events).len() == 2 * events.len(),
        points_of(events)[2 * i] == start_point(events[i]),
        points_of(events)[2 * i + 1] == end_point(events[i]),
    decreases events.len(),
{
    lemma_points_len(events);
    lemma_points_len(events.drop_last());
    if i < events.len() - 1 {
        lemma_points_at(events.drop_last(), i);
        assert(events.drop_last()[i] == events[i]);
    }
}

proof fn lemma_chain(line: Seq<Event>, i: int, j: int)
    requires
        monophonic(line),
        0 <= i < j < line.len(),
    ensures
        line[i].end() <= line[j].time_us,
    decreases j - i,
{
    if i + 1 < j {
        lemma_chain(line, i, j - 1);
        assert(line[j - 1].end() <= line[j - 1 + 1].time_us);
    } else {
        assert(line[i].end() <= line[i + 1].time_us);
    }
}

/// The points of the event at position `i` stand at the positions `2 * i`
/// and `2 * i + 1`, its start in front of its end.
pub proof fn lemma_points(events: Seq<Event>, i: int)
    ensures
        points_of(events).len() == 2 * events.len(),
        0 <= i < events.len() ==> points_of(events)[2 * i] == start_point(events[i])
            && points_of(events)[2 * i + 1] == end_point(events[i]),
{
    lemma_points_len(events);
    if 0 <= i < events.len() {
        lemma_points_at(events, i);
    }
}

proof fn lemma_line_points_sorted(line: Seq<Event>)
    requires
        monophonic(line),
        audible(line),
        all_wf(line),
    ensures
        nondecreasing(point_keys(points_of(line))),
{
    let points = points_of(line);
    let keys = point_keys(points);
    lemma_points_len(line);
    assert forall|a: int, b: int| 0 <= a <= b < keys.len() implies keys[a] <= keys[b] by {
        let i = a / 2;
        let j = b / 2;
        lemma_points_at(line, i);
        lemma_points_at(line, j);
        assert(line[i].wf() && line[j].wf());
        assert(line[i].duration_us > EPSILON_US && line[j].duration_us > EPSILON_US);
        if i < j {
            lemma_chain(line, i, j);
        }
    }
}

proof fn lemma_lone_pitch(policy: PolyPolicy, p: u8, v: u8)
    requires
        policy != PolyPolicy::Densest,
    ensures
        chosen(policy, sweep_start().active) is None,
        chosen(policy, sweep_start().active.update(p as int, Some(v))) == Some(p),
        sweep_start().active.update(p as int, Some(v)).update(p as int, None::<u8>)
            == sweep_start().active,
{
    let silent = sweep_start().active;
    let one = silent.update(p as int, Some(v));
    lemma_chosen(policy, silent);
    lemma_chosen(policy, one);
    assert(sounding(one, p as int));
    if let Some(c) = chosen(policy, silent) {
        assert(sounding(silent, c as int));
    }
    if let Some(c) = chosen(policy, one) {
        assert(sounding(one, c as int));
        if c != p {
            assert(one[c as int] == silent[c as int]);
        }
    }
    assert(one.update(p as int, None::<u8>) =~= silent);
}

/// Swept event by event, a line of audible events comes out as it went in.
proof fn lemma_sweep_line(policy: PolyPolicy, line: Seq<Event>)
    requires
        policy != PolyPolicy::Densest,
        audible(line),
        all_wf(line),
    ensures
        sweep(policy, points_of(line)) == (Sweep {
            active: sweep_start().active,
            current: None,
            out: line,
        }),
    decreases line.len(),
{
    if line.len() == 0 {
        assert(sweep(policy, points_of(line)).out =~= line);
    } else {
        let front = line.drop_last();
        let e = line.last();
        assert(e == line[line.len() - 1]);
        assert(e.wf() && e.duration_us > EPSILON_US);
        assert forall|i: int| 0 <= i < front.len() implies (#[trigger] front[i]).wf()
            && front[i].duration_us > EPSILON_US by {
            assert(front[i] == line[i]);
        }
        lemma_sweep_line(policy, front);
        let base = points_of(front);
        let with_start = base.push(start_point(e));
        let all = with_start.push(end_point(e));
        assert(all == points_of(line));
        assert(all.drop_last() == with_start);
        assert(all.last() == end_point(e));
        assert(with_start.drop_last() == base);
        assert(with_start.last() == start_point(e));
        lemma_lone_pitch(policy, e.note.midi, e.note.velocity);
        let s0 = sweep(policy, base);
        let s1 = step(policy, s0, start_point(e));
        assert(sweep(policy, with_start) == s1);
        assert(s1.current == Some((e.note.midi, e.time_us)));
        let s2 = step(policy, s1, end_point(e));
        assert(sweep(policy, all) == s2);
        assert(s2.out =~= line);
    }
}

/// A line as the reduction leaves it, without overlap, without events that
/// cannot be heard and without neighbours that continue one another, is
/// left as it is when it is reduced again, whatever the policy.
pub proof fn lemma_reduce_fixed(line: Seq<Event>, policy: PolyPolicy, merge: bool)
    requires
        policy != PolyPolicy::Densest,
        monophonic(line),
        audible(line),
        all_wf(line),
        apart(line),
        2 * line.len() <= usize::MAX,
    ensures
        reduced(line, policy, merge) == line,
{
    let points = points_of(line);
    lemma_points_len(line);
    lemma_line_points_sorted(line);
    lemma_sorted_stays(points, point_keys(points));
    lemma_sweep_line(policy, line);
    lemma_apart_fixed(line);
}

proof fn lemma_out_len(policy: PolyPolicy, points: Seq<Point>)
    ensures
        sweep(policy, points).out.len() <= points.len(),
    decreases points.len(),
{
    if points.len() > 0 {
        lemma_out_len(policy, points.drop_last());
    }
}

/// Reducing a reduced line changes nothing: the line has the same events
/// at the same times, and no two neighbours of one pitch lie within the
/// epsilon of one another.
pub proof fn lemma_reduce_idempotent(events: Seq<Event>, policy: PolyPolicy)
    requires
        policy != PolyPolicy::Densest,
        4 * events.len() <= usize::MAX,
    ensures
        reduced(reduced(events, policy, true), policy, true) == reduced(events, policy, true),
        apart(reduced(events, policy, true)),
{
    let points = boundary_points(events);
    let swept = sweep(policy, points).out;
    let line = reduced(events, policy, true);
    lemma_boundary_sorted(events);
    lemma_out_len(policy, points);
    lemma_reduced_line(events, policy, true);
    lemma_reduced_line(events, policy, false);
    lemma_merge_apart(swept);
    let bound: int = if swept.len() > 0 {
        swept.last().end()
    } else {
        0
    };
    lemma_merge_line(swept, bound);
    lemma_reduce_fixed(line, policy, true);
}

/// With merging switched off the line is what the sweep wrote out.
pub proof fn lemma_merge_off(events: Seq<Event>, policy: PolyPolicy)
    ensures
        reduced(events, policy, false) == sweep(policy, boundary_points(events)).out,
{
}

/// The reduced line has no overlap and no event that is too short to hear.
pub proof fn lemma_reduced_line(events: Seq<Event>, policy: PolyPolicy, merge: bool)
    requires
        2 * events.len() <= usize::MAX,
    ensures
        monophonic(reduced(events, policy, merge)),
        audible(reduced(events, policy, merge)),
        all_wf(reduced(events, policy, merge)),
{
    lemma_boundary_sorted(events);
    let points = boundary_points(events);
    lemma_sweep_settled(policy, points);
    if points.len() > 0 {
        lemma_merge_line(sweep(policy, points).out, points.last().time_us as int);
    } else {
        assert(merge_adjacent(Seq::<Event>::empty()) =~= Seq::<Event>::empty());
    }
}

/// The pitch that the policy picks right after the point at position `m`.
pub open spec fn pick_after(policy: PolyPolicy, points: Seq<Point>, m: int) -> Option<u8> {
    chosen(policy, sweep(policy, points.take(m + 1)).active)
}

/// The pitch `p` is the pick after every point from position `k` up to,
/// not including, position `c`, and not the pick right before and right
/// after that stretch.
pub open spec fn picked_between(
    policy: PolyPolicy,
    points: Seq<Point>,
    k: int,
    c: int,
    p: u8,
) -> bool {
    &&& 0 <= k < c <= points.len()
    &&& forall|m: int| k <= m < c ==> #[trigger] pick_after(policy, points, m) == Some(p)
    &&& k > 0 ==> pick_after(policy, points, k - 1) != Some(p)
    &&& c < points.len() ==> pick_after(policy, points, c) != Some(p)
}

/// `e` spans a stretch of points over which its pitch was the pick: it
/// starts with the point that made its pitch the pick and ends with the
/// point that made another pitch, or none, the pick, whose velocity it
/// carries.
pub open spec fn spans_pick(policy: PolyPolicy, points: Seq<Point>, e: Event) -> bool {
    exists|k: int, c: int|
        #![trigger points[k], points[c]]
        {
            &&& c < points.len()
            &&& picked_between(policy, points, k, c, e.note.midi)
            &&& points[k].time_us == e.time_us
            &&& points[c].time_us == e.end()
            &&& points[c].velocity == e.note.velocity
        }
}

proof fn lemma_pick_prefix(policy: PolyPolicy, points: Seq<Point>, m: int)
    requires
        0 <= m < points.len() - 1,
    ensures
        pick_after(policy, points, m) == pick_after(policy, points.drop_last(), m),
{
    assert(points.take(m + 1) == points.drop_last().take(m + 1));
}

proof fn lemma_picked_prefix(policy: PolyPolicy, points: Seq<Point>, k: int, c: int, p: u8)
    requires
        points.len() > 0,
        c < points.len() - 1,
        picked_between(policy, points.drop_last(), k, c, p),
    ensures
        picked_between(policy, points, k, c, p),
{
    assert forall|m: int| k <= m < c implies #[trigger] pick_after(policy, points, m) == Some(
        p,
    ) by {
        lemma_pick_prefix(policy, points, m);
        assert(pick_after(policy, points.drop_last(), m) == Some(p));
    }
    if k > 0 {
        lemma_pick_prefix(policy, points, k - 1);
    }
    lemma_pick_prefix(policy, points, c);
}

proof fn lemma_span_prefix(policy: PolyPolicy, points: Seq<Point>, e: Event)
    requires
        points.len() > 0,
        spans_pick(policy, points.drop_last(), e),
    ensures
        spans_pick(policy, points, e),
{
    let front = points.drop_last();
    let (k, c) = choose|k: int, c: int|
        #![trigger front[k], front[c]]
        {
            &&& c < front.len()
            &&& picked_between(policy, front, k, c, e.note.midi)
            &&& front[k].time_us == e.time_us
            &&& front[c].time_us == e.end()
            &&& front[c].velocity == e.note.velocity
        };
    lemma_picked_prefix(policy, points, k, c, e.note.midi);
    assert(points[k] == front[k] && points[c] == front[c]);
}

/// The pitch `p` has been the pick since the point at position `k`, which
/// lies at the instant `since`.
pub open spec fn picked_since(
    policy: PolyPolicy,
    points: Seq<Point>,
    k: int,
    p: u8,
    since: u64,
) -> bool {
    picked_between(policy, points, k, points.len() as int, p) && points[k].time_us == since
}

proof fn lemma_since_grows(policy: PolyPolicy, points: Seq<Point>, k: int, p: u8, since: u64)
    requires
        points.len() > 0,
        picked_since(policy, points.drop_last(), k, p, since),
        pick_after(policy, points, points.len() - 1) == Some(p),
    ensures
        picked_since(policy, points, k, p, since),
{
    let n = points.len() as int;
    let front = points.drop_last();
    assert forall|m: int| k <= m < n implies #[trigger] pick_after(policy, points, m) == Some(
        p,
    ) by {
        if m < n - 1 {
            lemma_pick_prefix(policy, points, m);
            assert(pick_after(policy, front, m) == Some(p));
        }
    }
    if k > 0 {
        lemma_pick_prefix(policy, points, k - 1);
    }
    assert(points[k] == front[k]);
}

proof fn lemma_since_ends(policy: PolyPolicy, points: Seq<Point>, k: int, p: u8, since: u64)
    requires
        points.len() > 0,
        picked_since(policy, points.drop_last(), k, p, since),
        pick_after(policy, points, points.len() - 1) != Some(p),
    ensures
        picked_between(policy, points, k, points.len() - 1, p),
        points[k].time_us == since,
{
    let n = points.len() as int;
    let front = points.drop_last();
    assert forall|m: int| k <= m < n - 1 implies #[trigger] pick_after(policy, points, m)
        == Some(p) by {
        lemma_pick_prefix(policy, points, m);
        assert(pick_after(policy, front, m) == Some(p));
    }
    if k > 0 {
        lemma_pick_prefix(policy, points, k - 1);
    }
    assert(points[k] == front[k]);
}

/// The position of the point that made the pick of the sweep what it is
/// after `points`.
pub open spec fn pick_start(policy: PolyPolicy, points: Seq<Point>) -> int
    decreases points.len(),
{
    if points.len() == 0 {
        0
    } else {
        let s = sweep(policy, points.drop_last());
        if chosen(policy, after_point(s.active, points.last())) == playing(s) {
            pick_start(policy, points.drop_last())
        } else {
            points.len() - 1
        }
    }
}

/// The pitch that the sweep holds as its pick is the pick after the last
/// point, since the point at which it became the pick; and every span that
/// the sweep has written out is a stretch over which its pitch was the
/// pick.
pub proof fn lemma_spans(policy: PolyPolicy, points: Seq<Point>)
    ensures
        points.len() > 0 ==> playing(sweep(policy, points)) == pick_after(
            policy,
            points,
            points.len() - 1,
        ),
        sweep(policy, points).current matches Some((p, since)) ==> picked_since(
            policy,
            points,
            pick_start(policy, points),
            p,
            since,
        ),
        forall|i: int|
            0 <= i < sweep(policy, points).out.len() ==> spans_pick(
                policy,
                points,
                #[trigger] sweep(policy, points).out[i],
            ),
    decreases points.len(),
{
    if points.len() > 0 {
        let n = points.len() as int;
        let front = points.drop_last();
        let pt = points.last();
        let s = sweep(policy, front);
        let next = sweep(policy, points);
        lemma_spans(policy, front);
        assert(points.take(n) == points);
        let pick = chosen(policy, after_point(s.active, pt));
        assert(pick == pick_after(policy, points, n - 1));
        assert(points[n - 1] == pt);
        if n > 1 {
            lemma_pick_prefix(policy, points, n - 2);
        }
        match s.current {
            Some((p, since)) => {
                let k = pick_start(policy, front);
                if pick == playing(s) {
                    lemma_since_grows(policy, points, k, p, since);
                    assert(next.current == Some((p, since)));
                    assert(picked_since(policy, points, k, p, since));
                } else {
                    lemma_since_ends(policy, points, k, p, since);
                    if pt.time_us > since + EPSILON_US {
                        assert(spans_pick(policy, points, next.out.last()));
                    }
                }
            },
            None => {},
        }
        if pick != playing(s) {
            match pick {
                Some(q) => {
                    assert(next.current == Some((q, pt.time_us)));
                    assert(picked_since(policy, points, n - 1, q, pt.time_us));
                },
                None => {
                    assert(next.current is None);
                },
            }
        }
        assert forall|i: int| 0 <= i < next.out.len() implies spans_pick(
            policy,
            points,
            #[trigger] next.out[i],
        ) by {
            if i < s.out.len() {
                assert(next.out[i] == s.out[i]);
                lemma_span_prefix(policy, points, s.out[i]);
            }
        }
    }
}

/// Without merging, every event of the reduced line covers a stretch of
/// boundary points over which the policy picked its pitch, from the point
/// that made it the pick to the point that ended that.
pub proof fn lemma_policy_spans(events: Seq<Event>, policy: PolyPolicy)
    ensures
        forall|i: int|
            0 <= i < reduced(events, policy, false).len() ==> spans_pick(
                policy,
                boundary_points(events),
                #[trigger] reduced(events, policy, false)[i],
            ),
{
    lemma_spans(policy, boundary_points(events));
}

fn key_of(p: &Point) -> (k: u128)
    ensures
        k == point_key(*p),
{
    let t: u128 = p.time_us as u128;
    if p.is_start {
        2 * t + 1
    } else {
        2 * t
    }
}

/// Lists the boundary points of `events` in the order of the sweep.
pub fn sorted_points(events: &Vec<Event>) -> (sorted: Vec<Point>)
    requires
        all_wf(events@),
        2 * events.len() <= usize::MAX,
    ensures
        sorted@ == boundary_points(events@),
{
    let mut points: Vec<Point> = Vec::new();
    let mut keys: Vec<u128> = Vec::new();
    let mut i: usize = 0;
    while i < events.len()
        invariant
            i <= events.len(),
            all_wf(events@),
            2 * events.len() <= usize::MAX,
            points@ == points_of(events@.take(i as int)),
            keys@ == point_keys(points@),
        decreases events.len() - i,
    {
        let ev = events[i];
        assert(events@[i as int].wf());
        let start = Point {
            time_us: ev.time_us,
            is_start: true,
            midi: ev.note.midi,
            velocity: ev.note.velocity,
        };
        let end = Point {
            time_us: ev.time_us + ev.duration_us,
            is_start: false,
            midi: ev.note.midi,
            velocity: ev.note.velocity,
        };
        points.push(start);
        keys.push(key_of(&start));
        points.push(end);
        keys.push(key_of(&end));
        proof {
            let taken = events@.take(i + 1);
            assert(taken.drop_last() == events@.take(i as int));
            assert(taken.last() == ev);
            assert(keys@ =~= point_keys(points@));
        }
        i += 1;
    }
    proof {
        assert(events@.take(i as int) == events@);
    }
    sort_by_keys(&points, &keys)
}

fn silent_table() -> (active: Vec<Option<u8>>)
    ensures
        active@ == sweep_start().active,
{
    let mut active: Vec<Option<u8>> = Vec::new();
    let mut n: usize = 0;
    while n < PITCHES
        invariant
            n <= PITCHES,
            active.len() == n,
            forall|i: int| 0 <= i < n ==> active@[i] == None::<u8>,
        decreases PITCHES - n,
    {
        active.push(None);
        n += 1;
    }
    proof {
        assert(active@ =~= sweep_start().active);
    }
    active
}

/// Draws together events that continue one another.
pub fn merge_events(events: &Vec<Event>) -> (out: Vec<Event>)
    requires
        all_wf(events@),
    ensures
        out@ == merge_adjacent(events@),
{
    let mut out: Vec<Event> = Vec::new();
    let mut i: usize = 0;
    while i < events.len()
        invariant
            i <= events.len(),
            all_wf(events@),
            all_wf(out@),
            out@ == merge_adjacent(events@.take(i as int)),
        decreases events.len() - i,
    {
        let ev = events[i];
        assert(events@[i as int].wf());
        proof {
            let taken = events@.take(i + 1);
            assert(taken.drop_last() == events@.take(i as int));
            assert(taken.last() == ev);
        }
        let n = out.len();
        let mut joined = false;
        if n > 0 {
            let last = out[n - 1];
            assert(out@[n - 1].wf());
            let last_end = last.time_us + last.duration_us;
            let ev_end = ev.time_us + ev.duration_us;
            let gap = if last_end >= ev.time_us {
                last_end - ev.time_us
            } else {
                ev.time_us - last_end
            };
            if last.note.midi == ev.note.midi && gap <= EPSILON_US {
                let end = if last_end >= ev_end {
                    last_end
                } else {
                    ev_end
                };
                out.set(
                    n - 1,
                    Event { note: last.note, time_us: last.time_us, duration_us: end - last.time_us },
                );
                joined = true;
            }
        }
        if !joined {
            out.push(ev);
        }
        i += 1;
    }
    proof {
        assert(events@.take(i as int) == events@);
    }
    out
}

/// Reduces `events` to a single line by `policy`, merging events that
/// continue one another if `merge` is set.
///
/// The result has no overlapping events and none that lasts the epsilon or
/// less. A policy without implementation is refused as soon as there is
/// anything to reduce.
pub fn reduce_to_monophonic(events: Vec<Event>, policy: PolyPolicy, merge: bool) -> (r: Result<
    Vec<Event>,
    ImportError,
>)
    requires
        all_wf(events@),
        2 * events.len() <= usize::MAX,
    ensures
        r is Err <==> policy == PolyPolicy::Densest && events.len() > 0,
        r matches Err(e) ==> e == ImportError::UnsupportedPolicy,
        r matches Ok(line) ==> {
            &&& line@ == reduced(events@, policy, merge)
            &&& monophonic(line@)
            &&& audible(line@)
            &&& all_wf(line@)
        },
{
    if events.len() == 0 {
        proof {
            assert(points_of(events@) =~= Seq::<Point>::empty());
            assert(point_keys(points_of(events@)) =~= Seq::<u128>::empty());
            assert(boundary_points(events@) =~= Seq::<Point>::empty());
            assert(merge_adjacent(Seq::<Event>::empty()) =~= Seq::<Event>::empty());
            assert(events@ =~= reduced(events@, policy, merge));
        }
        return Ok(events);
    }
    if let PolyPolicy::Densest = policy {
        return Err(ImportError::UnsupportedPolicy);
    }
    let sorted = sorted_points(&events);
    proof {
        lemma_boundary_sorted(events@);
    }
    let mut active = silent_table();
    let mut current: Option<(u8, u64)> = None;
    let mut out: Vec<Event> = Vec::new();
    let ghost mut now: int = 0;
    let mut i: usize = 0;
    while i < sorted.len()
        invariant
            i <= sorted.len(),
            time_sorted(sorted@),
            (Sweep { active: active@, current, out: out@ }) == sweep(policy, sorted@.take(i as int)),
            settled((Sweep { active: active@, current, out: out@ }), now),
            i > 0 ==> now == sorted@[i - 1].time_us,
            i == 0 ==> now == 0,
        decreases sorted.len() - i,
    {
        let pt = sorted[i];
        let ghost before = (Sweep { active: active@, current, out: out@ });
        proof {
            let taken = sorted@.take(i + 1);
            assert(taken.drop_last() == sorted@.take(i as int));
            assert(taken.last() == pt);
            if i > 0 {
                assert(sorted@[i - 1].time_us <= sorted@[i as int].time_us);
            }
            lemma_step_settled(policy, before, pt, now);
        }
        active.set(
            pt.midi as usize,
            if pt.is_start {
                Some(pt.velocity)
            } else {
                None
            },
        );
        let pick = choose_pitch(policy, &active);
        let same = match (pick, current) {
            (Some(c), Some((p, _))) => c == p,
            (None, None) => true,
            _ => false,
        };
        if !same {
            if let Some((p, since)) = current {
                if pt.time_us - since > EPSILON_US {
                    out.push(
                        Event {
                            note: Note { midi: p, velocity: pt.velocity },
                            time_us: since,
                            duration_us: pt.time_us - since,
                        },
                    );
                }
            }
            current =
            match pick {
                Some(c) => Some((c, pt.time_us)),
                None => None,
            };
        }
        proof {
            now = pt.time_us as int;
            assert((Sweep { active: active@, current, out: out@ }) == step(policy, before, pt));
        }
        i += 1;
    }
    proof {
        assert(sorted@.take(i as int) == sorted@);
        lemma_merge_line(out@, now);
    }
    if merge {
        Ok(merge_events(&out))
    } else {
        Ok(out)
    }
}

} // verus!
