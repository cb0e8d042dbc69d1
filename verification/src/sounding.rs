//! What the reduced line says of the notes that went in.
//!
//! The sweep decides by a table of sounding pitches. Where no two notes of
//! one pitch overlap, that table holds, between two boundary points, exactly
//! the pitches of the notes that sound there. So every event of the line
//! plays, at every instant inside it, the note that the policy picks among
//! the notes sounding at that instant.

use crate::model::song::{all_wf, Event};
use crate::order::{lemma_sorted_keys, lemma_stable_order, stable_order, visits};
use crate::policy::{lemma_chosen, sounding, PolyPolicy, PITCHES};
use crate::reduce::{
    after_point, boundary_points, end_point, lemma_spans, pick_after, picked_between, point_key,
    point_keys, points_of, reduced, spans_pick, start_point, step, sweep, Point,
};
use vstd::prelude::*;

verus! {

/// The event sounds at the instant `t`: it has begun and not yet ended.
pub open spec fn sounds_at(e: Event, t: int) -> bool {
    e.time_us <= t < e.end()
}

/// Every event lasts some time.
pub open spec fn lasting(events: Seq<Event>) -> bool {
    forall|i: int| 0 <= i < events.len() ==> (#[trigger] events[i]).duration_us > 0
}

/// No two events of one pitch overlap.
pub open spec fn pitches_apart(events: Seq<Event>) -> bool {
    forall|i: int, j: int|
        0 <= i < events.len() && 0 <= j < events.len() && i != j && (
        #[trigger] events[i]).note.midi == (#[trigger] events[j]).note.midi ==> events[i].end()
            <= events[j].time_us || events[j].end() <= events[i].time_us
}

/// The position of the last of the first `n` points that concerns the
/// pitch `p`, or -1.
pub open spec fn last_of(pts: Seq<Point>, n: int, p: u8) -> int
    decreases n,
{
    if n <= 0 {
        -1
    } else if pts[n - 1].midi == p {
        n - 1
    } else {
        last_of(pts, n - 1, p)
    }
}

proof fn lemma_last_of(pts: Seq<Point>, n: int, p: u8)
    requires
        0 <= n <= pts.len(),
    ensures
        -1 <= last_of(pts, n, p) < n,
        last_of(pts, n, p) >= 0 ==> pts[last_of(pts, n, p)].midi == p,
        forall|i: int| last_of(pts, n, p) < i < n ==> (#[trigger] pts[i]).midi != p,
    decreases n,
{
    if n > 0 && pts[n - 1].midi != p {
        lemma_last_of(pts, n - 1, p);
    }
}

/// After the first `n` points a pitch sounds in the table exactly where the
/// last point that concerns it is the start of a note.
proof fn lemma_table(policy: PolyPolicy, pts: Seq<Point>, n: int)
    requires
        0 <= n <= pts.len(),
    ensures
        sweep(policy, pts.take(n)).active.len() == PITCHES,
        forall|p: u8|
            sounding(sweep(policy, pts.take(n)).active, p as int) == (#[trigger] last_of(
                pts,
                n,
                p,
            ) >= 0 && pts[last_of(pts, n, p)].is_start),
        forall|p: u8|
            sounding(sweep(policy, pts.take(n)).active, p as int) ==> sweep(
                policy,
                pts.take(n),
            ).active[p as int] == Some(pts[#[trigger] last_of(pts, n, p)].velocity),
    decreases n,
{
    if n > 0 {
        lemma_table(policy, pts, n - 1);
        assert(pts.take(n).drop_last() == pts.take(n - 1));
        assert(pts.take(n).last() == pts[n - 1]);
        let before = sweep(policy, pts.take(n - 1));
        let after = sweep(policy, pts.take(n));
        assert(after == step(policy, before, pts[n - 1]));
        assert(after.active == after_point(before.active, pts[n - 1]));
        assert forall|p: u8|
            sounding(after.active, p as int) == (#[trigger] last_of(pts, n, p) >= 0
                && pts[last_of(pts, n, p)].is_start) by {
            if pts[n - 1].midi != p {
                assert(after.active[p as int] == before.active[p as int]);
                assert(last_of(pts, n - 1, p) == last_of(pts, n, p));
            }
        }
        assert forall|p: u8| sounding(after.active, p as int) implies after.active[p as int]
            == Some(pts[#[trigger] last_of(pts, n, p)].velocity) by {
            if pts[n - 1].midi != p {
                assert(after.active[p as int] == before.active[p as int]);
                assert(last_of(pts, n - 1, p) == last_of(pts, n, p));
            }
        }
    } else {
        assert(pts.take(0) =~= Seq::<Point>::empty());
    }
}

/// The event from which the boundary point at position `i` comes.
proof fn lemma_point_origin(events: Seq<Event>, i: int) -> (j: int)
    requires
        2 * events.len() <= usize::MAX,
        0 <= i < 2 * events.len(),
    ensures
        0 <= j < events.len(),
        boundary_points(events).len() == 2 * events.len(),
        boundary_points(events)[i] == start_point(events[j]) || boundary_points(events)[i]
            == end_point(events[j]),
{
    let points = points_of(events);
    crate::reduce::lemma_points(events, 0);
    let keys = point_keys(points);
    lemma_stable_order(keys);
    let o = stable_order(keys)[i] as int;
    crate::reduce::lemma_points(events, o / 2);
    o / 2
}

/// The position of the boundary point at which the event at position `j`
/// starts, or ends.
proof fn lemma_point_place(events: Seq<Event>, j: int, start: bool) -> (i: int)
    requires
        2 * events.len() <= usize::MAX,
        0 <= j < events.len(),
    ensures
        0 <= i < 2 * events.len(),
        boundary_points(events).len() == 2 * events.len(),
        boundary_points(events)[i] == if start {
            start_point(events[j])
        } else {
            end_point(events[j])
        },
{
    let points = points_of(events);
    crate::reduce::lemma_points(events, j);
    let keys = point_keys(points);
    lemma_stable_order(keys);
    let o: int = if start {
        2 * j
    } else {
        2 * j + 1
    };
    let order = stable_order(keys);
    assert(visits(order, o));
    choose|i: int| 0 <= i < order.len() && #[trigger] order[i] == o
}

proof fn lemma_keys_in_order(events: Seq<Event>, a: int, b: int)
    requires
        2 * events.len() <= usize::MAX,
        0 <= a <= b < 2 * events.len(),
    ensures
        boundary_points(events).len() == 2 * events.len(),
        point_key(boundary_points(events)[a]) <= point_key(boundary_points(events)[b]),
        boundary_points(events)[a].time_us <= boundary_points(events)[b].time_us,
{
    let points = points_of(events);
    crate::reduce::lemma_points(events, 0);
    let keys = point_keys(points);
    lemma_sorted_keys(keys, a, b);
}

/// Between two points that lie apart in time there is a last point at or
/// before any instant in between.
proof fn lemma_find(pts: Seq<Point>, k: int, c: int, t: int) -> (m: int)
    requires
        0 <= k < c < pts.len(),
        pts[k].time_us <= t < pts[c].time_us,
    ensures
        k <= m < c,
        pts[m].time_us <= t < pts[m + 1].time_us,
    decreases c - k,
{
    if pts[c - 1].time_us <= t {
        c - 1
    } else {
        lemma_find(pts, k, c - 1, t)
    }
}

/// Between the points at positions `m` and `m + 1`, which lie apart in
/// time, a note of pitch `p` sounds exactly where the last point up to `m`
/// that concerns `p` is the start of a note.
proof fn lemma_sounding_between(events: Seq<Event>, m: int, t: int, p: u8)
    requires
        all_wf(events),
        lasting(events),
        pitches_apart(events),
        2 * events.len() <= usize::MAX,
        0 <= m < 2 * events.len() - 1,
        boundary_points(events)[m].time_us <= t < boundary_points(events)[m + 1].time_us,
    ensures
        (last_of(boundary_points(events), m + 1, p) >= 0 && boundary_points(events)[last_of(
            boundary_points(events),
            m + 1,
            p,
        )].is_start) == (exists|j: int|
            0 <= j < events.len() && (#[trigger] events[j]).note.midi == p && sounds_at(
                events[j],
                t,
            )),
        forall|j: int|
            0 <= j < events.len() && (#[trigger] events[j]).note.midi == p && sounds_at(
                events[j],
                t,
            ) ==> events[j].note.velocity == boundary_points(events)[last_of(
                boundary_points(events),
                m + 1,
                p,
            )].velocity,
{
    let pts = boundary_points(events);
    lemma_keys_in_order(events, m, m + 1);
    lemma_last_of(pts, m + 1, p);
    let i = last_of(pts, m + 1, p);
    if i >= 0 && pts[i].is_start {
        let j = lemma_point_origin(events, i);
        let x = events[j];
        assert(x.wf() && x.duration_us > 0);
        assert(pts[i] == start_point(x));
        let b = lemma_point_place(events, j, false);
        lemma_keys_in_order(events, i, m);
        if b <= m {
            assert(b <= i) by {
                if b > i {
                    assert(pts[b].midi != p);
                }
            }
            lemma_keys_in_order(events, b, i);
        } else {
            lemma_keys_in_order(events, m + 1, b);
        }
        assert(sounds_at(events[j], t));
    }
    if exists|j: int|
        0 <= j < events.len() && (#[trigger] events[j]).note.midi == p && sounds_at(events[j], t) {
        let j = choose|j: int|
            0 <= j < events.len() && (#[trigger] events[j]).note.midi == p && sounds_at(
                events[j],
                t,
            );
        let x = events[j];
        assert(x.wf() && x.duration_us > 0);
        let a = lemma_point_place(events, j, true);
        if a > m {
            lemma_keys_in_order(events, m + 1, a);
        }
        assert(a <= m);
        assert(i >= a) by {
            if i < a {
                assert(pts[a].midi != p);
            }
        }
        if !pts[i].is_start {
            let jy = lemma_point_origin(events, i);
            let y = events[jy];
            assert(y.wf() && y.duration_us > 0);
            assert(pts[i] == end_point(y));
            lemma_keys_in_order(events, i, m);
            lemma_keys_in_order(events, a, i);
            assert(jy != j);
            assert(events[jy].note.midi == events[j].note.midi);
        }
    }
    assert forall|j: int|
        0 <= j < events.len() && (#[trigger] events[j]).note.midi == p && sounds_at(
            events[j],
            t,
        ) implies events[j].note.velocity == pts[i].velocity by {
        assert(i >= 0 && pts[i].is_start);
        let jo = lemma_point_origin(events, i);
        assert(pts[i] == start_point(events[jo]));
        assert(events[jo].wf() && events[jo].duration_us > 0);
        assert(events[j].wf() && events[j].duration_us > 0);
        let b = lemma_point_place(events, jo, false);
        lemma_keys_in_order(events, i, m);
        if b <= m {
            assert(b <= i) by {
                if b > i {
                    assert(pts[b].midi != p);
                }
            }
            lemma_keys_in_order(events, b, i);
        } else {
            lemma_keys_in_order(events, m + 1, b);
        }
        assert(sounds_at(events[jo], t));
        if jo != j {
            assert(events[jo].note.midi == events[j].note.midi);
        }
    }
}

/// Where no two notes of one pitch overlap, every event of the line that
/// the highest or the lowest pitch makes plays, at every instant inside
/// it, a note that sounds at that instant, and no note that sounds at that
/// instant lies higher, or lower.
pub proof fn lemma_policy_over_events(events: Seq<Event>, policy: PolyPolicy, i: int, t: int)
    requires
        policy == PolyPolicy::Highest || policy == PolyPolicy::Lowest,
        all_wf(events),
        lasting(events),
        pitches_apart(events),
        2 * events.len() <= usize::MAX,
        0 <= i < reduced(events, policy, false).len(),
        reduced(events, policy, false)[i].time_us < t < reduced(events, policy, false)[i].end(),
    ensures
        exists|j: int|
            0 <= j < events.len() && (#[trigger] events[j]).note.midi == reduced(
                events,
                policy,
                false,
            )[i].note.midi && sounds_at(events[j], t),
        forall|j: int|
            0 <= j < events.len() && sounds_at(#[trigger] events[j], t) ==> if policy
                == PolyPolicy::Highest {
                events[j].note.midi <= reduced(events, policy, false)[i].note.midi
            } else {
                events[j].note.midi >= reduced(events, policy, false)[i].note.midi
            },
{
    let pts = boundary_points(events);
    let e = reduced(events, policy, false)[i];
    lemma_spans(policy, pts);
    assert(spans_pick(policy, pts, e));
    let (k, c) = choose|k: int, c: int|
        #![trigger pts[k], pts[c]]
        {
            &&& c < pts.len()
            &&& picked_between(policy, pts, k, c, e.note.midi)
            &&& pts[k].time_us == e.time_us
            &&& pts[c].time_us == e.end()
            &&& pts[c].velocity == e.note.velocity
        };
    crate::reduce::lemma_points(events, 0);
    lemma_stable_order(point_keys(points_of(events)));
    assert(pts.len() == 2 * events.len());
    let m = lemma_find(pts, k, c, t);
    assert(pick_after(policy, pts, m) == Some(e.note.midi));
    let table = sweep(policy, pts.take(m + 1)).active;
    lemma_table(policy, pts, m + 1);
    lemma_chosen(policy, table);
    assert(sounding(table, e.note.midi as int));
    lemma_sounding_between(events, m, t, e.note.midi);
    assert forall|j: int| 0 <= j < events.len() && sounds_at(#[trigger] events[j], t) implies if policy
        == PolyPolicy::Highest {
        events[j].note.midi <= e.note.midi
    } else {
        events[j].note.midi >= e.note.midi
    } by {
        let q = events[j].note.midi;
        lemma_sounding_between(events, m, t, q);
        assert(sounding(table, q as int));
    }
}

/// Where no two notes of one pitch overlap, every event of the line that
/// the loudest note makes plays, at every instant inside it, a note that
/// sounds at that instant, and no note that sounds at that instant is
/// louder, nor as loud and higher.
pub proof fn lemma_loudest_over_events(events: Seq<Event>, i: int, t: int) -> (z: int)
    requires
        all_wf(events),
        lasting(events),
        pitches_apart(events),
        2 * events.len() <= usize::MAX,
        0 <= i < reduced(events, PolyPolicy::Loudest, false).len(),
        reduced(events, PolyPolicy::Loudest, false)[i].time_us < t < reduced(
            events,
            PolyPolicy::Loudest,
            false,
        )[i].end(),
    ensures
        0 <= z < events.len(),
        events[z].note.midi == reduced(events, PolyPolicy::Loudest, false)[i].note.midi,
        sounds_at(events[z], t),
        forall|j: int|
            0 <= j < events.len() && sounds_at(#[trigger] events[j], t) ==> events[j].note.velocity
                < events[z].note.velocity || (events[j].note.velocity == events[z].note.velocity
                && events[j].note.midi <= events[z].note.midi),
{
    let policy = PolyPolicy::Loudest;
    let pts = boundary_points(events);
    let e = reduced(events, policy, false)[i];
    lemma_spans(policy, pts);
    assert(spans_pick(policy, pts, e));
    let (k, c) = choose|k: int, c: int|
        #![trigger pts[k], pts[c]]
        {
            &&& c < pts.len()
            &&& picked_between(policy, pts, k, c, e.note.midi)
            &&& pts[k].time_us == e.time_us
            &&& pts[c].time_us == e.end()
            &&& pts[c].velocity == e.note.velocity
        };
    crate::reduce::lemma_points(events, 0);
    lemma_stable_order(point_keys(points_of(events)));
    assert(pts.len() == 2 * events.len());
    let m = lemma_find(pts, k, c, t);
    assert(pick_after(policy, pts, m) == Some(e.note.midi));
    let table = sweep(policy, pts.take(m + 1)).active;
    lemma_table(policy, pts, m + 1);
    lemma_chosen(policy, table);
    assert(sounding(table, e.note.midi as int));
    lemma_sounding_between(events, m, t, e.note.midi);
    let z = choose|j: int|
        0 <= j < events.len() && (#[trigger] events[j]).note.midi == e.note.midi && sounds_at(
            events[j],
            t,
        );
    assert(table[e.note.midi as int] == Some(events[z].note.velocity));
    assert forall|j: int| 0 <= j < events.len() && sounds_at(#[trigger] events[j], t) implies events[j].note.velocity
        < events[z].note.velocity || (events[j].note.velocity == events[z].note.velocity
        && events[j].note.midi <= events[z].note.midi) by {
        let q = events[j].note.midi;
        lemma_sounding_between(events, m, t, q);
        assert(sounding(table, q as int));
        assert(table[q as int] == Some(events[j].note.velocity));
        assert(crate::policy::prefers(policy, table, e.note.midi as int, q as int));
    }
    z
}

} // verus!
