//! From ticks to microseconds along a piecewise constant tempo.
//!
//! A tick lasts `mpqn / ticks_per_quarter` microseconds, where `mpqn`, the
//! microseconds per quarter note, changes at given ticks. To stay exact the
//! map accumulates time in scaled units, microseconds multiplied by the
//! ticks per quarter, and divides once, when a tick is converted.

use crate::order::{lemma_stable_order, sort_by_keys, sorted_by};
use vstd::prelude::*;

verus! {

/// The tempo that holds until the source sets one: 120 beats per minute.
pub const DEFAULT_MPQN: u32 = 500_000;

/// A tempo taking effect at a tick.
#[derive(Debug, Clone, Copy, PartialEq, Eq, Structural)]
pub struct TempoChange {
    pub tick: u64,
    pub mpqn: u32,
}

/// A stretch of ticks with one tempo.
#[derive(Debug, Clone, Copy, PartialEq, Eq, Structural)]
pub struct TempoSegment {
    pub mpqn: u32,
    pub start_tick: u64,
    /// Scaled time that has passed when the segment starts.
    pub scaled_at_start: u128,
}

/// The segments that a list of tempo changes gives when read in order. A
/// change at a tick before the last one read is passed over.
pub open spec fn segments_of(changes: Seq<TempoChange>) -> Seq<TempoSegment>
    decreases changes.len(),
{
    if changes.len() == 0 {
        Seq::empty()
    } else {
        let segs = segments_of(changes.drop_last());
        let c = changes.last();
        if segs.len() == 0 {
            segs.push(
                TempoSegment {
                    mpqn: c.mpqn,
                    start_tick: c.tick,
                    scaled_at_start: (c.tick * DEFAULT_MPQN) as u128,
                },
            )
        } else if c.tick < segs.last().start_tick {
            segs
        } else {
            segs.push(
                TempoSegment {
                    mpqn: c.mpqn,
                    start_tick: c.tick,
                    scaled_at_start: (segs.last().scaled_at_start + (c.tick
                        - segs.last().start_tick) * segs.last().mpqn) as u128,
                },
            )
        }
    }
}

/// The sort key of each change: its tick.
pub open spec fn change_keys(changes: Seq<TempoChange>) -> Seq<u128> {
    Seq::new(changes.len(), |i: int| changes[i].tick as u128)
}

/// The default tempo at tick 0, followed by `changes`.
pub open spec fn with_default(changes: Seq<TempoChange>) -> Seq<TempoChange> {
    seq![TempoChange { tick: 0, mpqn: DEFAULT_MPQN }] + changes
}

/// The segments of a source in which `changes` were observed, in any order
/// of ticks: the default tempo holds from tick 0, and of changes at one
/// tick the one observed last prevails.
pub open spec fn tempo_segments(changes: Seq<TempoChange>) -> Seq<TempoSegment> {
    segments_of(sorted_by(with_default(changes), change_keys(with_default(changes))))
}

/// Segments that partition the ticks from 0 on, each starting with the time
/// that its predecessors add up to.
pub open spec fn wf_segments(segs: Seq<TempoSegment>) -> bool {
    &&& segs.len() > 0
    &&& segs[0].start_tick == 0
    &&& segs[0].scaled_at_start == 0
    &&& forall|i: int|
        0 <= i < segs.len() - 1 ==> {
            &&& (#[trigger] segs[i]).start_tick <= segs[i + 1].start_tick
            &&& segs[i + 1].scaled_at_start == segs[i].scaled_at_start + (segs[i + 1].start_tick
                - segs[i].start_tick) * segs[i].mpqn
        }
}

/// The segment that `tick` falls into: the last that starts at or before it.
pub open spec fn locate(segs: Seq<TempoSegment>, tick: u64) -> int
    decreases segs.len(),
{
    if segs.len() <= 1 {
        0
    } else if segs.last().start_tick <= tick {
        segs.len() - 1
    } else {
        locate(segs.drop_last(), tick)
    }
}

/// Scaled time at `tick`.
pub open spec fn scaled_at(segs: Seq<TempoSegment>, tick: u64) -> int {
    let seg = segs[locate(segs, tick)];
    seg.scaled_at_start + (tick - seg.start_tick) * seg.mpqn
}

/// Whole microseconds that have passed at `tick`.
pub open spec fn micros_at(segs: Seq<TempoSegment>, ticks_per_quarter: u64, tick: u64) -> int {
    scaled_at(segs, tick) / (ticks_per_quarter as int)
}

/// The segment found for a tick starts at or before it, and every later
/// segment starts after it.
pub proof fn lemma_locate(segs: Seq<TempoSegment>, tick: u64)
    requires
        wf_segments(segs),
    ensures
        0 <= locate(segs, tick) < segs.len(),
        segs[locate(segs, tick)].start_tick <= tick,
        forall|j: int| locate(segs, tick) < j < segs.len() ==> (#[trigger] segs[j]).start_tick > tick,
    decreases segs.len(),
{
    if segs.len() > 1 && segs.last().start_tick > tick {
        let front = segs.drop_last();
        assert forall|i: int| 0 <= i < front.len() implies #[trigger] front[i] == segs[i] by {}
        assert(wf_segments(front)) by {
            assert forall|i: int| 0 <= i < front.len() - 1 implies {
                &&& (#[trigger] front[i]).start_tick <= front[i + 1].start_tick
                &&& front[i + 1].scaled_at_start == front[i].scaled_at_start + (front[i
                    + 1].start_tick - front[i].start_tick) * front[i].mpqn
            } by {
                assert(front[i] == segs[i]);
                assert(front[i + 1] == segs[i + 1]);
            }
        }
        lemma_locate(front, tick);
        assert forall|j: int| locate(segs, tick) < j < segs.len() implies (
        #[trigger] segs[j]).start_tick > tick by {
            if j < front.len() {
                assert(front[j] == segs[j]);
            }
        }
    }
}

/// Later segments start later and with more time passed; the time passed is
/// bounded by the ticks passed at the slowest tempo.
pub proof fn lemma_segments_grow(segs: Seq<TempoSegment>, i: int, j: int)
    requires
        wf_segments(segs),
        0 <= i <= j < segs.len(),
    ensures
        segs[i].start_tick <= segs[j].start_tick,
        segs[i].scaled_at_start <= segs[j].scaled_at_start,
        segs[j].scaled_at_start <= segs[j].start_tick * u32::MAX,
    decreases j, i,
{
    if j == 0 {
    } else if i == j {
        lemma_segments_grow(segs, 0, j);
    } else {
        lemma_segments_grow(segs, i, j - 1);
        let a = segs[j - 1];
        let b = segs[j - 1 + 1];
        assert(a.start_tick <= b.start_tick);
        let d = b.start_tick - a.start_tick;
        assert(0 <= d * a.mpqn <= d * u32::MAX) by (nonlinear_arith)
            requires
                0 <= d,
                0 <= a.mpqn <= u32::MAX,
        ;
        assert(a.start_tick * u32::MAX + d * u32::MAX == b.start_tick * u32::MAX)
            by (nonlinear_arith)
            requires
                d == b.start_tick - a.start_tick,
        ;
    }
}

/// Time never runs backwards: a later tick is not converted to an earlier
/// time.
pub proof fn lemma_monotone(segs: Seq<TempoSegment>, ticks_per_quarter: u64, t1: u64, t2: u64)
    requires
        wf_segments(segs),
        ticks_per_quarter > 0,
        t1 <= t2,
    ensures
        0 <= scaled_at(segs, t1) <= scaled_at(segs, t2),
        scaled_at(segs, t2) <= t2 * u32::MAX,
        0 <= micros_at(segs, ticks_per_quarter, t1) <= micros_at(segs, ticks_per_quarter, t2),
{
    lemma_locate(segs, t1);
    lemma_locate(segs, t2);
    let i = locate(segs, t1);
    let j = locate(segs, t2);
    let a = segs[i];
    let b = segs[j];
    lemma_segments_grow(segs, 0, i);
    lemma_segments_grow(segs, 0, j);
    assert(0 <= (t1 - a.start_tick) * a.mpqn) by (nonlinear_arith)
        requires
            0 <= t1 - a.start_tick,
            0 <= a.mpqn,
    ;
    let d2 = t2 - b.start_tick;
    assert(0 <= d2 * b.mpqn <= d2 * u32::MAX) by (nonlinear_arith)
        requires
            0 <= d2,
            0 <= b.mpqn <= u32::MAX,
    ;
    assert(b.start_tick * u32::MAX + d2 * u32::MAX == t2 * u32::MAX) by (nonlinear_arith)
        requires
            d2 == t2 - b.start_tick,
    ;
    if i == j {
        assert((t1 - a.start_tick) * a.mpqn <= (t2 - a.start_tick) * a.mpqn) by (nonlinear_arith)
            requires
                t1 <= t2,
                0 <= a.mpqn,
        ;
    } else {
        assert(i < j) by {
            if j < i {
                assert(segs[i].start_tick > t2);
            }
        }
        let next = segs[i + 1];
        assert(next.start_tick > t1);
        assert((t1 - a.start_tick) * a.mpqn <= (next.start_tick - a.start_tick) * a.mpqn)
            by (nonlinear_arith)
            requires
                t1 <= next.start_tick,
                0 <= a.mpqn,
        ;
        lemma_segments_grow(segs, i + 1, j);
    }
    let q = ticks_per_quarter as int;
    let s1 = scaled_at(segs, t1);
    let s2 = scaled_at(segs, t2);
    assert(0 <= s1 / q <= s2 / q) by (nonlinear_arith)
        requires
            0 <= s1 <= s2,
            q > 0,
    ;
}

/// Within a segment time grows by the segment's tempo, and the microseconds
/// are the whole part of the scaled time divided by the ticks per quarter.
pub proof fn lemma_within_segment(
    segs: Seq<TempoSegment>,
    ticks_per_quarter: u64,
    i: int,
    tick: u64,
)
    requires
        wf_segments(segs),
        ticks_per_quarter > 0,
        0 <= i < segs.len(),
        segs[i].start_tick <= tick,
        i + 1 < segs.len() ==> tick < segs[i + 1].start_tick,
    ensures
        scaled_at(segs, tick) == segs[i].scaled_at_start + (tick - segs[i].start_tick)
            * segs[i].mpqn,
        micros_at(segs, ticks_per_quarter, tick) * ticks_per_quarter <= scaled_at(segs, tick)
            < (micros_at(segs, ticks_per_quarter, tick) + 1) * ticks_per_quarter,
{
    lemma_locate(segs, tick);
    let k = locate(segs, tick);
    if k < i {
        assert(segs[i].start_tick > tick);
    } else if k > i {
        lemma_segments_grow(segs, i + 1, k);
    }
    let s = scaled_at(segs, tick);
    let q = ticks_per_quarter as int;
    assert((s / q) * q <= s < (s / q + 1) * q) by (nonlinear_arith)
        requires
            q > 0,
    ;
}

/// Where a source sets one tempo, at tick 0, every tick lasts that tempo
/// divided by the ticks per quarter: converting a tick gives the whole part
/// of `tick * mpqn / ticks_per_quarter`.
pub proof fn lemma_constant_tempo(mpqn: u32, ticks_per_quarter: u64, tick: u64)
    requires
        ticks_per_quarter > 0,
    ensures
        wf_segments(tempo_segments(seq![TempoChange { tick: 0, mpqn }])),
        micros_at(tempo_segments(seq![TempoChange { tick: 0, mpqn }]), ticks_per_quarter, tick)
            == (tick * mpqn) / (ticks_per_quarter as int),
        display_tempo(tempo_segments(seq![TempoChange { tick: 0, mpqn }])) == mpqn,
{
    let changes = seq![TempoChange { tick: 0, mpqn }];
    let all = with_default(changes);
    let keys = change_keys(all);
    let first = TempoChange { tick: 0, mpqn: DEFAULT_MPQN };
    let second = TempoChange { tick: 0, mpqn };
    assert(all =~= seq![first, second]);
    lemma_stable_order(keys);
    let order = crate::order::stable_order(keys);
    assert(crate::order::precedes(keys, order[0], order[1]));
    assert(order[0] == 0 && order[1] == 1);
    let sorted = sorted_by(all, keys);
    assert(sorted =~= seq![first, second]);
    let one = sorted.drop_last();
    assert(one =~= seq![first]);
    assert(one.drop_last() =~= Seq::<TempoChange>::empty());
    assert(segments_of(one.drop_last()) =~= Seq::<TempoSegment>::empty());
    let s0 = TempoSegment { mpqn: DEFAULT_MPQN, start_tick: 0, scaled_at_start: 0 };
    let s1 = TempoSegment { mpqn, start_tick: 0, scaled_at_start: 0 };
    assert(one.last() == first);
    assert(segments_of(one) =~= seq![s0]);
    assert(sorted.last() == second);
    let segs = segments_of(sorted);
    assert(segs =~= seq![s0, s1]);
    assert(segs.drop_last() =~= seq![s0]);
    assert(locate(segs, tick) == 1);
}

/// Where a source sets no tempo, every tick lasts the default tempo
/// divided by the ticks per quarter.
pub proof fn lemma_default_tempo(ticks_per_quarter: u64, tick: u64)
    requires
        ticks_per_quarter > 0,
    ensures
        wf_segments(tempo_segments(Seq::empty())),
        micros_at(tempo_segments(Seq::empty()), ticks_per_quarter, tick) == (tick * DEFAULT_MPQN)
            / (ticks_per_quarter as int),
        display_tempo(tempo_segments(Seq::empty())) == DEFAULT_MPQN,
{
    let first = TempoChange { tick: 0, mpqn: DEFAULT_MPQN };
    let all = with_default(Seq::empty());
    assert(all =~= seq![first]);
    let keys = change_keys(all);
    lemma_stable_order(keys);
    let order = crate::order::stable_order(keys);
    assert(order[0] == 0);
    let sorted = sorted_by(all, keys);
    assert(sorted =~= seq![first]);
    assert(sorted.drop_last() =~= Seq::<TempoChange>::empty());
    assert(segments_of(sorted.drop_last()) =~= Seq::<TempoSegment>::empty());
    assert(sorted.last() == first);
    let s0 = TempoSegment { mpqn: DEFAULT_MPQN, start_tick: 0, scaled_at_start: 0 };
    let segs = segments_of(sorted);
    assert(segs =~= seq![s0]);
    assert(locate(segs, tick) == 0);
}

/// The tempo map of one source.
#[derive(Debug)]
pub struct TempoMap {
    segments: Vec<TempoSegment>,
    ticks_per_quarter: u64,
}

impl TempoMap {
    #[verifier::type_invariant]
    spec fn inv(self) -> bool {
        wf_segments(self.segments@) && self.ticks_per_quarter > 0
    }

    /// The segments, in order of their start.
    pub closed spec fn segments(self) -> Seq<TempoSegment> {
        self.segments@
    }

    /// Ticks in a quarter note.
    pub closed spec fn resolution(self) -> u64 {
        self.ticks_per_quarter
    }

    /// Whole microseconds that have passed at `tick`.
    pub open spec fn micros(self, tick: u64) -> int {
        micros_at(self.segments(), self.resolution(), tick)
    }

    /// Builds the map of a source with the given ticks per quarter note in
    /// which `changes` were observed.
    pub fn build(changes: &Vec<TempoChange>, ticks_per_quarter: u64) -> (map: TempoMap)
        requires
            ticks_per_quarter > 0,
        ensures
            map.segments() == tempo_segments(changes@),
            map.resolution() == ticks_per_quarter,
            wf_segments(map.segments()),
    {
        let mut all: Vec<TempoChange> = Vec::new();
        let mut keys: Vec<u128> = Vec::new();
        all.push(TempoChange { tick: 0, mpqn: DEFAULT_MPQN });
        keys.push(0);
        let mut i: usize = 0;
        while i < changes.len()
            invariant
                i <= changes.len(),
                all@ == with_default(changes@.take(i as int)),
                keys@ == change_keys(all@),
            decreases changes.len() - i,
        {
            let c = changes[i];
            all.push(c);
            keys.push(c.tick as u128);
            proof {
                assert(changes@.take(i + 1) == changes@.take(i as int).push(c));
                assert(all@ =~= with_default(changes@.take(i + 1)));
                assert(keys@ =~= change_keys(all@));
            }
            i += 1;
        }
        proof {
            assert(changes@.take(i as int) == changes@);
            assert(keys.len() <= usize::MAX);
            lemma_stable_order(keys@);
        }
        let sorted = sort_by_keys(&all, &keys);
        proof {
            let order = crate::order::stable_order(keys@);
            assert(order[0] == 0) by {
                assert(crate::order::visits(order, 0));
                let at = choose|k: int| 0 <= k < order.len() && #[trigger] order[k] == 0;
                if at > 0 {
                    assert(crate::order::precedes(keys@, order[0], order[at]));
                }
            }
            assert(sorted@[0] == all@[0]);
        }
        let mut segments: Vec<TempoSegment> = Vec::new();
        let mut last_tick: u64 = 0;
        let mut last_mpqn: u32 = DEFAULT_MPQN;
        let mut scaled: u128 = 0;
        let mut n: usize = 0;
        while n < sorted.len()
            invariant
                n <= sorted.len(),
                sorted.len() > 0,
                sorted@[0] == (TempoChange { tick: 0, mpqn: DEFAULT_MPQN }),
                segments@ == segments_of(sorted@.take(n as int)),
                n > 0 ==> wf_segments(segments@),
                n == 0 ==> segments.len() == 0 && last_tick == 0 && scaled == 0 && last_mpqn
                    == DEFAULT_MPQN,
                segments.len() > 0 ==> {
                    &&& last_tick == segments@.last().start_tick
                    &&& last_mpqn == segments@.last().mpqn
                    &&& scaled == segments@.last().scaled_at_start
                },
            decreases sorted.len() - n,
        {
            let c = sorted[n];
            proof {
                let taken = sorted@.take(n + 1);
                assert(taken.drop_last() == sorted@.take(n as int));
                assert(taken.last() == c);
            }
            if c.tick >= last_tick {
                let delta: u64 = c.tick - last_tick;
                proof {
                    if segments.len() > 0 {
                        lemma_segments_grow(segments@, 0, segments.len() - 1);
                    }
                    assert(0 <= delta * last_mpqn <= delta * u32::MAX) by (nonlinear_arith)
                        requires
                            0 <= delta,
                            0 <= last_mpqn <= u32::MAX,
                    ;
                    assert(last_tick * u32::MAX + delta * u32::MAX == c.tick * u32::MAX)
                        by (nonlinear_arith)
                        requires
                            delta == c.tick - last_tick,
                    ;
                    assert(c.tick * u32::MAX <= u64::MAX * u32::MAX) by (nonlinear_arith)
                        requires
                            c.tick <= u64::MAX,
                    ;
                }
                scaled = scaled + (delta as u128) * (last_mpqn as u128);
                let ghost before = segments@;
                segments.push(TempoSegment { mpqn: c.mpqn, start_tick: c.tick, scaled_at_start: scaled });
                last_tick = c.tick;
                last_mpqn = c.mpqn;
                proof {
                    let after = segments@;
                    assert forall|k: int| 0 <= k < after.len() - 1 implies {
                        &&& (#[trigger] after[k]).start_tick <= after[k + 1].start_tick
                        &&& after[k + 1].scaled_at_start == after[k].scaled_at_start + (after[k
                            + 1].start_tick - after[k].start_tick) * after[k].mpqn
                    } by {
                        assert(after[k] == before[k]);
                        if k + 1 < before.len() {
                            assert(after[k + 1] == before[k + 1]);
                        }
                    }
                    if before.len() > 0 {
                        assert(after[0] == before[0]);
                    }
                }
            }
            n += 1;
        }
        proof {
            assert(sorted@.take(n as int) == sorted@);
        }
        TempoMap { segments, ticks_per_quarter }
    }

    /// Position of the segment that `tick` falls into.
    pub fn segment_index(&self, tick: u64) -> (i: usize)
        ensures
            i == locate(self.segments(), tick),
            i < self.segments().len(),
    {
        proof {
            use_type_invariant(self);
            lemma_locate(self.segments@, tick);
        }
        let mut lo: usize = 0;
        let mut hi: usize = self.segments.len();
        while hi - lo > 1
            invariant
                wf_segments(self.segments@),
                lo < hi <= self.segments.len(),
                self.segments@[lo as int].start_tick <= tick,
                hi < self.segments.len() ==> self.segments@[hi as int].start_tick > tick,
            decreases hi - lo,
        {
            let mid = lo + (hi - lo) / 2;
            if self.segments[mid].start_tick <= tick {
                lo = mid;
            } else {
                hi = mid;
            }
        }
        proof {
            let k = locate(self.segments@, tick);
            if k < lo {
                assert(self.segments@[lo as int].start_tick > tick);
            } else if k > lo {
                lemma_segments_grow(self.segments@, hi as int, k);
            }
        }
        lo
    }

    /// Converts `tick` to whole microseconds; nothing where the time does
    /// not fit 64 bits.
    pub fn tick_to_micros(&self, tick: u64) -> (r: Option<u64>)
        ensures
            r is Some <==> self.micros(tick) <= u64::MAX,
            r matches Some(t) ==> t == self.micros(tick),
    {
        let i = self.segment_index(tick);
        let seg = self.segments[i];
        proof {
            use_type_invariant(self);
            lemma_locate(self.segments@, tick);
            lemma_monotone(self.segments@, self.ticks_per_quarter, tick, tick);
            let d = tick - seg.start_tick;
            assert(0 <= d * seg.mpqn <= d * u32::MAX) by (nonlinear_arith)
                requires
                    0 <= d,
                    0 <= seg.mpqn <= u32::MAX,
            ;
            assert(tick * u32::MAX <= u64::MAX * u32::MAX) by (nonlinear_arith)
                requires
                    tick <= u64::MAX,
            ;
            assert(d * u32::MAX <= u64::MAX * u32::MAX) by (nonlinear_arith)
                requires
                    d <= u64::MAX,
            ;
        }
        let scaled: u128 = seg.scaled_at_start + ((tick - seg.start_tick) as u128) * (
        seg.mpqn as u128);
        let micros: u128 = scaled / (self.ticks_per_quarter as u128);
        if micros <= u64::MAX as u128 {
            Some(micros as u64)
        } else {
            None
        }
    }

    /// The tempo to show for the source: the one of the second segment, the
    /// first being the default, or the default where there is no second.
    pub fn display_mpqn(&self) -> (m: u32)
        ensures
            m == display_tempo(self.segments()),
    {
        if self.segments.len() > 1 {
            self.segments[1].mpqn
        } else {
            DEFAULT_MPQN
        }
    }
}

/// The tempo to show for a source with these segments.
pub open spec fn display_tempo(segs: Seq<TempoSegment>) -> u32 {
    if segs.len() > 1 {
        segs[1].mpqn
    } else {
        DEFAULT_MPQN
    }
}

} // verus!
