//! From track events to note intervals and tempo changes.
//!
//! Each track is read with its own tick count. A note that is switched on
//! stays open until a note-off for the same channel and key arrives, which
//! closes the one opened last. A note-on with velocity 0 counts as a
//! note-off. What is still open at the end is closed by rule.

use crate::midi_file::{MidiEvent, MidiFile, TrackEvent};
use crate::tempo::TempoChange;
use vstd::prelude::*;
use vstd::utf8::valid_utf8;

verus! {

/// A note from the tick at which it was switched on to the tick at which it
/// was switched off.
#[derive(Debug, Clone, Copy, PartialEq, Eq, Structural)]
pub struct NoteInterval {
    pub midi: u8,
    pub start_tick: u64,
    pub end_tick: u64,
    pub velocity: u8,
    pub channel: u8,
}

/// A note that was switched on and not yet off.
#[derive(Debug, Clone, Copy, PartialEq, Eq, Structural)]
pub struct OpenNote {
    pub channel: u8,
    pub key: u8,
    pub start_tick: u64,
    pub velocity: u8,
}

/// A note-off that found no note to switch off.
#[derive(Debug, Clone, Copy, PartialEq, Eq, Structural)]
pub struct Orphan {
    pub channel: u8,
    pub key: u8,
    pub tick: u64,
}

/// What has been gathered from the events read so far.
pub struct Gathered {
    pub changes: Seq<TempoChange>,
    pub intervals: Seq<NoteInterval>,
    /// The note-offs that found no open note, in the order of reading.
    pub orphans: Seq<Orphan>,
    /// The open notes, in the order in which they were switched on.
    pub open: Seq<OpenNote>,
    /// A track name that is not empty has been read.
    pub named: bool,
    /// A track name that is not valid UTF-8 has been read before any that
    /// is not empty.
    pub bad_name: bool,
}

/// Position of the note for `ch` and `key` that was opened last, or -1.
pub open spec fn last_open(open: Seq<OpenNote>, ch: u8, key: u8) -> int
    decreases open.len(),
{
    if open.len() == 0 {
        -1
    } else if open.last().channel == ch && open.last().key == key {
        open.len() - 1
    } else {
        last_open(open.drop_last(), ch, key)
    }
}

/// The open notes after a note-off for `ch` and `key`.
pub open spec fn open_after_close(open: Seq<OpenNote>, ch: u8, key: u8) -> Seq<OpenNote> {
    let at = last_open(open, ch, key);
    if at < 0 {
        open
    } else {
        open.remove(at)
    }
}

/// The intervals after a note-off for `ch` and `key` at `tick`. A note-off
/// that finds no open note adds nothing.
pub open spec fn intervals_after_close(
    intervals: Seq<NoteInterval>,
    open: Seq<OpenNote>,
    ch: u8,
    key: u8,
    tick: u64,
) -> Seq<NoteInterval> {
    let at = last_open(open, ch, key);
    if at < 0 {
        intervals
    } else {
        intervals.push(
            NoteInterval {
                midi: key,
                start_tick: open[at].start_tick,
                end_tick: tick,
                velocity: open[at].velocity,
                channel: ch,
            },
        )
    }
}

/// `g` after a note-off for `ch` and `key` at `tick`.
pub open spec fn closed(g: Gathered, ch: u8, key: u8, tick: u64) -> Gathered {
    Gathered {
        open: open_after_close(g.open, ch, key),
        intervals: intervals_after_close(g.intervals, g.open, ch, key, tick),
        orphans: if last_open(g.open, ch, key) < 0 {
            g.orphans.push(Orphan { channel: ch, key, tick })
        } else {
            g.orphans
        },
        ..g
    }
}

/// `g` after an event at `tick`. Once a bad track name was read nothing
/// changes any more.
pub open spec fn gather_event(g: Gathered, tick: u64, event: MidiEvent) -> Gathered {
    if g.bad_name {
        g
    } else {
        match event {
            MidiEvent::NoteOn { channel, key, velocity } => if velocity == 0 {
                closed(g, channel, key, tick)
            } else {
                Gathered {
                    open: g.open.push(OpenNote { channel, key, start_tick: tick, velocity }),
                    ..g
                }
            },
            MidiEvent::NoteOff { channel, key } => closed(g, channel, key, tick),
            MidiEvent::Tempo(mpqn) => Gathered {
                changes: g.changes.push(TempoChange { tick, mpqn }),
                ..g
            },
            MidiEvent::TrackName(bytes) => if g.named {
                g
            } else if !valid_utf8(bytes@) {
                Gathered { bad_name: true, ..g }
            } else {
                Gathered { named: bytes@.len() > 0, ..g }
            },
            MidiEvent::Other => g,
        }
    }
}

/// `tick` advanced by `delta`, stopping at the largest tick.
pub open spec fn tick_after(tick: u64, delta: u64) -> u64 {
    if tick + delta > u64::MAX {
        u64::MAX
    } else {
        (tick + delta) as u64
    }
}

/// The tick that a track has reached after `events`.
pub open spec fn track_tick(events: Seq<TrackEvent>) -> u64
    decreases events.len(),
{
    if events.len() == 0 {
        0
    } else {
        tick_after(track_tick(events.drop_last()), events.last().delta as u64)
    }
}

/// `g` after the events of one track.
pub open spec fn gather_track(g: Gathered, events: Seq<TrackEvent>) -> Gathered
    decreases events.len(),
{
    if events.len() == 0 {
        g
    } else {
        gather_event(
            gather_track(g, events.drop_last()),
            track_tick(events),
            events.last().event,
        )
    }
}

/// Nothing gathered.
pub open spec fn gather_start() -> Gathered {
    Gathered {
        changes: Seq::empty(),
        intervals: Seq::empty(),
        orphans: Seq::empty(),
        open: Seq::empty(),
        named: false,
        bad_name: false,
    }
}

/// What the tracks of a file hold, read track by track.
pub open spec fn gather(tracks: Seq<Seq<TrackEvent>>) -> Gathered
    decreases tracks.len(),
{
    if tracks.len() == 0 {
        gather_start()
    } else {
        gather_track(gather(tracks.drop_last()), tracks.last())
    }
}

/// The latest tick at which an interval ends, 0 where there is none.
pub open spec fn latest_end(intervals: Seq<NoteInterval>) -> u64
    decreases intervals.len(),
{
    if intervals.len() == 0 {
        0
    } else {
        let rest = latest_end(intervals.drop_last());
        if intervals.last().end_tick > rest {
            intervals.last().end_tick
        } else {
            rest
        }
    }
}

/// The latest tick at which the tempo changes, 0 where it never does.
pub open spec fn latest_change(changes: Seq<TempoChange>) -> u64
    decreases changes.len(),
{
    if changes.len() == 0 {
        0
    } else {
        let rest = latest_change(changes.drop_last());
        if changes.last().tick > rest {
            changes.last().tick
        } else {
            rest
        }
    }
}

/// The last tick that the closed notes and the tempo changes reach.
pub open spec fn last_tick(g: Gathered) -> u64 {
    if latest_end(g.intervals) >= latest_change(g.changes) {
        latest_end(g.intervals)
    } else {
        latest_change(g.changes)
    }
}

/// An open note closed by rule: at the last tick of the timeline where that
/// lies after its start, else one quarter note after its start.
pub open spec fn auto_closed(o: OpenNote, last: u64, ticks_per_quarter: u64) -> NoteInterval {
    NoteInterval {
        midi: o.key,
        start_tick: o.start_tick,
        end_tick: if last > o.start_tick {
            last
        } else {
            tick_after(o.start_tick, ticks_per_quarter)
        },
        velocity: o.velocity,
        channel: o.channel,
    }
}

/// The open notes closed by rule, in the order in which they were switched
/// on.
pub open spec fn auto_closed_notes(g: Gathered, ticks_per_quarter: u64) -> Seq<NoteInterval> {
    Seq::new(g.open.len(), |i: int| auto_closed(g.open[i], last_tick(g), ticks_per_quarter))
}

/// The closed notes, followed by the open notes closed by rule.
pub open spec fn all_intervals(g: Gathered, ticks_per_quarter: u64) -> Seq<NoteInterval> {
    g.intervals + auto_closed_notes(g, ticks_per_quarter)
}

/// Reading one more event of a track: the tick moves on by its delta, and
/// the event is taken in at that tick.
pub proof fn lemma_gather_push(g: Gathered, events: Seq<TrackEvent>, x: TrackEvent)
    ensures
        track_tick(events.push(x)) == tick_after(track_tick(events), x.delta as u64),
        gather_track(g, events.push(x)) == gather_event(
            gather_track(g, events),
            track_tick(events.push(x)),
            x.event,
        ),
        gather_track(g, Seq::empty()) == g,
        track_tick(Seq::empty()) == 0,
{
    assert(events.push(x).drop_last() == events);
    assert(events.push(x).last() == x);
}

/// The event switches a note on.
pub open spec fn is_note_on(event: MidiEvent) -> bool {
    event matches MidiEvent::NoteOn { velocity, .. } && velocity > 0
}

/// How many events of the track switch a note on.
pub open spec fn note_ons_of_track(events: Seq<TrackEvent>) -> nat
    decreases events.len(),
{
    if events.len() == 0 {
        0
    } else {
        note_ons_of_track(events.drop_last()) + if is_note_on(events.last().event) {
            1nat
        } else {
            0nat
        }
    }
}

/// How many events of the tracks switch a note on.
pub open spec fn note_ons(tracks: Seq<Seq<TrackEvent>>) -> nat
    decreases tracks.len(),
{
    if tracks.len() == 0 {
        0
    } else {
        note_ons(tracks.drop_last()) + note_ons_of_track(tracks.last())
    }
}

proof fn lemma_last_open(open: Seq<OpenNote>, ch: u8, key: u8)
    ensures
        -1 <= last_open(open, ch, key) < open.len(),
    decreases open.len(),
{
    if open.len() > 0 {
        lemma_last_open(open.drop_last(), ch, key);
    }
}

proof fn lemma_gather_event(g: Gathered, tick: u64, event: MidiEvent)
    ensures
        g.bad_name ==> gather_event(g, tick, event).bad_name,
        !gather_event(g, tick, event).bad_name ==> gather_event(g, tick, event).intervals.len()
            + gather_event(g, tick, event).open.len() == g.intervals.len() + g.open.len()
            + if is_note_on(event) {
            1nat
        } else {
            0nat
        },
{
    match event {
        MidiEvent::NoteOn { channel, key, velocity } => {
            lemma_last_open(g.open, channel, key);
        },
        MidiEvent::NoteOff { channel, key } => {
            lemma_last_open(g.open, channel, key);
        },
        _ => {},
    }
}

proof fn lemma_gather_track(g: Gathered, events: Seq<TrackEvent>)
    ensures
        g.bad_name ==> gather_track(g, events).bad_name,
        !gather_track(g, events).bad_name ==> gather_track(g, events).intervals.len()
            + gather_track(g, events).open.len() == g.intervals.len() + g.open.len()
            + note_ons_of_track(events),
    decreases events.len(),
{
    if events.len() > 0 {
        lemma_gather_track(g, events.drop_last());
        lemma_gather_event(
            gather_track(g, events.drop_last()),
            track_tick(events),
            events.last().event,
        );
    }
}

/// Every note that is switched on becomes one interval, whether it is
/// switched off or not, and nothing else does: where the import does not
/// stop over a track name, there are as many intervals as events that
/// switch a note on.
pub proof fn lemma_one_interval_per_note(tracks: Seq<Seq<TrackEvent>>, ticks_per_quarter: u64)
    ensures
        !gather(tracks).bad_name ==> all_intervals(gather(tracks), ticks_per_quarter).len()
            == note_ons(tracks),
        !gather(tracks).bad_name ==> gather(tracks).intervals.len() + gather(tracks).open.len()
            == note_ons(tracks),
    decreases tracks.len(),
{
    if tracks.len() > 0 {
        lemma_one_interval_per_note(tracks.drop_last(), ticks_per_quarter);
        lemma_gather_track(gather(tracks.drop_last()), tracks.last());
    }
}

/// `core::str::from_utf8`, asked whether it accepts the bytes: it does
/// exactly where they are valid UTF-8.
#[verifier::external_body]
fn is_utf8(bytes: &[u8]) -> (r: bool)
    ensures
        r == valid_utf8(bytes@),
{
    core::str::from_utf8(bytes).is_ok()
}

fn advance(tick: u64, delta: u64) -> (r: u64)
    ensures
        r == tick_after(tick, delta),
{
    if delta > u64::MAX - tick {
        u64::MAX
    } else {
        tick + delta
    }
}

/// Closes the note for `ch` and `midi_num` that was opened last, at
/// `abs_tick`, and says whether there was one. A note-off that finds no
/// open note changes nothing.
pub fn close_note(
    open_notes: &mut Vec<OpenNote>,
    intervals: &mut Vec<NoteInterval>,
    ch: u8,
    midi_num: u8,
    abs_tick: u64,
) -> (found: bool)
    ensures
        found == (last_open(old(open_notes)@, ch, midi_num) >= 0),
        final(open_notes)@ == open_after_close(old(open_notes)@, ch, midi_num),
        final(intervals)@ == intervals_after_close(
            old(intervals)@,
            old(open_notes)@,
            ch,
            midi_num,
            abs_tick,
        ),
{
    let mut n: usize = open_notes.len();
    proof {
        assert(open_notes@.take(n as int) == open_notes@);
    }
    while n > 0
        invariant
            n <= open_notes.len(),
            *open_notes == *old(open_notes),
            *intervals == *old(intervals),
            last_open(open_notes@, ch, midi_num) == last_open(
                open_notes@.take(n as int),
                ch,
                midi_num,
            ),
        decreases n,
    {
        let o = open_notes[n - 1];
        proof {
            let front = open_notes@.take(n as int);
            assert(front.last() == o);
            assert(front.drop_last() == open_notes@.take(n - 1));
        }
        if o.channel == ch && o.key == midi_num {
            open_notes.remove(n - 1);
            intervals.push(
                NoteInterval {
                    midi: midi_num,
                    start_tick: o.start_tick,
                    end_tick: abs_tick,
                    velocity: o.velocity,
                    channel: ch,
                },
            );
            return true;
        }
        n -= 1;
    }
    proof {
        assert(open_notes@.take(0) =~= Seq::<OpenNote>::empty());
    }
    false
}

/// What the events of a file yield before anything is closed by rule.
pub struct Scan {
    pub changes: Vec<TempoChange>,
    pub intervals: Vec<NoteInterval>,
    pub orphans: Vec<Orphan>,
    pub open: Vec<OpenNote>,
    pub named: bool,
    pub bad_name: bool,
}

impl Scan {
    /// The same as a value of mathematics.
    pub open spec fn gathered(&self) -> Gathered {
        Gathered {
            changes: self.changes@,
            intervals: self.intervals@,
            orphans: self.orphans@,
            open: self.open@,
            named: self.named,
            bad_name: self.bad_name,
        }
    }
}

fn scan_note_off(scan: &mut Scan, channel: u8, key: u8, tick: u64)
    ensures
        final(scan).gathered() == closed(old(scan).gathered(), channel, key, tick),
{
    if !close_note(&mut scan.open, &mut scan.intervals, channel, key, tick) {
        scan.orphans.push(Orphan { channel, key, tick });
    }
}

fn scan_event(scan: &mut Scan, tick: u64, event: &MidiEvent)
    ensures
        final(scan).gathered() == gather_event(old(scan).gathered(), tick, *event),
{
    if scan.bad_name {
        return ;
    }
    match event {
        MidiEvent::NoteOn { channel, key, velocity } => {
            if *velocity == 0 {
                scan_note_off(scan, *channel, *key, tick);
            } else {
                scan.open.push(
                    OpenNote { channel: *channel, key: *key, start_tick: tick, velocity: *velocity },
                );
            }
        },
        MidiEvent::NoteOff { channel, key } => {
            scan_note_off(scan, *channel, *key, tick);
        },
        MidiEvent::Tempo(mpqn) => {
            scan.changes.push(TempoChange { tick, mpqn: *mpqn });
        },
        MidiEvent::TrackName(bytes) => {
            if !scan.named {
                if !is_utf8(bytes.as_slice()) {
                    scan.bad_name = true;
                } else {
                    scan.named = bytes.len() > 0;
                }
            }
        },
        MidiEvent::Other => {},
    }
}

/// Reads the events of all tracks of `file`.
pub fn scan_file(file: &MidiFile) -> (scan: Scan)
    ensures
        scan.gathered() == gather(file.events()),
{
    let mut scan = Scan {
        changes: Vec::new(),
        intervals: Vec::new(),
        orphans: Vec::new(),
        open: Vec::new(),
        named: false,
        bad_name: false,
    };
    let mut i: usize = 0;
    while i < file.tracks.len()
        invariant
            i <= file.tracks.len(),
            scan.gathered() == gather(file.events().take(i as int)),
        decreases file.tracks.len() - i,
    {
        let track = &file.tracks[i];
        let ghost before = scan.gathered();
        let mut tick: u64 = 0;
        let mut j: usize = 0;
        while j < track.len()
            invariant
                j <= track.len(),
                tick == track_tick(track@.take(j as int)),
                scan.gathered() == gather_track(before, track@.take(j as int)),
            decreases track.len() - j,
        {
            let ev = &track[j];
            proof {
                let taken = track@.take(j + 1);
                assert(taken.drop_last() == track@.take(j as int));
                assert(taken.last() == *ev);
            }
            tick = advance(tick, ev.delta as u64);
            scan_event(&mut scan, tick, &ev.event);
            j += 1;
        }
        proof {
            assert(track@.take(j as int) == track@);
            let taken = file.events().take(i + 1);
            assert(taken.drop_last() == file.events().take(i as int));
            assert(taken.last() == track@);
        }
        i += 1;
    }
    proof {
        assert(file.events().take(i as int) == file.events());
    }
    scan
}

/// The last tick that the closed notes and the tempo changes of `scan`
/// reach.
pub fn last_tick_of(scan: &Scan) -> (t: u64)
    ensures
        t == last_tick(scan.gathered()),
{
    let mut end: u64 = 0;
    let mut i: usize = 0;
    while i < scan.intervals.len()
        invariant
            i <= scan.intervals.len(),
            end == latest_end(scan.intervals@.take(i as int)),
        decreases scan.intervals.len() - i,
    {
        proof {
            let taken = scan.intervals@.take(i + 1);
            assert(taken.drop_last() == scan.intervals@.take(i as int));
        }
        if scan.intervals[i].end_tick > end {
            end = scan.intervals[i].end_tick;
        }
        i += 1;
    }
    let mut change: u64 = 0;
    let mut k: usize = 0;
    while k < scan.changes.len()
        invariant
            k <= scan.changes.len(),
            change == latest_change(scan.changes@.take(k as int)),
        decreases scan.changes.len() - k,
    {
        proof {
            let taken = scan.changes@.take(k + 1);
            assert(taken.drop_last() == scan.changes@.take(k as int));
        }
        if scan.changes[k].tick > change {
            change = scan.changes[k].tick;
        }
        k += 1;
    }
    proof {
        assert(scan.intervals@.take(i as int) == scan.intervals@);
        assert(scan.changes@.take(k as int) == scan.changes@);
    }
    if end >= change {
        end
    } else {
        change
    }
}

/// The open notes of `scan`, closed by rule.
pub fn auto_close(scan: &Scan, ticks_per_quarter: u64) -> (closed: Vec<NoteInterval>)
    ensures
        closed@ == auto_closed_notes(scan.gathered(), ticks_per_quarter),
{
    let last = last_tick_of(scan);
    let mut closed: Vec<NoteInterval> = Vec::new();
    let mut k: usize = 0;
    while k < scan.open.len()
        invariant
            k <= scan.open.len(),
            last == last_tick(scan.gathered()),
            closed@ == Seq::new(
                k as nat,
                |n: int| auto_closed(scan.open@[n], last, ticks_per_quarter),
            ),
        decreases scan.open.len() - k,
    {
        let o = scan.open[k];
        let end_tick = if last > o.start_tick {
            last
        } else {
            advance(o.start_tick, ticks_per_quarter)
        };
        closed.push(
            NoteInterval {
                midi: o.key,
                start_tick: o.start_tick,
                end_tick,
                velocity: o.velocity,
                channel: o.channel,
            },
        );
        proof {
            assert(closed@ =~= Seq::new(
                (k + 1) as nat,
                |n: int| auto_closed(scan.open@[n], last, ticks_per_quarter),
            ));
        }
        k += 1;
    }
    proof {
        assert(closed@ =~= auto_closed_notes(scan.gathered(), ticks_per_quarter));
    }
    closed
}

/// The closed notes of `scan` followed by its open notes, closed by rule.
pub fn close_all(scan: &Scan, ticks_per_quarter: u64) -> (all: Vec<NoteInterval>)
    ensures
        all@ == all_intervals(scan.gathered(), ticks_per_quarter),
{
    let closed = auto_close(scan, ticks_per_quarter);
    let mut all: Vec<NoteInterval> = Vec::new();
    let mut i: usize = 0;
    while i < scan.intervals.len()
        invariant
            i <= scan.intervals.len(),
            all@ == scan.intervals@.take(i as int),
        decreases scan.intervals.len() - i,
    {
        all.push(scan.intervals[i]);
        proof {
            assert(all@ =~= scan.intervals@.take(i + 1));
        }
        i += 1;
    }
    proof {
        assert(scan.intervals@.take(i as int) == scan.intervals@);
    }
    let mut k: usize = 0;
    while k < closed.len()
        invariant
            k <= closed.len(),
            all@ == scan.intervals@ + closed@.take(k as int),
        decreases closed.len() - k,
    {
        all.push(closed[k]);
        proof {
            assert(all@ =~= scan.intervals@ + closed@.take(k + 1));
        }
        k += 1;
    }
    proof {
        assert(closed@.take(k as int) == closed@);
    }
    all
}

} // verus!
