//! Building the monophonic timeline of a MIDI file.
//!
//! The notes of the file are transposed, placed in time along the tempo map,
//! sorted by their start and reduced to a single line.

use crate::error::ImportError;
use crate::intervals::{
    all_intervals, auto_close, auto_closed_notes, close_all, gather, gather_start, gather_track,
    lemma_gather_push, scan_file, Gathered, NoteInterval, OpenNote, Orphan,
};
use crate::midi_file::{decoded, read_midi, MidiEvent, MidiFile, Timing, TrackEvent};
use crate::model::song::{
    all_wf, by_time, sort_by_time, time_keys, Event, Metadata, Note, Song,
};
use crate::order::lemma_sorted_stays;
use crate::policy::PolyPolicy;
use crate::reduce::{
    audible, lemma_merge_line, lemma_reduce_fixed, lemma_reduced_line, merge_events, monophonic,
    reduce_to_monophonic, reduced, EPSILON_US,
};
use crate::tempo::{
    display_tempo, lemma_constant_tempo, lemma_default_tempo, lemma_monotone, micros_at,
    tempo_segments, wf_segments, TempoChange, TempoMap, TempoSegment, DEFAULT_MPQN,
};
use vstd::prelude::*;

verus! {

/// How far a pitch is moved at a time to bring it into range.
pub const OCTAVE: i64 = 12;

/// How often a pitch is moved by an octave before it is given up.
pub const FOLD_ATTEMPTS: u8 = 8;

/// The highest pitch that a note can have.
pub const MAX_PITCH: i64 = 127;

/// `p` moved by octaves towards the range from `lo` to `hi`, at most
/// `attempts` times.
pub open spec fn folded(p: int, lo: int, hi: int, attempts: nat) -> int
    decreases attempts,
{
    if attempts == 0 || lo <= p <= hi {
        p
    } else if p < lo {
        folded(p + OCTAVE, lo, hi, (attempts - 1) as nat)
    } else {
        folded(p - OCTAVE, lo, hi, (attempts - 1) as nat)
    }
}

/// The pitch of a note after transposing it by `transpose` semitones.
///
/// With a range given, a pitch outside it is moved by octaves towards it;
/// the note is dropped where that does not bring it into the range. A pitch
/// that no note can have is dropped in any case.
pub open spec fn transposed(midi: u8, transpose: i32, clip: Option<(u8, u8)>) -> Option<u8> {
    let moved = midi + transpose;
    let p = match clip {
        Some((lo, hi)) => folded(moved, lo as int, hi as int, FOLD_ATTEMPTS as nat),
        None => moved,
    };
    let in_range = match clip {
        Some((lo, hi)) => lo <= p <= hi,
        None => true,
    };
    if in_range && 0 <= p <= MAX_PITCH {
        Some(p as u8)
    } else {
        None
    }
}

proof fn lemma_folded(p: int, lo: int, hi: int, attempts: nat)
    ensures
        (folded(p, lo, hi, attempts) - p) % 12 == 0,
        -12 * attempts <= folded(p, lo, hi, attempts) - p <= 12 * attempts,
    decreases attempts,
{
    if attempts == 0 || lo <= p <= hi {
    } else if p < lo {
        lemma_folded(p + OCTAVE, lo, hi, (attempts - 1) as nat);
    } else {
        lemma_folded(p - OCTAVE, lo, hi, (attempts - 1) as nat);
    }
}

/// A transposed pitch lies in the range asked for, is a pitch that a note
/// can have, and differs from the pitch moved by `transpose` by whole
/// octaves, eight at most. Without a range it is the moved pitch itself.
pub proof fn lemma_transposed(midi: u8, transpose: i32, clip: Option<(u8, u8)>)
    ensures
        transposed(midi, transpose, clip) matches Some(p) ==> {
            &&& p <= MAX_PITCH
            &&& (p - (midi + transpose)) % 12 == 0
            &&& -96 <= p - (midi + transpose) <= 96
            &&& clip matches Some((lo, hi)) ==> lo <= p <= hi
            &&& clip is None ==> p == midi + transpose
        },
        clip is None ==> (transposed(midi, transpose, clip) is Some <==> 0 <= midi + transpose
            <= MAX_PITCH),
{
    match clip {
        Some((lo, hi)) => {
            lemma_folded(midi + transpose, lo as int, hi as int, FOLD_ATTEMPTS as nat);
        },
        None => {},
    }
}

/// Why a note of the file is not part of the timeline.
#[derive(Debug, Clone, Copy, PartialEq, Eq, Structural)]
pub enum SkipReason {
    /// Moving the pitch by octaves did not bring it into the range.
    OutOfRange,
    /// The pitch is none that a note can have.
    NoSuchPitch,
    /// The note starts or ends at a time that 64 bits do not hold.
    TimeOverflow,
    /// The note does not end after it starts.
    NoLength,
    /// The note lasts less than the epsilon.
    TooShort,
}

/// A note that was left out, and why.
#[derive(Debug, Clone, Copy, PartialEq, Eq, Structural)]
pub struct SkippedNote {
    pub note: NoteInterval,
    pub reason: SkipReason,
}

/// Why the pitch of a note is dropped, if it is.
pub open spec fn pitch_fault(midi: u8, transpose: i32, clip: Option<(u8, u8)>) -> Option<
    SkipReason,
> {
    let moved = midi + transpose;
    match clip {
        Some((lo, hi)) => {
            let p = folded(moved, lo as int, hi as int, FOLD_ATTEMPTS as nat);
            if !(lo <= p <= hi) {
                Some(SkipReason::OutOfRange)
            } else if !(0 <= p <= MAX_PITCH) {
                Some(SkipReason::NoSuchPitch)
            } else {
                None
            }
        },
        None => if 0 <= moved <= MAX_PITCH {
            None
        } else {
            Some(SkipReason::NoSuchPitch)
        },
    }
}

/// Transposes a pitch and brings it into the range, if one is given, or
/// says why the pitch is dropped.
pub fn place_pitch(midi: u8, transpose: i32, clip: Option<(u8, u8)>) -> (r: Result<u8, SkipReason>)
    ensures
        match r {
            Ok(p) => transposed(midi, transpose, clip) == Some(p) && pitch_fault(
                midi,
                transpose,
                clip,
            ) is None,
            Err(e) => transposed(midi, transpose, clip) is None && pitch_fault(
                midi,
                transpose,
                clip,
            ) == Some(e),
        },
{
    let ghost moved: int = midi + transpose;
    let mut p: i64 = midi as i64 + transpose as i64;
    if let Some((lo, hi)) = clip {
        let lo = lo as i64;
        let hi = hi as i64;
        let mut attempts: u8 = 0;
        while (p < lo || p > hi) && attempts < FOLD_ATTEMPTS
            invariant
                attempts <= FOLD_ATTEMPTS,
                0 <= lo <= 255,
                0 <= hi <= 255,
                -12 * attempts <= p - moved <= 12 * attempts,
                i32::MIN <= moved <= i32::MAX + 255,
                folded(moved, lo as int, hi as int, FOLD_ATTEMPTS as nat) == folded(
                    p as int,
                    lo as int,
                    hi as int,
                    (FOLD_ATTEMPTS - attempts) as nat,
                ),
            decreases FOLD_ATTEMPTS - attempts,
        {
            if p < lo {
                p += OCTAVE;
            } else {
                p -= OCTAVE;
            }
            attempts += 1;
        }
        if p < lo || p > hi {
            return Err(SkipReason::OutOfRange);
        }
    }
    if p < 0 || p > MAX_PITCH {
        Err(SkipReason::NoSuchPitch)
    } else {
        Ok(p as u8)
    }
}

/// Transposes a pitch and brings it into the range, if one is given.
pub fn transpose_pitch(midi: u8, transpose: i32, clip: Option<(u8, u8)>) -> (r: Option<u8>)
    ensures
        r == transposed(midi, transpose, clip),
{
    match place_pitch(midi, transpose, clip) {
        Ok(p) => Some(p),
        Err(_) => None,
    }
}

/// The event that a note interval becomes, if it becomes one.
///
/// The interval is dropped where its pitch is dropped, where its start or
/// its end is a time that 64 bits do not hold, and where it lasts less than
/// the epsilon.
pub open spec fn event_of(
    iv: NoteInterval,
    segs: Seq<TempoSegment>,
    ticks_per_quarter: u64,
    transpose: i32,
    clip: Option<(u8, u8)>,
) -> Option<Event> {
    let start = micros_at(segs, ticks_per_quarter, iv.start_tick);
    let end = micros_at(segs, ticks_per_quarter, iv.end_tick);
    match transposed(iv.midi, transpose, clip) {
        Some(p) if start <= u64::MAX && end <= u64::MAX && end - start >= EPSILON_US => Some(
            Event {
                note: Note { midi: p, velocity: iv.velocity },
                time_us: start as u64,
                duration_us: (end - start) as u64,
            },
        ),
        _ => None,
    }
}

/// The events that the intervals become, in the order of the intervals.
pub open spec fn raw_events(
    intervals: Seq<NoteInterval>,
    segs: Seq<TempoSegment>,
    ticks_per_quarter: u64,
    transpose: i32,
    clip: Option<(u8, u8)>,
) -> Seq<Event>
    decreases intervals.len(),
{
    if intervals.len() == 0 {
        Seq::empty()
    } else {
        let rest = raw_events(intervals.drop_last(), segs, ticks_per_quarter, transpose, clip);
        match event_of(intervals.last(), segs, ticks_per_quarter, transpose, clip) {
            Some(e) => rest.push(e),
            None => rest,
        }
    }
}

/// Why a note interval becomes no event, if it becomes none.
pub open spec fn skip_reason(
    iv: NoteInterval,
    segs: Seq<TempoSegment>,
    ticks_per_quarter: u64,
    transpose: i32,
    clip: Option<(u8, u8)>,
) -> Option<SkipReason> {
    let start = micros_at(segs, ticks_per_quarter, iv.start_tick);
    let end = micros_at(segs, ticks_per_quarter, iv.end_tick);
    if pitch_fault(iv.midi, transpose, clip) is Some {
        pitch_fault(iv.midi, transpose, clip)
    } else if start > u64::MAX || end > u64::MAX {
        Some(SkipReason::TimeOverflow)
    } else if end <= start {
        Some(SkipReason::NoLength)
    } else if end - start < EPSILON_US {
        Some(SkipReason::TooShort)
    } else {
        None
    }
}

/// The intervals that become no event, each with the reason, in the order
/// of the intervals.
pub open spec fn skipped_notes(
    intervals: Seq<NoteInterval>,
    segs: Seq<TempoSegment>,
    ticks_per_quarter: u64,
    transpose: i32,
    clip: Option<(u8, u8)>,
) -> Seq<SkippedNote>
    decreases intervals.len(),
{
    if intervals.len() == 0 {
        Seq::empty()
    } else {
        let rest = skipped_notes(intervals.drop_last(), segs, ticks_per_quarter, transpose, clip);
        match skip_reason(intervals.last(), segs, ticks_per_quarter, transpose, clip) {
            Some(reason) => rest.push(SkippedNote { note: intervals.last(), reason }),
            None => rest,
        }
    }
}

/// An interval becomes an event exactly where nothing speaks against it,
/// so every note of the file is either in the events or among the skipped.
pub proof fn lemma_skipped_or_placed(
    intervals: Seq<NoteInterval>,
    segs: Seq<TempoSegment>,
    ticks_per_quarter: u64,
    transpose: i32,
    clip: Option<(u8, u8)>,
)
    ensures
        forall|i: int|
            0 <= i < intervals.len() ==> (#[trigger] event_of(
                intervals[i],
                segs,
                ticks_per_quarter,
                transpose,
                clip,
            ) is Some) == (skip_reason(intervals[i], segs, ticks_per_quarter, transpose, clip)
                is None),
        raw_events(intervals, segs, ticks_per_quarter, transpose, clip).len() + skipped_notes(
            intervals,
            segs,
            ticks_per_quarter,
            transpose,
            clip,
        ).len() == intervals.len(),
    decreases intervals.len(),
{
    if intervals.len() > 0 {
        lemma_skipped_or_placed(intervals.drop_last(), segs, ticks_per_quarter, transpose, clip);
        assert forall|i: int| 0 <= i < intervals.len() - 1 implies intervals.drop_last()[i]
            == intervals[i] by {}
    }
}

/// `line` without the events that last less than the epsilon.
pub open spec fn culled(line: Seq<Event>) -> Seq<Event>
    decreases line.len(),
{
    if line.len() == 0 {
        Seq::empty()
    } else if line.last().duration_us < EPSILON_US {
        culled(line.drop_last())
    } else {
        culled(line.drop_last()).push(line.last())
    }
}

/// The events of a file placed in time, sorted by their start.
pub open spec fn placed_events(
    tracks: Seq<Seq<TrackEvent>>,
    ticks_per_quarter: u64,
    transpose: i32,
    clip: Option<(u8, u8)>,
) -> Seq<Event> {
    let g = gather(tracks);
    let raw = raw_events(
        all_intervals(g, ticks_per_quarter),
        tempo_segments(g.changes),
        ticks_per_quarter,
        transpose,
        clip,
    );
    by_time(raw)
}

/// What reducing the placed events yields: the line, or the reason why
/// there is none.
pub open spec fn line_outcome(placed: Seq<Event>, policy: PolyPolicy, merge: bool) -> Result<
    Seq<Event>,
    ImportError,
> {
    if 2 * placed.len() > usize::MAX {
        Err(ImportError::TooManyNotes)
    } else if policy == PolyPolicy::Densest && placed.len() > 0 {
        Err(ImportError::UnsupportedPolicy)
    } else {
        Ok(culled(reduced(placed, policy, merge)))
    }
}

/// How many events merging took out of the line.
pub open spec fn merged_count(placed: Seq<Event>, policy: PolyPolicy, merge: bool) -> int {
    reduced(placed, policy, false).len() - reduced(placed, policy, merge).len()
}

/// What the import of a file with this timing and these tracks yields: the
/// events of the timeline and the tempo to show, or the reason why there is
/// no timeline.
pub open spec fn timeline(
    timing: Timing,
    tracks: Seq<Seq<TrackEvent>>,
    transpose: i32,
    policy: PolyPolicy,
    merge: bool,
    clip: Option<(u8, u8)>,
) -> Result<(Seq<Event>, u32), ImportError> {
    match timing {
        Timing::Timecode => Err(ImportError::UnsupportedTiming),
        Timing::Metrical(ticks) => {
            if ticks == 0 {
                Err(ImportError::ZeroResolution)
            } else if gather(tracks).bad_name {
                Err(ImportError::InvalidTrackName)
            } else {
                match line_outcome(
                    placed_events(tracks, ticks as u64, transpose, clip),
                    policy,
                    merge,
                ) {
                    Ok(events) => Ok(
                        (events, display_tempo(tempo_segments(gather(tracks).changes))),
                    ),
                    Err(e) => Err(e),
                }
            }
        },
    }
}

/// `r` is the song, or the failure, that `expected` describes.
pub open spec fn delivers(
    r: Result<Song, ImportError>,
    expected: Result<(Seq<Event>, u32), ImportError>,
    title: Option<String>,
) -> bool {
    match expected {
        Ok((events, mpqn)) => {
            &&& r matches Ok(song)
            &&& song.events@ == events
            &&& song.metadata.tempo_mpqn == Some(mpqn)
            &&& song.metadata.title == title
        },
        Err(e) => r matches Err(x) && x == e,
    }
}

/// What an import left out, by reason.
#[derive(Debug, Clone)]
pub struct Skipped {
    /// Note-offs that found no note to switch off.
    pub orphans: Vec<Orphan>,
    /// Notes that were never switched off and were closed by rule.
    pub auto_closed: Vec<NoteInterval>,
    /// Notes that are not part of the timeline.
    pub notes: Vec<SkippedNote>,
    /// How many events merging took out of the line.
    pub merged: usize,
}

/// `skipped` lists what the import of these tracks leaves out.
pub open spec fn reports(
    skipped: Skipped,
    tracks: Seq<Seq<TrackEvent>>,
    ticks_per_quarter: u64,
    transpose: i32,
    policy: PolyPolicy,
    merge: bool,
    clip: Option<(u8, u8)>,
) -> bool {
    let g = gather(tracks);
    &&& skipped.orphans@ == g.orphans
    &&& skipped.auto_closed@ == auto_closed_notes(g, ticks_per_quarter)
    &&& skipped.notes@ == skipped_notes(
        all_intervals(g, ticks_per_quarter),
        tempo_segments(g.changes),
        ticks_per_quarter,
        transpose,
        clip,
    )
    &&& skipped.merged == merged_count(
        placed_events(tracks, ticks_per_quarter, transpose, clip),
        policy,
        merge,
    )
}

/// A line of audible events loses nothing when it is culled.
pub proof fn lemma_cull_audible(line: Seq<Event>)
    requires
        audible(line),
    ensures
        culled(line) == line,
    decreases line.len(),
{
    if line.len() > 0 {
        let front = line.drop_last();
        assert forall|i: int| 0 <= i < front.len() implies (#[trigger] front[i]).duration_us
            > EPSILON_US by {
            assert(front[i] == line[i]);
        }
        lemma_cull_audible(front);
        assert(line.last() == line[line.len() - 1]);
        assert(front.push(line.last()) =~= line);
    }
}

proof fn lemma_raw_wf(
    intervals: Seq<NoteInterval>,
    segs: Seq<TempoSegment>,
    ticks_per_quarter: u64,
    transpose: i32,
    clip: Option<(u8, u8)>,
)
    requires
        wf_segments(segs),
        ticks_per_quarter > 0,
    ensures
        all_wf(raw_events(intervals, segs, ticks_per_quarter, transpose, clip)),
        raw_events(intervals, segs, ticks_per_quarter, transpose, clip).len() <= intervals.len(),
    decreases intervals.len(),
{
    if intervals.len() > 0 {
        let iv = intervals.last();
        let rest = raw_events(intervals.drop_last(), segs, ticks_per_quarter, transpose, clip);
        lemma_raw_wf(intervals.drop_last(), segs, ticks_per_quarter, transpose, clip);
        lemma_monotone(segs, ticks_per_quarter, iv.start_tick, iv.start_tick);
        match event_of(iv, segs, ticks_per_quarter, transpose, clip) {
            Some(e) => {
                let grown = rest.push(e);
                assert(e.wf());
                assert forall|i: int| 0 <= i < grown.len() implies (#[trigger] grown[i]).wf() by {
                    if i < rest.len() {
                        assert(grown[i] == rest[i]);
                    }
                }
            },
            None => {},
        }
    }
}

/// A reduced line has no two events that overlap and no event that lasts
/// the epsilon or less, so culling leaves it as it is.
pub proof fn lemma_line_outcome(placed: Seq<Event>, policy: PolyPolicy, merge: bool)
    ensures
        line_outcome(placed, policy, merge) matches Ok(events) ==> {
            &&& events == reduced(placed, policy, merge)
            &&& monophonic(events)
            &&& audible(events)
            &&& all_wf(events)
        },
{
    if 2 * placed.len() <= usize::MAX {
        lemma_reduced_line(placed, policy, merge);
        lemma_cull_audible(reduced(placed, policy, merge));
    }
}

/// The timeline of a file has no two events that overlap and no event that
/// lasts the epsilon or less, whatever the file holds and whatever the
/// policy.
pub proof fn lemma_timeline_line(
    timing: Timing,
    tracks: Seq<Seq<TrackEvent>>,
    transpose: i32,
    policy: PolyPolicy,
    merge: bool,
    clip: Option<(u8, u8)>,
)
    ensures
        timeline(timing, tracks, transpose, policy, merge, clip) matches Ok((events, _)) ==> {
            &&& monophonic(events)
            &&& audible(events)
            &&& all_wf(events)
            &&& events == reduced(
                placed_events(tracks, timing->Metrical_0 as u64, transpose, clip),
                policy,
                merge,
            )
        },
{
    if let Timing::Metrical(ticks) = timing {
        lemma_line_outcome(placed_events(tracks, ticks as u64, transpose, clip), policy, merge);
    }
}

/// A track that sets the tempo at tick 0, where one is given, and holds one
/// note: on after `start` ticks, off `length` ticks later.
pub open spec fn lone_note_track(
    tempo: Option<u32>,
    start: u32,
    length: u32,
    channel: u8,
    key: u8,
    velocity: u8,
) -> Seq<TrackEvent> {
    let notes = seq![
        TrackEvent { delta: start, event: MidiEvent::NoteOn { channel, key, velocity } },
        TrackEvent { delta: length, event: MidiEvent::NoteOff { channel, key } },
    ];
    match tempo {
        Some(mpqn) => seq![TrackEvent { delta: 0, event: MidiEvent::Tempo(mpqn) }] + notes,
        None => notes,
    }
}

proof fn lemma_lone_note_gathered(
    tempo: Option<u32>,
    start: u32,
    length: u32,
    channel: u8,
    key: u8,
    velocity: u8,
)
    requires
        velocity > 0,
    ensures
        gather(seq![lone_note_track(tempo, start, length, channel, key, velocity)]) == (Gathered {
            changes: match tempo {
                Some(mpqn) => seq![TempoChange { tick: 0, mpqn }],
                None => Seq::empty(),
            },
            intervals: seq![
                NoteInterval {
                    midi: key,
                    start_tick: start as u64,
                    end_tick: (start + length) as u64,
                    velocity,
                    channel,
                },
            ],
            orphans: Seq::empty(),
            open: Seq::empty(),
            named: false,
            bad_name: false,
        }),
{
    let track = lone_note_track(tempo, start, length, channel, key, velocity);
    let on = TrackEvent { delta: start, event: MidiEvent::NoteOn { channel, key, velocity } };
    let off = TrackEvent { delta: length, event: MidiEvent::NoteOff { channel, key } };
    let g0 = gather_start();
    let t0 = Seq::<TrackEvent>::empty();
    let tracks = seq![track];
    assert(tracks.drop_last() =~= Seq::<Seq<TrackEvent>>::empty());
    assert(tracks.last() == track);
    assert(gather(Seq::<Seq<TrackEvent>>::empty()) == g0);
    assert(gather(tracks.drop_last()) == g0);
    assert(gather(tracks) == gather_track(g0, track));
    let note = OpenNote { channel, key, start_tick: start as u64, velocity };
    match tempo {
        Some(mpqn) => {
            let first = TrackEvent { delta: 0, event: MidiEvent::Tempo(mpqn) };
            let t1 = t0.push(first);
            let t2 = t1.push(on);
            let t3 = t2.push(off);
            assert(track =~= t3);
            lemma_gather_push(g0, t0, first);
            lemma_gather_push(g0, t1, on);
            lemma_gather_push(g0, t2, off);
            let g1 = gather_track(g0, t1);
            assert(g1.changes =~= seq![TempoChange { tick: 0, mpqn }]);
            let g2 = gather_track(g0, t2);
            assert(g2.open =~= seq![note]);
            assert(g2.open.drop_last() =~= Seq::<OpenNote>::empty());
            let g3 = gather_track(g0, t3);
            assert(g3.open =~= Seq::<OpenNote>::empty());
            assert(g3.intervals =~= seq![
                NoteInterval {
                    midi: key,
                    start_tick: start as u64,
                    end_tick: (start + length) as u64,
                    velocity,
                    channel,
                },
            ]);
            assert(g3.orphans =~= Seq::<Orphan>::empty());
            assert(g3.changes =~= seq![TempoChange { tick: 0, mpqn }]);
        },
        None => {
            let t1 = t0.push(on);
            let t2 = t1.push(off);
            assert(track =~= t2);
            lemma_gather_push(g0, t0, on);
            lemma_gather_push(g0, t1, off);
            let g1 = gather_track(g0, t1);
            assert(g1.open =~= seq![note]);
            assert(g1.open.drop_last() =~= Seq::<OpenNote>::empty());
            let g2 = gather_track(g0, t2);
            assert(g2.open =~= Seq::<OpenNote>::empty());
            assert(g2.intervals =~= seq![
                NoteInterval {
                    midi: key,
                    start_tick: start as u64,
                    end_tick: (start + length) as u64,
                    velocity,
                    channel,
                },
            ]);
            assert(g2.orphans =~= Seq::<Orphan>::empty());
            assert(g2.changes =~= Seq::<TempoChange>::empty());
        },
    }
}

/// The tempo that holds in a file that sets this tempo at tick 0, or none.
pub open spec fn tempo_or_default(tempo: Option<u32>) -> u32 {
    match tempo {
        Some(mpqn) => mpqn,
        None => DEFAULT_MPQN,
    }
}

/// A note that runs alone in a file with one tempo becomes one event, at
/// the time and of the length that the tempo gives its ticks: it starts at
/// the whole part of `start * mpqn / ticks_per_quarter` microseconds and
/// ends at the whole part of `end * mpqn / ticks_per_quarter`, where that
/// is a time that 64 bits hold and more than the epsilon after the start.
pub proof fn lemma_lone_note(
    ticks: u16,
    tempo: Option<u32>,
    start: u32,
    length: u32,
    channel: u8,
    key: u8,
    velocity: u8,
    policy: PolyPolicy,
    merge: bool,
)
    requires
        ticks > 0,
        velocity > 0,
        key <= MAX_PITCH,
        policy != PolyPolicy::Densest,
        ((start + length) * tempo_or_default(tempo)) / (ticks as int) <= u64::MAX,
        ((start + length) * tempo_or_default(tempo)) / (ticks as int) - (start * tempo_or_default(
            tempo,
        )) / (ticks as int) > EPSILON_US,
    ensures
        timeline(
            Timing::Metrical(ticks),
            seq![lone_note_track(tempo, start, length, channel, key, velocity)],
            0,
            policy,
            merge,
            None,
        ) == Ok::<(Seq<Event>, u32), ImportError>(
            (
                seq![
                    Event {
                        note: Note { midi: key, velocity },
                        time_us: ((start * tempo_or_default(tempo)) / (ticks as int)) as u64,
                        duration_us: (((start + length) * tempo_or_default(tempo)) / (ticks as int)
                            - (start * tempo_or_default(tempo)) / (ticks as int)) as u64,
                    },
                ],
                tempo_or_default(tempo),
            ),
        ),
{
    let tracks = seq![lone_note_track(tempo, start, length, channel, key, velocity)];
    let q = ticks as u64;
    let m = tempo_or_default(tempo);
    let s = start as u64;
    let e = (start + length) as u64;
    lemma_lone_note_gathered(tempo, start, length, channel, key, velocity);
    let g = gather(tracks);
    let segs = tempo_segments(g.changes);
    match tempo {
        Some(mpqn) => {
            lemma_constant_tempo(mpqn, q, s);
            lemma_constant_tempo(mpqn, q, e);
        },
        None => {
            lemma_default_tempo(q, s);
            lemma_default_tempo(q, e);
        },
    }
    let ts = (s * m) / (q as int);
    let te = (e * m) / (q as int);
    assert(micros_at(segs, q, s) == ts);
    assert(micros_at(segs, q, e) == te);
    lemma_monotone(segs, q, s, e);
    let iv = NoteInterval { midi: key, start_tick: s, end_tick: e, velocity, channel };
    let ev = Event {
        note: Note { midi: key, velocity },
        time_us: ts as u64,
        duration_us: (te - ts) as u64,
    };
    let intervals = all_intervals(g, q);
    assert(auto_closed_notes(g, q) =~= Seq::<NoteInterval>::empty());
    assert(intervals =~= seq![iv]);
    assert(event_of(iv, segs, q, 0, None) == Some(ev));
    assert(intervals.drop_last() =~= Seq::<NoteInterval>::empty());
    assert(intervals.last() == iv);
    let raw = raw_events(intervals, segs, q, 0, None);
    assert(raw_events(intervals.drop_last(), segs, q, 0, None) =~= Seq::<Event>::empty());
    assert(raw =~= seq![ev]);
    lemma_sorted_stays(raw, time_keys(raw));
    assert(placed_events(tracks, q, 0, None) == raw);
    lemma_reduce_fixed(raw, policy, merge);
    lemma_cull_audible(raw);
}

fn place_events(
    intervals: &Vec<NoteInterval>,
    map: &TempoMap,
    transpose: i32,
    clip: Option<(u8, u8)>,
) -> (r: (Vec<Event>, Vec<SkippedNote>))
    requires
        wf_segments(map.segments()),
        map.resolution() > 0,
    ensures
        r.0@ == raw_events(intervals@, map.segments(), map.resolution(), transpose, clip),
        r.1@ == skipped_notes(intervals@, map.segments(), map.resolution(), transpose, clip),
        all_wf(r.0@),
{
    let mut events: Vec<Event> = Vec::new();
    let mut skipped: Vec<SkippedNote> = Vec::new();
    let mut i: usize = 0;
    while i < intervals.len()
        invariant
            i <= intervals.len(),
            wf_segments(map.segments()),
            map.resolution() > 0,
            events@ == raw_events(
                intervals@.take(i as int),
                map.segments(),
                map.resolution(),
                transpose,
                clip,
            ),
            skipped@ == skipped_notes(
                intervals@.take(i as int),
                map.segments(),
                map.resolution(),
                transpose,
                clip,
            ),
        decreases intervals.len() - i,
    {
        let iv = intervals[i];
        proof {
            let taken = intervals@.take(i + 1);
            assert(taken.drop_last() == intervals@.take(i as int));
            assert(taken.last() == iv);
            lemma_monotone(map.segments(), map.resolution(), iv.start_tick, iv.start_tick);
            lemma_monotone(map.segments(), map.resolution(), iv.end_tick, iv.end_tick);
        }
        match place_note(&iv, map, transpose, clip) {
            Ok(event) => {
                events.push(event);
            },
            Err(reason) => {
                skipped.push(SkippedNote { note: iv, reason });
            },
        }
        i += 1;
    }
    proof {
        assert(intervals@.take(i as int) == intervals@);
        lemma_raw_wf(intervals@, map.segments(), map.resolution(), transpose, clip);
    }
    (events, skipped)
}

fn place_note(iv: &NoteInterval, map: &TempoMap, transpose: i32, clip: Option<(u8, u8)>) -> (r:
    Result<Event, SkipReason>)
    requires
        wf_segments(map.segments()),
        map.resolution() > 0,
    ensures
        match r {
            Ok(e) => event_of(*iv, map.segments(), map.resolution(), transpose, clip) == Some(e)
                && skip_reason(*iv, map.segments(), map.resolution(), transpose, clip) is None,
            Err(reason) => event_of(*iv, map.segments(), map.resolution(), transpose, clip)
                is None && skip_reason(*iv, map.segments(), map.resolution(), transpose, clip)
                == Some(reason),
        },
{
    proof {
        lemma_monotone(map.segments(), map.resolution(), iv.start_tick, iv.start_tick);
        lemma_monotone(map.segments(), map.resolution(), iv.end_tick, iv.end_tick);
    }
    let p = match place_pitch(iv.midi, transpose, clip) {
        Ok(p) => p,
        Err(reason) => {
            return Err(reason);
        },
    };
    let start = map.tick_to_micros(iv.start_tick);
    let end = map.tick_to_micros(iv.end_tick);
    match (start, end) {
        (Some(start), Some(end)) => {
            if end <= start {
                Err(SkipReason::NoLength)
            } else if end - start < EPSILON_US {
                Err(SkipReason::TooShort)
            } else {
                Ok(
                    Event {
                        note: Note { midi: p, velocity: iv.velocity },
                        time_us: start,
                        duration_us: end - start,
                    },
                )
            }
        },
        _ => Err(SkipReason::TimeOverflow),
    }
}

fn cull(line: Vec<Event>) -> (kept: Vec<Event>)
    ensures
        kept@ == culled(line@),
{
    let mut kept: Vec<Event> = Vec::new();
    let mut i: usize = 0;
    while i < line.len()
        invariant
            i <= line.len(),
            kept@ == culled(line@.take(i as int)),
        decreases line.len() - i,
    {
        proof {
            let taken = line@.take(i + 1);
            assert(taken.drop_last() == line@.take(i as int));
        }
        if line[i].duration_us >= EPSILON_US {
            kept.push(line[i]);
        }
        i += 1;
    }
    proof {
        assert(line@.take(i as int) == line@);
    }
    kept
}

/// The notes of a file placed in time, and what else the file says.
struct Placed {
    bad_name: bool,
    events: Vec<Event>,
    tempo_mpqn: u32,
    orphans: Vec<Orphan>,
    auto_closed: Vec<NoteInterval>,
    notes: Vec<SkippedNote>,
}

fn place(file: &MidiFile, ticks_per_quarter: u64, transpose: i32, clip: Option<(u8, u8)>) -> (r:
    Placed)
    requires
        ticks_per_quarter > 0,
    ensures
        r.bad_name == gather(file.events()).bad_name,
        r.events@ == placed_events(file.events(), ticks_per_quarter, transpose, clip),
        r.tempo_mpqn == display_tempo(tempo_segments(gather(file.events()).changes)),
        r.orphans@ == gather(file.events()).orphans,
        r.auto_closed@ == auto_closed_notes(gather(file.events()), ticks_per_quarter),
        r.notes@ == skipped_notes(
            all_intervals(gather(file.events()), ticks_per_quarter),
            tempo_segments(gather(file.events()).changes),
            ticks_per_quarter,
            transpose,
            clip,
        ),
        all_wf(r.events@),
{
    let scan = scan_file(file);
    let auto_closed = auto_close(&scan, ticks_per_quarter);
    let intervals = close_all(&scan, ticks_per_quarter);
    let map = TempoMap::build(&scan.changes, ticks_per_quarter);
    let (raw, notes) = place_events(&intervals, &map, transpose, clip);
    Placed {
        bad_name: scan.bad_name,
        events: sort_by_time(&raw),
        tempo_mpqn: map.display_mpqn(),
        orphans: scan.orphans,
        auto_closed,
        notes,
    }
}

fn reduce_line(placed: Vec<Event>, policy: PolyPolicy, merge: bool) -> (r: Result<
    (Vec<Event>, usize),
    ImportError,
>)
    requires
        all_wf(placed@),
    ensures
        match line_outcome(placed@, policy, merge) {
            Ok(events) => r matches Ok((line, merged)) && line@ == events && merged
                == merged_count(placed@, policy, merge),
            Err(e) => r matches Err(x) && x == e,
        },
{
    if placed.len() > usize::MAX / 2 {
        return Err(ImportError::TooManyNotes);
    }
    let ghost given = placed@;
    proof {
        lemma_line_outcome(given, policy, merge);
    }
    let swept = match reduce_to_monophonic(placed, policy, false) {
        Ok(swept) => swept,
        Err(e) => {
            return Err(e);
        },
    };
    proof {
        let bound: int = if swept.len() > 0 {
            swept@.last().end()
        } else {
            0
        };
        lemma_merge_line(swept@, bound);
    }
    let before = swept.len();
    let line = if merge {
        merge_events(&swept)
    } else {
        swept
    };
    let merged = before - line.len();
    Ok((cull(line), merged))
}

/// Builds the timeline of `file` and lists what was left out on the way.
///
/// Fails where the file counts time in frames, declares no ticks per
/// quarter note, carries a first track name that is not UTF-8, holds more
/// notes than can be laid out, or where the policy has no implementation
/// and there is a note to reduce. Otherwise the song holds the reduced
/// line: sorted, without overlap, without events that cannot be heard.
pub fn song_with_report(
    file: &MidiFile,
    title: Option<String>,
    transpose_semitones: i32,
    policy: PolyPolicy,
    merge: bool,
    clip_to_range: Option<(u8, u8)>,
) -> (r: Result<(Song, Skipped), ImportError>)
    ensures
        match timeline(
            file.timing,
            file.events(),
            transpose_semitones,
            policy,
            merge,
            clip_to_range,
        ) {
            Ok((events, mpqn)) => {
                &&& r matches Ok((song, skipped))
                &&& song.events@ == events
                &&& song.metadata.tempo_mpqn == Some(mpqn)
                &&& song.metadata.title == title
                &&& monophonic(song.events@) && audible(song.events@) && all_wf(song.events@)
                &&& reports(
                    skipped,
                    file.events(),
                    file.timing->Metrical_0 as u64,
                    transpose_semitones,
                    policy,
                    merge,
                    clip_to_range,
                )
            },
            Err(e) => r matches Err(x) && x == e,
        },
{
    let ticks_per_quarter: u64 = match file.timing {
        Timing::Metrical(ticks) => ticks as u64,
        Timing::Timecode => {
            return Err(ImportError::UnsupportedTiming);
        },
    };
    if ticks_per_quarter == 0 {
        return Err(ImportError::ZeroResolution);
    }
    let placed = place(file, ticks_per_quarter, transpose_semitones, clip_to_range);
    if placed.bad_name {
        return Err(ImportError::InvalidTrackName);
    }
    proof {
        lemma_line_outcome(placed.events@, policy, merge);
    }
    let tempo_mpqn = Some(placed.tempo_mpqn);
    match reduce_line(placed.events, policy, merge) {
        Ok((events, merged)) => Ok(
            (
                Song { metadata: Metadata { title, tempo_mpqn }, events },
                Skipped {
                    orphans: placed.orphans,
                    auto_closed: placed.auto_closed,
                    notes: placed.notes,
                    merged,
                },
            ),
        ),
        Err(e) => Err(e),
    }
}

/// Builds the timeline of `file`, as `song_with_report` does.
pub fn song_from_midi(
    file: &MidiFile,
    title: Option<String>,
    transpose_semitones: i32,
    policy: PolyPolicy,
    merge: bool,
    clip_to_range: Option<(u8, u8)>,
) -> (r: Result<Song, ImportError>)
    ensures
        delivers(
            r,
            timeline(
                file.timing,
                file.events(),
                transpose_semitones,
                policy,
                merge,
                clip_to_range,
            ),
            title,
        ),
        r matches Ok(song) ==> monophonic(song.events@) && audible(song.events@) && all_wf(
            song.events@,
        ),
{
    match song_with_report(file, title, transpose_semitones, policy, merge, clip_to_range) {
        Ok((song, _)) => Ok(song),
        Err(e) => Err(e),
    }
}

/// Builds the timeline of the MIDI file that `bytes` hold and lists what
/// was left out on the way.
///
/// Fails with `Malformed` exactly where the bytes are not decoded;
/// otherwise as `song_with_report` does on what was decoded.
pub fn midi_bytes_with_report(
    bytes: &[u8],
    title: Option<String>,
    transpose_semitones: i32,
    policy: PolyPolicy,
    merge: bool,
    clip_to_range: Option<(u8, u8)>,
) -> (r: Result<(Song, Skipped), ImportError>)
    ensures
        match decoded(bytes@) {
            Some((timing, tracks)) => match timeline(
                timing,
                tracks,
                transpose_semitones,
                policy,
                merge,
                clip_to_range,
            ) {
                Ok((events, mpqn)) => {
                    &&& r matches Ok((song, skipped))
                    &&& song.events@ == events
                    &&& song.metadata.tempo_mpqn == Some(mpqn)
                    &&& song.metadata.title == title
                    &&& monophonic(song.events@) && audible(song.events@) && all_wf(song.events@)
                    &&& reports(
                        skipped,
                        tracks,
                        timing->Metrical_0 as u64,
                        transpose_semitones,
                        policy,
                        merge,
                        clip_to_range,
                    )
                },
                Err(e) => r matches Err(x) && x == e,
            },
            None => r matches Err(e) && e == ImportError::Malformed,
        },
{
    match read_midi(bytes) {
        Some(file) => song_with_report(
            &file,
            title,
            transpose_semitones,
            policy,
            merge,
            clip_to_range,
        ),
        None => Err(ImportError::Malformed),
    }
}

/// Builds the timeline of the MIDI file that `bytes` hold.
///
/// Fails with `Malformed` exactly where the bytes are not decoded;
/// otherwise as `song_from_midi` does on what was decoded.
pub fn midi_bytes_to_song(
    bytes: &[u8],
    title: Option<String>,
    transpose_semitones: i32,
    policy: PolyPolicy,
    merge: bool,
    clip_to_range: Option<(u8, u8)>,
) -> (r: Result<Song, ImportError>)
    ensures
        match decoded(bytes@) {
            Some((timing, tracks)) => delivers(
                r,
                timeline(timing, tracks, transpose_semitones, policy, merge, clip_to_range),
                title,
            ),
            None => r matches Err(e) && e == ImportError::Malformed,
        },
        r matches Ok(song) ==> monophonic(song.events@) && audible(song.events@) && all_wf(
            song.events@,
        ),
{
    match midi_bytes_with_report(
        bytes,
        title,
        transpose_semitones,
        policy,
        merge,
        clip_to_range,
    ) {
        Ok((song, _)) => Ok(song),
        Err(e) => Err(e),
    }
}

} // verus!
