use flute_well::intervals::{close_all, last_tick_of, scan_file};
use flute_well::{
    close_note, sort_by_time, Event, MidiEvent, MidiFile, Note, NoteInterval, OpenNote, Orphan,
    TempoChange, Timing, TrackEvent,
};

fn open(channel: u8, key: u8, start_tick: u64, velocity: u8) -> OpenNote {
    OpenNote { channel, key, start_tick, velocity }
}

fn interval(midi: u8, start_tick: u64, end_tick: u64, velocity: u8, channel: u8) -> NoteInterval {
    NoteInterval { midi, start_tick, end_tick, velocity, channel }
}

fn ev(delta: u32, event: MidiEvent) -> TrackEvent {
    TrackEvent { delta, event }
}

#[test]
fn close_note_takes_the_note_opened_last() {
    let mut notes = vec![open(0, 60, 0, 10), open(0, 62, 5, 20), open(0, 60, 7, 30)];
    let mut intervals = Vec::new();
    assert!(close_note(&mut notes, &mut intervals, 0, 60, 9));
    assert_eq!(intervals, vec![interval(60, 7, 9, 30, 0)]);
    assert_eq!(notes, vec![open(0, 60, 0, 10), open(0, 62, 5, 20)]);
    close_note(&mut notes, &mut intervals, 0, 60, 11);
    assert_eq!(intervals, vec![interval(60, 7, 9, 30, 0), interval(60, 0, 11, 10, 0)]);
    assert_eq!(notes, vec![open(0, 62, 5, 20)]);
}

#[test]
fn close_note_without_a_match_changes_nothing() {
    let mut notes = vec![open(0, 60, 0, 10), open(1, 61, 5, 20)];
    let mut intervals = vec![interval(1, 2, 3, 4, 5)];
    assert!(!close_note(&mut notes, &mut intervals, 1, 60, 9));
    assert!(!close_note(&mut notes, &mut intervals, 0, 61, 9));
    assert_eq!(notes, vec![open(0, 60, 0, 10), open(1, 61, 5, 20)]);
    assert_eq!(intervals, vec![interval(1, 2, 3, 4, 5)]);
    let mut none: Vec<OpenNote> = Vec::new();
    close_note(&mut none, &mut intervals, 0, 60, 9);
    assert!(none.is_empty());
    assert_eq!(intervals.len(), 1);
}

#[test]
fn scan_counts_ticks_track_by_track() {
    let first = vec![
        ev(10, MidiEvent::NoteOn { channel: 2, key: 64, velocity: 90 }),
        ev(5, MidiEvent::Tempo(400_000)),
        ev(5, MidiEvent::NoteOff { channel: 2, key: 64 }),
        ev(1, MidiEvent::NoteOn { channel: 2, key: 65, velocity: 91 }),
    ];
    let second = vec![
        ev(3, MidiEvent::NoteOn { channel: 2, key: 66, velocity: 92 }),
        ev(0, MidiEvent::Other),
        ev(4, MidiEvent::NoteOn { channel: 2, key: 66, velocity: 0 }),
    ];
    let file = MidiFile { timing: Timing::Metrical(96), tracks: vec![first, second] };
    let scan = scan_file(&file);
    assert!(!scan.bad_name);
    assert!(!scan.named);
    assert_eq!(scan.changes, vec![TempoChange { tick: 15, mpqn: 400_000 }]);
    assert_eq!(scan.intervals, vec![interval(64, 10, 20, 90, 2), interval(66, 3, 7, 92, 2)]);
    assert_eq!(scan.open, vec![open(2, 65, 21, 91)]);
    assert_eq!(last_tick_of(&scan), 20);
    assert_eq!(
        close_all(&scan, 96),
        vec![interval(64, 10, 20, 90, 2), interval(66, 3, 7, 92, 2), interval(65, 21, 117, 91, 2)]
    );
}

#[test]
fn ticks_stop_at_the_largest_tick() {
    let mut track = Vec::new();
    for _ in 0..5 {
        track.push(ev(u32::MAX, MidiEvent::Other));
    }
    for _ in 0..u8::MAX {
        track.push(ev(u32::MAX, MidiEvent::Other));
    }
    let many: u64 = 260 * (u32::MAX as u64);
    track.push(ev(0, MidiEvent::Tempo(1)));
    let file = MidiFile { timing: Timing::Metrical(1), tracks: vec![track] };
    assert_eq!(scan_file(&file).changes, vec![TempoChange { tick: many, mpqn: 1 }]);

    let mut open_note = scan_file(&file);
    open_note.open.push(open(0, 60, u64::MAX - 1, 1));
    let all = close_all(&open_note, 480);
    assert_eq!(all, vec![interval(60, u64::MAX - 1, u64::MAX, 1, 0)]);
}

#[test]
fn every_note_on_becomes_one_interval() {
    let track = vec![
        ev(0, MidiEvent::NoteOff { channel: 0, key: 1 }),
        ev(0, MidiEvent::NoteOn { channel: 0, key: 1, velocity: 5 }),
        ev(1, MidiEvent::NoteOn { channel: 0, key: 1, velocity: 6 }),
        ev(1, MidiEvent::NoteOn { channel: 0, key: 2, velocity: 7 }),
        ev(1, MidiEvent::NoteOn { channel: 0, key: 1, velocity: 0 }),
        ev(1, MidiEvent::NoteOff { channel: 0, key: 3 }),
        ev(1, MidiEvent::NoteOn { channel: 1, key: 1, velocity: 8 }),
    ];
    let file = MidiFile { timing: Timing::Metrical(96), tracks: vec![track.clone(), track] };
    let scan = scan_file(&file);
    assert_eq!(scan.intervals.len() + scan.open.len(), 8);
    assert_eq!(close_all(&scan, 96).len(), 8);
    assert_eq!(
        scan.orphans,
        vec![
            Orphan { channel: 0, key: 1, tick: 0 },
            Orphan { channel: 0, key: 3, tick: 4 },
            Orphan { channel: 0, key: 3, tick: 4 },
        ]
    );
}

#[test]
fn events_are_sorted_by_their_start() {
    let e = |midi: u8, time_us: u64| Event { note: Note { midi, velocity: 1 }, time_us, duration_us: 5 };
    let sorted = sort_by_time(&vec![e(1, 30), e(2, 10), e(3, 30), e(4, 0), e(5, 10)]);
    let order: Vec<u8> = sorted.iter().map(|x| x.note.midi).collect();
    assert_eq!(order, vec![4, 2, 5, 1, 3]);
    assert_eq!(sorted[0].end_us(), 5);
}
