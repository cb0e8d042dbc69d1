use flute_well::{
    is_parse_safe, midi_bytes_to_song, midi_bytes_with_report, place_pitch, read_midi,
    song_from_midi, song_with_report, transpose_pitch, Event, ImportError, MidiEvent, MidiFile,
    NoteInterval, Orphan, PolyPolicy, SkipReason, SkippedNote, Song, Timing, TrackEvent,
};

fn varlen(mut value: u32, out: &mut Vec<u8>) {
    let mut stack = vec![(value & 0x7f) as u8];
    value >>= 7;
    while value > 0 {
        stack.push(((value & 0x7f) as u8) | 0x80);
        value >>= 7;
    }
    while let Some(b) = stack.pop() {
        out.push(b);
    }
}

fn note_on(delta: u32, channel: u8, key: u8, velocity: u8, out: &mut Vec<u8>) {
    varlen(delta, out);
    out.push(0x90 | channel);
    out.push(key);
    out.push(velocity);
}

fn note_off(delta: u32, channel: u8, key: u8, out: &mut Vec<u8>) {
    varlen(delta, out);
    out.push(0x80 | channel);
    out.push(key);
    out.push(64);
}

fn tempo(delta: u32, mpqn: u32, out: &mut Vec<u8>) {
    varlen(delta, out);
    out.push(0xff);
    out.push(0x51);
    out.push(3);
    out.push((mpqn >> 16) as u8);
    out.push((mpqn >> 8) as u8);
    out.push(mpqn as u8);
}

fn track_name(delta: u32, name: &[u8], out: &mut Vec<u8>) {
    varlen(delta, out);
    out.push(0xff);
    out.push(0x03);
    out.push(name.len() as u8);
    out.extend_from_slice(name);
}

fn file(division: u16, tracks: &[Vec<u8>]) -> Vec<u8> {
    let mut out = Vec::new();
    out.extend_from_slice(b"MThd");
    out.extend_from_slice(&[0, 0, 0, 6]);
    out.extend_from_slice(&[0, if tracks.len() > 1 { 1 } else { 0 }]);
    out.extend_from_slice(&(tracks.len() as u16).to_be_bytes());
    out.extend_from_slice(&division.to_be_bytes());
    for body in tracks {
        out.extend_from_slice(b"MTrk");
        out.extend_from_slice(&((body.len() + 4) as u32).to_be_bytes());
        out.extend_from_slice(body);
        out.extend_from_slice(&[0x00, 0xff, 0x2f, 0x00]);
    }
    out
}

/// Twinkle, Twinkle, Little Star in A, one voice, 100 beats per minute.
fn twinkle() -> Vec<u8> {
    let phrase_1: [(u8, u32); 7] = [(69, 1), (69, 1), (76, 1), (76, 1), (78, 1), (78, 1), (76, 2)];
    let phrase_2: [(u8, u32); 7] = [(74, 1), (74, 1), (73, 1), (73, 1), (71, 1), (71, 1), (69, 2)];
    let phrase_3: [(u8, u32); 7] = [(76, 1), (76, 1), (74, 1), (74, 1), (73, 1), (73, 1), (71, 2)];
    let mut body = Vec::new();
    track_name(0, b"Melody", &mut body);
    tempo(0, 600_000, &mut body);
    for phrase in [phrase_1, phrase_2, phrase_3, phrase_3, phrase_1, phrase_2] {
        for (key, beats) in phrase {
            note_on(0, 0, key, 100, &mut body);
            note_off(480 * beats, 0, key, &mut body);
        }
    }
    file(480, &[body])
}

fn import(bytes: &[u8], transpose: i32, clip: Option<(u8, u8)>) -> Result<Song, ImportError> {
    midi_bytes_to_song(
        bytes,
        Some(String::from("Twinkle_Twinkle_Little_Star.mid")),
        transpose,
        PolyPolicy::Highest,
        false,
        clip,
    )
}

fn plain(events: &[Event]) -> Vec<(u8, u8, u64, u64)> {
    let mut out = Vec::new();
    for e in events {
        out.push((e.note.midi, e.note.velocity, e.time_us, e.duration_us));
    }
    out
}

fn on(delta: u32, channel: u8, key: u8, velocity: u8) -> TrackEvent {
    TrackEvent { delta, event: MidiEvent::NoteOn { channel, key, velocity } }
}

fn off(delta: u32, channel: u8, key: u8) -> TrackEvent {
    TrackEvent { delta, event: MidiEvent::NoteOff { channel, key } }
}

fn build(file: &MidiFile, policy: PolyPolicy) -> Result<Song, ImportError> {
    song_from_midi(file, None, 0, policy, false, None)
}

fn one_track(ticks: u16, events: Vec<TrackEvent>) -> MidiFile {
    MidiFile { timing: Timing::Metrical(ticks), tracks: vec![events] }
}

#[test]
fn midi_file_import() {
    let song = import(&twinkle(), 0, Some((69, 93)));

    assert!(song.is_ok());
    assert_eq!(song.unwrap().events.len(), 42);
}

#[test]
fn midi_semitone_transpose() {
    let transpose = 2;
    let song_default = import(&twinkle(), 0, Some((69, 93)));
    let song_transposed = import(&twinkle(), transpose, Some((69, 93)));

    assert!(song_default.is_ok());
    assert!(song_transposed.is_ok());
    let events_default = song_default.unwrap().events;
    let events_transposed = song_transposed.unwrap().events;

    assert_eq!(events_default.len(), 42);
    assert_eq!(events_transposed.len(), 42);

    assert_eq!(events_default.first().unwrap().note.midi, 69);
    assert_eq!(events_default.last().unwrap().note.midi, 69);

    assert_eq!(events_transposed.first().unwrap().note.midi, 71);
    assert_eq!(events_transposed.last().unwrap().note.midi, 71);
}

#[test]
fn midi_octave_transpose() {
    let range = 45..=69;
    let transpose = (*range.start(), *range.end());

    let song = import(&twinkle(), 0, Some(transpose));

    assert!(song.is_ok());
    let events = song.unwrap().events;

    assert_eq!(events.len(), 42);
    assert!(events.iter().map(|e| e.note.midi).all(|midi| range.contains(&midi)));
}

#[test]
fn import_places_notes_by_the_tempo() {
    let song = import(&twinkle(), 0, Some((69, 93))).unwrap();
    assert_eq!(song.metadata.tempo_mpqn, Some(600_000));
    assert_eq!(song.metadata.title.as_deref(), Some("Twinkle_Twinkle_Little_Star.mid"));
    assert_eq!(
        plain(&song.events[..3]),
        vec![
            (69, 100, 0, 600_000),
            (69, 100, 600_000, 600_000),
            (76, 100, 1_200_000, 600_000),
        ]
    );
    assert_eq!(plain(&song.events[6..7]), vec![(76, 100, 3_600_000, 1_200_000)]);
    let last = song.events.last().unwrap();
    assert_eq!(last.time_us + last.duration_us, 48 * 600_000);
}

#[test]
fn parsed_file_holds_what_the_bytes_say() {
    let mut body = Vec::new();
    track_name(0, b"Lead", &mut body);
    tempo(5, 123_456, &mut body);
    note_on(200, 3, 61, 99, &mut body);
    note_off(70_000, 3, 61, &mut body);
    let parsed = read_midi(&file(96, &[body])).unwrap();
    assert_eq!(parsed.timing, Timing::Metrical(96));
    assert_eq!(parsed.tracks.len(), 1);
    let track = &parsed.tracks[0];
    assert_eq!(track.len(), 5);
    assert_eq!(track[0].delta, 0);
    assert!(matches!(&track[0].event, MidiEvent::TrackName(name) if name == b"Lead"));
    assert_eq!(track[1].delta, 5);
    assert!(matches!(track[1].event, MidiEvent::Tempo(123_456)));
    assert_eq!(track[2].delta, 200);
    assert!(matches!(
        track[2].event,
        MidiEvent::NoteOn { channel: 3, key: 61, velocity: 99 }
    ));
    assert_eq!(track[3].delta, 70_000);
    assert!(matches!(track[3].event, MidiEvent::NoteOff { channel: 3, key: 61 }));
    assert!(matches!(track[4].event, MidiEvent::Other));
}

#[test]
fn parsed_file_keeps_its_tracks_apart() {
    let mut first = Vec::new();
    note_on(0, 0, 60, 10, &mut first);
    let mut second = Vec::new();
    note_on(7, 1, 62, 20, &mut second);
    note_off(9, 1, 62, &mut second);
    let parsed = read_midi(&file(480, &[first, second])).unwrap();
    assert_eq!(parsed.tracks.len(), 2);
    assert_eq!(parsed.tracks[0].len(), 2);
    assert_eq!(parsed.tracks[1].len(), 3);
    assert!(matches!(
        parsed.tracks[1][0].event,
        MidiEvent::NoteOn { channel: 1, key: 62, velocity: 20 }
    ));
}

#[test]
fn bytes_that_are_no_midi_file_are_malformed() {
    let r = import(b"this is not a midi file", 0, None);
    assert_eq!(r.err(), Some(ImportError::Malformed));
    assert!(read_midi(b"").is_none());
    assert_eq!(import(&[], 0, None).err(), Some(ImportError::Malformed));
}

#[test]
fn timecode_timing_is_not_supported() {
    let mut body = Vec::new();
    note_on(0, 0, 69, 100, &mut body);
    note_off(480, 0, 69, &mut body);
    let bytes = file(0xe728, &[body]);
    assert_eq!(read_midi(&bytes).unwrap().timing, Timing::Timecode);
    assert_eq!(import(&bytes, 0, None).err(), Some(ImportError::UnsupportedTiming));
}

#[test]
fn zero_ticks_per_quarter_are_refused() {
    let mut body = Vec::new();
    note_on(0, 0, 69, 100, &mut body);
    note_off(480, 0, 69, &mut body);
    let bytes = file(0, &[body]);
    assert_eq!(import(&bytes, 0, None).err(), Some(ImportError::ZeroResolution));
}

#[test]
fn first_track_name_must_be_utf8() {
    let mut body = Vec::new();
    track_name(0, &[0xc3, 0x28], &mut body);
    note_on(0, 0, 69, 100, &mut body);
    note_off(480, 0, 69, &mut body);
    let bytes = file(480, &[body]);
    assert_eq!(import(&bytes, 0, None).err(), Some(ImportError::InvalidTrackName));
}

#[test]
fn later_track_names_are_not_looked_at() {
    let mut body = Vec::new();
    track_name(0, b"", &mut body);
    track_name(0, "Fl\u{f6}te".as_bytes(), &mut body);
    track_name(0, &[0xff, 0xfe], &mut body);
    note_on(0, 0, 69, 100, &mut body);
    note_off(480, 0, 69, &mut body);
    let bytes = file(480, &[body]);
    let song = import(&bytes, 0, None).unwrap();
    assert_eq!(plain(&song.events), vec![(69, 100, 0, 500_000)]);
}

#[test]
fn empty_track_name_does_not_count_as_a_name() {
    let mut body = Vec::new();
    track_name(0, b"", &mut body);
    track_name(0, &[0xff, 0xfe], &mut body);
    let bytes = file(480, &[body]);
    assert_eq!(import(&bytes, 0, None).err(), Some(ImportError::InvalidTrackName));
}

#[test]
fn densest_policy_is_refused_when_there_are_notes() {
    let notes = one_track(480, vec![on(0, 0, 69, 100), off(480, 0, 69)]);
    assert_eq!(
        build(&notes, PolyPolicy::Densest).err(),
        Some(ImportError::UnsupportedPolicy)
    );
    let silent = one_track(480, vec![]);
    assert_eq!(build(&silent, PolyPolicy::Densest).unwrap().events.len(), 0);
}

#[test]
fn default_tempo_is_120_beats_per_minute() {
    let f = one_track(480, vec![on(0, 0, 69, 100), off(480, 0, 69)]);
    let song = build(&f, PolyPolicy::Highest).unwrap();
    assert_eq!(song.metadata.tempo_mpqn, Some(500_000));
    assert_eq!(plain(&song.events), vec![(69, 100, 0, 500_000)]);
}

#[test]
fn closing_point_gives_the_velocity() {
    let mut body = Vec::new();
    note_on(0, 0, 69, 100, &mut body);
    note_off(480, 0, 69, &mut body);
    let song = import(&file(480, &[body]), 0, None).unwrap();
    assert_eq!(plain(&song.events), vec![(69, 100, 0, 500_000)]);
}

#[test]
fn tempo_change_in_the_middle_of_a_note() {
    let f = one_track(
        480,
        vec![
            on(0, 0, 69, 100),
            TrackEvent { delta: 480, event: MidiEvent::Tempo(1_000_000) },
            off(480, 0, 69),
        ],
    );
    let song = build(&f, PolyPolicy::Highest).unwrap();
    assert_eq!(plain(&song.events), vec![(69, 100, 0, 1_500_000)]);
    assert_eq!(song.metadata.tempo_mpqn, Some(1_000_000));
}

#[test]
fn tempo_of_another_track_applies_to_all() {
    let conductor = vec![TrackEvent { delta: 0, event: MidiEvent::Tempo(250_000) }];
    let melody = vec![on(480, 0, 70, 90), off(960, 0, 70)];
    let f = MidiFile { timing: Timing::Metrical(480), tracks: vec![melody, conductor] };
    let song = build(&f, PolyPolicy::Highest).unwrap();
    assert_eq!(plain(&song.events), vec![(70, 90, 250_000, 500_000)]);
}

#[test]
fn microseconds_are_rounded_down() {
    let f = one_track(3, vec![on(1, 0, 69, 100), off(1, 0, 69)]);
    let song = build(&f, PolyPolicy::Highest).unwrap();
    assert_eq!(plain(&song.events), vec![(69, 100, 166_666, 166_667)]);
}

#[test]
fn note_on_with_velocity_zero_closes_a_note() {
    let f = one_track(480, vec![on(0, 0, 69, 100), on(480, 0, 69, 0)]);
    let song = build(&f, PolyPolicy::Highest).unwrap();
    assert_eq!(plain(&song.events), vec![(69, 100, 0, 500_000)]);
}

#[test]
fn note_off_without_a_note_is_dropped() {
    let f = one_track(480, vec![off(0, 0, 60), on(0, 0, 69, 100), off(480, 1, 69), off(0, 0, 69)]);
    let song = build(&f, PolyPolicy::Highest).unwrap();
    assert_eq!(plain(&song.events), vec![(69, 100, 0, 500_000)]);
}

#[test]
fn notes_of_one_key_close_last_opened_first() {
    let f = one_track(
        480,
        vec![
            on(0, 0, 60, 10),
            on(480, 0, 72, 20),
            on(0, 0, 72, 30),
            off(480, 0, 72),
            off(960, 0, 72),
            off(0, 0, 60),
        ],
    );
    let song = build(&f, PolyPolicy::Loudest).unwrap();
    assert_eq!(
        plain(&song.events),
        vec![(60, 30, 0, 500_000), (72, 30, 500_000, 500_000), (60, 10, 1_000_000, 1_000_000)]
    );
}

#[test]
fn open_note_is_closed_at_the_last_tick() {
    let f = one_track(480, vec![on(0, 0, 69, 100), on(0, 0, 60, 50), off(960, 0, 60)]);
    let song = build(&f, PolyPolicy::Highest).unwrap();
    assert_eq!(plain(&song.events), vec![(69, 100, 0, 1_000_000)]);
}

#[test]
fn lone_open_note_lasts_a_quarter() {
    let f = one_track(480, vec![on(240, 0, 69, 100)]);
    let song = build(&f, PolyPolicy::Highest).unwrap();
    assert_eq!(plain(&song.events), vec![(69, 100, 250_000, 500_000)]);
}

#[test]
fn note_that_ends_before_it_starts_is_dropped() {
    let first = vec![on(960, 0, 69, 100)];
    let second = vec![off(480, 0, 69), on(0, 0, 70, 100), off(480, 0, 70)];
    let f = MidiFile { timing: Timing::Metrical(480), tracks: vec![first, second] };
    let song = build(&f, PolyPolicy::Highest).unwrap();
    assert_eq!(plain(&song.events), vec![(70, 100, 500_000, 500_000)]);
}

#[test]
fn note_shorter_than_the_epsilon_is_dropped() {
    let f = one_track(
        1000,
        vec![
            on(0, 0, 69, 100),
            off(3, 0, 69),
            on(0, 0, 70, 100),
            off(4, 0, 70),
            on(0, 0, 71, 100),
            off(5, 0, 71),
        ],
    );
    let song = build(&f, PolyPolicy::Highest).unwrap();
    assert_eq!(plain(&song.events), vec![(71, 100, 3_500, 2_500)]);
}

#[test]
fn time_that_does_not_fit_drops_the_note() {
    let mut events = vec![TrackEvent { delta: 0, event: MidiEvent::Tempo(u32::MAX) }];
    for _ in 0..5 {
        events.push(TrackEvent { delta: u32::MAX, event: MidiEvent::Other });
    }
    events.push(on(0, 0, 69, 100));
    events.push(off(1, 0, 69));
    let f = one_track(1, events);
    let song = build(&f, PolyPolicy::Highest).unwrap();
    assert_eq!(song.events.len(), 0);
}

#[test]
fn transpose_moves_by_semitones() {
    assert_eq!(transpose_pitch(69, 0, None), Some(69));
    assert_eq!(transpose_pitch(69, 2, None), Some(71));
    assert_eq!(transpose_pitch(69, -70, None), None);
    assert_eq!(transpose_pitch(69, -69, None), Some(0));
    assert_eq!(transpose_pitch(120, 7, None), Some(127));
    assert_eq!(transpose_pitch(120, 8, None), None);
    assert_eq!(transpose_pitch(0, i32::MAX, None), None);
    assert_eq!(transpose_pitch(255, i32::MIN, None), None);
}

#[test]
fn transpose_folds_by_octaves_into_the_range() {
    assert_eq!(transpose_pitch(60, 0, Some((69, 93))), Some(72));
    assert_eq!(transpose_pitch(57, 0, Some((69, 93))), Some(69));
    assert_eq!(transpose_pitch(100, 0, Some((69, 93))), Some(88));
    assert_eq!(transpose_pitch(76, 0, Some((45, 69))), Some(64));
    assert_eq!(transpose_pitch(0, 0, Some((96, 96))), Some(96));
    assert_eq!(transpose_pitch(0, 0, Some((97, 97))), None);
    assert_eq!(transpose_pitch(0, 0, Some((108, 110))), None);
    assert_eq!(transpose_pitch(60, 0, Some((61, 62))), None);
    assert_eq!(transpose_pitch(200, 0, Some((128, 255))), None);
    assert_eq!(transpose_pitch(69, -1000, Some((0, 127))), None);
}

#[test]
fn transposed_notes_outside_the_range_are_dropped() {
    let f = one_track(
        480,
        vec![on(0, 0, 60, 100), off(480, 0, 60), on(0, 0, 61, 100), off(480, 0, 61)],
    );
    let song = song_from_midi(&f, None, 0, PolyPolicy::Highest, false, Some((61, 62))).unwrap();
    assert_eq!(plain(&song.events), vec![(61, 100, 500_000, 500_000)]);
}

#[test]
fn merge_flag_joins_repeated_notes() {
    let f = one_track(
        480,
        vec![on(0, 0, 69, 100), off(480, 0, 69), on(1, 0, 69, 100), off(479, 0, 69)],
    );
    let apart = song_from_midi(&f, None, 0, PolyPolicy::Highest, false, None).unwrap();
    assert_eq!(apart.events.len(), 2);
    let joined = song_from_midi(&f, None, 0, PolyPolicy::Highest, true, None).unwrap();
    assert_eq!(plain(&joined.events), vec![(69, 100, 0, 1_000_000)]);
}

#[test]
fn error_messages_name_the_failure() {
    assert_eq!(ImportError::Malformed.message(), "Failed to parse MIDI..!");
    assert_eq!(
        ImportError::UnsupportedTiming.message(),
        "SMPTE timecode midi timing is not currently supported..!"
    );
    assert_eq!(ImportError::UnsupportedPolicy.message(), "Not yet implemented..!");
}

fn riff(midi: &[u8], before: &[(&[u8; 4], &[u8])]) -> Vec<u8> {
    let mut inner = Vec::new();
    inner.extend_from_slice(b"RMID");
    for (tag, data) in before {
        inner.extend_from_slice(*tag);
        inner.extend_from_slice(&(data.len() as u32).to_le_bytes());
        inner.extend_from_slice(data);
        if data.len() % 2 == 1 {
            inner.push(0);
        }
    }
    inner.extend_from_slice(b"data");
    inner.extend_from_slice(&(midi.len() as u32).to_le_bytes());
    inner.extend_from_slice(midi);
    let mut out = Vec::new();
    out.extend_from_slice(b"RIFF");
    out.extend_from_slice(&(inner.len() as u32).to_le_bytes());
    out.extend_from_slice(&inner);
    out
}

fn one_note(division: u16) -> Vec<u8> {
    let mut body = Vec::new();
    note_on(0, 0, 69, 100, &mut body);
    note_off(480, 0, 69, &mut body);
    file(division, &[body])
}

#[test]
fn division_that_cannot_be_negated_is_kept_from_the_decoder() {
    let smallest = [b'M', b'T', b'h', b'd', 0, 0, 0, 6, 0, 0, 0, 1, 0x80, 0x00];
    assert!(!is_parse_safe(&smallest));
    assert!(read_midi(&smallest).is_none());
    assert_eq!(import(&smallest, 0, None).err(), Some(ImportError::Malformed));

    for low in [0x00u16, 0x01, 0x28, 0xff] {
        let bytes = one_note(0x8000 | low);
        assert!(!is_parse_safe(&bytes));
        assert!(read_midi(&bytes).is_none());
    }
    for format in [0u8, 1, 2] {
        let mut bytes = one_note(0x8000);
        bytes[9] = format;
        assert!(!is_parse_safe(&bytes));
    }
}

#[test]
fn other_divisions_reach_the_decoder() {
    for division in [0x0000u16, 0x0001, 0x01e0, 0x7fff, 0x8100, 0xe728, 0xe250, 0xff00, 0x7f80] {
        assert!(is_parse_safe(&one_note(division)));
    }
    assert_eq!(read_midi(&one_note(0xe728)).unwrap().timing, Timing::Timecode);
    assert_eq!(read_midi(&one_note(0x7f80)).unwrap().timing, Timing::Metrical(0x7f80));
    assert!(read_midi(&one_note(0x8100)).is_none());
    assert!(read_midi(&one_note(0xff00)).is_none());
}

#[test]
fn header_that_is_not_read_does_not_count() {
    let mut no_format = one_note(0x8000);
    no_format[9] = 3;
    assert!(is_parse_safe(&no_format));
    assert!(read_midi(&no_format).is_none());

    let mut wide_format = one_note(0x8000);
    wide_format[8] = 1;
    assert!(is_parse_safe(&wide_format));
    assert!(read_midi(&wide_format).is_none());

    let short = [b'M', b'T', b'h', b'd', 0, 0, 0, 5, 0, 0, 0, 1, 0x80];
    assert!(is_parse_safe(&short));
    assert!(read_midi(&short).is_none());

    let cut = [b'M', b'T', b'h', b'd', 0, 0, 0, 4, 0, 0, 0, 1, 0x80, 0x00];
    assert!(is_parse_safe(&cut));
    assert!(read_midi(&cut).is_none());

    assert!(is_parse_safe(b""));
    assert!(is_parse_safe(b"MTh"));
    assert!(is_parse_safe(b"MThd\0\0"));
    assert!(is_parse_safe(b"nothing of the kind \x80"));
}

#[test]
fn header_behind_other_chunks_counts() {
    let mut bytes = one_note(480);
    assert!(is_parse_safe(&bytes));
    bytes.extend_from_slice(b"XYZW");
    bytes.extend_from_slice(&[0, 0, 0, 3, 1, 2, 3]);
    bytes.extend_from_slice(b"MThd");
    bytes.extend_from_slice(&[0, 0, 0, 6, 0, 1, 0, 1, 0x80, 0x00]);
    assert!(!is_parse_safe(&bytes));
    assert!(read_midi(&bytes).is_none());

    let mut longer = one_note(480);
    longer.extend_from_slice(b"MThd");
    longer.extend_from_slice(&[0, 0, 0, 6, 0, 1, 0, 1, 0x00, 0x60]);
    assert!(is_parse_safe(&longer));
    let parsed = read_midi(&longer).unwrap();
    assert_eq!(parsed.timing, Timing::Metrical(480));
    assert_eq!(parsed.tracks.len(), 1);

    let mut swallowed = one_note(480);
    let at = swallowed.len();
    swallowed.extend_from_slice(b"XYZW");
    swallowed.extend_from_slice(&[0, 0, 1, 0]);
    swallowed.extend_from_slice(b"MThd");
    swallowed.extend_from_slice(&[0, 0, 0, 6, 0, 1, 0, 1, 0x80, 0x00]);
    assert!(is_parse_safe(&swallowed));
    assert_eq!(read_midi(&swallowed).unwrap().tracks.len(), 1);
    assert_eq!(swallowed[at], b'X');
}

#[test]
fn midi_in_a_riff_container_is_read() {
    let plain_file = one_note(480);
    let wrapped = riff(&plain_file, &[]);
    assert!(is_parse_safe(&wrapped));
    let parsed = read_midi(&wrapped).unwrap();
    assert_eq!(parsed.timing, Timing::Metrical(480));
    assert_eq!(parsed.tracks.len(), 1);
    assert_eq!(parsed.tracks[0].len(), 3);

    let behind = riff(&plain_file, &[(b"LIST", &[1, 2, 3]), (b"junk", &[9, 9])]);
    assert!(is_parse_safe(&behind));
    assert_eq!(read_midi(&behind).unwrap().tracks[0].len(), 3);

    let song = import(&wrapped, 0, None).unwrap();
    assert_eq!(plain(&song.events), vec![(69, 100, 0, 500_000)]);
}

#[test]
fn riff_container_with_a_bad_division_is_kept_from_the_decoder() {
    let bad = one_note(0x8000);
    assert!(!is_parse_safe(&riff(&bad, &[])));
    assert!(read_midi(&riff(&bad, &[])).is_none());
    assert!(!is_parse_safe(&riff(&bad, &[(b"LIST", &[1, 2, 3])])));
    assert!(!is_parse_safe(&riff(&bad, &[(b"LIST", &[1, 2, 3, 4])])));

    let mut other_form = riff(&bad, &[]);
    other_form[8] = b'W';
    assert!(is_parse_safe(&other_form));
    assert!(read_midi(&other_form).is_none());

    let mut no_data = riff(&bad, &[]);
    no_data[12] = b'D';
    assert!(is_parse_safe(&no_data));
    assert!(read_midi(&no_data).is_none());

    let mut truncated = riff(&bad, &[]);
    truncated.truncate(34);
    assert!(!is_parse_safe(&truncated));
    assert!(read_midi(&truncated).is_none());
    truncated.truncate(33);
    assert!(is_parse_safe(&truncated));
    assert!(read_midi(&truncated).is_none());
}

#[test]
fn report_lists_what_was_left_out() {
    let track = vec![
        off(0, 0, 50),
        on(0, 0, 69, 100),
        off(480, 0, 69),
        on(0, 0, 30, 90),
        off(480, 0, 30),
        on(0, 0, 70, 80),
        off(1, 0, 70),
        on(0, 2, 71, 70),
        on(479, 0, 72, 60),
        off(480, 0, 72),
        off(0, 3, 72),
    ];
    let f = one_track(480, track);
    let (song, skipped) =
        song_with_report(&f, None, 0, PolyPolicy::Highest, false, Some((69, 72))).unwrap();
    assert_eq!(
        skipped.orphans,
        vec![
            Orphan { channel: 0, key: 50, tick: 0 },
            Orphan { channel: 3, key: 72, tick: 1920 },
        ]
    );
    let open_note = NoteInterval { midi: 71, start_tick: 961, end_tick: 1920, velocity: 70, channel: 2 };
    assert_eq!(skipped.auto_closed, vec![open_note]);
    assert_eq!(
        skipped.notes,
        vec![
            SkippedNote {
                note: NoteInterval { midi: 30, start_tick: 480, end_tick: 960, velocity: 90, channel: 0 },
                reason: SkipReason::OutOfRange,
            },
            SkippedNote {
                note: NoteInterval { midi: 70, start_tick: 960, end_tick: 961, velocity: 80, channel: 0 },
                reason: SkipReason::TooShort,
            },
        ]
    );
    assert_eq!(skipped.merged, 0);
    assert_eq!(song.events.len(), 3);
    let same = song_from_midi(&f, None, 0, PolyPolicy::Highest, false, Some((69, 72))).unwrap();
    assert_eq!(plain(&same.events), plain(&song.events));
}

#[test]
fn report_tells_the_reasons_apart() {
    let first = vec![on(960, 0, 69, 100)];
    let second = vec![
        off(480, 0, 69),
        on(0, 0, 70, 100),
        on(0, 0, 70, 0),
        on(0, 0, 120, 100),
        off(480, 0, 120),
    ];
    let f = MidiFile { timing: Timing::Metrical(480), tracks: vec![first, second] };
    let (_, skipped) = song_with_report(&f, None, 10, PolyPolicy::Highest, false, None).unwrap();
    let reasons: Vec<(u8, SkipReason)> = skipped.notes.iter().map(|s| (s.note.midi, s.reason)).collect();
    assert_eq!(
        reasons,
        vec![(69, SkipReason::NoLength), (70, SkipReason::NoLength), (120, SkipReason::NoSuchPitch)]
    );

    let mut late = vec![TrackEvent { delta: 0, event: MidiEvent::Tempo(u32::MAX) }];
    for _ in 0..5 {
        late.push(TrackEvent { delta: u32::MAX, event: MidiEvent::Other });
    }
    late.push(on(0, 0, 69, 100));
    late.push(off(1, 0, 69));
    let (_, skipped) =
        song_with_report(&one_track(1, late), None, 0, PolyPolicy::Highest, false, None).unwrap();
    assert_eq!(skipped.notes.len(), 1);
    assert_eq!(skipped.notes[0].reason, SkipReason::TimeOverflow);
}

#[test]
fn report_counts_merged_events() {
    let mut body = Vec::new();
    for _ in 0..3 {
        note_on(1, 0, 69, 100, &mut body);
        note_off(479, 0, 69, &mut body);
    }
    note_on(1, 0, 71, 100, &mut body);
    note_off(479, 0, 71, &mut body);
    let bytes = file(480, &[body]);
    let (song, skipped) =
        midi_bytes_with_report(&bytes, None, 0, PolyPolicy::Highest, true, None).unwrap();
    assert_eq!(skipped.merged, 2);
    assert_eq!(song.events.len(), 2);
    let (song, skipped) =
        midi_bytes_with_report(&bytes, None, 0, PolyPolicy::Highest, false, None).unwrap();
    assert_eq!(skipped.merged, 0);
    assert_eq!(song.events.len(), 4);
    assert!(skipped.orphans.is_empty() && skipped.auto_closed.is_empty() && skipped.notes.is_empty());
    assert_eq!(
        midi_bytes_with_report(b"no", None, 0, PolyPolicy::Highest, false, None).err(),
        Some(ImportError::Malformed)
    );
}

#[test]
fn pitch_is_placed_or_the_reason_is_given() {
    assert_eq!(place_pitch(69, 2, None), Ok(71));
    assert_eq!(place_pitch(120, 8, None), Err(SkipReason::NoSuchPitch));
    assert_eq!(place_pitch(60, 0, Some((69, 93))), Ok(72));
    assert_eq!(place_pitch(60, 0, Some((61, 62))), Err(SkipReason::OutOfRange));
    assert_eq!(place_pitch(0, 0, Some((108, 110))), Err(SkipReason::OutOfRange));
    assert_eq!(place_pitch(200, 0, Some((128, 255))), Err(SkipReason::NoSuchPitch));
}

#[test]
fn lone_note_lies_where_the_tempo_puts_it() {
    let cases: [(u16, Option<u32>, u32, u32); 6] = [
        (480, None, 0, 480),
        (480, Some(600_000), 960, 240),
        (96, Some(1), 0, 300_000),
        (7, Some(333_333), 1_001, 13),
        (1, Some(u32::MAX), u32::MAX - 1_000, 1_000),
        (32_767, Some(16_777_215), 5, 4_000_000_000),
    ];
    for (ticks, tempo, start, length) in cases {
        let mut events = Vec::new();
        if let Some(mpqn) = tempo {
            events.push(TrackEvent { delta: 0, event: MidiEvent::Tempo(mpqn) });
        }
        events.push(on(start, 5, 77, 33));
        events.push(off(length, 5, 77));
        let m = tempo.unwrap_or(500_000) as u128;
        let begin = (start as u128 * m / ticks as u128) as u64;
        let end = ((start as u128 + length as u128) * m / ticks as u128) as u64;
        assert!(end - begin > 2_000);
        for policy in [PolyPolicy::Highest, PolyPolicy::Lowest, PolyPolicy::Loudest] {
            for merge in [false, true] {
                let song = song_from_midi(&one_track(ticks, events.clone()), None, 0, policy, merge, None)
                    .unwrap();
                assert_eq!(plain(&song.events), vec![(77, 33, begin, end - begin)]);
                assert_eq!(song.metadata.tempo_mpqn, Some(tempo.unwrap_or(500_000)));
            }
        }
    }
}
