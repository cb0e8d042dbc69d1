//! A standard MIDI file as plain values, and how it is read from bytes.
//!
//! Decoding the bytes is left to the `midly` crate. What it yields is copied,
//! event by event, into the types of this module; everything after that
//! works on those.

use vstd::prelude::*;

verus! {

/// How a file counts time.
#[derive(Debug, Clone, Copy, PartialEq, Eq, Structural)]
pub enum Timing {
    /// Ticks per quarter note.
    Metrical(u16),
    /// Frames per second and ticks per frame.
    Timecode,
}

/// What a track event says, as far as a timeline is built from it.
#[derive(Debug, Clone)]
pub enum MidiEvent {
    NoteOn { channel: u8, key: u8, velocity: u8 },
    NoteOff { channel: u8, key: u8 },
    /// Microseconds per quarter note from here on.
    Tempo(u32),
    /// The name of the track, as the bytes that the file holds.
    TrackName(Vec<u8>),
    /// Anything else.
    Other,
}

/// An event and the ticks that pass between the previous event of its track
/// and itself.
#[derive(Debug, Clone)]
pub struct TrackEvent {
    pub delta: u32,
    pub event: MidiEvent,
}

/// The content of a file: its timing and its tracks.
#[derive(Debug, Clone)]
pub struct MidiFile {
    pub timing: Timing,
    pub tracks: Vec<Vec<TrackEvent>>,
}

impl MidiFile {
    /// The events of each track.
    pub open spec fn events(&self) -> Seq<Seq<TrackEvent>> {
        Seq::new(self.tracks@.len(), |i: int| self.tracks@[i]@)
    }
}

/// `midly::Smf`, a decoded file. Nothing is known of what a value holds
/// but what the functions below say of it.
#[verifier::external_type_specification]
#[verifier::external_body]
pub struct ExSmf<'a>(midly::Smf<'a>);

/// `midly::Error`, the reason why bytes were not decoded. It is passed
/// through and never looked into.
#[verifier::external_type_specification]
#[verifier::external_body]
pub struct ExMidlyError(midly::Error);

/// What `midly::Smf::parse` makes of `bytes`: the timing and the tracks of
/// the file, or nothing where it reports an error.
pub uninterp spec fn smf_parse(bytes: Seq<u8>) -> Option<(Timing, Seq<Seq<TrackEvent>>)>;

/// The timing that the header of a parsed file holds.
pub uninterp spec fn smf_timing(smf: midly::Smf) -> Timing;

/// The events of each track of a parsed file.
pub uninterp spec fn smf_tracks(smf: midly::Smf) -> Seq<Seq<TrackEvent>>;

/// The four bytes from `at` on are the given ones.
pub open spec fn tagged(b: Seq<u8>, at: int, t0: u8, t1: u8, t2: u8, t3: u8) -> bool {
    b[at] == t0 && b[at + 1] == t1 && b[at + 2] == t2 && b[at + 3] == t3
}

/// The four bytes from `at` on as a number, the first byte counting most.
pub open spec fn be32(b: Seq<u8>, at: int) -> int {
    b[at] * 0x100_0000 + b[at + 1] * 0x1_0000 + b[at + 2] * 0x100 + b[at + 3]
}

/// The four bytes from `at` on as a number, the first byte counting least.
pub open spec fn le32(b: Seq<u8>, at: int) -> int {
    b[at] + b[at + 1] * 0x100 + b[at + 2] * 0x1_0000 + b[at + 3] * 0x100_0000
}

/// Where the data of a chunk ends that starts at `data` and declares `len`
/// bytes, in a region that ends at `end`: a chunk that declares more than
/// there is takes what there is.
pub open spec fn chunk_end(data: int, len: int, end: int) -> int {
    if len > end - data {
        end
    } else {
        data + len
    }
}

/// The header data of `len` bytes from `at` on has a format that exists and
/// the one division that cannot be negated: frames per second written as
/// the byte `0x80`.
pub open spec fn header_overflows(b: Seq<u8>, at: int, len: int) -> bool {
    len >= 6 && b[at] == 0 && b[at + 1] <= 2 && b[at + 4] == 0x80
}

/// No header chunk among the chunks from `pos` to `end` has a division that
/// cannot be negated. The chunks are told apart as the decoder does it: a
/// tag of four bytes, a length of four bytes, the data.
pub open spec fn chunks_safe(b: Seq<u8>, pos: int, end: int) -> bool
    decreases end - pos,
{
    if pos < 0 || end - pos < 8 {
        true
    } else {
        let stop = chunk_end(pos + 8, be32(b, pos + 4), end);
        if tagged(b, pos, 0x4d, 0x54, 0x68, 0x64) && header_overflows(b, pos + 8, stop - pos - 8) {
            false
        } else {
            chunks_safe(b, stop, end)
        }
    }
}

/// Where the chunk after the one at `pos` starts in a RIFF container: behind
/// its data, and behind one more byte where the data has an odd length.
pub open spec fn riff_next(b: Seq<u8>, pos: int, end: int) -> int {
    let len = le32(b, pos + 4);
    let stop = chunk_end(pos + 8, len, end);
    if len % 2 == 1 && stop < end {
        stop + 1
    } else {
        stop
    }
}

/// The data of the first chunk tagged `data` among the RIFF chunks from
/// `pos` to `end`: where it starts and where it ends.
pub open spec fn riff_data(b: Seq<u8>, pos: int, end: int) -> Option<(int, int)>
    decreases end - pos,
{
    if pos < 0 || end - pos < 8 {
        None
    } else if tagged(b, pos, 0x64, 0x61, 0x74, 0x61) {
        Some((pos + 8, chunk_end(pos + 8, le32(b, pos + 4), end)))
    } else {
        riff_data(b, riff_next(b, pos, end), end)
    }
}

/// The part of the bytes that holds the chunks of the MIDI file: all of
/// them where they start with a header chunk, the data chunk of the
/// container where they are a RIFF container of MIDI data, else none.
pub open spec fn midi_part(b: Seq<u8>) -> Option<(int, int)> {
    if b.len() < 4 {
        None
    } else if tagged(b, 0, 0x4d, 0x54, 0x68, 0x64) {
        Some((0, b.len() as int))
    } else if tagged(b, 0, 0x52, 0x49, 0x46, 0x46) {
        let end = chunk_end(8, le32(b, 4), b.len() as int);
        if b.len() < 8 || end < 12 || !tagged(b, 8, 0x52, 0x4d, 0x49, 0x44) {
            None
        } else {
            riff_data(b, 12, end)
        }
    } else {
        None
    }
}

/// The bytes can be handed to the decoder: wherever it reads a header, it
/// finds a division that it can negate.
pub open spec fn parse_safe(b: Seq<u8>) -> bool {
    match midi_part(b) {
        Some((pos, end)) => chunks_safe(b, pos, end),
        None => true,
    }
}

fn is_tagged(bytes: &[u8], at: usize, t0: u8, t1: u8, t2: u8, t3: u8) -> (r: bool)
    requires
        at + 4 <= bytes.len(),
    ensures
        r == tagged(bytes@, at as int, t0, t1, t2, t3),
{
    bytes[at] == t0 && bytes[at + 1] == t1 && bytes[at + 2] == t2 && bytes[at + 3] == t3
}

fn read_be32(bytes: &[u8], at: usize) -> (r: u64)
    requires
        at + 4 <= bytes.len(),
    ensures
        r == be32(bytes@, at as int),
{
    (bytes[at] as u64) * 0x100_0000 + (bytes[at + 1] as u64) * 0x1_0000 + (bytes[at + 2] as u64)
        * 0x100 + (bytes[at + 3] as u64)
}

fn read_le32(bytes: &[u8], at: usize) -> (r: u64)
    requires
        at + 4 <= bytes.len(),
    ensures
        r == le32(bytes@, at as int),
{
    (bytes[at] as u64) + (bytes[at + 1] as u64) * 0x100 + (bytes[at + 2] as u64) * 0x1_0000 + (
    bytes[at + 3] as u64) * 0x100_0000
}

fn end_of_chunk(data: usize, len: u64, end: usize) -> (r: usize)
    requires
        data <= end,
    ensures
        r == chunk_end(data as int, len as int, end as int),
        data <= r <= end,
{
    if len > (end - data) as u64 {
        end
    } else {
        data + len as usize
    }
}

fn are_chunks_safe(bytes: &[u8], from: usize, end: usize) -> (r: bool)
    requires
        from <= end <= bytes.len(),
    ensures
        r == chunks_safe(bytes@, from as int, end as int),
{
    let mut pos = from;
    while end - pos >= 8
        invariant
            from <= pos <= end <= bytes.len(),
            chunks_safe(bytes@, from as int, end as int) == chunks_safe(
                bytes@,
                pos as int,
                end as int,
            ),
        decreases end - pos,
    {
        let stop = end_of_chunk(pos + 8, read_be32(bytes, pos + 4), end);
        if is_tagged(bytes, pos, 0x4d, 0x54, 0x68, 0x64) && stop - pos - 8 >= 6 && bytes[pos + 8]
            == 0 && bytes[pos + 9] <= 2 && bytes[pos + 12] == 0x80 {
            return false;
        }
        pos = stop;
    }
    true
}

fn find_riff_data(bytes: &[u8], from: usize, end: usize) -> (r: Option<(usize, usize)>)
    requires
        from <= end <= bytes.len(),
    ensures
        match r {
            Some((a, z)) => riff_data(bytes@, from as int, end as int) == Some((a as int, z as int))
                && a <= z <= end,
            None => riff_data(bytes@, from as int, end as int) is None,
        },
{
    let mut pos = from;
    while end - pos >= 8
        invariant
            from <= pos <= end <= bytes.len(),
            riff_data(bytes@, from as int, end as int) == riff_data(
                bytes@,
                pos as int,
                end as int,
            ),
        decreases end - pos,
    {
        let len = read_le32(bytes, pos + 4);
        let stop = end_of_chunk(pos + 8, len, end);
        if is_tagged(bytes, pos, 0x64, 0x61, 0x74, 0x61) {
            return Some((pos + 8, stop));
        }
        pos = if len % 2 == 1 && stop < end {
            stop + 1
        } else {
            stop
        };
    }
    None
}

/// Tells whether the bytes can be handed to the decoder.
pub fn is_parse_safe(bytes: &[u8]) -> (r: bool)
    ensures
        r == parse_safe(bytes@),
{
    let n = bytes.len();
    if n < 4 {
        return true;
    }
    if is_tagged(bytes, 0, 0x4d, 0x54, 0x68, 0x64) {
        return are_chunks_safe(bytes, 0, n);
    }
    if !is_tagged(bytes, 0, 0x52, 0x49, 0x46, 0x46) || n < 8 {
        return true;
    }
    let end = end_of_chunk(8, read_le32(bytes, 4), n);
    if end < 12 || !is_tagged(bytes, 8, 0x52, 0x4d, 0x49, 0x44) {
        return true;
    }
    match find_riff_data(bytes, 12, end) {
        Some((a, z)) => are_chunks_safe(bytes, a, z),
        None => true,
    }
}

/// `midly::Smf::parse`. The result depends on the bytes alone; where it is a
/// file, its timing and tracks are those that `smf_parse` names.
///
/// Bytes with a header whose division is frames per second written as the
/// byte `0x80` are kept from it: it negates that byte as a signed number,
/// which a build that checks its arithmetic answers by stopping.
#[verifier::external_body]
fn parse_smf<'a>(bytes: &'a [u8]) -> (r: Result<midly::Smf<'a>, midly::Error>)
    requires
        parse_safe(bytes@),
    ensures
        match r {
            Ok(smf) => smf_parse(bytes@) == Some((smf_timing(smf), smf_tracks(smf))),
            Err(_) => smf_parse(bytes@) is None,
        },
{
    midly::Smf::parse(bytes)
}

/// The field `header.timing` of a `midly::Smf`: the ticks per quarter note
/// of metrical timing, as `midly`'s `u15::as_int` gives them.
#[verifier::external_body]
fn timing_of(smf: &midly::Smf) -> (t: Timing)
    ensures
        t == smf_timing(*smf),
{
    match smf.header.timing {
        midly::Timing::Metrical(ticks) => Timing::Metrical(ticks.as_int()),
        midly::Timing::Timecode(..) => Timing::Timecode,
    }
}

/// The length of the field `tracks` of a `midly::Smf`.
#[verifier::external_body]
fn track_count(smf: &midly::Smf) -> (n: usize)
    ensures
        n == smf_tracks(*smf).len(),
{
    smf.tracks.len()
}

/// The length of one track of a `midly::Smf`.
#[verifier::external_body]
fn track_len(smf: &midly::Smf, track: usize) -> (n: usize)
    requires
        track < smf_tracks(*smf).len(),
    ensures
        n == smf_tracks(*smf)[track as int].len(),
{
    smf.tracks[track].len()
}

/// One `midly::TrackEvent` of a `midly::Smf`, its variants told apart and
/// its integers taken out with `as_int`.
#[verifier::external_body]
fn event_at(smf: &midly::Smf, track: usize, at: usize) -> (e: TrackEvent)
    requires
        track < smf_tracks(*smf).len(),
        at < smf_tracks(*smf)[track as int].len(),
    ensures
        e == smf_tracks(*smf)[track as int][at as int],
{
    let ev = &smf.tracks[track][at];
    let event = match ev.kind {
        midly::TrackEventKind::Midi { channel, message: midly::MidiMessage::NoteOn { key, vel } } =>
            MidiEvent::NoteOn { channel: channel.as_int(), key: key.as_int(), velocity: vel.as_int() },
        midly::TrackEventKind::Midi { channel, message: midly::MidiMessage::NoteOff { key, .. } } =>
            MidiEvent::NoteOff { channel: channel.as_int(), key: key.as_int() },
        midly::TrackEventKind::Meta(midly::MetaMessage::Tempo(t)) => MidiEvent::Tempo(t.as_int()),
        midly::TrackEventKind::Meta(midly::MetaMessage::TrackName(b)) => MidiEvent::TrackName(b.to_vec()),
        _ => MidiEvent::Other,
    };
    TrackEvent { delta: ev.delta.as_int(), event }
}

/// Copies a parsed file into plain values.
fn copy_file(smf: &midly::Smf) -> (file: MidiFile)
    ensures
        file.timing == smf_timing(*smf),
        file.events() == smf_tracks(*smf),
{
    let timing = timing_of(smf);
    let count = track_count(smf);
    let mut tracks: Vec<Vec<TrackEvent>> = Vec::new();
    let mut i: usize = 0;
    while i < count
        invariant
            i <= count == smf_tracks(*smf).len(),
            tracks.len() == i,
            forall|k: int| 0 <= k < i ==> (#[trigger] tracks@[k])@ == smf_tracks(*smf)[k],
        decreases count - i,
    {
        let len = track_len(smf, i);
        let mut track: Vec<TrackEvent> = Vec::new();
        let mut j: usize = 0;
        while j < len
            invariant
                i < count == smf_tracks(*smf).len(),
                j <= len == smf_tracks(*smf)[i as int].len(),
                track.len() == j,
                forall|k: int| 0 <= k < j ==> #[trigger] track@[k] == smf_tracks(*smf)[i as int][k],
            decreases len - j,
        {
            track.push(event_at(smf, i, j));
            j += 1;
        }
        proof {
            assert(track@ =~= smf_tracks(*smf)[i as int]);
        }
        tracks.push(track);
        i += 1;
    }
    let file = MidiFile { timing, tracks };
    proof {
        assert(file.events() =~= smf_tracks(*smf));
    }
    file
}

/// What reading a standard MIDI file from `bytes` yields: the timing and
/// the tracks that the decoder finds, or nothing where the bytes cannot be
/// handed to it or it rejects them.
pub open spec fn decoded(bytes: Seq<u8>) -> Option<(Timing, Seq<Seq<TrackEvent>>)> {
    if parse_safe(bytes) {
        smf_parse(bytes)
    } else {
        None
    }
}

/// Reads a standard MIDI file from `bytes`.
///
/// Fails where a header of the file gives its division as frames per second
/// written as the byte `0x80`, which is no division, and where `midly`
/// rejects the bytes; otherwise the file holds the timing and the events
/// that it decoded.
pub fn read_midi(bytes: &[u8]) -> (r: Option<MidiFile>)
    ensures
        match r {
            Some(file) => decoded(bytes@) == Some((file.timing, file.events())),
            None => decoded(bytes@) is None,
        },
{
    if !is_parse_safe(bytes) {
        return None;
    }
    match parse_smf(bytes) {
        Ok(smf) => Some(copy_file(&smf)),
        Err(_) => None,
    }
}

} // verus!
