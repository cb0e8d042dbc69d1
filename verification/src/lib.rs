//! Plays a polyphonic note timeline on an instrument that can hold one note
//! at a time.
//!
//! A MIDI file is first collapsed into a monophonic sequence of events, then
//! handed to a player whose worker decides, step by step, what the performer
//! has to do next. All times are whole microseconds.

pub mod engine;
pub mod error;
pub mod intervals;
pub mod midi_file;
pub mod midi_importer;
pub mod model;
pub mod order;
pub mod player;
pub mod policy;
pub mod reduce;
pub mod sounding;
pub mod tempo;
pub mod util;

pub use engine::{press_steps, PressError, Step, SETTLE_US, WHOLE};
pub use error::ImportError;
pub use intervals::{close_note, NoteInterval, OpenNote, Orphan};
pub use midi_file::{is_parse_safe, read_midi, MidiEvent, MidiFile, Timing, TrackEvent};
pub use midi_importer::{
    midi_bytes_to_song, midi_bytes_with_report, place_pitch, song_from_midi, song_with_report,
    transpose_pitch, SkipReason, Skipped, SkippedNote,
};
pub use model::mappings::{input_for_midi, keys_for_midi, mapped_inputs, Input, PLAY_KEY};
pub use model::song::{sort_by_time, Event, Metadata, Note, Song};
pub use player::{
    build_schedule, host_from_title, Action, Host, Observation, Outcome, Phase, Player,
    PlayerError, ScheduledEvent, Worker, POLL_US, READY_TIMEOUT_US,
};
pub use policy::PolyPolicy;
pub use reduce::{merge_events, reduce_to_monophonic, EPSILON_US};
pub use tempo::{TempoChange, TempoMap, TempoSegment, DEFAULT_MPQN};
pub use util::{
    articulation_from_name, asks_custom, find_policy, known_policy, parse_articulation,
    parse_policy, policy_from_name, PORTATO, STACCATISSIMO, STACCATO,
};
