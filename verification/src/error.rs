//! Why a timeline could not be built.

use vstd::prelude::*;

verus! {

/// Failure of a whole import. Anything that concerns a single note is
/// skipped instead and never reported here.
#[derive(Debug, Clone, Copy, PartialEq, Eq, Structural)]
pub enum ImportError {
    /// The bytes are not a standard MIDI file.
    Malformed,
    /// The file counts time in frames per second, not in ticks per beat.
    UnsupportedTiming,
    /// The file declares zero ticks per quarter note.
    ZeroResolution,
    /// The first track name that is not empty is not valid UTF-8.
    InvalidTrackName,
    /// The reduction policy has no implementation.
    UnsupportedPolicy,
    /// More notes than can be laid out in memory for the reduction.
    TooManyNotes,
}

impl ImportError {
    /// A sentence for the user.
    pub fn message(&self) -> (r: &'static str)
        ensures
            r@ == self.text(),
    {
        match self {
            ImportError::Malformed => "Failed to parse MIDI..!",
            ImportError::UnsupportedTiming =>
                "SMPTE timecode midi timing is not currently supported..!",
            ImportError::ZeroResolution => "MIDI file declares zero ticks per quarter note..!",
            ImportError::InvalidTrackName => "MIDI track name is not valid UTF-8..!",
            ImportError::UnsupportedPolicy => "Not yet implemented..!",
            ImportError::TooManyNotes => "MIDI file holds too many notes..!",
        }
    }

    /// The sentence that `message` returns.
    pub open spec fn text(&self) -> Seq<char> {
        match self {
            ImportError::Malformed => "Failed to parse MIDI..!"@,
            ImportError::UnsupportedTiming =>
                "SMPTE timecode midi timing is not currently supported..!"@,
            ImportError::ZeroResolution => "MIDI file declares zero ticks per quarter note..!"@,
            ImportError::InvalidTrackName => "MIDI track name is not valid UTF-8..!"@,
            ImportError::UnsupportedPolicy => "Not yet implemented..!"@,
            ImportError::TooManyNotes => "MIDI file holds too many notes..!"@,
        }
    }
}

} // verus!
