//! The failures of each stage of the decoding pipeline.

use vstd::prelude::*;

verus! {

/// What a failure says of the input: whether it was at fault, or whether a
/// stage was handed what no stage before it should have let through.
#[derive(Clone, Copy, Debug, PartialEq, Eq)]
pub enum ErrorClass {
    MalformedInput,
    InternalInvariantViolation,
}

/// Why a byte stream is not a Standard MIDI File that this library decodes.
#[derive(Clone, Copy, Debug, PartialEq, Eq)]
pub enum DecodeError {
    /// The bytes end before a value that the format announces is complete.
    UnexpectedEof,
    /// A seek would leave the byte source.
    SeekOutOfRange,
    /// The file does not start with `MThd`.
    BadHeaderMagic,
    /// The header chunk announces a length other than 6.
    InvalidHeaderSize { size: u32 },
    /// The format field is none of 0, 1 and 2.
    InvalidMidiType { midi_type: u16 },
    /// The format field is 2: a series of songs, which is not handled.
    UnsupportedMultipleSong,
    /// A single-track file announces a number of tracks other than 1.
    SingleTrackCount { nb_tracks: u16 },
    /// A timecode division names a frame rate other than 24, 25, 29 and 30.
    InvalidFrameRate { first_byte: u8 },
    /// The division comes to 0 ticks.
    ZeroTickdiv,
    /// A track chunk does not start with `MTrk`.
    BadTrackMagic,
    /// A delta-time is encoded on more than 4 bytes.
    InvalidRelativeTime { encoded_on: usize },
    /// The length of a meta or sysex payload is encoded on more than 8 bytes.
    VariableLengthTooLong { bytes_used: usize },
    /// The status byte starts no meta, sysex or channel event.
    UnknownEvent { status: u8 },
    /// A tempo event stands in a track other than the first of a multi-track file.
    TempoEventForbidden,
    /// The events of a track do not end where its declared length says.
    TrackLengthMismatch { declared: u32, consumed: usize },
    /// Bytes follow the last track.
    TrailingBytes,
    /// A tempo event does not carry exactly 3 bytes of payload.
    InvalidTempoSize,
    /// A timestamp does not fit in 64 bits.
    TimeOverflow,
}

/// Why the key events of a song cannot be told from its raw events.
#[derive(Clone, Copy, Debug, PartialEq, Eq)]
pub enum KeyEventError {
    /// A key is released and pressed again at one moment, and was never
    /// pressed before.
    OrphanRelease,
    /// A release is asked to move to before the start of the song.
    ShorteningUnderflow,
}

/// Why raw events and key events do not make a song.
#[derive(Clone, Copy, Debug, PartialEq, Eq)]
pub enum GroupError {
    /// The keys are not released as often as they are pressed.
    PressReleaseMismatch,
    /// A key is pressed and released at one moment.
    SimultaneousPressRelease,
}

/// Why some bytes make no song: the failure of one of the stages.
#[derive(Clone, Copy, Debug, PartialEq, Eq)]
pub enum SongError {
    Decode(DecodeError),
    KeyEvents(KeyEventError),
    Grouping(GroupError),
}

impl SongError {
    /// Failures of the decoding are the fault of the input; the others show
    /// events that no decoding should have made.
    pub open spec fn spec_class(self) -> ErrorClass {
        match self {
            SongError::Decode(_) => ErrorClass::MalformedInput,
            SongError::KeyEvents(_) => ErrorClass::InternalInvariantViolation,
            SongError::Grouping(_) => ErrorClass::InternalInvariantViolation,
        }
    }

    /// Whether the input was at fault.
    #[verifier::when_used_as_spec(spec_class)]
    pub fn class(self) -> (class: ErrorClass)
        ensures
            class == self.spec_class(),
    {
        match self {
            SongError::Decode(_) => ErrorClass::MalformedInput,
            SongError::KeyEvents(_) => ErrorClass::InternalInvariantViolation,
            SongError::Grouping(_) => ErrorClass::InternalInvariantViolation,
        }
    }
}

} // verus!
