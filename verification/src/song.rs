//! From the bytes of a file to a song, through all stages.

use vstd::prelude::*;
use crate::errors::SongError;
use crate::keyboard_events_extractor::{get_key_events, spec_get_key_events};
use crate::midi_reader::{get_midi_events, spec_get_midi_events, MidiEvent};
use crate::utils::{
    event_count, group_events_by_time, is_song_of, spec_group_error, total_events, MusicEventView,
    Song,
};

verus! {

/// Whether `song` is what the bytes of a file decode to: the song of the
/// events that a device plays and of the key events that these stand for.
pub open spec fn is_song_of_file(song: Seq<MusicEventView>, bytes: Seq<u8>) -> bool {
    &&& spec_get_midi_events(bytes) matches Ok(midi)
    &&& spec_get_key_events(midi) matches Ok(keys)
    &&& spec_group_error(keys).is_none()
    &&& is_song_of(song, midi, keys)
    &&& total_events(song) == midi.len() + keys.len()
}

/// Why the bytes of a file decode to no song, if they decode to none: the
/// failure of the first stage that fails.
pub open spec fn spec_song_error(bytes: Seq<u8>) -> Option<SongError> {
    match spec_get_midi_events(bytes) {
        Err(e) => Some(SongError::Decode(e)),
        Ok(midi) => match spec_get_key_events(midi) {
            Err(e) => Some(SongError::KeyEvents(e)),
            Ok(keys) => match spec_group_error(keys) {
                Some(e) => Some(SongError::Grouping(e)),
                None => None,
            },
        },
    }
}

/// Decodes the bytes of a Standard MIDI File into a song: the moments at
/// which something happens, in ascending order of time, each with the
/// messages for a device and the keys to show as pressed or released.
pub fn decode_song(data: &[u8]) -> (res: Result<Song, SongError>)
    ensures
        match spec_song_error(data@) {
            Some(e) => res matches Err(err) && err == e,
            None => res matches Ok(song) && is_song_of_file(song.deep_view(), data@) && forall|
                k: int,
            | 0 <= k < song@.len() ==> event_count(#[trigger] song.deep_view()[k]) > 0,
        },
{
    let midi_events = match get_midi_events(data) {
        Ok(midi_events) => midi_events,
        Err(e) => {
            return Err(SongError::Decode(e));
        },
    };
    let copy = midi_events.clone();
    let keyboard_events = match get_key_events(copy) {
        Ok(keyboard_events) => keyboard_events,
        Err(e) => {
            return Err(SongError::KeyEvents(e));
        },
    };
    match group_events_by_time(&midi_events, &keyboard_events) {
        Ok(song) => Ok(song),
        Err(e) => Err(SongError::Grouping(e)),
    }
}

} // verus!
