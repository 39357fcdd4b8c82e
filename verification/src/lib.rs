//! Decoding of Standard MIDI Files, and of the messages of a MIDI input
//! device, into songs for a player that shows a piano keyboard.
//!
//! A file goes through four stages. `midi_reader` decodes its chunks into raw
//! events with their times in ticks, and `tempo_mapper` gives each event its
//! time in nanoseconds. `keyboard_events_extractor` tells the presses and
//! releases of keys from the raw events. `utils` groups both by time into a
//! song. `song` runs all four. `music_player` holds what a player decides:
//! the colours of the keys, where they are drawn, and when to go on.

pub mod errors;
pub mod byte_cursor;
pub mod stable_sort;
pub mod seq_search;
pub mod midi_reader;
pub mod tempo_mapper;
pub mod keyboard_events_extractor;
pub mod utils;
pub mod song;
pub mod music_player;
