use pianoterm::byte_cursor::ByteCursor;
use pianoterm::errors::DecodeError;
use pianoterm::midi_reader::{
    get_event, get_midi_events, get_relative_time, get_tickdiv, get_track_events,
    get_variable_length_array, get_variable_length_value, is_header_correct, parse_midi_file,
    read_header, read_header_size, read_magic_number, read_midi_type, read_nb_tracks, MidiEvent,
    MidiHeader, MidiType, TempoStyle,
};

fn event(time: u64, data: &[u8]) -> MidiEvent {
    MidiEvent { time, data: data.to_vec() }
}

fn header(midi_type: u16, nb_tracks: u16, division: [u8; 2]) -> Vec<u8> {
    let mut bytes = vec![0x4D, 0x54, 0x68, 0x64, 0, 0, 0, 6];
    bytes.extend_from_slice(&midi_type.to_be_bytes());
    bytes.extend_from_slice(&nb_tracks.to_be_bytes());
    bytes.extend_from_slice(&division);
    bytes
}

fn track(events: &[u8]) -> Vec<u8> {
    let mut bytes = vec![0x4D, 0x54, 0x72, 0x6B];
    bytes.extend_from_slice(&(events.len() as u32).to_be_bytes());
    bytes.extend_from_slice(events);
    bytes
}

fn file(midi_type: u16, division: [u8; 2], tracks: &[&[u8]]) -> Vec<u8> {
    let mut bytes = header(midi_type, tracks.len() as u16, division);
    for events in tracks {
        bytes.extend_from_slice(&track(events));
    }
    bytes
}

const END_OF_TRACK: [u8; 4] = [0x00, 0xFF, 0x2F, 0x00];

#[test]
fn key_pressed_needs_a_velocity() {
    assert!(event(0, &[0x90, 60, 64]).is_key_pressed());
    assert!(event(0, &[0x9F, 60, 1]).is_key_pressed());
    assert!(!event(0, &[0x90, 60, 0]).is_key_pressed());
    assert!(!event(0, &[0x80, 60, 64]).is_key_pressed());
    assert!(!event(0, &[0x90, 60]).is_key_pressed());
    assert!(!event(0, &[0x90, 60, 64, 0]).is_key_pressed());
}

#[test]
fn key_released_is_note_off_or_silent_note_on() {
    assert!(event(0, &[0x80, 60, 64]).is_key_released());
    assert!(event(0, &[0x85, 60, 0]).is_key_released());
    assert!(event(0, &[0x90, 60, 0]).is_key_released());
    assert!(!event(0, &[0x90, 60, 0x90]).is_key_released());
    assert!(!event(0, &[0x90, 60, 64]).is_key_released());
    assert!(!event(0, &[0xA0, 60, 0]).is_key_released());
    assert!(!event(0, &[0x80, 60]).is_key_released());
}

#[test]
fn no_event_is_both_pressed_and_released() {
    for status in 0u8..=255 {
        for velocity in [0u8, 1, 64, 0x90, 255] {
            let e = event(0, &[status, 60, velocity]);
            assert!(!(e.is_key_pressed() && e.is_key_released()));
        }
    }
}

#[test]
fn pitch_is_the_second_byte() {
    assert_eq!(event(0, &[0x90, 61, 64]).get_pitch(), Some(61));
    assert_eq!(event(0, &[0xC0, 5]).get_pitch(), Some(5));
    assert_eq!(event(0, &[0xC0]).get_pitch(), None);
    assert_eq!(event(0, &[]).get_pitch(), None);
}

#[test]
fn header_bytes_are_compared_one_by_one() {
    assert!(is_header_correct(&[1, 2, 3, 4], &[1, 2, 3, 4]));
    assert!(!is_header_correct(&[1, 2, 3, 5], &[1, 2, 3, 4]));
    assert!(!is_header_correct(&[0, 2, 3, 4], &[1, 2, 3, 4]));
    assert!(!is_header_correct(&[1, 2, 3], &[1, 2, 3, 4]));
    assert!(!is_header_correct(&[1, 2, 3, 4, 5], &[1, 2, 3, 4]));
    assert!(!is_header_correct(&[], &[1, 2, 3, 4]));
}

#[test]
fn variable_length_array_ends_at_the_first_clear_high_bit() {
    let data = [0x81u8, 0x80, 0x00, 0x7F];
    let mut cursor = ByteCursor::new(&data);
    assert_eq!(get_variable_length_array(&mut cursor), Ok(vec![0x81, 0x80, 0x00]));
    assert_eq!(cursor.position(), 3);
    assert_eq!(get_variable_length_array(&mut cursor), Ok(vec![0x7F]));
    assert_eq!(cursor.position(), 4);
}

#[test]
fn variable_length_array_needs_its_last_byte() {
    let data = [0x81u8, 0x80];
    let mut cursor = ByteCursor::new(&data);
    assert_eq!(get_variable_length_array(&mut cursor), Err(DecodeError::UnexpectedEof));
    assert_eq!(cursor.position(), 0);
    let nothing: [u8; 0] = [];
    let mut cursor = ByteCursor::new(&nothing);
    assert_eq!(get_variable_length_array(&mut cursor), Err(DecodeError::UnexpectedEof));
}

#[test]
fn variable_length_values() {
    assert_eq!(get_variable_length_value(&[]), Ok(0));
    assert_eq!(get_variable_length_value(&[0x00]), Ok(0));
    assert_eq!(get_variable_length_value(&[0x40]), Ok(0x40));
    assert_eq!(get_variable_length_value(&[0x7F]), Ok(0x7F));
    assert_eq!(get_variable_length_value(&[0x81, 0x00]), Ok(0x80));
    assert_eq!(get_variable_length_value(&[0xC0, 0x00]), Ok(0x2000));
    assert_eq!(get_variable_length_value(&[0xFF, 0x7F]), Ok(0x3FFF));
    assert_eq!(get_variable_length_value(&[0x81, 0x80, 0x00]), Ok(0x4000));
    assert_eq!(get_variable_length_value(&[0xFF, 0xFF, 0xFF, 0x7F]), Ok(0x0FFF_FFFF));
    assert_eq!(
        get_variable_length_value(&[0xFF, 0xFF, 0xFF, 0xFF, 0xFF, 0xFF, 0xFF, 0x7F]),
        Ok(0x00FF_FFFF_FFFF_FFFF)
    );
}

#[test]
fn variable_length_value_of_more_than_8_bytes_is_refused() {
    assert_eq!(
        get_variable_length_value(&[0x80, 0x80, 0x80, 0x80, 0x80, 0x80, 0x80, 0x80, 0x01]),
        Err(DecodeError::VariableLengthTooLong { bytes_used: 9 })
    );
}

#[test]
fn relative_time_takes_4_bytes_at_most() {
    let data = [0xFFu8, 0xFF, 0xFF, 0x7F, 0x81, 0x80, 0x80, 0x80, 0x00];
    let mut cursor = ByteCursor::new(&data);
    assert_eq!(get_relative_time(&mut cursor), Ok(0x0FFF_FFFF));
    assert_eq!(cursor.position(), 4);
    assert_eq!(
        get_relative_time(&mut cursor),
        Err(DecodeError::InvalidRelativeTime { encoded_on: 5 })
    );
    assert_eq!(cursor.position(), 4);
}

#[test]
fn channel_events_take_one_or_two_data_bytes() {
    let data = [0x00u8, 0x90, 60, 64, 0x10, 0xC3, 7, 0x20, 0xD1, 9, 0x00, 0xE0, 1, 2];
    let mut cursor = ByteCursor::new(&data);
    assert_eq!(get_event(&mut cursor, 0), Ok(event(0, &[0x90, 60, 64])));
    assert_eq!(get_event(&mut cursor, 0x90), Ok(event(0x10, &[0xC3, 7])));
    assert_eq!(get_event(&mut cursor, 0xC3), Ok(event(0x20, &[0xD1, 9])));
    assert_eq!(get_event(&mut cursor, 0xD1), Ok(event(0, &[0xE0, 1, 2])));
    assert_eq!(cursor.remaining(), 0);
}

#[test]
fn running_status_reuses_the_last_status() {
    let data = [0x05u8, 61, 0];
    let mut cursor = ByteCursor::new(&data);
    assert_eq!(get_event(&mut cursor, 0x90), Ok(event(5, &[0x90, 61, 0])));
    assert_eq!(cursor.position(), 3);
    let mut cursor = ByteCursor::new(&data);
    assert_eq!(get_event(&mut cursor, 0xC0), Ok(event(5, &[0xC0, 61])));
    assert_eq!(cursor.position(), 2);
}

#[test]
fn running_status_without_a_status_is_an_unknown_event() {
    let data = [0x00u8, 60, 64];
    let mut cursor = ByteCursor::new(&data);
    assert_eq!(get_event(&mut cursor, 0), Err(DecodeError::UnknownEvent { status: 0 }));
    assert_eq!(cursor.position(), 0);
}

#[test]
fn meta_events_keep_type_length_and_payload() {
    let data = [0x00u8, 0xFF, 0x51, 0x03, 0x07, 0xA1, 0x20, 0x99];
    let mut cursor = ByteCursor::new(&data);
    assert_eq!(
        get_event(&mut cursor, 0),
        Ok(event(0, &[0xFF, 0x51, 0x03, 0x07, 0xA1, 0x20]))
    );
    assert_eq!(cursor.position(), 7);
}

#[test]
fn sysex_events_keep_length_and_payload() {
    let data = [0x02u8, 0xF0, 0x02, 0x7E, 0xF7, 0x00, 0xF7, 0x81, 0x00];
    let mut cursor = ByteCursor::new(&data);
    assert_eq!(get_event(&mut cursor, 0), Ok(event(2, &[0xF0, 0x02, 0x7E, 0xF7])));
    assert_eq!(cursor.position(), 5);
    // a payload of 128 bytes is announced, none is there
    assert_eq!(get_event(&mut cursor, 0xF0), Err(DecodeError::UnexpectedEof));
    assert_eq!(cursor.position(), 5);
}

#[test]
fn other_system_statuses_are_unknown_events() {
    for status in [0xF1u8, 0xF2, 0xF3, 0xF6, 0xF8, 0xFE] {
        let data = [0x00u8, status, 0, 0];
        let mut cursor = ByteCursor::new(&data);
        assert_eq!(get_event(&mut cursor, 0x90), Err(DecodeError::UnknownEvent { status }));
    }
}

#[test]
fn truncated_events_are_refused() {
    for data in [
        &[][..],
        &[0x00],
        &[0x00, 0x90],
        &[0x00, 0x90, 60],
        &[0x00, 0xFF],
        &[0x00, 0xFF, 0x2F],
        &[0x00, 0xFF, 0x51, 0x03, 1, 2],
        &[0x00, 0xF0],
        &[0x00, 0xC0],
    ] {
        let mut cursor = ByteCursor::new(data);
        assert_eq!(get_event(&mut cursor, 0), Err(DecodeError::UnexpectedEof));
        assert_eq!(cursor.position(), 0);
    }
}

#[test]
fn length_of_a_payload_takes_8_bytes_at_most() {
    let data = [0x00u8, 0xF0, 0x80, 0x80, 0x80, 0x80, 0x80, 0x80, 0x80, 0x80, 0x00];
    let mut cursor = ByteCursor::new(&data);
    assert_eq!(
        get_event(&mut cursor, 0),
        Err(DecodeError::VariableLengthTooLong { bytes_used: 9 })
    );
}

#[test]
fn track_times_add_up() {
    let mut events = vec![0x0A, 0x90, 60, 64, 0x81, 0x00, 60, 0];
    events.extend_from_slice(&[0x05, 0xFF, 0x2F, 0x00]);
    let bytes = track(&events);
    let mut cursor = ByteCursor::new(&bytes);
    let mut res = vec![event(1, &[0x80, 1, 1])];
    assert_eq!(get_track_events(&mut res, &mut cursor, false), Ok(()));
    assert_eq!(
        res,
        vec![
            event(1, &[0x80, 1, 1]),
            event(10, &[0x90, 60, 64]),
            event(138, &[0x90, 60, 0]),
            event(143, &[0xFF, 0x2F, 0x00]),
        ]
    );
    assert_eq!(cursor.remaining(), 0);
}

#[test]
fn track_needs_its_magic_number() {
    let mut bytes = track(&END_OF_TRACK);
    bytes[3] = b'x';
    let mut cursor = ByteCursor::new(&bytes);
    let mut res = Vec::new();
    assert_eq!(get_track_events(&mut res, &mut cursor, false), Err(DecodeError::BadTrackMagic));
    assert_eq!(cursor.position(), 0);
    assert!(res.is_empty());
}

#[test]
fn track_length_must_match() {
    let mut events = vec![0x00, 0x90, 60, 64];
    events.extend_from_slice(&END_OF_TRACK);
    let mut bytes = track(&events);
    bytes[7] = 9;
    let mut cursor = ByteCursor::new(&bytes);
    let mut res = vec![event(7, &[0x90, 1, 1])];
    assert_eq!(
        get_track_events(&mut res, &mut cursor, false),
        Err(DecodeError::TrackLengthMismatch { declared: 9, consumed: 8 })
    );
    assert_eq!(cursor.position(), 0);
    assert_eq!(res, vec![event(7, &[0x90, 1, 1])]);

    bytes[7] = 7;
    let mut cursor = ByteCursor::new(&bytes);
    assert_eq!(
        get_track_events(&mut res, &mut cursor, false),
        Err(DecodeError::TrackLengthMismatch { declared: 7, consumed: 8 })
    );
}

#[test]
fn track_stops_at_end_of_track() {
    let mut events = END_OF_TRACK.to_vec();
    events.extend_from_slice(&[0x00, 0x90, 60, 64]);
    let bytes = track(&events);
    let mut cursor = ByteCursor::new(&bytes);
    let mut res = Vec::new();
    assert_eq!(
        get_track_events(&mut res, &mut cursor, false),
        Err(DecodeError::TrackLengthMismatch { declared: 8, consumed: 4 })
    );
}

#[test]
fn track_without_end_is_truncated() {
    let bytes = track(&[0x00, 0x90, 60, 64]);
    let mut cursor = ByteCursor::new(&bytes);
    let mut res = Vec::new();
    assert_eq!(get_track_events(&mut res, &mut cursor, false), Err(DecodeError::UnexpectedEof));
    let mut cursor = ByteCursor::new(&bytes[..6]);
    assert_eq!(get_track_events(&mut res, &mut cursor, false), Err(DecodeError::UnexpectedEof));
    let mut cursor = ByteCursor::new(&bytes[..2]);
    assert_eq!(get_track_events(&mut res, &mut cursor, false), Err(DecodeError::UnexpectedEof));
}

#[test]
fn tempo_event_can_be_forbidden() {
    let mut events = vec![0x00, 0xFF, 0x51, 0x03, 0x07, 0xA1, 0x20];
    events.extend_from_slice(&END_OF_TRACK);
    let bytes = track(&events);
    let mut res = Vec::new();
    let mut cursor = ByteCursor::new(&bytes);
    assert_eq!(
        get_track_events(&mut res, &mut cursor, true),
        Err(DecodeError::TempoEventForbidden)
    );
    assert!(res.is_empty());
    let mut cursor = ByteCursor::new(&bytes);
    assert_eq!(get_track_events(&mut res, &mut cursor, false), Ok(()));
    assert_eq!(res.len(), 2);
}

#[test]
fn magic_number_is_mthd() {
    let mut cursor = ByteCursor::new(b"MThd rest");
    assert_eq!(read_magic_number(&mut cursor), Ok(()));
    assert_eq!(cursor.position(), 4);
    let mut cursor = ByteCursor::new(b"MTrk rest");
    assert_eq!(read_magic_number(&mut cursor), Err(DecodeError::BadHeaderMagic));
    assert_eq!(cursor.position(), 0);
    let mut cursor = ByteCursor::new(b"MTh");
    assert_eq!(read_magic_number(&mut cursor), Err(DecodeError::UnexpectedEof));
}

#[test]
fn header_size_is_6() {
    let mut cursor = ByteCursor::new(&[0, 0, 0, 6]);
    assert_eq!(read_header_size(&mut cursor), Ok(()));
    assert_eq!(cursor.position(), 4);
    let mut cursor = ByteCursor::new(&[6, 0, 0, 0]);
    assert_eq!(
        read_header_size(&mut cursor),
        Err(DecodeError::InvalidHeaderSize { size: 0x0600_0000 })
    );
    assert_eq!(cursor.position(), 0);
    let mut cursor = ByteCursor::new(&[0, 0, 6]);
    assert_eq!(read_header_size(&mut cursor), Err(DecodeError::UnexpectedEof));
}

#[test]
fn midi_types() {
    let mut cursor = ByteCursor::new(&[0, 0, 0, 1, 0, 2, 0, 3, 1, 0, 0]);
    assert_eq!(read_midi_type(&mut cursor), Ok(MidiType::SingleTrack));
    assert_eq!(read_midi_type(&mut cursor), Ok(MidiType::MultipleTrack));
    assert_eq!(read_midi_type(&mut cursor), Ok(MidiType::MultipleSong));
    assert_eq!(read_midi_type(&mut cursor), Err(DecodeError::InvalidMidiType { midi_type: 3 }));
    assert_eq!(cursor.position(), 6);
    assert_eq!(cursor.seek_relative(2), Ok(()));
    assert_eq!(read_midi_type(&mut cursor), Err(DecodeError::InvalidMidiType { midi_type: 256 }));
    assert_eq!(cursor.seek_relative(2), Ok(()));
    assert_eq!(read_midi_type(&mut cursor), Err(DecodeError::UnexpectedEof));
}

#[test]
fn number_of_tracks_is_big_endian() {
    let mut cursor = ByteCursor::new(&[0x01, 0x02, 0x00]);
    assert_eq!(read_nb_tracks(&mut cursor), Ok(0x0102));
    assert_eq!(read_nb_tracks(&mut cursor), Err(DecodeError::UnexpectedEof));
    assert_eq!(cursor.position(), 2);
}

#[test]
fn metrical_division() {
    let mut cursor = ByteCursor::new(&[0x00, 0x60, 0x7F, 0xFF, 0x01, 0xE0, 0x00, 0x00]);
    assert_eq!(get_tickdiv(&mut cursor), Ok((96, TempoStyle::MetricalTiming)));
    assert_eq!(get_tickdiv(&mut cursor), Ok((0x7FFF, TempoStyle::MetricalTiming)));
    assert_eq!(get_tickdiv(&mut cursor), Ok((480, TempoStyle::MetricalTiming)));
    assert_eq!(get_tickdiv(&mut cursor), Ok((0, TempoStyle::MetricalTiming)));
}

#[test]
fn timecode_division() {
    let mut cursor = ByteCursor::new(&[0xE8, 4, 0xE7, 40, 0xE3, 100, 0xE2, 255, 0xE2, 0]);
    assert_eq!(get_tickdiv(&mut cursor), Ok((96, TempoStyle::Timecode)));
    assert_eq!(get_tickdiv(&mut cursor), Ok((1000, TempoStyle::Timecode)));
    assert_eq!(get_tickdiv(&mut cursor), Ok((2900, TempoStyle::Timecode)));
    assert_eq!(get_tickdiv(&mut cursor), Ok((7650, TempoStyle::Timecode)));
    assert_eq!(get_tickdiv(&mut cursor), Ok((0, TempoStyle::Timecode)));
}

#[test]
fn timecode_division_needs_a_known_frame_rate() {
    for first in [0x80u8, 0xE1, 0xE4, 0xE6, 0xE9, 0xFF] {
        let data = [first, 4];
        let mut cursor = ByteCursor::new(&data);
        assert_eq!(
            get_tickdiv(&mut cursor),
            Err(DecodeError::InvalidFrameRate { first_byte: first })
        );
        assert_eq!(cursor.position(), 0);
    }
    let mut cursor = ByteCursor::new(&[0x00]);
    assert_eq!(get_tickdiv(&mut cursor), Err(DecodeError::UnexpectedEof));
}

#[test]
fn header_is_read_whole() {
    let bytes = header(1, 3, [0x01, 0xE0]);
    let mut cursor = ByteCursor::new(&bytes);
    assert_eq!(
        read_header(&mut cursor),
        Ok(MidiHeader {
            midi_type: MidiType::MultipleTrack,
            nb_tracks: 3,
            tickdiv: 480,
            tempo_style: TempoStyle::MetricalTiming,
        })
    );
    assert_eq!(cursor.position(), 14);
    let mut later = vec![0xAA];
    later.extend_from_slice(&header(0, 1, [0xE7, 40]));
    let mut cursor = ByteCursor::new(&later);
    assert_eq!(cursor.read_one_byte(), Ok(0xAA));
    assert_eq!(
        read_header(&mut cursor),
        Ok(MidiHeader {
            midi_type: MidiType::SingleTrack,
            nb_tracks: 1,
            tickdiv: 1000,
            tempo_style: TempoStyle::Timecode,
        })
    );
    assert_eq!(cursor.position(), 15);
}

#[test]
fn header_size_other_than_6_is_refused() {
    let mut bytes = file(0, [0, 96], &[&END_OF_TRACK]);
    bytes[7] = 7;
    assert_eq!(get_midi_events(&bytes), Err(DecodeError::InvalidHeaderSize { size: 7 }));
    bytes[7] = 5;
    assert_eq!(get_midi_events(&bytes), Err(DecodeError::InvalidHeaderSize { size: 5 }));
    bytes[7] = 6;
    bytes[4] = 1;
    assert_eq!(get_midi_events(&bytes), Err(DecodeError::InvalidHeaderSize { size: 0x0100_0006 }));
}

#[test]
fn wrong_magic_number_is_refused() {
    let mut bytes = file(0, [0, 96], &[&END_OF_TRACK]);
    bytes[0] = b'R';
    assert_eq!(get_midi_events(&bytes), Err(DecodeError::BadHeaderMagic));
}

#[test]
fn multiple_song_files_are_refused() {
    let bytes = file(2, [0, 96], &[&END_OF_TRACK]);
    assert_eq!(get_midi_events(&bytes), Err(DecodeError::UnsupportedMultipleSong));
}

#[test]
fn unknown_midi_type_is_refused() {
    let bytes = file(3, [0, 96], &[&END_OF_TRACK]);
    assert_eq!(get_midi_events(&bytes), Err(DecodeError::InvalidMidiType { midi_type: 3 }));
}

#[test]
fn single_track_file_has_one_track() {
    let bytes = file(0, [0, 96], &[&END_OF_TRACK, &END_OF_TRACK]);
    assert_eq!(get_midi_events(&bytes), Err(DecodeError::SingleTrackCount { nb_tracks: 2 }));
    let bytes = file(0, [0, 96], &[]);
    assert_eq!(get_midi_events(&bytes), Err(DecodeError::SingleTrackCount { nb_tracks: 0 }));
}

#[test]
fn zero_division_is_refused() {
    let bytes = file(0, [0, 0], &[&END_OF_TRACK]);
    assert_eq!(get_midi_events(&bytes), Err(DecodeError::ZeroTickdiv));
    let bytes = file(0, [0xE8, 0], &[&END_OF_TRACK]);
    assert_eq!(get_midi_events(&bytes), Err(DecodeError::ZeroTickdiv));
}

#[test]
fn invalid_frame_rate_is_refused() {
    let bytes = file(0, [0xF0, 4], &[&END_OF_TRACK]);
    assert_eq!(get_midi_events(&bytes), Err(DecodeError::InvalidFrameRate { first_byte: 0xF0 }));
}

#[test]
fn truncated_files_are_refused() {
    let bytes = file(0, [0, 96], &[&END_OF_TRACK]);
    for len in 0..bytes.len() {
        assert_eq!(get_midi_events(&bytes[..len]), Err(DecodeError::UnexpectedEof));
    }
    assert_eq!(get_midi_events(&bytes), Ok(vec![]));
}

#[test]
fn trailing_bytes_are_refused() {
    let mut bytes = file(0, [0, 96], &[&END_OF_TRACK]);
    bytes.push(0);
    assert_eq!(get_midi_events(&bytes), Err(DecodeError::TrailingBytes));
}

#[test]
fn track_length_mismatch_is_refused() {
    let mut bytes = file(0, [0, 96], &[&END_OF_TRACK]);
    bytes[21] = 5;
    bytes.push(0);
    assert_eq!(
        get_midi_events(&bytes),
        Err(DecodeError::TrackLengthMismatch { declared: 5, consumed: 4 })
    );
}

#[test]
fn tempo_event_after_the_first_track_is_refused() {
    let tempo_track = [0x00, 0xFF, 0x51, 0x03, 0x07, 0xA1, 0x20, 0x00, 0xFF, 0x2F, 0x00];
    let bytes = file(1, [0, 96], &[&END_OF_TRACK, &tempo_track]);
    assert_eq!(get_midi_events(&bytes), Err(DecodeError::TempoEventForbidden));
    let bytes = file(1, [0, 96], &[&tempo_track, &END_OF_TRACK]);
    assert_eq!(get_midi_events(&bytes), Ok(vec![]));
    let bytes = file(0, [0, 96], &[&tempo_track]);
    assert_eq!(get_midi_events(&bytes), Ok(vec![]));
}

#[test]
fn tempo_event_needs_3_bytes_of_payload() {
    let two = [0x00, 0xFF, 0x51, 0x02, 0x07, 0xA1, 0x00, 0xFF, 0x2F, 0x00];
    assert_eq!(get_midi_events(&file(0, [0, 96], &[&two])), Err(DecodeError::InvalidTempoSize));
    let four = [0x00, 0xFF, 0x51, 0x04, 0x07, 0xA1, 0x20, 0x00, 0x00, 0xFF, 0x2F, 0x00];
    assert_eq!(get_midi_events(&file(0, [0, 96], &[&four])), Err(DecodeError::InvalidTempoSize));
    let none = [0x00, 0xFF, 0x51, 0x00, 0x00, 0xFF, 0x2F, 0x00];
    assert_eq!(get_midi_events(&file(0, [0, 96], &[&none])), Err(DecodeError::InvalidTempoSize));
}

#[test]
fn tempo_size_is_not_checked_in_timecode_style() {
    let two = [0x00, 0xFF, 0x51, 0x02, 0x07, 0xA1, 0x01, 0x90, 60, 64, 0x00, 0xFF, 0x2F, 0x00];
    assert_eq!(
        get_midi_events(&file(0, [0xE7, 40], &[&two])),
        Ok(vec![event(1_000_000_000, &[0x90, 60, 64])])
    );
}

#[test]
fn unknown_event_is_refused() {
    let events = [0x00, 0xF4, 0x00, 0x00, 0xFF, 0x2F, 0x00];
    assert_eq!(
        get_midi_events(&file(0, [0, 96], &[&events])),
        Err(DecodeError::UnknownEvent { status: 0xF4 })
    );
}

#[test]
fn long_delta_time_is_refused() {
    let events = [0x81, 0x80, 0x80, 0x80, 0x00, 0x90, 60, 64, 0x00, 0xFF, 0x2F, 0x00];
    assert_eq!(
        get_midi_events(&file(0, [0, 96], &[&events])),
        Err(DecodeError::InvalidRelativeTime { encoded_on: 5 })
    );
}

#[test]
fn single_track_file_end_to_end() {
    let events = [0x00, 0x90, 60, 64, 0x60, 0x90, 60, 0, 0x00, 0xFF, 0x2F, 0x00];
    let bytes = file(0, [0, 96], &[&events]);
    assert_eq!(
        get_midi_events(&bytes),
        Ok(vec![event(0, &[0x90, 60, 64]), event(500_000_000, &[0x90, 60, 0])])
    );
}

#[test]
fn parse_keeps_ticks_and_meta_events() {
    let events = [0x00, 0x90, 60, 64, 0x60, 0x90, 60, 0, 0x00, 0xFF, 0x2F, 0x00];
    let bytes = file(0, [0, 96], &[&events]);
    let (header, parsed) = parse_midi_file(&bytes).unwrap();
    assert_eq!(
        header,
        MidiHeader {
            midi_type: MidiType::SingleTrack,
            nb_tracks: 1,
            tickdiv: 96,
            tempo_style: TempoStyle::MetricalTiming,
        }
    );
    assert_eq!(
        parsed,
        vec![
            event(0, &[0x90, 60, 64]),
            event(96, &[0x90, 60, 0]),
            event(96, &[0xFF, 0x2F, 0x00]),
        ]
    );
}

#[test]
fn tracks_are_merged_by_time_in_file_order() {
    // track 1: tempo at tick 0, note on at tick 96, note off at tick 192
    let first = [
        0x00, 0xFF, 0x51, 0x03, 0x0F, 0x42, 0x40, // 1 000 000 us per quarter note
        0x60, 0x90, 60, 64, 0x60, 0x80, 60, 0, 0x00, 0xFF, 0x2F, 0x00,
    ];
    // track 2: note on at tick 96, running status note at tick 144
    let second = [0x60, 0x91, 62, 70, 0x30, 64, 70, 0x00, 0xFF, 0x2F, 0x00];
    let bytes = file(1, [0, 96], &[&first, &second]);
    assert_eq!(
        get_midi_events(&bytes),
        Ok(vec![
            event(1_000_000_000, &[0x90, 60, 64]),
            event(1_000_000_000, &[0x91, 62, 70]),
            event(1_500_000_000, &[0x91, 64, 70]),
            event(2_000_000_000, &[0x80, 60, 0]),
        ])
    );
}

#[test]
fn tempo_change_applies_from_its_tick_on() {
    let events = [
        0x60, 0x90, 60, 64, // tick 96 at the default tempo: 500 ms
        0x00, 0xFF, 0x51, 0x03, 0x03, 0xD0, 0x90, // 250 000 us per quarter note
        0x60, 0x80, 60, 0, // tick 192: 500 ms + 250 ms
        0x30, 0x90, 61, 1, // tick 240: 750 ms + 125 ms
        0x00, 0xFF, 0x2F, 0x00,
    ];
    let bytes = file(0, [0, 96], &[&events]);
    assert_eq!(
        get_midi_events(&bytes),
        Ok(vec![
            event(500_000_000, &[0x90, 60, 64]),
            event(750_000_000, &[0x80, 60, 0]),
            event(875_000_000, &[0x90, 61, 1]),
        ])
    );
}

#[test]
fn timecode_files_scale_ticks() {
    let events = [0x03, 0x90, 60, 64, 0x02, 0x80, 60, 0, 0x00, 0xFF, 0x2F, 0x00];
    let bytes = file(0, [0xE7, 40], &[&events]);
    assert_eq!(
        get_midi_events(&bytes),
        Ok(vec![event(3_000_000_000, &[0x90, 60, 64]), event(5_000_000_000, &[0x80, 60, 0])])
    );
}

#[test]
fn file_without_tracks() {
    assert_eq!(get_midi_events(&file(1, [0, 96], &[])), Ok(vec![]));
}

#[test]
fn meta_and_sysex_events_are_left_out() {
    let events = [
        0x00, 0xFF, 0x03, 0x02, b'h', b'i', // track name
        0x00, 0xF0, 0x03, 0x7E, 0x7F, 0xF7, // sysex
        0x10, 0x90, 60, 64, //
        0x00, 0xF7, 0x01, 0x00, // sysex continuation
        0x10, 0xC2, 7, //
        0x00, 0xFF, 0x2F, 0x00,
    ];
    let bytes = file(0, [0, 96], &[&events]);
    assert_eq!(
        get_midi_events(&bytes),
        Ok(vec![event(83_333_333, &[0x90, 60, 64]), event(166_666_666, &[0xC2, 7])])
    );
    let (_, parsed) = parse_midi_file(&bytes).unwrap();
    assert_eq!(parsed.len(), 6);
}

#[test]
fn events_can_be_copied() {
    let e = event(3, &[0x90, 60, 64]);
    assert_eq!(e.clone(), e);
    assert_eq!(event(0, &[]).clone(), event(0, &[]));
}
