use pianoterm::errors::GroupError;
use pianoterm::keyboard_events_extractor::{get_key_events, KeyData, KeyEvent};
use pianoterm::midi_reader::{get_midi_events, MidiEvent};
use pianoterm::utils::{
    fix_midi_order, get_next_event_size, get_variable_data_length, group_events_by_time,
    is_key_down_event, is_key_release_event, midi_to_music_events, MusicEvent, DO_1, DO_8, LA_0,
    LA_DIESE_0, SI_0,
};

fn pressed(pitch: u8, time_in_ns: u64) -> KeyEvent {
    KeyEvent { data: KeyData::Pressed(pitch), time_in_ns }
}

fn released(pitch: u8, time_in_ns: u64) -> KeyEvent {
    KeyEvent { data: KeyData::Released(pitch), time_in_ns }
}

fn raw(time: u64, data: &[u8]) -> MidiEvent {
    MidiEvent { time, data: data.to_vec() }
}

fn moment(time_in_ns: u64, messages: &[&[u8]], key_events: &[KeyData]) -> MusicEvent {
    MusicEvent {
        time_in_ns,
        midi_messages: messages.iter().map(|m| m.to_vec()).collect(),
        key_events: key_events.to_vec(),
    }
}

fn count(song: &[MusicEvent]) -> usize {
    song.iter().map(|e| e.midi_messages.len() + e.key_events.len()).sum()
}

#[test]
fn piano_range() {
    assert_eq!((LA_0, LA_DIESE_0, SI_0, DO_1, DO_8), (21, 22, 23, 24, 108));
}

#[test]
fn release_and_down_messages() {
    assert!(is_key_release_event(&[0x80, 60, 64]));
    assert!(is_key_release_event(&[0x90, 60, 0]));
    assert!(!is_key_release_event(&[0x90, 60, 0x90]));
    assert!(!is_key_release_event(&[0x80, 60]));
    assert!(is_key_down_event(&[0x93, 60, 0x90]));
    assert!(!is_key_down_event(&[0x90, 60, 0]));
    assert!(!is_key_down_event(&[0x80, 60, 1]));
    assert!(!is_key_down_event(&[]));
}

#[test]
fn variable_data_lengths() {
    assert_eq!(get_variable_data_length(&[]), 0);
    assert_eq!(get_variable_data_length(&[0x00]), 1);
    assert_eq!(get_variable_data_length(&[0x02, 1, 2, 3]), 3);
    assert_eq!(get_variable_data_length(&[0x03, 1, 2, 3]), 4);
    assert_eq!(get_variable_data_length(&[0x04, 1, 2, 3]), 4);
    assert_eq!(get_variable_data_length(&[0x81, 0x00, 1]), 3);
    assert_eq!(get_variable_data_length(&[0x80, 0x01, 1, 2]), 3);
    assert_eq!(get_variable_data_length(&[0x80, 0x80]), 2);
    assert_eq!(get_variable_data_length(&[0xFF; 20]), 20);
    let mut long = vec![0xFF; 12];
    long.push(0x7F);
    long.extend_from_slice(&[0; 7]);
    assert_eq!(get_variable_data_length(&long), 20);
}

#[test]
fn next_event_sizes() {
    assert_eq!(get_next_event_size(&[]), 0);
    assert_eq!(get_next_event_size(&[0x90]), 1);
    assert_eq!(get_next_event_size(&[0x90, 60]), 2);
    assert_eq!(get_next_event_size(&[0x90, 60, 64]), 3);
    assert_eq!(get_next_event_size(&[0x90, 60, 64, 0x80]), 3);
    assert_eq!(get_next_event_size(&[0xC0, 60, 64, 0x80]), 2);
    assert_eq!(get_next_event_size(&[0xD5, 60, 64, 0x80]), 2);
    assert_eq!(get_next_event_size(&[0xE0, 60, 64, 0x80]), 3);
    assert_eq!(get_next_event_size(&[0xFF, 0x2F, 0x00, 0x90]), 3);
    assert_eq!(get_next_event_size(&[0xFF, 0x51, 0x03, 1, 2, 3, 0x90]), 6);
    assert_eq!(get_next_event_size(&[0xFF, 0x51, 0x03, 1]), 4);
    assert_eq!(get_next_event_size(&[0xFF, 0x51]), 2);
    assert_eq!(get_next_event_size(&[0xF0, 0x02, 1, 2, 0x90]), 4);
    assert_eq!(get_next_event_size(&[0xF7, 0x00, 1]), 2);
    assert_eq!(get_next_event_size(&[0x10, 0x20, 0x30]), 3);
    assert_eq!(get_next_event_size(&[0xF8, 0x90, 60, 64]), 4);
}

#[test]
fn input_stream_to_music_event() {
    let stream = [
        0x90, 60, 64, // press
        0x80, 60, 0, // release
        0xC0, 5, // program change: left out
        0x91, 21, 0, // release by a silent note on
        0xB0, 108, 1, // not a note, but three bytes and a pitch of a piano: message only
        0x90, 20, 64, // below the piano: left out
        0x90, 109, 64, // above the piano: left out
        0x90, 108, 1,
    ];
    assert_eq!(
        midi_to_music_events(&stream),
        moment(
            0,
            &[&[0x90, 60, 64], &[0x80, 60, 0], &[0x91, 21, 0], &[0xB0, 108, 1], &[0x90, 108, 1]],
            &[
                KeyData::Pressed(60),
                KeyData::Released(60),
                KeyData::Released(21),
                KeyData::Pressed(108),
            ],
        )
    );
}

#[test]
fn input_stream_edge_cases() {
    assert_eq!(midi_to_music_events(&[]), moment(0, &[], &[]));
    assert_eq!(midi_to_music_events(&[0x90]), moment(0, &[], &[]));
    assert_eq!(midi_to_music_events(&[0x90, 60]), moment(0, &[], &[]));
    assert_eq!(midi_to_music_events(&[0xF0, 0x7F, 1, 2]), moment(0, &[], &[]));
    assert_eq!(
        midi_to_music_events(&[0xFF, 60, 0x00, 0x90, 60, 1]),
        moment(0, &[&[0xFF, 60, 0x00], &[0x90, 60, 1]], &[KeyData::Pressed(60)])
    );
    assert_eq!(
        midi_to_music_events(&[0xF0, 0x01, 9, 0x80, 60, 1, 0x90]),
        moment(0, &[&[0x80, 60, 1]], &[KeyData::Released(60)])
    );
}

#[test]
fn release_changes_places_with_the_press_behind_it() {
    let mut song = vec![moment(
        0,
        &[&[0x80, 60, 0], &[0x80, 61, 0], &[0x90, 60, 64]],
        &[KeyData::Pressed(1)],
    )];
    fix_midi_order(&mut song);
    assert_eq!(
        song,
        vec![moment(
            0,
            &[&[0x90, 60, 64], &[0x80, 61, 0], &[0x80, 60, 0]],
            &[KeyData::Pressed(1)],
        )]
    );
}

#[test]
fn only_the_first_press_behind_changes_places() {
    let mut song = vec![moment(
        5,
        &[&[0x90, 60, 0], &[0xB0, 1, 2], &[0x91, 60, 9], &[0x90, 60, 8]],
        &[],
    )];
    fix_midi_order(&mut song);
    assert_eq!(
        song,
        vec![moment(5, &[&[0x91, 60, 9], &[0xB0, 1, 2], &[0x90, 60, 0], &[0x90, 60, 8]], &[])]
    );
}

#[test]
fn places_are_decided_on_the_order_given() {
    // both releases look for the press at the end, one after the other
    let mut song = vec![moment(0, &[&[0x80, 60, 0], &[0x80, 60, 1], &[0x90, 60, 64]], &[])];
    fix_midi_order(&mut song);
    assert_eq!(
        song,
        vec![moment(0, &[&[0x90, 60, 64], &[0x80, 60, 0], &[0x80, 60, 1]], &[])]
    );
}

#[test]
fn order_without_release_before_press_stays() {
    let given = vec![
        moment(0, &[&[0x90, 60, 64], &[0x80, 60, 0], &[0x80, 61, 0], &[0x90, 62, 1]], &[]),
        moment(1, &[], &[KeyData::Released(60), KeyData::Pressed(60)]),
        moment(2, &[&[0x80, 60, 0]], &[]),
    ];
    let mut song = given.clone();
    fix_midi_order(&mut song);
    assert_eq!(song, given);
}

#[test]
fn every_moment_is_fixed() {
    let mut song = vec![
        moment(0, &[&[0x80, 60, 0], &[0x90, 60, 64]], &[]),
        moment(1, &[&[0x80, 61, 0], &[0x90, 61, 64]], &[]),
    ];
    fix_midi_order(&mut song);
    assert_eq!(
        song,
        vec![
            moment(0, &[&[0x90, 60, 64], &[0x80, 60, 0]], &[]),
            moment(1, &[&[0x90, 61, 64], &[0x80, 61, 0]], &[]),
        ]
    );
}

#[test]
fn grouping_nothing() {
    let song = group_events_by_time(&vec![], &vec![]).unwrap();
    assert!(song.is_empty());
    assert_eq!(count(&song), 0);
}

#[test]
fn grouping_one_event() {
    let song = group_events_by_time(&vec![raw(7, &[0xB0, 1, 2])], &vec![]).unwrap();
    assert_eq!(song, vec![moment(7, &[&[0xB0, 1, 2]], &[])]);
    assert_eq!(count(&song), 1);
}

#[test]
fn grouping_fifty_events() {
    let mut midi = Vec::new();
    let mut keys = Vec::new();
    for i in 0..15u64 {
        midi.push(raw(10 * i, &[0x90, 60, 64]));
        keys.push(pressed(60, 10 * i));
        midi.push(raw(10 * i + 5, &[0x80, 60, 0]));
        keys.push(released(60, 10 * i + 3));
    }
    midi.truncate(20);
    assert_eq!(midi.len() + keys.len(), 50);
    let song = group_events_by_time(&midi, &keys).unwrap();
    assert_eq!(count(&song), 50);
    assert_eq!(song.len(), 40);
    for pair in song.windows(2) {
        assert!(pair[0].time_in_ns < pair[1].time_in_ns);
    }
    for event in &song {
        assert!(!event.midi_messages.is_empty() || !event.key_events.is_empty());
    }
}

#[test]
fn grouping_ten_events_of_one_time() {
    let mut midi = Vec::new();
    let mut keys = Vec::new();
    for i in 0..5u8 {
        midi.push(raw(42, &[0x90, 60 + i, 64]));
        keys.push(if i % 2 == 0 { pressed(60 + 2 * i, 42) } else { released(61 + 2 * i, 42) });
    }
    keys[4] = released(99, 42);
    keys.push(pressed(98, 42));
    midi.pop();
    let song = group_events_by_time(&midi, &keys).unwrap();
    assert_eq!(song.len(), 1);
    assert_eq!(count(&song), 10);
    assert_eq!(song[0].time_in_ns, 42);
    assert_eq!(
        song[0].midi_messages,
        vec![vec![0x90, 60, 64], vec![0x90, 61, 64], vec![0x90, 62, 64], vec![0x90, 63, 64]]
    );
    assert_eq!(
        song[0].key_events,
        vec![
            KeyData::Pressed(60),
            KeyData::Released(63),
            KeyData::Pressed(64),
            KeyData::Released(67),
            KeyData::Released(99),
            KeyData::Pressed(98),
        ]
    );
}

#[test]
fn groups_come_in_order_of_time_whatever_the_order_given() {
    let midi = vec![raw(30, &[1]), raw(10, &[2]), raw(30, &[3]), raw(20, &[4])];
    let keys = vec![pressed(1, 20), released(1, 5), pressed(2, 30), released(3, 30)];
    let song = group_events_by_time(&midi, &keys).unwrap();
    assert_eq!(
        song,
        vec![
            moment(5, &[], &[KeyData::Released(1)]),
            moment(10, &[&[2]], &[]),
            moment(20, &[&[4]], &[KeyData::Pressed(1)]),
            moment(30, &[&[1], &[3]], &[KeyData::Pressed(2), KeyData::Released(3)]),
        ]
    );
}

#[test]
fn grouping_fixes_the_order_of_messages() {
    let midi = vec![
        raw(0, &[0x90, 60, 64]),
        raw(9, &[0x80, 60, 0]),
        raw(9, &[0x80, 61, 0]),
        raw(9, &[0x90, 60, 64]),
    ];
    let keys = vec![pressed(60, 0), released(60, 7), pressed(60, 9), released(60, 20)];
    let song = group_events_by_time(&midi, &keys).unwrap();
    assert_eq!(
        song,
        vec![
            moment(0, &[&[0x90, 60, 64]], &[KeyData::Pressed(60)]),
            moment(7, &[], &[KeyData::Released(60)]),
            moment(
                9,
                &[&[0x90, 60, 64], &[0x80, 61, 0], &[0x80, 60, 0]],
                &[KeyData::Pressed(60)]
            ),
            moment(20, &[], &[KeyData::Released(60)]),
        ]
    );
}

#[test]
fn presses_and_releases_must_match() {
    assert_eq!(
        group_events_by_time(&vec![], &vec![pressed(60, 0)]),
        Err(GroupError::PressReleaseMismatch)
    );
    assert_eq!(
        group_events_by_time(&vec![], &vec![pressed(60, 0), released(60, 1), released(60, 2)]),
        Err(GroupError::PressReleaseMismatch)
    );
    // the pitches need not match
    assert!(group_events_by_time(&vec![], &vec![pressed(60, 0), released(61, 1)]).is_ok());
}

#[test]
fn press_and_release_of_one_key_at_one_time_is_refused() {
    let keys = vec![pressed(60, 0), released(60, 5), pressed(60, 5), released(60, 9)];
    assert_eq!(group_events_by_time(&vec![], &keys), Err(GroupError::SimultaneousPressRelease));
    let keys = vec![pressed(60, 5), released(60, 5)];
    assert_eq!(group_events_by_time(&vec![], &keys), Err(GroupError::SimultaneousPressRelease));
    let keys = vec![pressed(60, 5), released(61, 5)];
    assert!(group_events_by_time(&vec![], &keys).is_ok());
}

#[test]
fn mismatch_is_reported_before_a_simultaneous_pair() {
    let keys = vec![pressed(60, 5), released(60, 5), pressed(61, 6)];
    assert_eq!(group_events_by_time(&vec![], &keys), Err(GroupError::PressReleaseMismatch));
}

#[test]
fn file_to_song() {
    let bytes = [
        0x4D, 0x54, 0x68, 0x64, 0, 0, 0, 6, 0, 0, 0, 1, 0, 96, // header
        0x4D, 0x54, 0x72, 0x6B, 0, 0, 0, 12, // track
        0x00, 0x90, 60, 64, 0x60, 0x90, 60, 0, 0x00, 0xFF, 0x2F, 0x00,
    ];
    let midi_events = get_midi_events(&bytes).unwrap();
    let keyboard_events = get_key_events(midi_events.clone()).unwrap();
    let song = group_events_by_time(&midi_events, &keyboard_events).unwrap();
    assert_eq!(
        song,
        vec![
            moment(0, &[&[0x90, 60, 64]], &[KeyData::Pressed(60)]),
            moment(500_000_000, &[&[0x90, 60, 0]], &[KeyData::Released(60)]),
        ]
    );
}

#[test]
fn file_with_a_repeated_note_to_song() {
    // tickdiv 1000: a tick lasts 500 us
    let events = [
        0x00, 0x90, 60, 64, // press at 0
        0x83, 0x10, 0x80, 60, 0, // release at tick 400: 200 ms
        0x00, 0x90, 60, 64, // and press again
        0x83, 0x10, 0x80, 60, 0, // release at 400 ms
        0x00, 0xFF, 0x2F, 0x00,
    ];
    let mut bytes =
        vec![0x4D, 0x54, 0x68, 0x64, 0, 0, 0, 6, 0, 0, 0, 1, 0x03, 0xE8, 0x4D, 0x54, 0x72, 0x6B];
    bytes.extend_from_slice(&(events.len() as u32).to_be_bytes());
    bytes.extend_from_slice(&events);
    let midi_events = get_midi_events(&bytes).unwrap();
    let keyboard_events = get_key_events(midi_events.clone()).unwrap();
    assert_eq!(
        keyboard_events,
        vec![
            pressed(60, 0),
            released(60, 150_000_000),
            pressed(60, 200_000_000),
            released(60, 400_000_000),
        ]
    );
    let song = group_events_by_time(&midi_events, &keyboard_events).unwrap();
    assert_eq!(
        song,
        vec![
            moment(0, &[&[0x90, 60, 64]], &[KeyData::Pressed(60)]),
            moment(150_000_000, &[], &[KeyData::Released(60)]),
            moment(
                200_000_000,
                &[&[0x90, 60, 64], &[0x80, 60, 0]],
                &[KeyData::Pressed(60)]
            ),
            moment(400_000_000, &[&[0x80, 60, 0]], &[KeyData::Released(60)]),
        ]
    );
}
