use pianoterm::keyboard_events_extractor::KeyData;
use pianoterm::music_player::{
    apply_requests, draw_keyboard, draw_octave, init_ref_pos, next_pace, on_input_ui_event,
    on_ui_event, request_of_signal, split_seconds, time_to_wait, update_keyboard, KeyColor,
    KeysColor, OctaveColor, Pace, PlayerState, Request, Shape, Signal, UiEvent, KEYBOARD_HEIGHT,
    KEYBOARD_WIDTH, POLL_PERIOD_NS,
};
use pianoterm::utils::MusicEvent;

const STATE: PlayerState =
    PlayerState { exit_requested: false, is_in_pause: false, ref_x: 3, ref_y: 4 };

fn color_of(keyboard: &KeysColor, pitch: u8) -> KeyColor {
    match pitch {
        21 => keyboard.la_0_color,
        22 => keyboard.la_diese_0_color,
        23 => keyboard.si_0_color,
        108 => keyboard.do_8_color,
        p => {
            let o = &keyboard.octaves[((p - 24) / 12) as usize];
            [
                o.do_color,
                o.do_diese_color,
                o.re_color,
                o.re_diese_color,
                o.mi_color,
                o.fa_color,
                o.fa_diese_color,
                o.sol_color,
                o.sol_diese_color,
                o.la_color,
                o.la_diese_color,
                o.si_color,
            ][((p - 24) % 12) as usize]
        }
    }
}

fn is_black(pitch: u8) -> bool {
    [1, 3, 6, 8, 10].contains(&(pitch % 12))
}

#[test]
fn new_keyboard_is_at_rest() {
    let keyboard = KeysColor::new();
    let mut blacks = 0;
    for pitch in 21..=108u8 {
        let expected = if is_black(pitch) { KeyColor::Black } else { KeyColor::White };
        assert_eq!(color_of(&keyboard, pitch), expected);
        if is_black(pitch) {
            blacks += 1;
        }
    }
    assert_eq!(blacks, 36);
    assert_eq!(keyboard.octaves[0], OctaveColor::new());
    assert_eq!(OctaveColor::new().fa_diese_color, KeyColor::Black);
    assert_eq!(OctaveColor::new().mi_color, KeyColor::White);
}

#[test]
fn set_color_changes_one_key() {
    for pitch in 21..=108u8 {
        let mut keyboard = KeysColor::new();
        keyboard.set_color(pitch);
        for other in 21..=108u8 {
            let expected = match (other == pitch, is_black(other)) {
                (true, true) => KeyColor::Cyan,
                (true, false) => KeyColor::Blue,
                (false, true) => KeyColor::Black,
                (false, false) => KeyColor::White,
            };
            assert_eq!(color_of(&keyboard, other), expected);
        }
        keyboard.reset_color(pitch);
        assert_eq!(keyboard, KeysColor::new());
    }
}

#[test]
fn middle_c_is_the_first_key_of_the_fourth_octave() {
    let mut keyboard = KeysColor::new();
    keyboard.set_color(60);
    assert_eq!(keyboard.octaves[3].do_color, KeyColor::Blue);
    keyboard.set_color(61);
    assert_eq!(keyboard.octaves[3].do_diese_color, KeyColor::Cyan);
    keyboard.set_color(107);
    assert_eq!(keyboard.octaves[6].si_color, KeyColor::Blue);
    keyboard.set_color(24);
    assert_eq!(keyboard.octaves[0].do_color, KeyColor::Blue);
    keyboard.set_color(22);
    assert_eq!(keyboard.la_diese_0_color, KeyColor::Cyan);
    keyboard.set_color(108);
    assert_eq!(keyboard.do_8_color, KeyColor::Blue);
}

#[test]
fn keyboard_follows_the_last_event_of_each_key() {
    let mut keyboard = KeysColor::new();
    keyboard.set_color(70);
    update_keyboard(
        &mut keyboard,
        &[
            KeyData::Pressed(60),
            KeyData::Pressed(61),
            KeyData::Released(60),
            KeyData::Released(62),
            KeyData::Released(63),
            KeyData::Pressed(63),
        ],
    );
    assert_eq!(color_of(&keyboard, 60), KeyColor::White);
    assert_eq!(color_of(&keyboard, 61), KeyColor::Cyan);
    assert_eq!(color_of(&keyboard, 62), KeyColor::White);
    assert_eq!(color_of(&keyboard, 63), KeyColor::Cyan);
    assert_eq!(color_of(&keyboard, 70), KeyColor::Cyan);
    assert_eq!(color_of(&keyboard, 64), KeyColor::White);
    let before = keyboard;
    update_keyboard(&mut keyboard, &[]);
    assert_eq!(keyboard, before);
}

#[test]
fn keyboard_is_centred() {
    assert_eq!((KEYBOARD_WIDTH, KEYBOARD_HEIGHT), (188, 8));
    assert_eq!(init_ref_pos(200, 50), (6, 21));
    assert_eq!(init_ref_pos(189, 9), (0, 0));
    assert_eq!(init_ref_pos(190, 10), (1, 1));
    assert_eq!(init_ref_pos(188, 8), (0, 0));
    assert_eq!(init_ref_pos(0, 0), (0, 0));
    assert_eq!(init_ref_pos(80, 24), (0, 8));
    assert_eq!(init_ref_pos(usize::MAX, usize::MAX), ((usize::MAX - 188) / 2, (usize::MAX - 8) / 2));
}

fn within(shape: &Shape, left: usize, top: usize, width: usize, height: usize) -> bool {
    match *shape {
        Shape::Key { x, y, width: w, height: h, .. } => {
            left <= x && x + w <= left + width && top <= y && y + h <= top + height
        }
        Shape::Line { x, y, height: h, .. } => {
            left <= x && x < left + width && top <= y && y + h <= top + height
        }
    }
}

#[test]
fn octave_shapes() {
    let mut colors = OctaveColor::new();
    colors.re_color = KeyColor::Blue;
    colors.fa_diese_color = KeyColor::Cyan;
    let shapes = draw_octave(10, 20, &colors);
    assert_eq!(shapes.len(), 18);
    assert_eq!(
        shapes[0],
        Shape::Key { x: 10, y: 20, width: 3, height: 8, color: KeyColor::White }
    );
    assert_eq!(
        shapes[1],
        Shape::Key { x: 13, y: 20, width: 4, height: 8, color: KeyColor::Blue }
    );
    assert_eq!(
        shapes[6],
        Shape::Key { x: 31, y: 20, width: 4, height: 8, color: KeyColor::White }
    );
    assert_eq!(
        shapes[7],
        Shape::Key { x: 12, y: 20, width: 2, height: 5, color: KeyColor::Black }
    );
    assert_eq!(shapes[10], Shape::Line { x: 16, y: 25, height: 3, background: KeyColor::Blue });
    assert_eq!(
        shapes[11],
        Shape::Key { x: 23, y: 20, width: 2, height: 5, color: KeyColor::Cyan }
    );
    assert_eq!(shapes[17], Shape::Line { x: 20, y: 20, height: 8, background: KeyColor::White });
    for shape in &shapes {
        assert!(within(shape, 10, 20, 25, 8));
    }
}

#[test]
fn keyboard_shapes() {
    let mut keyboard = KeysColor::new();
    keyboard.set_color(21);
    keyboard.set_color(108);
    keyboard.set_color(35);
    let shapes = draw_keyboard(&keyboard, 5, 7);
    assert_eq!(shapes.len(), 4 + 7 * 18 + 1 + 7 + 1);
    assert_eq!(shapes[0], Shape::Key { x: 6, y: 7, width: 3, height: 8, color: KeyColor::Blue });
    assert_eq!(shapes[1], Shape::Key { x: 9, y: 7, width: 4, height: 8, color: KeyColor::White });
    assert_eq!(shapes[2], Shape::Key { x: 9, y: 7, width: 2, height: 5, color: KeyColor::Black });
    assert_eq!(shapes[3], Shape::Line { x: 9, y: 12, height: 3, background: KeyColor::Blue });
    assert_eq!(&shapes[4..22], &draw_octave(13, 7, &keyboard.octaves[0])[..]);
    assert_eq!(&shapes[112..130], &draw_octave(163, 7, &keyboard.octaves[6])[..]);
    assert_eq!(
        shapes[130],
        Shape::Key { x: 188, y: 7, width: 4, height: 8, color: KeyColor::Blue }
    );
    // the first octave ends on a si that is held down
    assert_eq!(shapes[131], Shape::Line { x: 38, y: 7, height: 8, background: KeyColor::Blue });
    assert_eq!(shapes[137], Shape::Line { x: 188, y: 7, height: 8, background: KeyColor::White });
    assert_eq!(shapes[138], Shape::Line { x: 13, y: 7, height: 8, background: KeyColor::White });
    for shape in &shapes {
        assert!(within(shape, 5, 7, 188, 8));
    }
}

#[test]
fn keyboard_can_be_drawn_where_it_is_placed() {
    let (x, y) = init_ref_pos(usize::MAX, usize::MAX);
    let shapes = draw_keyboard(&KeysColor::new(), x, y);
    assert_eq!(shapes.len(), 139);
}

#[test]
fn signals_and_requests() {
    assert_eq!(request_of_signal(Signal::Interrupt), Some(Request::Pause));
    assert_eq!(request_of_signal(Signal::Continue), Some(Request::Continue));
    assert_eq!(request_of_signal(Signal::Quit), Some(Request::Exit));
    assert_eq!(request_of_signal(Signal::Stop), Some(Request::Exit));
    assert_eq!(request_of_signal(Signal::Terminate), Some(Request::Exit));
    assert_eq!(request_of_signal(Signal::Other), None);
}

#[test]
fn requests_change_the_state() {
    assert_eq!(apply_requests(STATE, false, false, false), STATE);
    assert_eq!(
        apply_requests(STATE, true, false, false),
        PlayerState { exit_requested: true, ..STATE }
    );
    assert_eq!(
        apply_requests(STATE, false, true, false),
        PlayerState { is_in_pause: true, ..STATE }
    );
    assert_eq!(apply_requests(STATE, false, true, true), STATE);
    let paused = PlayerState { is_in_pause: true, exit_requested: true, ..STATE };
    assert_eq!(apply_requests(paused, false, false, false), paused);
    assert_eq!(
        apply_requests(paused, false, false, true),
        PlayerState { is_in_pause: false, ..paused }
    );
}

#[test]
fn pace_of_a_song() {
    assert_eq!(POLL_PERIOD_NS, 100_000_000);
    let exiting = PlayerState { exit_requested: true, ..STATE };
    let paused = PlayerState { is_in_pause: true, ..STATE };
    assert_eq!(next_pace(exiting, 10, 0), Pace::Exit);
    assert_eq!(next_pace(exiting, 10, 11), Pace::Exit);
    assert_eq!(next_pace(STATE, 10, 11), Pace::NextEvent);
    assert_eq!(next_pace(STATE, 10, 10), Pace::Poll { timeout_ns: 100_000_000 });
    assert_eq!(next_pace(STATE, 10, 9), Pace::Poll { timeout_ns: 1 });
    assert_eq!(next_pace(STATE, 10, 0), Pace::Poll { timeout_ns: 10 });
    assert_eq!(next_pace(STATE, 500_000_000, 0), Pace::Poll { timeout_ns: 100_000_000 });
    assert_eq!(
        next_pace(STATE, 500_000_000, 400_000_000),
        Pace::Poll { timeout_ns: 100_000_000 }
    );
    assert_eq!(
        next_pace(STATE, 500_000_000, 400_000_001),
        Pace::Poll { timeout_ns: 99_999_999 }
    );
    assert_eq!(next_pace(paused, 10, 11), Pace::Poll { timeout_ns: 100_000_000 });
    assert_eq!(next_pace(paused, 10, 5), Pace::Poll { timeout_ns: 5 });
    assert_eq!(next_pace(STATE, u64::MAX, 0), Pace::Poll { timeout_ns: 100_000_000 });
    assert_eq!(next_pace(STATE, 0, 0), Pace::Poll { timeout_ns: 100_000_000 });
    assert_eq!(next_pace(STATE, 0, 1), Pace::NextEvent);
}

#[test]
fn screen_events_change_the_state() {
    assert_eq!(on_ui_event(STATE, UiEvent::NoEvent), STATE);
    assert_eq!(on_ui_event(STATE, UiEvent::Mouse), STATE);
    assert_eq!(on_ui_event(STATE, UiEvent::OtherKey), STATE);
    assert_eq!(on_ui_event(STATE, UiEvent::Quit), PlayerState { exit_requested: true, ..STATE });
    assert_eq!(
        on_ui_event(STATE, UiEvent::TogglePause),
        PlayerState { is_in_pause: true, ..STATE }
    );
    assert_eq!(
        on_ui_event(PlayerState { is_in_pause: true, ..STATE }, UiEvent::TogglePause),
        STATE
    );
    assert_eq!(
        on_ui_event(STATE, UiEvent::Resize { width: 200, height: 50 }),
        PlayerState { ref_x: 6, ref_y: 21, ..STATE }
    );
    assert_eq!(
        on_ui_event(STATE, UiEvent::Resize { width: 20, height: 5 }),
        PlayerState { ref_x: 0, ref_y: 0, ..STATE }
    );
}

#[test]
fn screen_events_while_listening() {
    assert_eq!(on_input_ui_event(STATE, UiEvent::TogglePause), STATE);
    assert_eq!(
        on_input_ui_event(STATE, UiEvent::Quit),
        PlayerState { exit_requested: true, ..STATE }
    );
    assert_eq!(
        on_input_ui_event(STATE, UiEvent::Resize { width: 190, height: 10 }),
        PlayerState { ref_x: 1, ref_y: 1, ..STATE }
    );
    assert_eq!(on_input_ui_event(STATE, UiEvent::NoEvent), STATE);
}

#[test]
fn time_between_moments() {
    let moment = |time_in_ns| MusicEvent {
        time_in_ns,
        midi_messages: vec![vec![0x90, 60, 64]],
        key_events: vec![],
    };
    let song = vec![moment(0), moment(500_000_000), moment(2_250_000_001)];
    assert_eq!(time_to_wait(&song, 0), Some(500_000_000));
    assert_eq!(time_to_wait(&song, 1), Some(1_750_000_001));
    assert_eq!(time_to_wait(&song, 2), None);
    assert_eq!(time_to_wait(&song, 3), None);
    assert_eq!(time_to_wait(&song, usize::MAX), None);
    assert_eq!(time_to_wait(&vec![], 0), None);
}

#[test]
fn seconds_and_nanoseconds() {
    assert_eq!(split_seconds(0), (0, 0));
    assert_eq!(split_seconds(999_999_999), (0, 999_999_999));
    assert_eq!(split_seconds(1_000_000_000), (1, 0));
    assert_eq!(split_seconds(1_750_000_001), (1, 750_000_001));
    assert_eq!(split_seconds(u64::MAX), (18_446_744_073, 709_551_615));
}
