//! The presses and releases of keys that the raw events of a song hold.

use vstd::prelude::*;
use crate::errors::KeyEventError;
use crate::midi_reader::{is_note_off, is_note_on, raw_time, MidiEvent, RawEvent};
use crate::seq_search::{
    first_index_where, last_index_where, lemma_first_index_is, lemma_last_index_is,
    lemma_last_index_where, lemma_no_index_where,
};
use crate::stable_sort::{
    is_sorted_by, lemma_sort_is_sorted, sort_by_key, sort_by_time, time_key, Timestamped,
};

verus! {

/// What happens to a key; the number is its pitch.
#[derive(Clone, Copy, Debug, PartialEq, Eq)]
pub enum KeyData {
    Pressed(u8),
    Released(u8),
}

impl KeyData {
    /// The pitch of the key.
    pub open spec fn spec_pitch(self) -> u8 {
        match self {
            KeyData::Pressed(pitch) => pitch,
            KeyData::Released(pitch) => pitch,
        }
    }

    /// The pitch of the key.
    #[verifier::when_used_as_spec(spec_pitch)]
    pub fn pitch(self) -> (pitch: u8)
        ensures
            pitch == self.spec_pitch(),
    {
        match self {
            KeyData::Pressed(pitch) => pitch,
            KeyData::Released(pitch) => pitch,
        }
    }
}

/// What happens to a key, and when.
#[derive(Clone, Copy, Debug, PartialEq, Eq)]
pub struct KeyEvent {
    pub data: KeyData,
    pub time_in_ns: u64,
}

impl Timestamped for KeyEvent {
    open spec fn timestamp(&self) -> u64 {
        self.time_in_ns
    }

    fn get_timestamp(&self) -> (t: u64) {
        self.time_in_ns
    }
}

/// The longest time by which a release is moved, in nanoseconds: 75 ms.
pub const MAX_SHORTENING_TIME_IN_NS: u64 = 75_000_000;

/// The key event that a raw event stands for, if any: a release for a message
/// that ends a note, a press for a note-on message that sounds.
pub open spec fn key_event_of(event: RawEvent) -> Option<KeyEvent> {
    if is_note_off(event.data) {
        Some(KeyEvent { data: KeyData::Released(event.data[1]), time_in_ns: event.time })
    } else if is_note_on(event.data) {
        Some(KeyEvent { data: KeyData::Pressed(event.data[1]), time_in_ns: event.time })
    } else {
        None
    }
}

/// `key_event_of` as a value.
pub open spec fn to_key_event() -> spec_fn(RawEvent) -> Option<KeyEvent> {
    |event: RawEvent| key_event_of(event)
}

/// No message both sounds a note and ends one.
pub proof fn lemma_press_release_exclusive(data: Seq<u8>)
    ensures
        !(is_note_on(data) && is_note_off(data)),
{
}

/// The test that a key event is the release of `pitch` at `time`.
pub open spec fn release_at(time: u64, pitch: u8) -> spec_fn(KeyEvent) -> bool {
    |e: KeyEvent| e.time_in_ns == time && e.data == KeyData::Released(pitch)
}

/// The test that a key event is a press of `pitch` before `time`.
pub open spec fn press_before(time: u64, pitch: u8) -> spec_fn(KeyEvent) -> bool {
    |e: KeyEvent| e.time_in_ns < time && e.data == KeyData::Pressed(pitch)
}

/// The release that the press `events[i]` shortens: the first release of its
/// pitch at its own time.
pub open spec fn shortened_release(events: Seq<KeyEvent>, i: int) -> Option<int> {
    match events[i].data {
        KeyData::Pressed(pitch) => first_index_where(
            events,
            release_at(events[i].time_in_ns, pitch),
        ),
        KeyData::Released(_) => None,
    }
}

/// The press that the release shortened by `events[i]` ends: the last press
/// of the same pitch before.
pub open spec fn previous_press(events: Seq<KeyEvent>, i: int) -> Option<int> {
    match events[i].data {
        KeyData::Pressed(pitch) => last_index_where(
            events,
            press_before(events[i].time_in_ns, pitch),
        ),
        KeyData::Released(_) => None,
    }
}

/// The press `events[i]` comes with a release of its pitch at its own time,
/// which ends no press.
pub open spec fn is_orphan_release(events: Seq<KeyEvent>, i: int) -> bool {
    shortened_release(events, i) is Some && previous_press(events, i) is None
}

/// By how much the press `events[i]` shortens the note before it: by a
/// quarter of its duration, and by 75 ms at most.
pub open spec fn shortening_time(events: Seq<KeyEvent>, i: int) -> nat {
    match previous_press(events, i) {
        Some(pressed) => {
            let duration = events[i].time_in_ns - events[pressed].time_in_ns;
            if duration / 4 < MAX_SHORTENING_TIME_IN_NS {
                (duration / 4) as nat
            } else {
                MAX_SHORTENING_TIME_IN_NS as nat
            }
        },
        None => 0,
    }
}

/// By how much the press `events[i]` moves `events[target]`.
pub open spec fn shortening_from(events: Seq<KeyEvent>, i: int, target: int) -> nat {
    if shortened_release(events, i) == Some(target) {
        shortening_time(events, i)
    } else {
        0
    }
}

/// By how much the first `upto` events move `events[target]`, all together.
pub open spec fn total_shortening(events: Seq<KeyEvent>, target: int, upto: int) -> nat
    decreases upto,
{
    if upto <= 0 {
        0
    } else {
        total_shortening(events, target, upto - 1) + shortening_from(events, upto - 1, target)
    }
}

/// `event`, earlier by `by`.
pub open spec fn moved_earlier(event: KeyEvent, by: nat) -> KeyEvent {
    KeyEvent { data: event.data, time_in_ns: (event.time_in_ns - by) as u64 }
}

/// The key events with the notes shortened that end just when their key is
/// pressed again. Every press that comes with a release of its pitch at its
/// own time moves the first such release earlier, by a quarter of the time
/// since the press before and by 75 ms at most. All moves are counted on the
/// times as they are given. No event changes its place.
pub open spec fn spec_separate(events: Seq<KeyEvent>) -> Result<Seq<KeyEvent>, KeyEventError> {
    if exists|i: int| 0 <= i < events.len() && #[trigger] is_orphan_release(events, i) {
        Err(KeyEventError::OrphanRelease)
    } else if exists|j: int|
        0 <= j < events.len() && #[trigger] total_shortening(events, j, events.len() as int)
            > events[j].time_in_ns {
        Err(KeyEventError::ShorteningUnderflow)
    } else {
        Ok(
            Seq::new(
                events.len(),
                |j: int| moved_earlier(events[j], total_shortening(events, j, events.len() as int)),
            ),
        )
    }
}

/// Among sorted events, the press that a shortened release ends is the
/// nearest before: no press of the pitch before the release is later.
pub proof fn lemma_previous_press_is_nearest(events: Seq<KeyEvent>, i: int, other: int)
    requires
        is_sorted_by(events, time_key::<KeyEvent>()),
        0 <= i < events.len(),
        0 <= other < events.len(),
        events[i].data matches KeyData::Pressed(pitch) && press_before(
            events[i].time_in_ns,
            pitch,
        )(events[other]),
    ensures
        previous_press(events, i) matches Some(pressed) && events[other].time_in_ns
            <= events[pressed].time_in_ns < events[i].time_in_ns,
{
    let pitch = events[i].data->Pressed_0;
    lemma_last_index_where(events, press_before(events[i].time_in_ns, pitch));
    let pressed = previous_press(events, i)->Some_0;
    assert(other <= pressed);
    assert(time_key::<KeyEvent>()(events[other]) <= time_key::<KeyEvent>()(events[pressed]));
}

/// No press shortens a note by more than 75 ms.
pub proof fn lemma_shortening_time_bound(events: Seq<KeyEvent>, i: int)
    ensures
        shortening_time(events, i) <= MAX_SHORTENING_TIME_IN_NS,
{
    if let KeyData::Pressed(pitch) = events[i].data {
        lemma_last_index_where(events, press_before(events[i].time_in_ns, pitch));
    }
}

/// The total shortening grows with the events counted, by 75 ms an event at
/// most.
pub proof fn lemma_total_shortening_bounds(events: Seq<KeyEvent>, target: int, upto: int)
    requires
        0 <= upto,
    ensures
        total_shortening(events, target, upto) <= upto * MAX_SHORTENING_TIME_IN_NS,
        forall|more: int|
            upto <= more ==> total_shortening(events, target, upto) <= #[trigger] total_shortening(
                events,
                target,
                more,
            ),
    decreases upto,
{
    if upto > 0 {
        lemma_total_shortening_bounds(events, target, upto - 1);
        lemma_shortening_time_bound(events, upto - 1);
        assert(upto * MAX_SHORTENING_TIME_IN_NS == (upto - 1) * MAX_SHORTENING_TIME_IN_NS
            + MAX_SHORTENING_TIME_IN_NS) by (nonlinear_arith);
    }
    assert forall|more: int| upto <= more implies total_shortening(events, target, upto)
        <= #[trigger] total_shortening(events, target, more) by {
        lemma_total_shortening_monotonic(events, target, upto, more);
    }
}

proof fn lemma_total_shortening_monotonic(events: Seq<KeyEvent>, target: int, upto: int, more: int)
    requires
        upto <= more,
    ensures
        total_shortening(events, target, upto) <= total_shortening(events, target, more),
    decreases more - upto,
{
    if upto < more {
        lemma_total_shortening_monotonic(events, target, upto, more - 1);
    }
}

/// The first release of `pitch` at `time`.
fn find_release(events: &Vec<KeyEvent>, time: u64, pitch: u8) -> (res: Option<usize>)
    ensures
        match res {
            Some(j) => j < events@.len() && release_at(time, pitch)(events@[j as int])
                && first_index_where(events@, release_at(time, pitch)) == Some(j as int),
            None => first_index_where(events@, release_at(time, pitch)).is_none(),
        },
{
    let mut j: usize = 0;
    while j < events.len()
        invariant
            j <= events.len(),
            forall|k: int| 0 <= k < j ==> !release_at(time, pitch)(#[trigger] events@[k]),
        decreases events.len() - j,
    {
        let found = match events[j].data {
            KeyData::Released(this_pitch) => events[j].time_in_ns == time && this_pitch == pitch,
            KeyData::Pressed(_) => false,
        };
        if found {
            proof {
                lemma_first_index_is(events@, release_at(time, pitch), j as int);
            }
            return Some(j);
        }
        j += 1;
    }
    proof {
        lemma_no_index_where(events@, release_at(time, pitch));
    }
    None
}

/// The last press of `pitch` before `time`.
fn find_previous_press(events: &Vec<KeyEvent>, time: u64, pitch: u8) -> (res: Option<usize>)
    ensures
        match res {
            Some(j) => j < events@.len() && press_before(time, pitch)(events@[j as int])
                && last_index_where(events@, press_before(time, pitch)) == Some(j as int),
            None => last_index_where(events@, press_before(time, pitch)).is_none(),
        },
{
    let mut j: usize = events.len();
    while j > 0
        invariant
            j <= events.len(),
            forall|k: int|
                j <= k < events.len() ==> !press_before(time, pitch)(#[trigger] events@[k]),
        decreases j,
    {
        j -= 1;
        let found = match events[j].data {
            KeyData::Pressed(this_pitch) => events[j].time_in_ns < time && this_pitch == pitch,
            KeyData::Released(_) => false,
        };
        if found {
            proof {
                lemma_last_index_is(events@, press_before(time, pitch), j as int);
            }
            return Some(j);
        }
    }
    proof {
        lemma_no_index_where(events@, press_before(time, pitch));
    }
    None
}

/// Shortens the notes that end just when their key is pressed again, so that
/// the release comes before the press. On an error the events stay as they
/// are.
pub fn separate_released_pressed_keys(keyboard_events: &mut Vec<KeyEvent>) -> (res: Result<
    (),
    KeyEventError,
>)
    requires
        is_sorted_by(old(keyboard_events)@, time_key::<KeyEvent>()),
    ensures
        match spec_separate(old(keyboard_events)@) {
            Ok(separated) => res == Ok::<(), KeyEventError>(()) && final(keyboard_events)@
                == separated,
            Err(e) => res == Err::<(), KeyEventError>(e) && final(keyboard_events)@ == old(
                keyboard_events,
            )@,
        },
{
    let ghost events = keyboard_events@;
    let n = keyboard_events.len();
    let mut totals: Vec<u128> = Vec::new();
    let mut i: usize = 0;
    while i < n
        invariant
            i <= n,
            totals@.len() == i,
            forall|j: int| 0 <= j < i ==> totals@[j] == 0,
        decreases n - i,
    {
        totals.push(0);
        i += 1;
    }
    i = 0;
    while i < n
        invariant
            i <= n,
            n == events.len(),
            keyboard_events@ == events,
            totals@.len() == n,
            forall|j: int|
                0 <= j < n ==> #[trigger] totals@[j] == total_shortening(events, j, i as int),
            forall|k: int| 0 <= k < i ==> !#[trigger] is_orphan_release(events, k),
        decreases n - i,
    {
        let k = keyboard_events[i];
        if let KeyData::Pressed(pitch) = k.data {
            let earliest_time = k.time_in_ns;
            if let Some(released_elt_index) = find_release(keyboard_events, earliest_time, pitch) {
                match find_previous_press(keyboard_events, earliest_time, pitch) {
                    Some(pressed_key_pos) => {
                        let duration = earliest_time - keyboard_events[pressed_key_pos].time_in_ns;
                        let shortening_time = if duration / 4 < MAX_SHORTENING_TIME_IN_NS {
                            duration / 4
                        } else {
                            MAX_SHORTENING_TIME_IN_NS
                        };
                        proof {
                            lemma_total_shortening_bounds(
                                events,
                                released_elt_index as int,
                                i as int,
                            );
                            assert(i * MAX_SHORTENING_TIME_IN_NS <= 0xFFFF_FFFF_FFFF_FFFF
                                * 75_000_000) by (nonlinear_arith)
                                requires
                                    i <= 0xFFFF_FFFF_FFFF_FFFF,
                                    MAX_SHORTENING_TIME_IN_NS == 75_000_000,
                            ;
                        }
                        let total = totals[released_elt_index] + shortening_time as u128;
                        totals[released_elt_index] = total;
                    },
                    None => {
                        assert(is_orphan_release(events, i as int));
                        return Err(KeyEventError::OrphanRelease);
                    },
                }
            }
        }
        i += 1;
    }
    let mut separated: Vec<KeyEvent> = Vec::new();
    let mut j: usize = 0;
    while j < n
        invariant
            j <= n,
            n == events.len(),
            keyboard_events@ == events,
            totals@.len() == n,
            separated@.len() == j,
            forall|t: int|
                0 <= t < n ==> #[trigger] totals@[t] == total_shortening(events, t, n as int),
            forall|k: int| 0 <= k < n ==> !#[trigger] is_orphan_release(events, k),
            forall|t: int|
                0 <= t < j ==> #[trigger] total_shortening(events, t, n as int)
                    <= events[t].time_in_ns,
            forall|t: int|
                0 <= t < j ==> #[trigger] separated@[t] == moved_earlier(
                    events[t],
                    total_shortening(events, t, n as int),
                ),
        decreases n - j,
    {
        let event = keyboard_events[j];
        if totals[j] > event.time_in_ns as u128 {
            return Err(KeyEventError::ShorteningUnderflow);
        }
        separated.push(
            KeyEvent { data: event.data, time_in_ns: event.time_in_ns - totals[j] as u64 },
        );
        j += 1;
    }
    *keyboard_events = separated;
    Ok(())
}

/// The key events of a song: those that its raw events stand for, with the
/// notes shortened that end just when their key is pressed again, in
/// ascending order of time, events of one time in the order of the raw events.
pub open spec fn spec_get_key_events(events: Seq<RawEvent>) -> Result<
    Seq<KeyEvent>,
    KeyEventError,
> {
    match spec_separate(events.filter_map(to_key_event())) {
        Err(e) => Err(e),
        Ok(separated) => Ok(sort_by_key(separated, time_key::<KeyEvent>())),
    }
}

/// Tells the presses and releases of keys from the raw events of a song,
/// which come in ascending order of time.
pub fn get_key_events(midi_events: Vec<MidiEvent>) -> (res: Result<Vec<KeyEvent>, KeyEventError>)
    requires
        is_sorted_by(midi_events.deep_view(), raw_time()),
    ensures
        match spec_get_key_events(midi_events.deep_view()) {
            Ok(keys) => res matches Ok(v) && v@ == keys && is_sorted_by(
                v@,
                time_key::<KeyEvent>(),
            ),
            Err(e) => res matches Err(err) && err == e,
        },
{
    let ghost input = midi_events.deep_view();
    let mut res: Vec<KeyEvent> = Vec::new();
    for ev in it: midi_events
        invariant
            it.seq() == midi_events@,
            input == midi_events.deep_view(),
            is_sorted_by(input, raw_time()),
            res@ == input.take(it.index() as int).filter_map(to_key_event()),
            is_sorted_by(res@, time_key::<KeyEvent>()),
            forall|k: int, j: int|
                0 <= k < res@.len() && it.index() <= j < input.len() ==> (
                #[trigger] res@[k]).time_in_ns <= (#[trigger] input[j]).time,
    {
        let ghost index = it.index() as int;
        proof {
            input.lemma_filter_map_take_succ(to_key_event(), index);
            lemma_press_release_exclusive(ev.data@);
        }
        if ev.is_key_released() {
            let pitch: u8 = ev.get_pitch().unwrap();
            res.push(KeyEvent { data: KeyData::Released(pitch), time_in_ns: ev.time });
        }
        if ev.is_key_pressed() {
            let pitch: u8 = ev.get_pitch().unwrap();
            res.push(KeyEvent { data: KeyData::Pressed(pitch), time_in_ns: ev.time });
        }
    }
    assert(input.take(input.len() as int) == input);
    separate_released_pressed_keys(&mut res)?;
    proof {
        lemma_sort_is_sorted(res@, time_key::<KeyEvent>());
    }
    Ok(sort_by_time(res))
}

} // verus!
